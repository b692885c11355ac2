use std::collections::{BTreeSet, HashMap};

use lsm_vec::error::{LsmVecError, Result};
use lsm_vec::graph_store::{GraphStore, Record};
use lsm_vec::index::{HnswIndex, IndexStats};
use lsm_vec::protocol::{Action, Reply};
use lsm_vec::scalar::Scalar;
use lsm_vec::types::{LsmVecConfig, NodeMetadata};
use lsm_vec::vector_file::{VectorFile, Write};
use rand::rngs::StdRng;
use rand::{Rng, SeedableRng};
use rand_distr::{Distribution, StandardNormal};

/// An index whose store and vector file are kept in memory.
struct World {
    index: HnswIndex,
    kv: HashMap<Vec<u8>, Vec<u8>>,
    file: VectorFile,
    image: Vec<u8>,
    projections: Vec<Vec<f32>>,
    levels: Vec<u8>,
    rng: StdRng,
}

fn scalar(value: f32) -> Scalar {
    Scalar::from_bits(value.to_bits())
}

fn scalars(values: &[f32]) -> Vec<Scalar> {
    values.iter().map(|v| scalar(*v)).collect()
}

fn distance(a: &[f32], b: &[f32]) -> f32 {
    a.iter().zip(b).map(|(x, y)| (x - y) * (x - y)).sum::<f32>().sqrt()
}

impl World {
    fn open(config: LsmVecConfig) -> World {
        let mut rng = StdRng::seed_from_u64(42);
        let projections = (0..config.simhash_bits)
            .map(|_| (0..config.dimension).map(|_| StandardNormal.sample(&mut rng)).collect())
            .collect();
        let (file, header) = VectorFile::open(config.dimension, None).unwrap();
        World {
            index: HnswIndex::new(config, None),
            kv: HashMap::new(),
            file,
            image: header.unwrap(),
            projections,
            levels: Vec::new(),
            rng: StdRng::seed_from_u64(7),
        }
    }

    fn reopen(&mut self) {
        let config = self.index.config();
        let entry = GraphStore::get_entry_point(self.found(&GraphStore::entry_key()));
        self.index = HnswIndex::new(config, entry);
        self.file = VectorFile::open(config.dimension, Some(&self.image)).unwrap().0;
    }

    fn found(&self, key: &[u8]) -> Option<&[u8]> {
        self.kv.get(key).map(|v| v.as_slice())
    }

    fn keep(&mut self, record: Record) -> Reply {
        self.kv.insert(record.key.to_vec(), record.value.to_vec());
        Reply::Done
    }

    fn write(&mut self, write: Write) {
        let start = write.offset as usize;
        let end = start + write.bytes.len();
        if self.image.len() < end {
            self.image.resize(end, 0);
        }
        self.image[start..end].copy_from_slice(&write.bytes);
    }

    fn count(&self) -> u64 {
        self.file.count(&self.image[16..24]).unwrap()
    }

    fn get(&self, id: u64) -> Option<Vec<f32>> {
        let (offset, size) = self.file.locate(id, self.image.len() as u64)?;
        let bytes = &self.image[offset as usize..(offset + size) as usize];
        let vector = self.file.get(id, self.count(), bytes)?;
        Some(vector.iter().map(|s| f32::from_bits(s.bits)).collect())
    }

    fn between(&self, from: u64, to: u64) -> Option<Scalar> {
        Some(scalar(distance(&self.get(from)?, &self.get(to)?)))
    }

    fn perform(&mut self, action: Action, vector: &[f32]) -> Result<Reply> {
        if let Some(reply) = self.index.serve(&action) {
            return Ok(reply);
        }
        Ok(match action {
            Action::Append => {
                let (id, write) = self.file.append(self.count(), &scalars(vector))?;
                self.write(write);
                if let Some(write) = self.file.counted(id, self.count()) {
                    self.write(write);
                }
                Reply::Appended(id)
            }
            Action::Project => Reply::Projections(
                self.projections
                    .iter()
                    .map(|p| scalar(p.iter().zip(vector).map(|(x, y)| x * y).sum()))
                    .collect(),
            ),
            Action::DrawLevel => Reply::Level(match self.levels.pop() {
                Some(level) => level,
                None => {
                    let f: f64 = self.rng.random();
                    let m_level = 1.0 / (self.index.config().m as f64).ln();
                    (-f.ln() * m_level).floor() as u8
                }
            }),
            Action::GetMetadata(id) => {
                Reply::Metadata(GraphStore::get_metadata(self.found(&GraphStore::meta_key(id))))
            }
            Action::PutMetadata(meta) => self.keep(GraphStore::put_metadata(&meta)),
            Action::DeleteMetadata(id) => {
                self.kv.remove(&GraphStore::delete_metadata(id)[..]);
                Reply::Done
            }
            Action::GetNeighbors { id, .. } => Reply::Neighbors(
                GraphStore::get_neighbors(self.found(&GraphStore::edge_key(id))).unwrap_or_default(),
            ),
            Action::SetNeighbors { id, neighbors, .. } => {
                self.keep(GraphStore::put_neighbors(id, &neighbors))
            }
            Action::DeleteNeighbors(id) => {
                self.kv.remove(&GraphStore::delete_neighbors(id)[..]);
                Reply::Done
            }
            Action::PutEntryPoint { id, layer } => self.keep(GraphStore::put_entry_point(id, layer)),
            Action::DeleteEntryPoint => {
                self.kv.remove(&GraphStore::delete_entry_point()[..]);
                Reply::Done
            }
            Action::Measure(id) => {
                Reply::Distance(self.get(id).map(|v| scalar(distance(vector, &v))))
            }
            Action::CountVectors => Reply::Count(self.count()),
            Action::Probe(id) => Reply::Present(self.get(id).is_some()),
            Action::Compare { from, to } => Reply::Distance(self.between(from, to)),
            Action::Score { from, to } => Reply::Distance(self.between(from, to)),
            Action::Proceed | Action::Finish => Reply::Done,
        })
    }

    fn insert(&mut self, vector: &[f32]) -> Result<u64> {
        let mut insertion = self.index.insert();
        loop {
            match insertion.request() {
                Action::Finish => return Ok(insertion.id()),
                action => {
                    let reply = self.perform(action, vector)?;
                    insertion.step(&mut self.index, reply);
                }
            }
        }
    }

    fn insert_at(&mut self, level: u8, vector: &[f32]) -> u64 {
        self.levels = vec![level];
        self.insert(vector).unwrap()
    }

    fn delete(&mut self, id: u64) {
        let mut deletion = self.index.delete(id);
        loop {
            match deletion.request() {
                Action::Finish => return,
                action => {
                    let reply = self.perform(action, &[]).unwrap();
                    deletion.step(&mut self.index, reply);
                }
            }
        }
    }

    fn search(&mut self, vector: &[f32], k: usize) -> Vec<(u64, f32)> {
        let ef = self.index.config().ef_search;
        self.search_with_ef(vector, k, ef)
    }

    fn search_with_ef(&mut self, vector: &[f32], k: usize, ef: usize) -> Vec<(u64, f32)> {
        let mut query = if ef == self.index.config().ef_search {
            self.index.search(k)
        } else {
            self.index.search_with_ef(k, ef)
        };
        loop {
            match query.request() {
                Action::Finish => {
                    return query
                        .results()
                        .iter()
                        .map(|r| (r.id, f32::from_bits(r.distance.bits)))
                        .collect()
                }
                action => {
                    let reply = self.perform(action, vector).unwrap();
                    query.step(&self.index, reply);
                }
            }
        }
    }

    fn edges(&mut self, id: u64, layer: u8) -> Vec<u64> {
        match self.perform(Action::GetNeighbors { id, layer }, &[]) {
            Ok(Reply::Neighbors(list)) => list,
            _ => unreachable!(),
        }
    }

    fn metadata(&self, id: u64) -> Option<NodeMetadata> {
        GraphStore::get_metadata(self.found(&GraphStore::meta_key(id)))
    }

    fn stored_entry(&self) -> Option<(u64, u8)> {
        GraphStore::get_entry_point(self.found(&GraphStore::entry_key()))
    }

    fn stats(&self) -> IndexStats {
        self.index.stats(Some(self.count()))
    }

    /// Every list of neighbours is within its limit, without repetition and
    /// without its own node, and the entry point is kept twice.
    fn assert_sound(&mut self) {
        let config = self.index.config();
        for id in 0..self.count() {
            for layer in 0..16u8 {
                let list = self.edges(id, layer);
                assert!(list.len() <= config.max_neighbors(layer));
                assert!(!list.contains(&id));
                assert_eq!(list.iter().collect::<BTreeSet<_>>().len(), list.len());
                assert!(list.iter().all(|v| *v < self.count()));
            }
        }
        assert_eq!(self.index.entry_point(), self.stored_entry());
        if let Some((entry, layer)) = self.stored_entry() {
            assert_eq!(self.metadata(entry), Some(NodeMetadata { id: entry, max_layer: layer }));
        }
    }

    fn random_vector(&mut self, dimension: usize) -> Vec<f32> {
        (0..dimension).map(|_| self.rng.random_range(-1.0..1.0)).collect()
    }
}

fn found_ids(hits: &[(u64, f32)]) -> Vec<u64> {
    hits.iter().map(|h| h.0).collect()
}

#[test]
fn test_insert_and_search() {
    let mut vec_db = World::open(LsmVecConfig::new(4));

    let id1 = vec_db.insert(&[1.0, 0.0, 0.0, 0.0]).unwrap();
    let id2 = vec_db.insert(&[0.9, 0.1, 0.0, 0.0]).unwrap();
    let id3 = vec_db.insert(&[0.0, 1.0, 0.0, 0.0]).unwrap();

    assert_eq!(id1, 0);
    assert_eq!(id2, 1);
    assert_eq!(id3, 2);

    let results = vec_db.search(&[1.0, 0.0, 0.0, 0.0], 2);

    assert_eq!(results.len(), 2);
    assert_eq!(results[0].0, id1);
    assert!(results[0].1 < 0.001);
}

#[test]
fn test_get_vector() {
    let mut vec_db = World::open(LsmVecConfig::new(3));

    let v = vec![1.0, 2.0, 3.0];
    let id = vec_db.insert(&v).unwrap();

    let retrieved = vec_db.get(id);
    assert_eq!(retrieved, Some(v));

    assert!(vec_db.get(999).is_none());
}

#[test]
fn test_delete() {
    let mut vec_db = World::open(LsmVecConfig::new(4));

    let id1 = vec_db.insert(&[1.0, 0.0, 0.0, 0.0]).unwrap();
    let id2 = vec_db.insert(&[0.9, 0.1, 0.0, 0.0]).unwrap();
    let id3 = vec_db.insert(&[0.8, 0.2, 0.0, 0.0]).unwrap();

    vec_db.delete(id1);

    let results = vec_db.search(&[0.9, 0.1, 0.0, 0.0], 10);

    assert!(!results.is_empty(), "Search should find results after delete");
    assert_eq!(results[0].0, id2);

    let ids = found_ids(&results);
    assert!(ids.contains(&id2));
    assert!(ids.contains(&id3));
    assert!(!ids.contains(&id1));
}

#[test]
fn test_many_vectors() {
    let mut vec_db = World::open(LsmVecConfig::new(8));

    for _ in 0..100 {
        let v = vec_db.random_vector(8);
        vec_db.insert(&v).unwrap();
    }

    let stats = vec_db.stats();
    assert_eq!(stats.vector_count, 100);

    let query = vec_db.random_vector(8);
    let results = vec_db.search(&query, 10);
    assert_eq!(results.len(), 10);

    for i in 1..results.len() {
        assert!(results[i - 1].1 <= results[i].1);
    }
}

#[test]
fn an_empty_index_yields_nothing() {
    let mut world = World::open(LsmVecConfig::new(2));
    assert!(world.search(&[1.0, 0.0], 5).is_empty());
    assert_eq!(
        world.index.stats(None),
        IndexStats { vector_count: 0, upper_layer_nodes: 0, simhash_count: 0 }
    );
}

#[test]
fn the_first_vector_is_found_alone() {
    let mut world = World::open(LsmVecConfig::new(2));
    let id = world.insert_at(3, &[1.0, 0.0]);
    assert_eq!(world.stored_entry(), Some((id, 3)));
    assert_eq!(world.index.entry_point(), Some((id, 3)));
    assert_eq!(world.search(&[4.0, 4.0], 7), vec![(id, 5.0)]);
    assert!(world.search(&[4.0, 4.0], 0).is_empty());
}

#[test]
fn hits_are_true_sorted_and_distinct() {
    let mut world = World::open(LsmVecConfig::new(4));
    for _ in 0..60 {
        let v = world.random_vector(4);
        world.insert(&v).unwrap();
    }
    world.assert_sound();
    let query = world.random_vector(4);
    for (k, ef) in [(1, 1), (5, 3), (10, 60), (200, 1)] {
        let before = world.kv.clone();
        let hits = world.search_with_ef(&query, k, ef);
        assert_eq!(world.kv, before);
        assert!(!hits.is_empty() && hits.len() <= k);
        for (id, d) in &hits {
            assert_eq!(*d, distance(&query, &world.get(*id).unwrap()));
        }
        assert!(hits.windows(2).all(|w| w[0].1 <= w[1].1));
        assert_eq!(found_ids(&hits).into_iter().collect::<BTreeSet<_>>().len(), hits.len());
    }
}

#[test]
fn levels_are_capped() {
    assert_eq!(HnswIndex::random_level(0), 0);
    assert_eq!(HnswIndex::random_level(14), 14);
    assert_eq!(HnswIndex::random_level(15), 15);
    assert_eq!(HnswIndex::random_level(255), 15);

    let mut world = World::open(LsmVecConfig::new(1));
    let id = world.insert_at(200, &[1.0]);
    assert_eq!(world.metadata(id), Some(NodeMetadata { id, max_layer: 15 }));
}

#[test]
fn the_highest_node_is_the_entry() {
    let mut world = World::open(LsmVecConfig::new(2));
    let a = world.insert_at(1, &[1.0, 0.0]);
    world.insert_at(1, &[1.0, 0.1]);
    assert_eq!(world.stored_entry(), Some((a, 1)));
    let c = world.insert_at(4, &[1.0, 0.2]);
    assert_eq!(world.stored_entry(), Some((c, 4)));
    world.insert_at(0, &[1.0, 0.3]);
    assert_eq!(world.stored_entry(), Some((c, 4)));
    world.assert_sound();
    // The new top node is linked only as high as the earlier top.
    assert!(world.edges(c, 2).is_empty());
    assert!(!world.edges(c, 1).is_empty());
}

#[test]
fn links_go_both_ways_until_there_are_too_many() {
    let config = LsmVecConfig::new(2).with_m_max(2);
    let mut world = World::open(config);
    let a = world.insert_at(0, &[1.0, 0.0]);
    let b = world.insert_at(0, &[1.0, 0.4]);
    assert_eq!(world.edges(b, 0), vec![a]);
    assert_eq!(world.edges(a, 0), vec![b]);
    let c = world.insert_at(0, &[1.0, -0.3]);
    assert_eq!(world.edges(c, 0), vec![a]);
    assert_eq!(world.edges(a, 0), vec![b, c]);
    // A third link does not fit: the farthest goes.
    let d = world.insert_at(0, &[1.0, -0.1]);
    assert_eq!(world.edges(d, 0), vec![a, c]);
    assert_eq!(world.edges(a, 0), vec![d, c]);
    assert_eq!(world.edges(c, 0), vec![a, d]);
    assert_eq!(world.edges(b, 0), vec![a]);
    world.assert_sound();
}

#[test]
fn deleting_an_unknown_node_changes_nothing() {
    let mut world = World::open(LsmVecConfig::new(2));
    world.insert_at(1, &[1.0, 0.0]);
    world.insert_at(0, &[1.0, 0.1]);
    let (kv, stats) = (world.kv.clone(), world.stats());
    world.delete(17);
    assert_eq!(world.kv, kv);
    assert_eq!(world.stats(), stats);
}

#[test]
fn a_deleted_node_is_gone() {
    let mut world = World::open(LsmVecConfig::new(2));
    let nodes: Vec<u64> =
        (0..6).map(|i| world.insert_at((i % 3) as u8, &[1.0, i as f32 * 0.05])).collect();
    let gone = nodes[2];
    assert_eq!(world.stored_entry(), Some((gone, 2)));
    let ground = world.edges(gone, 0);
    assert!(!ground.is_empty());
    world.delete(gone);

    assert_eq!(world.metadata(gone), None);
    assert!(world.index.sampler().get_hash(gone).is_none());
    assert_eq!(world.stats().simhash_count, 5);
    for layer in 0..16 {
        assert!(world.edges(gone, layer).is_empty());
        for id in &nodes {
            assert!(!world.edges(*id, layer).contains(&gone));
        }
    }
    // Its place is taken by the first of its highest neighbours.
    let best = ground.iter().filter_map(|id| world.metadata(*id)).map(|m| m.max_layer).max();
    let heir = ground.iter().find(|id| world.metadata(**id).map(|m| m.max_layer) == best);
    assert_eq!(world.stored_entry(), Some((*heir.unwrap(), best.unwrap())));
    world.assert_sound();
    assert!(!found_ids(&world.search(&[1.0, 0.1], 10)).contains(&gone));
    // The vector itself stays in the file.
    assert_eq!(world.get(gone), Some(vec![1.0, 0.1]));
}

#[test]
fn neighbours_of_a_deleted_node_are_relinked() {
    let mut world = World::open(LsmVecConfig::new(2));
    let hub = world.insert_at(0, &[1.0, 0.0]);
    let up = world.insert_at(0, &[1.0, 0.3]);
    let down = world.insert_at(0, &[1.0, -0.3]);
    assert_eq!(world.edges(up, 0), vec![hub]);
    assert_eq!(world.edges(down, 0), vec![hub]);
    world.delete(hub);
    assert_eq!(world.edges(up, 0), vec![down]);
    assert_eq!(world.edges(down, 0), vec![up]);
    assert_eq!(world.stored_entry(), Some((up, 0)));
    assert_eq!(found_ids(&world.search(&[1.0, -0.2], 5)), vec![down, up]);
}

#[test]
fn a_deleted_node_is_out_of_reach_though_links_went_one_way() {
    let mut world = World::open(LsmVecConfig::new(2).with_m_max(1));
    let first = world.insert_at(0, &[1.0, 0.0]);
    let gone = world.insert_at(0, &[1.0, 0.05]);
    let last = world.insert_at(0, &[1.0, 0.06]);
    assert_eq!(world.edges(first, 0), vec![gone]);
    assert_eq!(world.edges(gone, 0), vec![last]);
    assert_eq!(world.edges(last, 0), vec![gone]);
    assert_eq!(world.stored_entry(), Some((first, 0)));
    assert!(found_ids(&world.search(&[1.0, 0.05], 3)).contains(&gone));

    world.delete(gone);
    assert!(world.edges(first, 0).is_empty());
    assert!(world.edges(last, 0).is_empty());
    for (k, ef) in [(1, 1), (3, 3), (10, 100)] {
        assert_eq!(found_ids(&world.search_with_ef(&[1.0, 0.05], k, ef)), vec![first]);
    }
    assert!(!world.kv.contains_key(&GraphStore::edge_key(gone).to_vec()));
}

#[test]
fn a_deletion_leaves_other_lists_as_they_were() {
    let mut world = World::open(LsmVecConfig::new(1));
    for i in 0..4 {
        world.insert_at(3, &[1.0 + i as f32 * 0.1]);
    }
    for (id, layer, list) in [
        (0, 0, vec![1, 2, 3]),
        (1, 0, vec![3]),
        (2, 0, vec![3, 0]),
        (3, 0, vec![0, 2]),
        (0, 2, vec![2]),
        (1, 2, vec![2, 0]),
        (2, 2, vec![]),
        (3, 2, vec![1, 0]),
        (3, 9, vec![2, 1, 0]),
    ] {
        world.perform(Action::SetNeighbors { id, layer, neighbors: list }, &[]).unwrap();
    }
    world.delete(2);
    // Neither a neighbour of the deleted node nor a list that named it.
    assert_eq!(world.edges(1, 0), vec![3]);
    assert_eq!(world.edges(3, 2), vec![1, 0]);
    // Lists that named it without being its neighbours lose it alone.
    assert_eq!(world.edges(0, 2), Vec::<u64>::new());
    assert_eq!(world.edges(1, 2), vec![0]);
    assert_eq!(world.edges(3, 9), vec![1, 0]);
    // Its neighbours choose anew, the nearest first.
    assert_eq!(world.edges(3, 0), vec![0]);
    assert_eq!(world.edges(0, 0), vec![1, 3]);
    assert!((1..16).all(|layer| !world.index.upper_graph().contains(2, layer)));
}

#[test]
fn a_new_node_has_neighbours_on_every_layer_it_shares() {
    let config = LsmVecConfig::new(2).with_m(1).with_m_max(1).with_ef_construction(1);
    let mut world = World::open(config);
    world.insert_at(2, &[1.0, 0.0]);
    for level in [0u8, 1, 2, 3, 1, 0] {
        let top = world.stored_entry().unwrap().1;
        let v = world.random_vector(2);
        let id = world.insert_at(level, &v);
        for layer in 0..=level.min(top) {
            assert_eq!(world.edges(id, layer).len(), 1);
        }
    }
}

#[test]
fn codes_are_counted_while_the_index_stays_open() {
    let mut world = World::open(LsmVecConfig::new(2));
    let mut living = 0;
    for round in 0..40u64 {
        if round % 3 == 2 {
            let id = world.rng.random_range(0..world.count());
            if world.metadata(id).is_some() {
                living -= 1;
            }
            world.delete(id);
        } else {
            let v = world.random_vector(2);
            world.insert(&v).unwrap();
            living += 1;
        }
        assert_eq!(world.stats().simhash_count, living);
        for id in 0..world.count() {
            let coded = world.index.sampler().get_hash(id).is_some();
            assert_eq!(coded, world.metadata(id).is_some());
        }
    }
}

#[test]
fn deleted_nodes_are_gone_for_good() {
    let config = LsmVecConfig::new(2).with_m(2).with_m_max(2).with_ef_construction(4);
    let mut world = World::open(config);
    let mut gone: Vec<u64> = Vec::new();
    for round in 0..90u64 {
        if round % 3 == 2 {
            let id = world.rng.random_range(0..world.count());
            world.delete(id);
            gone.push(id);
        } else {
            let v = world.random_vector(2);
            world.insert(&v).unwrap();
        }
        if round == 45 {
            world.reopen();
        }
        let query = world.random_vector(2);
        let hits = found_ids(&world.search_with_ef(&query, 100, 100));
        for id in &gone {
            assert!(!hits.contains(id));
            assert_eq!(world.metadata(*id), None);
        }
        for id in hits {
            assert!(world.metadata(id).is_some());
        }
        for id in 0..world.count() {
            for layer in 0..16u8 {
                assert!(world.edges(id, layer).iter().all(|v| world.metadata(*v).is_some()));
            }
        }
    }
}

#[test]
fn deleting_the_last_node_empties_the_index() {
    let mut world = World::open(LsmVecConfig::new(2));
    let id = world.insert_at(2, &[1.0, 0.0]);
    world.delete(id);
    assert_eq!(world.stored_entry(), None);
    assert_eq!(world.index.entry_point(), None);
    assert!(world.kv.is_empty());
    assert!(world.search(&[1.0, 0.0], 3).is_empty());
    // Numbers are not given out again.
    assert_eq!(world.insert_at(0, &[1.0, 0.0]), 1);
    assert_eq!(found_ids(&world.search(&[1.0, 0.0], 3)), vec![1]);
}

#[test]
fn an_index_stays_sound_through_its_life() {
    let config = LsmVecConfig::new(3).with_m(3).with_m_max(4).with_ef_construction(12);
    let mut world = World::open(config);
    for round in 0..120u64 {
        if round % 4 == 3 {
            let id = world.rng.random_range(0..world.count());
            world.delete(id);
            assert_eq!(world.metadata(id), None);
        } else {
            let v = world.random_vector(3);
            world.insert(&v).unwrap();
        }
        if round == 60 {
            let ground: Vec<Vec<u64>> = (0..world.count()).map(|id| world.edges(id, 0)).collect();
            world.reopen();
            let again: Vec<Vec<u64>> = (0..world.count()).map(|id| world.edges(id, 0)).collect();
            assert_eq!(ground, again);
            assert_eq!(world.stats().upper_layer_nodes, 0);
            assert_eq!(world.stats().simhash_count, 0);
        }
        world.assert_sound();
    }
}

#[test]
fn a_vector_of_another_dimension_is_refused_before_anything_happens() {
    let mut world = World::open(LsmVecConfig::new(2));
    let refusal = LsmVecError::InvalidDimension { expected: 2, actual: 1 };
    assert_eq!(world.insert(&[1.0]), Err(refusal));
    assert!(world.kv.is_empty());
    assert_eq!(world.count(), 0);
    assert_eq!(world.stats().simhash_count, 0);
}

#[test]
fn upper_edges_are_served_from_memory() {
    let mut index = HnswIndex::new(LsmVecConfig::new(2), Some((4, 1)));
    assert_eq!(index.entry_point(), Some((4, 1)));
    let set = Action::SetNeighbors { id: 1, layer: 2, neighbors: vec![7, 8] };
    assert!(matches!(index.serve(&set), Some(Reply::Done)));
    match index.serve(&Action::GetNeighbors { id: 1, layer: 2 }) {
        Some(Reply::Neighbors(list)) => assert_eq!(list, vec![7, 8]),
        _ => unreachable!(),
    }
    match index.serve(&Action::GetNeighbors { id: 1, layer: 3 }) {
        Some(Reply::Neighbors(list)) => assert!(list.is_empty()),
        _ => unreachable!(),
    }
    assert_eq!(index.upper_graph().total_nodes(), 1);
    assert!(index.serve(&Action::GetNeighbors { id: 1, layer: 0 }).is_none());
    assert!(index.serve(&Action::Append).is_none());
}

#[test]
fn an_unfilled_search_is_exact() {
    let mut world = World::open(LsmVecConfig::new(2));
    for i in 0..20u32 {
        world.insert(&[1.0, (i * 7 % 20) as f32 * 0.01]).unwrap();
    }
    let query = [1.0, 0.083];
    let mut all: Vec<(u64, f32)> =
        (0..20).map(|id| (id, distance(&query, &world.get(id).unwrap()))).collect();
    all.sort_by(|a, b| a.1.partial_cmp(&b.1).unwrap());
    assert_eq!(world.search(&query, 100), all);
    assert_eq!(world.search(&query, 5), all[..5].to_vec());
    // A width that just covers all nodes is enough.
    assert_eq!(world.search_with_ef(&query, 20, 20), all);
    assert_eq!(world.search_with_ef(&query, 6, 20), all[..6].to_vec());
    // The first hit of a narrow search is no farther than the entry point.
    let (entry, _) = world.stored_entry().unwrap();
    let entry_distance = all.iter().find(|hit| hit.0 == entry).unwrap().1;
    assert!(world.search_with_ef(&query, 1, 1)[0].1 <= entry_distance);
}

#[test]
fn inserted_vectors_are_kept_and_every_query_finds_something() {
    let config = LsmVecConfig::new(3).with_m(2).with_m_max(3).with_ef_construction(6);
    let mut world = World::open(config);
    let mut inserted: Vec<Vec<f32>> = Vec::new();
    for round in 0..80u64 {
        if round % 4 == 3 {
            let id = world.rng.random_range(0..world.count());
            world.delete(id);
        } else {
            let v = world.random_vector(3);
            assert_eq!(world.insert(&v), Ok(inserted.len() as u64));
            inserted.push(v);
        }
        if round % 25 == 24 {
            world.reopen();
        }
        assert_eq!(world.count(), inserted.len() as u64);
        for (id, v) in inserted.iter().enumerate() {
            assert_eq!(world.get(id as u64).as_ref(), Some(v));
        }
        assert_eq!(world.get(world.count()), None);
        if world.stored_entry().is_some() {
            let query = world.random_vector(3);
            assert!(!world.search_with_ef(&query, 1, 1).is_empty());
        }
    }
}
