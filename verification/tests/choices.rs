use std::collections::HashSet;

use lsm_vec::distinct::{drop_node, take_fresh};
use lsm_vec::layer_search::{LayerSearch, Want};
use lsm_vec::ranking::{leading_ids, nearest_ids, place, rank_all, Candidate};
use lsm_vec::scalar::Scalar;
use lsm_vec::scoring::Scoring;
use lsm_vec::selection::{Doubt, Selection};
use lsm_vec::simhash::SimHashSampler;
use lsm_vec::types::{DistanceMetric, LsmVecConfig};

fn scalar(value: f32) -> Scalar {
    Scalar::from_bits(value.to_bits())
}

fn candidate(id: u64, distance: f32) -> Candidate {
    Candidate { id, distance: scalar(distance) }
}

fn ids(list: &[Candidate]) -> Vec<u64> {
    list.iter().map(|c| c.id).collect()
}

#[test]
fn the_arithmetic_order_is_that_of_floats() {
    let values = [
        f32::NEG_INFINITY,
        f32::MIN,
        -1.5,
        -f32::MIN_POSITIVE,
        -0.0,
        0.0,
        f32::from_bits(1),
        1.0,
        1.0000001,
        f32::MAX,
        f32::INFINITY,
        f32::NAN,
        -f32::NAN,
    ];
    for a in values {
        assert_eq!(scalar(a).is_nan(), a.is_nan());
        assert_eq!(scalar(a).is_at_least_zero(), a >= 0.0);
        for b in values {
            assert_eq!(scalar(a).is_below(scalar(b)), a < b, "{} < {}", a, b);
        }
    }
}

#[test]
fn the_total_order_puts_nan_last_and_zeros_together() {
    assert_eq!(scalar(0.0).order_key(), scalar(-0.0).order_key());
    assert_eq!(scalar(f32::NAN).order_key(), scalar(-f32::NAN).order_key());
    assert!(scalar(f32::NAN).order_key() > scalar(f32::INFINITY).order_key());
    assert!(scalar(-1.0).order_key() < scalar(-0.5).order_key());
    assert!(scalar(-0.5).order_key() < scalar(0.25).order_key());
}

#[test]
fn ranking_is_stable() {
    let list = [
        candidate(1, 2.0),
        candidate(2, 1.0),
        candidate(3, f32::NAN),
        candidate(4, 1.0),
        candidate(5, 2.0),
        candidate(6, -3.0),
    ];
    assert_eq!(ids(&rank_all(&list)), vec![6, 2, 4, 1, 5, 3]);
    assert_eq!(nearest_ids(&list, 3), vec![6, 2, 4]);
    assert_eq!(nearest_ids(&list, 100), vec![6, 2, 4, 1, 5, 3]);
    assert_eq!(nearest_ids(&list, 0), Vec::<u64>::new());
    assert_eq!(leading_ids(&list, 2), vec![1, 2]);
}

#[test]
fn newcomers_go_behind_their_equals() {
    let mut list = Vec::new();
    place(&mut list, candidate(1, 1.0));
    place(&mut list, candidate(2, 1.0));
    place(&mut list, candidate(3, 0.5));
    place(&mut list, candidate(4, 0.75));
    assert_eq!(ids(&list), vec![3, 4, 1, 2]);
}

#[test]
fn fresh_nodes_come_once() {
    let mut seen: HashSet<u64> = HashSet::new();
    seen.insert(5);
    assert_eq!(take_fresh(&[3, 5, 3, 1], &mut seen), vec![3, 1]);
    assert_eq!(take_fresh(&[1, 2], &mut seen), vec![2]);
    assert_eq!(seen.len(), 4);
}

#[test]
fn a_node_is_dropped_wherever_it_stands() {
    assert_eq!(drop_node(&[3, 5, 3, 1], 3), (vec![5, 1], true));
    assert_eq!(drop_node(&[3, 5], 4), (vec![3, 5], false));
    assert_eq!(drop_node(&[4], 4), (vec![], true));
}

#[test]
fn selection_leaves_out_the_crowded() {
    // Nodes on a line; the new node is at 0.
    let place_of = |id: u64| [0.0f32, 1.0, 1.5, -2.0, 9.0][id as usize];
    let candidates = vec![candidate(1, 1.0), candidate(2, 1.5), candidate(3, 2.0), candidate(4, 9.0)];
    let choose = |max: usize, absent: u64| {
        let mut selection = Selection::new(candidates.clone(), max);
        loop {
            match selection.doubt() {
                Doubt::Presence(id) => selection.on_presence(id != absent),
                Doubt::Distance { from, to } => {
                    selection.on_distance(Some(scalar((place_of(from) - place_of(to)).abs())))
                }
                Doubt::Nothing => return selection.chosen().clone(),
            }
        }
    };
    // Node 2 is nearer to node 1 than to the new one, and so is node 4.
    assert_eq!(choose(4, 99), vec![1, 3]);
    assert_eq!(choose(1, 99), vec![1]);
    assert_eq!(choose(0, 99), Vec::<u64>::new());
    // Without node 1, node 2 is taken in its place.
    assert_eq!(choose(4, 1), vec![2, 3]);
}

#[test]
fn equal_distances_do_not_crowd() {
    let mut selection = Selection::new(vec![candidate(1, 1.0), candidate(2, 1.0)], 2);
    selection.on_presence(true);
    selection.on_presence(true);
    selection.on_distance(Some(scalar(1.0)));
    assert_eq!(selection.chosen(), &vec![1, 2]);
    assert_eq!(selection.doubt(), Doubt::Nothing);
}

#[test]
fn an_unknown_distance_does_not_crowd() {
    let mut selection = Selection::new(vec![candidate(1, 1.0), candidate(2, 1.0)], 2);
    selection.on_presence(true);
    selection.on_distance(Some(scalar(0.0)));
    selection.on_presence(true);
    assert_eq!(selection.doubt(), Doubt::Distance { from: 2, to: 1 });
    selection.on_distance(None);
    assert_eq!(selection.chosen(), &vec![1, 2]);
}

#[test]
fn scoring_skips_what_has_no_distance() {
    let mut scoring = Scoring::new(7, vec![1, 2, 3, 4]);
    assert_eq!(scoring.wanted(), Some((7, 1)));
    scoring.on_distance(Some(scalar(3.0)));
    scoring.on_distance(None);
    scoring.on_distance(Some(scalar(1.0)));
    assert_eq!(scoring.wanted(), Some((7, 4)));
    scoring.on_distance(Some(scalar(2.0)));
    assert_eq!(scoring.wanted(), None);
    scoring.on_distance(Some(scalar(0.0)));
    assert_eq!(scoring.nearest(2), vec![3, 4]);
    assert_eq!(scoring.nearest(9), vec![3, 4, 1]);
}

/// Searches a ring of nodes for the ones next to a point, and says what was
/// measured.
fn ring_search(ef: usize, entries: &[u64]) -> (Vec<u64>, Vec<u64>) {
    let sampler = SimHashSampler::new(1, 4);
    let mut search = LayerSearch::new(1, ef, None, 0, entries);
    let mut measured = Vec::new();
    loop {
        match search.want() {
            Want::Distance(id) => {
                measured.push(id);
                let distance = if id == 3 { None } else { Some(scalar((id as f32 - 6.2).abs())) };
                search.on_distance(distance);
            }
            Want::Neighbors(id) => {
                search.on_neighbors(&sampler, &[(id + 1) % 10, (id + 9) % 10, id]);
            }
            Want::Nothing => return (ids(search.results()), measured),
        }
    }
}

#[test]
fn a_search_finds_the_nearest_of_its_component() {
    let (found, measured) = ring_search(3, &[0, 0]);
    assert_eq!(found, vec![6, 7, 5]);
    let mut once = measured.clone();
    once.sort();
    once.dedup();
    assert_eq!(once.len(), measured.len());
}

#[test]
fn a_narrow_search_stops_at_a_local_optimum() {
    let (found, _) = ring_search(1, &[9]);
    assert_eq!(found, vec![6]);
    let (found, _) = ring_search(1, &[2]);
    assert_eq!(found, vec![2]);
}

#[test]
fn entry_points_are_trimmed_to_the_width() {
    let (found, _) = ring_search(2, &[8, 7, 6, 5]);
    assert_eq!(found, vec![6, 7]);
}

#[test]
fn far_entry_points_are_followed_before_they_are_trimmed() {
    let sampler = SimHashSampler::new(1, 4);
    let mut search = LayerSearch::new(1, 1, None, 0, &[1, 2]);
    search.on_distance(Some(scalar(5.0)));
    search.on_distance(Some(scalar(1.0)));
    assert_eq!(search.want(), Want::Neighbors(2));
    search.on_neighbors(&sampler, &[]);
    assert_eq!(search.want(), Want::Neighbors(1));
    search.on_neighbors(&sampler, &[3]);
    search.on_distance(Some(scalar(0.5)));
    search.on_neighbors(&sampler, &[]);
    assert_eq!(search.want(), Want::Nothing);
    assert_eq!(search.results(), &vec![candidate(3, 0.5)]);
}

#[test]
fn an_unfilled_search_follows_distances_that_are_not_numbers() {
    let sampler = SimHashSampler::new(1, 4);
    let mut search = LayerSearch::new(1, 9, None, 0, &[0]);
    loop {
        match search.want() {
            Want::Distance(id) => {
                search.on_distance(Some(scalar(if id % 2 == 0 { f32::NAN } else { 7.0 - id as f32 })))
            }
            Want::Neighbors(id) => search.on_neighbors(&sampler, &[(id + 1).min(6)]),
            Want::Nothing => break,
        }
    }
    assert_eq!(ids(search.results()), vec![5, 3, 1, 0, 2, 4, 6]);
}

#[test]
fn a_search_just_wide_enough_finds_all_within_reach() {
    // Node 3 has no vector, so nine nodes are within reach.
    for ef in [9, 10] {
        let (mut found, _) = ring_search(ef, &[0]);
        found.sort();
        assert_eq!(found, vec![0, 1, 2, 4, 5, 6, 7, 8, 9]);
    }
    assert_eq!(ring_search(8, &[0]).0.len(), 8);
}

#[test]
fn a_search_from_nowhere_finds_nothing() {
    assert_eq!(ring_search(5, &[]).0, Vec::<u64>::new());
    assert_eq!(ring_search(5, &[3]).0, Vec::<u64>::new());
    assert_eq!(ring_search(0, &[8]).0, Vec::<u64>::new());
}

#[test]
fn the_filter_applies_at_the_bottom_layer_only() {
    let mut sampler = SimHashSampler::new(1, 2);
    let ones = [scalar(1.0), scalar(1.0)];
    let zeros = [scalar(-1.0), scalar(-1.0)];
    sampler.compute_and_store(1, &ones);
    sampler.compute_and_store(2, &zeros);
    for layer in [0u8, 1] {
        let code = sampler.compute_hash(&ones);
        let mut search = LayerSearch::new(layer, 9, Some(code), 2, &[0]);
        assert_eq!(search.layer(), layer);
        search.on_distance(Some(scalar(0.0)));
        search.on_neighbors(&sampler, &[1, 2, 3]);
        let mut measured = Vec::new();
        while let Want::Distance(id) = search.want() {
            measured.push(id);
            search.on_distance(None);
        }
        assert_eq!(measured, if layer == 0 { vec![1, 3] } else { vec![1, 2, 3] });
        assert_eq!(search.want(), Want::Nothing);
    }
}

#[test]
fn replies_that_were_not_asked_for_change_nothing() {
    let sampler = SimHashSampler::new(1, 2);
    let mut search = LayerSearch::new(1, 3, None, 0, &[4]);
    search.on_neighbors(&sampler, &[1]);
    assert_eq!(search.want(), Want::Distance(4));
    search.on_distance(Some(scalar(1.0)));
    search.on_distance(Some(scalar(0.0)));
    assert_eq!(search.want(), Want::Neighbors(4));
    assert_eq!(search.results(), &vec![candidate(4, 1.0)]);
}

#[test]
fn standard_parameters() {
    let config = LsmVecConfig::default();
    assert_eq!(config.dimension, 128);
    assert_eq!(config.metric, DistanceMetric::default());
    assert_eq!(config.metric, DistanceMetric::L2);
    assert_eq!((config.m_max, config.m), (32, 16));
    assert_eq!((config.ef_construction, config.ef_search), (200, 100));
    assert_eq!((config.simhash_bits, config.simhash_share), (64, 32));

    let config = LsmVecConfig::new(3)
        .with_metric(DistanceMetric::Cosine)
        .with_m(4)
        .with_m_max(8)
        .with_ef_construction(20)
        .with_ef_search(10);
    assert_eq!(config.dimension, 3);
    assert_eq!(config.metric, DistanceMetric::Cosine);
    assert_eq!((config.m_max, config.m), (8, 4));
    assert_eq!((config.ef_construction, config.ef_search), (20, 10));
    assert_eq!(config.max_neighbors(0), 8);
    assert_eq!(config.max_neighbors(1), 4);
}
