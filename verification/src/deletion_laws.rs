//! What a deletion does to the graph.

use vstd::prelude::*;

use crate::deletion::{higher, pool, DeletionModel, DeletionStage};
use crate::distinct::{dropped, dropping_keeps_all_others, fresh, lemma_dropped, lemma_fresh};
use crate::index::TOP_LEVEL;
use crate::query::{QueryModel, QueryStage};
use crate::query_laws::{closed_under_edges, hits_are_reachable, query_after};
use crate::ranking::{ids, nearest, nearest_are_given};
use crate::scalar::Scalar;
use crate::scoring::{
    accurate,
    nearest_scored_are_the_nearest,
    scored_nodes_are_listed,
    scores,
    scoring_stays_accurate,
};
use crate::system::{edges_after_delete, edges_after_forget, edges_after_set, Store, System};
use crate::types::{LayerId, NodeId};

verus! {

/// A deletion and the system that it works on.
pub struct DeletionRun {
    /// The deletion.
    pub op: DeletionModel,
    /// The system.
    pub system: System,
}

impl DeletionRun {
    /// The run after the deletion's request has been carried out.
    pub open spec fn next(self) -> DeletionRun {
        let (system, reply) = self.system.performed(self.op.request());
        let (op, index) = self.op.stepped(system.index, reply);
        DeletionRun { op, system: System { index, ..system } }
    }

    /// The run after `replies` requests have been carried out.
    pub open spec fn after(self, replies: nat) -> DeletionRun
        decreases replies,
    {
        if replies == 0 {
            self
        } else {
            self.after((replies - 1) as nat).next()
        }
    }
}

/// The deletion of a node from a system, from its start.
pub open spec fn deleting(system: System, id: NodeId) -> DeletionRun {
    DeletionRun { op: DeletionModel::start(id), system }
}

/// The distances of nodes from a node.
pub open spec fn distance_from(system: System, u: NodeId) -> spec_fn(NodeId) -> Option<Scalar> {
    |v: NodeId| (system.vectors.between())(u, v)
}

/// A list that a deletion has rewritten: it belongs to a neighbour of the
/// deleted node, is no longer than allowed, and links to nodes that were
/// neighbours of one of the two, but to neither of the two.
pub open spec fn rewired(
    now: System,
    first: System,
    id: NodeId,
    u: NodeId,
    layer: LayerId,
) -> bool {
    &&& first.edges(id, layer).contains(u)
    &&& now.edges(u, layer).len() <= first.index.config.limit(layer)
    &&& forall|v: NodeId| #[trigger]
        now.edges(u, layer).contains(v) ==> {
            &&& v != id
            &&& v != u
            &&& first.edges(id, layer).contains(v) || first.edges(u, layer).contains(v)
            &&& distance_from(first, u)(v) is Some
        }
}

/// A list is what it was, or has lost the deleted node, or has been rewritten, or
/// is the deleted node's own and empty.
pub open spec fn traceable(
    now: System,
    first: System,
    id: NodeId,
    u: NodeId,
    layer: LayerId,
) -> bool {
    ||| now.edges(u, layer) == first.edges(u, layer)
    ||| now.edges(u, layer) == dropped(first.edges(u, layer), id)
    ||| rewired(now, first, id, u, layer)
    ||| u == id && now.edges(u, layer).len() == 0
}

/// Every list is traceable.
pub open spec fn mostly_as_before(now: System, first: System, id: NodeId) -> bool {
    forall|u: NodeId, layer: LayerId|
        #![trigger now.edges(u, layer)]
        traceable(now, first, id, u, layer)
}

/// No list at a layer from `layer` on has changed.
pub open spec fn untouched_from(now: System, first: System, layer: int) -> bool {
    forall|u: NodeId, k: LayerId|
        k >= layer ==> #[trigger] now.edges(u, k) == first.edges(u, k)
}

/// Of the lists up to that of a node at a layer, none names the deleted node.
pub open spec fn swept(now: System, id: NodeId, node: int, layer: int) -> bool {
    forall|u: NodeId, k: LayerId|
        u < node || (u == node && k < layer) ==> !(#[trigger] now.edges(u, k)).contains(id)
}

/// The node that takes the place of a deleted entry point: of the first `count`
/// nodes of a list, the first among those on the highest layer.
pub open spec fn successor(system: System, list: Seq<NodeId>, count: nat) -> Option<
    (NodeId, LayerId),
>
    decreases count,
{
    if count == 0 {
        None
    } else {
        higher(
            successor(system, list, (count - 1) as nat),
            list[count - 1],
            system.metadata(list[count - 1]),
        )
    }
}

/// What the deletion has left of the store's records and of the codes.
pub open spec fn records_kept(now: System, first: System) -> bool {
    &&& now.vectors == first.vectors
    &&& now.index.config == first.index.config
    &&& now.index.upper.valid()
    &&& now.store.metadata == first.store.metadata
    &&& now.store.entry == first.store.entry
    &&& now.index.upper.entry == first.index.upper.entry
    &&& now.index.sampler == first.index.sampler
}

/// The node is gone from all layers and has no code.
pub open spec fn detached(now: System, first: System, id: NodeId) -> bool {
    &&& now.vectors == first.vectors
    &&& now.index.config == first.index.config
    &&& now.index.upper.valid()
    &&& now.index.sampler == first.index.without(id).sampler
    &&& mostly_as_before(now, first, id)
    &&& now.absent(id)
}

/// The node is detached, and no list of a node below the number of vectors names
/// it.
pub open spec fn released(now: System, first: System, id: NodeId) -> bool {
    &&& detached(now, first, id)
    &&& swept(now, id, first.vectors.next() as int, 0)
}

/// The node was the entry point.
pub open spec fn was_entry(first: System, id: NodeId) -> bool {
    first.index.upper.entry matches Some((entry, _)) && entry == id
}

/// The entry point after the deletion.
pub open spec fn entry_after(first: System, id: NodeId) -> Option<(NodeId, LayerId)> {
    if was_entry(first, id) {
        let ground = first.edges(id, 0);
        successor(without_metadata(first, id), ground, ground.len())
    } else {
        first.index.upper.entry
    }
}

/// The system without the metadata of a node.
pub open spec fn without_metadata(system: System, id: NodeId) -> System {
    System {
        store: Store {
            metadata: system.store.metadata.remove(id),
            ..system.store
        },
        ..system
    }
}

/// What holds of a deletion of a known node at every moment.
pub open spec fn under_way(run: DeletionRun, first: System) -> bool {
    let op = run.op;
    let now = run.system;
    let id = op.id;
    let node = now.store.metadata;
    &&& op.valid()
    &&& match op.stage {
        DeletionStage::Lookup => now == first,
        DeletionStage::Ground => {
            &&& now == first
            &&& first.metadata(id) matches Some(m) && m.max_layer == op.max_layer
        },
        DeletionStage::Layer => {
            &&& records_kept(now, first)
            &&& op.ground == first.edges(id, 0)
            &&& first.metadata(id) matches Some(m) && m.max_layer == op.max_layer
            &&& op.layer <= op.max_layer
            &&& mostly_as_before(now, first, id)
            &&& untouched_from(now, first, op.layer as int)
            &&& op.layer > 0 ==> !now.store.ground.contains_key(id)
        },
        DeletionStage::Fetch | DeletionStage::Probe | DeletionStage::Score
        | DeletionStage::Relink | DeletionStage::Cut => {
            &&& records_kept(now, first)
            &&& op.ground == first.edges(id, 0)
            &&& first.metadata(id) matches Some(m) && m.max_layer == op.max_layer
            &&& op.layer <= op.max_layer
            &&& op.neighbors == first.edges(id, op.layer)
            &&& mostly_as_before(now, first, id)
            &&& untouched_from(now, first, op.layer + 1)
            &&& op.layer > 0 ==> !now.store.ground.contains_key(id)
            &&& op.stage == DeletionStage::Cut ==> op.layer == 0 && op.at >= op.neighbors.len()
            &&& op.stage == DeletionStage::Probe || op.stage == DeletionStage::Score
                ==> pooled(op, first)
            &&& op.stage == DeletionStage::Score ==> {
                &&& op.scoring.from == op.neighbors[op.at as int]
                &&& op.scoring.list == op.pool
                &&& accurate(op.scoring, distance_from(first, op.scoring.from))
            }
            &&& op.stage == DeletionStage::Relink ==> {
                &&& op.edges.len() <= first.index.config.limit(op.layer)
                &&& forall|v: NodeId| #[trigger]
                    op.edges.contains(v) ==> allowed(op, first, v) && distance_from(
                        first,
                        op.neighbors[op.at as int],
                    )(v) is Some
            }
        },
        DeletionStage::Count | DeletionStage::Sweep | DeletionStage::Unlink => {
            &&& op.ground == first.edges(id, 0)
            &&& first.metadata(id) matches Some(m) && m.max_layer == op.max_layer
            &&& detached(now, first, id)
            &&& now.store.metadata == first.store.metadata
            &&& now.store.entry == first.store.entry
            &&& now.index.upper.entry == first.index.upper.entry
            &&& op.stage != DeletionStage::Count ==> {
                &&& op.count == first.vectors.next()
                &&& swept(now, id, op.node as int, op.layer as int)
            }
            &&& op.stage == DeletionStage::Unlink ==> {
                &&& now.edges(op.node, op.layer).contains(id)
                &&& op.edges == dropped(now.edges(op.node, op.layer), id)
            }
        },
        DeletionStage::Forget => {
            &&& op.ground == first.edges(id, 0)
            &&& first.metadata(id) matches Some(m) && m.max_layer == op.max_layer
            &&& released(now, first, id)
            &&& now.store.metadata == first.store.metadata
            &&& now.store.entry == first.store.entry
            &&& now.index.upper.entry == first.index.upper.entry
        },
        DeletionStage::Scan => {
            &&& op.ground == first.edges(id, 0)
            &&& first.metadata(id) matches Some(m) && m.max_layer == op.max_layer
            &&& released(now, first, id)
            &&& node == first.store.metadata.remove(id)
            &&& now.store.entry == first.store.entry
            &&& now.index.upper.entry == first.index.upper.entry
            &&& was_entry(first, id)
            &&& op.heir == successor(without_metadata(first, id), op.ground, op.at)
        },
        DeletionStage::Crown | DeletionStage::Abandon => {
            &&& first.metadata(id) matches Some(m) && m.max_layer == op.max_layer
            &&& released(now, first, id)
            &&& node == first.store.metadata.remove(id)
            &&& now.index.upper.entry == op.heir
            &&& was_entry(first, id)
            &&& op.heir == entry_after(first, id)
            &&& op.stage == DeletionStage::Abandon ==> op.heir is None
        },
        DeletionStage::Finished => if first.metadata(id) is None {
            now == first
        } else {
            &&& first.metadata(id) matches Some(m) && m.max_layer == op.max_layer
            &&& released(now, first, id)
            &&& node == first.store.metadata.remove(id)
            &&& now.index.upper.entry == entry_after(first, id)
            &&& now.store.entry == if was_entry(first, id) {
                entry_after(first, id)
            } else {
                first.store.entry
            }
        },
    }
}

/// A node may be linked from the neighbour at the deletion's position.
pub open spec fn allowed(op: DeletionModel, first: System, v: NodeId) -> bool {
    let u = op.neighbors[op.at as int];
    &&& v != op.id
    &&& v != u
    &&& op.neighbors.contains(v) || first.edges(u, op.layer).contains(v)
}

/// The pool holds only nodes that may be linked.
pub open spec fn pooled(op: DeletionModel, first: System) -> bool {
    forall|v: NodeId| #[trigger] op.pool.contains(v) ==> allowed(op, first, v)
}

/// The pool for a neighbour holds the neighbours of both nodes without the two.
pub proof fn lemma_pool(id: NodeId, neighbor: NodeId, neighbors: Seq<NodeId>, edges: Seq<NodeId>)
    ensures
        forall|v: NodeId| #[trigger]
            pool(id, neighbor, neighbors, edges).contains(v) <==> v != id && v != neighbor && (
            neighbors.contains(v) || edges.contains(v)),
        pool(id, neighbor, neighbors, edges).no_duplicates(),
{
    let both = set![neighbor, id];
    let more = both.union(neighbors.to_set());
    lemma_fresh(neighbors, both);
    lemma_fresh(edges, more);
    let a = fresh(neighbors, both);
    let b = fresh(edges, more);
    let all = pool(id, neighbor, neighbors, edges);
    assert forall|v: NodeId| #[trigger] all.contains(v) <==> v != id && v != neighbor && (
    neighbors.contains(v) || edges.contains(v)) by {
        assert(all.contains(v) <==> a.contains(v) || b.contains(v)) by {
            if a.contains(v) {
                let i = choose|i: int| 0 <= i < a.len() && a[i] == v;
                assert(all[i] == v);
            }
            if b.contains(v) {
                let i = choose|i: int| 0 <= i < b.len() && b[i] == v;
                assert(all[a.len() + i] == v);
            }
            if all.contains(v) {
                let i = choose|i: int| 0 <= i < all.len() && all[i] == v;
                if i < a.len() {
                    assert(a[i] == v);
                } else {
                    assert(b[i - a.len()] == v);
                }
            }
        }
        assert(both.contains(v) <==> v == id || v == neighbor);
        assert(neighbors.to_set().contains(v) <==> neighbors.contains(v));
    }
    assert forall|i: int, j: int| 0 <= i < all.len() && 0 <= j < all.len() && i != j implies all[i]
        != all[j] by {
        if i < a.len() && j >= a.len() {
            assert(a.contains(all[i]));
            assert(b.contains(all[j]));
            assert(neighbors.to_set().contains(all[i]));
        }
        if j < a.len() && i >= a.len() {
            assert(a.contains(all[j]));
            assert(b.contains(all[i]));
            assert(neighbors.to_set().contains(all[j]));
        }
    }
}

/// Turning to the next neighbour keeps the deletion under way.
proof fn lemma_at_neighbor(run: DeletionRun, first: System, at: nat)
    requires
        ({
            let op = run.op;
            let now = run.system;
            &&& records_kept(now, first)
            &&& op.ground == first.edges(op.id, 0)
            &&& first.metadata(op.id) matches Some(m) && m.max_layer == op.max_layer
            &&& op.layer <= op.max_layer
            &&& op.neighbors == first.edges(op.id, op.layer)
            &&& mostly_as_before(now, first, op.id)
            &&& untouched_from(now, first, op.layer + 1)
            &&& op.layer > 0 ==> !now.store.ground.contains_key(op.id)
        }),
    ensures
        ({
            let (op, index) = run.op.at_neighbor(run.system.index, at);
            under_way(DeletionRun { op, system: System { index, ..run.system } }, first)
        }),
{
    let op = run.op;
    let now = run.system;
    if at >= op.neighbors.len() && op.layer > 0 {
        lemma_past_layer(
            DeletionRun { op: DeletionModel { at, ..op }, system: now },
            first,
        );
    }
}

/// Leaving a layer keeps the deletion under way.
proof fn lemma_past_layer(run: DeletionRun, first: System)
    requires
        ({
            let op = run.op;
            let now = run.system;
            &&& records_kept(now, first)
            &&& op.ground == first.edges(op.id, 0)
            &&& first.metadata(op.id) matches Some(m) && m.max_layer == op.max_layer
            &&& op.layer <= op.max_layer
            &&& mostly_as_before(now, first, op.id)
            &&& untouched_from(now, first, op.layer + 1)
            &&& !now.store.ground.contains_key(op.id)
        }),
    ensures
        ({
            let (op, index) = run.op.past_layer(run.system.index);
            under_way(DeletionRun { op, system: System { index, ..run.system } }, first)
        }),
{
    let op = run.op;
    let now = run.system;
    let id = op.id;
    if op.layer < op.max_layer {
        let next = DeletionModel {
            stage: DeletionStage::Layer,
            layer: (op.layer + 1) as LayerId,
            ..op
        };
        assert(run.op.past_layer(now.index).0 == next);
        assert(under_way(DeletionRun { op: next, system: System { index: now.index, ..now } }, first));
    } else {
        let end = System { index: now.index.without(id), ..now };
        edges_after_forget(now, id);
        assert(mostly_as_before(end, first, id)) by {
            assert forall|u: NodeId, k: LayerId|
                #![trigger end.edges(u, k)]
                traceable(end, first, id, u, k) by {
                assert(now.edges(u, k) == now.edges(u, k));
                assert(traceable(now, first, id, u, k));
            }
        }
    }
}

/// A rewritten list keeps the deletion under way.
proof fn lemma_relinked(run: DeletionRun, first: System)
    requires
        under_way(run, first),
        run.op.stage == DeletionStage::Relink,
    ensures
        under_way(run.next(), first),
{
    let op = run.op;
    let now = run.system;
    let id = op.id;
    let u0 = op.neighbors[op.at as int];
    edges_after_set(now, u0, op.layer, op.edges);
    let end = now.performed(op.request()).0;
    assert(op.neighbors.contains(u0));
    assert(mostly_as_before(end, first, id)) by {
        assert forall|u: NodeId, k: LayerId|
            #![trigger end.edges(u, k)]
            traceable(end, first, id, u, k) by {
            assert(traceable(now, first, id, u, k));
        }
    }
    assert(untouched_from(end, first, op.layer + 1));
    lemma_at_neighbor(DeletionRun { op, system: end }, first, op.at + 1);
}

/// A list past which the sweep has gone does not name the deleted node.
proof fn lemma_past_list(run: DeletionRun, first: System)
    requires
        ({
            let op = run.op;
            let now = run.system;
            &&& op.node < op.count
            &&& op.layer <= TOP_LEVEL
            &&& op.count == first.vectors.next()
            &&& op.ground == first.edges(op.id, 0)
            &&& first.metadata(op.id) matches Some(m) && m.max_layer == op.max_layer
            &&& detached(now, first, op.id)
            &&& now.store.metadata == first.store.metadata
            &&& now.store.entry == first.store.entry
            &&& now.index.upper.entry == first.index.upper.entry
            &&& swept(now, op.id, op.node as int, op.layer as int)
            &&& !now.edges(op.node, op.layer).contains(op.id)
        }),
    ensures
        under_way(DeletionRun { op: run.op.past_list(), system: run.system }, first),
{
    let op = run.op;
    let now = run.system;
    let next = op.past_list();
    assert(swept(now, op.id, next.node as int, next.layer as int)) by {
        assert forall|u: NodeId, k: LayerId|
            u < next.node || (u == next.node && k < next.layer) implies !(#[trigger] now.edges(
            u,
            k,
        )).contains(op.id) by {
            if u == op.node && k == op.layer {
            } else if u == op.node && k > op.layer {
                assert(now.edges(u, k).len() == 0);
            }
        }
    }
}

/// A list without the deleted node keeps the deletion under way.
proof fn lemma_unlinked(run: DeletionRun, first: System)
    requires
        under_way(run, first),
        run.op.stage == DeletionStage::Unlink,
    ensures
        under_way(run.next(), first),
{
    let op = run.op;
    let now = run.system;
    let id = op.id;
    edges_after_set(now, op.node, op.layer, op.edges);
    lemma_dropped(now.edges(op.node, op.layer), id);
    lemma_dropped(first.edges(op.node, op.layer), id);
    let end = now.performed(op.request()).0;
    assert(op.node != id) by {
        if op.node == id {
            lemma_absent(now, id, op.layer);
        }
    }
    assert(traceable(now, first, id, op.node, op.layer));
    assert(mostly_as_before(end, first, id)) by {
        assert forall|u: NodeId, k: LayerId|
            #![trigger end.edges(u, k)]
            traceable(end, first, id, u, k) by {
            assert(traceable(now, first, id, u, k));
        }
    }
    assert(end.absent(id));
    assert(System { index: end.index, ..end } == end);
    lemma_past_list(DeletionRun { op, system: end }, first);
}

/// An absent node has no neighbours.
pub proof fn lemma_absent(system: System, id: NodeId, layer: LayerId)
    requires
        system.absent(id),
    ensures
        system.edges(id, layer).len() == 0,
{
    assert(system.index.upper.neighbors(id, layer) is None);
}

/// Every step keeps a deletion under way.
proof fn lemma_next(run: DeletionRun, first: System)
    requires
        under_way(run, first),
        first.index.upper.valid(),
    ensures
        under_way(run.next(), first),
        run.next().op.id == run.op.id,
{
    let op = run.op;
    let now = run.system;
    let id = op.id;
    match op.stage {
        DeletionStage::Layer => {
            lemma_at_neighbor(
                DeletionRun {
                    op: DeletionModel { neighbors: now.edges(id, op.layer), ..op },
                    system: now,
                },
                first,
                0,
            );
        },
        DeletionStage::Fetch => {
            let u = op.neighbors[op.at as int];
            let list = now.edges(u, op.layer);
            lemma_pool(id, u, op.neighbors, list);
            lemma_dropped(first.edges(u, op.layer), id);
            assert(traceable(now, first, id, u, op.layer));
            assert forall|v: NodeId| #[trigger] run.next().op.pool.contains(v) implies allowed(
                run.next().op,
                first,
                v,
            ) by {
                assert(list.contains(v) ==> op.neighbors.contains(v) || first.edges(
                    u,
                    op.layer,
                ).contains(v));
            }
        },
        DeletionStage::Probe => {
            if !now.vectors.present().contains(op.neighbors[op.at as int]) {
                lemma_at_neighbor(run, first, op.at + 1);
            } else {
                let from = op.neighbors[op.at as int];
                assert(op.pool.take(0) =~= Seq::<NodeId>::empty());
            }
        },
        DeletionStage::Score => {
            let from = op.scoring.from;
            scoring_stays_accurate(op.scoring, distance_from(first, from));
            if op.scoring.over() {
                scored_nodes_are_listed(op.pool, distance_from(first, from));
                nearest_are_given(op.scoring.scored, first.index.config.limit(op.layer));
                assert forall|v: NodeId| #[trigger]
                    run.next().op.edges.contains(v) implies allowed(run.next().op, first, v)
                    && distance_from(first, from)(v) is Some by {
                    assert(ids(op.scoring.scored).contains(v));
                    assert(op.pool.contains(v));
                }
            } else {
                assert(distance_from(first, from)(op.scoring.list[op.scoring.at as int])
                    == (now.vectors.between())(from, op.scoring.list[op.scoring.at as int]));
            }
        },
        DeletionStage::Relink => {
            lemma_relinked(run, first);
        },
        DeletionStage::Cut => {
            edges_after_delete(now, id);
            let end = now.performed(op.request()).0;
            assert(mostly_as_before(end, first, id)) by {
                assert forall|u: NodeId, k: LayerId|
                    #![trigger end.edges(u, k)]
                    traceable(end, first, id, u, k) by {
                    assert(traceable(now, first, id, u, k));
                }
            }
            lemma_past_layer(DeletionRun { op, system: end }, first);
        },
        DeletionStage::Sweep => {
            assert(System { index: now.index, ..now } == now);
            if !now.edges(op.node, op.layer).contains(id) {
                lemma_past_list(run, first);
            }
        },
        DeletionStage::Unlink => {
            lemma_unlinked(run, first);
        },
        DeletionStage::Forget => {
            let end = now.performed(op.request()).0;
            lemma_detached(now, end, first, op);
            if was_entry(first, id) && op.ground.len() == 0 {
                lemma_entry_changed(
                    DeletionRun { op, system: end },
                    first,
                    None,
                );
            }
        },
        DeletionStage::Scan => {
            let v = op.ground[op.at as int];
            assert(now.metadata(v) == without_metadata(first, id).metadata(v));
            let heir = higher(op.heir, v, now.metadata(v));
            if op.at + 1 >= op.ground.len() {
                lemma_entry_changed(run, first, heir);
            }
        },
        DeletionStage::Crown => {
            let end = now.performed(op.request()).0;
            lemma_detached(now, end, first, op);
        },
        DeletionStage::Abandon => {
            let end = now.performed(op.request()).0;
            lemma_detached(now, end, first, op);
        },
        _ => {},
    }
}

/// Changing records other than edges and codes leaves a node released.
proof fn lemma_detached(now: System, end: System, first: System, op: DeletionModel)
    requires
        released(now, first, op.id),
        end.store.ground == now.store.ground,
        end.index.upper.layers == now.index.upper.layers,
        end.index.sampler == now.index.sampler,
        end.index.config == now.index.config,
        end.vectors == now.vectors,
    ensures
        released(end, first, op.id),
{
    assert forall|u: NodeId, k: LayerId| #[trigger] end.edges(u, k) == now.edges(u, k) by {}
    assert(mostly_as_before(end, first, op.id)) by {
        assert forall|u: NodeId, k: LayerId|
            #![trigger end.edges(u, k)]
            traceable(end, first, op.id, u, k) by {
            assert(traceable(now, first, op.id, u, k));
        }
    }
    assert(end.absent(op.id)) by {
        assert forall|k: LayerId| (#[trigger] end.index.upper.neighbors(op.id, k)) is None by {
            assert(now.index.upper.neighbors(op.id, k) is None);
        }
    }
}

/// A new entry point leaves a node released.
proof fn lemma_entry_changed(run: DeletionRun, first: System, heir: Option<(NodeId, LayerId)>)
    requires
        released(run.system, first, run.op.id),
    ensures
        released(
            System { index: run.system.index.with_entry(heir), ..run.system },
            first,
            run.op.id,
        ),
{
    lemma_detached(
        run.system,
        System { index: run.system.index.with_entry(heir), ..run.system },
        first,
        run.op,
    );
}

/// Every state that a deletion comes to is under way.
pub proof fn every_deletion_is_under_way(first: System, id: NodeId, replies: nat)
    requires
        first.index.upper.valid(),
    ensures
        under_way(deleting(first, id).after(replies), first),
        deleting(first, id).after(replies).op.id == id,
    decreases replies,
{
    if replies > 0 {
        every_deletion_is_under_way(first, id, (replies - 1) as nat);
        lemma_next(deleting(first, id).after((replies - 1) as nat), first);
    }
}

/// The successor is a node of the list with metadata, and none before the given
/// count is on a higher layer; there is one if any of them has metadata.
pub proof fn successor_is_highest(system: System, list: Seq<NodeId>, count: nat)
    requires
        count <= list.len(),
    ensures
        match successor(system, list, count) {
            Some((id, layer)) => {
                &&& list.contains(id)
                &&& system.metadata(id) matches Some(m) && m.max_layer == layer
                &&& forall|j: int|
                    0 <= j < count ==> ((#[trigger] system.metadata(list[j])) matches Some(m)
                        ==> m.max_layer <= layer)
            },
            None => forall|j: int| 0 <= j < count ==> (#[trigger] system.metadata(list[j])) is None,
        },
    decreases count,
{
    if count > 0 {
        successor_is_highest(system, list, (count - 1) as nat);
        assert(list.contains(list[count - 1]));
    }
}

/// Deleting a node that has no metadata changes nothing.
pub proof fn unknown_node_changes_nothing(first: System, id: NodeId, replies: nat)
    requires
        first.index.upper.valid(),
        first.metadata(id) is None,
        replies > 0,
    ensures
        deleting(first, id).after(replies).system == first,
        deleting(first, id).after(replies).op.stage == DeletionStage::Finished,
    decreases replies,
{
    if replies > 1 {
        unknown_node_changes_nothing(first, id, (replies - 1) as nat);
    } else {
        assert(deleting(first, id).after(0) == deleting(first, id));
    }
}

/// After a finished deletion the node has no metadata and no code, is on no layer,
/// and is not the entry point. The records of all other nodes are kept, and so are
/// all vectors. If the node was the entry point, its place is taken by the first of its
/// neighbours at the bottom layer among those on the highest layer, in memory
/// and in the store; else the entry point stays.
pub proof fn deleted_node_is_gone(first: System, id: NodeId, replies: nat)
    requires
        first.index.upper.valid(),
        deleting(first, id).after(replies).op.stage == DeletionStage::Finished,
    ensures
        ({
            let end = deleting(first, id).after(replies).system;
            &&& end.vectors == first.vectors
            &&& end.index.config == first.index.config
            &&& end.store.metadata == first.store.metadata.remove(id)
            &&& first.metadata(id) is Some ==> {
                &&& end.index.sampler == first.index.without(id).sampler
                &&& end.absent(id)
                &&& end.index.upper.entry == entry_after(first, id)
                &&& end.index.upper.entry matches Some((entry, _)) ==> entry != id
                &&& first.store.entry == first.index.upper.entry ==> end.store.entry
                    == end.index.upper.entry
            }
        }),
{
    every_deletion_is_under_way(first, id, replies);
    let end = deleting(first, id).after(replies).system;
    if first.metadata(id) is None {
        assert(first.store.metadata.remove(id) =~= first.store.metadata);
    } else if was_entry(first, id) {
        let ground = first.edges(id, 0);
        successor_is_highest(without_metadata(first, id), ground, ground.len());
    }
}

/// A finished deletion leaves every list of another node as it was, or without the
/// deleted node, or has rewritten it: it then belongs to a neighbour of the deleted
/// node, is no longer than allowed, and links only to former neighbours of the two.
/// A list that neither belongs to a neighbour of the deleted node nor names it is
/// as it was.
pub proof fn neighbors_let_go(first: System, id: NodeId, replies: nat)
    requires
        first.index.upper.valid(),
        deleting(first, id).after(replies).op.stage == DeletionStage::Finished,
    ensures
        ({
            let end = deleting(first, id).after(replies).system;
            forall|u: NodeId, layer: LayerId|
                #![trigger end.edges(u, layer)]
                u != id ==> {
                    ||| end.edges(u, layer) == first.edges(u, layer)
                    ||| {
                        &&& first.edges(u, layer).contains(id)
                        &&& end.edges(u, layer) == dropped(first.edges(u, layer), id)
                    }
                    ||| rewired(end, first, id, u, layer)
                }
        }),
{
    every_deletion_is_under_way(first, id, replies);
    let end = deleting(first, id).after(replies).system;
    if first.metadata(id) is Some {
        assert forall|u: NodeId, layer: LayerId|
            #![trigger end.edges(u, layer)]
            u != id implies {
            ||| end.edges(u, layer) == first.edges(u, layer)
            ||| {
                &&& first.edges(u, layer).contains(id)
                &&& end.edges(u, layer) == dropped(first.edges(u, layer), id)
            }
            ||| rewired(end, first, id, u, layer)
        } by {
            assert(traceable(end, first, id, u, layer));
            lemma_dropped(first.edges(u, layer), id);
        }
    }
}

/// After a finished deletion of a node with metadata, no list of any node at any
/// layer names it.
pub proof fn nothing_leads_to_a_deleted_node(first: System, id: NodeId, replies: nat)
    requires
        first.index.upper.valid(),
        first.housed(),
        first.metadata(id) is Some,
        deleting(first, id).after(replies).op.stage == DeletionStage::Finished,
    ensures
        forall|u: NodeId, layer: LayerId|
            !(#[trigger] deleting(first, id).after(replies).system.edges(u, layer)).contains(id),
{
    every_deletion_is_under_way(first, id, replies);
    let end = deleting(first, id).after(replies).system;
    assert forall|u: NodeId, layer: LayerId| !(#[trigger] end.edges(u, layer)).contains(id) by {
        if u >= first.vectors.next() {
            assert(first.edges(u, layer).len() == 0);
            assert(traceable(end, first, id, u, layer));
            lemma_dropped(first.edges(u, layer), id);
        }
    }
}

/// A deleted node is out of reach: after a finished deletion of a node with
/// metadata, no query finds it.
pub proof fn deleted_node_is_out_of_reach(
    first: System,
    id: NodeId,
    replies: nat,
    query: System,
    k: nat,
    ef: nat,
    steps: nat,
)
    requires
        first.index.upper.valid(),
        first.housed(),
        first.metadata(id) is Some,
        deleting(first, id).after(replies).op.stage == DeletionStage::Finished,
        query.index == deleting(first, id).after(replies).system.index,
        query.store == deleting(first, id).after(replies).system.store,
        query_after(QueryModel::start(query.index, k, ef), query, steps).stage
            == QueryStage::Finished,
    ensures
        forall|i: int|
            #![trigger query_after(QueryModel::start(query.index, k, ef), query, steps).results[i]]
            0 <= i < query_after(
                QueryModel::start(query.index, k, ef),
                query,
                steps,
            ).results.len() ==> query_after(
                QueryModel::start(query.index, k, ef),
                query,
                steps,
            ).results[i].id != id,
{
    deleted_node_is_gone(first, id, replies);
    nothing_leads_to_a_deleted_node(first, id, replies);
    let end = deleting(first, id).after(replies).system;
    let others = Set::new(|v: NodeId| v != id);
    assert forall|u: NodeId, v: NodeId, layer: LayerId|
        others.contains(u) && #[trigger] query.edges(u, layer).contains(
            v,
        ) implies others.contains(v) by {
        assert(query.edges(u, layer) == end.edges(u, layer));
    }
    assert(closed_under_edges(query, others));
    hits_are_reachable(query, k, ef, others, steps);
}

/// The edges that a deletion gives to a neighbour of the deleted node: if it has
/// a vector, the nearest of its other neighbours and of the node's.
pub open spec fn relinked(first: System, id: NodeId, u: NodeId, layer: LayerId) -> Seq<NodeId> {
    if first.vectors.present().contains(u) {
        nearest(
            scores(
                pool(id, u, first.edges(id, layer), first.edges(u, layer)),
                distance_from(first, u),
            ),
            first.index.config.limit(layer),
        )
    } else {
        first.edges(u, layer)
    }
}

/// The edges of a node once the given neighbours of the deleted node are done.
pub open spec fn edges_once(
    first: System,
    id: NodeId,
    u: NodeId,
    layer: LayerId,
    done: Seq<NodeId>,
) -> Seq<NodeId> {
    if done.contains(u) {
        relinked(first, id, u, layer)
    } else {
        first.edges(u, layer)
    }
}

/// No neighbour of the node is listed twice.
pub open spec fn listed_once(first: System, id: NodeId) -> bool {
    forall|layer: LayerId| (#[trigger] first.edges(id, layer)).no_duplicates()
}

/// The layers below `layer` have exactly the edges that a deletion gives them.
pub open spec fn exact_below(now: System, first: System, id: NodeId, layer: int) -> bool {
    forall|u: NodeId, k: LayerId|
        k < layer && u != id ==> #[trigger] now.edges(u, k) == edges_once(
            first,
            id,
            u,
            k,
            first.edges(id, k),
        )
}

/// The lists of a deletion under way are exactly those that the rule gives.
pub open spec fn exactly_under_way(run: DeletionRun, first: System) -> bool {
    let op = run.op;
    let now = run.system;
    let id = op.id;
    let u0 = op.neighbors[op.at as int];
    match op.stage {
        DeletionStage::Lookup | DeletionStage::Ground => true,
        DeletionStage::Layer => exact_below(now, first, id, op.layer as int),
        DeletionStage::Fetch | DeletionStage::Probe | DeletionStage::Score
        | DeletionStage::Relink | DeletionStage::Cut => {
            &&& exact_below(now, first, id, op.layer as int)
            &&& exact_at(now, first, op, op.at)
            &&& op.stage == DeletionStage::Probe || op.stage == DeletionStage::Score ==> op.pool
                == pool(id, u0, op.neighbors, first.edges(u0, op.layer))
            &&& op.stage == DeletionStage::Score || op.stage == DeletionStage::Relink
                ==> first.vectors.present().contains(u0)
            &&& op.stage == DeletionStage::Relink ==> op.edges == relinked(first, id, u0, op.layer)
        },
        DeletionStage::Count => exactly_swept(now, first, op, 0, 0),
        DeletionStage::Sweep | DeletionStage::Unlink => exactly_swept(
            now,
            first,
            op,
            op.node as int,
            op.layer as int,
        ),
        DeletionStage::Finished => first.metadata(id) is Some ==> exactly_swept(
            now,
            first,
            op,
            first.vectors.next() as int,
            0,
        ),
        _ => exactly_swept(now, first, op, first.vectors.next() as int, 0),
    }
}

/// At the layer in hand, the first `at` neighbours are done.
pub open spec fn exact_at(now: System, first: System, op: DeletionModel, at: nat) -> bool {
    forall|u: NodeId| #[trigger]
        now.edges(u, op.layer) == edges_once(
            first,
            op.id,
            u,
            op.layer,
            first_of(op.neighbors, at),
        )
}

/// The first `at` of a list, or all if there are fewer.
pub open spec fn first_of(list: Seq<NodeId>, at: nat) -> Seq<NodeId> {
    if at < list.len() {
        list.take(at as int)
    } else {
        list
    }
}

/// The edges of a node once the deleted node's neighbours are linked anew.
pub open spec fn repaired(
    first: System,
    id: NodeId,
    max_layer: LayerId,
    u: NodeId,
    layer: LayerId,
) -> Seq<NodeId> {
    if layer <= max_layer && first.edges(id, layer).contains(u) {
        relinked(first, id, u, layer)
    } else {
        first.edges(u, layer)
    }
}

/// Up to the list of a node at a layer, lists are repaired and without the deleted
/// node; from there on they are repaired.
pub open spec fn exactly_swept(
    now: System,
    first: System,
    op: DeletionModel,
    node: int,
    layer: int,
) -> bool {
    forall|u: NodeId, k: LayerId|
        u != op.id ==> #[trigger] now.edges(u, k) == if u < node || (u == node && k < layer) {
            dropped(repaired(first, op.id, op.max_layer, u, k), op.id)
        } else {
            repaired(first, op.id, op.max_layer, u, k)
        }
}

proof fn lemma_exact_at_neighbor(run: DeletionRun, first: System, at: nat)
    requires
        run.op.neighbors == first.edges(run.op.id, run.op.layer),
        run.op.layer <= run.op.max_layer,
        first.metadata(run.op.id) is Some,
        exact_below(run.system, first, run.op.id, run.op.layer as int),
        exact_at(run.system, first, run.op, at),
        untouched_from(run.system, first, run.op.layer + 1),
        run.system.index.upper.valid(),
    ensures
        ({
            let (op, index) = run.op.at_neighbor(run.system.index, at);
            exactly_under_way(DeletionRun { op, system: System { index, ..run.system } }, first)
        }),
{
    let op = run.op;
    let now = run.system;
    if at >= op.neighbors.len() && op.layer > 0 {
        assert(exact_below(now, first, op.id, op.layer + 1)) by {
            assert forall|u: NodeId, k: LayerId| k < op.layer + 1 && u != op.id implies #[trigger]
                now.edges(u, k) == edges_once(first, op.id, u, k, first.edges(op.id, k)) by {
                if k == op.layer {
                    assert(first_of(op.neighbors, at) == first.edges(op.id, k));
                }
            }
        }
        lemma_exact_past_layer(DeletionRun { op: DeletionModel { at, ..op }, system: now }, first);
    }
}

proof fn lemma_exact_past_layer(run: DeletionRun, first: System)
    requires
        run.op.layer <= run.op.max_layer,
        first.metadata(run.op.id) is Some,
        exact_below(run.system, first, run.op.id, run.op.layer + 1),
        untouched_from(run.system, first, run.op.layer + 1),
        run.system.index.upper.valid(),
    ensures
        ({
            let (op, index) = run.op.past_layer(run.system.index);
            exactly_under_way(DeletionRun { op, system: System { index, ..run.system } }, first)
        }),
{
    let op = run.op;
    let now = run.system;
    if op.layer >= op.max_layer {
        edges_after_forget(now, op.id);
        let end = System { index: now.index.without(op.id), ..now };
        assert forall|u: NodeId, k: LayerId| u != op.id implies #[trigger] end.edges(u, k)
            == repaired(first, op.id, op.max_layer, u, k) by {
            assert(end.edges(u, k) == now.edges(u, k));
        }
    }
}

/// A list past which the sweep has gone is as it should be.
proof fn lemma_exact_past_list(run: DeletionRun, first: System)
    requires
        run.op.node < run.op.count,
        run.op.count == first.vectors.next(),
        run.op.layer <= TOP_LEVEL,
        exactly_swept(run.system, first, run.op, run.op.node as int, run.op.layer as int),
        run.op.node != run.op.id ==> run.system.edges(run.op.node, run.op.layer) == dropped(
            repaired(first, run.op.id, run.op.max_layer, run.op.node, run.op.layer),
            run.op.id,
        ),
    ensures
        exactly_under_way(DeletionRun { op: run.op.past_list(), system: run.system }, first),
{
    let op = run.op;
    let now = run.system;
    let next = op.past_list();
    assert(exactly_swept(now, first, next, next.node as int, next.layer as int)) by {
        assert forall|u: NodeId, k: LayerId| u != op.id implies #[trigger] now.edges(u, k)
            == if u < next.node || (u == next.node && k < next.layer) {
            dropped(repaired(first, op.id, op.max_layer, u, k), op.id)
        } else {
            repaired(first, op.id, op.max_layer, u, k)
        } by {
            if u == op.node && k > op.layer {
                assert(next.node == op.node || k > TOP_LEVEL);
                if k > TOP_LEVEL {
                    assert(now.edges(u, k).len() == 0);
                    lemma_dropped(now.edges(u, k), op.id);
                }
            }
        }
    }
}

/// Every step keeps the lists exact.
proof fn lemma_exact_next(run: DeletionRun, first: System)
    requires
        under_way(run, first),
        exactly_under_way(run, first),
        listed_once(first, run.op.id),
        first.index.upper.valid(),
    ensures
        exactly_under_way(run.next(), first),
{
    let op = run.op;
    let now = run.system;
    let id = op.id;
    let u0 = op.neighbors[op.at as int];
    match op.stage {
        DeletionStage::Layer => {
            let list = now.edges(id, op.layer);
            let turned = DeletionModel { neighbors: list, ..op };
            assert(first_of(list, 0) =~= Seq::<NodeId>::empty());
            assert(exact_at(now, first, turned, 0));
            lemma_exact_at_neighbor(DeletionRun { op: turned, system: now }, first, 0);
        },
        DeletionStage::Fetch => {
            lemma_one_more(op.neighbors, op.at);
            assert(now.edges(u0, op.layer) == first.edges(u0, op.layer));
        },
        DeletionStage::Probe => {
            if !now.vectors.present().contains(u0) {
                lemma_one_more(op.neighbors, op.at);
                assert(exact_at(now, first, op, op.at + 1));
                lemma_exact_at_neighbor(run, first, op.at + 1);
            }
        },
        DeletionStage::Score => {
            if op.scoring.over() {
                scoring_stays_accurate(op.scoring, distance_from(first, u0));
            }
        },
        DeletionStage::Relink => {
            edges_after_set(now, u0, op.layer, op.edges);
            let end = now.performed(op.request()).0;
            lemma_one_more(op.neighbors, op.at);
            assert(exact_at(end, first, op, op.at + 1)) by {
                assert forall|u: NodeId| #[trigger]
                    end.edges(u, op.layer) == edges_once(
                        first,
                        id,
                        u,
                        op.layer,
                        first_of(op.neighbors, op.at + 1),
                    ) by {
                    assert(now.edges(u, op.layer) == edges_once(
                        first,
                        id,
                        u,
                        op.layer,
                        first_of(op.neighbors, op.at),
                    ));
                    if u == u0 {
                        assert(first.edges(id, op.layer).len() > 0);
                    }
                }
            }
            lemma_exact_at_neighbor(DeletionRun { op, system: end }, first, op.at + 1);
        },
        DeletionStage::Cut => {
            edges_after_delete(now, id);
            let end = now.performed(op.request()).0;
            assert(exact_below(end, first, id, 1)) by {
                assert forall|u: NodeId, k: LayerId| k < 1 && u != id implies #[trigger] end.edges(
                    u,
                    k,
                ) == edges_once(first, id, u, k, first.edges(id, k)) by {
                    assert(now.edges(u, op.layer) == edges_once(
                        first,
                        id,
                        u,
                        op.layer,
                        first_of(op.neighbors, op.at),
                    ));
                    assert(first_of(op.neighbors, op.at) == op.neighbors);
                }
            }
            lemma_exact_past_layer(DeletionRun { op, system: end }, first);
        },
        DeletionStage::Count => {
            let next = run.next();
            assert(next.system == now);
            assert(exactly_swept(now, first, next.op, 0, 0)) by {
                assert forall|u: NodeId, k: LayerId| u != id implies #[trigger] now.edges(u, k)
                    == if u < 0 || (u == 0 && k < 0) {
                    dropped(repaired(first, id, op.max_layer, u, k), id)
                } else {
                    repaired(first, id, op.max_layer, u, k)
                } by {}
            }
        },
        DeletionStage::Sweep => {
            let list = now.edges(op.node, op.layer);
            lemma_dropped(list, id);
            assert(System { index: now.index, ..now } == now);
            if !list.contains(id) {
                lemma_exact_past_list(run, first);
            }
        },
        DeletionStage::Unlink => {
            edges_after_set(now, op.node, op.layer, op.edges);
            let end = now.performed(op.request()).0;
            assert(System { index: end.index, ..end } == end);
            lemma_exact_unlinked(run, first, end);
        },
        _ => {
            let end = run.next().system;
            assert forall|u: NodeId, k: LayerId| op.stage != DeletionStage::Lookup && op.stage
                != DeletionStage::Ground implies #[trigger] end.edges(u, k) == now.edges(u, k) by {}
        },
    }
}

/// In a list without repetition, the first `at + 1` nodes are the first `at` and
/// one that is not among them.
pub proof fn lemma_one_more(list: Seq<NodeId>, at: nat)
    requires
        at < list.len(),
        list.no_duplicates(),
    ensures
        forall|u: NodeId| #[trigger]
            first_of(list, at + 1).contains(u) <==> first_of(list, at).contains(u) || u
                == list[at as int],
        !first_of(list, at).contains(list[at as int]),
{
    let before = first_of(list, at);
    let now = first_of(list, at + 1);
    let u0 = list[at as int];
    if before.contains(u0) {
        let j = choose|j: int| 0 <= j < before.len() && before[j] == u0;
        assert(list[j] == u0);
    }
    assert(now =~= before.push(u0));
    assert forall|u: NodeId| #[trigger] now.contains(u) <==> before.contains(u) || u == u0 by {
        if before.contains(u) {
            let j = choose|j: int| 0 <= j < before.len() && before[j] == u;
            assert(now[j] == u);
        }
        assert(now[before.len() as int] == u0);
        if now.contains(u) && u != u0 {
            let j = choose|j: int| 0 <= j < now.len() && now[j] == u;
            assert(before[j] == u);
        }
    }
}

/// A list without the deleted node is as it should be.
proof fn lemma_exact_unlinked(run: DeletionRun, first: System, end: System)
    requires
        under_way(run, first),
        exactly_under_way(run, first),
        run.op.stage == DeletionStage::Unlink,
        end == run.system.performed(run.op.request()).0,
    ensures
        exactly_under_way(DeletionRun { op: run.op.past_list(), system: end }, first),
{
    let op = run.op;
    let now = run.system;
    edges_after_set(now, op.node, op.layer, op.edges);
    if op.node == op.id {
        lemma_absent(now, op.id, op.layer);
    }
    let next = op.past_list();
    assert(exactly_swept(end, first, next, next.node as int, next.layer as int)) by {
        assert forall|u: NodeId, k: LayerId| u != op.id implies #[trigger] end.edges(u, k)
            == if u < next.node || (u == next.node && k < next.layer) {
            dropped(repaired(first, op.id, op.max_layer, u, k), op.id)
        } else {
            repaired(first, op.id, op.max_layer, u, k)
        } by {
            assert(now.edges(u, k) == now.edges(u, k));
            if u == op.node && k > TOP_LEVEL {
                assert(now.edges(u, k).len() == 0);
                lemma_dropped(now.edges(u, k), op.id);
            }
        }
    }
}

proof fn lemma_every_exact(first: System, id: NodeId, replies: nat)
    requires
        first.index.upper.valid(),
        listed_once(first, id),
    ensures
        exactly_under_way(deleting(first, id).after(replies), first),
    decreases replies,
{
    if replies > 0 {
        lemma_every_exact(first, id, (replies - 1) as nat);
        every_deletion_is_under_way(first, id, (replies - 1) as nat);
        lemma_exact_next(deleting(first, id).after((replies - 1) as nat), first);
    }
}

/// What a finished deletion makes of the lists, exactly, where no neighbour of
/// the node is listed twice. On each of the node's layers, each of its neighbours
/// that has a vector is linked to the nearest of its other neighbours and of the
/// node's, as many as the layer allows. All other lists but the node's own are what
/// they were, without the node.
pub proof fn neighbors_are_relinked(
    first: System,
    id: NodeId,
    replies: nat,
    max_layer: LayerId,
)
    requires
        first.index.upper.valid(),
        first.housed(),
        listed_once(first, id),
        first.metadata(id) matches Some(m) && m.max_layer == max_layer,
        deleting(first, id).after(replies).op.stage == DeletionStage::Finished,
    ensures
        forall|u: NodeId, layer: LayerId|
            #![trigger deleting(first, id).after(replies).system.edges(u, layer)]
            u != id ==> deleting(first, id).after(replies).system.edges(u, layer) == if layer
                <= max_layer && first.edges(id, layer).contains(u)
                && first.vectors.present().contains(u) {
                relinked(first, id, u, layer)
            } else {
                dropped(first.edges(u, layer), id)
            },
{
    lemma_every_exact(first, id, replies);
    every_deletion_is_under_way(first, id, replies);
    nothing_leads_to_a_deleted_node(first, id, replies);
    let end = deleting(first, id).after(replies).system;
    assert forall|u: NodeId, layer: LayerId|
        #![trigger end.edges(u, layer)]
        u != id implies end.edges(u, layer) == if layer <= max_layer && first.edges(
            id,
            layer,
        ).contains(u) && first.vectors.present().contains(u) {
            relinked(first, id, u, layer)
        } else {
            dropped(first.edges(u, layer), id)
        } by {
        let base = repaired(first, id, max_layer, u, layer);
        lemma_dropped(base, id);
        lemma_dropped(first.edges(u, layer), id);
        if layer <= max_layer && first.edges(id, layer).contains(u)
            && first.vectors.present().contains(u) {
            lemma_relinked_without(first, id, u, layer);
        }
        if u >= first.vectors.next() {
            assert(!end.edges(u, layer).contains(id));
        }
    }
}

/// The edges that a neighbour with a vector gets name neither node, are within the
/// limit, and name none twice.
proof fn lemma_relinked_without(first: System, id: NodeId, u: NodeId, layer: LayerId)
    requires
        first.vectors.present().contains(u),
    ensures
        !relinked(first, id, u, layer).contains(id),
        !relinked(first, id, u, layer).contains(u),
        relinked(first, id, u, layer).len() <= first.index.config.limit(layer),
        relinked(first, id, u, layer).no_duplicates(),
{
    let around = pool(id, u, first.edges(id, layer), first.edges(u, layer));
    lemma_pool(id, u, first.edges(id, layer), first.edges(u, layer));
    scored_nodes_are_listed(around, distance_from(first, u));
    nearest_are_given(scores(around, distance_from(first, u)), first.index.config.limit(layer));
}

/// A deletion keeps the lists of neighbours tidy: none grows too long, names a
/// node twice or names its own node.
pub proof fn deletion_keeps_lists_tidy(first: System, id: NodeId, replies: nat)
    requires
        first.index.upper.valid(),
        first.housed(),
        first.tidy(),
        deleting(first, id).after(replies).op.stage == DeletionStage::Finished,
    ensures
        deleting(first, id).after(replies).system.tidy(),
{
    every_deletion_is_under_way(first, id, replies);
    let end = deleting(first, id).after(replies).system;
    if let Some(m) = first.metadata(id) {
        assert(listed_once(first, id));
        neighbors_are_relinked(first, id, replies, m.max_layer);
        assert forall|u: NodeId, layer: LayerId|
            #![trigger end.edges(u, layer)]
            {
                &&& end.edges(u, layer).len() <= end.index.config.limit(layer)
                &&& end.edges(u, layer).no_duplicates()
                &&& !end.edges(u, layer).contains(u)
            } by {
            let before = first.edges(u, layer);
            assert(before.no_duplicates() && !before.contains(u));
            lemma_dropped(before, id);
            if u == id {
                lemma_absent(end, id, layer);
            } else if layer <= m.max_layer && first.edges(id, layer).contains(u)
                && first.vectors.present().contains(u) {
                lemma_relinked_without(first, id, u, layer);
            }
        }
    }
}

/// What a neighbour of a deleted node is linked to. After a finished deletion, a neighbour
/// of the node with a vector has edges to the other neighbours of the two that have
/// vectors: to all of them, or to as many as `m_max` at the bottom layer and `m` above
/// it, if those are fewer. They come nearest first, and none that is left out is nearer
/// than one that is kept.
pub proof fn neighbors_keep_all_that_fit(
    first: System,
    id: NodeId,
    replies: nat,
    max_layer: LayerId,
    u: NodeId,
    layer: LayerId,
)
    requires
        first.index.upper.valid(),
        first.housed(),
        listed_once(first, id),
        first.metadata(id) matches Some(m) && m.max_layer == max_layer,
        deleting(first, id).after(replies).op.stage == DeletionStage::Finished,
        u != id,
        layer <= max_layer,
        first.edges(id, layer).contains(u),
        first.vectors.vector(u) is Some,
    ensures
        ({
            let kept = deleting(first, id).after(replies).system.edges(u, layer);
            let between = first.vectors.between();
            let all = Set::new(
                |v: NodeId|
                    v != u && v != id && (first.edges(id, layer).contains(v) || first.edges(
                        u,
                        layer,
                    ).contains(v)) && first.vectors.vector(v) is Some,
            );
            let limit = if layer == 0 {
                first.index.config.m_max as nat
            } else {
                first.index.config.m as nat
            };
            &&& all.finite()
            &&& kept.no_duplicates()
            &&& kept.len() == if all.len() < limit {
                all.len()
            } else {
                limit
            }
            &&& forall|i: int| 0 <= i < kept.len() ==> all.contains(#[trigger] kept[i])
            &&& all.len() <= limit ==> forall|v: NodeId|
                all.contains(v) ==> #[trigger] kept.contains(v)
            &&& forall|i: int, j: int|
                0 <= i <= j < kept.len() ==> (between(u, #[trigger] kept[i])->0).rank() <= (between(
                    u,
                    #[trigger] kept[j],
                )->0).rank()
            &&& forall|v: NodeId, i: int|
                #![trigger kept[i], between(u, v)]
                all.contains(v) && !kept.contains(v) && 0 <= i < kept.len() ==> (between(
                    u,
                    kept[i],
                )->0).rank() <= (between(u, v)->0).rank()
        }),
{
    let end = deleting(first, id).after(replies).system;
    neighbors_are_relinked(first, id, replies, max_layer);
    assert(first.vectors.present().contains(u));
    assert(end.edges(u, layer) == relinked(first, id, u, layer));
    let around = pool(id, u, first.edges(id, layer), first.edges(u, layer));
    let from = distance_from(first, u);
    let between = first.vectors.between();
    lemma_pool(id, u, first.edges(id, layer), first.edges(u, layer));
    nearest_scored_are_the_nearest(around, from, first.index.config.limit(layer));
    let all = Set::new(
        |v: NodeId|
            v != u && v != id && (first.edges(id, layer).contains(v) || first.edges(
                u,
                layer,
            ).contains(v)) && first.vectors.vector(v) is Some,
    );
    assert forall|v: NodeId| #[trigger] between(u, v) == from(v) by {}
    let scored = Set::new(|v: NodeId| around.contains(v) && from(v) is Some);
    assert(scored =~= all) by {
        assert forall|v: NodeId| scored.contains(v) <==> #[trigger] all.contains(v) by {
            assert(around.contains(v) <==> v != id && v != u && (first.edges(id, layer).contains(v)
                || first.edges(u, layer).contains(v)));
        }
    }
}

/// Every other list only loses the deleted node: one that does not belong to a neighbour
/// of the node with a vector, on a layer of the node, keeps all other nodes in their
/// order.
pub proof fn other_lists_lose_only_the_node(
    first: System,
    id: NodeId,
    replies: nat,
    max_layer: LayerId,
    u: NodeId,
    layer: LayerId,
)
    requires
        first.index.upper.valid(),
        first.housed(),
        listed_once(first, id),
        first.metadata(id) matches Some(m) && m.max_layer == max_layer,
        deleting(first, id).after(replies).op.stage == DeletionStage::Finished,
        u != id,
        layer > max_layer || !first.edges(id, layer).contains(u) || first.vectors.vector(u) is None,
    ensures
        deleting(first, id).after(replies).system.edges(u, layer) == first.edges(u, layer).filter(
            |v: NodeId| v != id,
        ),
{
    neighbors_are_relinked(first, id, replies, max_layer);
    let end = deleting(first, id).after(replies).system;
    assert(end.edges(u, layer) == dropped(first.edges(u, layer), id));
    dropping_keeps_all_others(first.edges(u, layer), id, |v: NodeId| v != id);
}

/// The place of the successor in the list.
proof fn lemma_successor_place(system: System, list: Seq<NodeId>, count: nat) -> (place: int)
    requires
        count <= list.len(),
    ensures
        match successor(system, list, count) {
            Some((heir, layer)) => {
                &&& 0 <= place < count
                &&& list[place] == heir
                &&& system.metadata(heir) matches Some(m) && m.max_layer == layer
                &&& forall|j: int|
                    0 <= j < count ==> ((#[trigger] system.metadata(list[j])) matches Some(m)
                        ==> m.max_layer <= layer && (j < place ==> m.max_layer < layer))
            },
            None => forall|j: int| 0 <= j < count ==> (#[trigger] system.metadata(list[j])) is None,
        },
    decreases count,
{
    if count == 0 {
        0
    } else {
        let before = (count - 1) as nat;
        let earlier = lemma_successor_place(system, list, before);
        if successor(system, list, count) == successor(system, list, before) && successor(
            system,
            list,
            before,
        ) is Some {
            earlier
        } else {
            count - 1
        }
    }
}

/// What a deletion leaves of the records, and who takes the place of a deleted entry
/// point. The codes and the metadata are those of before without the node's. If the node
/// was the entry point, the new one is, in memory and in the store, at a place of the
/// node's list at the bottom layer: a node with metadata, on its highest layer, such that
/// no node of the list with metadata is higher and those before it are all lower. There
/// is none if no other node of the list has metadata. If the node was not the entry point,
/// the entry point stays.
pub proof fn heir_is_the_first_of_the_highest(first: System, id: NodeId, replies: nat) -> (place: int)
    requires
        first.index.upper.valid(),
        first.metadata(id) is Some,
        deleting(first, id).after(replies).op.stage == DeletionStage::Finished,
    ensures
        ({
            let end = deleting(first, id).after(replies).system;
            let ground = first.edges(id, 0);
            let was_entry = match first.index.upper.entry {
                Some((entry, _)) => entry == id,
                None => false,
            };
            &&& end.store.metadata == first.store.metadata.remove(id)
            &&& end.index.sampler.codes == first.index.sampler.codes.remove(id)
            &&& !was_entry ==> end.index.upper.entry == first.index.upper.entry && end.store.entry
                == first.store.entry
            &&& was_entry ==> {
                &&& end.store.entry == end.index.upper.entry
                &&& match end.index.upper.entry {
                    Some((heir, layer)) => {
                        &&& 0 <= place < ground.len()
                        &&& ground[place] == heir
                        &&& heir != id
                        &&& first.metadata(heir) matches Some(m) && m.max_layer == layer
                        &&& forall|j: int|
                            0 <= j < ground.len() && ground[j] != id ==> ((
                            #[trigger] first.metadata(ground[j])) matches Some(m) ==> m.max_layer
                                <= layer && (j < place ==> m.max_layer < layer))
                    },
                    None => forall|j: int|
                        0 <= j < ground.len() && ground[j] != id ==> (#[trigger] first.metadata(
                            ground[j],
                        )) is None,
                }
            }
        }),
{
    every_deletion_is_under_way(first, id, replies);
    deleted_node_is_gone(first, id, replies);
    let end = deleting(first, id).after(replies).system;
    let ground = first.edges(id, 0);
    let left = without_metadata(first, id);
    let place = lemma_successor_place(left, ground, ground.len());
    assert forall|j: int| 0 <= j < ground.len() && ground[j] != id implies #[trigger] first.metadata(
        ground[j],
    ) == left.metadata(ground[j]) by {}
    place
}

} // verus!
