//! What an insertion does to the graph.

use vstd::prelude::*;

use crate::deletion_laws::{distance_from, first_of, lemma_one_more};
use crate::index::capped;
use crate::insertion::{InsertionModel, InsertionStage};
use crate::layer_laws::{
    after,
    every_state_is_steady,
    finished_search_is_locally_optimal,
    lemma_outcome,
    outcome,
};
use crate::layer_search::{SearchModel, Want};
use crate::parts::{selection_action, selection_told};
use crate::query::{onward, QueryModel, QueryStage};
use crate::query_laws::{
    closed_under_edges,
    hits_are_reachable,
    hits_are_sorted_and_true,
    lemma_answered,
    lemma_layer_results,
    lemma_reached_next,
    lemma_reached_start,
    query_after,
    query_finds_something,
    reached,
};
use crate::ranking::{
    at_most,
    ids,
    lemma_ranked_are_given,
    nearest,
    nearest_are_given,
    pruning_keeps_the_nearest,
    ranked,
    Candidate,
};
use crate::scoring::{
    accurate,
    nearest_scored_are_the_nearest,
    scored_nodes_are_listed,
    scores,
    scoring_stays_accurate,
};
use crate::selection::{
    finished_selection_follows_the_rule,
    lemma_places,
    resolved,
    resolved_times,
    selected,
    nearest_candidate_is_selected,
    selected_nodes,
    Doubt,
    SelectionModel,
    Surroundings,
};
use crate::simhash::code_of;
use crate::system::{edges_after_set, Store, System};
use crate::types::{LayerId, NodeId, NodeMetadata};
use crate::upper_graph::MAX_LAYERS;
use crate::vector_laws::{count_after_put, get_after_other_put, get_after_put, stored_count};

verus! {

/// An insertion and the system that it works on.
pub struct InsertionRun {
    /// The insertion.
    pub op: InsertionModel,
    /// The system.
    pub system: System,
}

impl InsertionRun {
    /// The run after the insertion's request has been carried out.
    pub open spec fn next(self) -> InsertionRun {
        let (system, reply) = self.system.performed(self.op.request());
        let (op, index) = self.op.stepped(system.index, reply);
        InsertionRun { op, system: System { index, ..system } }
    }

    /// The run after `replies` requests have been carried out.
    pub open spec fn after(self, replies: nat) -> InsertionRun
        decreases replies,
    {
        if replies == 0 {
            self
        } else {
            self.after((replies - 1) as nat).next()
        }
    }
}

/// The insertion of the system's vector, from its start.
pub open spec fn inserting(system: System) -> InsertionRun {
    InsertionRun { op: InsertionModel::start(), system }
}

/// The system once the new vector is appended.
pub open spec fn with_vector(before: System) -> System {
    System { vectors: before.vectors.appended(), ..before }
}

/// The node whose vector was appended last.
pub open spec fn new_node(first: System) -> NodeId {
    (stored_count(first.vectors.image) - 1) as NodeId
}

/// The level of the new node.
pub open spec fn new_level(first: System) -> LayerId {
    capped(first.vectors.drawn)
}

/// The system with the new node's code.
pub open spec fn coded(first: System) -> System {
    System {
        index: first.index.with_code(new_node(first), code_of(first.vectors.dots)),
        ..first
    }
}

/// The system with the new node's code and metadata, before it is linked.
pub open spec fn recorded(first: System) -> System {
    let id = new_node(first);
    System {
        store: Store {
            metadata: first.store.metadata.insert(
                id,
                NodeMetadata { id, max_layer: new_level(first) },
            ),
            ..first.store
        },
        ..coded(first)
    }
}

/// Nothing leads to the new node yet.
pub open spec fn unlinked(first: System) -> bool {
    &&& first.index.upper.entry matches Some((entry, _)) ==> entry != new_node(first)
    &&& forall|u: NodeId, layer: LayerId|
        !(#[trigger] first.edges(u, layer)).contains(new_node(first))
}

/// The filter with which the new node searches a layer.
pub open spec fn insertion_filter(first: System, layer: LayerId) -> Option<(Seq<bool>, nat)> {
    if layer == 0 {
        Some((code_of(first.vectors.dots), first.index.threshold()))
    } else {
        None
    }
}

/// A list of neighbours is what the rule chooses from the outcome of a search of
/// the layer, as it was before the new node was linked.
pub open spec fn chosen_by_the_rule(first: System, layer: LayerId, own: Seq<NodeId>) -> bool {
    exists|search: SearchModel, entries: Seq<NodeId>|
        #[trigger] reached(
            search,
            recorded(first).picture(layer),
            layer,
            first.index.config.ef_construction as nat,
            insertion_filter(first, layer),
            entries,
        ) && search.want == Want::Nothing && own == selected(
            first.surroundings(),
            search.results,
            first.index.config.limit(layer),
        )
}

/// The search of a layer for the new node, at its end: above the node's level it looks
/// for one node, from there on for as many as the width of construction.
pub open spec fn located_at(first: System, layer: LayerId, entries: Seq<NodeId>) -> SearchModel {
    outcome(
        recorded(first).picture(layer),
        layer,
        if layer > new_level(first) {
            1
        } else {
            first.index.config.ef_construction as nat
        },
        insertion_filter(first, layer),
        entries,
    )
}

/// The nodes from which a layer is searched for the new node: the entry point at the
/// topmost layer, else what the layer above led to.
pub open spec fn lead(first: System, layer: LayerId) -> Seq<NodeId>
    decreases 256 - layer,
{
    match first.index.upper.entry {
        Some((entry, top)) if layer < top => {
            let above = (layer + 1) as LayerId;
            let starts = lead(first, above);
            let found = located_at(first, above, starts).results;
            if above <= new_level(first) {
                selected(first.surroundings(), found, first.index.config.limit(above))
            } else if found.len() > 0 {
                ids(found)
            } else {
                starts
            }
        },
        Some((entry, _)) => seq![entry],
        None => Seq::empty(),
    }
}

/// The layers above `layer` have been searched to the end.
pub open spec fn settled_above(first: System, top: LayerId, layer: int) -> bool {
    forall|k: LayerId|
        layer < k <= top ==> (#[trigger] located_at(first, k, lead(first, k))).want
            == Want::Nothing
}

/// A list of neighbours is what the rule chooses from the outcome of the search that
/// started where the layer above led.
pub open spec fn chosen_along_the_way(first: System, layer: LayerId, own: Seq<NodeId>) -> bool {
    let search = located_at(first, layer, lead(first, layer));
    &&& search.want == Want::Nothing
    &&& own == selected(first.surroundings(), search.results, first.index.config.limit(layer))
}

/// The edges of a chosen neighbour after it is linked to the new node: the new
/// node is added, and if there are too many edges only the nearest stay.
pub open spec fn linked(first: System, u: NodeId, layer: LayerId) -> Seq<NodeId> {
    let all = first.edges(u, layer).push(new_node(first));
    if all.len() > first.index.config.limit(layer) && first.vectors.present().contains(u) {
        nearest(scores(all, distance_from(first, u)), first.index.config.limit(layer))
    } else {
        all
    }
}

/// The edges at a layer once the new node has the edges `own` and those of its
/// neighbours in `done` are linked back.
pub open spec fn linked_back(
    now: System,
    first: System,
    layer: LayerId,
    own: Seq<NodeId>,
    done: Seq<NodeId>,
) -> bool {
    &&& now.edges(new_node(first), layer) == own
    &&& forall|u: NodeId|
        u != new_node(first) ==> #[trigger] now.edges(u, layer) == if done.contains(u) {
            linked(first, u, layer)
        } else {
            first.edges(u, layer)
        }
}

/// A list of neighbours for the new node: chosen by the rule, no longer than
/// allowed, without repetition, of nodes with vectors that the graph names, and
/// without the new node. In a lively system it is not empty.
pub open spec fn proper(first: System, layer: LayerId, own: Seq<NodeId>) -> bool {
    &&& chosen_by_the_rule(first, layer, own)
    &&& chosen_along_the_way(first, layer, own)
    &&& own.len() <= first.index.config.limit(layer)
    &&& own.no_duplicates()
    &&& forall|i: int|
        0 <= i < own.len() ==> first.vectors.present().contains(#[trigger] own[i]) && own[i]
            != new_node(first) && named(first, own[i])
    &&& lively(first) ==> own.len() > 0
}

/// The new node is linked at a layer.
pub open spec fn linked_at(now: System, first: System, layer: LayerId) -> bool {
    let own = now.edges(new_node(first), layer);
    &&& proper(first, layer, own)
    &&& linked_back(now, first, layer, own, own)
}

/// The highest layer on which the new node is linked.
pub open spec fn linking_top(first: System, top: LayerId) -> LayerId {
    if new_level(first) < top {
        new_level(first)
    } else {
        top
    }
}

/// The layers above `layer` up to the highest one are linked; the others, but for
/// `layer` itself, are as they were.
pub open spec fn linked_above(now: System, first: System, top: LayerId, layer: int) -> bool {
    &&& forall|k: LayerId|
        layer < k <= linking_top(first, top) ==> #[trigger] linked_at(now, first, k)
    &&& forall|u: NodeId, k: LayerId|
        k < layer || k > linking_top(first, top) ==> #[trigger] now.edges(u, k) == first.edges(
            u,
            k,
        )
}

/// All records but the edges and the entry point.
pub open spec fn records_written(now: System, first: System) -> bool {
    &&& now.vectors == first.vectors
    &&& now.index.config == first.index.config
    &&& now.index.upper.valid()
    &&& now.store.metadata == recorded(first).store.metadata
    &&& now.index.sampler == recorded(first).index.sampler
}

/// The entry point is what it was.
pub open spec fn entry_kept(now: System, first: System) -> bool {
    &&& now.store.entry == first.store.entry
    &&& now.index.upper.entry == first.index.upper.entry
}

/// A search of the layer in hand, with entries other than the new node.
pub open spec fn located(op: InsertionModel, first: System) -> bool {
    reached(
        op.search,
        recorded(first).picture(op.layer),
        op.layer,
        first.index.config.ef_construction as nat,
        insertion_filter(first, op.layer),
        op.entries,
    )
}

/// The graph names a node: it is the entry point or in some list.
pub open spec fn named(first: System, v: NodeId) -> bool {
    ||| first.index.upper.entry matches Some((entry, _)) && entry == v
    ||| exists|u: NodeId, layer: LayerId| #[trigger] first.edges(u, layer).contains(v)
}

/// A search has a vector to start from, and a node may have neighbours: the entry
/// point has a vector, and neither a limit nor the width of construction is zero.
pub open spec fn lively(first: System) -> bool {
    &&& first.index.upper.entry matches Some((entry, _)) && first.vectors.present().contains(entry)
    &&& first.index.config.m >= 1
    &&& first.index.config.m_max >= 1
    &&& first.index.config.ef_construction >= 1
}

/// The nodes are ones that the graph names; in a lively system there are some, and
/// all have vectors.
pub open spec fn usable(first: System, list: Seq<NodeId>) -> bool {
    &&& forall|i: int| 0 <= i < list.len() ==> named(first, #[trigger] list[i])
    &&& lively(first) ==> {
        &&& list.len() > 0
        &&& forall|i: int|
            0 <= i < list.len() ==> first.vectors.present().contains(#[trigger] list[i])
    }
}

/// A selection among candidates comes to this state.
pub open spec fn selecting(
    selection: SelectionModel,
    around: Surroundings,
    candidates: Seq<Candidate>,
    max: nat,
) -> bool {
    exists|replies: nat|
        selection == #[trigger] resolved_times(
            SelectionModel::start(candidates, max),
            around,
            replies,
        )
}

/// What holds of an insertion that links its node at every moment.
pub open spec fn linking(run: InsertionRun, first: System, top: LayerId) -> bool {
    let op = run.op;
    let now = run.system;
    let limit = first.index.config.limit(op.layer);
    let u0 = op.chosen[op.at as int];
    &&& op.id == new_node(first)
    &&& op.code == Some(code_of(first.vectors.dots))
    &&& op.level == new_level(first)
    &&& op.top == top
    &&& records_written(now, first)
    &&& settled_above(
        first,
        top,
        if op.stage == InsertionStage::Crown || op.stage == InsertionStage::Finished {
            -1
        } else {
            op.layer as int
        },
    )
    &&& match op.stage {
        InsertionStage::Descend => {
            &&& op.level < op.layer <= top
            &&& linked_above(now, first, top, op.layer as int)
            &&& entry_kept(now, first)
            &&& now == recorded(first)
            &&& op.entries.len() > 0
            &&& op.entries == lead(first, op.layer)
            &&& usable(first, op.entries)
            &&& reached(
                op.search,
                recorded(first).picture(op.layer),
                op.layer,
                1,
                None,
                op.entries,
            )
        },
        InsertionStage::Locate => {
            &&& op.layer <= linking_top(first, top)
            &&& linked_above(now, first, top, op.layer as int)
            &&& as_before(now, first, op.layer)
            &&& entry_kept(now, first)
            &&& op.entries == lead(first, op.layer)
            &&& usable(first, op.entries)
            &&& located(op, first)
        },
        InsertionStage::Select => {
            &&& op.layer <= linking_top(first, top)
            &&& linked_above(now, first, top, op.layer as int)
            &&& as_before(now, first, op.layer)
            &&& entry_kept(now, first)
            &&& op.entries == lead(first, op.layer)
            &&& usable(first, op.entries)
            &&& located(op, first)
            &&& op.search.want == Want::Nothing
            &&& selecting(op.selection, first.surroundings(), op.search.results, limit)
        },
        InsertionStage::Own => {
            &&& op.layer <= linking_top(first, top)
            &&& linked_above(now, first, top, op.layer as int)
            &&& as_before(now, first, op.layer)
            &&& entry_kept(now, first)
            &&& proper(first, op.layer, op.chosen)
        },
        InsertionStage::Fetch | InsertionStage::Probe | InsertionStage::Score
        | InsertionStage::Link => {
            &&& op.layer <= linking_top(first, top)
            &&& linked_above(now, first, top, op.layer as int)
            &&& entry_kept(now, first)
            &&& proper(first, op.layer, op.chosen)
            &&& op.at < op.chosen.len()
            &&& linked_back(now, first, op.layer, op.chosen, first_of(op.chosen, op.at))
            &&& op.stage == InsertionStage::Probe || op.stage == InsertionStage::Score ==> {
                &&& op.edges == first.edges(u0, op.layer).push(op.id)
                &&& op.edges.len() > limit
            }
            &&& op.stage == InsertionStage::Score ==> {
                &&& op.scoring.from == u0
                &&& op.scoring.list == op.edges
                &&& accurate(op.scoring, distance_from(first, u0))
            }
            &&& op.stage == InsertionStage::Link ==> op.edges == linked(first, u0, op.layer)
        },
        InsertionStage::Crown => {
            &&& linked_above(now, first, top, -1)
            &&& op.level > top
            &&& now.store.entry == first.store.entry
            &&& now.index.upper.entry == Some((op.id, op.level))
        },
        InsertionStage::Finished => {
            &&& linked_above(now, first, top, -1)
            &&& if op.level > top {
                &&& now.store.entry == Some((op.id, op.level))
                &&& now.index.upper.entry == Some((op.id, op.level))
            } else {
                entry_kept(now, first)
            }
        },
        _ => false,
    }
}

/// A layer is as it was.
pub open spec fn as_before(now: System, first: System, layer: LayerId) -> bool {
    forall|u: NodeId| #[trigger] now.edges(u, layer) == first.edges(u, layer)
}

/// What holds of an insertion at every moment, of a system that holds the new vector
/// already.
pub open spec fn placing(run: InsertionRun, first: System) -> bool {
    let op = run.op;
    let now = run.system;
    match op.stage {
        InsertionStage::Append => {
            &&& with_vector(now) == first
            &&& now.vectors.next() == new_node(first)
            &&& op == InsertionModel::start()
        },
        InsertionStage::Project => now == first && op.id == new_node(first),
        InsertionStage::Draw => {
            &&& now == coded(first)
            &&& op.id == new_node(first)
            &&& op.code == Some(code_of(first.vectors.dots))
        },
        InsertionStage::Record => {
            &&& now == coded(first)
            &&& op.id == new_node(first)
            &&& op.code == Some(code_of(first.vectors.dots))
            &&& op.level == new_level(first)
        },
        _ => match first.index.upper.entry {
            Some((_, top)) => linking(run, first, top),
            None => {
                &&& op.id == new_node(first)
                &&& op.level == new_level(first)
                &&& records_written(now, first)
                &&& forall|u: NodeId, k: LayerId| #[trigger] now.edges(u, k) == first.edges(u, k)
                &&& now.index.upper.entry == Some((op.id, op.level))
                &&& op.stage == InsertionStage::Crown || op.stage == InsertionStage::Finished
                &&& op.stage == InsertionStage::Finished ==> now.store.entry == Some(
                    (op.id, op.level),
                )
            },
        },
    }
}

/// The index is valid once the code is stored.
pub proof fn lemma_recorded(first: System)
    requires
        first.index.valid(),
        first.vectors.dots.len() == first.index.sampler.num_bits,
    ensures
        forall|u: NodeId, k: LayerId| #[trigger] recorded(first).edges(u, k) == first.edges(u, k),
        recorded(first).index.upper == first.index.upper,
        recorded(first).index.config == first.index.config,
        recorded(first).index.threshold() == first.index.threshold(),
        recorded(first).vectors == first.vectors,
{
}

/// A layer that is as it was looks as it did.
pub proof fn lemma_same_picture(now: System, first: System, layer: LayerId)
    requires
        records_written(now, first),
        as_before(now, first, layer),
    ensures
        now.picture(layer) == recorded(first).picture(layer),
{
    let a = now.picture(layer);
    let b = recorded(first).picture(layer);
    assert(a.neighbors =~= b.neighbors) by {
        assert forall|u: NodeId| #[trigger] (a.neighbors)(u) == (b.neighbors)(u) by {
            assert(now.edges(u, layer) == first.edges(u, layer));
        }
    }
}

/// The nodes found by a search from usable nodes are usable.
proof fn lemma_found_usable(
    search: SearchModel,
    first: System,
    layer: LayerId,
    ef: nat,
    filter: Option<(Seq<bool>, nat)>,
    entries: Seq<NodeId>,
)
    requires
        reached(search, recorded(first).picture(layer), layer, ef, filter, entries),
        search.want == Want::Nothing,
        usable(first, entries),
        lively(first) ==> ef > 0,
    ensures
        usable(first, ids(search.results)),
        ids(search.results).no_duplicates(),
{
    let known = Set::new(|v: NodeId| named(first, v));
    let system = recorded(first);
    assert forall|i: int| 0 <= i < entries.len() implies known.contains(#[trigger] entries[i]) by {
        assert(named(first, entries[i]));
    }
    assert forall|u: NodeId, v: NodeId|
        known.contains(u) && #[trigger] system.edges(u, layer).contains(
            v,
        ) implies known.contains(v) by {
        assert(system.edges(u, layer) == first.edges(u, layer));
        assert(first.edges(u, layer).contains(v));
    }
    if lively(first) {
        assert(first.vectors.present().contains(entries[0]));
        assert((system.vectors.from_query())(entries[0]) is Some);
    }
    lemma_layer_results(search, system, layer, ef, filter, entries, known);
    assert forall|i: int| 0 <= i < ids(search.results).len() implies named(
        first,
        #[trigger] ids(search.results)[i],
    ) by {
        assert(known.contains(search.results[i].id));
    }
    if lively(first) {
        assert forall|i: int|
            0 <= i < ids(search.results).len() implies first.vectors.present().contains(
            #[trigger] ids(search.results)[i],
        ) by {
            assert((system.vectors.from_query())(search.results[i].id) is Some);
        }
    }
}

/// Coming to a layer keeps an insertion going.
proof fn lemma_at_layer(run: InsertionRun, first: System, top: LayerId, layer: LayerId)
    requires
        ({
            let op = run.op;
            let now = run.system;
            &&& op.id == new_node(first)
            &&& op.code == Some(code_of(first.vectors.dots))
            &&& op.level == new_level(first)
            &&& op.top == top
            &&& records_written(now, first)
            &&& entry_kept(now, first)
            &&& layer <= top
            &&& usable(first, op.entries)
            &&& op.entries == lead(first, layer)
            &&& settled_above(first, top, layer as int)
            &&& linked_above(now, first, top, layer as int)
            &&& as_before(now, first, layer)
            &&& layer > op.level ==> now == recorded(first) && op.entries.len() > 0
        }),
    ensures
        ({
            let op = run.op.at_layer(run.system.index, layer);
            linking(InsertionRun { op, system: run.system }, first, top)
        }),
{
    let op = run.op;
    let picture = recorded(first).picture(layer);
    if layer > op.level {
        lemma_reached_start(picture, layer, 1, None, op.entries);
    } else {
        lemma_reached_start(
            picture,
            layer,
            first.index.config.ef_construction as nat,
            insertion_filter(first, layer),
            op.entries,
        );
        let next = op.at_layer(run.system.index, layer);
        assert(run.system.index.threshold() == first.index.threshold());
        assert(located(next, first));
    }
}

/// The layer in hand, once linked, counts among those above the next one.
proof fn lemma_layer_done(now: System, first: System, top: LayerId, layer: LayerId)
    requires
        linked_above(now, first, top, layer as int),
        linked_at(now, first, layer),
        layer <= linking_top(first, top),
    ensures
        linked_above(now, first, top, layer - 1),
{
    assert forall|k: LayerId| layer - 1 < k <= linking_top(first, top) implies #[trigger] linked_at(
        now,
        first,
        k,
    ) by {
        if k == layer {
            assert(linked_at(now, first, layer));
        }
    }
}

/// A layer whose search is over counts among those above the next one.
proof fn lemma_layer_settled(first: System, top: LayerId, layer: LayerId)
    requires
        settled_above(first, top, layer as int),
        located_at(first, layer, lead(first, layer)).want == Want::Nothing,
    ensures
        settled_above(first, top, layer - 1),
{
    assert forall|k: LayerId| layer - 1 < k <= top implies (#[trigger] located_at(
        first,
        k,
        lead(first, k),
    )).want == Want::Nothing by {
        if k == layer {
            assert(located_at(first, layer, lead(first, layer)).want == Want::Nothing);
        }
    }
}

/// The search that is over is the one that the way led to.
proof fn lemma_located(
    search: SearchModel,
    first: System,
    layer: LayerId,
    ef: nat,
    filter: Option<(Seq<bool>, nat)>,
    entries: Seq<NodeId>,
)
    requires
        reached(search, recorded(first).picture(layer), layer, ef, filter, entries),
        search.want == Want::Nothing,
        ef == if layer > new_level(first) {
            1
        } else {
            first.index.config.ef_construction as nat
        },
        filter == insertion_filter(first, layer),
    ensures
        search == located_at(first, layer, entries),
{
    let picture = recorded(first).picture(layer);
    let begun = SearchModel::start(layer, ef, filter, entries);
    let n = choose|n: nat| search == #[trigger] after(begun, picture, n);
    lemma_outcome(picture, layer, ef, filter, entries, n);
}

/// Turning to the next neighbour keeps an insertion going.
proof fn lemma_at_neighbor(run: InsertionRun, first: System, top: LayerId, at: nat)
    requires
        ({
            let op = run.op;
            let now = run.system;
            &&& op.id == new_node(first)
            &&& op.code == Some(code_of(first.vectors.dots))
            &&& op.level == new_level(first)
            &&& op.top == top
            &&& records_written(now, first)
            &&& entry_kept(now, first)
            &&& op.layer <= linking_top(first, top)
            &&& linked_above(now, first, top, op.layer as int)
            &&& proper(first, op.layer, op.chosen)
            &&& linked_back(now, first, op.layer, op.chosen, first_of(op.chosen, at))
            &&& settled_above(first, top, op.layer as int)
            &&& first.index.upper.entry matches Some((_, t)) && t == top
        }),
    ensures
        ({
            let (op, index) = run.op.at_neighbor(run.system.index, at);
            linking(InsertionRun { op, system: System { index, ..run.system } }, first, top)
        }),
{
    let op = run.op;
    let now = run.system;
    if at >= op.chosen.len() {
        assert(first_of(op.chosen, at) == op.chosen);
        assert(linked_at(now, first, op.layer));
        lemma_layer_done(now, first, top, op.layer);
        lemma_layer_settled(first, top, op.layer);
        if op.layer > 0 {
            let below = (op.layer - 1) as LayerId;
            assert(lead(first, below) == op.chosen);
            assert(as_before(now, first, below));
            assert(System { index: now.index, ..now } == now);
            let moved = InsertionModel { at, entries: op.chosen, ..op };
            lemma_at_layer(InsertionRun { op: moved, system: now }, first, top, below);
        } else if op.level > top {
            let end = System {
                index: now.index.with_entry(Some((op.id, op.level))),
                ..now
            };
            lemma_entry_moved(now, end, first, top, -1);
        }
    } else {
        assert(System { index: now.index, ..now } == now);
    }
}

/// Moving the entry point leaves all links as they are.
proof fn lemma_entry_moved(now: System, end: System, first: System, top: LayerId, layer: int)
    requires
        linked_above(now, first, top, layer),
        end.store.ground == now.store.ground,
        end.index.upper.layers == now.index.upper.layers,
    ensures
        linked_above(end, first, top, layer),
{
    assert forall|u: NodeId, k: LayerId| #[trigger] end.edges(u, k) == now.edges(u, k) by {}
    assert forall|k: LayerId| layer < k <= linking_top(first, top) implies #[trigger] linked_at(
        end,
        first,
        k,
    ) by {
        assert(linked_at(now, first, k));
    }
}

/// Writing a list at the layer in hand leaves the other layers as they are.
proof fn lemma_other_layers(
    now: System,
    end: System,
    first: System,
    top: LayerId,
    layer: LayerId,
)
    requires
        linked_above(now, first, top, layer as int),
        layer <= linking_top(first, top),
        forall|u: NodeId, k: LayerId|
            k != layer ==> #[trigger] end.edges(u, k) == now.edges(u, k),
    ensures
        linked_above(end, first, top, layer as int),
{
    assert forall|k: LayerId| layer < k <= linking_top(first, top) implies #[trigger] linked_at(
        end,
        first,
        k,
    ) by {
        assert(linked_at(now, first, k));
        assert(end.edges(new_node(first), k) == now.edges(new_node(first), k));
    }
}

/// Choosing neighbours yields a proper list.
proof fn lemma_proper(op: InsertionModel, first: System)
    requires
        located(op, first),
        op.search.want == Want::Nothing,
        usable(first, op.entries),
        op.entries == lead(first, op.layer),
        op.layer <= new_level(first),
        unlinked(first),
    ensures
        proper(
            first,
            op.layer,
            selected(
                first.surroundings(),
                op.search.results,
                first.index.config.limit(op.layer),
            ),
        ),
{
    let limit = first.index.config.limit(op.layer);
    let own = selected(first.surroundings(), op.search.results, limit);
    lemma_found_usable(
        op.search,
        first,
        op.layer,
        first.index.config.ef_construction as nat,
        insertion_filter(first, op.layer),
        op.entries,
    );
    lemma_located(
        op.search,
        first,
        op.layer,
        first.index.config.ef_construction as nat,
        insertion_filter(first, op.layer),
        op.entries,
    );
    selected_nodes(first.surroundings(), op.search.results, limit);
    let found = ids(op.search.results);
    assert forall|i: int| 0 <= i < own.len() implies first.vectors.present().contains(
        #[trigger] own[i],
    ) && own[i] != new_node(first) && named(first, own[i]) by {
        assert(found.contains(own[i]));
        let j = choose|j: int| 0 <= j < found.len() && found[j] == own[i];
        assert(named(first, found[j]));
    }
    if lively(first) {
        assert(first.vectors.present().contains(found[0]));
        assert(op.search.results[0].id == found[0]);
        nearest_candidate_is_selected(first.surroundings(), op.search.results, limit);
    }
}

/// Every step of the descent keeps an insertion going.
proof fn lemma_next_descend(run: InsertionRun, first: System, top: LayerId)
    requires
        linking(run, first, top),
        run.op.stage == InsertionStage::Descend,
        first.index.valid(),
        first.index.upper.entry matches Some((_, t)) && t == top,
        first.vectors.dots.len() == first.index.sampler.num_bits,
        unlinked(first),
    ensures
        linking(run.next(), first, top),
{
    let op = run.op;
    let now = run.system;
    lemma_recorded(first);
    lemma_answered(op.search, now);
    lemma_reached_next(op.search, now.picture(op.layer), op.layer, 1, None, op.entries);
    assert(System { index: now.index, ..now } == now);
    if op.search.want == Want::Nothing {
        lemma_found_usable(op.search, first, op.layer, 1, None, op.entries);
        let below = (op.layer - 1) as LayerId;
        lemma_located(op.search, first, op.layer, 1, None, op.entries);
        lemma_layer_settled(first, top, op.layer);
        let moved = InsertionModel { entries: onward(op.entries, op.search.results), ..op };
        assert(linked_above(now, first, top, below as int));
        lemma_at_layer(InsertionRun { op: moved, system: now }, first, top, below);
    }
}

/// Every step of the search for candidates and of the choice among them keeps an
/// insertion going.
proof fn lemma_next_locate(run: InsertionRun, first: System, top: LayerId)
    requires
        linking(run, first, top),
        run.op.stage == InsertionStage::Locate || run.op.stage == InsertionStage::Select,
        first.index.valid(),
        first.index.upper.entry matches Some((_, t)) && t == top,
        first.vectors.dots.len() == first.index.sampler.num_bits,
        unlinked(first),
    ensures
        linking(run.next(), first, top),
{
    let op = run.op;
    let now = run.system;
    let around = first.surroundings();
    let limit = first.index.config.limit(op.layer);
    lemma_recorded(first);
    lemma_same_picture(now, first, op.layer);
    assert(System { index: now.index, ..now } == now);
    if op.stage == InsertionStage::Locate {
        lemma_answered(op.search, now);
        lemma_reached_next(
            op.search,
            now.picture(op.layer),
            op.layer,
            first.index.config.ef_construction as nat,
            insertion_filter(first, op.layer),
            op.entries,
        );
        if op.search.want == Want::Nothing {
            let begun = SelectionModel::start(op.search.results, limit);
            assert(resolved_times(begun, around, 0) == begun);
        }
    } else {
        let begun = SelectionModel::start(op.search.results, limit);
        let n = choose|n: nat| op.selection == #[trigger] resolved_times(begun, around, n);
        if op.selection.doubt != Doubt::Nothing {
            let reply = now.performed(selection_action(op.selection)).1;
            assert(selection_told(op.selection, reply) == resolved(op.selection, around));
            assert(resolved_times(begun, around, n + 1) == resolved(op.selection, around));
        } else {
            finished_selection_follows_the_rule(around, op.search.results, limit, n);
            lemma_proper(op, first);
        }
    }
}

/// Every step of the linking keeps an insertion going.
proof fn lemma_next_link(run: InsertionRun, first: System, top: LayerId)
    requires
        linking(run, first, top),
        run.op.stage == InsertionStage::Own || run.op.stage == InsertionStage::Fetch
            || run.op.stage == InsertionStage::Probe || run.op.stage == InsertionStage::Score
            || run.op.stage == InsertionStage::Link,
        first.index.valid(),
        first.index.upper.entry matches Some((_, t)) && t == top,
        first.vectors.dots.len() == first.index.sampler.num_bits,
        unlinked(first),
    ensures
        linking(run.next(), first, top),
{
    let op = run.op;
    let now = run.system;
    let id = op.id;
    let u0 = op.chosen[op.at as int];
    assert(System { index: now.index, ..now } == now);
    match op.stage {
        InsertionStage::Own => {
            edges_after_set(now, id, op.layer, op.chosen);
            let end = now.performed(op.request()).0;
            lemma_other_layers(now, end, first, top, op.layer);
            let none = first_of(op.chosen, 0);
            assert(none =~= Seq::<NodeId>::empty());
            assert(linked_back(end, first, op.layer, op.chosen, none));
            lemma_at_neighbor(InsertionRun { op, system: end }, first, top, 0);
        },
        InsertionStage::Fetch => {
            lemma_one_more(op.chosen, op.at);
            assert(now.edges(u0, op.layer) == first.edges(u0, op.layer));
        },
        InsertionStage::Probe => {
            if now.vectors.present().contains(u0) {
                assert(op.edges.take(0) =~= Seq::<NodeId>::empty());
            }
        },
        InsertionStage::Score => {
            scoring_stays_accurate(op.scoring, distance_from(first, u0));
            if !op.scoring.over() {
                assert(distance_from(first, u0)(op.scoring.list[op.scoring.at as int]) == (
                now.vectors.between())(u0, op.scoring.list[op.scoring.at as int]));
            } else {
                assert(first.vectors.present().contains(op.chosen[op.at as int]));
            }
        },
        _ => {
            edges_after_set(now, u0, op.layer, op.edges);
            let end = now.performed(op.request()).0;
            lemma_other_layers(now, end, first, top, op.layer);
            lemma_one_more(op.chosen, op.at);
            assert(linked_back(
                end,
                first,
                op.layer,
                op.chosen,
                first_of(op.chosen, op.at + 1),
            )) by {
                assert forall|u: NodeId| u != id implies #[trigger] end.edges(u, op.layer)
                    == if first_of(op.chosen, op.at + 1).contains(u) {
                    linked(first, u, op.layer)
                } else {
                    first.edges(u, op.layer)
                } by {
                    assert(now.edges(u, op.layer) == if first_of(op.chosen, op.at).contains(u) {
                        linked(first, u, op.layer)
                    } else {
                        first.edges(u, op.layer)
                    });
                }
            }
            lemma_at_neighbor(InsertionRun { op, system: end }, first, top, op.at + 1);
        },
    }
}

/// Every step keeps an insertion going.
pub proof fn lemma_next(run: InsertionRun, first: System)
    requires
        placing(run, first),
        first.index.valid(),
        first.vectors.dots.len() == first.index.sampler.num_bits,
        unlinked(first),
    ensures
        placing(run.next(), first),
{
    let op = run.op;
    let now = run.system;
    lemma_recorded(first);
    match op.stage {
        InsertionStage::Append | InsertionStage::Project | InsertionStage::Draw => {},
        InsertionStage::Record => {
            let end = now.performed(op.request()).0;
            assert(end == recorded(first));
            assert(System { index: end.index, ..end } == end);
            if let Some((entry, top)) = first.index.upper.entry {
                let moved = InsertionModel { top, entries: seq![entry], ..op };
                assert(linked_above(end, first, top, top as int));
                lemma_at_layer(InsertionRun { op: moved, system: end }, first, top, top);
            }
        },
        _ => {
            if let Some((entry, top)) = first.index.upper.entry {
                match op.stage {
                    InsertionStage::Descend => {
                        lemma_next_descend(run, first, top);
                    },
                    InsertionStage::Locate | InsertionStage::Select => {
                        lemma_next_locate(run, first, top);
                    },
                    InsertionStage::Crown => {
                        let end = now.performed(op.request()).0;
                        lemma_entry_moved(now, end, first, top, -1);
                    },
                    InsertionStage::Finished => {
                        assert(run.next() == run);
                    },
                    _ => {
                        lemma_next_link(run, first, top);
                    },
                }
            } else {
                let end = run.next().system;
                assert forall|u: NodeId, k: LayerId| #[trigger] end.edges(u, k) == first.edges(
                    u,
                    k,
                ) by {
                    assert(now.edges(u, k) == first.edges(u, k));
                }
            }
        },
    }
}

/// Appending the new vector numbers it, leaves the graph as it is, and keeps the
/// vectors of all other nodes.
pub proof fn lemma_appended(before: System)
    requires
        before.vectors.writable(),
    ensures
        ({
            let first = with_vector(before);
            let id = before.vectors.next();
            &&& new_node(first) == id
            &&& first.vectors.next() == id + 1
            &&& first.vectors.image.len() >= before.vectors.image.len()
            &&& first.vectors.vector(id) == Some(before.vectors.own)
            &&& forall|v: NodeId|
                v != id && before.vectors.vector(v) is Some ==> #[trigger] first.vectors.vector(v)
                    == before.vectors.vector(v)
        }),
{
    let first = with_vector(before);
    let id = before.vectors.next();
    let image = before.vectors.image;
    let own = before.vectors.own;
    let dimension = before.vectors.dimension;
    count_after_put(image, id, own, dimension);
    get_after_put(image, id, own, dimension);
    assert forall|v: NodeId| v != id && before.vectors.vector(v) is Some implies
        #[trigger] first.vectors.vector(v) == before.vectors.vector(v) by {
        get_after_other_put(image, id, own, dimension, v);
    }
}

/// Every state that an insertion comes to.
pub proof fn every_insertion_is_placing(before: System, replies: nat)
    requires
        before.index.valid(),
        before.vectors.dots.len() == before.index.sampler.num_bits,
        before.vectors.writable(),
        unlinked(with_vector(before)),
    ensures
        placing(inserting(before).after(replies), with_vector(before)),
    decreases replies,
{
    lemma_appended(before);
    if replies > 0 {
        every_insertion_is_placing(before, (replies - 1) as nat);
        lemma_next(inserting(before).after((replies - 1) as nat), with_vector(before));
    }
}

/// A finished insertion has recorded the new node: its metadata with the level
/// drawn for it, which is a layer of the graph, and its code. The records of all
/// other nodes are kept.
pub proof fn new_node_is_recorded(before: System, replies: nat)
    requires
        before.index.valid(),
        before.vectors.dots.len() == before.index.sampler.num_bits,
        before.vectors.writable(),
        unlinked(with_vector(before)),
        inserting(before).after(replies).op.stage == InsertionStage::Finished,
    ensures
        ({
            let end = inserting(before).after(replies);
            let id = before.vectors.next();
            &&& end.op.id == id
            &&& end.system.store.metadata == before.store.metadata.insert(
                id,
                NodeMetadata { id, max_layer: new_level(before) },
            )
            &&& new_level(before) < MAX_LAYERS
            &&& end.system.index.sampler.codes == before.index.sampler.codes.insert(
                id,
                code_of(before.vectors.dots),
            )
        }),
{
    lemma_appended(before);
    every_insertion_is_placing(before, replies);
}

/// After a finished insertion the new vector reads back for the new node, every
/// other node has the vector that it had, and the number of vectors is one higher.
pub proof fn new_vector_reads_back(before: System, replies: nat)
    requires
        before.index.valid(),
        before.vectors.dots.len() == before.index.sampler.num_bits,
        before.vectors.writable(),
        unlinked(with_vector(before)),
        inserting(before).after(replies).op.stage == InsertionStage::Finished,
    ensures
        ({
            let end = inserting(before).after(replies).system;
            let id = before.vectors.next();
            &&& end.vectors == before.vectors.appended()
            &&& end.vectors.next() == id + 1
            &&& end.vectors.vector(id) == Some(before.vectors.own)
            &&& forall|v: NodeId|
                v != id && before.vectors.vector(v) is Some ==> #[trigger] end.vectors.vector(v)
                    == before.vectors.vector(v)
        }),
{
    lemma_appended(before);
    every_insertion_is_placing(before, replies);
}

/// After a finished insertion there is an entry point, the same in memory and in
/// the store: the new node if it reaches above the earlier one or there was none,
/// else the earlier one.
pub proof fn highest_node_is_the_entry(before: System, replies: nat)
    requires
        before.index.valid(),
        before.vectors.dots.len() == before.index.sampler.num_bits,
        before.vectors.writable(),
        unlinked(with_vector(before)),
        inserting(before).after(replies).op.stage == InsertionStage::Finished,
    ensures
        ({
            let end = inserting(before).after(replies).system;
            let new = Some((before.vectors.next(), new_level(before)));
            match before.index.upper.entry {
                Some((_, top)) if new_level(before) <= top => {
                    &&& end.index.upper.entry == before.index.upper.entry
                    &&& end.store.entry == before.store.entry
                },
                _ => end.index.upper.entry == new && end.store.entry == new,
            }
        }),
{
    lemma_appended(before);
    every_insertion_is_placing(before, replies);
}

/// What a finished insertion makes of the lists, exactly. On each layer up to the
/// new node's level and the earlier top, the new node has the neighbours that the
/// rule chooses from a search of the layer, and each of them is linked back; all
/// other lists are what they were. Distances are those of the vectors with the new
/// one among them.
pub proof fn new_node_is_linked(before: System, replies: nat)
    requires
        before.index.valid(),
        before.vectors.dots.len() == before.index.sampler.num_bits,
        before.vectors.writable(),
        unlinked(with_vector(before)),
        inserting(before).after(replies).op.stage == InsertionStage::Finished,
    ensures
        ({
            let first = with_vector(before);
            let end = inserting(before).after(replies).system;
            match first.index.upper.entry {
                Some((_, top)) => {
                    &&& forall|layer: LayerId|
                        layer <= linking_top(first, top) ==> #[trigger] linked_at(end, first, layer)
                    &&& forall|u: NodeId, layer: LayerId|
                        layer > linking_top(first, top) ==> #[trigger] end.edges(u, layer)
                            == first.edges(u, layer)
                },
                None => forall|u: NodeId, layer: LayerId| #[trigger]
                    end.edges(u, layer) == first.edges(u, layer),
            }
        }),
{
    every_insertion_is_placing(before, replies);
}

/// In a lively system a new node has neighbours: on each layer up to its level and
/// the earlier top, if the entry point has a vector.
pub proof fn new_node_has_neighbors(before: System, replies: nat, top: LayerId, layer: LayerId)
    requires
        before.index.valid(),
        before.vectors.dots.len() == before.index.sampler.num_bits,
        before.vectors.writable(),
        unlinked(with_vector(before)),
        inserting(before).after(replies).op.stage == InsertionStage::Finished,
        lively(before),
        before.index.upper.entry matches Some((_, t)) && t == top,
        layer <= linking_top(before, top),
    ensures
        inserting(before).after(replies).system.edges(before.vectors.next(), layer).len() > 0,
{
    let first = with_vector(before);
    lemma_appended(before);
    if let Some((entry, _)) = before.index.upper.entry {
        assert(first.vectors.vector(entry) == before.vectors.vector(entry));
    }
    assert(lively(first));
    new_node_is_linked(before, replies);
    assert(linked_at(inserting(before).after(replies).system, first, layer));
}

/// Links go both ways: a neighbour that the new node has chosen links back to it,
/// or has as many links as allowed to nodes that are not farther from it.
pub proof fn links_go_both_ways(
    before: System,
    replies: nat,
    layer: LayerId,
    u: NodeId,
)
    requires
        before.index.valid(),
        before.vectors.dots.len() == before.index.sampler.num_bits,
        before.vectors.writable(),
        unlinked(with_vector(before)),
        inserting(before).after(replies).op.stage == InsertionStage::Finished,
        before.index.upper.entry matches Some((_, top)) && layer <= linking_top(before, top),
        inserting(before).after(replies).system.edges(before.vectors.next(), layer).contains(u),
    ensures
        ({
            let id = before.vectors.next();
            let between = with_vector(before).vectors.between();
            let edges = inserting(before).after(replies).system.edges(u, layer);
            &&& between(u, id) is Some
            &&& {
                ||| edges.contains(id)
                ||| {
                    &&& edges.len() == before.index.config.limit(layer)
                    &&& forall|i: int|
                        0 <= i < edges.len() ==> ((#[trigger] between(u, edges[i])) matches Some(d)
                            && d.rank() <= between(u, id)->0.rank())
                }
            }
        }),
{
    let first = with_vector(before);
    lemma_appended(before);
    new_node_is_linked(before, replies);
    let end = inserting(before).after(replies).system;
    let id = new_node(first);
    assert(linked_at(end, first, layer));
    let own = end.edges(id, layer);
    let i0 = choose|i: int| 0 <= i < own.len() && own[i] == u;
    assert(own[i0] != id && first.vectors.present().contains(own[i0]));
    assert(first.vectors.vector(u) is Some);
    let distance = (first.vectors.between())(u, id)->0;
    assert(end.edges(u, layer) == linked(first, u, layer));
    let all = first.edges(u, layer).push(id);
    assert(all[all.len() - 1] == id);
    let limit = first.index.config.limit(layer);
    if all.len() > limit && first.vectors.present().contains(u) {
        let from = distance_from(first, u);
        let scored = scores(all, from);
        scored_nodes_are_listed(all, from);
        assert(all.contains(id));
        assert(from(id) == Some(distance));
        assert(ids(scored).contains(id));
        let j = choose|j: int| 0 <= j < ids(scored).len() && ids(scored)[j] == id;
        let c = scored[j];
        assert(c.distance == distance);
        assert(scored.contains(c));
        pruning_keeps_the_nearest(scored, limit, c);
        let kept = at_most(ranked(scored), limit);
        let edges = end.edges(u, layer);
        assert(edges == ids(kept));
        if kept.contains(c) {
            let m = choose|m: int| 0 <= m < kept.len() && kept[m] == c;
            assert(edges[m] == id);
        } else {
            assert forall|i: int| 0 <= i < edges.len() implies ((#[trigger] (
            first.vectors.between())(u, edges[i])) matches Some(d) && d.rank() <= distance.rank()) by {
                assert(kept[i].rank() <= c.rank());
                lemma_ranked_are_given(scored, limit, i);
                let n = choose|n: int| 0 <= n < scored.len() && scored[n] == kept[i];
                assert(from(scored[n].id) == Some(scored[n].distance));
            }
        }
    }
}

/// A list that is linked back is tidy if it was.
proof fn lemma_linked_is_tidy(first: System, u: NodeId, layer: LayerId)
    requires
        first.tidy(),
        unlinked(first),
        u != new_node(first),
        first.vectors.present().contains(u),
    ensures
        linked(first, u, layer).len() <= first.index.config.limit(layer),
        linked(first, u, layer).no_duplicates(),
        !linked(first, u, layer).contains(u),
{
    let id = new_node(first);
    let before = first.edges(u, layer);
    let all = before.push(id);
    assert(before.no_duplicates() && !before.contains(u) && !before.contains(id));
    assert(all.no_duplicates());
    assert(!all.contains(u)) by {
        if all.contains(u) {
            let i = choose|i: int| 0 <= i < all.len() && all[i] == u;
            if i < before.len() {
                assert(before[i] == u);
            }
        }
    }
    scored_nodes_are_listed(all, distance_from(first, u));
    nearest_are_given(
        scores(all, distance_from(first, u)),
        first.index.config.limit(layer),
    );
}

/// An insertion keeps the lists of neighbours tidy: none grows too long, names a
/// node twice or names its own node.
pub proof fn insertion_keeps_lists_tidy(before: System, replies: nat)
    requires
        before.index.valid(),
        before.vectors.dots.len() == before.index.sampler.num_bits,
        before.vectors.writable(),
        unlinked(with_vector(before)),
        before.tidy(),
        inserting(before).after(replies).op.stage == InsertionStage::Finished,
    ensures
        inserting(before).after(replies).system.tidy(),
{
    let first = with_vector(before);
    every_insertion_is_placing(before, replies);
    new_node_is_linked(before, replies);
    assert forall|u: NodeId, layer: LayerId| #[trigger] first.edges(u, layer) == before.edges(
        u,
        layer,
    ) by {}
    let end = inserting(before).after(replies).system;
    let id = new_node(first);
    assert forall|u: NodeId, layer: LayerId|
        #![trigger end.edges(u, layer)]
        {
            &&& end.edges(u, layer).len() <= end.index.config.limit(layer)
            &&& end.edges(u, layer).no_duplicates()
            &&& !end.edges(u, layer).contains(u)
        } by {
        assert(first.edges(u, layer).no_duplicates());
        if let Some((_, top)) = first.index.upper.entry {
            if layer <= linking_top(first, top) {
                assert(linked_at(end, first, layer));
                let own = end.edges(id, layer);
                if u == id {
                    if own.contains(id) {
                        let i = choose|i: int| 0 <= i < own.len() && own[i] == id;
                        assert(own[i] != new_node(first));
                    }
                } else if own.contains(u) {
                    let i = choose|i: int| 0 <= i < own.len() && own[i] == u;
                    assert(first.vectors.present().contains(own[i]));
                    lemma_linked_is_tidy(first, u, layer);
                }
            }
        }
    }
}

/// The first vector of an index is found: after its insertion into a system
/// without entry point and edges, every query for at least one hit finds it, and
/// it alone.
pub proof fn first_vector_is_found(
    before: System,
    replies: nat,
    query: System,
    k: nat,
    ef: nat,
    steps: nat,
)
    requires
        before.index.valid(),
        before.vectors.dots.len() == before.index.sampler.num_bits,
        before.vectors.writable(),
        before.index.upper.entry is None,
        forall|u: NodeId, layer: LayerId| (#[trigger] before.edges(u, layer)).len() == 0,
        inserting(before).after(replies).op.stage == InsertionStage::Finished,
        query.index == inserting(before).after(replies).system.index,
        query.store == inserting(before).after(replies).system.store,
        query.vectors.image == inserting(before).after(replies).system.vectors.image,
        query.vectors.dimension == before.vectors.dimension,
        query_after(QueryModel::start(query.index, k, ef), query, steps).stage
            == QueryStage::Finished,
        k > 0,
    ensures
        query_after(QueryModel::start(query.index, k, ef), query, steps).results.len() == 1,
        query_after(QueryModel::start(query.index, k, ef), query, steps).results[0].id
            == before.vectors.next(),
{
    let first = with_vector(before);
    let id = before.vectors.next();
    lemma_appended(before);
    assert forall|u: NodeId, layer: LayerId| (#[trigger] first.edges(u, layer)).len() == 0 by {
        assert(before.edges(u, layer).len() == 0);
    }
    new_node_is_linked(before, replies);
    highest_node_is_the_entry(before, replies);
    new_vector_reads_back(before, replies);
    let end = inserting(before).after(replies).system;
    assert forall|u: NodeId, layer: LayerId| (#[trigger] query.edges(u, layer)).len() == 0 by {
        assert(query.edges(u, layer) == end.edges(u, layer));
        assert(first.edges(u, layer).len() == 0);
    }
    let set = set![id];
    assert forall|u: NodeId, v: NodeId, layer: LayerId|
        set.contains(u) && #[trigger] query.edges(u, layer).contains(v) implies set.contains(
        v,
    ) by {
        assert(query.edges(u, layer).len() == 0);
    }
    assert(closed_under_edges(query, set));
    hits_are_reachable(query, k, ef, set, steps);
    assert(query.vectors.vector(id) is Some);
    query_finds_something(query, k, ef, id, new_level(first), steps);
    hits_are_sorted_and_true(query, k, ef, steps);
    let found = query_after(QueryModel::start(query.index, k, ef), query, steps).results;
    assert(set.contains(found[0].id));
    if found.len() > 1 {
        assert(set.contains(found[1].id));
        assert(found[0].id != found[1].id);
    }
}

/// Every layer is searched from where the layer above led. Of a finished insertion there
/// is a finished search of each layer up to the earlier top. The topmost starts from the
/// entry point. A layer above the node's level is searched with width one, and the next
/// layer from exactly the nodes found there, or from where that search started if it
/// found none. A layer of the node is searched with the width of construction; the
/// node's neighbours there are what the rule chooses from the nodes found, at most
/// `m_max` at the bottom layer and `m` above it, and the next layer is searched from
/// exactly these neighbours. Only at the bottom layer there is a filter, by the new
/// node's code. The searches see the lists of before, and the new vector among the
/// others.
#[verifier::rlimit(60)]
pub proof fn every_layer_is_entered_where_the_one_above_led(
    before: System,
    replies: nat,
    entry: NodeId,
    top: LayerId,
) -> (trail: (Seq<Seq<NodeId>>, Seq<SearchModel>))
    requires
        before.index.valid(),
        before.vectors.dots.len() == before.index.sampler.num_bits,
        before.vectors.writable(),
        unlinked(with_vector(before)),
        inserting(before).after(replies).op.stage == InsertionStage::Finished,
        before.index.upper.entry == Some((entry, top)),
    ensures
        ({
            let (starts, searches) = trail;
            let end = inserting(before).after(replies).system;
            let id = before.vectors.next();
            let seen = recorded(with_vector(before));
            let dots = before.vectors.dots;
            let level: int = if before.vectors.drawn < 15 {
                before.vectors.drawn as int
            } else {
                15
            };
            &&& seen.vectors == before.vectors.appended()
            &&& forall|u: NodeId, layer: LayerId| #[trigger]
                seen.edges(u, layer) == before.edges(u, layer)
            &&& starts.len() == top + 1 && searches.len() == top + 1
            &&& starts[top as int] == seq![entry]
            &&& forall|layer: LayerId|
                0 <= layer <= top ==> (#[trigger] searches[layer as int]).want == Want::Nothing
                    && reached(
                    searches[layer as int],
                    seen.picture(layer),
                    layer,
                    if layer > level {
                        1
                    } else {
                        before.index.config.ef_construction as nat
                    },
                    searches[layer as int].filter,
                    starts[layer as int],
                ) && (layer > 0 ==> searches[layer as int].filter is None)
            &&& searches[0].filter is Some
            &&& (searches[0].filter->0).0.len() == dots.len()
            &&& forall|i: int|
                0 <= i < dots.len() ==> (#[trigger] (searches[0].filter->0).0[i] <==> (
                !dots[i].nan() && dots[i].rank() >= 0))
            &&& (searches[0].filter->0).1 == if before.index.config.simhash_share
                > before.index.sampler.num_bits / 2 {
                before.index.config.simhash_share as nat
            } else {
                before.index.sampler.num_bits / 2 + 1
            }
            &&& forall|layer: LayerId|
                1 <= layer <= top && layer > level ==> if (
                #[trigger] searches[layer as int]).results.len() > 0 {
                    &&& starts[layer - 1].len() == searches[layer as int].results.len()
                    &&& forall|i: int|
                        0 <= i < searches[layer as int].results.len() ==> #[trigger] starts[layer
                            - 1][i] == searches[layer as int].results[i].id
                } else {
                    starts[layer - 1] == starts[layer as int]
                }
            &&& forall|layer: LayerId|
                1 <= layer <= top && layer <= level ==> starts[layer - 1] == #[trigger] end.edges(
                    id,
                    layer,
                )
            &&& forall|layer: LayerId|
                0 <= layer <= top && layer <= level ==> #[trigger] end.edges(id, layer) == selected(
                    with_vector(before).surroundings(),
                    searches[layer as int].results,
                    if layer == 0 {
                        before.index.config.m_max as nat
                    } else {
                        before.index.config.m as nat
                    },
                )
        }),
{
    let first = with_vector(before);
    let end = inserting(before).after(replies).system;
    let id = before.vectors.next();
    lemma_appended(before);
    every_insertion_is_placing(before, replies);
    assert(linking(inserting(before).after(replies), first, top));
    let starts = Seq::new(top as nat + 1, |i: int| lead(first, i as LayerId));
    let searches = Seq::new(
        top as nat + 1,
        |i: int| located_at(first, i as LayerId, lead(first, i as LayerId)),
    );
    lemma_way(first, top, starts, searches);
    assert forall|layer: LayerId| layer <= linking_top(first, top) implies #[trigger] end.edges(
        id,
        layer,
    ) == selected(
        first.surroundings(),
        searches[layer as int].results,
        if layer == 0 {
            before.index.config.m_max as nat
        } else {
            before.index.config.m as nat
        },
    ) by {
        assert(linked_at(end, first, layer));
        assert(searches[layer as int] == located_at(first, layer, lead(first, layer)));
    }
    assert forall|layer: LayerId| 1 <= layer <= linking_top(first, top) implies starts[layer - 1]
        == #[trigger] end.edges(id, layer) by {
        let below = (layer - 1) as LayerId;
        assert(starts[layer - 1] == lead(first, below));
        assert(searches[layer as int] == located_at(first, layer, lead(first, layer)));
    }
    assert forall|u: NodeId, layer: LayerId| #[trigger] recorded(first).edges(u, layer)
        == before.edges(u, layer) by {}
    (starts, searches)
}

/// The searches on the way of an insertion.
#[verifier::rlimit(60)]
proof fn lemma_way(
    first: System,
    top: LayerId,
    starts: Seq<Seq<NodeId>>,
    searches: Seq<SearchModel>,
)
    requires
        first.index.upper.entry matches Some((_, t)) && t == top,
        settled_above(first, top, -1),
        starts.len() == top + 1 && searches.len() == top + 1,
        forall|i: int| 0 <= i <= top ==> #[trigger] starts[i] == lead(first, i as LayerId),
        forall|i: int|
            0 <= i <= top ==> #[trigger] searches[i] == located_at(
                first,
                i as LayerId,
                lead(first, i as LayerId),
            ),
    ensures
        starts[top as int] == seq![(first.index.upper.entry->0).0],
        forall|layer: LayerId|
            0 <= layer <= top ==> (#[trigger] searches[layer as int]).want == Want::Nothing
                && searches[layer as int].filter == insertion_filter(first, layer) && reached(
                searches[layer as int],
                recorded(first).picture(layer),
                layer,
                if layer > new_level(first) {
                    1
                } else {
                    first.index.config.ef_construction as nat
                },
                insertion_filter(first, layer),
                starts[layer as int],
            ),
        forall|layer: LayerId|
            1 <= layer <= top && layer > new_level(first) ==> if (
            #[trigger] searches[layer as int]).results.len() > 0 {
                &&& starts[layer - 1].len() == searches[layer as int].results.len()
                &&& forall|i: int|
                    0 <= i < searches[layer as int].results.len() ==> #[trigger] starts[layer
                        - 1][i] == searches[layer as int].results[i].id
            } else {
                starts[layer - 1] == starts[layer as int]
            },
{
    assert forall|layer: LayerId| 0 <= layer <= top implies (
    #[trigger] searches[layer as int]).want == Want::Nothing && searches[layer as int].filter
        == insertion_filter(first, layer) && reached(
        searches[layer as int],
        recorded(first).picture(layer),
        layer,
        if layer > new_level(first) {
            1
        } else {
            first.index.config.ef_construction as nat
        },
        insertion_filter(first, layer),
        starts[layer as int],
    ) by {
        let entries = lead(first, layer);
        assert(starts[layer as int] == entries);
        let search = located_at(first, layer, entries);
        assert(search.want == Want::Nothing);
        let ef = if layer > new_level(first) {
            1
        } else {
            first.index.config.ef_construction as nat
        };
        let filter = insertion_filter(first, layer);
        let picture = recorded(first).picture(layer);
        let n = choose|n: nat|
            (#[trigger] after(SearchModel::start(layer, ef, filter, entries), picture, n)).want
                == Want::Nothing;
        assert(search == after(SearchModel::start(layer, ef, filter, entries), picture, n));
        every_state_is_steady(picture, layer, ef, filter, entries, Set::empty(), n);
    }
    assert forall|layer: LayerId| 1 <= layer <= top && layer > new_level(first) implies if (
    #[trigger] searches[layer as int]).results.len() > 0 {
        &&& starts[layer - 1].len() == searches[layer as int].results.len()
        &&& forall|i: int|
            0 <= i < searches[layer as int].results.len() ==> #[trigger] starts[layer - 1][i]
                == searches[layer as int].results[i].id
    } else {
        starts[layer - 1] == starts[layer as int]
    } by {
        let below = (layer - 1) as LayerId;
        assert(starts[layer - 1] == lead(first, below));
        assert(starts[layer as int] == lead(first, layer));
    }
}

/// How a chosen neighbour takes the new node in. While its list is within the limit,
/// which is `m_max` at the bottom layer and `m` above it, the new node is added at the
/// end and nothing is lost. Else the nearest are kept: as many as the limit allows of
/// those with vectors, nearest first, and none that is left out is nearer than one that
/// is kept.
pub proof fn neighbors_take_the_new_node_in(
    before: System,
    replies: nat,
    entry: NodeId,
    top: LayerId,
    layer: LayerId,
    u: NodeId,
)
    requires
        before.index.valid(),
        before.vectors.dots.len() == before.index.sampler.num_bits,
        before.vectors.writable(),
        unlinked(with_vector(before)),
        inserting(before).after(replies).op.stage == InsertionStage::Finished,
        before.tidy(),
        before.index.upper.entry == Some((entry, top)),
        layer <= top && layer <= before.vectors.drawn && layer <= 15,
        inserting(before).after(replies).system.edges(before.vectors.next(), layer).contains(u),
    ensures
        ({
            let between = before.vectors.appended().between();
            let kept = inserting(before).after(replies).system.edges(u, layer);
            let all = before.edges(u, layer).push(before.vectors.next());
            let scored = Set::new(|v: NodeId| all.contains(v) && between(u, v) is Some);
            let limit = if layer == 0 {
                before.index.config.m_max as nat
            } else {
                before.index.config.m as nat
            };
            &&& all.len() <= limit ==> kept == all
            &&& all.len() > limit ==> {
                &&& scored.finite()
                &&& kept.no_duplicates()
                &&& kept.len() == if scored.len() < limit {
                    scored.len()
                } else {
                    limit
                }
                &&& forall|i: int| 0 <= i < kept.len() ==> scored.contains(#[trigger] kept[i])
                &&& scored.len() <= limit ==> forall|v: NodeId|
                    scored.contains(v) ==> #[trigger] kept.contains(v)
                &&& forall|i: int, j: int|
                    0 <= i <= j < kept.len() ==> (between(u, #[trigger] kept[i])->0).rank() <= (
                    between(u, #[trigger] kept[j])->0).rank()
                &&& forall|v: NodeId, i: int|
                    #![trigger kept[i], between(u, v)]
                    scored.contains(v) && !kept.contains(v) && 0 <= i < kept.len() ==> (between(
                        u,
                        kept[i],
                    )->0).rank() <= (between(u, v)->0).rank()
            }
        }),
{
    let first = with_vector(before);
    let id = before.vectors.next();
    let end = inserting(before).after(replies).system;
    lemma_appended(before);
    new_node_is_linked(before, replies);
    assert(linked_at(end, first, layer));
    let own = end.edges(id, layer);
    let i0 = choose|i: int| 0 <= i < own.len() && own[i] == u;
    assert(own[i0] != id && first.vectors.present().contains(own[i0]));
    assert(end.edges(u, layer) == linked(first, u, layer));
    let all = before.edges(u, layer).push(id);
    assert(first.edges(u, layer) == before.edges(u, layer));
    assert(!first.edges(u, layer).contains(id));
    assert(before.edges(u, layer).no_duplicates());
    assert(all.no_duplicates());
    let from = distance_from(first, u);
    let between = first.vectors.between();
    nearest_scored_are_the_nearest(all, from, first.index.config.limit(layer));
    assert(Set::new(|v: NodeId| all.contains(v) && from(v) is Some) =~= Set::new(
        |v: NodeId| all.contains(v) && between(u, v) is Some,
    ));
    assert forall|v: NodeId| #[trigger] between(u, v) == from(v) by {}
}

/// An insertion touches no other list: neither one of a node that is not chosen, nor any
/// on a layer above the new node's level or the earlier top, the new node's included.
pub proof fn other_lists_stay(
    before: System,
    replies: nat,
    u: NodeId,
    layer: LayerId,
)
    requires
        before.index.valid(),
        before.vectors.dots.len() == before.index.sampler.num_bits,
        before.vectors.writable(),
        unlinked(with_vector(before)),
        inserting(before).after(replies).op.stage == InsertionStage::Finished,
        ({
            ||| u != before.vectors.next() && !inserting(before).after(replies).system.edges(
                before.vectors.next(),
                layer,
            ).contains(u)
            ||| layer > before.vectors.drawn
            ||| layer > 15
            ||| before.index.upper.entry is None
            ||| layer > (before.index.upper.entry->0).1
        }),
    ensures
        inserting(before).after(replies).system.edges(u, layer) == before.edges(u, layer),
{
    let first = with_vector(before);
    lemma_appended(before);
    new_node_is_linked(before, replies);
    let end = inserting(before).after(replies).system;
    assert(first.edges(u, layer) == before.edges(u, layer));
    if let Some((_, top)) = first.index.upper.entry {
        if layer <= linking_top(first, top) {
            assert(linked_at(end, first, layer));
        }
    }
}

/// What is recorded of a new node, in numbers: its level is the number drawn, but at most
/// fifteen; its code has a bit for each product, set where the product is at least
/// zero; it becomes the entry point, in memory and in the store, if there is none or its
/// level is above the entry point's.
pub proof fn new_node_in_numbers(before: System, replies: nat)
    requires
        before.index.valid(),
        before.vectors.dots.len() == before.index.sampler.num_bits,
        before.vectors.writable(),
        unlinked(with_vector(before)),
        inserting(before).after(replies).op.stage == InsertionStage::Finished,
    ensures
        ({
            let end = inserting(before).after(replies).system;
            let id = before.vectors.next();
            let dots = before.vectors.dots;
            let level: int = if before.vectors.drawn < 15 {
                before.vectors.drawn as int
            } else {
                15
            };
            let rises = match before.index.upper.entry {
                Some((_, top)) => level > top,
                None => true,
            };
            &&& inserting(before).after(replies).op.id == id
            &&& id == stored_count(before.vectors.image)
            &&& end.metadata(id) matches Some(m) && m.id == id && m.max_layer == level
            &&& end.store.metadata.remove(id) == before.store.metadata.remove(id)
            &&& end.index.sampler.codes.contains_key(id)
            &&& end.index.sampler.codes.remove(id) == before.index.sampler.codes.remove(id)
            &&& end.index.sampler.codes[id].len() == dots.len()
            &&& forall|i: int|
                0 <= i < dots.len() ==> (#[trigger] end.index.sampler.codes[id][i] <==> (
                !dots[i].nan() && dots[i].rank() >= 0))
            &&& rises ==> {
                &&& end.index.upper.entry matches Some((e, l)) && e == id && l == level
                &&& end.store.entry matches Some((e, l)) && e == id && l == level
            }
            &&& !rises ==> end.index.upper.entry == before.index.upper.entry && end.store.entry
                == before.store.entry
        }),
{
    new_node_is_recorded(before, replies);
    highest_node_is_the_entry(before, replies);
    let end = inserting(before).after(replies).system;
    let id = before.vectors.next();
    assert(end.store.metadata.remove(id) =~= before.store.metadata.remove(id));
    assert(end.index.sampler.codes.remove(id) =~= before.index.sampler.codes.remove(id));
}

/// The neighbours of a new node keep their distance: at each of its layers up to the
/// earlier top they come nearest first, are at most `m_max` at the bottom layer and `m`
/// above it, and none lies nearer to one that comes before it than to the new node.
pub proof fn new_neighbors_keep_their_distance(
    before: System,
    replies: nat,
    entry: NodeId,
    top: LayerId,
    layer: LayerId,
)
    requires
        before.index.valid(),
        before.vectors.dots.len() == before.index.sampler.num_bits,
        before.vectors.writable(),
        unlinked(with_vector(before)),
        inserting(before).after(replies).op.stage == InsertionStage::Finished,
        before.index.upper.entry == Some((entry, top)),
        layer <= top && layer <= before.vectors.drawn && layer <= 15,
    ensures
        ({
            let own = inserting(before).after(replies).system.edges(before.vectors.next(), layer);
            let from_new = before.vectors.appended().from_query();
            let between = before.vectors.appended().between();
            &&& layer == 0 ==> own.len() <= before.index.config.m_max
            &&& layer > 0 ==> own.len() <= before.index.config.m
            &&& forall|i: int| 0 <= i < own.len() ==> from_new(#[trigger] own[i]) is Some
            &&& forall|i: int, j: int|
                0 <= i < j < own.len() ==> {
                    &&& (#[trigger] own[i]) != (#[trigger] own[j])
                    &&& from_new(own[i])->0.rank() <= from_new(own[j])->0.rank()
                    &&& between(own[j], own[i]) matches Some(d) ==> !d.below(from_new(own[j])->0)
                }
        }),
{
    let first = with_vector(before);
    let id = before.vectors.next();
    let end = inserting(before).after(replies).system;
    let own = end.edges(id, layer);
    lemma_appended(before);
    new_node_is_linked(before, replies);
    assert(linked_at(end, first, layer));
    let search = located_at(first, layer, lead(first, layer));
    let found = search.results;
    let ef = if layer > new_level(first) {
        1
    } else {
        first.index.config.ef_construction as nat
    };
    let filter = insertion_filter(first, layer);
    let picture = recorded(first).picture(layer);
    let entries = lead(first, layer);
    let n = choose|n: nat|
        (#[trigger] after(SearchModel::start(layer, ef, filter, entries), picture, n)).want
            == Want::Nothing;
    assert(search == after(SearchModel::start(layer, ef, filter, entries), picture, n));
    finished_search_is_locally_optimal(picture, layer, ef, filter, entries, n);
    let places = lemma_places(first.surroundings(), found, first.index.config.limit(layer));
    let from_new = before.vectors.appended().from_query();
    let between = before.vectors.appended().between();
    assert forall|i: int| 0 <= i < own.len() implies from_new(#[trigger] own[i]) == Some(
        found[places[i]].distance,
    ) by {
        assert(0 <= places[i] < found.len());
        assert((picture.distance)(found[places[i]].id) == Some(found[places[i]].distance));
    }
    assert forall|i: int, j: int| 0 <= i < j < own.len() implies {
        &&& (#[trigger] own[i]) != (#[trigger] own[j])
        &&& from_new(own[i])->0.rank() <= from_new(own[j])->0.rank()
        &&& between(own[j], own[i]) matches Some(d) ==> !d.below(from_new(own[j])->0)
    } by {
        assert(places[i] < places[j]);
        assert(found[places[i]].rank() <= found[places[j]].rank());
        assert(ids(found)[places[i]] != ids(found)[places[j]]);
        assert((first.surroundings().distance)(own[j], own[i]) == between(own[j], own[i]));
    }
}

} // verus!
