//! Deletions and insertions come to an end.

use vstd::prelude::*;

use crate::deletion::{DeletionModel, DeletionStage};
use crate::deletion_laws::{deleting, DeletionRun};
use crate::index::TOP_LEVEL;
use crate::insertion::{InsertionModel, InsertionStage};
use crate::insertion_laws::{
    every_insertion_is_placing,
    inserting,
    insertion_filter,
    lemma_next,
    lemma_recorded,
    lemma_same_picture,
    linking,
    placing,
    recorded,
    unlinked,
    with_vector,
    InsertionRun,
};
use crate::layer_search::{SearchModel, Want};
use crate::query::onward;
use crate::query_laws::{
    lemma_answered,
    lemma_layer_results,
    lemma_reached_next,
    lemma_search_cost,
    reached,
    search_cost,
};
use crate::ranking::ids;
use crate::selection::{
    finished_selection_follows_the_rule,
    resolved,
    resolved_times,
    selected_nodes,
    Doubt,
    SelectionModel,
};
use crate::system::System;
use crate::types::{LayerId, NodeId};

verus! {

/// How far a deletion is from its end, in great steps.
spec fn deletion_phase(op: DeletionModel) -> nat {
    match op.stage {
        DeletionStage::Lookup => 8,
        DeletionStage::Ground => 7,
        DeletionStage::Layer | DeletionStage::Fetch | DeletionStage::Probe | DeletionStage::Score
        | DeletionStage::Relink | DeletionStage::Cut => 6,
        DeletionStage::Count => 5,
        DeletionStage::Sweep | DeletionStage::Unlink => 4,
        DeletionStage::Forget => 3,
        DeletionStage::Scan => 2,
        DeletionStage::Crown | DeletionStage::Abandon => 1,
        DeletionStage::Finished => 0,
    }
}

/// The layers that are left to repair, or the nodes to sweep.
spec fn layers_left(op: DeletionModel) -> int {
    if deletion_phase(op) == 4 {
        op.count - op.node
    } else if deletion_phase(op) == 6 {
        2 * (op.max_layer - op.layer) + if op.stage == DeletionStage::Layer {
            1int
        } else {
            0int
        }
    } else {
        0
    }
}

/// The nodes that are left of the list that is being gone through, or the layers of
/// the node that is being swept.
spec fn nodes_left(op: DeletionModel) -> int {
    if op.stage == DeletionStage::Scan {
        op.ground.len() - op.at
    } else if deletion_phase(op) == 4 {
        TOP_LEVEL - op.layer
    } else if deletion_phase(op) == 6 && op.stage != DeletionStage::Layer && op.at
        < op.neighbors.len() {
        op.neighbors.len() - op.at
    } else {
        0
    }
}

/// The stages that are left for a node.
spec fn stages_left(op: DeletionModel) -> nat {
    match op.stage {
        DeletionStage::Fetch => 4,
        DeletionStage::Probe => 3,
        DeletionStage::Score => 2,
        DeletionStage::Relink => 1,
        DeletionStage::Sweep => 1,
        _ => 0,
    }
}

/// The scores that are left.
spec fn scores_left(op: DeletionModel) -> int {
    if op.stage == DeletionStage::Score && !op.scoring.over() {
        op.scoring.list.len() - op.scoring.at
    } else {
        0
    }
}

proof fn lemma_shift_deletion(run: DeletionRun, replies: nat)
    ensures
        run.next().after(replies) == run.after(replies + 1),
    decreases replies,
{
    if replies > 0 {
        lemma_shift_deletion(run, (replies - 1) as nat);
    } else {
        assert(run.after(0) == run);
        assert(run.after(1) == run.after(0).next());
        assert(run.next().after(0) == run.next());
    }
}

proof fn lemma_deletion_ends(run: DeletionRun) -> (replies: nat)
    requires
        run.op.valid(),
        deletion_phase(run.op) == 6 ==> run.op.layer <= run.op.max_layer,
    ensures
        run.after(replies).op.stage == DeletionStage::Finished,
    decreases
            deletion_phase(run.op),
            layers_left(run.op),
            nodes_left(run.op),
            stages_left(run.op),
            scores_left(run.op),
{
    if run.op.stage == DeletionStage::Finished {
        assert(run.after(0) == run);
        0
    } else {
        let rest = lemma_deletion_ends(run.next());
        lemma_shift_deletion(run, rest);
        rest + 1
    }
}

/// Every deletion ends.
pub proof fn every_deletion_ends(first: System, id: NodeId)
    ensures
        exists|replies: nat|
            (#[trigger] deleting(first, id).after(replies)).op.stage == DeletionStage::Finished,
{
    let replies = lemma_deletion_ends(deleting(first, id));
    assert(deleting(first, id).after(replies).op.stage == DeletionStage::Finished);
}

/// How far an insertion is from its end, in great steps.
spec fn insertion_phase(op: InsertionModel) -> nat {
    match op.stage {
        InsertionStage::Append => 6,
        InsertionStage::Project => 5,
        InsertionStage::Draw => 4,
        InsertionStage::Record => 3,
        InsertionStage::Crown => 1,
        InsertionStage::Finished => 0,
        _ => 2,
    }
}

/// The layers that are left.
spec fn insertion_layer(op: InsertionModel) -> nat {
    if insertion_phase(op) == 2 {
        op.layer as nat
    } else {
        0
    }
}

/// The parts that are left for a layer.
spec fn parts_left(op: InsertionModel) -> nat {
    match op.stage {
        InsertionStage::Locate => 4,
        InsertionStage::Select => 3,
        InsertionStage::Own => 2,
        _ => 1,
    }
}

/// The replies or nodes that are left for a part.
spec fn items_left(op: InsertionModel, set: Set<NodeId>) -> int {
    match op.stage {
        InsertionStage::Descend | InsertionStage::Locate => search_cost(op.search, set) as int,
        InsertionStage::Select => op.selection.candidates.len() - op.selection.at,
        InsertionStage::Fetch | InsertionStage::Probe | InsertionStage::Score
        | InsertionStage::Link => op.chosen.len() - op.at,
        _ => 0,
    }
}

/// The comparisons or stages that are left for an item.
spec fn turns_left(op: InsertionModel) -> int {
    match op.stage {
        InsertionStage::Select => match op.selection.doubt {
            Doubt::Presence(_) => op.selection.chosen.len() as int + 1,
            Doubt::Distance { .. } => op.selection.chosen.len() - op.selection.against,
            Doubt::Nothing => 0,
        },
        InsertionStage::Fetch => 4,
        InsertionStage::Probe => 3,
        InsertionStage::Score => 2,
        InsertionStage::Link => 1,
        _ => 0,
    }
}

/// The scores that are left.
spec fn edges_left(op: InsertionModel) -> int {
    if op.stage == InsertionStage::Score && !op.scoring.over() {
        op.scoring.list.len() - op.scoring.at
    } else {
        0
    }
}

/// All nodes of a list are in a set.
spec fn all_in(list: Seq<NodeId>, set: Set<NodeId>) -> bool {
    forall|i: int| 0 <= i < list.len() ==> set.contains(#[trigger] list[i])
}

/// With a node, the set holds its neighbours on every layer.
pub open spec fn holds_neighbors(first: System, set: Set<NodeId>) -> bool {
    forall|u: NodeId, v: NodeId, layer: LayerId|
        set.contains(u) && #[trigger] first.edges(u, layer).contains(v) ==> set.contains(v)
}

/// The nodes that an insertion works with are in a set.
spec fn inside(op: InsertionModel, set: Set<NodeId>) -> bool {
    match op.stage {
        InsertionStage::Descend | InsertionStage::Locate | InsertionStage::Select => all_in(
            op.entries,
            set,
        ),
        InsertionStage::Own | InsertionStage::Fetch | InsertionStage::Probe
        | InsertionStage::Score | InsertionStage::Link => all_in(op.chosen, set),
        _ => true,
    }
}

proof fn lemma_shift_insertion(run: InsertionRun, replies: nat)
    ensures
        run.next().after(replies) == run.after(replies + 1),
    decreases replies,
{
    if replies > 0 {
        lemma_shift_insertion(run, (replies - 1) as nat);
    } else {
        assert(run.after(0) == run);
        assert(run.after(1) == run.after(0).next());
        assert(run.next().after(0) == run.next());
    }
}

/// A search on the way leads to nodes of the set.
proof fn lemma_found_inside(
    search: SearchModel,
    first: System,
    layer: LayerId,
    ef: nat,
    filter: Option<(Seq<bool>, nat)>,
    entries: Seq<NodeId>,
    set: Set<NodeId>,
)
    requires
        reached(
            search,
            recorded(first).picture(layer),
            layer,
            ef,
            filter,
            entries,
        ),
        search.want == Want::Nothing,
        all_in(entries, set),
        holds_neighbors(first, set),
        forall|u: NodeId, k: LayerId| #[trigger] recorded(first).edges(u, k) == first.edges(u, k),
    ensures
        all_in(ids(search.results), set),
{
    let system = recorded(first);
    assert forall|u: NodeId, v: NodeId|
        set.contains(u) && #[trigger] system.edges(u, layer).contains(v) implies set.contains(
        v,
    ) by {
        assert(first.edges(u, layer).contains(v));
    }
    lemma_layer_results(search, system, layer, ef, filter, entries, set);
    assert forall|i: int| 0 <= i < ids(search.results).len() implies set.contains(
        #[trigger] ids(search.results)[i],
    ) by {
        assert(set.contains(search.results[i].id));
    }
}

/// A step of the search of a layer brings it nearer to its end.
proof fn lemma_searching(
    run: InsertionRun,
    first: System,
    top: LayerId,
    ef: nat,
    filter: Option<(Seq<bool>, nat)>,
    set: Set<NodeId>,
)
    requires
        linking(run, first, top),
        run.op.stage == InsertionStage::Descend || run.op.stage == InsertionStage::Locate,
        reached(
            run.op.search,
            recorded(first).picture(run.op.layer),
            run.op.layer,
            ef,
            filter,
            run.op.entries,
        ),
        run.system.picture(run.op.layer) == recorded(first).picture(run.op.layer),
        inside(run.op, set),
        holds_neighbors(first, set),
        set.finite(),
        forall|u: NodeId, k: LayerId| #[trigger] recorded(first).edges(u, k) == first.edges(u, k),
        run.op.search.want != Want::Nothing,
    ensures
        run.next().op.stage == run.op.stage,
        run.next().op.layer == run.op.layer,
        run.next().op.entries == run.op.entries,
        items_left(run.next().op, set) < items_left(run.op, set),
{
    let op = run.op;
    let now = run.system;
    let system = recorded(first);
    lemma_answered(op.search, now);
    lemma_reached_next(
        op.search,
        system.picture(op.layer),
        op.layer,
        ef,
        filter,
        op.entries,
    );
    assert forall|u: NodeId, v: NodeId|
        set.contains(u) && #[trigger] system.edges(u, op.layer).contains(v) implies set.contains(
        v,
    ) by {
        assert(first.edges(u, op.layer).contains(v));
    }
    lemma_search_cost(op.search, system, op.layer, ef, filter, op.entries, set);
}

/// Every step brings an insertion nearer to its end and keeps it inside the set.
proof fn lemma_insertion_step(run: InsertionRun, first: System, set: Set<NodeId>)
    requires
        placing(run, first),
        inside(run.op, set),
        first.index.valid(),
        first.vectors.dots.len() == first.index.sampler.num_bits,
        unlinked(first),
        first.index.upper.entry matches Some((entry, _)) ==> set.contains(entry),
        holds_neighbors(first, set),
        set.finite(),
        run.op.stage != InsertionStage::Finished,
    ensures
        inside(run.next().op, set),
        ({
            let a = run.op;
            let b = run.next().op;
            decreases_to!(
                insertion_phase(a), insertion_layer(a), parts_left(a), items_left(a, set),
                turns_left(a), edges_left(a) =>
                insertion_phase(b), insertion_layer(b), parts_left(b), items_left(b, set),
                turns_left(b), edges_left(b))
        }),
{
    let op = run.op;
    let now = run.system;
    let next = run.next();
    lemma_recorded(first);
    lemma_next(run, first);
    match op.stage {
        InsertionStage::Descend => {
            let top = op.top;
            if op.search.want != Want::Nothing {
                lemma_searching(run, first, top, 1, None, set);
            } else {
                lemma_answered(op.search, now);
                lemma_found_inside(op.search, first, op.layer, 1, None, op.entries, set);
                assert(next.op.entries == onward(op.entries, op.search.results));
                assert(next.op.layer == op.layer - 1);
            }
        },
        InsertionStage::Locate => {
            let top = op.top;
            let ef = first.index.config.ef_construction as nat;
            let filter = insertion_filter(first, op.layer);
            lemma_same_picture(now, first, op.layer);
            if op.search.want != Want::Nothing {
                lemma_searching(run, first, top, ef, filter, set);
            } else {
                lemma_answered(op.search, now);
            }
        },
        InsertionStage::Select => {
            let around = first.surroundings();
            let limit = first.index.config.limit(op.layer);
            let begun = SelectionModel::start(op.search.results, limit);
            let n = choose|n: nat| op.selection == #[trigger] resolved_times(begun, around, n);
            finished_selection_follows_the_rule(around, op.search.results, limit, n);
            if op.selection.doubt != Doubt::Nothing {
                finished_selection_follows_the_rule(around, op.search.results, limit, n + 1);
                assert(next.op.selection == resolved(op.selection, around));
            } else {
                lemma_found_inside(
                    op.search,
                    first,
                    op.layer,
                    first.index.config.ef_construction as nat,
                    insertion_filter(first, op.layer),
                    op.entries,
                    set,
                );
                selected_nodes(around, op.search.results, limit);
                assert forall|i: int| 0 <= i < next.op.chosen.len() implies set.contains(
                    #[trigger] next.op.chosen[i],
                ) by {
                    assert(ids(op.search.results).contains(next.op.chosen[i]));
                }
            }
        },
        _ => {},
    }
}

proof fn lemma_insertion_ends(run: InsertionRun, first: System, set: Set<NodeId>) -> (replies: nat)
    requires
        placing(run, first),
        inside(run.op, set),
        first.index.valid(),
        first.vectors.dots.len() == first.index.sampler.num_bits,
        unlinked(first),
        first.index.upper.entry matches Some((entry, _)) ==> set.contains(entry),
        holds_neighbors(first, set),
        set.finite(),
    ensures
        run.after(replies).op.stage == InsertionStage::Finished,
    decreases
            insertion_phase(run.op),
            insertion_layer(run.op),
            parts_left(run.op),
            items_left(run.op, set),
            turns_left(run.op),
            edges_left(run.op),
{
    if run.op.stage == InsertionStage::Finished {
        assert(run.after(0) == run);
        0
    } else {
        lemma_insertion_step(run, first, set);
        lemma_next(run, first);
        let rest = lemma_insertion_ends(run.next(), first, set);
        lemma_shift_insertion(run, rest);
        rest + 1
    }
}

/// Every insertion ends, if the nodes that edges lead to from the entry point are
/// in a finite set.
pub proof fn every_insertion_ends(before: System, set: Set<NodeId>)
    requires
        before.index.valid(),
        before.vectors.dots.len() == before.index.sampler.num_bits,
        before.vectors.writable(),
        unlinked(with_vector(before)),
        before.index.upper.entry matches Some((entry, _)) ==> set.contains(entry),
        holds_neighbors(before, set),
        set.finite(),
    ensures
        exists|replies: nat|
            (#[trigger] inserting(before).after(replies)).op.stage == InsertionStage::Finished,
{
    let first = with_vector(before);
    every_insertion_is_placing(before, 0);
    assert(inserting(before).after(0) == inserting(before));
    assert forall|u: NodeId, v: NodeId, layer: LayerId|
        set.contains(u) && #[trigger] first.edges(u, layer).contains(v) implies set.contains(
        v,
    ) by {
        assert(before.edges(u, layer).contains(v));
    }
    let replies = lemma_insertion_ends(inserting(before), first, set);
    assert(inserting(before).after(replies).op.stage == InsertionStage::Finished);
}

} // verus!
