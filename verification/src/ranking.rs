//! Candidates in the order of their distance.
//!
//! A list of candidates in rank order plays both priority queues of a search:
//! its front is the nearest candidate, its back the farthest. A newcomer goes
//! behind every candidate that is not farther than it, so equal distances keep
//! the order in which they came.

use vstd::prelude::*;

use crate::scalar::Scalar;
use crate::types::NodeId;

verus! {

/// A node with its distance from whatever is being searched for.
#[derive(Clone, Copy, Debug, PartialEq, Eq, Structural)]
pub struct Candidate {
    /// The node.
    pub id: NodeId,
    /// Its distance.
    pub distance: Scalar,
}

impl Candidate {
    /// The place of the candidate's distance in the total order.
    pub open spec fn rank(self) -> int {
        self.distance.rank()
    }
}

/// No candidate is farther than one behind it.
pub open spec fn in_order(list: Seq<Candidate>) -> bool {
    forall|i: int, j: int|
        0 <= i <= j < list.len() ==> (#[trigger] list[i]).rank() <= (#[trigger] list[j]).rank()
}

/// Where a newcomer of the given rank goes: behind the last candidate that is
/// not farther.
pub open spec fn slot(list: Seq<Candidate>, rank: int) -> nat
    decreases list.len(),
{
    if list.len() == 0 {
        0
    } else if list.last().rank() <= rank {
        list.len()
    } else {
        slot(list.drop_last(), rank)
    }
}

/// The list with a newcomer at its place.
pub open spec fn placed(list: Seq<Candidate>, newcomer: Candidate) -> Seq<Candidate> {
    list.insert(slot(list, newcomer.rank()) as int, newcomer)
}

/// The candidates in rank order, those of equal distance in their given order.
pub open spec fn ranked(list: Seq<Candidate>) -> Seq<Candidate>
    decreases list.len(),
{
    if list.len() == 0 {
        list
    } else {
        placed(ranked(list.drop_last()), list.last())
    }
}

/// The nodes of the candidates, in order.
pub open spec fn ids(list: Seq<Candidate>) -> Seq<NodeId> {
    list.map_values(|c: Candidate| c.id)
}

/// The first `max` elements, or all of them if there are fewer.
pub open spec fn at_most<T>(list: Seq<T>, max: nat) -> Seq<T> {
    if list.len() <= max {
        list
    } else {
        list.take(max as int)
    }
}

/// The nodes of the `max` nearest candidates, nearest first.
pub open spec fn nearest(list: Seq<Candidate>, max: nat) -> Seq<NodeId> {
    ids(at_most(ranked(list), max))
}

pub proof fn lemma_slot(list: Seq<Candidate>, rank: int)
    ensures
        slot(list, rank) <= list.len(),
        forall|i: int| slot(list, rank) <= i < list.len() ==> (#[trigger] list[i]).rank() > rank,
        slot(list, rank) > 0 ==> list[slot(list, rank) - 1].rank() <= rank,
    decreases list.len(),
{
    if list.len() > 0 && list.last().rank() > rank {
        lemma_slot(list.drop_last(), rank);
        let at = slot(list, rank);
        assert forall|i: int| at <= i < list.len() implies (#[trigger] list[i]).rank() > rank by {
            if i < list.len() - 1 {
                assert(list.drop_last()[i] == list[i]);
            }
        }
        if at > 0 {
            assert(list.drop_last()[at - 1] == list[at - 1]);
        }
    }
}

/// Placing keeps a list in order, and adds the newcomer to what it held.
pub proof fn placing_keeps_order(list: Seq<Candidate>, newcomer: Candidate)
    requires
        in_order(list),
    ensures
        in_order(placed(list, newcomer)),
        placed(list, newcomer).to_multiset() == list.to_multiset().insert(newcomer),
{
    let rank = newcomer.rank();
    lemma_slot(list, rank);
    let at = slot(list, rank) as int;
    let after = placed(list, newcomer);
    assert forall|i: int, j: int| 0 <= i <= j < after.len() implies (#[trigger] after[i]).rank()
        <= (#[trigger] after[j]).rank() by {
        let before = |x: int| if x < at { x } else { x - 1 };
        if i != at {
            assert(after[i] == list[before(i)]);
        }
        if j != at {
            assert(after[j] == list[before(j)]);
        }
        if i == at && j > at {
            assert(list[j - 1].rank() > rank);
        } else if j == at && i < at {
            assert(list[i].rank() <= list[at - 1].rank());
        }
    }
    list.to_multiset_ensures();
    vstd::seq_lib::to_multiset_insert(list, at, newcomer);
}

/// Ranking arranges the given candidates, loses none and adds none, and leaves
/// candidates of equal distance in their given order.
pub proof fn ranking_is_a_stable_sort(list: Seq<Candidate>, rank: int)
    ensures
        in_order(ranked(list)),
        ranked(list).to_multiset() == list.to_multiset(),
        ranked(list).len() == list.len(),
        ranked(list).filter(|c: Candidate| c.rank() == rank) == list.filter(
            |c: Candidate| c.rank() == rank,
        ),
    decreases list.len(),
{
    let same = |c: Candidate| c.rank() == rank;
    list.to_multiset_ensures();
    if list.len() > 0 {
        let rest = list.drop_last();
        let c = list.last();
        let before = ranked(rest);
        ranking_is_a_stable_sort(rest, rank);
        placing_keeps_order(before, c);
        assert(list =~= rest.push(c));
        rest.to_multiset_ensures();
        lemma_slot(before, c.rank());
        let at = slot(before, c.rank()) as int;
        let head = before.take(at);
        let tail = before.skip(at);
        assert(before =~= head + tail);
        assert(ranked(list) =~= (head + seq![c]) + tail);
        Seq::filter_distributes_over_add(head, tail, same);
        Seq::filter_distributes_over_add(head + seq![c], tail, same);
        Seq::filter_distributes_over_add(head, seq![c], same);
        Seq::filter_distributes_over_add(rest, seq![c], same);
        assert(list =~= rest + seq![c]);
        reveal(Seq::filter);
        assert(seq![c].drop_last() =~= Seq::<Candidate>::empty());
        if c.rank() == rank {
            lemma_nothing_kept(tail, same);
            assert(seq![c].filter(same) =~= seq![c]);
        } else {
            assert(seq![c].filter(same) =~= Seq::<Candidate>::empty());
        }
    }
}

/// The nearest nodes are at most `max`, all of them are given, none comes twice
/// unless it is given twice, and if there is room all are among them.
pub proof fn nearest_are_given(list: Seq<Candidate>, max: nat)
    ensures
        nearest(list, max).len() <= max,
        forall|id: NodeId| #[trigger] nearest(list, max).contains(id) ==> ids(list).contains(id),
        list.len() <= max ==> forall|id: NodeId|
            ids(list).contains(id) ==> #[trigger] nearest(list, max).contains(id),
        ids(list).no_duplicates() ==> nearest(list, max).no_duplicates(),
{
    let all = ranked(list);
    let cut = at_most(all, max);
    ranking_is_a_stable_sort(list, 0);
    list.to_multiset_ensures();
    all.to_multiset_ensures();
    assert forall|c: Candidate| all.contains(c) <==> #[trigger] list.contains(c) by {
        assert(all.to_multiset().count(c) == list.to_multiset().count(c));
    }
    assert forall|id: NodeId| #[trigger] nearest(list, max).contains(id) implies ids(
        list,
    ).contains(id) by {
        let i = choose|i: int| 0 <= i < cut.len() && ids(cut)[i] == id;
        assert(all[i] == cut[i]);
        assert(all.contains(cut[i]));
        assert(list.contains(cut[i]));
        let j = choose|j: int| 0 <= j < list.len() && list[j] == cut[i];
        assert(ids(list)[j] == id);
    }
    if list.len() <= max {
        assert forall|id: NodeId| ids(list).contains(id) implies #[trigger] nearest(
            list,
            max,
        ).contains(id) by {
            let j = choose|j: int| 0 <= j < list.len() && ids(list)[j] == id;
            assert(list.contains(list[j]));
            let i = choose|i: int| 0 <= i < all.len() && all[i] == list[j];
            assert(ids(cut)[i] == id);
        }
    }
    if ids(list).no_duplicates() {
        lemma_ranked_distinct(list);
        assert forall|i: int, j: int| 0 <= i < cut.len() && 0 <= j < cut.len() && i
            != j implies ids(cut)[i] != ids(cut)[j] by {
            assert(ids(all)[i] != ids(all)[j]);
            assert(cut[i] == all[i] && cut[j] == all[j]);
        }
    }
}

/// Cutting an ordered list keeps each of its candidates, or keeps only ones
/// that are not farther.
pub proof fn lemma_kept_or_beaten(list: Seq<Candidate>, max: nat, c: Candidate)
    requires
        in_order(list),
        list.contains(c),
    ensures
        at_most(list, max).contains(c) || (at_most(list, max).len() == max && forall|k: int|
            0 <= k < max ==> (#[trigger] at_most(list, max)[k]).rank() <= c.rank()),
{
    let i = choose|i: int| 0 <= i < list.len() && list[i] == c;
    let cut = at_most(list, max);
    if i < cut.len() {
        assert(cut[i] == c);
    } else {
        assert forall|k: int| 0 <= k < max implies (#[trigger] cut[k]).rank() <= c.rank() by {
            assert(cut[k] == list[k]);
        }
    }
}

/// Pruning keeps the nearest: each candidate is kept, or `max` candidates are and
/// none of them is farther.
pub proof fn pruning_keeps_the_nearest(list: Seq<Candidate>, max: nat, c: Candidate)
    requires
        list.contains(c),
    ensures
        ({
            let kept = at_most(ranked(list), max);
            &&& nearest(list, max) == ids(kept)
            &&& kept.contains(c) || (kept.len() == max && forall|k: int|
                0 <= k < max ==> (#[trigger] kept[k]).rank() <= c.rank())
        }),
{
    ranking_is_a_stable_sort(list, 0);
    list.to_multiset_ensures();
    ranked(list).to_multiset_ensures();
    assert(ranked(list).to_multiset().count(c) == list.to_multiset().count(c));
    lemma_kept_or_beaten(ranked(list), max, c);
}

pub proof fn lemma_ranked_are_given(list: Seq<Candidate>, max: nat, i: int)
    requires
        0 <= i < at_most(ranked(list), max).len(),
    ensures
        list.contains(at_most(ranked(list), max)[i]),
{
    let c = ranked(list)[i];
    ranking_is_a_stable_sort(list, 0);
    list.to_multiset_ensures();
    ranked(list).to_multiset_ensures();
    assert(ranked(list).contains(c));
    assert(ranked(list).to_multiset().count(c) == list.to_multiset().count(c));
}

proof fn lemma_ranked_distinct(list: Seq<Candidate>)
    requires
        ids(list).no_duplicates(),
    ensures
        ids(ranked(list)).no_duplicates(),
        forall|id: NodeId| #[trigger] ids(ranked(list)).contains(id) ==> ids(list).contains(id),
    decreases list.len(),
{
    if list.len() > 0 {
        let rest = list.drop_last();
        let c = list.last();
        assert forall|i: int, j: int| 0 <= i < rest.len() && 0 <= j < rest.len() && i
            != j implies ids(rest)[i] != ids(rest)[j] by {
            assert(ids(list)[i] != ids(list)[j]);
        }
        lemma_ranked_distinct(rest);
        let before = ranked(rest);
        lemma_slot(before, c.rank());
        let at = slot(before, c.rank()) as int;
        let now = ranked(list);
        assert(ids(now) =~= ids(before).insert(at, c.id));
        assert(!ids(before).contains(c.id)) by {
            if ids(before).contains(c.id) {
                let k = choose|k: int| 0 <= k < ids(rest).len() && ids(rest)[k] == c.id;
                assert(ids(list)[k] == ids(list)[list.len() - 1]);
            }
        }
        assert forall|i: int, j: int| 0 <= i < now.len() && 0 <= j < now.len() && i
            != j implies ids(now)[i] != ids(now)[j] by {
            let a = if i < at { i } else { i - 1 };
            let b = if j < at { j } else { j - 1 };
            if i != at {
                assert(ids(now)[i] == ids(before)[a]);
                assert(ids(before).contains(ids(before)[a]));
            }
            if j != at {
                assert(ids(now)[j] == ids(before)[b]);
                assert(ids(before).contains(ids(before)[b]));
            }
        }
        assert forall|id: NodeId| #[trigger] ids(now).contains(id) implies ids(list).contains(
            id,
        ) by {
            let i = choose|i: int| 0 <= i < now.len() && ids(now)[i] == id;
            if i == at {
                assert(ids(list)[list.len() - 1] == id);
            } else {
                let a = if i < at { i } else { i - 1 };
                assert(ids(before)[a] == id);
                assert(ids(before).contains(id));
                let k = choose|k: int| 0 <= k < ids(rest).len() && ids(rest)[k] == id;
                assert(ids(list)[k] == id);
            }
        }
    }
}

proof fn lemma_nothing_kept(list: Seq<Candidate>, keep: spec_fn(Candidate) -> bool)
    requires
        forall|i: int| 0 <= i < list.len() ==> !keep(#[trigger] list[i]),
    ensures
        list.filter(keep) == Seq::<Candidate>::empty(),
    decreases list.len(),
{
    reveal(Seq::filter);
    if list.len() > 0 {
        lemma_nothing_kept(list.drop_last(), keep);
    }
}

/// Puts a newcomer at its place in a list.
pub fn place(list: &mut Vec<Candidate>, newcomer: Candidate)
    ensures
        final(list)@ == placed(old(list)@, newcomer),
{
    let key = newcomer.distance.order_key();
    let mut at: usize = list.len();
    assert(list@.take(at as int) =~= list@);
    while at > 0 && list[at - 1].distance.order_key() > key
        invariant
            list@ == old(list)@,
            at <= list@.len(),
            key == newcomer.rank(),
            slot(list@.take(at as int), newcomer.rank()) == slot(list@, newcomer.rank()),
        decreases at,
    {
        assert(list@.take(at as int).drop_last() =~= list@.take(at - 1));
        at = at - 1;
    }
    list.insert(at, newcomer);
}

/// The candidates in rank order; equal distances keep their given order.
pub fn rank_all(list: &[Candidate]) -> (arranged: Vec<Candidate>)
    ensures
        arranged@ == ranked(list@),
{
    let mut arranged: Vec<Candidate> = Vec::new();
    let mut at: usize = 0;
    while at < list.len()
        invariant
            at <= list@.len(),
            arranged@ == ranked(list@.take(at as int)),
        decreases list@.len() - at,
    {
        place(&mut arranged, list[at]);
        assert(list@.take(at + 1).drop_last() =~= list@.take(at as int));
        at = at + 1;
    }
    assert(list@.take(at as int) =~= list@);
    arranged
}

/// The nodes of the first `max` candidates of a list, in order.
pub fn leading_ids(list: &[Candidate], max: usize) -> (nodes: Vec<NodeId>)
    ensures
        nodes@ == ids(at_most(list@, max as nat)),
{
    let mut nodes: Vec<NodeId> = Vec::new();
    let mut at: usize = 0;
    while at < list.len() && at < max
        invariant
            at <= list@.len(),
            at <= max,
            nodes@ == ids(list@.take(at as int)),
        decreases list@.len() - at,
    {
        nodes.push(list[at].id);
        at = at + 1;
        assert(nodes@ =~= ids(list@.take(at as int)));
    }
    assert(list@.take(at as int) =~= at_most(list@, max as nat));
    nodes
}

/// The nodes of the `max` nearest candidates, nearest first.
pub fn nearest_ids(list: &[Candidate], max: usize) -> (nodes: Vec<NodeId>)
    ensures
        nodes@ == nearest(list@, max as nat),
{
    let arranged = rank_all(list);
    leading_ids(arranged.as_slice(), max)
}

} // verus!
