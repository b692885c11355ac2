//! Lists of nodes.

use std::collections::HashSet;

use vstd::prelude::*;

use crate::types::NodeId;

verus! {

broadcast use vstd::std_specs::hash::group_hash_axioms;

/// The nodes of a list that are not in `visited`, each where it first occurs.
pub open spec fn fresh(list: Seq<NodeId>, visited: Set<NodeId>) -> Seq<NodeId>
    decreases list.len(),
{
    if list.len() == 0 {
        list
    } else {
        let before = fresh(list.drop_last(), visited);
        if visited.contains(list.last()) || before.contains(list.last()) {
            before
        } else {
            before.push(list.last())
        }
    }
}

/// A list without a node, wherever it occurs.
pub open spec fn dropped(list: Seq<NodeId>, id: NodeId) -> Seq<NodeId> {
    list.filter(|v: NodeId| v != id)
}

/// Dropping a node leaves the others, in their order.
pub proof fn lemma_dropped(list: Seq<NodeId>, id: NodeId)
    ensures
        forall|v: NodeId| #[trigger]
            dropped(list, id).contains(v) <==> list.contains(v) && v != id,
        dropped(list, id).len() <= list.len(),
        !list.contains(id) ==> dropped(list, id) == list,
        list.no_duplicates() ==> dropped(list, id).no_duplicates(),
    decreases list.len(),
{
    let keep = |v: NodeId| v != id;
    reveal(Seq::filter);
    if list.len() > 0 {
        let rest = list.drop_last();
        let last = list.last();
        lemma_dropped(rest, id);
        let before = dropped(rest, id);
        let now = dropped(list, id);
        assert(list =~= rest.push(last));
        assert(now == if keep(last) {
            before.push(last)
        } else {
            before
        });
        assert forall|v: NodeId| #[trigger] now.contains(v) <==> list.contains(v) && v != id by {
            assert(list[list.len() - 1] == last);
            if rest.contains(v) {
                let i = choose|i: int| 0 <= i < rest.len() && rest[i] == v;
                assert(list[i] == v);
            }
            if list.contains(v) && v != last {
                let i = choose|i: int| 0 <= i < list.len() && list[i] == v;
                assert(rest[i] == v);
            }
            if before.contains(v) {
                let i = choose|i: int| 0 <= i < before.len() && before[i] == v;
                assert(now[i] == v);
            }
            if keep(last) {
                assert(now[before.len() as int] == last);
                if now.contains(v) && v != last {
                    let i = choose|i: int| 0 <= i < now.len() && now[i] == v;
                    assert(before[i] == v);
                }
            }
        }
        if !list.contains(id) {
            assert(!rest.contains(id)) by {
                if rest.contains(id) {
                    let i = choose|i: int| 0 <= i < rest.len() && rest[i] == id;
                    assert(list[i] == id);
                }
            }
            assert(list[list.len() - 1] == last);
        }
        if list.no_duplicates() {
            assert(!rest.contains(last)) by {
                if rest.contains(last) {
                    let i = choose|i: int| 0 <= i < rest.len() && rest[i] == last;
                    assert(list[i] == list[list.len() - 1]);
                }
            }
            assert(!before.contains(last));
        }
    } else {
        assert(dropped(list, id) =~= list);
    }
}

/// A list without a node, and whether the node was in it.
pub fn drop_node(list: &[NodeId], id: NodeId) -> (rest: (Vec<NodeId>, bool))
    ensures
        rest.0@ == dropped(list@, id),
        rest.1 == list@.contains(id),
{
    let mut kept: Vec<NodeId> = Vec::new();
    let mut met = false;
    let mut at: usize = 0;
    proof {
        reveal(Seq::filter);
    }
    while at < list.len()
        invariant
            at <= list@.len(),
            kept@ == dropped(list@.take(at as int), id),
            met == exists|i: int| 0 <= i < at && list@[i] == id,
        decreases list@.len() - at,
    {
        let node: NodeId = list[at];
        proof {
            reveal(Seq::filter);
            assert(list@.take(at + 1).drop_last() =~= list@.take(at as int));
        }
        if node == id {
            met = true;
            assert(list@[at as int] == id);
        } else {
            kept.push(node);
        }
        at = at + 1;
    }
    assert(list@.take(at as int) =~= list@);
    (kept, met)
}

/// A copy of a list of nodes.
pub(crate) fn copied(list: &Vec<NodeId>) -> (copy: Vec<NodeId>)
    ensures
        copy@ == list@,
{
    let copy = list.clone();
    assert(copy@ =~= list@);
    copy
}

/// The nodes of a list that have not been seen, each once. From now on all nodes
/// of the list have been seen.
pub fn take_fresh(list: &[NodeId], seen: &mut HashSet<NodeId>) -> (new: Vec<NodeId>)
    ensures
        new@ == fresh(list@, old(seen)@),
        final(seen)@ == old(seen)@.union(list@.to_set()),
{
    let mut new: Vec<NodeId> = Vec::new();
    let mut at: usize = 0;
    assert(seen@.union(list@.take(0).to_set()) =~= seen@);
    while at < list.len()
        invariant
            at <= list@.len(),
            new@ == fresh(list@.take(at as int), old(seen)@),
            seen@ == old(seen)@.union(list@.take(at as int).to_set()),
        decreases list@.len() - at,
    {
        let id: NodeId = list[at];
        let ghost before = list@.take(at as int);
        proof {
            lemma_fresh(before, old(seen)@);
            assert(list@.take(at + 1).drop_last() =~= before);
            assert(list@.take(at + 1) =~= before.push(id));
            lemma_push_to_set(before, id);
        }
        if seen.insert(id) {
            new.push(id);
        }
        at = at + 1;
        assert(seen@ =~= old(seen)@.union(list@.take(at as int).to_set()));
    }
    assert(list@.take(at as int) =~= list@);
    new
}

proof fn lemma_push_to_set(list: Seq<NodeId>, id: NodeId)
    ensures
        list.push(id).to_set() == list.to_set().insert(id),
{
    assert forall|x: NodeId| #[trigger] list.push(id).to_set().contains(x) <==> list.to_set().insert(
        id,
    ).contains(x) by {
        if list.contains(x) {
            let i = choose|i: int| 0 <= i < list.len() && list[i] == x;
            assert(list.push(id)[i] == x);
        }
        if x == id {
            assert(list.push(id)[list.len() as int] == x);
        }
    }
    assert(list.push(id).to_set() =~= list.to_set().insert(id));
}

/// The fresh nodes of a list are those of the list that are not visited, each
/// once.
pub proof fn lemma_fresh(list: Seq<NodeId>, visited: Set<NodeId>)
    ensures
        forall|id: NodeId|
            #[trigger] fresh(list, visited).contains(id) <==> list.contains(id)
                && !visited.contains(id),
        fresh(list, visited).no_duplicates(),
    decreases list.len(),
{
    if list.len() > 0 {
        let rest = list.drop_last();
        lemma_fresh(rest, visited);
        let before = fresh(rest, visited);
        let now = fresh(list, visited);
        let last = list.last();
        assert forall|id: NodeId| #[trigger] now.contains(id) <==> list.contains(id)
            && !visited.contains(id) by {
            if rest.contains(id) {
                let i = choose|i: int| 0 <= i < rest.len() && rest[i] == id;
                assert(list[i] == id);
            }
            if list.contains(id) && id != last {
                let i = choose|i: int| 0 <= i < list.len() && list[i] == id;
                assert(rest[i] == id);
            }
            assert(list[list.len() - 1] == last);
            if before.contains(id) && now != before {
                let i = choose|i: int| 0 <= i < before.len() && before[i] == id;
                assert(now[i] == id);
            }
            if now != before {
                assert(now[before.len() as int] == last);
                if now.contains(id) && id != last {
                    let i = choose|i: int| 0 <= i < now.len() && now[i] == id;
                    assert(before[i] == id);
                }
            }
        }
    }
}

/// Dropping a node is keeping all others, each as often as it occurs, in their order.
pub proof fn dropping_keeps_all_others(
    list: Seq<NodeId>,
    id: NodeId,
    keep: spec_fn(NodeId) -> bool,
)
    requires
        forall|v: NodeId| #[trigger] keep(v) <==> v != id,
    ensures
        dropped(list, id) == list.filter(keep),
    decreases list.len(),
{
    reveal(Seq::filter);
    if list.len() > 0 {
        dropping_keeps_all_others(list.drop_last(), id, keep);
        assert(keep(list.last()) <==> list.last() != id);
    }
}

/// Fresh nodes come in the order of the list: what is fresh of two lists in a row is what is
/// fresh of the one, then what is fresh of the other after the one has been visited.
pub proof fn fresh_keeps_the_order(a: Seq<NodeId>, b: Seq<NodeId>, visited: Set<NodeId>)
    ensures
        fresh(a + b, visited) == fresh(a, visited) + fresh(b, visited.union(a.to_set())),
    decreases b.len(),
{
    if b.len() == 0 {
        assert(a + b =~= a);
        assert(fresh(a, visited) + fresh(b, visited.union(a.to_set())) =~= fresh(a, visited));
    } else {
        let rest = b.drop_last();
        let last = b.last();
        let seen = visited.union(a.to_set());
        fresh_keeps_the_order(a, rest, visited);
        assert((a + b).drop_last() =~= a + rest);
        assert((a + b).last() == last);
        lemma_fresh(a, visited);
        let x = fresh(a, visited);
        let y = fresh(rest, seen);
        assert((x + y).contains(last) <==> x.contains(last) || y.contains(last)) by {
            if x.contains(last) {
                let i = choose|i: int| 0 <= i < x.len() && x[i] == last;
                assert((x + y)[i] == last);
            }
            if y.contains(last) {
                let i = choose|i: int| 0 <= i < y.len() && y[i] == last;
                assert((x + y)[x.len() + i] == last);
            }
            if (x + y).contains(last) {
                let i = choose|i: int| 0 <= i < (x + y).len() && (x + y)[i] == last;
                if i < x.len() {
                    assert(x[i] == last);
                } else {
                    assert(y[i - x.len()] == last);
                }
            }
        }
        assert(seen.contains(last) <==> visited.contains(last) || a.contains(last));
        assert(x + y.push(last) =~= (x + y).push(last));
    }
}

} // verus!
