//! What a layer search finds.
//!
//! The laws speak of a search whose every want is answered from one fixed
//! picture of the layer: the distances of the nodes, their neighbours and their
//! codes.

use vstd::prelude::*;

use crate::distinct::{fresh, lemma_fresh};
use crate::hash_code::collisions;
use crate::layer_search::{SearchModel, Want};
use crate::ranking::{
    at_most,
    ids,
    in_order,
    lemma_kept_or_beaten,
    lemma_slot,
    placed,
    placing_keeps_order,
    slot,
    Candidate,
};
use crate::scalar::Scalar;
use crate::simhash::passes;
use crate::types::{LayerId, NodeId};

verus! {

/// One layer as a search sees it.
pub struct LayerPicture {
    /// The distance of each node from the query; none for a node without a
    /// vector.
    pub distance: spec_fn(NodeId) -> Option<Scalar>,
    /// The neighbours of each node.
    pub neighbors: spec_fn(NodeId) -> Seq<NodeId>,
    /// The codes of the nodes.
    pub codes: Map<NodeId, Seq<bool>>,
}

impl LayerPicture {
    /// No distance is a NaN.
    pub open spec fn comparable(self) -> bool {
        forall|id: NodeId|
            (#[trigger] (self.distance)(id)) matches Some(d) ==> !d.nan()
    }
}

/// The search after its want has been answered from the picture.
pub open spec fn answered(search: SearchModel, picture: LayerPicture) -> SearchModel {
    match search.want {
        Want::Distance(id) => search.measured((picture.distance)(id)),
        Want::Neighbors(id) => search.expanded(picture.codes, (picture.neighbors)(id)),
        Want::Nothing => search,
    }
}

/// The search after `replies` of its wants have been answered.
pub open spec fn after(search: SearchModel, picture: LayerPicture, replies: nat) -> SearchModel
    decreases replies,
{
    if replies == 0 {
        search
    } else {
        answered(after(search, picture, (replies - 1) as nat), picture)
    }
}

/// The neighbours of a node that the search follows.
pub open spec fn links(search: SearchModel, picture: LayerPicture, id: NodeId) -> Seq<NodeId> {
    search.followed(picture.codes, (picture.neighbors)(id))
}

/// A candidate is a node that has been met and measured.
pub open spec fn settled_node(search: SearchModel, picture: LayerPicture, c: Candidate) -> bool {
    &&& search.visited.contains(c.id)
    &&& !search.pending.contains(c.id)
    &&& (picture.distance)(c.id) == Some(c.distance)
}

/// A node is among the results, or there are `ef` results that are not farther.
pub open spec fn beaten(search: SearchModel, id: NodeId, distance: Scalar) -> bool {
    ||| search.results.contains(Candidate { id, distance })
    ||| {
        &&& search.results.len() >= search.ef
        &&& forall|i: int|
            0 <= i < search.ef ==> (#[trigger] search.results[i]).rank() <= distance.rank()
    }
}

/// Nothing has been turned away for a NaN: there is none, or there has been room
/// for every distance.
pub open spec fn decided(search: SearchModel, picture: LayerPicture) -> bool {
    picture.comparable() || search.results.len() < search.ef
}

/// All neighbours of a result that the search follows have been met, unless the
/// result still waits for its turn.
pub open spec fn pursued(search: SearchModel, picture: LayerPicture, c: Candidate) -> bool {
    ||| search.frontier.contains(c)
    ||| search.want == Want::Neighbors(c.id)
    ||| forall|v: NodeId|
        #[trigger] links(search, picture, c.id).contains(v) ==> search.visited.contains(v)
}

/// What holds of a search at every moment, apart from its want.
pub open spec fn steady(search: SearchModel, picture: LayerPicture) -> bool {
    &&& in_order(search.results)
    &&& in_order(search.frontier)
    &&& ids(search.results).no_duplicates()
    &&& search.pending.no_duplicates()
    &&& forall|v: NodeId| #[trigger] search.pending.contains(v) ==> search.visited.contains(v)
    &&& forall|i: int|
        0 <= i < search.results.len() ==> settled_node(
            search,
            picture,
            #[trigger] search.results[i],
        )
    &&& forall|i: int|
        0 <= i < search.frontier.len() ==> settled_node(
            search,
            picture,
            #[trigger] search.frontier[i],
        )
    &&& forall|v: NodeId|
        #![trigger search.visited.contains(v)]
        search.visited.contains(v) && !search.pending.contains(v) ==> match (picture.distance)(v) {
            Some(d) => {
                &&& decided(search, picture) ==> beaten(search, v, d)
                &&& search.results.len() > 0 || search.ef == 0
            },
            None => true,
        }
    &&& forall|i: int|
        0 <= i < search.results.len() ==> pursued(search, picture, #[trigger] search.results[i])
    &&& search.want matches Want::Neighbors(id) ==> (picture.distance)(id) is Some
}

/// The want of a search fits its state.
pub open spec fn wanting(search: SearchModel) -> bool {
    match search.want {
        Want::Distance(id) => search.pending.len() > 0 && search.pending[0] == id,
        Want::Neighbors(id) => search.pending.len() == 0 && search.visited.contains(id),
        Want::Nothing => {
            &&& search.pending.len() == 0
            &&& search.results.len() <= search.ef
            &&& search.ef == 0 || search.exhausted()
        },
    }
}

/// All nodes met lie within a set.
pub open spec fn within(search: SearchModel, set: Set<NodeId>) -> bool {
    forall|v: NodeId| #[trigger] search.visited.contains(v) ==> set.contains(v)
}

proof fn lemma_placed_is_nearer(list: Seq<Candidate>, c: Candidate, i: int)
    requires
        in_order(list),
        0 <= i < list.len(),
    ensures
        placed(list, c)[i].rank() <= list[i].rank(),
{
    lemma_slot(list, c.rank());
}

proof fn lemma_placed_contains(list: Seq<Candidate>, c: Candidate)
    ensures
        placed(list, c).len() == list.len() + 1,
        forall|x: Candidate|
            #[trigger] placed(list, c).contains(x) <==> x == c || list.contains(x),
{
    lemma_slot(list, c.rank());
    let at = slot(list, c.rank()) as int;
    let now = placed(list, c);
    assert(now[at] == c);
    assert forall|x: Candidate| #[trigger] now.contains(x) <==> x == c || list.contains(x) by {
        if list.contains(x) {
            let i = choose|i: int| 0 <= i < list.len() && list[i] == x;
            if i < at {
                assert(now[i] == x);
            } else {
                assert(now[i + 1] == x);
            }
        }
        if now.contains(x) && x != c {
            let i = choose|i: int| 0 <= i < now.len() && now[i] == x;
            if i < at {
                assert(list[i] == x);
            } else {
                assert(list[i - 1] == x);
            }
        }
    }
}

proof fn lemma_placed_distinct(list: Seq<Candidate>, c: Candidate)
    requires
        ids(list).no_duplicates(),
        forall|i: int| 0 <= i < list.len() ==> (#[trigger] list[i]).id != c.id,
    ensures
        ids(placed(list, c)).no_duplicates(),
{
    lemma_slot(list, c.rank());
    let at = slot(list, c.rank()) as int;
    let now = placed(list, c);
    assert forall|i: int, j: int| 0 <= i < now.len() && 0 <= j < now.len() && i != j implies ids(
        now,
    )[i] != ids(now)[j] by {
        let a = if i < at { i } else { i - 1 };
        let b = if j < at { j } else { j - 1 };
        if i != at {
            assert(now[i] == list[a]);
            assert(ids(list)[a] == list[a].id);
        }
        if j != at {
            assert(now[j] == list[b]);
            assert(ids(list)[b] == list[b].id);
        }
    }
}

/// Choosing the next want disturbs nothing.
proof fn lemma_settled(search: SearchModel, picture: LayerPicture)
    requires
        steady(SearchModel { want: Want::Nothing, ..search }, picture),
    ensures
        steady(search.settled(), picture),
        wanting(search.settled()),
        search.settled().visited == search.visited,
{
    let before = SearchModel { want: Want::Nothing, ..search };
    let now = search.settled();
    assert forall|i: int| 0 <= i < now.results.len() implies #[trigger] now.results[i]
        == before.results[i] by {}
    assert(in_order(now.results)) by {
        assert forall|i: int, j: int| 0 <= i <= j < now.results.len() implies (
        #[trigger] now.results[i]).rank() <= (#[trigger] now.results[j]).rank() by {
            assert(before.results[i].rank() <= before.results[j].rank());
        }
    }
    assert(ids(now.results).no_duplicates()) by {
        assert forall|i: int, j: int|
            0 <= i < now.results.len() && 0 <= j < now.results.len() && i != j implies ids(
            now.results,
        )[i] != ids(now.results)[j] by {
            assert(ids(before.results)[i] != ids(before.results)[j]);
        }
    }
    assert forall|i: int| 0 <= i < now.results.len() implies pursued(
        now,
        picture,
        #[trigger] now.results[i],
    ) by {
        let c = now.results[i];
        assert(pursued(before, picture, before.results[i]));
        if before.frontier.contains(c) && now.want is Neighbors {
            let j = choose|j: int| 0 <= j < before.frontier.len() && before.frontier[j] == c;
            if j > 0 {
                assert(now.frontier[j - 1] == c);
            }
        }
        assert(links(before, picture, c.id) == links(now, picture, c.id));
    }
    assert forall|v: NodeId|
        #![trigger now.visited.contains(v)]
        now.visited.contains(v) && !now.pending.contains(v) implies match (picture.distance)(v) {
        Some(d) => {
            &&& decided(now, picture) ==> beaten(now, v, d)
            &&& now.results.len() > 0 || now.ef == 0
        },
        None => true,
    } by {
        assert(before.visited.contains(v) && !before.pending.contains(v));
        if let Some(d) = (picture.distance)(v) {
            let c = Candidate { id: v, distance: d };
            if before.results.contains(c) && now.want is Nothing {
                lemma_kept_or_beaten(before.results, before.ef, c);
            }
        }
    }
    assert forall|i: int| 0 <= i < now.results.len() implies settled_node(
        now,
        picture,
        #[trigger] now.results[i],
    ) by {
        assert(settled_node(before, picture, before.results[i]));
    }
    assert forall|i: int| 0 <= i < now.frontier.len() implies settled_node(
        now,
        picture,
        #[trigger] now.frontier[i],
    ) by {
        let j = if now.want is Neighbors { i + 1 } else { i };
        assert(now.frontier[i] == before.frontier[j]);
        assert(settled_node(before, picture, before.frontier[j]));
    }
    assert(in_order(now.frontier)) by {
        assert forall|i: int, j: int| 0 <= i <= j < now.frontier.len() implies (
        #[trigger] now.frontier[i]).rank() <= (#[trigger] now.frontier[j]).rank() by {
            let k: int = if now.want is Neighbors { 1 } else { 0 };
            assert(now.frontier[i] == before.frontier[i + k]);
            assert(now.frontier[j] == before.frontier[j + k]);
        }
    }
    assert forall|v: NodeId| #[trigger] now.pending.contains(v) implies now.visited.contains(v) by {
        assert(before.pending.contains(v));
    }
    if now.want is Neighbors {
        assert(settled_node(before, picture, before.frontier[0]));
    }
}

proof fn lemma_started(
    picture: LayerPicture,
    layer: LayerId,
    ef: nat,
    filter: Option<(Seq<bool>, nat)>,
    entries: Seq<NodeId>,
)
    ensures
        steady(SearchModel::start(layer, ef, filter, entries), picture),
        wanting(SearchModel::start(layer, ef, filter, entries)),
        SearchModel::start(layer, ef, filter, entries).visited == entries.to_set(),
{
    lemma_fresh(entries, Set::empty());
    let blank = SearchModel {
        layer,
        ef,
        filter,
        seeding: true,
        visited: entries.to_set(),
        pending: fresh(entries, Set::empty()),
        frontier: Seq::empty(),
        results: Seq::empty(),
        want: Want::Nothing,
    };
    assert(steady(blank, picture));
    lemma_settled(blank, picture);
}

/// The results after an admitted node has joined them.
spec fn joined(search: SearchModel, found: Candidate) -> Seq<Candidate> {
    if search.seeding {
        placed(search.results, found)
    } else {
        at_most(placed(search.results, found), search.ef)
    }
}

/// A node that joins the results disturbs nothing.
proof fn lemma_joined(search: SearchModel, found: Candidate)
    requires
        in_order(search.results),
        ids(search.results).no_duplicates(),
        forall|i: int| 0 <= i < search.results.len() ==> (#[trigger] search.results[i]).id
            != found.id,
    ensures
        in_order(joined(search, found)),
        ids(joined(search, found)).no_duplicates(),
        forall|i: int|
            0 <= i < joined(search, found).len() ==> {
                ||| #[trigger] joined(search, found)[i] == found
                ||| search.results.contains(joined(search, found)[i])
            },
        forall|c: Candidate|
            #![trigger joined(search, found).contains(c)]
            c == found || search.results.contains(c) ==> {
                ||| joined(search, found).contains(c)
                ||| {
                    &&& joined(search, found).len() == search.ef
                    &&& forall|k: int|
                        0 <= k < search.ef ==> (#[trigger] joined(search, found)[k]).rank()
                            <= c.rank()
                }
            },
        joined(search, found).len() > 0 || search.ef == 0,
        search.results.len() >= search.ef ==> joined(search, found).len() >= search.ef,
        forall|k: int|
            0 <= k < search.ef && k < search.results.len() ==> (#[trigger] joined(
                search,
                found,
            )[k]).rank() <= search.results[k].rank(),
{
    let wide = placed(search.results, found);
    let now = joined(search, found);
    placing_keeps_order(search.results, found);
    lemma_placed_contains(search.results, found);
    lemma_placed_distinct(search.results, found);
    assert forall|i: int| 0 <= i < now.len() implies #[trigger] now[i] == wide[i] by {}
    assert(in_order(now)) by {
        assert forall|i: int, j: int| 0 <= i <= j < now.len() implies (#[trigger] now[i]).rank()
            <= (#[trigger] now[j]).rank() by {
            assert(wide[i].rank() <= wide[j].rank());
        }
    }
    assert(ids(now).no_duplicates()) by {
        assert forall|i: int, j: int|
            0 <= i < now.len() && 0 <= j < now.len() && i != j implies ids(now)[i] != ids(
            now,
        )[j] by {
            assert(ids(wide)[i] != ids(wide)[j]);
        }
    }
    assert forall|i: int| 0 <= i < now.len() implies {
        ||| #[trigger] now[i] == found
        ||| search.results.contains(now[i])
    } by {
        assert(wide.contains(wide[i]));
    }
    assert forall|c: Candidate|
        #![trigger now.contains(c)]
        c == found || search.results.contains(c) implies {
        ||| now.contains(c)
        ||| {
            &&& now.len() == search.ef
            &&& forall|k: int| 0 <= k < search.ef ==> (#[trigger] now[k]).rank() <= c.rank()
        }
    } by {
        assert(wide.contains(c));
        lemma_kept_or_beaten(wide, search.ef, c);
    }
    assert forall|k: int| 0 <= k < search.ef && k < search.results.len() implies (
    #[trigger] now[k]).rank() <= search.results[k].rank() by {
        lemma_placed_is_nearer(search.results, found, k);
    }
}

/// An arriving distance keeps the search steady.
proof fn lemma_measured(search: SearchModel, picture: LayerPicture)
    requires
        steady(search, picture),
        wanting(search),
        search.want is Distance,
    ensures
        steady(search.measured((picture.distance)(search.pending[0])), picture),
        wanting(search.measured((picture.distance)(search.pending[0]))),
        search.measured((picture.distance)(search.pending[0])).visited == search.visited,
{
    let id = search.pending[0];
    let reply = (picture.distance)(id);
    let rest = search.pending.drop_first();
    assert forall|v: NodeId| #[trigger] rest.contains(v) <==> search.pending.contains(v) && v
        != id by {
        if rest.contains(v) {
            let i = choose|i: int| 0 <= i < rest.len() && rest[i] == v;
            assert(search.pending[i + 1] == v);
        }
        if search.pending.contains(v) && v != id {
            let i = choose|i: int| 0 <= i < search.pending.len() && search.pending[i] == v;
            assert(rest[i - 1] == v);
        }
    }
    assert(search.pending.contains(id));
    assert(search.visited.contains(id));
    if reply is Some && search.admits(reply->0) {
        lemma_measured_near(search, picture, rest, Candidate { id, distance: reply->0 });
    } else {
        lemma_measured_far(search, picture, rest, id);
    }
}

/// The part of `lemma_measured` for a node that is near enough.
proof fn lemma_measured_near(
    search: SearchModel,
    picture: LayerPicture,
    rest: Seq<NodeId>,
    found: Candidate,
)
    requires
        steady(search, picture),
        search.want is Distance,
        search.visited.contains(found.id),
        search.pending.contains(found.id),
        rest.no_duplicates(),
        forall|v: NodeId| #[trigger]
            rest.contains(v) <==> search.pending.contains(v) && v != found.id,
        (picture.distance)(found.id) == Some(found.distance),
    ensures
        ({
            let mid = SearchModel {
                pending: rest,
                frontier: placed(search.frontier, found),
                results: joined(search, found),
                ..search
            };
            &&& steady(mid.settled(), picture)
            &&& wanting(mid.settled())
            &&& mid.settled().visited == search.visited
        }),
{
    let mid = SearchModel {
        pending: rest,
        frontier: placed(search.frontier, found),
        results: joined(search, found),
        ..search
    };
    let now = SearchModel { want: Want::Nothing, ..mid };
    assert forall|i: int| 0 <= i < search.results.len() implies (#[trigger] search.results[i]).id
        != found.id by {
        assert(settled_node(search, picture, search.results[i]));
    }
    lemma_joined(search, found);
    placing_keeps_order(search.frontier, found);
    lemma_placed_contains(search.frontier, found);
    assert forall|i: int| 0 <= i < now.results.len() implies settled_node(
        now,
        picture,
        #[trigger] now.results[i],
    ) by {
        let c = joined(search, found)[i];
        if c != found {
            let j = choose|j: int| 0 <= j < search.results.len() && search.results[j] == c;
            assert(settled_node(search, picture, search.results[j]));
        }
    }
    assert forall|i: int| 0 <= i < now.frontier.len() implies settled_node(
        now,
        picture,
        #[trigger] now.frontier[i],
    ) by {
        let c = now.frontier[i];
        assert(now.frontier.contains(c));
        if c != found {
            let j = choose|j: int| 0 <= j < search.frontier.len() && search.frontier[j] == c;
            assert(settled_node(search, picture, search.frontier[j]));
        }
    }
    assert forall|v: NodeId|
        #![trigger now.visited.contains(v)]
        now.visited.contains(v) && !now.pending.contains(v) implies match (picture.distance)(v) {
        Some(d) => {
            &&& decided(now, picture) ==> beaten(now, v, d)
            &&& now.results.len() > 0 || now.ef == 0
        },
        None => true,
    } by {
        if let Some(d) = (picture.distance)(v) {
            if decided(now, picture) {
                let c = Candidate { id: v, distance: d };
                if v != found.id {
                    assert(search.visited.contains(v) && !search.pending.contains(v));
                    assert(beaten(search, v, d));
                    if !search.results.contains(c) {
                        assert forall|k: int| 0 <= k < now.ef implies (
                        #[trigger] now.results[k]).rank() <= d.rank() by {
                            assert(joined(search, found)[k].rank() <= search.results[k].rank());
                        }
                    }
                }
            }
        }
    }
    assert forall|i: int| 0 <= i < now.results.len() implies pursued(
        now,
        picture,
        #[trigger] now.results[i],
    ) by {
        let c = joined(search, found)[i];
        assert(links(search, picture, c.id) == links(now, picture, c.id));
        if c == found {
            assert(now.frontier.contains(c));
        } else {
            let j = choose|j: int| 0 <= j < search.results.len() && search.results[j] == c;
            assert(pursued(search, picture, search.results[j]));
            if search.frontier.contains(c) {
                assert(now.frontier.contains(c));
            }
        }
    }
    assert(steady(now, picture));
    lemma_settled(mid, picture);
}

/// The part of `lemma_measured` for a node that has no vector or is too far.
proof fn lemma_measured_far(
    search: SearchModel,
    picture: LayerPicture,
    rest: Seq<NodeId>,
    id: NodeId,
)
    requires
        steady(search, picture),
        search.want is Distance,
        search.visited.contains(id),
        search.pending.contains(id),
        rest.no_duplicates(),
        forall|v: NodeId| #[trigger] rest.contains(v) <==> search.pending.contains(v) && v != id,
        (picture.distance)(id) matches Some(d) ==> !search.admits(d),
    ensures
        ({
            let mid = SearchModel { pending: rest, ..search };
            &&& steady(mid.settled(), picture)
            &&& wanting(mid.settled())
            &&& mid.settled().visited == search.visited
        }),
{
    let mid = SearchModel { pending: rest, ..search };
    let now = SearchModel { want: Want::Nothing, ..mid };
    assert forall|i: int| 0 <= i < now.results.len() implies settled_node(
        now,
        picture,
        #[trigger] now.results[i],
    ) by {
        assert(settled_node(search, picture, search.results[i]));
    }
    assert forall|i: int| 0 <= i < now.frontier.len() implies settled_node(
        now,
        picture,
        #[trigger] now.frontier[i],
    ) by {
        assert(settled_node(search, picture, search.frontier[i]));
    }
    assert forall|v: NodeId|
        #![trigger now.visited.contains(v)]
        now.visited.contains(v) && !now.pending.contains(v) implies match (picture.distance)(v) {
        Some(d) => {
            &&& decided(now, picture) ==> beaten(now, v, d)
            &&& now.results.len() > 0 || now.ef == 0
        },
        None => true,
    } by {
        if let Some(d) = (picture.distance)(v) {
            if v != id {
                assert(search.visited.contains(v) && !search.pending.contains(v));
                if decided(now, picture) {
                    assert(beaten(search, v, d));
                }
            } else if decided(now, picture) && search.results.len() > 0 {
                assert(!d.nan());
                let worst = search.results[search.results.len() - 1];
                assert(settled_node(search, picture, worst));
                assert(!worst.distance.nan());
                assert forall|k: int| 0 <= k < now.ef implies (#[trigger] now.results[k]).rank()
                    <= d.rank() by {
                    assert(search.results[k].rank() <= worst.rank());
                }
            }
        }
    }
    assert forall|i: int| 0 <= i < now.results.len() implies pursued(
        now,
        picture,
        #[trigger] now.results[i],
    ) by {
        let c = search.results[i];
        assert(links(search, picture, c.id) == links(now, picture, c.id));
        assert(pursued(search, picture, search.results[i]));
    }
    assert(steady(now, picture));
    lemma_settled(mid, picture);
}

/// Arriving neighbours keep the search steady.
proof fn lemma_expanded(search: SearchModel, picture: LayerPicture, id: NodeId)
    requires
        steady(search, picture),
        wanting(search),
        search.want == Want::Neighbors(id),
    ensures
        steady(search.expanded(picture.codes, (picture.neighbors)(id)), picture),
        wanting(search.expanded(picture.codes, (picture.neighbors)(id))),
        search.expanded(picture.codes, (picture.neighbors)(id)).visited == search.visited.union(
            links(search, picture, id).to_set(),
        ),
{
    let list = links(search, picture, id);
    lemma_fresh(list, search.visited);
    let mid = SearchModel {
        pending: fresh(list, search.visited),
        visited: search.visited.union(list.to_set()),
        ..search
    };
    let now = SearchModel { want: Want::Nothing, ..mid };
    assert forall|i: int| 0 <= i < now.results.len() implies settled_node(
        now,
        picture,
        #[trigger] now.results[i],
    ) by {
        assert(settled_node(search, picture, search.results[i]));
    }
    assert forall|i: int| 0 <= i < now.frontier.len() implies settled_node(
        now,
        picture,
        #[trigger] now.frontier[i],
    ) by {
        assert(settled_node(search, picture, search.frontier[i]));
    }
    assert forall|v: NodeId|
        #![trigger now.visited.contains(v)]
        now.visited.contains(v) && !now.pending.contains(v) implies match (picture.distance)(v) {
        Some(d) => {
            &&& decided(now, picture) ==> beaten(now, v, d)
            &&& now.results.len() > 0 || now.ef == 0
        },
        None => true,
    } by {
        assert(search.visited.contains(v));
        assert(!search.pending.contains(v));
        if let Some(d) = (picture.distance)(v) {
            if decided(now, picture) {
                assert(beaten(search, v, d));
            }
        }
    }
    assert forall|i: int| 0 <= i < now.results.len() implies pursued(
        now,
        picture,
        #[trigger] now.results[i],
    ) by {
        let c = now.results[i];
        assert(pursued(search, picture, search.results[i]));
        assert(links(search, picture, c.id) == links(now, picture, c.id));
        if c.id == id {
            assert forall|v: NodeId| #[trigger] links(now, picture, c.id).contains(
                v,
            ) implies now.visited.contains(v) by {
                assert(list.to_set().contains(v));
            }
        }
    }
    assert(steady(now, picture));
    lemma_settled(mid, picture);
}

/// Every state that a search reaches is steady, and the nodes that it has met
/// stay within any set that holds the entry points and all that is linked from
/// those of its members that have vectors.
pub proof fn every_state_is_steady(
    picture: LayerPicture,
    layer: LayerId,
    ef: nat,
    filter: Option<(Seq<bool>, nat)>,
    entries: Seq<NodeId>,
    set: Set<NodeId>,
    replies: nat,
)
    ensures
        ({
            let first = SearchModel::start(layer, ef, filter, entries);
            let now = after(first, picture, replies);
            &&& steady(now, picture)
            &&& wanting(now)
            &&& now.layer == layer && now.ef == ef && now.filter == filter
            &&& entries.to_set().subset_of(now.visited)
            &&& {
                &&& entries.to_set().subset_of(set)
                &&& forall|u: NodeId, v: NodeId|
                    set.contains(u) && (picture.distance)(u) is Some && #[trigger] links(
                        first,
                        picture,
                        u,
                    ).contains(v) ==> set.contains(v)
            } ==> within(now, set)
        }),
    decreases replies,
{
    let first = SearchModel::start(layer, ef, filter, entries);
    if replies == 0 {
        lemma_started(picture, layer, ef, filter, entries);
    } else {
        let before = after(first, picture, (replies - 1) as nat);
        every_state_is_steady(picture, layer, ef, filter, entries, set, (replies - 1) as nat);
        match before.want {
            Want::Distance(id) => {
                lemma_measured(before, picture);
            },
            Want::Neighbors(id) => {
                lemma_expanded(before, picture, id);
                assert(links(first, picture, id) == links(before, picture, id));
            },
            Want::Nothing => {},
        }
    }
}

/// A finished search has found a local optimum. Its results are at most `ef`,
/// in order of distance, each once and at its true distance. Of the entry
/// points, and of the nodes linked from any result, each that has a vector is
/// itself a result, unless there are `ef` results and none is farther than it. That
/// holds where no distance is a NaN, and where there are fewer than `ef` results.
pub proof fn finished_search_is_locally_optimal(
    picture: LayerPicture,
    layer: LayerId,
    ef: nat,
    filter: Option<(Seq<bool>, nat)>,
    entries: Seq<NodeId>,
    replies: nat,
)
    requires
        after(SearchModel::start(layer, ef, filter, entries), picture, replies).want
            == Want::Nothing,
    ensures
        ({
            let end = after(SearchModel::start(layer, ef, filter, entries), picture, replies);
            &&& end.results.len() <= ef
            &&& in_order(end.results)
            &&& ids(end.results).no_duplicates()
            &&& forall|i: int|
                0 <= i < end.results.len() ==> (picture.distance)(
                    (#[trigger] end.results[i]).id,
                ) == Some(end.results[i].distance)
            &&& decided(end, picture) ==> forall|v: NodeId|
                (entries.contains(v) || exists|c: Candidate|
                    end.results.contains(c) && #[trigger] links(end, picture, c.id).contains(v))
                    ==> match #[trigger] (picture.distance)(v) {
                    Some(d) => beaten(end, v, d),
                    None => true,
                }
        }),
{
    let end = after(SearchModel::start(layer, ef, filter, entries), picture, replies);
    every_state_is_steady(picture, layer, ef, filter, entries, Set::empty(), replies);
    assert forall|i: int| 0 <= i < end.results.len() implies (picture.distance)(
        (#[trigger] end.results[i]).id,
    ) == Some(end.results[i].distance) by {
        assert(settled_node(end, picture, end.results[i]));
    }
    if decided(end, picture) {
        assert forall|v: NodeId|
            (entries.contains(v) || exists|c: Candidate|
                end.results.contains(c) && #[trigger] links(end, picture, c.id).contains(
                    v,
                )) implies match #[trigger] (picture.distance)(v) {
            Some(d) => beaten(end, v, d),
            None => true,
        } by {
            if entries.contains(v) {
                assert(entries.to_set().contains(v));
            } else {
                let c = choose|c: Candidate|
                    end.results.contains(c) && #[trigger] links(end, picture, c.id).contains(v);
                let i = choose|i: int| 0 <= i < end.results.len() && end.results[i] == c;
                assert(pursued(end, picture, end.results[i]));
                if end.frontier.contains(c) {
                    let j = choose|j: int| 0 <= j < end.frontier.len() && end.frontier[j] == c;
                    assert(end.frontier[0].rank() <= end.frontier[j].rank());
                    assert(end.results[i].rank() <= end.results[end.results.len() - 1].rank());
                }
            }
            assert(end.visited.contains(v));
        }
    }
}

/// Each node of a path is followed from the one before it, and all have vectors.
pub open spec fn leads_along(search: SearchModel, picture: LayerPicture, path: Seq<NodeId>) -> bool {
    &&& forall|i: int|
        0 <= i < path.len() ==> (#[trigger] (picture.distance)(path[i])) is Some
    &&& forall|i: int, j: int|
        0 <= i && j == i + 1 && j < path.len() ==> links(
            search,
            picture,
            #[trigger] path[i],
        ).contains(#[trigger] path[j])
}

/// A finished search that has found fewer than `ef` nodes has missed nothing: it
/// has found every node to which a path leads from an entry point.
pub proof fn unfilled_search_is_exhaustive(
    picture: LayerPicture,
    layer: LayerId,
    ef: nat,
    filter: Option<(Seq<bool>, nat)>,
    entries: Seq<NodeId>,
    replies: nat,
    path: Seq<NodeId>,
)
    requires
        after(SearchModel::start(layer, ef, filter, entries), picture, replies).want
            == Want::Nothing,
        after(SearchModel::start(layer, ef, filter, entries), picture, replies).results.len() < ef,
        path.len() > 0,
        entries.contains(path[0]),
        leads_along(SearchModel::start(layer, ef, filter, entries), picture, path),
    ensures
        ids(
            after(SearchModel::start(layer, ef, filter, entries), picture, replies).results,
        ).contains(path.last()),
    decreases path.len(),
{
    let first = SearchModel::start(layer, ef, filter, entries);
    let end = after(first, picture, replies);
    finished_search_is_locally_optimal(picture, layer, ef, filter, entries, replies);
    every_state_is_steady(picture, layer, ef, filter, entries, Set::empty(), replies);
    let v = path.last();
    assert((picture.distance)(path[path.len() - 1]) is Some);
    let d = (picture.distance)(v)->0;
    if path.len() > 1 {
        let rest = path.drop_last();
        assert(leads_along(first, picture, rest)) by {
            assert forall|i: int| 0 <= i < rest.len() implies (#[trigger] (picture.distance)(
                rest[i],
            )) is Some by {
                assert((picture.distance)(path[i]) is Some);
            }
            assert forall|i: int, j: int| 0 <= i && j == i + 1 && j < rest.len() implies links(
                first,
                picture,
                #[trigger] rest[i],
            ).contains(#[trigger] rest[j]) by {
                assert(links(first, picture, path[i]).contains(path[j]));
            }
        }
        unfilled_search_is_exhaustive(picture, layer, ef, filter, entries, replies, rest);
        let u = rest.last();
        let k = choose|k: int| 0 <= k < end.results.len() && ids(end.results)[k] == u;
        assert(end.results.contains(end.results[k]));
        assert(links(first, picture, path[path.len() - 2]).contains(path[path.len() - 1]));
        assert(links(end, picture, u) == links(first, picture, u));
    }
    assert(beaten(end, v, d));
    let c = Candidate { id: v, distance: d };
    let k = choose|k: int| 0 <= k < end.results.len() && end.results[k] == c;
    assert(ids(end.results)[k] == v);
}

/// A search never leaves a set that holds its entry points and, with a node that
/// has a vector, the nodes linked from it.
pub proof fn search_stays_within_reach(
    picture: LayerPicture,
    layer: LayerId,
    ef: nat,
    filter: Option<(Seq<bool>, nat)>,
    entries: Seq<NodeId>,
    set: Set<NodeId>,
    replies: nat,
)
    requires
        forall|v: NodeId| #[trigger] entries.contains(v) ==> set.contains(v),
        forall|u: NodeId, v: NodeId|
            set.contains(u) && (picture.distance)(u) is Some && #[trigger] links(
                SearchModel::start(layer, ef, filter, entries),
                picture,
                u,
            ).contains(v) ==> set.contains(v),
    ensures
        forall|i: int|
            #![trigger after(
                SearchModel::start(layer, ef, filter, entries),
                picture,
                replies,
            ).results[i]]
            0 <= i < after(
                SearchModel::start(layer, ef, filter, entries),
                picture,
                replies,
            ).results.len() ==> set.contains(
                after(
                    SearchModel::start(layer, ef, filter, entries),
                    picture,
                    replies,
                ).results[i].id,
            ),
{
    let now = after(SearchModel::start(layer, ef, filter, entries), picture, replies);
    assert forall|v: NodeId| entries.to_set().contains(v) implies set.contains(v) by {
        assert(entries.contains(v));
    }
    every_state_is_steady(picture, layer, ef, filter, entries, set, replies);
    assert forall|i: int| 0 <= i < now.results.len() implies set.contains(
        (#[trigger] now.results[i]).id,
    ) by {
        assert(settled_node(now, picture, now.results[i]));
    }
}

/// A path of nodes with vectors leads from an entry point to a node.
pub open spec fn led_to(
    search: SearchModel,
    picture: LayerPicture,
    entries: Seq<NodeId>,
    path: Seq<NodeId>,
    v: NodeId,
) -> bool {
    &&& path.len() > 0
    &&& entries.contains(path[0])
    &&& leads_along(search, picture, path)
    &&& path.last() == v
}

/// The nodes with vectors that a search can come to from its entry points.
pub open spec fn reach(search: SearchModel, picture: LayerPicture, entries: Seq<NodeId>) -> Set<
    NodeId,
> {
    Set::new(|v: NodeId| exists|path: Seq<NodeId>| led_to(search, picture, entries, path, v))
}

/// A search finds only nodes within its reach.
proof fn lemma_found_in_reach(
    picture: LayerPicture,
    layer: LayerId,
    ef: nat,
    filter: Option<(Seq<bool>, nat)>,
    entries: Seq<NodeId>,
    replies: nat,
)
    requires
        after(SearchModel::start(layer, ef, filter, entries), picture, replies).want
            == Want::Nothing,
    ensures
        ids(
            after(SearchModel::start(layer, ef, filter, entries), picture, replies).results,
        ).to_set().subset_of(reach(SearchModel::start(layer, ef, filter, entries), picture, entries)),
{
    let first = SearchModel::start(layer, ef, filter, entries);
    let end = after(first, picture, replies);
    let all = reach(first, picture, entries);
    let met = Set::new(|v: NodeId| (picture.distance)(v) is Some ==> all.contains(v));
    assert forall|v: NodeId| #[trigger] entries.contains(v) implies met.contains(v) by {
        if (picture.distance)(v) is Some {
            assert(led_to(first, picture, entries, seq![v], v));
        }
    }
    assert forall|u: NodeId, v: NodeId|
        met.contains(u) && (picture.distance)(u) is Some && #[trigger] links(
            first,
            picture,
            u,
        ).contains(v) implies met.contains(v) by {
        if (picture.distance)(v) is Some {
            assert(all.contains(u));
            let path = choose|path: Seq<NodeId>| led_to(first, picture, entries, path, u);
            let longer = path.push(v);
            assert(longer[0] == path[0]);
            assert forall|i: int| 0 <= i < longer.len() implies (#[trigger] (picture.distance)(
                longer[i],
            )) is Some by {
                if i < path.len() {
                    assert((picture.distance)(path[i]) is Some);
                }
            }
            assert forall|i: int, j: int| 0 <= i && j == i + 1 && j < longer.len() implies links(
                first,
                picture,
                #[trigger] longer[i],
            ).contains(#[trigger] longer[j]) by {
                if j < path.len() {
                    assert(links(first, picture, path[i]).contains(path[j]));
                }
            }
            assert(led_to(first, picture, entries, longer, v));
        }
    }
    search_stays_within_reach(picture, layer, ef, filter, entries, met, replies);
    finished_search_is_locally_optimal(picture, layer, ef, filter, entries, replies);
    assert forall|v: NodeId| ids(end.results).to_set().contains(v) implies all.contains(v) by {
        let i = choose|i: int| 0 <= i < ids(end.results).len() && ids(end.results)[i] == v;
        assert(met.contains(end.results[i].id));
    }
}

/// A finished search whose width is enough for all nodes within its reach has found
/// them all, and nothing else.
pub proof fn wide_search_is_complete(
    picture: LayerPicture,
    layer: LayerId,
    ef: nat,
    filter: Option<(Seq<bool>, nat)>,
    entries: Seq<NodeId>,
    replies: nat,
)
    requires
        after(SearchModel::start(layer, ef, filter, entries), picture, replies).want
            == Want::Nothing,
        reach(SearchModel::start(layer, ef, filter, entries), picture, entries).finite(),
        reach(SearchModel::start(layer, ef, filter, entries), picture, entries).len() <= ef,
    ensures
        ids(
            after(SearchModel::start(layer, ef, filter, entries), picture, replies).results,
        ).to_set() == reach(SearchModel::start(layer, ef, filter, entries), picture, entries),
{
    let first = SearchModel::start(layer, ef, filter, entries);
    let end = after(first, picture, replies);
    let all = reach(first, picture, entries);
    let found = ids(end.results);
    lemma_found_in_reach(picture, layer, ef, filter, entries, replies);
    finished_search_is_locally_optimal(picture, layer, ef, filter, entries, replies);
    found.unique_seq_to_set();
    if end.results.len() < ef {
        assert forall|v: NodeId| all.contains(v) implies found.to_set().contains(v) by {
            let path = choose|path: Seq<NodeId>| led_to(first, picture, entries, path, v);
            unfilled_search_is_exhaustive(picture, layer, ef, filter, entries, replies, path);
        }
        assert(found.to_set() =~= all);
    } else {
        vstd::set_lib::lemma_len_subset(found.to_set(), all);
        vstd::set_lib::lemma_subset_equality(found.to_set(), all);
    }
}

/// A finished search with room for a result has one, if any of its entry points
/// has a vector.
pub proof fn finished_search_finds_something(
    picture: LayerPicture,
    layer: LayerId,
    ef: nat,
    filter: Option<(Seq<bool>, nat)>,
    entries: Seq<NodeId>,
    entry: NodeId,
    replies: nat,
)
    requires
        after(SearchModel::start(layer, ef, filter, entries), picture, replies).want
            == Want::Nothing,
        ef > 0,
        entries.contains(entry),
        (picture.distance)(entry) is Some,
    ensures
        after(SearchModel::start(layer, ef, filter, entries), picture, replies).results.len() > 0,
{
    let now = after(SearchModel::start(layer, ef, filter, entries), picture, replies);
    every_state_is_steady(picture, layer, ef, filter, entries, Set::empty(), replies);
    assert(entries.to_set().contains(entry));
    assert(now.visited.contains(entry));
}

/// Above the bottom layer a filter makes no difference.
pub proof fn filter_spares_upper_layers(
    picture: LayerPicture,
    layer: LayerId,
    ef: nat,
    filter: Option<(Seq<bool>, nat)>,
    entries: Seq<NodeId>,
    replies: nat,
)
    requires
        layer > 0,
    ensures
        after(SearchModel::start(layer, ef, filter, entries), picture, replies) == (SearchModel {
            filter,
            ..after(SearchModel::start(layer, ef, None, entries), picture, replies)
        }),
    decreases replies,
{
    if replies > 0 {
        filter_spares_upper_layers(picture, layer, ef, filter, entries, (replies - 1) as nat);
        every_state_is_steady(
            picture,
            layer,
            ef,
            None,
            entries,
            Set::empty(),
            (replies - 1) as nat,
        );
    }
}

/// An entry point is still to be measured, or the nearest result is no farther.
spec fn undercut(search: SearchModel, picture: LayerPicture, entry: NodeId) -> bool {
    (picture.distance)(entry) matches Some(d) ==> {
        ||| search.seeding && search.pending.contains(entry)
        ||| {
            &&& !search.pending.contains(entry)
            &&& search.results.len() > 0
            &&& search.results[0].rank() <= d.rank()
        }
    }
}

/// Choosing the next want leaves the nearest result as it is.
proof fn lemma_undercut_settled(search: SearchModel, picture: LayerPicture, entry: NodeId)
    requires
        search.ef > 0,
        undercut(search, picture, entry),
    ensures
        undercut(search.settled(), picture, entry),
{
    if search.pending.len() == 0 {
        assert(!search.pending.contains(entry));
    }
}

/// A measurement never makes the nearest result farther.
proof fn lemma_undercut_measured(search: SearchModel, picture: LayerPicture, entry: NodeId)
    requires
        steady(search, picture),
        search.pending.len() > 0,
        search.ef > 0,
        undercut(search, picture, entry),
    ensures
        undercut(search.measured((picture.distance)(search.pending[0])), picture, entry),
{
    let id = search.pending[0];
    let reply = (picture.distance)(id);
    let rest = search.pending.drop_first();
    assert forall|v: NodeId| #[trigger] rest.contains(v) <==> v != id && search.pending.contains(
        v,
    ) by {
        if rest.contains(v) {
            let i = choose|i: int| 0 <= i < rest.len() && rest[i] == v;
            assert(search.pending[i + 1] == v);
        }
        if v != id && search.pending.contains(v) {
            let i = choose|i: int| 0 <= i < search.pending.len() && search.pending[i] == v;
            assert(rest[i - 1] == v);
        }
    }
    assert(search.pending.contains(id));
    match reply {
        Some(d) if search.admits(d) => {
            let found = Candidate { id, distance: d };
            let all = placed(search.results, found);
            lemma_placed_contains(search.results, found);
            placing_keeps_order(search.results, found);
            let at = choose|at: int| 0 <= at < all.len() && all[at] == found;
            assert(all.contains(found));
            assert(all[0].rank() <= all[at].rank());
            if search.results.len() > 0 {
                lemma_placed_is_nearer(search.results, found, 0);
            }
            let next = SearchModel {
                pending: rest,
                frontier: placed(search.frontier, found),
                results: if search.seeding {
                    all
                } else {
                    at_most(all, search.ef)
                },
                ..search
            };
            lemma_undercut_settled(next, picture, entry);
        },
        _ => {
            lemma_undercut_settled(SearchModel { pending: rest, ..search }, picture, entry);
        },
    }
}

/// A finished search with room for a result has one that is no farther than any of
/// its entry points, if that has a vector.
pub proof fn nearest_result_undercuts_the_entries(
    picture: LayerPicture,
    layer: LayerId,
    ef: nat,
    filter: Option<(Seq<bool>, nat)>,
    entries: Seq<NodeId>,
    entry: NodeId,
    replies: nat,
)
    requires
        after(SearchModel::start(layer, ef, filter, entries), picture, replies).want
            == Want::Nothing,
        ef > 0,
        entries.contains(entry),
    ensures
        (picture.distance)(entry) matches Some(d) ==> {
            let found = after(
                SearchModel::start(layer, ef, filter, entries),
                picture,
                replies,
            ).results;
            found.len() > 0 && found[0].rank() <= d.rank()
        },
{
    lemma_undercut(picture, layer, ef, filter, entries, entry, replies);
    every_state_is_steady(picture, layer, ef, filter, entries, Set::empty(), replies);
}

proof fn lemma_undercut(
    picture: LayerPicture,
    layer: LayerId,
    ef: nat,
    filter: Option<(Seq<bool>, nat)>,
    entries: Seq<NodeId>,
    entry: NodeId,
    replies: nat,
)
    requires
        ef > 0,
        entries.contains(entry),
    ensures
        undercut(
            after(SearchModel::start(layer, ef, filter, entries), picture, replies),
            picture,
            entry,
        ),
    decreases replies,
{
    let first = SearchModel::start(layer, ef, filter, entries);
    if replies == 0 {
        lemma_fresh(entries, Set::empty());
        assert(first.pending.contains(entry));
    } else {
        let before = after(first, picture, (replies - 1) as nat);
        lemma_undercut(picture, layer, ef, filter, entries, entry, (replies - 1) as nat);
        every_state_is_steady(
            picture,
            layer,
            ef,
            filter,
            entries,
            Set::empty(),
            (replies - 1) as nat,
        );
        match before.want {
            Want::Distance(id) => {
                lemma_undercut_measured(before, picture, entry);
            },
            Want::Neighbors(id) => {
                let list = links(before, picture, id);
                lemma_fresh(list, before.visited);
                assert(entries.to_set().contains(entry));
                let next = SearchModel {
                    pending: fresh(list, before.visited),
                    visited: before.visited.union(list.to_set()),
                    ..before
                };
                assert(!before.pending.contains(entry));
                assert(!next.pending.contains(entry));
                lemma_undercut_settled(next, picture, entry);
            },
            Want::Nothing => {},
        }
    }
}

/// An upper bound on the replies that a search still takes, if it stays within
/// `set`.
pub open spec fn effort(search: SearchModel, set: Set<NodeId>) -> nat {
    3 * set.difference(search.visited).len() + 2 * search.pending.len() + search.frontier.len()
}

proof fn lemma_without(set: Set<NodeId>, list: Seq<NodeId>)
    requires
        set.finite(),
        list.no_duplicates(),
        forall|v: NodeId| #[trigger] list.contains(v) ==> set.contains(v),
    ensures
        set.difference(list.to_set()).finite(),
        set.difference(list.to_set()).len() + list.len() == set.len(),
    decreases list.len(),
{
    if list.len() == 0 {
        assert(set.difference(list.to_set()) =~= set);
    } else {
        let rest = list.drop_last();
        let last = list.last();
        assert forall|v: NodeId| #[trigger] rest.contains(v) implies set.contains(v) by {
            let i = choose|i: int| 0 <= i < rest.len() && rest[i] == v;
            assert(list[i] == v);
            assert(list.contains(v));
        }
        lemma_without(set, rest);
        assert(list.contains(last)) by {
            assert(list[list.len() - 1] == last);
        }
        assert(!rest.contains(last)) by {
            if rest.contains(last) {
                let i = choose|i: int| 0 <= i < rest.len() && rest[i] == last;
                assert(list[i] == list[list.len() - 1]);
            }
        }
        assert(set.difference(list.to_set()) =~= set.difference(rest.to_set()).remove(last)) by {
            assert forall|v: NodeId|
                #![trigger set.contains(v)]
                set.difference(list.to_set()).contains(v) <==> set.difference(
                    rest.to_set(),
                ).remove(last).contains(v) by {
                if rest.contains(v) {
                    let i = choose|i: int| 0 <= i < rest.len() && rest[i] == v;
                    assert(list[i] == v);
                }
                if list.contains(v) && v != last {
                    let i = choose|i: int| 0 <= i < list.len() && list[i] == v;
                    assert(rest[i] == v);
                }
            }
        }
    }
}

/// Each reply brings a search within a finite set nearer to its end.
pub proof fn lemma_effort(search: SearchModel, picture: LayerPicture, set: Set<NodeId>)
    requires
        steady(search, picture),
        wanting(search),
        within(search, set),
        within(answered(search, picture), set),
        set.finite(),
        search.want != Want::Nothing,
    ensures
        answered(search, picture).want == Want::Nothing || effort(answered(search, picture), set)
            < effort(search, set),
{
    let now = answered(search, picture);
    match search.want {
        Want::Distance(id) => {
            lemma_measured(search, picture);
            let reply = (picture.distance)(id);
            if reply is Some {
                lemma_placed_contains(
                    search.frontier,
                    Candidate { id, distance: reply->0 },
                );
            }
        },
        Want::Neighbors(id) => {
            lemma_expanded(search, picture, id);
            let list = links(search, picture, id);
            let new = fresh(list, search.visited);
            lemma_fresh(list, search.visited);
            let left = set.difference(search.visited);
            assert forall|v: NodeId| #[trigger] new.contains(v) implies left.contains(v) by {
                assert(list.to_set().contains(v));
                assert(now.visited.contains(v));
            }
            lemma_without(left, new);
            assert(set.difference(now.visited) =~= left.difference(new.to_set())) by {
                assert forall|v: NodeId|
                    #![trigger set.contains(v)]
                    set.difference(now.visited).contains(v) <==> left.difference(
                        new.to_set(),
                    ).contains(v) by {
                    assert(new.contains(v) <==> list.contains(v) && !search.visited.contains(v));
                    assert(list.to_set().contains(v) <==> list.contains(v));
                    assert(new.to_set().contains(v) <==> new.contains(v));
                }
            }
        },
        Want::Nothing => {},
    }
}

/// The effort of a search at its start.
pub proof fn lemma_start_effort(
    layer: LayerId,
    ef: nat,
    filter: Option<(Seq<bool>, nat)>,
    entries: Seq<NodeId>,
    set: Set<NodeId>,
)
    requires
        set.finite(),
        forall|i: int| 0 <= i < entries.len() ==> set.contains(#[trigger] entries[i]),
    ensures
        effort(SearchModel::start(layer, ef, filter, entries), set) <= 3 * set.len(),
        effort(SearchModel::start(layer, ef, filter, entries), set) == 3 * set.len()
            ==> SearchModel::start(layer, ef, filter, entries).want == Want::Nothing,
{
    let first = SearchModel::start(layer, ef, filter, entries);
    lemma_fresh(entries, Set::empty());
    let new = fresh(entries, Set::empty());
    assert forall|v: NodeId| #[trigger] new.contains(v) implies set.contains(v) by {
        assert(entries.contains(v));
        let i = choose|i: int| 0 <= i < entries.len() && entries[i] == v;
    }
    lemma_without(set, new);
    assert(new.to_set() =~= entries.to_set());
    assert(first.pending == new && first.frontier.len() == 0);
}

/// Every search ends: within a finite set that holds the entry points and, with
/// a node, the nodes linked from it, after at most three replies for each node.
pub proof fn every_search_ends(
    picture: LayerPicture,
    layer: LayerId,
    ef: nat,
    filter: Option<(Seq<bool>, nat)>,
    entries: Seq<NodeId>,
    set: Set<NodeId>,
)
    requires
        set.finite(),
        forall|v: NodeId| #[trigger] entries.contains(v) ==> set.contains(v),
        forall|u: NodeId, v: NodeId|
            set.contains(u) && #[trigger] links(
                SearchModel::start(layer, ef, filter, entries),
                picture,
                u,
            ).contains(v) ==> set.contains(v),
    ensures
        after(
            SearchModel::start(layer, ef, filter, entries),
            picture,
            3 * set.len(),
        ).want == Want::Nothing,
{
    let first = SearchModel::start(layer, ef, filter, entries);
    assert forall|v: NodeId| entries.to_set().contains(v) implies set.contains(v) by {
        assert(entries.contains(v));
    }
    every_state_is_steady(picture, layer, ef, filter, entries, set, 0);
    assert forall|i: int| 0 <= i < entries.len() implies set.contains(#[trigger] entries[i]) by {
        assert(entries.contains(entries[i]));
    }
    lemma_start_effort(layer, ef, filter, entries, set);
    if first.want != Want::Nothing {
        lemma_dwindles(picture, layer, ef, filter, entries, set, 3 * set.len());
    } else {
        lemma_rests(first, picture, 3 * set.len());
    }
}

proof fn lemma_rests(search: SearchModel, picture: LayerPicture, replies: nat)
    requires
        search.want == Want::Nothing,
    ensures
        after(search, picture, replies) == search,
    decreases replies,
{
    if replies > 0 {
        lemma_rests(search, picture, (replies - 1) as nat);
    }
}

proof fn lemma_dwindles(
    picture: LayerPicture,
    layer: LayerId,
    ef: nat,
    filter: Option<(Seq<bool>, nat)>,
    entries: Seq<NodeId>,
    set: Set<NodeId>,
    replies: nat,
)
    requires
        set.finite(),
        entries.to_set().subset_of(set),
        forall|u: NodeId, v: NodeId|
            set.contains(u) && #[trigger] links(
                SearchModel::start(layer, ef, filter, entries),
                picture,
                u,
            ).contains(v) ==> set.contains(v),
    ensures
        ({
            let first = SearchModel::start(layer, ef, filter, entries);
            let now = after(first, picture, replies);
            now.want == Want::Nothing || effort(now, set) + replies <= effort(first, set)
        }),
    decreases replies,
{
    let first = SearchModel::start(layer, ef, filter, entries);
    every_state_is_steady(picture, layer, ef, filter, entries, set, replies);
    if replies > 0 {
        let before = after(first, picture, (replies - 1) as nat);
        every_state_is_steady(picture, layer, ef, filter, entries, set, (replies - 1) as nat);
        lemma_dwindles(picture, layer, ef, filter, entries, set, (replies - 1) as nat);
        if before.want != Want::Nothing {
            lemma_effort(before, picture, set);
        }
    }
}

/// What a search follows from a node: all its neighbours above the bottom layer and
/// without a filter, else those that have no code or one that collides often enough.
pub proof fn links_are_the_neighbors_that_pass(
    search: SearchModel,
    picture: LayerPicture,
    u: NodeId,
    v: NodeId,
)
    ensures
        links(search, picture, u).contains(v) <==> (picture.neighbors)(u).contains(v) && (
        search.layer == 0 && search.filter is Some && picture.codes.contains_key(v) ==> collisions(
            (search.filter->0).0,
            picture.codes[v],
        ) >= (search.filter->0).1),
        search.layer > 0 || search.filter is None ==> links(search, picture, u) == (
        picture.neighbors)(u),
{
    let list = (picture.neighbors)(u);
    if let Some((code, threshold)) = search.filter {
        if search.layer == 0 {
            let pass = |id: NodeId| passes(picture.codes, code, threshold, id);
            if list.filter(pass).contains(v) {
                list.lemma_filter_contains_rev(pass, v);
            }
            if list.contains(v) && pass(v) {
                let i = choose|i: int| 0 <= i < list.len() && list[i] == v;
                list.lemma_filter_contains(pass, i);
            }
        }
    }
}

/// What a finished search has found, by the neighbours and the distances. The results
/// are at most `ef`, nearest first, each once and at its true distance. A node with a
/// vector that is an entry point, or a neighbour of a result that the filter does not
/// hold back, is a result itself, unless there are `ef` and none is farther. That holds
/// where no distance is a NaN, and where there are fewer than `ef` results.
pub proof fn search_ends_at_the_nearest(
    picture: LayerPicture,
    layer: LayerId,
    ef: nat,
    filter: Option<(Seq<bool>, nat)>,
    entries: Seq<NodeId>,
    replies: nat,
    v: NodeId,
    distance: Scalar,
)
    requires
        after(SearchModel::start(layer, ef, filter, entries), picture, replies).want
            == Want::Nothing,
        (picture.distance)(v) == Some(distance),
        ({
            let found = after(
                SearchModel::start(layer, ef, filter, entries),
                picture,
                replies,
            ).results;
            ||| entries.contains(v)
            ||| exists|i: int|
                0 <= i < found.len() && (picture.neighbors)((#[trigger] found[i]).id).contains(v)
                    && (layer == 0 && filter is Some && picture.codes.contains_key(v)
                    ==> collisions((filter->0).0, picture.codes[v]) >= (filter->0).1)
        }),
    ensures
        ({
            let found = after(
                SearchModel::start(layer, ef, filter, entries),
                picture,
                replies,
            ).results;
            &&& found.len() <= ef
            &&& forall|i: int, j: int|
                0 <= i <= j < found.len() ==> (#[trigger] found[i]).distance.rank() <= (
                #[trigger] found[j]).distance.rank()
            &&& forall|i: int, j: int|
                0 <= i < j < found.len() ==> (#[trigger] found[i]).id != (#[trigger] found[j]).id
            &&& forall|i: int|
                0 <= i < found.len() ==> (picture.distance)((#[trigger] found[i]).id) == Some(
                    found[i].distance,
                )
            &&& found.len() < ef || (forall|id: NodeId|
                (#[trigger] (picture.distance)(id)) matches Some(d) ==> !d.nan()) ==> {
                ||| exists|j: int| 0 <= j < found.len() && (#[trigger] found[j]).id == v
                ||| found.len() == ef && (forall|j: int|
                    0 <= j < found.len() ==> (#[trigger] found[j]).distance.rank()
                        <= distance.rank())
            }
        }),
{
    let end = after(SearchModel::start(layer, ef, filter, entries), picture, replies);
    let found = end.results;
    finished_search_is_locally_optimal(picture, layer, ef, filter, entries, replies);
    every_state_is_steady(picture, layer, ef, filter, entries, Set::empty(), replies);
    assert forall|i: int, j: int| 0 <= i < j < found.len() implies (#[trigger] found[i]).id != (
    #[trigger] found[j]).id by {
        assert(ids(found)[i] != ids(found)[j]);
    }
    if found.len() < ef || picture.comparable() {
        if !entries.contains(v) {
            let i = choose|i: int|
                0 <= i < found.len() && (picture.neighbors)((#[trigger] found[i]).id).contains(v)
                    && (layer == 0 && filter is Some && picture.codes.contains_key(v)
                    ==> collisions((filter->0).0, picture.codes[v]) >= (filter->0).1);
            links_are_the_neighbors_that_pass(end, picture, found[i].id, v);
            assert(found.contains(found[i]));
        }
        assert(beaten(end, v, distance));
        let c = Candidate { id: v, distance };
        if found.contains(c) {
            let j = choose|j: int| 0 <= j < found.len() && found[j] == c;
            assert(found[j].id == v);
        }
    }
}

/// What a search finds beyond its entry points has passed the filter: at the bottom
/// layer, a result with a code that is no entry point collides often enough.
pub proof fn found_nodes_pass_the_filter(
    picture: LayerPicture,
    layer: LayerId,
    ef: nat,
    filter: Option<(Seq<bool>, nat)>,
    entries: Seq<NodeId>,
    replies: nat,
)
    ensures
        ({
            let found = after(
                SearchModel::start(layer, ef, filter, entries),
                picture,
                replies,
            ).results;
            forall|i: int|
                0 <= i < found.len() && layer == 0 && filter is Some && !entries.contains(
                    (#[trigger] found[i]).id,
                ) && picture.codes.contains_key(found[i].id) ==> collisions(
                    (filter->0).0,
                    picture.codes[found[i].id],
                ) >= (filter->0).1
        }),
{
    let first = SearchModel::start(layer, ef, filter, entries);
    let found = after(first, picture, replies).results;
    let held = Set::new(
        |v: NodeId|
            entries.contains(v) || (layer == 0 && filter is Some && picture.codes.contains_key(v)
                ==> collisions((filter->0).0, picture.codes[v]) >= (filter->0).1),
    );
    assert forall|u: NodeId, v: NodeId|
        held.contains(u) && (picture.distance)(u) is Some && #[trigger] links(
            first,
            picture,
            u,
        ).contains(v) implies held.contains(v) by {
        links_are_the_neighbors_that_pass(first, picture, u, v);
    }
    search_stays_within_reach(picture, layer, ef, filter, entries, held, replies);
    assert forall|i: int|
        0 <= i < found.len() && layer == 0 && filter is Some && !entries.contains(
            (#[trigger] found[i]).id,
        ) && picture.codes.contains_key(found[i].id) implies collisions(
        (filter->0).0,
        picture.codes[found[i].id],
    ) >= (filter->0).1 by {
        assert(held.contains(found[i].id));
    }
}

/// A search looks around the nearest candidate first: when it asks for the neighbours of
/// a node, that node has a vector, no candidate still waiting is nearer, and if the
/// results are full it is not farther than the farthest of them.
pub proof fn nearest_candidate_comes_first(
    picture: LayerPicture,
    layer: LayerId,
    ef: nat,
    filter: Option<(Seq<bool>, nat)>,
    entries: Seq<NodeId>,
    replies: nat,
    id: NodeId,
)
    requires
        after(SearchModel::start(layer, ef, filter, entries), picture, replies).want
            == Want::Neighbors(id),
    ensures
        ({
            let now = after(SearchModel::start(layer, ef, filter, entries), picture, replies);
            &&& (picture.distance)(id) is Some
            &&& forall|i: int|
                0 <= i < now.frontier.len() ==> (picture.distance)(id)->0.rank() <= (
                #[trigger] now.frontier[i]).distance.rank()
            &&& now.results.len() >= ef && now.results.len() > 0 ==> (picture.distance)(
                id,
            )->0.rank() <= now.results.last().distance.rank()
        }),
    decreases replies,
{
    let first = SearchModel::start(layer, ef, filter, entries);
    every_state_is_steady(picture, layer, ef, filter, entries, Set::empty(), replies);
    if replies == 0 {
        assert(first.frontier.len() == 0);
    } else {
        let before = after(first, picture, (replies - 1) as nat);
        every_state_is_steady(
            picture,
            layer,
            ef,
            filter,
            entries,
            Set::empty(),
            (replies - 1) as nat,
        );
        match before.want {
            Want::Distance(v) => {
                let rest = before.pending.drop_first();
                match (picture.distance)(v) {
                    Some(d) if before.admits(d) => {
                        let found = Candidate { id: v, distance: d };
                        lemma_placed_contains(before.frontier, found);
                        placing_keeps_order(before.frontier, found);
                        let next = SearchModel {
                            pending: rest,
                            frontier: placed(before.frontier, found),
                            results: if before.seeding {
                                placed(before.results, found)
                            } else {
                                at_most(placed(before.results, found), before.ef)
                            },
                            ..before
                        };
                        assert(next.frontier.contains(next.frontier[0]));
                        if next.frontier[0] != found {
                            let j = choose|j: int|
                                0 <= j < before.frontier.len() && before.frontier[j]
                                    == next.frontier[0];
                            assert(settled_node(before, picture, before.frontier[j]));
                        }
                        lemma_popped(next, picture);
                    },
                    _ => {
                        let next = SearchModel { pending: rest, ..before };
                        if next.frontier.len() > 0 {
                            assert(settled_node(before, picture, before.frontier[0]));
                        }
                        lemma_popped(next, picture);
                    },
                }
            },
            Want::Neighbors(u) => {
                let list = links(before, picture, u);
                let next = SearchModel {
                    pending: fresh(list, before.visited),
                    visited: before.visited.union(list.to_set()),
                    ..before
                };
                if next.frontier.len() > 0 {
                    assert(settled_node(before, picture, before.frontier[0]));
                }
                lemma_popped(next, picture);
            },
            Want::Nothing => {},
        }
    }
}

/// The candidate that is taken from the front is the nearest.
proof fn lemma_popped(search: SearchModel, picture: LayerPicture)
    requires
        in_order(search.frontier),
        search.frontier.len() > 0 ==> (picture.distance)(search.frontier[0].id) == Some(
            search.frontier[0].distance,
        ),
    ensures
        search.settled().want matches Want::Neighbors(id) ==> {
            let now = search.settled();
            &&& (picture.distance)(id) is Some
            &&& forall|i: int|
                0 <= i < now.frontier.len() ==> (picture.distance)(id)->0.rank() <= (
                #[trigger] now.frontier[i]).distance.rank()
            &&& now.results.len() >= now.ef && now.results.len() > 0 ==> (picture.distance)(
                id,
            )->0.rank() <= now.results.last().distance.rank()
        },
{
    let now = search.settled();
    if now.want is Neighbors {
        assert forall|i: int| 0 <= i < now.frontier.len() implies search.frontier[0].rank() <= (
        #[trigger] now.frontier[i]).rank() by {
            assert(now.frontier[i] == search.frontier[i + 1]);
        }
    }
}

/// The end of a search, if it has one.
pub open spec fn outcome(
    picture: LayerPicture,
    layer: LayerId,
    ef: nat,
    filter: Option<(Seq<bool>, nat)>,
    entries: Seq<NodeId>,
) -> SearchModel {
    after(
        SearchModel::start(layer, ef, filter, entries),
        picture,
        choose|n: nat|
            (#[trigger] after(SearchModel::start(layer, ef, filter, entries), picture, n)).want
                == Want::Nothing,
    )
}

proof fn lemma_stays_over(search: SearchModel, picture: LayerPicture, n: nat, m: nat)
    requires
        after(search, picture, n).want == Want::Nothing,
        n <= m,
    ensures
        after(search, picture, m) == after(search, picture, n),
    decreases m,
{
    if n < m {
        lemma_stays_over(search, picture, n, (m - 1) as nat);
    }
}

/// A search has one end.
pub proof fn lemma_outcome(
    picture: LayerPicture,
    layer: LayerId,
    ef: nat,
    filter: Option<(Seq<bool>, nat)>,
    entries: Seq<NodeId>,
    replies: nat,
)
    requires
        after(SearchModel::start(layer, ef, filter, entries), picture, replies).want
            == Want::Nothing,
    ensures
        after(SearchModel::start(layer, ef, filter, entries), picture, replies) == outcome(
            picture,
            layer,
            ef,
            filter,
            entries,
        ),
{
    let first = SearchModel::start(layer, ef, filter, entries);
    let m = choose|n: nat| (#[trigger] after(first, picture, n)).want == Want::Nothing;
    if replies <= m {
        lemma_stays_over(first, picture, replies, m);
    } else {
        lemma_stays_over(first, picture, m, replies);
    }
}

/// The state that a reply leads to, before the next want is chosen.
spec fn unsettled(search: SearchModel, picture: LayerPicture) -> SearchModel {
    match search.want {
        Want::Distance(v) => {
            let rest = search.pending.drop_first();
            match (picture.distance)(v) {
                Some(d) if search.admits(d) => {
                    let found = Candidate { id: v, distance: d };
                    SearchModel {
                        pending: rest,
                        frontier: placed(search.frontier, found),
                        results: if search.seeding {
                            placed(search.results, found)
                        } else {
                            at_most(placed(search.results, found), search.ef)
                        },
                        ..search
                    }
                },
                _ => SearchModel { pending: rest, ..search },
            }
        },
        Want::Neighbors(u) => {
            let list = links(search, picture, u);
            SearchModel {
                pending: fresh(list, search.visited),
                visited: search.visited.union(list.to_set()),
                ..search
            }
        },
        Want::Nothing => search,
    }
}

/// What a search does next, in the terms of its candidates and results. No candidate is
/// forgotten: one that waits goes on waiting until the search looks around it. What
/// is near enough is followed: an entry point, a node for which there is room among the
/// results, or one that is nearer than the farthest result waits from when it is
/// measured. While entry points are measured, and when the search looks around a node,
/// no result is given up unless the search ends. The search ends only if nothing waits,
/// or if there are `ef` results and all that waits is farther than every one of them,
/// those that the end trims included.
pub proof fn search_goes_on_while_it_may_gain(
    picture: LayerPicture,
    layer: LayerId,
    ef: nat,
    filter: Option<(Seq<bool>, nat)>,
    entries: Seq<NodeId>,
    replies: nat,
    c: Candidate,
)
    requires
        ef > 0,
        after(SearchModel::start(layer, ef, filter, entries), picture, replies).want
            != Want::Nothing,
    ensures
        ({
            let now = after(SearchModel::start(layer, ef, filter, entries), picture, replies);
            let next = after(SearchModel::start(layer, ef, filter, entries), picture, replies + 1);
            let looks_around = now.want is Neighbors;
            let of_entry = now.want matches Want::Distance(v) && entries.contains(v);
            &&& now.frontier.contains(c) ==> next.frontier.contains(c) || next.want
                == Want::Neighbors(c.id)
            &&& now.want == Want::Distance(c.id) && (picture.distance)(c.id) == Some(c.distance) && (
            entries.contains(c.id) || now.results.len() < ef || (now.results.len() > 0
                && c.distance.below(now.results.last().distance))) ==> next.frontier.contains(c)
                || next.want == Want::Neighbors(c.id)
            &&& (looks_around || of_entry) && next.want != Want::Nothing && now.results.contains(c)
                ==> next.results.contains(c)
            &&& looks_around && next.want != Want::Nothing ==> next.results == now.results
            &&& of_entry && now.want == Want::Distance(c.id) && (picture.distance)(c.id) == Some(
                c.distance,
            ) && next.want != Want::Nothing ==> next.results.contains(c)
            &&& next.want == Want::Nothing ==> forall|x: int|
                0 <= x < next.frontier.len() ==> {
                    &&& next.results.len() >= ef
                    &&& next.results.contains(c) ==> c.distance.rank() < (
                    #[trigger] next.frontier[x]).distance.rank()
                    &&& (looks_around || of_entry) && now.results.contains(c) ==> c.distance.rank()
                        < next.frontier[x].distance.rank()
                }
        }),
{
    let first = SearchModel::start(layer, ef, filter, entries);
    let now = after(first, picture, replies);
    let next = after(first, picture, replies + 1);
    let mid = unsettled(now, picture);
    every_state_is_steady(picture, layer, ef, filter, entries, Set::empty(), replies);
    assert(next == mid.settled());
    let of_entry = now.want matches Want::Distance(v) && entries.contains(v);
    if let Want::Distance(v) = now.want {
        assert(now.pending.contains(now.pending[0]));
        if entries.contains(v) {
            lemma_undercut(picture, layer, ef, filter, entries, v, replies);
        }
        if let Some(d) = (picture.distance)(v) {
            let found = Candidate { id: v, distance: d };
            lemma_placed_contains(now.frontier, found);
            lemma_placed_contains(now.results, found);
            placing_keeps_order(now.frontier, found);
            placing_keeps_order(now.results, found);
        }
    }
    assert(in_order(mid.frontier));
    assert(in_order(mid.results)) by {
        assert forall|i: int, j: int| 0 <= i <= j < mid.results.len() implies (
        #[trigger] mid.results[i]).rank() <= (#[trigger] mid.results[j]).rank() by {
            if let Want::Distance(v) = now.want {
                if let Some(d) = (picture.distance)(v) {
                    let all = placed(now.results, Candidate { id: v, distance: d });
                    if mid.results.len() <= all.len() && now.admits(d) {
                        assert(mid.results[i] == all[i] && mid.results[j] == all[j]);
                    }
                }
            }
        }
    }
    if mid.frontier.contains(c) && mid.pending.len() == 0 && !mid.exhausted() {
        let i = choose|i: int| 0 <= i < mid.frontier.len() && mid.frontier[i] == c;
        if i > 0 {
            assert(next.frontier[i - 1] == c);
        }
    }
    if next.want == Want::Nothing {
        assert forall|x: int| 0 <= x < next.frontier.len() implies {
            &&& next.results.len() >= ef
            &&& next.results.contains(c) ==> c.distance.rank() < (
            #[trigger] next.frontier[x]).distance.rank()
            &&& (now.want is Neighbors || of_entry) && now.results.contains(c) ==> c.distance.rank()
                < next.frontier[x].distance.rank()
        } by {
            assert(mid.frontier[0].rank() <= mid.frontier[x].rank());
            assert(mid.frontier[0].rank() > mid.results.last().rank());
            if next.results.contains(c) {
                let i = choose|i: int| 0 <= i < next.results.len() && next.results[i] == c;
                assert(mid.results[i] == c);
                assert(mid.results[i].rank() <= mid.results[mid.results.len() - 1].rank());
            }
            if (now.want is Neighbors || of_entry) && now.results.contains(c) {
                assert(mid.results.contains(c));
                let i = choose|i: int| 0 <= i < mid.results.len() && mid.results[i] == c;
                assert(mid.results[i].rank() <= mid.results[mid.results.len() - 1].rank());
            }
        }
    }
}

/// Whom a search meets and measures, step by step. When it looks around a node, each
/// neighbour that the filter does not hold back has been met before or is measured next,
/// and no other node is met. A node that is to be measured stays so until it is. What has
/// been met stays met. The search ends only when nothing is left to measure.
pub proof fn search_meets_all_neighbors(
    picture: LayerPicture,
    layer: LayerId,
    ef: nat,
    filter: Option<(Seq<bool>, nat)>,
    entries: Seq<NodeId>,
    replies: nat,
    v: NodeId,
)
    ensures
        ({
            let first = SearchModel::start(layer, ef, filter, entries);
            let now = after(first, picture, replies);
            let next = after(first, picture, replies + 1);
            let passes = layer == 0 && filter is Some && picture.codes.contains_key(v)
                ==> collisions((filter->0).0, picture.codes[v]) >= (filter->0).1;
            &&& entries.contains(v) ==> now.visited.contains(v)
            &&& entries.contains(v) <==> first.pending.contains(v)
            &&& now.visited.contains(v) ==> next.visited.contains(v)
            &&& now.want matches Want::Neighbors(u) ==> {
                &&& next.visited.contains(v) <==> now.visited.contains(v) || ((picture.neighbors)(
                    u,
                ).contains(v) && passes)
                &&& next.pending.contains(v) <==> !now.visited.contains(v) && (picture.neighbors)(
                    u,
                ).contains(v) && passes
            }
            &&& now.want matches Want::Distance(u) ==> {
                &&& next.visited == now.visited
                &&& next.pending.contains(v) <==> now.pending.contains(v) && v != u
            }
            &&& now.pending.contains(v) ==> now.want is Distance
            &&& now.want is Distance <==> now.pending.len() > 0
        }),
{
    let first = SearchModel::start(layer, ef, filter, entries);
    let now = after(first, picture, replies);
    let next = after(first, picture, replies + 1);
    every_state_is_steady(picture, layer, ef, filter, entries, Set::empty(), replies);
    every_state_is_steady(picture, layer, ef, filter, entries, Set::empty(), replies + 1);
    lemma_fresh(entries, Set::empty());
    assert(first.pending == fresh(entries, Set::empty()));
    assert(entries.to_set().contains(v) <==> entries.contains(v));
    if let Want::Neighbors(u) = now.want {
        let list = links(now, picture, u);
        links_are_the_neighbors_that_pass(now, picture, u, v);
        lemma_fresh(list, now.visited);
        assert(list.to_set().contains(v) <==> list.contains(v));
        assert(next.pending == fresh(list, now.visited));
    }
    if let Want::Distance(u) = now.want {
        let rest = now.pending.drop_first();
        assert(next.pending == rest);
        if rest.contains(v) {
            let i = choose|i: int| 0 <= i < rest.len() && rest[i] == v;
            assert(now.pending[i + 1] == v);
        }
        if now.pending.contains(v) && v != u {
            let i = choose|i: int| 0 <= i < now.pending.len() && now.pending[i] == v;
            assert(rest[i - 1] == v);
        }
    }
}

/// What becomes of the results, step by step. A result, or a node that has just been
/// measured and is near enough, is among the results after the step, unless there are
/// then `ef` results and none of them is farther. Nothing else gets among them.
pub proof fn results_only_get_nearer(
    picture: LayerPicture,
    layer: LayerId,
    ef: nat,
    filter: Option<(Seq<bool>, nat)>,
    entries: Seq<NodeId>,
    replies: nat,
    c: Candidate,
)
    requires
        ef > 0,
    ensures
        ({
            let first = SearchModel::start(layer, ef, filter, entries);
            let now = after(first, picture, replies);
            let next = after(first, picture, replies + 1);
            let joins = now.want == Want::Distance(c.id) && (picture.distance)(c.id) == Some(
                c.distance,
            ) && (entries.contains(c.id) || now.results.len() < ef || (now.results.len() > 0
                && c.distance.below(now.results.last().distance)));
            &&& now.results.contains(c) || joins ==> next.results.contains(c) || (
            next.results.len() == ef && forall|i: int|
                0 <= i < ef ==> (#[trigger] next.results[i]).distance.rank() <= c.distance.rank())
            &&& next.results.contains(c) ==> now.results.contains(c) || joins
        }),
{
    let first = SearchModel::start(layer, ef, filter, entries);
    let now = after(first, picture, replies);
    let next = after(first, picture, replies + 1);
    let mid = unsettled(now, picture);
    every_state_is_steady(picture, layer, ef, filter, entries, Set::empty(), replies);
    let joins = now.want == Want::Distance(c.id) && (picture.distance)(c.id) == Some(c.distance)
        && (entries.contains(c.id) || now.results.len() < ef || (now.results.len() > 0
        && c.distance.below(now.results.last().distance)));
    if now.want == Want::Nothing {
        assert(next == now);
    } else {
        assert(next == mid.settled());
        let all = match now.want {
            Want::Distance(v) => match (picture.distance)(v) {
                Some(d) if now.admits(d) => placed(now.results, Candidate { id: v, distance: d }),
                _ => now.results,
            },
            _ => now.results,
        };
        if let Want::Distance(v) = now.want {
            assert(now.pending.contains(now.pending[0]));
            if entries.contains(v) {
                lemma_undercut(picture, layer, ef, filter, entries, v, replies);
            }
            lemma_entries_seed(picture, layer, ef, filter, entries, replies);
            if let Some(d) = (picture.distance)(v) {
                lemma_placed_contains(now.results, Candidate { id: v, distance: d });
                placing_keeps_order(now.results, Candidate { id: v, distance: d });
            }
        }
        assert(in_order(all));
        assert(all.contains(c) <==> now.results.contains(c) || joins);
        if all.contains(c) {
            lemma_kept_or_beaten(all, ef, c);
        }
        let cut = at_most(all, ef);
        assert(at_most(cut, ef) == cut);
        assert(next.results == all || next.results == cut);
        if next.results.contains(c) {
            let i = choose|i: int| 0 <= i < next.results.len() && next.results[i] == c;
            assert(all[i] == c);
        }
    }
}

/// Only entry points are measured while a search seeds itself.
proof fn lemma_entries_seed(
    picture: LayerPicture,
    layer: LayerId,
    ef: nat,
    filter: Option<(Seq<bool>, nat)>,
    entries: Seq<NodeId>,
    replies: nat,
)
    ensures
        ({
            let now = after(SearchModel::start(layer, ef, filter, entries), picture, replies);
            now.seeding ==> forall|v: NodeId| #[trigger]
                now.pending.contains(v) ==> entries.contains(v)
        }),
    decreases replies,
{
    let first = SearchModel::start(layer, ef, filter, entries);
    if replies == 0 {
        lemma_fresh(entries, Set::empty());
    } else {
        let n = (replies - 1) as nat;
        let before = after(first, picture, n);
        let now = after(first, picture, replies);
        lemma_entries_seed(picture, layer, ef, filter, entries, n);
        every_state_is_steady(picture, layer, ef, filter, entries, Set::empty(), n);
        lemma_seeding(picture, layer, ef, filter, entries, n);
        assert forall|v: NodeId| now.seeding && #[trigger] now.pending.contains(
            v,
        ) implies entries.contains(v) by {
            let i = choose|i: int| 0 <= i < now.pending.len() && now.pending[i] == v;
            if before.want is Distance {
                assert(now.pending == before.pending.drop_first());
                assert(before.pending[i + 1] == v);
                assert(before.pending.contains(v));
            }
        }
    }
}

/// A search that looks around nodes seeds itself no more.
proof fn lemma_seeding(
    picture: LayerPicture,
    layer: LayerId,
    ef: nat,
    filter: Option<(Seq<bool>, nat)>,
    entries: Seq<NodeId>,
    replies: nat,
)
    ensures
        ({
            let now = after(SearchModel::start(layer, ef, filter, entries), picture, replies);
            !(now.want is Distance) ==> !now.seeding
        }),
    decreases replies,
{
    if replies > 0 {
        let n = (replies - 1) as nat;
        lemma_seeding(picture, layer, ef, filter, entries, n);
        every_state_is_steady(picture, layer, ef, filter, entries, Set::empty(), n);
    }
}

} // verus!
