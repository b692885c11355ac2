//! Distances from one node to a list of others.

use vstd::prelude::*;

use crate::ranking::{
    at_most,
    ids,
    lemma_ranked_are_given,
    nearest,
    nearest_are_given,
    nearest_ids,
    pruning_keeps_the_nearest,
    ranked,
    ranking_is_a_stable_sort,
    Candidate,
};
use crate::scalar::Scalar;
use crate::types::NodeId;

verus! {

/// The state of a scoring.
#[verifier::ext_equal]
pub struct ScoringModel {
    /// The node from which distances are taken.
    pub from: NodeId,
    /// The nodes to score.
    pub list: Seq<NodeId>,
    /// The number of nodes that are done.
    pub at: nat,
    /// The scores so far.
    pub scored: Seq<Candidate>,
}

impl ScoringModel {
    /// The scoring as it starts.
    pub open spec fn start(from: NodeId, list: Seq<NodeId>) -> ScoringModel {
        ScoringModel { from, list, at: 0, scored: Seq::empty() }
    }

    /// Every node is done.
    pub open spec fn over(self) -> bool {
        self.at >= self.list.len()
    }

    /// The scoring after a distance has arrived; none arrives for a node without
    /// a vector.
    pub open spec fn told(self, distance: Option<Scalar>) -> ScoringModel {
        if self.over() {
            self
        } else {
            ScoringModel {
                at: self.at + 1,
                scored: match distance {
                    Some(d) => self.scored.push(
                        Candidate { id: self.list[self.at as int], distance: d },
                    ),
                    None => self.scored,
                },
                ..self
            }
        }
    }
}

/// A scoring in progress.
pub struct Scoring {
    from: NodeId,
    list: Vec<NodeId>,
    at: usize,
    scored: Vec<Candidate>,
}

impl View for Scoring {
    type V = ScoringModel;

    closed spec fn view(&self) -> ScoringModel {
        ScoringModel {
            from: self.from,
            list: self.list@,
            at: self.at as nat,
            scored: self.scored@,
        }
    }
}

impl Scoring {
    /// Starts to score a list from a node.
    pub fn new(from: NodeId, list: Vec<NodeId>) -> (scoring: Self)
        ensures
            scoring@ == ScoringModel::start(from, list@),
    {
        Scoring { from, list, at: 0, scored: Vec::new() }
    }

    /// The pair whose distance is wanted, if any is.
    pub fn wanted(&self) -> (pair: Option<(NodeId, NodeId)>)
        ensures
            pair == if self@.over() {
                None::<(NodeId, NodeId)>
            } else {
                Some((self@.from, self@.list[self@.at as int]))
            },
    {
        if self.at < self.list.len() {
            Some((self.from, self.list[self.at]))
        } else {
            None
        }
    }

    /// Takes the distance of the node that was asked for, if it has a vector. A
    /// distance that was not asked for changes nothing.
    pub fn on_distance(&mut self, distance: Option<Scalar>)
        ensures
            final(self)@ == old(self)@.told(distance),
    {
        if self.at < self.list.len() {
            let id: NodeId = self.list[self.at];
            if let Some(d) = distance {
                self.scored.push(Candidate { id, distance: d });
            }
            self.at = self.at + 1;
        }
    }

    /// The `max` nearest of the nodes scored so far, nearest first.
    pub fn nearest(&self, max: usize) -> (nodes: Vec<NodeId>)
        ensures
            nodes@ == nearest(self@.scored, max as nat),
    {
        nearest_ids(self.scored.as_slice(), max)
    }
}

/// The scores of the nodes of a list that have a distance, in their order.
pub open spec fn scores(list: Seq<NodeId>, distance: spec_fn(NodeId) -> Option<Scalar>) -> Seq<
    Candidate,
>
    decreases list.len(),
{
    if list.len() == 0 {
        Seq::empty()
    } else {
        let before = scores(list.drop_last(), distance);
        match distance(list.last()) {
            Some(d) => before.push(Candidate { id: list.last(), distance: d }),
            None => before,
        }
    }
}

/// The scores so far are those of the nodes that are done.
pub open spec fn accurate(scoring: ScoringModel, distance: spec_fn(NodeId) -> Option<Scalar>) -> bool {
    &&& scoring.at <= scoring.list.len()
    &&& scoring.scored == scores(scoring.list.take(scoring.at as int), distance)
}

/// A scoring that is told the truth is accurate throughout; when it is over it
/// holds the scores of the whole list.
pub proof fn scoring_stays_accurate(
    scoring: ScoringModel,
    distance: spec_fn(NodeId) -> Option<Scalar>,
)
    requires
        accurate(scoring, distance),
    ensures
        !scoring.over() ==> accurate(
            scoring.told(distance(scoring.list[scoring.at as int])),
            distance,
        ),
        scoring.over() ==> scoring.scored == scores(scoring.list, distance),
{
    if scoring.over() {
        assert(scoring.list.take(scoring.at as int) =~= scoring.list);
    } else {
        let more = scoring.list.take(scoring.at as int + 1);
        assert(more.drop_last() =~= scoring.list.take(scoring.at as int));
    }
}

/// Scored are the nodes of the list that have a distance, each at its distance,
/// and none twice unless it is listed twice.
pub proof fn scored_nodes_are_listed(
    list: Seq<NodeId>,
    distance: spec_fn(NodeId) -> Option<Scalar>,
)
    ensures
        forall|id: NodeId|
            #[trigger] ids(scores(list, distance)).contains(id) <==> list.contains(id) && distance(
                id,
            ) is Some,
        forall|i: int|
            0 <= i < scores(list, distance).len() ==> distance(
                (#[trigger] scores(list, distance)[i]).id,
            ) == Some(scores(list, distance)[i].distance),
        scores(list, distance).len() <= list.len(),
        list.no_duplicates() ==> ids(scores(list, distance)).no_duplicates(),
    decreases list.len(),
{
    if list.len() > 0 {
        let rest = list.drop_last();
        let last = list.last();
        scored_nodes_are_listed(rest, distance);
        let now = scores(list, distance);
        let before = scores(rest, distance);
        assert(distance(last) is Some ==> ids(now) =~= ids(before).push(last));
        assert forall|id: NodeId| #[trigger] ids(now).contains(id) <==> list.contains(id)
            && distance(id) is Some by {
            assert(list[list.len() - 1] == last);
            if rest.contains(id) {
                let k = choose|k: int| 0 <= k < rest.len() && rest[k] == id;
                assert(list[k] == id);
            }
            if list.contains(id) && id != last {
                let k = choose|k: int| 0 <= k < list.len() && list[k] == id;
                assert(rest[k] == id);
            }
            if ids(before).contains(id) {
                let k = choose|k: int| 0 <= k < ids(before).len() && ids(before)[k] == id;
                assert(ids(now)[k] == id);
            }
            if distance(last) is Some {
                assert(ids(now)[before.len() as int] == last);
            }
            if ids(now).contains(id) && id != last {
                let k = choose|k: int| 0 <= k < ids(now).len() && ids(now)[k] == id;
                assert(ids(before)[k] == id);
            }
        }
        if list.no_duplicates() {
            assert(!rest.contains(last)) by {
                if rest.contains(last) {
                    let k = choose|k: int| 0 <= k < rest.len() && rest[k] == last;
                    assert(list[k] == list[list.len() - 1]);
                }
            }
            assert(!ids(before).contains(last));
        }
    }
}

/// The nearest of the scored nodes are the nearest. Of a list that names none twice, those
/// are kept that have a distance, as many as there are or `max`, nearest first, none
/// twice, and none that is left out is nearer than one that is kept.
pub proof fn nearest_scored_are_the_nearest(
    list: Seq<NodeId>,
    distance: spec_fn(NodeId) -> Option<Scalar>,
    max: nat,
)
    requires
        list.no_duplicates(),
    ensures
        ({
            let kept = nearest(scores(list, distance), max);
            let all = Set::new(|v: NodeId| list.contains(v) && distance(v) is Some);
            &&& all.finite()
            &&& kept.no_duplicates()
            &&& kept.len() == if all.len() < max {
                all.len()
            } else {
                max
            }
            &&& forall|i: int| 0 <= i < kept.len() ==> all.contains(#[trigger] kept[i])
            &&& all.len() <= max ==> forall|v: NodeId|
                all.contains(v) ==> #[trigger] kept.contains(v)
            &&& forall|i: int, j: int|
                0 <= i <= j < kept.len() ==> (distance(#[trigger] kept[i])->0).rank() <= (distance(
                    #[trigger] kept[j],
                )->0).rank()
            &&& forall|v: NodeId, i: int|
                #![trigger kept[i], distance(v)]
                all.contains(v) && !kept.contains(v) && 0 <= i < kept.len() ==> (distance(
                    kept[i],
                )->0).rank() <= (distance(v)->0).rank()
        }),
{
    let scored = scores(list, distance);
    let sorted = ranked(scored);
    let cut = at_most(sorted, max);
    let kept = nearest(scored, max);
    let all = Set::new(|v: NodeId| list.contains(v) && distance(v) is Some);
    scored_nodes_are_listed(list, distance);
    nearest_are_given(scored, max);
    ranking_is_a_stable_sort(scored, 0);
    assert(ids(scored).to_set() =~= all);
    ids(scored).unique_seq_to_set();
    vstd::seq_lib::seq_to_set_is_finite(ids(scored));
    assert forall|i: int| 0 <= i < kept.len() implies all.contains(#[trigger] kept[i])
        && distance(kept[i]) == Some(cut[i].distance) by {
        lemma_ranked_are_given(scored, max, i);
        let n = choose|n: int| 0 <= n < scored.len() && scored[n] == cut[i];
        assert(ids(scored)[n] == kept[i]);
        assert(distance(scored[n].id) == Some(scored[n].distance));
    }
    assert forall|i: int, j: int| 0 <= i <= j < kept.len() implies (distance(
        #[trigger] kept[i],
    )->0).rank() <= (distance(#[trigger] kept[j])->0).rank() by {
        assert(sorted[i].rank() <= sorted[j].rank());
        assert(cut[i] == sorted[i] && cut[j] == sorted[j]);
    }
    assert forall|v: NodeId, i: int|
        #![trigger kept[i], distance(v)]
        all.contains(v) && !kept.contains(v) && 0 <= i < kept.len() implies (distance(
        kept[i],
    )->0).rank() <= (distance(v)->0).rank() by {
        assert(ids(scored).contains(v));
        let n = choose|n: int| 0 <= n < ids(scored).len() && ids(scored)[n] == v;
        let c = scored[n];
        assert(distance(c.id) == Some(c.distance));
        assert(scored.contains(c));
        pruning_keeps_the_nearest(scored, max, c);
        if cut.contains(c) {
            let m = choose|m: int| 0 <= m < cut.len() && cut[m] == c;
            assert(kept[m] == v);
        } else {
            assert(cut[i].rank() <= c.rank());
        }
    }
}

/// Scores come in the order of the list: the scores of two lists in a row are those of the
/// one, then those of the other.
pub proof fn scores_keep_the_order(
    a: Seq<NodeId>,
    b: Seq<NodeId>,
    distance: spec_fn(NodeId) -> Option<Scalar>,
)
    ensures
        scores(a + b, distance) == scores(a, distance) + scores(b, distance),
    decreases b.len(),
{
    if b.len() == 0 {
        assert(a + b =~= a);
        assert(scores(a, distance) + scores(b, distance) =~= scores(a, distance));
    } else {
        let rest = b.drop_last();
        scores_keep_the_order(a, rest, distance);
        assert((a + b).drop_last() =~= a + rest);
        assert((a + b).last() == b.last());
        assert(scores(a + b, distance) =~= scores(a, distance) + scores(b, distance));
    }
}

} // verus!
