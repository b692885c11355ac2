//! The choice of a new node's neighbours.
//!
//! Candidates come nearest first. One is taken unless it lies nearer to a
//! candidate that was already taken than to the node itself: neighbours should
//! be near the node but not crowd each other.

use vstd::prelude::*;

use crate::ranking::{ids, Candidate};
use crate::scalar::Scalar;
use crate::types::NodeId;

verus! {

/// What a selection waits for.
#[derive(Clone, Copy, Debug, PartialEq, Eq, Structural)]
pub enum Doubt {
    /// Whether a node has a vector.
    Presence(NodeId),
    /// The distance between two nodes.
    Distance {
        /// The candidate.
        from: NodeId,
        /// A node that was taken before.
        to: NodeId,
    },
    /// Nothing: the selection is over.
    Nothing,
}

/// The state of a selection.
#[verifier::ext_equal]
pub struct SelectionModel {
    /// The candidates, in the order in which they are considered.
    pub candidates: Seq<Candidate>,
    /// The largest number of nodes to take.
    pub max: nat,
    /// The position of the candidate under consideration.
    pub at: nat,
    /// The position of the taken node that it is compared with.
    pub against: nat,
    /// The nodes taken so far.
    pub chosen: Seq<NodeId>,
    /// What the selection waits for.
    pub doubt: Doubt,
}

impl SelectionModel {
    /// The selection as it starts.
    pub open spec fn start(candidates: Seq<Candidate>, max: nat) -> SelectionModel {
        SelectionModel {
            candidates,
            max,
            at: 0,
            against: 0,
            chosen: Seq::empty(),
            doubt: Doubt::Nothing,
        }.considering()
    }

    /// The selection as it turns to the candidate at its position, if it has
    /// room for it.
    pub open spec fn considering(self) -> SelectionModel {
        if self.chosen.len() >= self.max || self.at >= self.candidates.len() {
            SelectionModel { doubt: Doubt::Nothing, ..self }
        } else {
            SelectionModel {
                doubt: Doubt::Presence(self.candidates[self.at as int].id),
                ..self
            }
        }
    }

    /// The selection without the candidate under consideration.
    pub open spec fn passed_over(self) -> SelectionModel {
        SelectionModel { at: self.at + 1, ..self }.considering()
    }

    /// The selection with the candidate under consideration.
    pub open spec fn taken(self) -> SelectionModel {
        SelectionModel {
            at: self.at + 1,
            chosen: self.chosen.push(self.candidates[self.at as int].id),
            ..self
        }.considering()
    }

    /// The selection after it is known whether the candidate has a vector. One
    /// without is passed over, one with nothing to compare it to is taken.
    pub open spec fn known(self, present: bool) -> SelectionModel {
        if !(self.doubt is Presence) || self.at >= self.candidates.len() {
            self
        } else if !present {
            self.passed_over()
        } else if self.chosen.len() == 0 {
            self.taken()
        } else {
            SelectionModel {
                against: 0,
                doubt: Doubt::Distance {
                    from: self.candidates[self.at as int].id,
                    to: self.chosen[0],
                },
                ..self
            }
        }
    }

    /// The selection after the candidate's distance to a taken node has arrived.
    /// One that is nearer to it than to the new node is passed over, one that
    /// has been compared with all is taken.
    pub open spec fn compared(self, distance: Option<Scalar>) -> SelectionModel {
        if !(self.doubt is Distance) || self.at >= self.candidates.len() || self.against
            >= self.chosen.len() {
            self
        } else if nearer(distance, self.candidates[self.at as int].distance) {
            self.passed_over()
        } else if self.against + 1 < self.chosen.len() {
            SelectionModel {
                against: self.against + 1,
                doubt: Doubt::Distance {
                    from: self.candidates[self.at as int].id,
                    to: self.chosen[self.against as int + 1],
                },
                ..self
            }
        } else {
            self.taken()
        }
    }
}

/// A choice of neighbours in progress.
pub struct Selection {
    candidates: Vec<Candidate>,
    max: usize,
    at: usize,
    against: usize,
    chosen: Vec<NodeId>,
    doubt: Doubt,
}

impl View for Selection {
    type V = SelectionModel;

    closed spec fn view(&self) -> SelectionModel {
        SelectionModel {
            candidates: self.candidates@,
            max: self.max as nat,
            at: self.at as nat,
            against: self.against as nat,
            chosen: self.chosen@,
            doubt: self.doubt,
        }
    }
}

impl Selection {
    /// Starts to choose at most `max` of the candidates.
    pub fn new(candidates: Vec<Candidate>, max: usize) -> (selection: Self)
        ensures
            selection@ == SelectionModel::start(candidates@, max as nat),
    {
        let mut selection = Selection {
            candidates,
            max,
            at: 0,
            against: 0,
            chosen: Vec::new(),
            doubt: Doubt::Nothing,
        };
        selection.consider();
        selection
    }

    /// Turns to the candidate at the current position.
    fn consider(&mut self)
        ensures
            final(self)@ == old(self)@.considering(),
    {
        if self.chosen.len() >= self.max || self.at >= self.candidates.len() {
            self.doubt = Doubt::Nothing;
        } else {
            self.doubt = Doubt::Presence(self.candidates[self.at].id);
        }
    }

    /// Moves on, with or without the candidate under consideration.
    fn decide(&mut self, take: bool)
        requires
            old(self)@.at < old(self)@.candidates.len(),
        ensures
            final(self)@ == if take {
                old(self)@.taken()
            } else {
                old(self)@.passed_over()
            },
    {
        if take {
            let id: NodeId = self.candidates[self.at].id;
            self.chosen.push(id);
        }
        assert(self.at < self.candidates.len());
        self.at = self.at + 1;
        self.consider();
    }

    /// Takes the news whether the candidate has a vector. News that was not
    /// asked for changes nothing.
    pub fn on_presence(&mut self, present: bool)
        ensures
            final(self)@ == old(self)@.known(present),
    {
        match self.doubt {
            Doubt::Presence(_) => {},
            _ => {
                return;
            },
        }
        if self.at >= self.candidates.len() {
            return;
        }
        if !present {
            self.decide(false);
        } else if self.chosen.len() == 0 {
            self.decide(true);
        } else {
            self.against = 0;
            self.doubt = Doubt::Distance { from: self.candidates[self.at].id, to: self.chosen[0] };
        }
    }

    /// Takes the distance between the candidate and a taken node, if that node
    /// has a vector. A distance that was not asked for changes nothing.
    pub fn on_distance(&mut self, distance: Option<Scalar>)
        ensures
            final(self)@ == old(self)@.compared(distance),
    {
        match self.doubt {
            Doubt::Distance { from: _, to: _ } => {},
            _ => {
                return;
            },
        }
        if self.at >= self.candidates.len() || self.against >= self.chosen.len() {
            return;
        }
        let crowded = match distance {
            Some(d) => d.is_below(self.candidates[self.at].distance),
            None => false,
        };
        if crowded {
            self.decide(false);
        } else if self.against + 1 < self.chosen.len() {
            self.against = self.against + 1;
            self.doubt = Doubt::Distance {
                from: self.candidates[self.at].id,
                to: self.chosen[self.against],
            };
        } else {
            self.decide(true);
        }
    }

    /// What the selection waits for.
    pub fn doubt(&self) -> (doubt: Doubt)
        ensures
            doubt == self@.doubt,
    {
        self.doubt
    }

    /// The nodes taken so far, in order.
    pub fn chosen(&self) -> (chosen: &Vec<NodeId>)
        ensures
            chosen@ == self@.chosen,
    {
        &self.chosen
    }
}

/// The nodes as a selection sees them.
pub struct Surroundings {
    /// The nodes that have vectors.
    pub present: Set<NodeId>,
    /// The distance between two nodes, if both have vectors.
    pub distance: spec_fn(NodeId, NodeId) -> Option<Scalar>,
}

/// A distance is known and below a bound.
pub open spec fn nearer(distance: Option<Scalar>, bound: Scalar) -> bool {
    distance is Some && (distance->0).below(bound)
}

/// The candidate lies nearer to one of the taken nodes than to the new node.
pub open spec fn crowded(around: Surroundings, c: Candidate, taken: Seq<NodeId>) -> bool {
    exists|j: int|
        0 <= j < taken.len() && nearer(#[trigger] (around.distance)(c.id, taken[j]), c.distance)
}

/// The nodes taken of a list of candidates: each that has a vector and is not
/// crowded by those taken before it, until there are `max`.
pub open spec fn selected(around: Surroundings, candidates: Seq<Candidate>, max: nat) -> Seq<
    NodeId,
>
    decreases candidates.len(),
{
    if candidates.len() == 0 {
        Seq::empty()
    } else {
        let before = selected(around, candidates.drop_last(), max);
        let c = candidates.last();
        if before.len() < max && around.present.contains(c.id) && !crowded(around, c, before) {
            before.push(c.id)
        } else {
            before
        }
    }
}

/// The selection after its doubt has been resolved truthfully.
pub open spec fn resolved(selection: SelectionModel, around: Surroundings) -> SelectionModel {
    match selection.doubt {
        Doubt::Presence(id) => selection.known(around.present.contains(id)),
        Doubt::Distance { from, to } => selection.compared((around.distance)(from, to)),
        Doubt::Nothing => selection,
    }
}

/// The selection after `replies` of its doubts have been resolved.
pub open spec fn resolved_times(
    selection: SelectionModel,
    around: Surroundings,
    replies: nat,
) -> SelectionModel
    decreases replies,
{
    if replies == 0 {
        selection
    } else {
        resolved(resolved_times(selection, around, (replies - 1) as nat), around)
    }
}

/// The state is what the rule gives for the candidates considered so far.
pub open spec fn on_course(selection: SelectionModel, around: Surroundings) -> bool {
    &&& selection.at <= selection.candidates.len()
    &&& selection.chosen == selected(
        around,
        selection.candidates.take(selection.at as int),
        selection.max,
    )
    &&& match selection.doubt {
        Doubt::Presence(id) => {
            &&& selection.at < selection.candidates.len()
            &&& selection.chosen.len() < selection.max
            &&& id == selection.candidates[selection.at as int].id
        },
        Doubt::Distance { from, to } => {
            let c = selection.candidates[selection.at as int];
            &&& selection.at < selection.candidates.len()
            &&& selection.chosen.len() < selection.max
            &&& selection.against < selection.chosen.len()
            &&& from == c.id
            &&& to == selection.chosen[selection.against as int]
            &&& around.present.contains(c.id)
            &&& forall|j: int|
                0 <= j < selection.against ==> !nearer(
                    #[trigger] (around.distance)(c.id, selection.chosen[j]),
                    c.distance,
                )
        },
        Doubt::Nothing => selection.at == selection.candidates.len() || selection.chosen.len()
            >= selection.max,
    }
}

proof fn lemma_resolved(selection: SelectionModel, around: Surroundings)
    requires
        on_course(selection, around),
    ensures
        on_course(resolved(selection, around), around),
{
    if selection.doubt != Doubt::Nothing {
        let c = selection.candidates[selection.at as int];
        let more = selection.candidates.take(selection.at as int + 1);
        assert(more.drop_last() =~= selection.candidates.take(selection.at as int));
        assert(more.last() == c);
        if selection.doubt is Distance {
            let reply = (around.distance)(c.id, selection.chosen[selection.against as int]);
            if reply is Some && (reply->0).below(c.distance) {
                assert(crowded(around, c, selection.chosen));
            }
        }
    }
}

proof fn lemma_full(around: Surroundings, candidates: Seq<Candidate>, max: nat, at: int)
    requires
        0 <= at <= candidates.len(),
        selected(around, candidates.take(at), max).len() >= max,
    ensures
        selected(around, candidates, max) == selected(around, candidates.take(at), max),
    decreases candidates.len(),
{
    if at < candidates.len() {
        assert(candidates.drop_last().take(at) =~= candidates.take(at));
        lemma_full(around, candidates.drop_last(), max, at);
    } else {
        assert(candidates.take(at) =~= candidates);
    }
}

/// A finished selection has taken exactly the nodes that the rule names.
pub proof fn finished_selection_follows_the_rule(
    around: Surroundings,
    candidates: Seq<Candidate>,
    max: nat,
    replies: nat,
)
    ensures
        ({
            let end = resolved_times(SelectionModel::start(candidates, max), around, replies);
            &&& on_course(end, around)
            &&& end.candidates == candidates && end.max == max
            &&& end.doubt == Doubt::Nothing ==> end.chosen == selected(around, candidates, max)
        }),
    decreases replies,
{
    let end = resolved_times(SelectionModel::start(candidates, max), around, replies);
    if replies == 0 {
        assert(candidates.take(0) =~= Seq::<Candidate>::empty());
    } else {
        finished_selection_follows_the_rule(around, candidates, max, (replies - 1) as nat);
        lemma_resolved(
            resolved_times(SelectionModel::start(candidates, max), around, (replies - 1) as nat),
            around,
        );
    }
    if end.doubt == Doubt::Nothing {
        if end.at == candidates.len() {
            assert(candidates.take(end.at as int) =~= candidates);
        } else {
            lemma_full(around, candidates, max, end.at as int);
        }
    }
}

/// The rule takes at most `max` of the candidates, only ones with vectors, and
/// none twice if none is given twice.
pub proof fn selected_nodes(around: Surroundings, candidates: Seq<Candidate>, max: nat)
    ensures
        selected(around, candidates, max).len() <= max,
        forall|i: int|
            0 <= i < selected(around, candidates, max).len() ==> {
                &&& around.present.contains(#[trigger] selected(around, candidates, max)[i])
                &&& ids(candidates).contains(selected(around, candidates, max)[i])
            },
        ids(candidates).no_duplicates() ==> selected(around, candidates, max).no_duplicates(),
    decreases candidates.len(),
{
    if candidates.len() > 0 {
        let rest = candidates.drop_last();
        let c = candidates.last();
        selected_nodes(around, rest, max);
        let before = selected(around, rest, max);
        let now = selected(around, candidates, max);
        assert(ids(candidates) =~= ids(rest).push(c.id));
        assert forall|i: int| 0 <= i < now.len() implies {
            &&& around.present.contains(#[trigger] now[i])
            &&& ids(candidates).contains(now[i])
        } by {
            if i < before.len() {
                assert(now[i] == before[i]);
                let k = choose|k: int| 0 <= k < ids(rest).len() && ids(rest)[k] == before[i];
                assert(ids(candidates)[k] == now[i]);
            } else {
                assert(ids(candidates)[rest.len() as int] == now[i]);
            }
        }
        if ids(candidates).no_duplicates() {
            assert(ids(rest).no_duplicates()) by {
                assert forall|i: int, j: int|
                    0 <= i < rest.len() && 0 <= j < rest.len() && i != j implies ids(rest)[i]
                    != ids(rest)[j] by {
                    assert(ids(candidates)[i] != ids(candidates)[j]);
                }
            }
            if before.contains(c.id) {
                let i = choose|i: int| 0 <= i < before.len() && before[i] == c.id;
                assert(ids(rest).contains(before[i]));
                let k = choose|k: int| 0 <= k < ids(rest).len() && ids(rest)[k] == c.id;
                assert(ids(candidates)[k] == ids(candidates)[rest.len() as int]);
            }
        }
    }
}

/// Nothing crowds the first candidate: if it has a vector and there is room, the
/// rule takes a node.
pub proof fn nearest_candidate_is_selected(
    around: Surroundings,
    candidates: Seq<Candidate>,
    max: nat,
)
    requires
        candidates.len() > 0,
        max > 0,
        around.present.contains(candidates[0].id),
    ensures
        selected(around, candidates, max).len() > 0,
        selected(around, candidates, max)[0] == candidates[0].id,
    decreases candidates.len(),
{
    let rest = candidates.drop_last();
    if rest.len() > 0 {
        nearest_candidate_is_selected(around, rest, max);
    } else {
        assert(selected(around, rest, max) == Seq::<NodeId>::empty());
        assert(!crowded(around, candidates.last(), Seq::empty()));
    }
}

/// The places that the rule takes of a list of candidates.
pub proof fn lemma_places(around: Surroundings, candidates: Seq<Candidate>, max: nat) -> (places: Seq<
    int,
>)
    ensures
        ({
            let chosen = selected(around, candidates, max);
            &&& places.len() == chosen.len() <= max
            &&& forall|i: int|
                0 <= i < places.len() ==> {
                    &&& 0 <= #[trigger] places[i] < candidates.len()
                    &&& chosen[i] == candidates[places[i]].id
                    &&& around.present.contains(chosen[i])
                }
            &&& forall|i: int, j: int|
                0 <= i < j < places.len() ==> #[trigger] places[i] < #[trigger] places[j]
            &&& forall|i: int, j: int|
                0 <= i < j < places.len() ==> match #[trigger] (around.distance)(
                    chosen[j],
                    chosen[i],
                ) {
                    Some(d) => !d.below(candidates[places[j]].distance),
                    None => true,
                }
            &&& forall|p: int|
                0 <= p < candidates.len() && around.present.contains(
                    (#[trigger] candidates[p]).id,
                ) && !places.contains(p) ==> {
                    ||| chosen.len() == max && (forall|i: int|
                        0 <= i < places.len() ==> #[trigger] places[i] < p)
                    ||| exists|i: int|
                        0 <= i < places.len() && places[i] < p && ((#[trigger] (around.distance)(
                            candidates[p].id,
                            chosen[i],
                        )) matches Some(d) && d.below(candidates[p].distance))
                }
        }),
    decreases candidates.len(),
{
    if candidates.len() == 0 {
        Seq::empty()
    } else {
        let rest = candidates.drop_last();
        let last = candidates.len() - 1;
        let c = candidates.last();
        let earlier = lemma_places(around, rest, max);
        let before = selected(around, rest, max);
        let chosen = selected(around, candidates, max);
        let takes = before.len() < max && around.present.contains(c.id) && !crowded(
            around,
            c,
            before,
        );
        let places = if takes {
            earlier.push(last)
        } else {
            earlier
        };
        assert forall|i: int| 0 <= i < places.len() implies {
            &&& 0 <= #[trigger] places[i] < candidates.len()
            &&& chosen[i] == candidates[places[i]].id
            &&& around.present.contains(chosen[i])
        } by {
            if i < earlier.len() {
                assert(places[i] == earlier[i]);
                assert(candidates[earlier[i]] == rest[earlier[i]]);
            }
        }
        assert forall|i: int, j: int| 0 <= i < j < places.len() implies #[trigger] places[i]
            < #[trigger] places[j] by {
            assert(places[i] == earlier[i]);
            if j < earlier.len() {
                assert(places[j] == earlier[j]);
            }
        }
        assert forall|i: int, j: int| 0 <= i < j < places.len() implies match #[trigger] (
        around.distance)(chosen[j], chosen[i]) {
            Some(d) => !d.below(candidates[places[j]].distance),
            None => true,
        } by {
            assert(chosen[i] == before[i]);
            if j < earlier.len() {
                assert(chosen[j] == before[j]);
                assert(places[j] == earlier[j]);
            } else {
                assert(!nearer((around.distance)(c.id, before[i]), c.distance));
            }
        }
        assert forall|p: int|
            0 <= p < candidates.len() && around.present.contains((#[trigger] candidates[p]).id)
                && !places.contains(p) implies {
            ||| chosen.len() == max && (forall|i: int|
                0 <= i < places.len() ==> #[trigger] places[i] < p)
            ||| exists|i: int|
                0 <= i < places.len() && places[i] < p && ((#[trigger] (around.distance)(
                    candidates[p].id,
                    chosen[i],
                )) matches Some(d) && d.below(candidates[p].distance))
        } by {
            if p < last {
                assert(rest[p] == candidates[p]);
                assert(!earlier.contains(p)) by {
                    if earlier.contains(p) {
                        let i = choose|i: int| 0 <= i < earlier.len() && earlier[i] == p;
                        assert(places[i] == p);
                    }
                }
                if !(before.len() == max && (forall|i: int|
                    0 <= i < earlier.len() ==> #[trigger] earlier[i] < p)) {
                    let i = choose|i: int|
                        0 <= i < earlier.len() && earlier[i] < p && ((#[trigger] (around.distance)(
                            rest[p].id,
                            before[i],
                        )) matches Some(d) && d.below(rest[p].distance));
                    assert(places[i] == earlier[i] && chosen[i] == before[i]);
                    assert((around.distance)(candidates[p].id, chosen[i]) is Some);
                }
            } else {
                if takes {
                    assert(places[earlier.len() as int] == p);
                }
                if before.len() < max {
                    let j = choose|j: int|
                        0 <= j < before.len() && nearer(
                            #[trigger] (around.distance)(c.id, before[j]),
                            c.distance,
                        );
                    assert(earlier[j] < last);
                    assert((around.distance)(candidates[p].id, chosen[j]) is Some);
                } else {
                    assert forall|i: int| 0 <= i < places.len() implies #[trigger] places[i]
                        < p by {
                        assert(places[i] == earlier[i]);
                    }
                }
            }
        }
        places
    }
}

/// The chosen nodes do not crowd each other, and none is left out without need. A
/// finished selection has chosen, in their order, the candidates at certain places.
/// Each of them has a vector, and lies no nearer to any node chosen before it than to
/// the new node. Each candidate with a vector that was left out lies nearer to some
/// node chosen before it than to the new node, unless all the room was taken before it.
pub proof fn chosen_nodes_keep_their_distance(
    around: Surroundings,
    candidates: Seq<Candidate>,
    max: nat,
    replies: nat,
) -> (places: Seq<int>)
    requires
        resolved_times(SelectionModel::start(candidates, max), around, replies).doubt
            == Doubt::Nothing,
    ensures
        ({
            let chosen = resolved_times(
                SelectionModel::start(candidates, max),
                around,
                replies,
            ).chosen;
            &&& places.len() == chosen.len() <= max
            &&& forall|i: int|
                0 <= i < places.len() ==> {
                    &&& 0 <= #[trigger] places[i] < candidates.len()
                    &&& chosen[i] == candidates[places[i]].id
                    &&& around.present.contains(chosen[i])
                }
            &&& forall|i: int, j: int|
                0 <= i < j < places.len() ==> #[trigger] places[i] < #[trigger] places[j]
            &&& forall|i: int, j: int|
                0 <= i < j < places.len() ==> match #[trigger] (around.distance)(
                    chosen[j],
                    chosen[i],
                ) {
                    Some(d) => !d.below(candidates[places[j]].distance),
                    None => true,
                }
            &&& forall|p: int|
                0 <= p < candidates.len() && around.present.contains(
                    (#[trigger] candidates[p]).id,
                ) && !places.contains(p) ==> {
                    ||| chosen.len() == max && (forall|i: int|
                        0 <= i < places.len() ==> #[trigger] places[i] < p)
                    ||| exists|i: int|
                        0 <= i < places.len() && places[i] < p && ((#[trigger] (around.distance)(
                            candidates[p].id,
                            chosen[i],
                        )) matches Some(d) && d.below(candidates[p].distance))
                }
        }),
{
    finished_selection_follows_the_rule(around, candidates, max, replies);
    lemma_places(around, candidates, max)
}

} // verus!
