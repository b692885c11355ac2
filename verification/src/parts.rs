//! The parts that operations are made of, in the terms of actions and replies.

use vstd::prelude::*;

use crate::layer_search::{LayerSearch, SearchModel, Want};
use crate::protocol::{Action, ActionModel, Reply, ReplyModel};
use crate::scoring::{Scoring, ScoringModel};
use crate::selection::{Doubt, Selection, SelectionModel};
use crate::simhash::SimHashSampler;
use crate::types::NodeId;

verus! {

/// The action that a layer search waits for.
pub open spec fn search_action(search: SearchModel) -> ActionModel {
    match search.want {
        Want::Distance(id) => ActionModel::Measure(id),
        Want::Neighbors(id) => ActionModel::GetNeighbors(id, search.layer),
        Want::Nothing => ActionModel::Proceed,
    }
}

/// The layer search after a reply; one that does not fit changes nothing.
pub open spec fn search_told(
    search: SearchModel,
    codes: Map<NodeId, Seq<bool>>,
    reply: ReplyModel,
) -> SearchModel {
    match (search.want, reply) {
        (Want::Distance(_), ReplyModel::Distance(distance)) => search.measured(distance),
        (Want::Neighbors(_), ReplyModel::Neighbors(list)) => search.expanded(codes, list),
        _ => search,
    }
}

/// The action that a selection waits for.
pub open spec fn selection_action(selection: SelectionModel) -> ActionModel {
    match selection.doubt {
        Doubt::Presence(id) => ActionModel::Probe(id),
        Doubt::Distance { from, to } => ActionModel::Compare(from, to),
        Doubt::Nothing => ActionModel::Proceed,
    }
}

/// The selection after a reply; one that does not fit changes nothing.
pub open spec fn selection_told(selection: SelectionModel, reply: ReplyModel) -> SelectionModel {
    match (selection.doubt, reply) {
        (Doubt::Presence(_), ReplyModel::Present(present)) => selection.known(present),
        (Doubt::Distance { .. }, ReplyModel::Distance(distance)) => selection.compared(distance),
        _ => selection,
    }
}

/// The action that a scoring waits for.
pub open spec fn scoring_action(scoring: ScoringModel) -> ActionModel {
    if scoring.over() {
        ActionModel::Proceed
    } else {
        ActionModel::Score(scoring.from, scoring.list[scoring.at as int])
    }
}

/// The scoring after a reply; one that does not fit changes nothing.
pub open spec fn scoring_told(scoring: ScoringModel, reply: ReplyModel) -> ScoringModel {
    match reply {
        ReplyModel::Distance(distance) => scoring.told(distance),
        _ => scoring,
    }
}

/// A filtered search compares codes of the given number of bits.
pub open spec fn filters_by(search: SearchModel, num_bits: nat) -> bool {
    search.filter matches Some((code, _)) ==> code.len() == num_bits
}

impl LayerSearch {
    /// The action that the search waits for.
    pub(crate) fn action(&self) -> (action: Action)
        ensures
            action@ == search_action(self@),
    {
        match self.want() {
            Want::Distance(id) => Action::Measure(id),
            Want::Neighbors(id) => Action::GetNeighbors { id, layer: self.layer() },
            Want::Nothing => Action::Proceed,
        }
    }

    /// Whether the search is over.
    pub(crate) fn is_over(&self) -> (over: bool)
        ensures
            over == (self@.want == Want::Nothing),
    {
        match self.want() {
            Want::Nothing => true,
            _ => false,
        }
    }

    /// Takes a reply.
    pub(crate) fn tell(&mut self, sampler: &SimHashSampler, reply: &Reply)
        requires
            filters_by(old(self)@, sampler@.num_bits),
            sampler@.uniform(),
        ensures
            final(self)@ == search_told(old(self)@, sampler@.codes, reply@),
            filters_by(final(self)@, sampler@.num_bits),
    {
        match (self.want(), reply) {
            (Want::Distance(_), Reply::Distance(distance)) => {
                self.on_distance(*distance);
            },
            (Want::Neighbors(_), Reply::Neighbors(list)) => {
                self.on_neighbors(sampler, list.as_slice());
            },
            _ => {},
        }
    }
}

impl Selection {
    /// The action that the selection waits for.
    pub(crate) fn action(&self) -> (action: Action)
        ensures
            action@ == selection_action(self@),
    {
        match self.doubt() {
            Doubt::Presence(id) => Action::Probe(id),
            Doubt::Distance { from, to } => Action::Compare { from, to },
            Doubt::Nothing => Action::Proceed,
        }
    }

    /// Whether the selection is over.
    pub(crate) fn is_over(&self) -> (over: bool)
        ensures
            over == (self@.doubt == Doubt::Nothing),
    {
        match self.doubt() {
            Doubt::Nothing => true,
            _ => false,
        }
    }

    /// Takes a reply.
    pub(crate) fn tell(&mut self, reply: &Reply)
        ensures
            final(self)@ == selection_told(old(self)@, reply@),
    {
        match (self.doubt(), reply) {
            (Doubt::Presence(_), Reply::Present(present)) => {
                self.on_presence(*present);
            },
            (Doubt::Distance { from: _, to: _ }, Reply::Distance(distance)) => {
                self.on_distance(*distance);
            },
            _ => {},
        }
    }
}

impl Scoring {
    /// The action that the scoring waits for.
    pub(crate) fn action(&self) -> (action: Action)
        ensures
            action@ == scoring_action(self@),
    {
        match self.wanted() {
            Some((from, to)) => Action::Score { from, to },
            None => Action::Proceed,
        }
    }

    /// Whether the scoring is over.
    pub(crate) fn is_over(&self) -> (over: bool)
        ensures
            over == self@.over(),
    {
        match self.wanted() {
            Some(_) => false,
            None => true,
        }
    }

    /// Takes a reply.
    pub(crate) fn tell(&mut self, reply: &Reply)
        ensures
            final(self)@ == scoring_told(old(self)@, reply@),
    {
        match reply {
            Reply::Distance(distance) => {
                self.on_distance(*distance);
            },
            _ => {},
        }
    }
}

} // verus!
