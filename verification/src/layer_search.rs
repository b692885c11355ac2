//! The greedy search of one layer.
//!
//! The search needs distances, which come from vectors in a file, and
//! neighbour lists, which may come from a store. It therefore proceeds by
//! request and reply: it says what it wants, and each reply carries it to its
//! next want. It starts by measuring its entry points. From then on it takes the
//! nearest candidate that it has not looked at, measures the neighbours of that
//! candidate which it has not met before, and keeps those that are near enough.
//! It ends when no candidate is left, or when the nearest one is farther than
//! the farthest of a full set of results. Entry points all count as results at
//! first, even if they are more than the set should hold; in the end no more than
//! its size are left.

use std::collections::HashSet;

use vstd::prelude::*;

use crate::distinct::{fresh, take_fresh};
use crate::hash_code::HashCode;
use crate::ranking::{at_most, place, placed, Candidate};
use crate::scalar::Scalar;
use crate::simhash::{passing, SimHashSampler};
use crate::types::{LayerId, NodeId};

verus! {

broadcast use vstd::std_specs::hash::group_hash_axioms;

/// What a search waits for.
#[derive(Clone, Copy, Debug, PartialEq, Eq, Structural)]
pub enum Want {
    /// The distance of a node from the query.
    Distance(NodeId),
    /// The neighbours of a node at the layer being searched.
    Neighbors(NodeId),
    /// Nothing: the search is over.
    Nothing,
}

/// The largest finite number.
pub open spec fn largest() -> Scalar {
    Scalar { bits: 0x7f7f_ffff }
}

/// The state of a layer search.
#[verifier::ext_equal]
pub struct SearchModel {
    /// The layer being searched.
    pub layer: LayerId,
    /// The number of results that make a full set.
    pub ef: nat,
    /// The query's code and the collisions that a neighbour needs, if
    /// neighbours are filtered.
    pub filter: Option<(Seq<bool>, nat)>,
    /// Whether entry points are still being measured.
    pub seeding: bool,
    /// The nodes met so far.
    pub visited: Set<NodeId>,
    /// The nodes met but not measured yet, next one first.
    pub pending: Seq<NodeId>,
    /// The candidates whose neighbours have not been looked at, nearest first.
    pub frontier: Seq<Candidate>,
    /// The nearest nodes found so far, nearest first.
    pub results: Seq<Candidate>,
    /// What the search waits for.
    pub want: Want,
}

impl SearchModel {
    /// The search as it starts from its entry points.
    pub open spec fn start(
        layer: LayerId,
        ef: nat,
        filter: Option<(Seq<bool>, nat)>,
        entries: Seq<NodeId>,
    ) -> SearchModel {
        SearchModel {
            layer,
            ef,
            filter,
            seeding: true,
            visited: entries.to_set(),
            pending: fresh(entries, Set::empty()),
            frontier: Seq::empty(),
            results: Seq::empty(),
            want: Want::Nothing,
        }.settled()
    }

    /// A full set of results, all of them nearer than the nearest candidate.
    pub open spec fn exhausted(self) -> bool {
        ||| self.frontier.len() == 0
        ||| {
            &&& self.results.len() >= self.ef
            &&& self.results.len() > 0
            &&& self.frontier[0].rank() > self.results.last().rank()
        }
    }

    /// The search with its next want: the distance of the next pending node,
    /// else the neighbours of the nearest candidate, unless it is exhausted. Then it
    /// is over, and the nearest results stay.
    pub open spec fn settled(self) -> SearchModel {
        if self.pending.len() > 0 {
            SearchModel { want: Want::Distance(self.pending[0]), ..self }
        } else if self.exhausted() {
            SearchModel {
                seeding: false,
                results: at_most(self.results, self.ef),
                want: Want::Nothing,
                ..self
            }
        } else {
            SearchModel {
                seeding: false,
                frontier: self.frontier.drop_first(),
                want: Want::Neighbors(self.frontier[0].id),
                ..self
            }
        }
    }

    /// Whether a node at this distance is near enough to be followed. Entry
    /// points always are; a neighbour is if there is room for it, or if it is
    /// nearer than the farthest result.
    pub open spec fn admits(self, distance: Scalar) -> bool {
        ||| self.seeding
        ||| self.results.len() < self.ef
        ||| distance.below(
            if self.results.len() > 0 {
                self.results.last().distance
            } else {
                largest()
            },
        )
    }

    /// The search after the distance of the next pending node has arrived; none
    /// arrives for a node without a vector.
    pub open spec fn measured(self, distance: Option<Scalar>) -> SearchModel {
        if self.pending.len() == 0 {
            self
        } else {
            let rest = self.pending.drop_first();
            match distance {
                Some(d) if self.admits(d) => {
                    let found = Candidate { id: self.pending[0], distance: d };
                    SearchModel {
                        pending: rest,
                        frontier: placed(self.frontier, found),
                        results: if self.seeding {
                            placed(self.results, found)
                        } else {
                            at_most(placed(self.results, found), self.ef)
                        },
                        ..self
                    }.settled()
                },
                _ => SearchModel { pending: rest, ..self }.settled(),
            }
        }
    }

    /// The neighbours that are followed at all: at the bottom layer a filtered
    /// search drops those that do not pass its filter.
    pub open spec fn followed(
        self,
        codes: Map<NodeId, Seq<bool>>,
        neighbors: Seq<NodeId>,
    ) -> Seq<NodeId> {
        match self.filter {
            Some((code, threshold)) if self.layer == 0 => passing(codes, code, threshold, neighbors),
            _ => neighbors,
        }
    }

    /// The search after the neighbours of a candidate have arrived.
    pub open spec fn expanded(
        self,
        codes: Map<NodeId, Seq<bool>>,
        neighbors: Seq<NodeId>,
    ) -> SearchModel {
        if self.want is Neighbors {
            let followed = self.followed(codes, neighbors);
            SearchModel {
                pending: fresh(followed, self.visited),
                visited: self.visited.union(followed.to_set()),
                ..self
            }.settled()
        } else {
            self
        }
    }
}

/// A search of one layer.
pub struct LayerSearch {
    layer: LayerId,
    ef: usize,
    filter: Option<HashCode>,
    threshold: usize,
    seeding: bool,
    visited: HashSet<NodeId>,
    pending: Vec<NodeId>,
    frontier: Vec<Candidate>,
    results: Vec<Candidate>,
    want: Want,
}

impl View for LayerSearch {
    type V = SearchModel;

    closed spec fn view(&self) -> SearchModel {
        SearchModel {
            layer: self.layer,
            ef: self.ef as nat,
            filter: match self.filter {
                Some(code) => Some((code@, self.threshold as nat)),
                None => None,
            },
            seeding: self.seeding,
            visited: self.visited@,
            pending: self.pending@,
            frontier: self.frontier@,
            results: self.results@,
            want: self.want,
        }
    }
}

impl LayerSearch {
    /// Starts a search of `layer` from `entries` for at most `ef` results. With
    /// a filter, neighbours at the bottom layer must collide with its code at
    /// least `threshold` times.
    pub fn new(
        layer: LayerId,
        ef: usize,
        filter: Option<HashCode>,
        threshold: usize,
        entries: &[NodeId],
    ) -> (search: Self)
        ensures
            search@ == SearchModel::start(
                layer,
                ef as nat,
                match filter {
                    Some(code) => Some((code@, threshold as nat)),
                    None => None,
                },
                entries@,
            ),
    {
        let mut search = LayerSearch {
            layer,
            ef,
            filter,
            threshold,
            seeding: true,
            visited: HashSet::new(),
            pending: Vec::new(),
            frontier: Vec::new(),
            results: Vec::new(),
            want: Want::Nothing,
        };
        let ghost blank = search@;
        search.meet(entries);
        assert(Set::<NodeId>::empty().union(entries@.to_set()) =~= entries@.to_set());
        assert(search@ =~= SearchModel {
            visited: entries@.to_set(),
            pending: fresh(entries@, Set::empty()),
            ..blank
        });
        search.settle();
        search
    }

    /// Queues the nodes of a list that have not been met, and marks all met.
    fn meet(&mut self, list: &[NodeId])
        ensures
            final(self)@ == (SearchModel {
                pending: fresh(list@, old(self)@.visited),
                visited: old(self)@.visited.union(list@.to_set()),
                ..old(self)@
            }),
    {
        self.pending = take_fresh(list, &mut self.visited);
    }

    /// Chooses the next want.
    fn settle(&mut self)
        ensures
            final(self)@ == old(self)@.settled(),
    {
        if self.pending.len() > 0 {
            self.want = Want::Distance(self.pending[0]);
            return;
        }
        self.seeding = false;
        if self.frontier.len() == 0 {
            self.results.truncate(self.ef);
            assert(self.results@ =~= at_most(old(self)@.results, old(self)@.ef));
            self.want = Want::Nothing;
            return;
        }
        let nearest: Candidate = self.frontier[0];
        if self.results.len() >= self.ef && self.results.len() > 0 {
            let farthest: Candidate = self.results[self.results.len() - 1];
            if nearest.distance.order_key() > farthest.distance.order_key() {
                self.results.truncate(self.ef);
                assert(self.results@ =~= at_most(old(self)@.results, old(self)@.ef));
                self.want = Want::Nothing;
                return;
            }
        }
        self.frontier.remove(0);
        assert(self.frontier@ =~= old(self).frontier@.drop_first());
        self.want = Want::Neighbors(nearest.id);
    }

    /// Whether a node at this distance is near enough to be followed.
    fn is_admitted(&self, distance: Scalar) -> (admitted: bool)
        ensures
            admitted == self@.admits(distance),
    {
        if self.seeding || self.results.len() < self.ef {
            true
        } else if self.results.len() > 0 {
            distance.is_below(self.results[self.results.len() - 1].distance)
        } else {
            distance.is_below(Scalar { bits: 0x7f7f_ffff })
        }
    }

    /// Takes the distance of the node that was asked for, if it has a vector. A
    /// distance that was not asked for changes nothing.
    pub fn on_distance(&mut self, distance: Option<Scalar>)
        ensures
            final(self)@ == old(self)@.measured(distance),
    {
        if self.pending.len() == 0 {
            return;
        }
        let id: NodeId = self.pending.remove(0);
        assert(self.pending@ =~= old(self).pending@.drop_first());
        if let Some(d) = distance {
            if self.is_admitted(d) {
                let found = Candidate { id, distance: d };
                place(&mut self.frontier, found);
                place(&mut self.results, found);
                if !self.seeding {
                    self.results.truncate(self.ef);
                    assert(self.results@ =~= at_most(
                        placed(old(self)@.results, found),
                        old(self)@.ef,
                    ));
                }
            }
        }
        self.settle();
    }

    /// Takes the neighbours of the node that was asked for. Neighbours that were
    /// not asked for change nothing.
    pub fn on_neighbors(&mut self, sampler: &SimHashSampler, neighbors: &[NodeId])
        requires
            old(self)@.filter matches Some((code, _)) ==> code.len() == sampler@.num_bits,
            sampler@.uniform(),
        ensures
            final(self)@ == old(self)@.expanded(sampler@.codes, neighbors@),
    {
        match self.want {
            Want::Neighbors(_) => {},
            _ => {
                return;
            },
        }
        match &self.filter {
            Some(code) if self.layer == 0 => {
                let kept = sampler.filter_candidates(code, neighbors, self.threshold);
                self.meet(kept.as_slice());
            },
            _ => {
                self.meet(neighbors);
            },
        }
        self.settle();
    }

    /// The layer being searched.
    pub fn layer(&self) -> (layer: LayerId)
        ensures
            layer == self@.layer,
    {
        self.layer
    }

    /// What the search waits for.
    pub fn want(&self) -> (want: Want)
        ensures
            want == self@.want,
    {
        self.want
    }

    /// The results so far, nearest first.
    pub fn results(&self) -> (results: &Vec<Candidate>)
        ensures
            results@ == self@.results,
    {
        &self.results
    }
}

} // verus!
