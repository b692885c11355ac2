//! The removal of a node from the graph.
//!
//! On each layer of the node, every neighbour that has a vector gets new edges:
//! the nearest of its other neighbours and of the node's other neighbours. Then
//! the node's own edges and its code go. A node may also be linked from nodes that
//! it does not link to itself, so all lists are gone through, and it is dropped
//! from each that still names it. At last its metadata goes, and if it was the
//! entry point, the highest of its neighbours at the bottom layer takes its place.

use std::collections::HashSet;

use vstd::prelude::*;

use crate::distinct::{copied, drop_node, dropped, fresh, take_fresh};
use crate::index::{HnswIndex, IndexModel, TOP_LEVEL};
use crate::parts::{scoring_action, scoring_told};
use crate::protocol::{Action, ActionModel, Reply, ReplyModel};
use crate::ranking::nearest;
use crate::scoring::{Scoring, ScoringModel};
use crate::types::{LayerId, NodeId, NodeMetadata};

verus! {

broadcast use vstd::std_specs::hash::group_hash_axioms;

/// Where a deletion stands.
#[derive(Clone, Copy, Debug, PartialEq, Eq, Structural)]
pub enum DeletionStage {
    /// It looks the node up.
    Lookup,
    /// It notes the neighbours at the bottom layer, for a new entry point.
    Ground,
    /// It reads the neighbours at a layer.
    Layer,
    /// It reads the edges of a neighbour.
    Fetch,
    /// It looks whether the neighbour has a vector.
    Probe,
    /// It scores the nodes that may become the neighbour's neighbours.
    Score,
    /// It writes the neighbour's new edges.
    Relink,
    /// It deletes the node's edges at the bottom layer.
    Cut,
    /// It asks how many vectors there are, and so which nodes.
    Count,
    /// It reads the edges of a node, to see whether they name the deleted one.
    Sweep,
    /// It writes them without the deleted node.
    Unlink,
    /// It deletes the node's metadata.
    Forget,
    /// It looks for a new entry point.
    Scan,
    /// It writes the new entry point.
    Crown,
    /// It deletes the entry point.
    Abandon,
    /// There is nothing left to do.
    Finished,
}

/// The nodes that may become neighbours of a node's neighbour: the node's
/// neighbours and the neighbour's own, but neither of the two themselves.
pub open spec fn pool(
    id: NodeId,
    neighbor: NodeId,
    neighbors: Seq<NodeId>,
    edges: Seq<NodeId>,
) -> Seq<NodeId> {
    let both = set![neighbor, id];
    fresh(neighbors, both) + fresh(edges, both.union(neighbors.to_set()))
}

/// The better of a candidate for the entry point and a node with metadata: the
/// one on the higher layer, and on one layer the candidate.
pub open spec fn higher(
    heir: Option<(NodeId, LayerId)>,
    id: NodeId,
    meta: Option<NodeMetadata>,
) -> Option<(NodeId, LayerId)> {
    match meta {
        Some(m) => match heir {
            Some((_, layer)) if m.max_layer <= layer => heir,
            _ => Some((id, m.max_layer)),
        },
        None => heir,
    }
}

/// The state of a deletion.
#[verifier::ext_equal]
pub struct DeletionModel {
    /// Where the deletion stands.
    pub stage: DeletionStage,
    /// The node.
    pub id: NodeId,
    /// The highest layer of the node.
    pub max_layer: LayerId,
    /// The node's neighbours at the bottom layer.
    pub ground: Seq<NodeId>,
    /// The layer being repaired or swept.
    pub layer: LayerId,
    /// The node's neighbours at that layer.
    pub neighbors: Seq<NodeId>,
    /// The position in the list that is being gone through.
    pub at: nat,
    /// The scoring for the neighbour at the position.
    pub scoring: ScoringModel,
    /// The nodes that may become neighbours of the neighbour at the position.
    pub pool: Seq<NodeId>,
    /// The new edges of the neighbour at the position, or of the node being swept.
    pub edges: Seq<NodeId>,
    /// The number of nodes to sweep.
    pub count: u64,
    /// The node being swept.
    pub node: NodeId,
    /// The best entry point found so far.
    pub heir: Option<(NodeId, LayerId)>,
}

impl DeletionModel {
    /// The deletion of a node as it starts.
    pub open spec fn start(id: NodeId) -> DeletionModel {
        DeletionModel {
            stage: DeletionStage::Lookup,
            id,
            max_layer: 0,
            ground: Seq::empty(),
            layer: 0,
            neighbors: Seq::empty(),
            at: 0,
            scoring: ScoringModel::start(id, Seq::empty()),
            pool: Seq::empty(),
            edges: Seq::empty(),
            count: 0,
            node: 0,
            heir: None,
        }
    }

    /// What the deletion asks for.
    pub open spec fn request(self) -> ActionModel {
        match self.stage {
            DeletionStage::Lookup => ActionModel::GetMetadata(self.id),
            DeletionStage::Ground => ActionModel::GetNeighbors(self.id, 0),
            DeletionStage::Layer => ActionModel::GetNeighbors(self.id, self.layer),
            DeletionStage::Fetch => ActionModel::GetNeighbors(
                self.neighbors[self.at as int],
                self.layer,
            ),
            DeletionStage::Probe => ActionModel::Probe(self.neighbors[self.at as int]),
            DeletionStage::Score => scoring_action(self.scoring),
            DeletionStage::Relink => ActionModel::SetNeighbors(
                self.neighbors[self.at as int],
                self.layer,
                self.edges,
            ),
            DeletionStage::Cut => ActionModel::DeleteNeighbors(self.id),
            DeletionStage::Count => ActionModel::CountVectors,
            DeletionStage::Sweep => ActionModel::GetNeighbors(self.node, self.layer),
            DeletionStage::Unlink => ActionModel::SetNeighbors(self.node, self.layer, self.edges),
            DeletionStage::Forget => ActionModel::DeleteMetadata(self.id),
            DeletionStage::Scan => ActionModel::GetMetadata(self.ground[self.at as int]),
            DeletionStage::Crown => match self.heir {
                Some((id, layer)) => ActionModel::PutEntryPoint(id, layer),
                None => ActionModel::DeleteEntryPoint,
            },
            DeletionStage::Abandon => ActionModel::DeleteEntryPoint,
            DeletionStage::Finished => ActionModel::Finish,
        }
    }

    /// The positions that the stage relies on are within their lists.
    pub open spec fn valid(self) -> bool {
        match self.stage {
            DeletionStage::Fetch | DeletionStage::Probe | DeletionStage::Score
            | DeletionStage::Relink => self.at < self.neighbors.len(),
            DeletionStage::Sweep | DeletionStage::Unlink => self.node < self.count && self.layer
                <= TOP_LEVEL,
            DeletionStage::Scan => self.at < self.ground.len(),
            DeletionStage::Crown => self.heir is Some,
            _ => true,
        }
    }

    /// The deletion as it turns to the neighbour at its position; after the last
    /// one it leaves the layer.
    pub open spec fn at_neighbor(self, index: IndexModel, at: nat) -> (DeletionModel, IndexModel) {
        if at < self.neighbors.len() {
            (DeletionModel { stage: DeletionStage::Fetch, at, ..self }, index)
        } else if self.layer == 0 {
            (DeletionModel { stage: DeletionStage::Cut, at, ..self }, index)
        } else {
            DeletionModel { at, ..self }.past_layer(index)
        }
    }

    /// The deletion as it leaves a layer. After the highest one, the node's upper
    /// edges and its code go.
    pub open spec fn past_layer(self, index: IndexModel) -> (DeletionModel, IndexModel) {
        if self.layer < self.max_layer {
            (
                DeletionModel {
                    stage: DeletionStage::Layer,
                    layer: (self.layer + 1) as LayerId,
                    ..self
                },
                index,
            )
        } else {
            (DeletionModel { stage: DeletionStage::Count, ..self }, index.without(self.id))
        }
    }

    /// The deletion as it comes to the list of a node at a layer; after the last
    /// node the node's metadata goes.
    pub open spec fn at_list(self, node: NodeId, layer: LayerId) -> DeletionModel {
        if node < self.count {
            DeletionModel { stage: DeletionStage::Sweep, node, layer, ..self }
        } else {
            DeletionModel { stage: DeletionStage::Forget, node, layer, ..self }
        }
    }

    /// The deletion as it leaves a list: the lists of a node come one layer after
    /// the other, then those of the next node.
    pub open spec fn past_list(self) -> DeletionModel {
        if self.layer < TOP_LEVEL {
            self.at_list(self.node, (self.layer + 1) as LayerId)
        } else {
            self.at_list((self.node + 1) as NodeId, 0)
        }
    }

    /// The deletion as it looks at the next possible entry point; after the last
    /// one, the best becomes the entry point.
    pub open spec fn at_heir(
        self,
        index: IndexModel,
        at: nat,
        heir: Option<(NodeId, LayerId)>,
    ) -> (DeletionModel, IndexModel) {
        let next = DeletionModel { at, heir, ..self };
        if at < self.ground.len() {
            (DeletionModel { stage: DeletionStage::Scan, ..next }, index)
        } else if heir is Some {
            (DeletionModel { stage: DeletionStage::Crown, ..next }, index.with_entry(heir))
        } else {
            (DeletionModel { stage: DeletionStage::Abandon, ..next }, index.with_entry(None))
        }
    }

    /// The deletion and the index after a reply; one that does not fit changes
    /// nothing.
    pub open spec fn stepped(self, index: IndexModel, reply: ReplyModel) -> (
        DeletionModel,
        IndexModel,
    ) {
        match (self.stage, reply) {
            (DeletionStage::Lookup, ReplyModel::Metadata(meta)) => match meta {
                Some(m) => (
                    DeletionModel {
                        stage: DeletionStage::Ground,
                        max_layer: m.max_layer,
                        ..self
                    },
                    index,
                ),
                None => (DeletionModel { stage: DeletionStage::Finished, ..self }, index),
            },
            (DeletionStage::Ground, ReplyModel::Neighbors(list)) => (
                DeletionModel { stage: DeletionStage::Layer, ground: list, layer: 0, ..self },
                index,
            ),
            (DeletionStage::Layer, ReplyModel::Neighbors(list)) => DeletionModel {
                neighbors: list,
                ..self
            }.at_neighbor(index, 0),
            (DeletionStage::Fetch, ReplyModel::Neighbors(list)) => (
                DeletionModel {
                    stage: DeletionStage::Probe,
                    pool: pool(self.id, self.neighbors[self.at as int], self.neighbors, list),
                    ..self
                },
                index,
            ),
            (DeletionStage::Probe, ReplyModel::Present(present)) => if present {
                (
                    DeletionModel {
                        stage: DeletionStage::Score,
                        scoring: ScoringModel::start(self.neighbors[self.at as int], self.pool),
                        ..self
                    },
                    index,
                )
            } else {
                self.at_neighbor(index, self.at + 1)
            },
            (DeletionStage::Score, _) => if !self.scoring.over() {
                (DeletionModel { scoring: scoring_told(self.scoring, reply), ..self }, index)
            } else if reply is Done {
                (
                    DeletionModel {
                        stage: DeletionStage::Relink,
                        edges: nearest(self.scoring.scored, index.config.limit(self.layer)),
                        ..self
                    },
                    index,
                )
            } else {
                (self, index)
            },
            (DeletionStage::Relink, ReplyModel::Done) => self.at_neighbor(index, self.at + 1),
            (DeletionStage::Cut, ReplyModel::Done) => self.past_layer(index),
            (DeletionStage::Count, ReplyModel::Count(count)) => (
                DeletionModel { count, ..self }.at_list(0, 0),
                index,
            ),
            (DeletionStage::Sweep, ReplyModel::Neighbors(list)) => if list.contains(self.id) {
                (
                    DeletionModel {
                        stage: DeletionStage::Unlink,
                        edges: dropped(list, self.id),
                        ..self
                    },
                    index,
                )
            } else {
                (self.past_list(), index)
            },
            (DeletionStage::Unlink, ReplyModel::Done) => (self.past_list(), index),
            (DeletionStage::Forget, ReplyModel::Done) => match index.upper.entry {
                Some((entry, _)) if entry == self.id => self.at_heir(index, 0, None),
                _ => (DeletionModel { stage: DeletionStage::Finished, ..self }, index),
            },
            (DeletionStage::Scan, ReplyModel::Metadata(meta)) => self.at_heir(
                index,
                self.at + 1,
                higher(self.heir, self.ground[self.at as int], meta),
            ),
            (DeletionStage::Crown, ReplyModel::Done) => (
                DeletionModel { stage: DeletionStage::Finished, ..self },
                index,
            ),
            (DeletionStage::Abandon, ReplyModel::Done) => (
                DeletionModel { stage: DeletionStage::Finished, ..self },
                index,
            ),
            _ => (self, index),
        }
    }
}

/// The removal of a node in progress.
pub struct Deletion {
    stage: DeletionStage,
    id: NodeId,
    max_layer: LayerId,
    ground: Vec<NodeId>,
    layer: LayerId,
    neighbors: Vec<NodeId>,
    at: usize,
    scoring: Scoring,
    pool: Vec<NodeId>,
    edges: Vec<NodeId>,
    count: u64,
    node: NodeId,
    heir: Option<(NodeId, LayerId)>,
}

impl View for Deletion {
    type V = DeletionModel;

    closed spec fn view(&self) -> DeletionModel {
        DeletionModel {
            stage: self.stage,
            id: self.id,
            max_layer: self.max_layer,
            ground: self.ground@,
            layer: self.layer,
            neighbors: self.neighbors@,
            at: self.at as nat,
            scoring: self.scoring@,
            pool: self.pool@,
            edges: self.edges@,
            count: self.count,
            node: self.node,
            heir: self.heir,
        }
    }
}

/// The nodes that may become neighbours of a node's neighbour.
fn gather(id: NodeId, neighbor: NodeId, neighbors: &[NodeId], edges: &[NodeId]) -> (found: Vec<
    NodeId,
>)
    ensures
        found@ == pool(id, neighbor, neighbors@, edges@),
{
    let mut seen: HashSet<NodeId> = HashSet::new();
    seen.insert(id);
    seen.insert(neighbor);
    assert(seen@ =~= set![neighbor, id]);
    let mut found: Vec<NodeId> = take_fresh(neighbors, &mut seen);
    let mut more: Vec<NodeId> = take_fresh(edges, &mut seen);
    found.append(&mut more);
    found
}

impl Deletion {
    /// What the deletion asks for.
    pub fn request(&self) -> (action: Action)
        requires
            self@.valid(),
        ensures
            action@ == self@.request(),
    {
        match self.stage {
            DeletionStage::Lookup => Action::GetMetadata(self.id),
            DeletionStage::Ground => Action::GetNeighbors { id: self.id, layer: 0 },
            DeletionStage::Layer => Action::GetNeighbors { id: self.id, layer: self.layer },
            DeletionStage::Fetch => Action::GetNeighbors {
                id: self.neighbors[self.at],
                layer: self.layer,
            },
            DeletionStage::Probe => Action::Probe(self.neighbors[self.at]),
            DeletionStage::Score => self.scoring.action(),
            DeletionStage::Relink => Action::SetNeighbors {
                id: self.neighbors[self.at],
                layer: self.layer,
                neighbors: copied(&self.edges),
            },
            DeletionStage::Cut => Action::DeleteNeighbors(self.id),
            DeletionStage::Count => Action::CountVectors,
            DeletionStage::Sweep => Action::GetNeighbors { id: self.node, layer: self.layer },
            DeletionStage::Unlink => Action::SetNeighbors {
                id: self.node,
                layer: self.layer,
                neighbors: copied(&self.edges),
            },
            DeletionStage::Forget => Action::DeleteMetadata(self.id),
            DeletionStage::Scan => Action::GetMetadata(self.ground[self.at]),
            DeletionStage::Crown => match self.heir {
                Some((id, layer)) => Action::PutEntryPoint { id, layer },
                None => Action::DeleteEntryPoint,
            },
            DeletionStage::Abandon => Action::DeleteEntryPoint,
            DeletionStage::Finished => Action::Finish,
        }
    }

    /// Turns to the neighbour at a position.
    fn turn_to(&mut self, index: &mut HnswIndex, at: usize)
        requires
            old(index)@.valid(),
        ensures
            (final(self)@, final(index)@) == old(self)@.at_neighbor(old(index)@, at as nat),
            final(index)@.valid(),
            final(self)@.valid(),
    {
        self.at = at;
        if at < self.neighbors.len() {
            self.stage = DeletionStage::Fetch;
        } else if self.layer == 0 {
            self.stage = DeletionStage::Cut;
        } else {
            self.leave_layer(index);
        }
    }

    /// Leaves a layer.
    fn leave_layer(&mut self, index: &mut HnswIndex)
        requires
            old(index)@.valid(),
        ensures
            (final(self)@, final(index)@) == old(self)@.past_layer(old(index)@),
            final(index)@.valid(),
            final(self)@.valid(),
    {
        if self.layer < self.max_layer {
            self.stage = DeletionStage::Layer;
            self.layer = self.layer + 1;
        } else {
            self.stage = DeletionStage::Count;
            index.forget(self.id);
        }
    }

    /// Comes to the list of a node at a layer.
    fn come_to(&mut self, node: NodeId, layer: LayerId)
        requires
            layer <= TOP_LEVEL,
        ensures
            final(self)@ == old(self)@.at_list(node, layer),
            final(self)@.valid(),
    {
        self.node = node;
        self.layer = layer;
        if node < self.count {
            self.stage = DeletionStage::Sweep;
        } else {
            self.stage = DeletionStage::Forget;
        }
    }

    /// Leaves a list.
    fn leave_list(&mut self)
        requires
            old(self)@.node < old(self)@.count,
        ensures
            final(self)@ == old(self)@.past_list(),
            final(self)@.valid(),
    {
        let node: NodeId = self.node;
        let layer: LayerId = self.layer;
        if layer < TOP_LEVEL {
            self.come_to(node, layer + 1);
        } else {
            assert(self.node < self.count);
            self.come_to(node + 1, 0);
        }
    }

    /// Looks at the next possible entry point.
    fn consider(&mut self, index: &mut HnswIndex, at: usize, heir: Option<(NodeId, LayerId)>)
        requires
            old(index)@.valid(),
        ensures
            (final(self)@, final(index)@) == old(self)@.at_heir(old(index)@, at as nat, heir),
            final(index)@.valid(),
            final(self)@.valid(),
    {
        self.at = at;
        self.heir = heir;
        if at < self.ground.len() {
            self.stage = DeletionStage::Scan;
        } else {
            match heir {
                Some(_) => {
                    self.stage = DeletionStage::Crown;
                },
                None => {
                    self.stage = DeletionStage::Abandon;
                },
            }
            index.set_entry(heir);
        }
    }

    /// Takes the reply to what was asked for. One that does not fit changes
    /// nothing.
    pub fn step(&mut self, index: &mut HnswIndex, reply: Reply)
        requires
            old(index)@.valid(),
            old(self)@.valid(),
        ensures
            (final(self)@, final(index)@) == old(self)@.stepped(old(index)@, reply@),
            final(index)@.valid(),
            final(self)@.valid(),
    {
        match self.stage {
            DeletionStage::Lookup => {
                if let Reply::Metadata(meta) = reply {
                    match meta {
                        Some(m) => {
                            self.max_layer = m.max_layer;
                            self.stage = DeletionStage::Ground;
                        },
                        None => {
                            self.stage = DeletionStage::Finished;
                        },
                    }
                }
            },
            DeletionStage::Ground => {
                if let Reply::Neighbors(list) = reply {
                    self.ground = list;
                    self.layer = 0;
                    self.stage = DeletionStage::Layer;
                }
            },
            DeletionStage::Layer => {
                if let Reply::Neighbors(list) = reply {
                    self.neighbors = list;
                    self.turn_to(index, 0);
                }
            },
            DeletionStage::Fetch => {
                if let Reply::Neighbors(list) = reply {
                    self.pool = gather(
                        self.id,
                        self.neighbors[self.at],
                        self.neighbors.as_slice(),
                        list.as_slice(),
                    );
                    self.stage = DeletionStage::Probe;
                }
            },
            DeletionStage::Probe => {
                if let Reply::Present(present) = reply {
                    let neighbor: NodeId = self.neighbors[self.at];
                    if present {
                        self.scoring = Scoring::new(neighbor, copied(&self.pool));
                        self.stage = DeletionStage::Score;
                    } else {
                        assert(self.at < self.neighbors.len());
                        let next: usize = self.at + 1;
                        self.turn_to(index, next);
                    }
                }
            },
            DeletionStage::Score => {
                if !self.scoring.is_over() {
                    self.scoring.tell(&reply);
                } else if let Reply::Done = reply {
                    let max = index.config().max_neighbors(self.layer);
                    self.edges = self.scoring.nearest(max);
                    self.stage = DeletionStage::Relink;
                }
            },
            DeletionStage::Relink => {
                if let Reply::Done = reply {
                    assert(self.at < self.neighbors.len());
                    let next: usize = self.at + 1;
                    self.turn_to(index, next);
                }
            },
            DeletionStage::Cut => {
                if let Reply::Done = reply {
                    self.leave_layer(index);
                }
            },
            DeletionStage::Count => {
                if let Reply::Count(count) = reply {
                    self.count = count;
                    self.come_to(0, 0);
                }
            },
            DeletionStage::Sweep => {
                if let Reply::Neighbors(list) = reply {
                    let (rest, named) = drop_node(list.as_slice(), self.id);
                    if named {
                        self.edges = rest;
                        self.stage = DeletionStage::Unlink;
                    } else {
                        self.leave_list();
                    }
                }
            },
            DeletionStage::Unlink => {
                if let Reply::Done = reply {
                    self.leave_list();
                }
            },
            DeletionStage::Forget => {
                if let Reply::Done = reply {
                    let was_entry = match index.entry_point() {
                        Some((entry, _)) => entry == self.id,
                        None => false,
                    };
                    if was_entry {
                        self.consider(index, 0, None);
                    } else {
                        self.stage = DeletionStage::Finished;
                    }
                }
            },
            DeletionStage::Scan => {
                if let Reply::Metadata(meta) = reply {
                    let id: NodeId = self.ground[self.at];
                    let heir = match meta {
                        Some(m) => match self.heir {
                            Some((best, layer)) => if m.max_layer <= layer {
                                Some((best, layer))
                            } else {
                                Some((id, m.max_layer))
                            },
                            None => Some((id, m.max_layer)),
                        },
                        None => self.heir,
                    };
                    assert(self.at < self.ground.len());
                    let next: usize = self.at + 1;
                    self.consider(index, next, heir);
                }
            },
            DeletionStage::Crown => {
                if let Reply::Done = reply {
                    self.stage = DeletionStage::Finished;
                }
            },
            DeletionStage::Abandon => {
                if let Reply::Done = reply {
                    self.stage = DeletionStage::Finished;
                }
            },
            DeletionStage::Finished => {},
        }
    }
}

impl HnswIndex {
    /// Starts the removal of a node.
    pub fn delete(&self, id: NodeId) -> (deletion: Deletion)
        ensures
            deletion@ == DeletionModel::start(id),
            deletion@.valid(),
    {
        Deletion {
            stage: DeletionStage::Lookup,
            id,
            max_layer: 0,
            ground: Vec::new(),
            layer: 0,
            neighbors: Vec::new(),
            at: 0,
            scoring: Scoring::new(id, Vec::new()),
            pool: Vec::new(),
            edges: Vec::new(),
            count: 0,
            node: 0,
            heir: None,
        }
    }
}

} // verus!
