//! The index: what is kept in memory, and how operations on it start.

use vstd::prelude::*;

use crate::hash_code::{max_code_len, HashCode};
use crate::protocol::{Action, ActionModel, Reply, ReplyModel};
use crate::scalar::Scalar;
use crate::simhash::{code_of, needed_collisions, SamplerModel, SimHashSampler};
use crate::types::{LayerId, LsmVecConfig, NodeId};
use crate::upper_graph::{counted, UpperGraph, UpperModel, MAX_LAYERS};

verus! {

/// What an index holds.
#[verifier::ext_equal]
pub struct IndexModel {
    /// The upper layers and the entry point.
    pub upper: UpperModel,
    /// The codes of the nodes.
    pub sampler: SamplerModel,
    /// The parameters.
    pub config: LsmVecConfig,
}

impl IndexModel {
    /// The parts fit together: the upper graph is valid, all codes have the
    /// configured number of bits, and that is a number of bits that a code can
    /// have.
    pub open spec fn valid(self) -> bool {
        &&& self.upper.valid()
        &&& self.sampler.uniform()
        &&& self.sampler.num_bits == self.config.simhash_bits
        &&& self.config.simhash_bits <= max_code_len()
    }

    /// An index without upper edges or codes, with an entry point.
    pub open spec fn opened(
        config: LsmVecConfig,
        entry: Option<(NodeId, LayerId)>,
    ) -> IndexModel {
        IndexModel {
            upper: UpperModel { entry, ..UpperModel::blank() },
            sampler: SamplerModel {
                num_bits: config.simhash_bits as nat,
                dimension: config.dimension as nat,
                codes: Map::empty(),
            },
            config,
        }
    }

    /// The number of collisions that a neighbour needs at the bottom layer.
    pub open spec fn threshold(self) -> nat {
        needed_collisions(self.sampler.num_bits, self.config.simhash_share as nat)
    }

    /// The index with another entry point.
    pub open spec fn with_entry(self, entry: Option<(NodeId, LayerId)>) -> IndexModel {
        IndexModel { upper: UpperModel { entry, ..self.upper }, ..self }
    }

    /// The index with the code of a node.
    pub open spec fn with_code(self, id: NodeId, code: Seq<bool>) -> IndexModel {
        IndexModel {
            sampler: SamplerModel { codes: self.sampler.codes.insert(id, code), ..self.sampler },
            ..self
        }
    }

    /// The index without a node's upper edges and code.
    pub open spec fn without(self, id: NodeId) -> IndexModel {
        IndexModel {
            upper: self.upper.without(id),
            sampler: SamplerModel { codes: self.sampler.codes.remove(id), ..self.sampler },
            ..self
        }
    }

    /// The index after an action on it, and the outcome, if the action concerns
    /// what is kept in memory: edges of layers above the bottom one.
    pub open spec fn served(self, action: ActionModel) -> Option<(IndexModel, ReplyModel)> {
        match action {
            ActionModel::GetNeighbors(id, layer) if layer > 0 => Some(
                (
                    self,
                    ReplyModel::Neighbors(
                        match self.upper.neighbors(id, layer) {
                            Some(list) => list,
                            None => Seq::empty(),
                        },
                    ),
                ),
            ),
            ActionModel::SetNeighbors(id, layer, neighbors) if layer > 0 => Some(
                (
                    IndexModel { upper: self.upper.with_neighbors(id, layer, neighbors), ..self },
                    ReplyModel::Done,
                ),
            ),
            ActionModel::Proceed => Some((self, ReplyModel::Done)),
            _ => None,
        }
    }
}

/// Figures about an index.
#[derive(Clone, Copy, Debug, PartialEq, Eq, Structural)]
pub struct IndexStats {
    /// Number of vectors in the vector file.
    pub vector_count: u64,
    /// Number of nodes on upper layers, counted once for each layer.
    pub upper_layer_nodes: usize,
    /// Number of stored codes.
    pub simhash_count: usize,
}

/// The highest level that a node gets.
pub const TOP_LEVEL: LayerId = 15;

/// The level that a node gets for a drawn number.
pub open spec fn capped(drawn: LayerId) -> LayerId {
    if drawn < TOP_LEVEL {
        drawn
    } else {
        TOP_LEVEL
    }
}

/// The part of the index that is kept in memory.
pub struct HnswIndex {
    upper_graph: UpperGraph,
    sampler: SimHashSampler,
    config: LsmVecConfig,
}

impl View for HnswIndex {
    type V = IndexModel;

    closed spec fn view(&self) -> IndexModel {
        IndexModel { upper: self.upper_graph@, sampler: self.sampler@, config: self.config }
    }
}

impl HnswIndex {
    /// An index without upper edges or codes, which starts its searches at the
    /// entry point that the store has kept, if any.
    pub fn new(config: LsmVecConfig, stored_entry: Option<(NodeId, LayerId)>) -> (index: Self)
        requires
            config.simhash_bits <= max_code_len(),
        ensures
            index@ == IndexModel::opened(config, stored_entry),
            index@.valid(),
    {
        let mut index = HnswIndex {
            upper_graph: UpperGraph::new(),
            sampler: SimHashSampler::new(config.dimension, config.simhash_bits),
            config,
        };
        if let Some((id, layer)) = stored_entry {
            index.upper_graph.set_entry_point(id, layer);
        }
        index
    }

    /// The level of a new node: the drawn number, but no more than the highest
    /// layer.
    pub fn random_level(drawn: LayerId) -> (level: LayerId)
        ensures
            level == capped(drawn),
            level < MAX_LAYERS,
            drawn <= 15 ==> level == drawn,
            drawn > 15 ==> level == 15,
    {
        if drawn < TOP_LEVEL {
            drawn
        } else {
            TOP_LEVEL
        }
    }

    /// Carries out an action that concerns what is kept in memory, and says its
    /// outcome; says nothing to any other action.
    pub fn serve(&mut self, action: &Action) -> (reply: Option<Reply>)
        requires
            old(self)@.valid(),
        ensures
            final(self)@.valid(),
            match reply {
                Some(reply) => old(self)@.served(action@) == Some((final(self)@, reply@)),
                None => old(self)@.served(action@) is None && final(self)@ == old(self)@,
            },
    {
        match action {
            Action::GetNeighbors { id, layer } => {
                if *layer == 0 {
                    return None;
                }
                let list: Vec<NodeId> = match self.upper_graph.get_neighbors(*id, *layer) {
                    Some(list) => list,
                    None => Vec::new(),
                };
                Some(Reply::Neighbors(list))
            },
            Action::SetNeighbors { id, layer, neighbors } => {
                if *layer == 0 {
                    return None;
                }
                let copy = neighbors.clone();
                assert(copy@ =~= neighbors@);
                self.upper_graph.set_neighbors(*id, *layer, copy);
                Some(Reply::Done)
            },
            Action::Proceed => Some(Reply::Done),
            _ => None,
        }
    }

    /// The entry point, if there is one.
    pub fn entry_point(&self) -> (entry: Option<(NodeId, LayerId)>)
        ensures
            entry == self@.upper.entry,
    {
        self.upper_graph.get_entry_point()
    }

    /// The codes of the nodes.
    pub fn sampler(&self) -> (sampler: &SimHashSampler)
        ensures
            sampler@ == self@.sampler,
    {
        &self.sampler
    }

    /// The upper layers.
    pub fn upper_graph(&self) -> (graph: &UpperGraph)
        ensures
            graph@ == self@.upper,
    {
        &self.upper_graph
    }

    /// The number of collisions that a neighbour needs at the bottom layer.
    pub(crate) fn threshold(&self) -> (threshold: usize)
        ensures
            threshold == self@.threshold(),
    {
        self.sampler.threshold(self.config.simhash_share)
    }

    /// Sets or clears the entry point.
    pub(crate) fn set_entry(&mut self, entry: Option<(NodeId, LayerId)>)
        ensures
            final(self)@ == old(self)@.with_entry(entry),
            old(self)@.valid() ==> final(self)@.valid(),
    {
        match entry {
            Some((id, layer)) => {
                self.upper_graph.set_entry_point(id, layer);
            },
            None => {
                self.upper_graph.clear_entry_point();
            },
        }
    }

    /// Stores the code of a node and hands it back.
    pub(crate) fn learn(&mut self, id: NodeId, dots: &[Scalar]) -> (code: HashCode)
        requires
            old(self)@.valid(),
            dots@.len() == old(self)@.sampler.num_bits,
        ensures
            code@ == code_of(dots@),
            final(self)@ == old(self)@.with_code(id, code_of(dots@)),
            final(self)@.valid(),
    {
        self.sampler.compute_and_store(id, dots);
        self.sampler.compute_hash(dots)
    }

    /// Drops a node's upper edges and its code.
    pub(crate) fn forget(&mut self, id: NodeId)
        requires
            old(self)@.valid(),
        ensures
            final(self)@ == old(self)@.without(id),
            final(self)@.valid(),
    {
        self.upper_graph.remove_node(id);
        self.sampler.remove_hash(id);
    }

    /// The parameters.
    pub fn config(&self) -> (config: LsmVecConfig)
        ensures
            config == self@.config,
    {
        self.config
    }

    /// Figures about the index, of whose vector file the number of vectors is
    /// given; none counts as zero.
    pub fn stats(&self, vector_count: Option<u64>) -> (stats: IndexStats)
        requires
            self@.valid(),
        ensures
            stats.vector_count == match vector_count {
                Some(count) => count,
                None => 0,
            },
            stats.upper_layer_nodes == counted(self@.upper.population(MAX_LAYERS as nat)),
            stats.simhash_count == self@.sampler.codes.len(),
    {
        IndexStats {
            vector_count: match vector_count {
                Some(count) => count,
                None => 0,
            },
            upper_layer_nodes: self.upper_graph.total_nodes(),
            simhash_count: self.sampler.len(),
        }
    }
}

} // verus!
