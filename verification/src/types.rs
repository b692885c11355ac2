//! Identifiers, configuration and the plain records of the index.

use vstd::prelude::*;

use crate::scalar::Scalar;

verus! {

/// Unique identifier of a vector and of its node in the graph.
pub type NodeId = u64;

/// Layer of the graph; layer 0 is the bottom layer, which holds every node.
pub type LayerId = u8;

/// Number of components of a vector.
pub type Dimension = usize;

/// How the distance between two vectors is measured.
#[derive(Clone, Copy, Debug, PartialEq, Eq, Structural)]
pub enum DistanceMetric {
    /// Euclidean distance.
    L2,
    /// Cosine distance: one minus the cosine of the angle.
    Cosine,
}

impl Default for DistanceMetric {
    fn default() -> (metric: Self)
        ensures
            metric == DistanceMetric::L2,
    {
        DistanceMetric::L2
    }
}

/// The parameters of an index.
#[derive(Clone, Copy, Debug, PartialEq, Eq, Structural)]
pub struct LsmVecConfig {
    /// Number of components of every vector.
    pub dimension: Dimension,
    /// How distances are measured.
    pub metric: DistanceMetric,
    /// The most neighbours of a node at the bottom layer.
    pub m_max: usize,
    /// The most neighbours of a node at an upper layer.
    pub m: usize,
    /// Width of the searches that place a new node.
    pub ef_construction: usize,
    /// Width of a query's search unless it names another.
    pub ef_search: usize,
    /// Number of bits of a SimHash code.
    pub simhash_bits: usize,
    /// Number of matching bits that the filter asks for, if that is more than
    /// half of them. Where the filter is given as a tolerance `epsilon`, this is
    /// the whole part of `simhash_bits * (0.5 + epsilon * 0.1)`.
    pub simhash_share: usize,
}

impl LsmVecConfig {
    /// The parameters that hold unless others are chosen: the share is that of a
    /// tolerance of a tenth.
    pub open spec fn standard(dimension: Dimension) -> LsmVecConfig {
        LsmVecConfig {
            dimension,
            metric: DistanceMetric::L2,
            m_max: 32,
            m: 16,
            ef_construction: 200,
            ef_search: 100,
            simhash_bits: 64,
            simhash_share: 32,
        }
    }

    /// The most neighbours of a node at a layer.
    pub open spec fn limit(self, layer: LayerId) -> nat {
        if layer == 0 {
            self.m_max as nat
        } else {
            self.m as nat
        }
    }

    /// The standard parameters for vectors of the given dimension.
    pub fn new(dimension: Dimension) -> (config: Self)
        ensures
            config == LsmVecConfig::standard(dimension),
    {
        LsmVecConfig {
            dimension,
            metric: DistanceMetric::L2,
            m_max: 32,
            m: 16,
            ef_construction: 200,
            ef_search: 100,
            simhash_bits: 64,
            simhash_share: 32,
        }
    }

    /// Chooses how distances are measured.
    pub fn with_metric(self, metric: DistanceMetric) -> (config: Self)
        ensures
            config == (LsmVecConfig { metric, ..self }),
    {
        LsmVecConfig { metric, ..self }
    }

    /// Chooses the most neighbours at an upper layer.
    pub fn with_m(self, m: usize) -> (config: Self)
        ensures
            config == (LsmVecConfig { m, ..self }),
    {
        LsmVecConfig { m, ..self }
    }

    /// Chooses the most neighbours at the bottom layer.
    pub fn with_m_max(self, m_max: usize) -> (config: Self)
        ensures
            config == (LsmVecConfig { m_max, ..self }),
    {
        LsmVecConfig { m_max, ..self }
    }

    /// Chooses the width of the searches that place a new node.
    pub fn with_ef_construction(self, ef_construction: usize) -> (config: Self)
        ensures
            config == (LsmVecConfig { ef_construction, ..self }),
    {
        LsmVecConfig { ef_construction, ..self }
    }

    /// Chooses the width of a query's search.
    pub fn with_ef_search(self, ef_search: usize) -> (config: Self)
        ensures
            config == (LsmVecConfig { ef_search, ..self }),
    {
        LsmVecConfig { ef_search, ..self }
    }

    /// The most neighbours of a node at a layer.
    pub fn max_neighbors(&self, layer: LayerId) -> (max: usize)
        ensures
            max == self.limit(layer),
            layer == 0 ==> max == self.m_max,
            layer > 0 ==> max == self.m,
    {
        if layer == 0 {
            self.m_max
        } else {
            self.m
        }
    }
}

impl Default for LsmVecConfig {
    fn default() -> (config: Self)
        ensures
            config == LsmVecConfig::standard(128),
    {
        LsmVecConfig::new(128)
    }
}

/// One hit of a search: a node and its distance from the query.
#[derive(Clone, Copy, Debug, PartialEq, Eq, Structural)]
pub struct SearchResult {
    /// The node.
    pub id: NodeId,
    /// Its distance from the query.
    pub distance: Scalar,
}

/// What the store keeps of each node beside its edges.
#[derive(Clone, Copy, Debug, PartialEq, Eq, Structural)]
pub struct NodeMetadata {
    /// The node.
    pub id: NodeId,
    /// The highest layer that the node was assigned.
    pub max_layer: LayerId,
}

} // verus!
