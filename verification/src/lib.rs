//! Vector search over a layered proximity graph.
//!
//! Vectors lie in a file, one after the other. A graph of layers links each of
//! them with near ones: the bottom layer, which holds every node, is kept in a
//! key-value store, the sparse layers above it in memory. A search descends
//! through the layers, and at the bottom follows only neighbours whose short
//! binary codes resemble the query's.
//!
//! The library holds the rules and none of the input and output.
//! [`index::HnswIndex`] keeps what is in memory and starts operations:
//! [`query::Query`], [`insertion::Insertion`] and [`deletion::Deletion`]. An
//! operation names an [`protocol::Action`], is told the outcome as a
//! [`protocol::Reply`], and goes on until it is finished. [`vector_file`] and
//! [`graph_store`] say which bytes are read and written where.
//!
//! What each step does is said in the contracts of the functions. What whole
//! operations achieve is said in [`layer_laws`], [`query_laws`],
//! [`insertion_laws`], [`deletion_laws`], [`endings`] and [`history`], of the
//! [`system::System`] that an index and its surroundings form, and in
//! [`vector_laws`] of a file's contents.

pub mod buffers;
pub mod codec;
pub mod deletion;
pub mod deletion_laws;
pub mod distinct;
pub mod endings;
pub mod error;
pub mod graph_store;
pub mod hash_code;
pub mod history;
pub mod index;
pub mod insertion;
pub mod insertion_laws;
pub mod layer_laws;
pub mod layer_search;
pub mod parts;
pub mod protocol;
pub mod query;
pub mod query_laws;
pub mod ranking;
pub mod scalar;
pub mod scoring;
pub mod selection;
pub mod simhash;
pub mod system;
pub mod types;
pub mod upper_graph;
pub mod vector_file;
pub mod vector_laws;

pub use error::{LsmVecError, Result};
pub use index::{HnswIndex, IndexStats};
pub use types::{DistanceMetric, LsmVecConfig, NodeId, SearchResult};
