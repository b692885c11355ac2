//! What can go wrong.

use vstd::prelude::*;

verus! {

/// Why a read or write failed.
#[derive(Clone, Copy, Debug, PartialEq, Eq, Structural)]
pub enum IoError {
    /// The file ended before all bytes were read.
    UnexpectedEof,
}

/// Why a request was refused.
#[derive(Debug, PartialEq, Eq)]
pub enum LsmVecError {
    /// A read or write failed.
    Io(IoError),
    /// A vector, or a file of vectors, has another dimension than expected.
    InvalidDimension {
        /// The dimension that was expected.
        expected: usize,
        /// The dimension that was met.
        actual: usize,
    },
    /// A file is not a file of vectors.
    InvalidFile(String),
    /// There is no such node.
    NodeNotFound(u64),
    /// There are no nodes at all.
    EmptyIndex,
}

/// The outcome of something that can be refused.
pub type Result<T> = std::result::Result<T, LsmVecError>;

} // verus!
