//! What an operation asks of its surroundings, and what it is told.
//!
//! Searching, inserting and deleting alternate between decisions and work that
//! happens elsewhere: reads and writes of the store and of the vector file,
//! arithmetic on vectors, a random draw. Each operation therefore names an
//! action, is told the outcome, and names the next one, until it is finished.

use vstd::prelude::*;

use crate::scalar::Scalar;
use crate::types::{LayerId, NodeId, NodeMetadata};

verus! {

/// Work that an operation asks for. "The vector" is the one that is being
/// searched for or inserted.
pub enum Action {
    /// Append the vector to the vector file. Answered by `Appended`.
    Append,
    /// Multiply the vector by each projection. Answered by `Projections`.
    Project,
    /// Draw a level at random. Answered by `Level`.
    DrawLevel,
    /// Read the metadata of a node. Answered by `Metadata`.
    GetMetadata(NodeId),
    /// Write the metadata of a node. Answered by `Done`.
    PutMetadata(NodeMetadata),
    /// Delete the metadata of a node. Answered by `Done`.
    DeleteMetadata(NodeId),
    /// Read the neighbours of a node at a layer. Answered by `Neighbors`.
    GetNeighbors {
        /// The node.
        id: NodeId,
        /// The layer.
        layer: LayerId,
    },
    /// Write the neighbours of a node at a layer. Answered by `Done`.
    SetNeighbors {
        /// The node.
        id: NodeId,
        /// The layer.
        layer: LayerId,
        /// Its neighbours from now on.
        neighbors: Vec<NodeId>,
    },
    /// Delete the neighbours of a node at the bottom layer. Answered by `Done`.
    DeleteNeighbors(NodeId),
    /// Write the entry point. Answered by `Done`.
    PutEntryPoint {
        /// The node.
        id: NodeId,
        /// Its layer.
        layer: LayerId,
    },
    /// Delete the entry point. Answered by `Done`.
    DeleteEntryPoint,
    /// Measure the distance of a node from the vector. Answered by `Distance`,
    /// which is empty if the node has no vector.
    Measure(NodeId),
    /// Count the vectors. Answered by `Count`.
    CountVectors,
    /// Look whether a node has a vector. Answered by `Present`.
    Probe(NodeId),
    /// Measure the distance of two nodes. Answered by `Distance`, which is empty
    /// if one has no vector.
    Compare {
        /// One node.
        from: NodeId,
        /// The other node.
        to: NodeId,
    },
    /// Measure the distance of two nodes. Answered by `Distance`, which is empty
    /// if one has no vector or cannot be read.
    Score {
        /// One node.
        from: NodeId,
        /// The other node.
        to: NodeId,
    },
    /// Nothing: one part of the operation is over and the next one begins.
    /// Answered by `Done`.
    Proceed,
    /// Nothing any more: the operation is finished.
    Finish,
}

/// An action in the abstract.
#[verifier::ext_equal]
pub enum ActionModel {
    /// See [`Action::Append`].
    Append,
    /// See [`Action::Project`].
    Project,
    /// See [`Action::DrawLevel`].
    DrawLevel,
    /// See [`Action::GetMetadata`].
    GetMetadata(NodeId),
    /// See [`Action::PutMetadata`].
    PutMetadata(NodeMetadata),
    /// See [`Action::DeleteMetadata`].
    DeleteMetadata(NodeId),
    /// See [`Action::GetNeighbors`].
    GetNeighbors(NodeId, LayerId),
    /// See [`Action::SetNeighbors`].
    SetNeighbors(NodeId, LayerId, Seq<NodeId>),
    /// See [`Action::DeleteNeighbors`].
    DeleteNeighbors(NodeId),
    /// See [`Action::PutEntryPoint`].
    PutEntryPoint(NodeId, LayerId),
    /// See [`Action::DeleteEntryPoint`].
    DeleteEntryPoint,
    /// See [`Action::Measure`].
    Measure(NodeId),
    /// See [`Action::CountVectors`].
    CountVectors,
    /// See [`Action::Probe`].
    Probe(NodeId),
    /// See [`Action::Compare`].
    Compare(NodeId, NodeId),
    /// See [`Action::Score`].
    Score(NodeId, NodeId),
    /// See [`Action::Proceed`].
    Proceed,
    /// See [`Action::Finish`].
    Finish,
}

impl View for Action {
    type V = ActionModel;

    open spec fn view(&self) -> ActionModel {
        match *self {
            Action::Append => ActionModel::Append,
            Action::Project => ActionModel::Project,
            Action::DrawLevel => ActionModel::DrawLevel,
            Action::GetMetadata(id) => ActionModel::GetMetadata(id),
            Action::PutMetadata(meta) => ActionModel::PutMetadata(meta),
            Action::DeleteMetadata(id) => ActionModel::DeleteMetadata(id),
            Action::GetNeighbors { id, layer } => ActionModel::GetNeighbors(id, layer),
            Action::SetNeighbors { id, layer, neighbors } => ActionModel::SetNeighbors(
                id,
                layer,
                neighbors@,
            ),
            Action::DeleteNeighbors(id) => ActionModel::DeleteNeighbors(id),
            Action::PutEntryPoint { id, layer } => ActionModel::PutEntryPoint(id, layer),
            Action::DeleteEntryPoint => ActionModel::DeleteEntryPoint,
            Action::Measure(id) => ActionModel::Measure(id),
            Action::CountVectors => ActionModel::CountVectors,
            Action::Probe(id) => ActionModel::Probe(id),
            Action::Compare { from, to } => ActionModel::Compare(from, to),
            Action::Score { from, to } => ActionModel::Score(from, to),
            Action::Proceed => ActionModel::Proceed,
            Action::Finish => ActionModel::Finish,
        }
    }
}

/// The outcome of an action.
#[derive(Debug)]
pub enum Reply {
    /// The vector was appended as this node.
    Appended(NodeId),
    /// The products of the vector with the projections.
    Projections(Vec<Scalar>),
    /// The level that was drawn.
    Level(LayerId),
    /// The metadata of the node, if it has any.
    Metadata(Option<NodeMetadata>),
    /// The neighbours of the node; none if it is not on the layer.
    Neighbors(Vec<NodeId>),
    /// The distance, if there is one.
    Distance(Option<Scalar>),
    /// The number of vectors.
    Count(u64),
    /// Whether the node has a vector.
    Present(bool),
    /// The action is done.
    Done,
}

/// An outcome in the abstract.
#[verifier::ext_equal]
pub enum ReplyModel {
    /// See [`Reply::Appended`].
    Appended(NodeId),
    /// See [`Reply::Projections`].
    Projections(Seq<Scalar>),
    /// See [`Reply::Level`].
    Level(LayerId),
    /// See [`Reply::Metadata`].
    Metadata(Option<NodeMetadata>),
    /// See [`Reply::Neighbors`].
    Neighbors(Seq<NodeId>),
    /// See [`Reply::Distance`].
    Distance(Option<Scalar>),
    /// See [`Reply::Count`].
    Count(u64),
    /// See [`Reply::Present`].
    Present(bool),
    /// See [`Reply::Done`].
    Done,
}

impl View for Reply {
    type V = ReplyModel;

    open spec fn view(&self) -> ReplyModel {
        match *self {
            Reply::Appended(id) => ReplyModel::Appended(id),
            Reply::Projections(dots) => ReplyModel::Projections(dots@),
            Reply::Level(level) => ReplyModel::Level(level),
            Reply::Metadata(meta) => ReplyModel::Metadata(meta),
            Reply::Neighbors(list) => ReplyModel::Neighbors(list@),
            Reply::Distance(distance) => ReplyModel::Distance(distance),
            Reply::Count(count) => ReplyModel::Count(count),
            Reply::Present(present) => ReplyModel::Present(present),
            Reply::Done => ReplyModel::Done,
        }
    }
}

} // verus!
