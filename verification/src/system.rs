//! An index together with its surroundings.
//!
//! The laws of the operations speak of a whole system: the index in memory, the
//! store with its edges, metadata and entry point, and the vectors with the
//! distances between them. Here it is said what each action does to a system.

use vstd::prelude::*;

use crate::index::IndexModel;
use crate::layer_laws::LayerPicture;
use crate::protocol::{ActionModel, ReplyModel};
use crate::scalar::Scalar;
use crate::selection::Surroundings;
use crate::types::{LayerId, NodeId, NodeMetadata};
use crate::upper_graph::in_memory;
use crate::vector_file::HEADER_SIZE;
use crate::vector_laws::{after_put, fetched, stored_count};

verus! {

/// The file of vectors, and what an operation brings along.
pub struct Vectors {
    /// The contents of the file.
    pub image: Seq<u8>,
    /// The dimension of the vectors.
    pub dimension: nat,
    /// The distance of two vectors.
    pub metric: spec_fn(Seq<Scalar>, Seq<Scalar>) -> Scalar,
    /// The operation's own vector.
    pub own: Seq<Scalar>,
    /// The products of the operation's own vector with the projections.
    pub dots: Seq<Scalar>,
    /// The level that is drawn.
    pub drawn: LayerId,
}

impl Vectors {
    /// The vector that is read for a node, if it has one.
    pub open spec fn vector(self, id: NodeId) -> Option<Seq<Scalar>> {
        fetched(self.image, id, self.dimension)
    }

    /// The nodes that have vectors.
    pub open spec fn present(self) -> Set<NodeId> {
        Set::new(|id: NodeId| self.vector(id) is Some)
    }

    /// The distance of each node from the operation's own vector, if the node
    /// has one.
    pub open spec fn from_query(self) -> spec_fn(NodeId) -> Option<Scalar> {
        |id: NodeId|
            match self.vector(id) {
                Some(vector) => Some((self.metric)(self.own, vector)),
                None => None,
            }
    }

    /// The distance between two nodes, if both have vectors.
    pub open spec fn between(self) -> spec_fn(NodeId, NodeId) -> Option<Scalar> {
        |from: NodeId, to: NodeId|
            match (self.vector(from), self.vector(to)) {
                (Some(a), Some(b)) => Some((self.metric)(a, b)),
                _ => None,
            }
    }

    /// The number of vectors, which is also the node as which a vector is appended.
    pub open spec fn next(self) -> NodeId {
        stored_count(self.image) as NodeId
    }

    /// The vectors after the operation's own vector has been appended: it is put for
    /// the node that the number of vectors names.
    pub open spec fn appended(self) -> Vectors {
        Vectors { image: after_put(self.image, self.next(), self.own, self.dimension), ..self }
    }

    /// The file has a header, the operation's vector has the file's dimension, and
    /// there is a number left for it.
    pub open spec fn writable(self) -> bool {
        &&& self.image.len() >= HEADER_SIZE
        &&& self.own.len() == self.dimension
        &&& stored_count(self.image) < u64::MAX
    }
}

/// What the store holds.
#[verifier::ext_equal]
pub struct Store {
    /// The edges of the bottom layer.
    pub ground: Map<NodeId, Seq<NodeId>>,
    /// The metadata of the nodes.
    pub metadata: Map<NodeId, NodeMetadata>,
    /// The entry point.
    pub entry: Option<(NodeId, LayerId)>,
}

/// An index, its store, and the vectors.
pub struct System {
    /// The index in memory.
    pub index: IndexModel,
    /// The store.
    pub store: Store,
    /// The vectors.
    pub vectors: Vectors,
}

impl System {
    /// The neighbours of a node at a layer; none if it is not on the layer.
    pub open spec fn edges(self, id: NodeId, layer: LayerId) -> Seq<NodeId> {
        if layer == 0 {
            if self.store.ground.contains_key(id) {
                self.store.ground[id]
            } else {
                Seq::empty()
            }
        } else {
            match self.index.upper.neighbors(id, layer) {
                Some(list) => list,
                None => Seq::empty(),
            }
        }
    }

    /// The metadata of a node, if it has any.
    pub open spec fn metadata(self, id: NodeId) -> Option<NodeMetadata> {
        if self.store.metadata.contains_key(id) {
            Some(self.store.metadata[id])
        } else {
            None
        }
    }

    /// The system after an action, and the outcome. Actions on what is kept in
    /// memory are served by the index, all others by the store and the vectors.
    pub open spec fn performed(self, action: ActionModel) -> (System, ReplyModel) {
        match self.index.served(action) {
            Some((index, reply)) => (System { index, ..self }, reply),
            None => match action {
                ActionModel::Append => (
                    System { vectors: self.vectors.appended(), ..self },
                    ReplyModel::Appended(self.vectors.next()),
                ),
                ActionModel::Project => (self, ReplyModel::Projections(self.vectors.dots)),
                ActionModel::DrawLevel => (self, ReplyModel::Level(self.vectors.drawn)),
                ActionModel::GetMetadata(id) => (self, ReplyModel::Metadata(self.metadata(id))),
                ActionModel::PutMetadata(meta) => (
                    System {
                        store: Store {
                            metadata: self.store.metadata.insert(meta.id, meta),
                            ..self.store
                        },
                        ..self
                    },
                    ReplyModel::Done,
                ),
                ActionModel::DeleteMetadata(id) => (
                    System {
                        store: Store { metadata: self.store.metadata.remove(id), ..self.store },
                        ..self
                    },
                    ReplyModel::Done,
                ),
                ActionModel::GetNeighbors(id, _) => (self, ReplyModel::Neighbors(self.edges(id, 0))),
                ActionModel::SetNeighbors(id, _, neighbors) => (
                    System {
                        store: Store {
                            ground: self.store.ground.insert(id, neighbors),
                            ..self.store
                        },
                        ..self
                    },
                    ReplyModel::Done,
                ),
                ActionModel::DeleteNeighbors(id) => (
                    System {
                        store: Store { ground: self.store.ground.remove(id), ..self.store },
                        ..self
                    },
                    ReplyModel::Done,
                ),
                ActionModel::PutEntryPoint(id, layer) => (
                    System { store: Store { entry: Some((id, layer)), ..self.store }, ..self },
                    ReplyModel::Done,
                ),
                ActionModel::DeleteEntryPoint => (
                    System { store: Store { entry: None, ..self.store }, ..self },
                    ReplyModel::Done,
                ),
                ActionModel::Measure(id) => (
                    self,
                    ReplyModel::Distance((self.vectors.from_query())(id)),
                ),
                ActionModel::CountVectors => (self, ReplyModel::Count(self.vectors.next())),
                ActionModel::Probe(id) => (
                    self,
                    ReplyModel::Present(self.vectors.present().contains(id)),
                ),
                ActionModel::Compare(from, to) => (
                    self,
                    ReplyModel::Distance((self.vectors.between())(from, to)),
                ),
                ActionModel::Score(from, to) => (
                    self,
                    ReplyModel::Distance((self.vectors.between())(from, to)),
                ),
                ActionModel::Proceed => (self, ReplyModel::Done),
                ActionModel::Finish => (self, ReplyModel::Done),
            },
        }
    }

    /// A layer as a search by the operation's vector sees it.
    pub open spec fn picture(self, layer: LayerId) -> LayerPicture {
        LayerPicture {
            distance: self.vectors.from_query(),
            neighbors: |id: NodeId| self.edges(id, layer),
            codes: self.index.sampler.codes,
        }
    }

    /// The nodes as a choice of neighbours sees them.
    pub open spec fn surroundings(self) -> Surroundings {
        Surroundings { present: self.vectors.present(), distance: self.vectors.between() }
    }

    /// Only nodes that a vector was appended for have neighbours.
    pub open spec fn housed(self) -> bool {
        forall|id: NodeId, layer: LayerId|
            (#[trigger] self.edges(id, layer)).len() > 0 ==> id < self.vectors.next()
    }

    /// A node is on no layer: no list is kept for it, not even an empty one.
    pub open spec fn absent(self, id: NodeId) -> bool {
        &&& !self.store.ground.contains_key(id)
        &&& forall|layer: LayerId| (#[trigger] self.index.upper.neighbors(id, layer)) is None
    }

    /// No list of neighbours is longer than the configuration allows, names a
    /// node twice, or names its own node.
    pub open spec fn tidy(self) -> bool {
        forall|id: NodeId, layer: LayerId|
            #![trigger self.edges(id, layer)]
            {
                &&& self.edges(id, layer).len() <= self.index.config.limit(layer)
                &&& self.edges(id, layer).no_duplicates()
                &&& !self.edges(id, layer).contains(id)
            }
    }
}

/// Writing the neighbours of a node at a layer changes them and nothing else. On
/// a layer that is neither the bottom one nor in memory it has no effect.
pub proof fn edges_after_set(
    system: System,
    id: NodeId,
    layer: LayerId,
    neighbors: Seq<NodeId>,
)
    requires
        system.index.upper.valid(),
    ensures
        ({
            let now = system.performed(ActionModel::SetNeighbors(id, layer, neighbors)).0;
            &&& forall|u: NodeId, k: LayerId|
                #[trigger] now.edges(u, k) == if u == id && k == layer && (layer == 0 || in_memory(
                    layer,
                )) {
                    neighbors
                } else {
                    system.edges(u, k)
                }
            &&& now.vectors == system.vectors
            &&& now.store.metadata == system.store.metadata
            &&& now.store.entry == system.store.entry
            &&& now.index.upper.entry == system.index.upper.entry
            &&& now.index.sampler == system.index.sampler
            &&& now.index.config == system.index.config
            &&& now.index.upper.valid()
            &&& forall|u: NodeId| u != id && system.absent(u) ==> #[trigger] now.absent(u)
            &&& layer > 0 ==> now.store == system.store
        }),
{
    let now = system.performed(ActionModel::SetNeighbors(id, layer, neighbors)).0;
    assert forall|u: NodeId| u != id && system.absent(u) implies #[trigger] now.absent(u) by {
        assert forall|k: LayerId| (#[trigger] now.index.upper.neighbors(u, k)) is None by {
            assert(system.index.upper.neighbors(u, k) is None);
        }
    }
    if layer > 0 {
        assert forall|i: int| 0 <= i < 16 implies (
        #[trigger] now.index.upper.layers[i]).dom().finite() by {
            assert(system.index.upper.layers[i].dom().finite());
        }
    }
}

/// Deleting the neighbours of a node at the bottom layer leaves it without any
/// there, and changes nothing else.
pub proof fn edges_after_delete(system: System, id: NodeId)
    ensures
        ({
            let now = system.performed(ActionModel::DeleteNeighbors(id)).0;
            &&& forall|u: NodeId, k: LayerId|
                #[trigger] now.edges(u, k) == if u == id && k == 0 {
                    Seq::<NodeId>::empty()
                } else {
                    system.edges(u, k)
                }
            &&& now == (System { store: Store { ground: now.store.ground, ..system.store }, ..system })
        }),
{
}

/// Dropping a node from memory leaves it without neighbours on the upper layers,
/// and changes no other node's.
pub proof fn edges_after_forget(system: System, id: NodeId)
    requires
        system.index.upper.valid(),
    ensures
        ({
            let now = System { index: system.index.without(id), ..system };
            &&& forall|u: NodeId, k: LayerId|
                #[trigger] now.edges(u, k) == if u == id && k > 0 {
                    Seq::<NodeId>::empty()
                } else {
                    system.edges(u, k)
                }
            &&& now.index.upper.valid()
            &&& !system.store.ground.contains_key(id) ==> now.absent(id)
        }),
{
    let now = System { index: system.index.without(id), ..system };
    assert(now.index.upper.layers[0] =~= Map::<NodeId, Seq<NodeId>>::empty());
    assert forall|i: int| 0 <= i < 16 implies (
    #[trigger] now.index.upper.layers[i]).dom().finite() by {
        assert(system.index.upper.layers[i].dom().finite());
    }
}

} // verus!
