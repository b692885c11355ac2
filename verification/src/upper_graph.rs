//! The upper layers of the graph, kept in memory.
//!
//! Few nodes live above the bottom layer, so their edges fit in memory. The
//! bottom layer's edges are elsewhere: here its layer is always empty.

use std::collections::HashMap;

use vstd::prelude::*;

use crate::types::{LayerId, NodeId};

verus! {

broadcast use vstd::std_specs::hash::group_hash_axioms;

/// The number of layers of the graph.
pub const MAX_LAYERS: usize = 16;

/// A layer whose edges are kept in memory.
pub open spec fn in_memory(layer: LayerId) -> bool {
    0 < layer < MAX_LAYERS
}

/// What an upper graph holds.
#[verifier::ext_equal]
pub struct UpperModel {
    /// The neighbours of the nodes of each layer.
    pub layers: Seq<Map<NodeId, Seq<NodeId>>>,
    /// The node where searches start, and its layer.
    pub entry: Option<(NodeId, LayerId)>,
}

impl UpperModel {
    /// A graph without nodes or an entry point.
    pub open spec fn blank() -> UpperModel {
        UpperModel { layers: Seq::new(MAX_LAYERS as nat, |i: int| Map::empty()), entry: None }
    }

    /// There is a layer of each number, the bottom one is empty, and none holds
    /// infinitely many nodes.
    pub open spec fn valid(self) -> bool {
        &&& self.layers.len() == MAX_LAYERS
        &&& self.layers[0] == Map::<NodeId, Seq<NodeId>>::empty()
        &&& forall|i: int| 0 <= i < MAX_LAYERS ==> (#[trigger] self.layers[i]).dom().finite()
    }

    /// The neighbours of a node at a layer, if the layer is in memory and the
    /// node is on it.
    pub open spec fn neighbors(self, id: NodeId, layer: LayerId) -> Option<Seq<NodeId>> {
        if in_memory(layer) && self.layers[layer as int].contains_key(id) {
            Some(self.layers[layer as int][id])
        } else {
            None
        }
    }

    /// The graph with the neighbours of a node at a layer replaced; it stays as
    /// it is if the layer is not in memory.
    pub open spec fn with_neighbors(
        self,
        id: NodeId,
        layer: LayerId,
        neighbors: Seq<NodeId>,
    ) -> UpperModel {
        if in_memory(layer) {
            UpperModel {
                layers: self.layers.update(
                    layer as int,
                    self.layers[layer as int].insert(id, neighbors),
                ),
                ..self
            }
        } else {
            self
        }
    }

    /// The graph without a node on any layer.
    pub open spec fn without(self, id: NodeId) -> UpperModel {
        UpperModel {
            layers: self.layers.map_values(|layer: Map<NodeId, Seq<NodeId>>| layer.remove(id)),
            ..self
        }
    }

    /// The number of nodes of the first `count` layers, a node counting once for
    /// each layer that it is on.
    pub open spec fn population(self, count: nat) -> nat
        decreases count,
    {
        if count == 0 {
            0
        } else {
            self.population((count - 1) as nat) + self.layers[count - 1].len()
        }
    }
}

/// A number as far as a machine word can count.
pub open spec fn counted(number: nat) -> nat {
    if number <= usize::MAX {
        number
    } else {
        usize::MAX as nat
    }
}

/// The edges of the upper layers, and the entry point.
pub struct UpperGraph {
    layers: Vec<HashMap<NodeId, Vec<NodeId>>>,
    entry_point: Option<(NodeId, LayerId)>,
}

/// The contents of one layer.
spec fn layer_view(layer: HashMap<NodeId, Vec<NodeId>>) -> Map<NodeId, Seq<NodeId>> {
    layer@.map_values(|list: Vec<NodeId>| list@)
}

impl View for UpperGraph {
    type V = UpperModel;

    closed spec fn view(&self) -> UpperModel {
        UpperModel {
            layers: self.layers@.map_values(
                |layer: HashMap<NodeId, Vec<NodeId>>| layer_view(layer),
            ),
            entry: self.entry_point,
        }
    }
}

impl UpperGraph {
    /// A graph without nodes or an entry point.
    pub fn new() -> (graph: Self)
        ensures
            graph@ == UpperModel::blank(),
            graph@.valid(),
    {
        let mut layers: Vec<HashMap<NodeId, Vec<NodeId>>> = Vec::new();
        let mut at: usize = 0;
        while at < MAX_LAYERS
            invariant
                at <= MAX_LAYERS,
                layers@.len() == at,
                forall|i: int|
                    0 <= i < at ==> layer_view(#[trigger] layers@[i]) == Map::<
                        NodeId,
                        Seq<NodeId>,
                    >::empty(),
            decreases MAX_LAYERS - at,
        {
            let layer: HashMap<NodeId, Vec<NodeId>> = HashMap::new();
            assert(layer_view(layer) =~= Map::<NodeId, Seq<NodeId>>::empty());
            layers.push(layer);
            at = at + 1;
        }
        let graph = UpperGraph { layers, entry_point: None };
        assert(graph@.layers =~= UpperModel::blank().layers);
        graph
    }

    /// The node where searches start and its layer, if one is set.
    pub fn get_entry_point(&self) -> (entry: Option<(NodeId, LayerId)>)
        ensures
            entry == self@.entry,
    {
        self.entry_point
    }

    /// Sets the node where searches start.
    pub fn set_entry_point(&mut self, id: NodeId, layer: LayerId)
        ensures
            final(self)@ == (UpperModel { entry: Some((id, layer)), ..old(self)@ }),
    {
        self.entry_point = Some((id, layer));
    }

    /// Leaves searches without a start.
    pub fn clear_entry_point(&mut self)
        ensures
            final(self)@ == (UpperModel { entry: None, ..old(self)@ }),
    {
        self.entry_point = None;
    }

    /// The neighbours of a node at an upper layer, if it is on that layer. The
    /// bottom layer and layers beyond the last hold no node here.
    pub fn get_neighbors(&self, id: NodeId, layer: LayerId) -> (neighbors: Option<Vec<NodeId>>)
        requires
            self@.valid(),
        ensures
            match neighbors {
                Some(list) => self@.neighbors(id, layer) == Some(list@),
                None => self@.neighbors(id, layer) == None::<Seq<NodeId>>,
            },
    {
        if layer == 0 || layer as usize >= MAX_LAYERS {
            return None;
        }
        match self.layers[layer as usize].get(&id) {
            Some(list) => {
                let copy = list.clone();
                assert(copy@ =~= list@);
                Some(copy)
            },
            None => None,
        }
    }

    /// Sets the neighbours of a node at an upper layer. On the bottom layer, and
    /// beyond the last, this does nothing.
    pub fn set_neighbors(&mut self, id: NodeId, layer: LayerId, neighbors: Vec<NodeId>)
        requires
            old(self)@.valid(),
        ensures
            final(self)@ == old(self)@.with_neighbors(id, layer, neighbors@),
            final(self)@.valid(),
    {
        if layer == 0 || layer as usize >= MAX_LAYERS {
            return;
        }
        self.layers[layer as usize].insert(id, neighbors);
        proof {
            let now = layer_view(self.layers@[layer as int]);
            let before = layer_view(old(self).layers@[layer as int]);
            assert(now =~= before.insert(id, neighbors@));
            assert(self@.layers =~= old(self)@.layers.update(
                layer as int,
                before.insert(id, neighbors@),
            ));
            assert(old(self)@.layers[layer as int].dom().finite());
        }
    }

    /// Removes a node from every upper layer.
    pub fn remove_node(&mut self, id: NodeId)
        requires
            old(self)@.valid(),
        ensures
            final(self)@ == old(self)@.without(id),
            final(self)@.valid(),
    {
        let mut at: usize = 0;
        while at < self.layers.len()
            invariant
                at <= self.layers@.len(),
                self.layers@.len() == old(self).layers@.len(),
                self.entry_point == old(self).entry_point,
                forall|i: int|
                    0 <= i < at ==> layer_view(#[trigger] self.layers@[i]) == layer_view(
                        old(self).layers@[i],
                    ).remove(id),
                forall|i: int|
                    at <= i < self.layers@.len() ==> #[trigger] self.layers@[i] == old(
                        self,
                    ).layers@[i],
            decreases self.layers@.len() - at,
        {
            let ghost before = self.layers@;
            self.layers[at].remove(&id);
            assert(layer_view(self.layers@[at as int]) =~= layer_view(before[at as int]).remove(id));
            at = at + 1;
        }
        assert(self@.layers =~= old(self)@.without(id).layers);
        assert(self@.layers[0] =~= Map::<NodeId, Seq<NodeId>>::empty());
        assert forall|i: int| 0 <= i < MAX_LAYERS implies (
        #[trigger] self@.layers[i]).dom().finite() by {
            assert(old(self)@.layers[i].dom().finite());
        }
    }

    /// Whether a node is on an upper layer.
    pub fn contains(&self, id: NodeId, layer: LayerId) -> (found: bool)
        requires
            self@.valid(),
        ensures
            found == (self@.neighbors(id, layer) is Some),
    {
        if layer == 0 || layer as usize >= MAX_LAYERS {
            return false;
        }
        self.layers[layer as usize].contains_key(&id)
    }

    /// The number of nodes on an upper layer; none on the bottom layer or beyond
    /// the last.
    pub fn layer_size(&self, layer: LayerId) -> (size: usize)
        requires
            self@.valid(),
        ensures
            size == if in_memory(layer) {
                self@.layers[layer as int].len()
            } else {
                0
            },
    {
        if layer == 0 || layer as usize >= MAX_LAYERS {
            return 0;
        }
        let size = self.layers[layer as usize].len();
        assert(self@.layers[layer as int].dom() =~= self.layers@[layer as int]@.dom());
        size
    }

    /// The number of nodes on all upper layers together; the largest number that
    /// there is if they are more.
    pub fn total_nodes(&self) -> (total: usize)
        requires
            self@.valid(),
        ensures
            total == counted(self@.population(MAX_LAYERS as nat)),
    {
        let mut total: usize = 0;
        let mut at: usize = 0;
        while at < self.layers.len()
            invariant
                at <= self.layers@.len(),
                self.layers@.len() == MAX_LAYERS,
                total == counted(self@.population(at as nat)),
            decreases self.layers@.len() - at,
        {
            let size: usize = self.layers[at].len();
            assert(self@.layers[at as int].dom() =~= self.layers@[at as int]@.dom());
            total = total.saturating_add(size);
            at = at + 1;
        }
        total
    }
}

impl Default for UpperGraph {
    fn default() -> (graph: Self)
        ensures
            graph@ == UpperModel::blank(),
            graph@.valid(),
    {
        UpperGraph::new()
    }
}

/// What was set is what is found: on every layer in memory, and there alone.
/// Other nodes and other layers keep what they had.
pub proof fn neighbors_after_set(
    graph: UpperModel,
    id: NodeId,
    layer: LayerId,
    neighbors: Seq<NodeId>,
    other: NodeId,
    elsewhere: LayerId,
)
    requires
        graph.valid(),
    ensures
        in_memory(layer) ==> graph.with_neighbors(id, layer, neighbors).neighbors(id, layer)
            == Some(neighbors),
        !in_memory(layer) ==> graph.with_neighbors(id, layer, neighbors) == graph,
        other != id || elsewhere != layer ==> graph.with_neighbors(id, layer, neighbors).neighbors(
            other,
            elsewhere,
        ) == graph.neighbors(other, elsewhere),
        graph.with_neighbors(id, layer, neighbors).entry == graph.entry,
{
}

/// A removed node is on no layer, and no other node is touched.
pub proof fn neighbors_after_removal(
    graph: UpperModel,
    id: NodeId,
    other: NodeId,
    layer: LayerId,
)
    requires
        graph.valid(),
    ensures
        graph.without(id).neighbors(id, layer) == None::<Seq<NodeId>>,
        other != id ==> graph.without(id).neighbors(other, layer) == graph.neighbors(other, layer),
        graph.without(id).entry == graph.entry,
{
}

/// The upper graph keeps fifteen layers, from the first to the fifteenth: what is set there
/// is found, what is set elsewhere is lost.
pub proof fn fifteen_layers_are_kept(
    graph: UpperModel,
    id: NodeId,
    layer: LayerId,
    neighbors: Seq<NodeId>,
)
    requires
        graph.valid(),
    ensures
        graph.with_neighbors(id, layer, neighbors).neighbors(id, layer) == if 1 <= layer <= 15 {
            Some(neighbors)
        } else {
            None
        },
{
}

/// The nodes on the first layers, each with the layer.
pub open spec fn occupied(graph: UpperModel, count: nat) -> Set<(NodeId, int)> {
    Set::new(
        |at: (NodeId, int)|
            0 <= at.1 < count && at.1 <= 255 && graph.neighbors(at.0, at.1 as LayerId) is Some,
    )
}

proof fn lemma_occupied(graph: UpperModel, count: nat)
    requires
        graph.valid(),
        count <= MAX_LAYERS,
    ensures
        occupied(graph, count).finite(),
        occupied(graph, count).len() == graph.population(count),
    decreases count,
{
    if count == 0 {
        assert(occupied(graph, count) =~= Set::<(NodeId, int)>::empty());
    } else {
        let last = count - 1;
        lemma_occupied(graph, last as nat);
        let before = occupied(graph, last as nat);
        let now = occupied(graph, count);
        let nodes = graph.layers[last].dom();
        assert(nodes.finite());
        let pair = |id: NodeId| (id, last);
        let new = nodes.map(pair);
        nodes.lemma_map_finite(pair);
        vstd::set_lib::lemma_map_size(nodes, new, pair);
        assert forall|at: (NodeId, int)| #[trigger] now.contains(at) <==> before.union(
            new,
        ).contains(at) by {
            if at.1 == last {
                if nodes.contains(at.0) {
                    assert(pair(at.0) == at);
                    assert(new.contains(at));
                }
                if last == 0 {
                    assert(!nodes.contains(at.0));
                }
            }
        }
        assert(now =~= before.union(new));
        assert(before.disjoint(new));
        vstd::set_lib::lemma_set_disjoint_lens(before, new);
    }
}

/// All nodes on all upper layers are counted: as many as there are pairs of a node and a
/// layer such that the node is on the layer.
pub proof fn every_node_is_counted(graph: UpperModel)
    requires
        graph.valid(),
    ensures
        Set::new(
            |at: (NodeId, int)| 1 <= at.1 <= 15 && graph.neighbors(at.0, at.1 as LayerId) is Some,
        ).finite(),
        Set::new(
            |at: (NodeId, int)| 1 <= at.1 <= 15 && graph.neighbors(at.0, at.1 as LayerId) is Some,
        ).len() == graph.population(MAX_LAYERS as nat),
{
    lemma_occupied(graph, MAX_LAYERS as nat);
    assert(occupied(graph, MAX_LAYERS as nat) =~= Set::new(
        |at: (NodeId, int)| 1 <= at.1 <= 15 && graph.neighbors(at.0, at.1 as LayerId) is Some,
    ));
}

} // verus!
