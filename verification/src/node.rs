//! Graph nodes: one vector and, for each layer the node exists at, the ordered
//! list of its neighbours' identifiers.

use crate::vector::Vector;
use vstd::prelude::*;

verus! {

/// Identifier that the store assigns to a node.
pub type NodeId = usize;

/// Number of a graph layer; layer 0 is the base layer.
pub type LayerNum = usize;

/// Mathematical value of a node: its identifier, its coordinates and one
/// neighbour list per layer, indexed by layer number.
pub struct NodeView {
    pub id: usize,
    pub vector: Seq<i32>,
    pub layers: Seq<Seq<usize>>,
}

/// The neighbour list at `layer`, empty where the node has no such layer.
pub open spec fn layer_of(layers: Seq<Seq<usize>>, layer: int) -> Seq<usize> {
    if 0 <= layer < layers.len() {
        layers[layer]
    } else {
        Seq::empty()
    }
}

/// `layers` with the list at `layer` replaced by `list`. Where `layer` lies
/// above the lists held so far, the layers in between come into being with
/// empty lists.
pub open spec fn put_layer(layers: Seq<Seq<usize>>, layer: int, list: Seq<usize>) -> Seq<
    Seq<usize>,
> {
    Seq::new(
        if layer < layers.len() {
            layers.len()
        } else {
            (layer + 1) as nat
        },
        |l: int|
            if l == layer {
                list
            } else {
                layer_of(layers, l)
            },
    )
}

/// `count` empty neighbour lists.
pub open spec fn empty_layers(count: nat) -> Seq<Seq<usize>> {
    Seq::new(count, |l: int| Seq::<usize>::empty())
}

impl NodeView {
    /// The neighbour list of this node at `layer`.
    pub open spec fn neighbors(self, layer: int) -> Seq<usize> {
        layer_of(self.layers, layer)
    }

    /// This node with its neighbour list at `layer` replaced by `list`.
    pub open spec fn with_neighbors(self, layer: int, list: Seq<usize>) -> NodeView {
        NodeView { id: self.id, vector: self.vector, layers: put_layer(self.layers, layer, list) }
    }
}

/// A vector with its identifier and its neighbour lists.
#[derive(Debug)]
pub struct Node {
    id: NodeId,
    vector: Vector,
    neighbor_ids: Vec<Vec<NodeId>>,
}

impl View for Node {
    type V = NodeView;

    closed spec fn view(&self) -> NodeView {
        NodeView {
            id: self.id,
            vector: self.vector@,
            layers: Seq::new(self.neighbor_ids@.len(), |l: int| self.neighbor_ids@[l]@),
        }
    }
}

impl Node {
    /// A node that exists at no layer yet.
    pub fn new(id: NodeId, vector: Vector) -> (node: Self)
        ensures
            node@ == (NodeView { id, vector: vector@, layers: Seq::empty() }),
    {
        let node = Node { id, vector, neighbor_ids: Vec::new() };
        assert(node@.layers =~= Seq::empty());
        node
    }

    /// The node's vector.
    pub fn vector(&self) -> (v: &Vector)
        ensures
            v@ == self@.vector,
    {
        &self.vector
    }

    /// Gives up the node for its vector.
    pub fn into_vector(self) -> (v: Vector)
        ensures
            v@ == self@.vector,
    {
        self.vector
    }

    /// The node's identifier.
    pub fn id(&self) -> (id: NodeId)
        ensures
            id == self@.id,
    {
        self.id
    }

    /// Number of layers the node exists at.
    pub fn layer_count(&self) -> (n: usize)
        ensures
            n == self@.layers.len(),
    {
        self.neighbor_ids.len()
    }

    /// The neighbour list at `layer`, or `None` where the node has no such
    /// layer.
    pub fn neighbor_ids(&self, layer: LayerNum) -> (list: Option<&Vec<NodeId>>)
        ensures
            match list {
                Some(ids) => layer < self@.layers.len() && ids@ == self@.layers[layer as int],
                None => layer >= self@.layers.len(),
            },
    {
        if layer < self.neighbor_ids.len() {
            Some(&self.neighbor_ids[layer])
        } else {
            None
        }
    }

    /// Appends `neighbor_id` to the list at `layer`, leaving the other lists
    /// as they are.
    pub fn add_neighbor(&mut self, layer: LayerNum, neighbor_id: NodeId)
        requires
            layer < usize::MAX,
        ensures
            final(self)@ == old(self)@.with_neighbors(
                layer as int,
                old(self)@.neighbors(layer as int).push(neighbor_id),
            ),
    {
        self.grow_to(layer);
        let ghost grown = self@.layers;
        self.neighbor_ids[layer].push(neighbor_id);
        proof {
            let list = old(self)@.neighbors(layer as int).push(neighbor_id);
            let want = put_layer(old(self)@.layers, layer as int, list);
            assert(self@.layers.len() == grown.len());
            assert forall|l: int| 0 <= l < want.len() implies self@.layers[l] == want[l] by {
                if l != layer {
                    assert(self@.layers[l] == grown[l]);
                } else {
                    assert(grown[l] == layer_of(old(self)@.layers, l));
                    assert(self@.layers[l] == grown[l].push(neighbor_id));
                }
            }
            assert(self@.layers =~= want);
        }
    }

    /// Replaces the list at `layer` by `neighbor_ids`.
    pub fn set_neighbor_ids(&mut self, layer: LayerNum, neighbor_ids: Vec<NodeId>)
        requires
            layer < usize::MAX,
        ensures
            final(self)@ == old(self)@.with_neighbors(layer as int, neighbor_ids@),
    {
        self.grow_to(layer);
        let ghost grown = self@.layers;
        self.neighbor_ids.set(layer, neighbor_ids);
        proof {
            let want = put_layer(old(self)@.layers, layer as int, neighbor_ids@);
            assert forall|l: int| 0 <= l < want.len() implies self@.layers[l] == want[l] by {
                if l != layer {
                    assert(self@.layers[l] == grown[l]);
                }
            }
            assert(self@.layers =~= want);
        }
    }

    /// Makes the node exist at every layer up to `layer`, with empty lists at
    /// the layers that are new.
    fn grow_to(&mut self, layer: LayerNum)
        requires
            layer < usize::MAX,
        ensures
            final(self)@.id == old(self)@.id,
            final(self)@.vector == old(self)@.vector,
            final(self)@.layers.len() > layer,
            final(self)@.layers.len() >= old(self)@.layers.len(),
            final(self)@.layers.len() == old(self)@.layers.len() || final(self)@.layers.len()
                == layer + 1,
            forall|l: int|
                0 <= l < final(self)@.layers.len() ==> #[trigger] final(self)@.layers[l]
                    == layer_of(old(self)@.layers, l),
    {
        while self.neighbor_ids.len() <= layer
            invariant
                layer < usize::MAX,
                self.id == old(self).id,
                self.vector == old(self).vector,
                self@.layers.len() >= old(self)@.layers.len(),
                self@.layers.len() == old(self)@.layers.len() || self@.layers.len() <= layer + 1,
                forall|l: int|
                    0 <= l < self@.layers.len() ==> #[trigger] self@.layers[l] == layer_of(
                        old(self)@.layers,
                        l,
                    ),
            decreases layer + 1 - self.neighbor_ids.len(),
        {
            let ghost before = self@.layers;
            self.neighbor_ids.push(Vec::new());
            proof {
                assert(self@.layers =~= before.push(Seq::empty()));
                assert forall|l: int| 0 <= l < self@.layers.len() implies #[trigger] self@.layers[l]
                    == layer_of(old(self)@.layers, l) by {
                    if l < before.len() {
                        assert(self@.layers[l] == before[l]);
                    }
                }
            }
        }
    }
}

impl Clone for Node {
    fn clone(&self) -> (node: Self)
        ensures
            node@ == self@,
    {
        let mut lists: Vec<Vec<NodeId>> = Vec::with_capacity(self.neighbor_ids.len());
        let mut l: usize = 0;
        while l < self.neighbor_ids.len()
            invariant
                l <= self.neighbor_ids@.len(),
                lists@.len() == l,
                forall|k: int| 0 <= k < l ==> #[trigger] lists@[k]@ == self.neighbor_ids@[k]@,
            decreases self.neighbor_ids@.len() - l,
        {
            lists.push(copy_ids(&self.neighbor_ids[l]));
            l = l + 1;
        }
        let node = Node { id: self.id, vector: self.vector.clone(), neighbor_ids: lists };
        assert(node@.layers =~= self@.layers);
        node
    }
}

/// A fresh list holding the same identifiers in the same order.
pub fn copy_ids(ids: &Vec<NodeId>) -> (copy: Vec<NodeId>)
    ensures
        copy@ == ids@,
{
    let mut copy: Vec<NodeId> = Vec::with_capacity(ids.len());
    let mut i: usize = 0;
    while i < ids.len()
        invariant
            i <= ids@.len(),
            copy@ == ids@.take(i as int),
        decreases ids@.len() - i,
    {
        copy.push(ids[i]);
        i = i + 1;
        assert(ids@.take(i as int) == ids@.take(i - 1).push(ids@[i - 1]));
    }
    assert(ids@.take(i as int) == ids@);
    copy
}

} // verus!
