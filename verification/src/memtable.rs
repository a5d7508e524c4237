//! The node store: owns every node of the graph and hands out the
//! identifiers, which count up from zero and are never reused.

use crate::node::{empty_layers, Node, NodeId, NodeView, LayerNum};
use crate::vector::Vector;
use dashmap::DashMap;
use std::collections::hash_map::RandomState;
use vstd::prelude::*;

verus! {

#[verifier::external_type_specification]
#[verifier::external_body]
#[verifier::reject_recursive_types(K)]
#[verifier::reject_recursive_types(V)]
#[verifier::reject_recursive_types(S)]
pub struct ExDashMap<K, V, S>(DashMap<K, V, S>);

/// The concurrent map that holds the nodes by identifier.
pub type NodeMap = DashMap<NodeId, Node, RandomState>;

/// What a node map holds: the value of the node stored under each identifier.
pub uninterp spec fn stored_nodes(nodes: NodeMap) -> Map<usize, NodeView>;

/// `DashMap::new`: a map that holds nothing.
#[verifier::external_body]
fn node_map_new() -> (nodes: NodeMap)
    ensures
        stored_nodes(nodes) == (Map::<usize, NodeView>::empty()),
{
    DashMap::new()
}

/// `DashMap::insert`: afterwards `id` maps to `node`, whether or not it was
/// present before, and every other entry is as it was. The wrapper holds no
/// reference into the map, so the call cannot block on itself.
#[verifier::external_body]
fn node_map_insert(nodes: &mut NodeMap, id: NodeId, node: Node)
    ensures
        stored_nodes(*final(nodes)) == stored_nodes(*old(nodes)).insert(id, node@),
{
    nodes.insert(id, node);
}

/// `DashMap::get`, followed by a copy of the node found: the result is the
/// node stored under `id`, or `None` where the map has no such key. The
/// guard that `get` returns is dropped before the wrapper returns.
#[verifier::external_body]
fn node_map_get(nodes: &NodeMap, id: NodeId) -> (found: Option<Node>)
    ensures
        match found {
            Some(node) => stored_nodes(*nodes).contains_key(id) && node@ == stored_nodes(
                *nodes,
            )[id],
            None => !stored_nodes(*nodes).contains_key(id),
        },
{
    nodes.get(&id).map(|entry| entry.value().clone())
}

/// The identifiers below `n`.
pub open spec fn ids_below(n: nat) -> Set<usize> {
    Set::new(|id: usize| id < n)
}

/// There are exactly `n` identifiers below `n`.
pub proof fn lemma_ids_below(n: nat)
    requires
        n <= usize::MAX,
    ensures
        ids_below(n).finite(),
        ids_below(n).len() == n,
    decreases n,
{
    if n == 0 {
        assert(ids_below(n) =~= Set::empty());
    } else {
        lemma_ids_below((n - 1) as nat);
        assert(ids_below(n) =~= ids_below((n - 1) as nat).insert((n - 1) as usize));
    }
}

/// Why a store operation was refused.
#[derive(Debug, Clone, Copy, PartialEq, Eq, Structural)]
pub enum StoreError {
    /// The store holds no node under the identifier given.
    NotFound,
}

/// Repository of the nodes, indexed by the identifier it assigned to each.
pub struct MemTable {
    nodes: NodeMap,
    next_node_id: usize,
}

impl View for MemTable {
    type V = Map<usize, NodeView>;

    closed spec fn view(&self) -> Map<usize, NodeView> {
        stored_nodes(self.nodes)
    }
}

impl MemTable {
    /// Number of nodes stored, which is also the next identifier to assign.
    pub closed spec fn spec_len(&self) -> usize {
        self.next_node_id
    }

    /// The store holds exactly the identifiers assigned so far, each with a
    /// node that carries it.
    pub open spec fn wf(&self) -> bool {
        &&& self@.dom() == ids_below(self.spec_len() as nat)
        &&& forall|id: usize| #[trigger] self@.contains_key(id) ==> self@[id].id == id
    }

    /// An empty store.
    pub fn new() -> (store: Self)
        ensures
            store.wf(),
            store.spec_len() == 0,
            store@ == Map::<usize, NodeView>::empty(),
    {
        let store = MemTable { nodes: node_map_new(), next_node_id: 0 };
        assert(store@.dom() =~= ids_below(0));
        store
    }

    /// Number of nodes stored.
    #[verifier::when_used_as_spec(spec_len)]
    pub fn len(&self) -> (n: usize)
        ensures
            n == self.spec_len(),
    {
        self.next_node_id
    }

    /// Stores `vector` under a fresh identifier, with an empty neighbour
    /// list at every layer from 0 to `birth_layer`, and returns the
    /// identifier.
    pub fn insert(&mut self, vector: Vector, birth_layer: LayerNum) -> (id: NodeId)
        requires
            old(self).wf(),
            old(self).spec_len() < usize::MAX,
            birth_layer < usize::MAX,
        ensures
            final(self).wf(),
            id == old(self).spec_len(),
            final(self).spec_len() == old(self).spec_len() + 1,
            final(self)@ == old(self)@.insert(
                id,
                NodeView {
                    id,
                    vector: vector@,
                    layers: empty_layers((birth_layer + 1) as nat),
                },
            ),
    {
        let id = self.next_node_id;
        let mut node = Node::new(id, vector);
        node.set_neighbor_ids(birth_layer, Vec::new());
        proof {
            assert(node@.layers =~= empty_layers((birth_layer + 1) as nat));
        }
        node_map_insert(&mut self.nodes, id, node);
        self.next_node_id = id + 1;
        proof {
            assert(self@.dom() =~= ids_below(self.spec_len() as nat));
        }
        id
    }

    /// A snapshot of the node stored under `id`, or `None` where the store
    /// has assigned no such identifier.
    pub fn get(&self, id: NodeId) -> (found: Option<Node>)
        ensures
            match found {
                Some(node) => self@.contains_key(id) && node@ == self@[id],
                None => !self@.contains_key(id),
            },
    {
        node_map_get(&self.nodes, id)
    }

    /// Replaces the neighbour list of `id` at `layer` by `new_list`.
    pub fn update_neighbors(&mut self, id: NodeId, layer: LayerNum, new_list: Vec<NodeId>) -> (done:
        Result<(), StoreError>)
        requires
            old(self).wf(),
            layer < usize::MAX,
        ensures
            final(self).wf(),
            final(self).spec_len() == old(self).spec_len(),
            done is Ok <==> old(self)@.contains_key(id),
            done is Ok ==> final(self)@ == old(self)@.insert(
                id,
                old(self)@[id].with_neighbors(layer as int, new_list@),
            ),
            done is Err ==> final(self)@ == old(self)@ && done == Err::<(), StoreError>(
                StoreError::NotFound,
            ),
    {
        match node_map_get(&self.nodes, id) {
            Some(mut node) => {
                node.set_neighbor_ids(layer, new_list);
                node_map_insert(&mut self.nodes, id, node);
                proof {
                    assert(self@.dom() =~= old(self)@.dom());
                }
                Ok(())
            },
            None => Err(StoreError::NotFound),
        }
    }

    /// Appends `neighbor_id` to the neighbour list of `id` at `layer`,
    /// leaving the other lists as they are.
    pub fn append_neighbor(&mut self, id: NodeId, layer: LayerNum, neighbor_id: NodeId) -> (done:
        Result<(), StoreError>)
        requires
            old(self).wf(),
            layer < usize::MAX,
        ensures
            final(self).wf(),
            final(self).spec_len() == old(self).spec_len(),
            done is Ok <==> old(self)@.contains_key(id),
            done is Ok ==> final(self)@ == old(self)@.insert(
                id,
                old(self)@[id].with_neighbors(
                    layer as int,
                    old(self)@[id].neighbors(layer as int).push(neighbor_id),
                ),
            ),
            done is Err ==> final(self)@ == old(self)@ && done == Err::<(), StoreError>(
                StoreError::NotFound,
            ),
    {
        match node_map_get(&self.nodes, id) {
            Some(mut node) => {
                node.add_neighbor(layer, neighbor_id);
                node_map_insert(&mut self.nodes, id, node);
                proof {
                    assert(self@.dom() =~= old(self)@.dom());
                }
                Ok(())
            },
            None => Err(StoreError::NotFound),
        }
    }
}

} // verus!
