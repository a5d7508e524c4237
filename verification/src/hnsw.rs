//! The index: a layered proximity graph with one entry point on its top
//! layer, built by insertion and queried for the nearest vectors.

use crate::graph::{
    at_layer, closed, closed_at, degree_within, detached, distance_to, has_edge,
    lemma_joined_connected, lemma_reach_self, reach_set, reachable, roomy, secluded,
    strongly_connected, uniform, Graph,
};
use crate::link::{descend, descend_spec, link_down, link_down_spec, pool_from, pool_of, same_shape};
use crate::memtable::{ids_below, lemma_ids_below, MemTable};
use crate::node::{empty_layers, LayerNum, Node, NodeId, NodeView};
use crate::queue::{queue_entries, queue_len, rank_le};
use crate::search::{nothing_closer, search_layer, search_layer_spec};
use crate::select::{backfill, drain_nearest, nearest_first, select_neighbors, select_neighbors_spec};
use crate::vector::{lemma_squared_distance_fits, squared_distance_spec, Vector};
use vstd::prelude::*;

verus! {

/// The node a search starts at, and the layer it sits on: the top layer.
#[derive(Clone, Copy, Debug, PartialEq, Eq, Structural)]
pub struct EntryPoint {
    pub id: NodeId,
    pub layer: LayerNum,
}

/// Mathematical value of an index: its graph and its entry point.
pub struct IndexView {
    pub graph: Graph,
    pub entry: Option<EntryPoint>,
}

impl IndexView {
    /// Number of vectors inserted.
    pub open spec fn len(self) -> nat {
        self.graph.dom().len()
    }

    /// The invariant of the index: identifiers count up from zero; every
    /// edge leads to a node of its layer; all vectors have one dimension;
    /// and the entry point, which exists unless the index is empty, is a
    /// node whose highest layer is the top layer, above which no node
    /// reaches.
    pub open spec fn valid(self) -> bool {
        &&& self.len() <= usize::MAX
        &&& self.graph.dom() == ids_below(self.len())
        &&& forall|id: usize| #[trigger] self.graph.contains_key(id) ==> self.graph[id].id == id
        &&& closed(self.graph)
        &&& uniform(self.graph, self.dimension())
        &&& match self.entry {
            None => self.len() == 0,
            Some(top) => {
                &&& top.layer < usize::MAX
                &&& self.graph.contains_key(top.id)
                &&& self.graph[top.id].layers.len() == top.layer + 1
                &&& forall|id: usize| #[trigger]
                    self.graph.contains_key(id) ==> 1 <= self.graph[id].layers.len() <= top.layer
                        + 1
            },
        }
    }

    /// Number of coordinates of the vectors held; 0 while there is none.
    pub open spec fn dimension(self) -> nat {
        match self.entry {
            Some(top) => self.graph[top.id].vector.len(),
            None => 0,
        }
    }

    /// The index can take, or be asked about, a vector of these coordinates:
    /// it is empty, or the vector has its dimension.
    pub open spec fn accepts(self, v: Seq<i32>) -> bool {
        self.entry is None || v.len() == self.dimension()
    }
}

/// The index after `v` was inserted with birth layer `level`.
///
/// The new node takes the next identifier and exists at the layers 0 to
/// `level`. In an empty index it becomes the entry point. Otherwise a
/// greedy descent from the entry point leads to the layers it exists at,
/// where it is linked with up to `m` neighbours each; and it becomes the
/// entry point if `level` lies above the top layer.
pub open spec fn insert_spec(
    index: IndexView,
    v: Seq<i32>,
    level: usize,
    m: nat,
    m_max: nat,
    ef_construction: nat,
) -> IndexView {
    let id = index.len() as usize;
    let fresh = NodeView { id, vector: v, layers: empty_layers((level + 1) as nat) };
    let g = index.graph.insert(id, fresh);
    let raised = Some(EntryPoint { id, layer: level });
    match index.entry {
        None => IndexView { graph: g, entry: raised },
        Some(top) => IndexView {
            graph: link_down_spec(
                g,
                v,
                id,
                descend_spec(g, v, top.id, top.layer as int, level as int),
                if level < top.layer {
                    level as int
                } else {
                    top.layer as int
                },
                m,
                m_max,
                ef_construction,
            ),
            entry: if level > top.layer {
                raised
            } else {
                index.entry
            },
        },
    }
}

/// The window of the base layer that a query for `q` ends with: a greedy
/// descent from the entry point to layer 1, then a search of layer 0 with
/// a window of `ef`.
pub open spec fn base_window(index: IndexView, q: Seq<i32>, ef: nat) -> Map<usize, (u128, usize)> {
    let top = index.entry->Some_0;
    search_layer_spec(
        index.graph,
        q,
        descend_spec(index.graph, q, top.id, top.layer as int, 0),
        ef,
        0,
    )
}

/// The identifiers of the nodes that a query for `q` returns: the `k`
/// nearest of the base window, nearest first; none on an empty index.
pub open spec fn search_spec(index: IndexView, q: Seq<i32>, k: nat, ef: nat) -> Seq<usize> {
    match index.entry {
        None => Seq::empty(),
        Some(top) => backfill(Seq::empty(), base_window(index, q, ef), k),
    }
}

/// The vectors of the nodes `ids`, in order.
pub open spec fn vectors_of(g: Graph, ids: Seq<usize>) -> Seq<Seq<i32>> {
    Seq::new(ids.len(), |i: int| g[ids[i]].vector)
}

/// The coordinates of each of the vectors, in order.
pub open spec fn coordinates(vectors: Seq<Vector>) -> Seq<Seq<i32>> {
    Seq::new(vectors.len(), |i: int| vectors[i]@)
}

/// An approximate nearest-neighbour index over vectors of one dimension.
pub struct HNSW {
    entry: Option<EntryPoint>,
    mem_table: MemTable,
}

impl View for HNSW {
    type V = IndexView;

    closed spec fn view(&self) -> IndexView {
        IndexView { graph: self.mem_table@, entry: self.entry }
    }
}

impl HNSW {
    /// The store behind the index is in order.
    pub closed spec fn store_wf(&self) -> bool {
        self.mem_table.wf() && self.mem_table.spec_len() == self@.len()
    }

    /// The index is in order: its store is, and its value is valid.
    pub open spec fn wf(&self) -> bool {
        self.store_wf() && self@.valid()
    }

    /// Two results of one query on one index hold the same vectors in the
    /// same order.
    pub proof fn lemma_search_repeats(
        index: IndexView,
        q: Seq<i32>,
        k: nat,
        ef: nat,
        first: Seq<Vector>,
        second: Seq<Vector>,
    )
        requires
            coordinates(first) == vectors_of(index.graph, search_spec(index, q, k, ef)),
            coordinates(second) == vectors_of(index.graph, search_spec(index, q, k, ef)),
        ensures
            first.len() == second.len(),
            forall|i: int| 0 <= i < first.len() ==> first[i]@ == second[i]@,
    {
        let both = vectors_of(index.graph, search_spec(index, q, k, ef));
        assert(coordinates(first).len() == first.len());
        assert(coordinates(second).len() == second.len());
        assert forall|i: int| 0 <= i < first.len() implies first[i]@ == second[i]@ by {
            assert(coordinates(first)[i] == both[i]);
            assert(coordinates(second)[i] == both[i]);
        }
    }

    /// An empty index.
    pub fn new() -> (index: Self)
        ensures
            index.wf(),
            index@.entry is None,
            index@.graph == Map::<usize, NodeView>::empty(),
            index@.len() == 0,
    {
        let index = HNSW { entry: None, mem_table: MemTable::new() };
        proof {
            assert(index@.graph.dom() =~= Set::empty());
            assert(index@.graph.dom() =~= ids_below(0));
            assert forall|layer: int| closed_at(index@.graph, layer) by {}
        }
        index
    }

    /// Number of vectors inserted.
    pub fn len(&self) -> (n: usize)
        requires
            self.wf(),
        ensures
            n == self@.len(),
    {
        self.mem_table.len()
    }

    /// Whether no vector was inserted yet.
    pub fn is_empty(&self) -> (empty: bool)
        requires
            self.wf(),
        ensures
            empty == (self@.len() == 0),
            empty == (self@.entry is None),
    {
        proof {
            if self.entry is Some {
                lemma_ids_below(self@.len());
                assert(self@.graph.dom().contains(self.entry->Some_0.id));
            }
        }
        self.entry.is_none()
    }

    /// The entry point; `None` on an empty index.
    pub fn entry_point(&self) -> (entry: Option<EntryPoint>)
        ensures
            entry == self@.entry,
    {
        self.entry
    }

    /// Identifier of the entry point; `None` on an empty index.
    pub fn entry_id(&self) -> (id: Option<NodeId>)
        ensures
            id == match self@.entry {
                Some(top) => Some(top.id),
                None => None,
            },
    {
        match self.entry {
            Some(top) => Some(top.id),
            None => None,
        }
    }

    /// Number of the top layer; 0 on an empty index.
    pub fn top_layer_num(&self) -> (layer: LayerNum)
        ensures
            layer == match self@.entry {
                Some(top) => top.layer,
                None => 0,
            },
    {
        match self.entry {
            Some(top) => top.layer,
            None => 0,
        }
    }

    /// Number of coordinates of the vectors held; `None` on an empty index.
    pub fn dimension(&self) -> (dim: Option<usize>)
        requires
            self.wf(),
        ensures
            match dim {
                Some(n) => self@.entry is Some && n == self@.dimension(),
                None => self@.entry is None,
            },
    {
        match self.entry {
            Some(top) => {
                let node = self.mem_table.get(top.id).unwrap();
                Some(node.vector().len())
            },
            None => None,
        }
    }

    /// A snapshot of the node `id`; `None` where no such identifier was
    /// assigned.
    pub fn node(&self, id: NodeId) -> (found: Option<Node>)
        ensures
            match found {
                Some(node) => self@.graph.contains_key(id) && node@ == self@.graph[id],
                None => !self@.graph.contains_key(id),
            },
    {
        self.mem_table.get(id)
    }

    /// Inserts `vector` with the birth layer `level`, linking it with up to
    /// `m` neighbours on each layer it exists at; a neighbour whose list
    /// thereby grows beyond `m_max` is pruned back to `m_max`. The searches
    /// for neighbours use a window of `ef_construction`.
    pub fn insert(
        &mut self,
        vector: Vector,
        m: usize,
        m_max: usize,
        ef_construction: usize,
        level: LayerNum,
    )
        requires
            old(self).wf(),
            old(self)@.accepts(vector@),
            old(self)@.len() < usize::MAX,
            level < usize::MAX,
        ensures
            final(self).wf(),
            final(self)@ == insert_spec(
                old(self)@,
                vector@,
                level,
                m as nat,
                m_max as nat,
                ef_construction as nat,
            ),
            final(self)@.len() == old(self)@.len() + 1,
            final(self)@.graph.dom() == old(self)@.graph.dom().insert(old(self)@.len() as usize),
            final(self)@.graph[old(self)@.len() as usize].vector == vector@,
            final(self)@.graph[old(self)@.len() as usize].layers.len() == level + 1,
            forall|id: usize| #[trigger]
                old(self)@.graph.contains_key(id) ==> final(self)@.graph[id].vector == old(
                    self,
                )@.graph[id].vector && final(self)@.graph[id].layers.len() == old(
                    self,
                )@.graph[id].layers.len(),
            final(self)@.entry == match old(self)@.entry {
                Some(top) if level <= top.layer => Some(top),
                _ => Some(EntryPoint { id: old(self)@.len() as usize, layer: level }),
            },
            degree_within(old(self)@.graph, m_max as nat) && m <= m_max ==> degree_within(
                final(self)@.graph,
                m_max as nat,
            ),
            strongly_connected(old(self)@.graph, 0) && roomy(old(self)@.graph, 0, m_max as nat)
                && m >= 1 ==> strongly_connected(final(self)@.graph, 0),
    {
        let ghost before = self@;
        let ghost dim = vector@.len();
        let query = vector.clone();
        proof {
            lemma_ids_below(before.len());
        }
        let id = self.mem_table.insert(vector, level);
        let ghost stored = self.mem_table@;
        proof {
            let fresh = NodeView { id, vector: query@, layers: empty_layers((level + 1) as nat) };
            assert(stored == before.graph.insert(id, fresh));
            assert(!before.graph.contains_key(id));
            assert(stored.dom() =~= before.graph.dom().insert(id));
            lemma_ids_below((before.len() + 1) as nat);
            assert(stored.dom().len() == before.len() + 1);
            assert(uniform(stored, dim));
            assert forall|layer: int| closed_at(stored, layer) by {
                assert(closed_at(before.graph, layer));
                assert forall|x: usize, j: int|
                    stored.contains_key(x) && 0 <= j < stored[x].neighbors(layer).len() implies at_layer(
                    stored,
                    #[trigger] stored[x].neighbors(layer)[j],
                    layer,
                ) by {
                    if x != id {
                        assert(at_layer(before.graph, before.graph[x].neighbors(layer)[j], layer));
                    }
                }
            }
            assert forall|l: int| 0 <= l < fresh.layers.len() implies (
            #[trigger] fresh.layers[l]).len() == 0 by {}
            assert forall|at: int| detached(stored, at, id) by {
                assert(closed_at(before.graph, at));
                assert forall|x: usize| !#[trigger] has_edge(stored, at, x, id) by {
                    if has_edge(stored, at, x, id) {
                        let j = choose|j: int|
                            0 <= j < stored[x].neighbors(at).len() && stored[x].neighbors(at)[j]
                                == id;
                        assert(x != id);
                        assert(at_layer(before.graph, before.graph[x].neighbors(at)[j], at));
                    }
                }
            }
            assert(secluded(stored, id));
        }
        match self.entry {
            None => {
                self.entry = Some(EntryPoint { id, layer: level });
                proof {
                    assert(before.graph.dom() =~= Set::empty());
                    assert(before.graph =~= Map::empty());
                    assert forall|cap: nat| degree_within(stored, cap) by {}
                    assert forall|a: usize, b: usize|
                        stored.contains_key(a) && stored.contains_key(b) implies #[trigger] reachable(
                        stored,
                        0,
                        a,
                        b,
                    ) by {
                        lemma_reach_self(stored, 0, a);
                    }
                }
            },
            Some(top) => {
                let start = descend(&self.mem_table, &query, top.id, top.layer, level);
                let floor = if level < top.layer {
                    level
                } else {
                    top.layer
                };
                proof {
                    assert(before.graph.contains_key(top.id));
                    if roomy(before.graph, 0, m_max as nat) {
                        assert forall|x: usize| #[trigger] stored.contains_key(x) implies stored[x].neighbors(
                            0,
                        ).len() < m_max by {
                            if x != id {
                                assert(before.graph.contains_key(x));
                            }
                        }
                    }
                    if degree_within(before.graph, m_max as nat) {
                        assert forall|x: usize, at: int|
                            stored.contains_key(x) && 0 <= at < stored[x].layers.len() implies (
                        #[trigger] stored[x].layers[at]).len() <= m_max by {
                            if x != id {
                                assert(stored[x].layers[at] == before.graph[x].layers[at]);
                            }
                        }
                    }
                }
                link_down(
                    &mut self.mem_table,
                    &query,
                    id,
                    start,
                    floor,
                    m,
                    m_max,
                    ef_construction,
                );
                if level > top.layer {
                    self.entry = Some(EntryPoint { id, layer: level });
                }
                proof {
                    assert(same_shape(stored, self.mem_table@));
                    assert(stored.contains_key(top.id));
                    if strongly_connected(before.graph, 0) && roomy(before.graph, 0, m_max as nat)
                        && m >= 1 {
                        assert(stored.remove(id) =~= before.graph);
                        lemma_joined_connected(stored, self.mem_table@, 0, id);
                    }
                }
            },
        }
        proof {
            let after = self@.graph;
            assert(same_shape(stored, after));
            assert(stored.contains_key(id));
            assert(after.dom() =~= before.graph.dom().insert(id));
            assert(after.dom().len() == before.len() + 1);
            assert(after.dom() =~= ids_below(self@.len()));
            assert forall|x: usize| #[trigger] after.contains_key(x) implies after[x].id == x
                && after[x].vector == stored[x].vector && after[x].layers.len()
                == stored[x].layers.len() by {
                assert(stored.contains_key(x));
            }
            assert forall|x: usize| #[trigger] before.graph.contains_key(x) implies after[x].vector
                == before.graph[x].vector && after[x].layers.len()
                == before.graph[x].layers.len() by {
                assert(stored.contains_key(x));
                assert(x != id);
            }
            assert forall|x: usize| #[trigger] after.contains_key(x) implies after[x].vector.len()
                == dim by {
                assert(stored.contains_key(x));
            }
            assert(uniform(after, self@.dimension()));
            let top = self@.entry->Some_0;
            assert forall|x: usize| #[trigger] after.contains_key(x) implies 1
                <= after[x].layers.len() <= top.layer + 1 by {
                assert(stored.contains_key(x));
                if x != id {
                    assert(before.graph.contains_key(x));
                }
            }
        }
    }

    /// The `k` vectors nearest to `query` that a search with a window of
    /// `ef` finds, nearest first; none on an empty index.
    ///
    /// There are as many as the window of the base layer holds, up to `k`.
    /// Where a walk along the base layer leads from every node to every
    /// other and the window is larger than the index, these are `k`
    /// vectors, or all if the index holds fewer.
    pub fn search(&self, query: Vector, k: usize, ef: usize) -> (result: Vec<Vector>)
        requires
            self.wf(),
            self@.accepts(query@),
        ensures
            coordinates(result@) == vectors_of(
                self@.graph,
                search_spec(self@, query@, k as nat, ef as nat),
            ),
            result@.len() <= k,
            result@.len() <= self@.len(),
            self@.entry is None ==> result@.len() == 0,
            self@.entry is Some ==> result@.len() == if k <= base_window(
                self@,
                query@,
                ef as nat,
            ).len() {
                k as nat
            } else {
                base_window(self@, query@, ef as nat).len()
            },
            strongly_connected(self@.graph, 0) && ef > self@.len() ==> result@.len() == if k
                <= self@.len() {
                k as nat
            } else {
                self@.len()
            },
            forall|a: int, b: int|
                0 <= a < b < result@.len() ==> squared_distance_spec(
                    query@,
                    (#[trigger] result@[a])@,
                ) <= squared_distance_spec(query@, (#[trigger] result@[b])@),
    {
        let mut result: Vec<Vector> = Vec::new();
        let ghost g = self@.graph;
        match self.entry {
            None => {
                proof {
                    assert(coordinates(result@) =~= vectors_of(g, Seq::empty()));
                    assert(g.dom() =~= Set::empty());
                }
            },
            Some(top) => {
                let start = descend(&self.mem_table, &query, top.id, top.layer, 0);
                assert(closed_at(g, 0));
                let found = search_layer(&self.mem_table, &query, start, ef, 0);
                let ghost window = queue_entries(found);
                proof {
                    lemma_ids_below(self@.len());
                    assert(window.dom().subset_of(g.dom()));
                    vstd::set_lib::lemma_len_subset(window.dom(), g.dom());
                    if strongly_connected(g, 0) && ef > self@.len() {
                        assert forall|x: usize| g.dom().contains(x) implies window.dom().contains(
                            x,
                        ) by {
                            assert(reachable(g, 0, start, x));
                        }
                        assert(window.dom() =~= g.dom());
                    }
                }
                let ids = drain_nearest(found, k);
                let mut i: usize = 0;
                proof {
                    assert(coordinates(result@) =~= vectors_of(g, ids@.take(0)));
                    query.lemma_len_fits();
                    assert forall|a: int, b: int| 0 <= a < b < ids@.len() implies distance_to(
                        g,
                        query@,
                        #[trigger] ids@[a],
                    ) <= distance_to(g, query@, #[trigger] ids@[b]) by {
                        lemma_squared_distance_fits(query@, g[ids@[a]].vector);
                        lemma_squared_distance_fits(query@, g[ids@[b]].vector);
                        assert(rank_le(window[ids@[a]], window[ids@[b]]));
                    }
                }
                while i < ids.len()
                    invariant
                        g == self.mem_table@,
                        i <= ids@.len(),
                        result@.len() == i,
                        forall|j: int| 0 <= j < ids@.len() ==> g.contains_key(#[trigger] ids@[j]),
                        coordinates(result@) == vectors_of(g, ids@.take(i as int)),
                    decreases ids@.len() - i,
                {
                    let node = self.mem_table.get(ids[i]).unwrap();
                    let ghost held = result@;
                    result.push(node.into_vector());
                    proof {
                        let shorter = ids@.take(i as int);
                        let longer = ids@.take(i + 1);
                        assert forall|j: int| 0 <= j < longer.len() implies coordinates(
                            result@,
                        )[j] == vectors_of(g, longer)[j] by {
                            if j < shorter.len() {
                                assert(coordinates(held)[j] == vectors_of(g, shorter)[j]);
                            }
                        }
                        assert(coordinates(result@) =~= vectors_of(g, longer));
                    }
                    i = i + 1;
                }
                proof {
                    assert(ids@.take(ids@.len() as int) == ids@);
                    assert forall|a: int, b: int|
                        0 <= a < b < result@.len() implies squared_distance_spec(
                        query@,
                        (#[trigger] result@[a])@,
                    ) <= squared_distance_spec(query@, (#[trigger] result@[b])@) by {
                        assert(coordinates(result@)[a] == vectors_of(g, ids@)[a]);
                        assert(coordinates(result@)[b] == vectors_of(g, ids@)[b]);
                        assert(distance_to(g, query@, ids@[a]) <= distance_to(g, query@, ids@[b]));
                    }
                }
            },
        }
        result
    }

    /// The nodes that a search of `layer` from `entry` ends with, nearest to
    /// `query` first: the window of a greedy best-first walk along the
    /// edges of the layer that keeps the `ef` nearest nodes met.
    ///
    /// Every node returned is reached from `entry`. A window larger than the
    /// index returns every node so reached; so where a walk leads from
    /// every node of the layer to every other, every node is returned.
    pub fn search_layer(&self, query: &Vector, entry: NodeId, ef: usize, layer: LayerNum) -> (ids:
        Vec<NodeId>)
        requires
            self.wf(),
            self@.accepts(query@),
            at_layer(self@.graph, entry, layer as int),
        ensures
            ids@ == nearest_first(
                search_layer_spec(self@.graph, query@, entry, ef as nat, layer as int),
            ),
            1 <= ids@.len(),
            ids@.len() <= ef || ids@.len() == 1,
            ids@.no_duplicates(),
            forall|k: int|
                0 <= k < ids@.len() ==> at_layer(self@.graph, #[trigger] ids@[k], layer as int)
                    && reachable(self@.graph, layer as int, entry, ids@[k]),
            ef > self@.len() ==> ids@.to_set() == reach_set(self@.graph, layer as int, entry),
            ef > self@.len() && strongly_connected(self@.graph, layer as int) ==> ids@.to_set()
                == self@.graph.dom(),
            nothing_closer(self@.graph, query@, layer as int, entry) ==> ids@.contains(entry),
            forall|a: int, b: int|
                0 <= a < b < ids@.len() ==> distance_to(self@.graph, query@, #[trigger] ids@[a])
                    <= distance_to(self@.graph, query@, #[trigger] ids@[b]),
    {
        let ghost g = self@.graph;
        assert(closed_at(g, layer as int));
        let found = search_layer(&self.mem_table, query, entry, ef, layer);
        let ghost window = queue_entries(found);
        let size = queue_len(&found);
        let ids = drain_nearest(found, size);
        proof {
            assert forall|k: int| 0 <= k < ids@.len() implies at_layer(
                g,
                #[trigger] ids@[k],
                layer as int,
            ) && reachable(g, layer as int, entry, ids@[k]) by {
                assert(window.dom().contains(ids@[k]));
                assert(reach_set(g, layer as int, entry).contains(ids@[k]));
            }
            if ef > self@.len() && strongly_connected(g, layer as int) {
                assert forall|x: usize| g.dom().contains(x) implies window.dom().contains(x) by {
                    assert(reachable(g, layer as int, entry, x));
                }
                assert(window.dom() =~= g.dom());
            }
            if nothing_closer(g, query@, layer as int, entry) {
                assert(ids@.to_set().contains(entry));
            }
            query.lemma_len_fits();
            assert forall|a: int, b: int| 0 <= a < b < ids@.len() implies distance_to(
                g,
                query@,
                #[trigger] ids@[a],
            ) <= distance_to(g, query@, #[trigger] ids@[b]) by {
                lemma_squared_distance_fits(query@, g[ids@[a]].vector);
                lemma_squared_distance_fits(query@, g[ids@[b]].vector);
                assert(rank_le(window[ids@[a]], window[ids@[b]]));
            }
        }
        ids
    }

    /// Picks up to `m` neighbours for `query` among `candidates`, nodes of
    /// `layer`, each ranked by its distance to `query`.
    ///
    /// With `extend_candidates` the candidates are first joined by their
    /// own neighbours at `layer`. The candidates are then taken nearest
    /// first: the first is selected, and a later one is selected where it
    /// is at least as close to the query as to every node selected before,
    /// and set aside where it is not. With `keep_pruned_connections` the
    /// candidates set aside fill the selection up to `m`, nearest first.
    pub fn select_neighbors(
        &self,
        query: &Vector,
        candidates: &Vec<NodeId>,
        m: usize,
        layer: LayerNum,
        extend_candidates: bool,
        keep_pruned_connections: bool,
    ) -> (selected: Vec<NodeId>)
        requires
            self.wf(),
            self@.accepts(query@),
            forall|k: int|
                0 <= k < candidates@.len() ==> at_layer(
                    self@.graph,
                    #[trigger] candidates@[k],
                    layer as int,
                ),
        ensures
            selected@ == select_neighbors_spec(
                self@.graph,
                query@,
                pool_of(self@.graph, query@, candidates@),
                m as nat,
                layer as int,
                extend_candidates,
                keep_pruned_connections,
            ),
            selected@.len() <= m,
            selected@.no_duplicates(),
            m >= 1 && candidates@.len() > 0 ==> selected@.len() >= 1,
            forall|k: int|
                0 <= k < selected@.len() ==> at_layer(
                    self@.graph,
                    #[trigger] selected@[k],
                    layer as int,
                ),
    {
        let ghost g = self@.graph;
        proof {
            assert(closed_at(g, layer as int));
            if self.entry is None {
                lemma_ids_below(0);
                assert(g.dom() =~= Set::empty());
            }
        }
        let pool = pool_from(&self.mem_table, query, candidates, layer);
        proof {
            if candidates@.len() > 0 {
                assert(queue_entries(pool).contains_key(candidates@[0]));
            }
        }
        select_neighbors(
            &self.mem_table,
            query,
            pool,
            m,
            layer,
            extend_candidates,
            keep_pruned_connections,
        )
    }
}

} // verus!
