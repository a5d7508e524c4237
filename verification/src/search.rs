//! Layer search: greedy best-first traversal of one layer of the graph,
//! keeping a bounded window of the nearest nodes met.

use crate::graph::{
    at_layer, closed_at, distance_to, has_edge, lemma_extremes_exist, lemma_max_item_is,
    lemma_min_item_is, lemma_pool_empty, lemma_pool_insert, lemma_pool_remove, lemma_reach_self,
    lemma_reach_step, lemma_reach_within, max_item, min_item, rank_of, ranked, reach_set, reachable,
    uniform, Graph, Pool,
};
use crate::memtable::{lemma_ids_below, MemTable};
use crate::node::{copy_ids, LayerNum, NodeId};
use crate::queue::{
    queue_entries, queue_len, queue_new, queue_peek_max, queue_pop_max, queue_pop_min, queue_push,
    rank_le, RankQueue,
};
use crate::vector::{lemma_squared_distance_fits, Vector};
use std::collections::HashSet;
use vstd::prelude::*;

verus! {

broadcast use vstd::std_specs::hash::group_hash_axioms;

/// Progress of a layer search: the nodes met so far, the frontier still to
/// expand, and the window of the nearest nodes found.
pub struct SearchState {
    pub visited: Set<usize>,
    pub candidates: Pool,
    pub nearest: Pool,
}

/// The window may take one node more: it holds fewer than `ef` nodes, or
/// the node at distance `distance` is closer than the farthest it holds.
pub open spec fn admits(nearest: Pool, ef: nat, distance: u128) -> bool {
    distance < nearest[max_item(nearest)].0 || nearest.len() < ef
}

/// The window after it took `id`: where that makes it larger than `ef`, the
/// farthest node leaves.
pub open spec fn window_with(nearest: Pool, ef: nat, id: usize, rank: (u128, usize)) -> Pool {
    let grown = nearest.insert(id, rank);
    if grown.len() > ef {
        grown.remove(max_item(grown))
    } else {
        grown
    }
}

/// Meeting the node `id` along an edge: a node met before changes nothing;
/// a new one is marked as met and, where the window admits it, joins both
/// the frontier and the window.
pub open spec fn visit(g: Graph, q: Seq<i32>, ef: nat, s: SearchState, id: usize) -> SearchState {
    if s.visited.contains(id) {
        s
    } else {
        let rank = rank_of(g, q, id);
        if admits(s.nearest, ef, rank.0) {
            SearchState {
                visited: s.visited.insert(id),
                candidates: s.candidates.insert(id, rank),
                nearest: window_with(s.nearest, ef, id, rank),
            }
        } else {
            SearchState { visited: s.visited.insert(id), ..s }
        }
    }
}

/// Meeting the nodes `list[from..]` one after the other.
pub open spec fn expand(
    g: Graph,
    q: Seq<i32>,
    ef: nat,
    s: SearchState,
    list: Seq<usize>,
    from: int,
) -> SearchState
    decreases list.len() - from,
{
    if from < 0 || from >= list.len() {
        s
    } else {
        expand(g, q, ef, visit(g, q, ef, s, list[from]), list, from + 1)
    }
}

/// What bounds the work left: the nodes not met yet and the frontier.
pub open spec fn search_measure(g: Graph, s: SearchState) -> nat {
    g.dom().difference(s.visited).len() + s.candidates.len()
}

/// The graph is finite and closed at `layer`, and the frontier is a finite
/// set of its nodes.
pub open spec fn search_ready(g: Graph, layer: int, s: SearchState) -> bool {
    &&& g.dom().finite()
    &&& closed_at(g, layer)
    &&& s.candidates.dom().finite()
    &&& s.candidates.dom().subset_of(g.dom())
}

/// The search stops at the frontier's nearest node: it lies farther than
/// the farthest node of a window that is full.
pub open spec fn stops_at(s: SearchState, ef: nat) -> bool {
    s.candidates[min_item(s.candidates)].0 > s.nearest[max_item(s.nearest)].0 && s.nearest.len()
        >= ef
}

/// The state after the frontier's nearest node was taken out and its edges
/// at `layer` were followed.
pub open spec fn search_step(g: Graph, q: Seq<i32>, ef: nat, layer: int, s: SearchState)
    -> SearchState {
    let c = min_item(s.candidates);
    expand(
        g,
        q,
        ef,
        SearchState { candidates: s.candidates.remove(c), ..s },
        g[c].neighbors(layer),
        0,
    )
}

/// The window that the search ends with when it goes on from `s`: it takes
/// steps until the frontier is empty or the stop condition holds.
pub open spec fn search_loop(g: Graph, q: Seq<i32>, ef: nat, layer: int, s: SearchState) -> Pool
    decreases search_measure(g, s),
    when search_ready(g, layer, s)
{
    if s.candidates.len() == 0 || stops_at(s, ef) {
        s.nearest
    } else {
        proof {
            lemma_search_step(g, q, ef, layer, s);
        }
        search_loop(g, q, ef, layer, search_step(g, q, ef, layer, s))
    }
}

/// The state a layer search starts in: only the entry node is met, and it
/// is both frontier and window.
pub open spec fn search_start(g: Graph, q: Seq<i32>, entry: usize) -> SearchState {
    SearchState {
        visited: set![entry],
        candidates: map![entry => rank_of(g, q, entry)],
        nearest: map![entry => rank_of(g, q, entry)],
    }
}

/// The window of nearest nodes that a search of `layer` from `entry` for
/// `q` returns, with a budget of `ef` nodes.
pub open spec fn search_layer_spec(g: Graph, q: Seq<i32>, entry: usize, ef: nat, layer: int)
    -> Pool {
    search_loop(g, q, ef, layer, search_start(g, q, entry))
}

/// Meeting a node of a finite graph keeps the frontier a finite set of
/// nodes and does not add to the work left.
pub proof fn lemma_visit(g: Graph, q: Seq<i32>, ef: nat, s: SearchState, id: usize)
    requires
        g.dom().finite(),
        g.contains_key(id),
        s.candidates.dom().finite(),
        s.candidates.dom().subset_of(g.dom()),
    ensures
        visit(g, q, ef, s, id).candidates.dom().finite(),
        visit(g, q, ef, s, id).candidates.dom().subset_of(g.dom()),
        search_measure(g, visit(g, q, ef, s, id)) <= search_measure(g, s),
{
    let t = visit(g, q, ef, s, id);
    if !s.visited.contains(id) {
        assert(g.dom().difference(t.visited) =~= g.dom().difference(s.visited).remove(id));
        assert(g.dom().difference(s.visited).contains(id));
        lemma_pool_insert(s.candidates, id, rank_of(g, q, id));
    }
}

/// Following a list of edges into a finite graph keeps the frontier a
/// finite set of nodes and does not add to the work left.
pub proof fn lemma_expand(
    g: Graph,
    q: Seq<i32>,
    ef: nat,
    s: SearchState,
    list: Seq<usize>,
    from: int,
)
    requires
        g.dom().finite(),
        s.candidates.dom().finite(),
        s.candidates.dom().subset_of(g.dom()),
        forall|j: int| 0 <= j < list.len() ==> g.contains_key(#[trigger] list[j]),
    ensures
        expand(g, q, ef, s, list, from).candidates.dom().finite(),
        expand(g, q, ef, s, list, from).candidates.dom().subset_of(g.dom()),
        search_measure(g, expand(g, q, ef, s, list, from)) <= search_measure(g, s),
    decreases list.len() - from,
{
    if 0 <= from < list.len() {
        lemma_visit(g, q, ef, s, list[from]);
        lemma_expand(g, q, ef, visit(g, q, ef, s, list[from]), list, from + 1);
    }
}

/// A step of the search leaves less work than there was.
pub proof fn lemma_search_step(g: Graph, q: Seq<i32>, ef: nat, layer: int, s: SearchState)
    requires
        search_ready(g, layer, s),
        s.candidates.len() > 0,
    ensures
        search_ready(g, layer, search_step(g, q, ef, layer, s)),
        search_measure(g, search_step(g, q, ef, layer, s)) < search_measure(g, s),
{
    lemma_extremes_exist(s.candidates);
    let c = min_item(s.candidates);
    lemma_pool_remove(s.candidates, c);
    let popped = SearchState { candidates: s.candidates.remove(c), ..s };
    assert(g.contains_key(c)) by {
        assert(s.candidates.dom().contains(c));
    }
    assert forall|j: int| 0 <= j < g[c].neighbors(layer).len() implies g.contains_key(
        #[trigger] g[c].neighbors(layer)[j],
    ) by {
        assert(at_layer(g, g[c].neighbors(layer)[j], layer));
    }
    lemma_expand(g, q, ef, popped, g[c].neighbors(layer), 0);
}

/// The neighbour list of `id` at `layer`, copied out of the store; empty
/// where the node has no such layer.
pub(crate) fn neighbors_of(store: &MemTable, id: NodeId, layer: LayerNum) -> (list: Vec<NodeId>)
    requires
        store@.contains_key(id),
    ensures
        list@ == store@[id].neighbors(layer as int),
{
    let node = store.get(id).unwrap();
    match node.neighbor_ids(layer) {
        Some(ids) => copy_ids(ids),
        None => Vec::new(),
    }
}

/// Rank of the stored node `id` for `query`.
pub(crate) fn rank_in(store: &MemTable, query: &Vector, id: NodeId) -> (rank: (u128, usize))
    requires
        store@.contains_key(id),
        store@[id].vector.len() == query@.len(),
    ensures
        rank == rank_of(store@, query@, id),
{
    let node = store.get(id).unwrap();
    (query.squared_distance(node.vector()), id)
}

/// What holds of a search from `entry` on the way: every node met is
/// reached from `entry`, and frontier and window hold only nodes met. In a
/// search whose window is larger than the graph, moreover, the window
/// holds every node met, and the edges of every node met lead to nodes
/// met, but for the nodes of the frontier and the node `current` whose
/// edges are being followed.
pub open spec fn explored(
    g: Graph,
    layer: int,
    entry: usize,
    exhaustive: bool,
    s: SearchState,
    current: Option<usize>,
) -> bool {
    &&& s.visited.contains(entry)
    &&& s.visited.subset_of(g.dom())
    &&& forall|x: usize| s.visited.contains(x) ==> #[trigger] reachable(g, layer, entry, x)
    &&& s.candidates.dom().subset_of(s.visited)
    &&& s.nearest.dom().subset_of(s.visited)
    &&& exhaustive ==> s.nearest.dom() == s.visited
    &&& exhaustive ==> forall|x: usize, y: usize|
        s.visited.contains(x) && !s.candidates.contains_key(x) && Some(x) != current
            && #[trigger] has_edge(g, layer, x, y) ==> s.visited.contains(y)
}

/// No node reached from `entry` along edges of `layer` is closer to `q`
/// than `entry` is.
pub open spec fn nothing_closer(g: Graph, q: Seq<i32>, layer: int, entry: usize) -> bool {
    forall|x: usize| #[trigger]
        reachable(g, layer, entry, x) ==> distance_to(g, q, x) >= distance_to(g, q, entry)
}

/// Searches `layer` from `entry` for the nodes nearest to `query`, with a
/// window of `ef` nodes.
///
/// Every node of the window is reached from `entry` along edges of the
/// layer. A window larger than the graph ends up holding every node so
/// reached. The entry node stays in the window unless a node closer to the
/// query is reached.
pub(crate) fn search_layer(
    store: &MemTable,
    query: &Vector,
    entry: NodeId,
    ef: usize,
    layer: LayerNum,
) -> (nearest: RankQueue)
    requires
        store.wf(),
        closed_at(store@, layer as int),
        uniform(store@, query@.len()),
        at_layer(store@, entry, layer as int),
    ensures
        queue_entries(nearest) == search_layer_spec(
            store@,
            query@,
            entry,
            ef as nat,
            layer as int,
        ),
        ranked(store@, query@, layer as int, queue_entries(nearest)),
        1 <= queue_entries(nearest).len(),
        queue_entries(nearest).len() <= ef || queue_entries(nearest).len() == 1,
        queue_entries(nearest).dom().subset_of(reach_set(store@, layer as int, entry)),
        ef > store.spec_len() ==> queue_entries(nearest).dom() == reach_set(
            store@,
            layer as int,
            entry,
        ),
        nothing_closer(store@, query@, layer as int, entry) ==> queue_entries(
            nearest,
        ).contains_key(entry),
{
    let ghost g = store@;
    let ghost q = query@;
    let ghost hops = layer as int;
    let ghost budget = ef as nat;
    let ghost exhaustive = ef > store.spec_len();
    let ghost alone = nothing_closer(g, q, hops, entry);
    let mut nearest = queue_new();
    let mut candidates = queue_new();
    let mut visited: HashSet<NodeId> = HashSet::new();
    let entry_rank = rank_in(store, query, entry);
    visited.insert(entry);
    queue_push(&mut nearest, entry, entry_rank);
    queue_push(&mut candidates, entry, entry_rank);
    proof {
        lemma_ids_below(store.spec_len() as nat);
        lemma_pool_insert(Map::empty(), entry, entry_rank);
        lemma_reach_self(g, hops, entry);
        assert(visited@ =~= set![entry]);
        assert(queue_entries(nearest) =~= map![entry => entry_rank]);
        assert(queue_entries(candidates) =~= map![entry => entry_rank]);
        assert(queue_entries(nearest).dom() =~= visited@);
    }
    let mut done = false;
    while !done
        invariant
            store.wf(),
            g == store@,
            q == query@,
            hops == layer as int,
            budget == ef as nat,
            exhaustive == (ef > store.spec_len()),
            g.dom().len() == store.spec_len(),
            uniform(g, q.len()),
            search_ready(
                g,
                hops,
                SearchState {
                    visited: visited@,
                    candidates: queue_entries(candidates),
                    nearest: queue_entries(nearest),
                },
            ),
            explored(
                g,
                hops,
                entry,
                exhaustive,
                SearchState {
                    visited: visited@,
                    candidates: queue_entries(candidates),
                    nearest: queue_entries(nearest),
                },
                None,
            ),
            ranked(g, q, hops, queue_entries(candidates)),
            ranked(g, q, hops, queue_entries(nearest)),
            1 <= queue_entries(nearest).len(),
            queue_entries(nearest).len() <= ef || queue_entries(nearest).len() == 1,
            alone == nothing_closer(g, q, hops, entry),
            alone ==> queue_entries(nearest).contains_key(entry),
            !done ==> search_loop(
                g,
                q,
                budget,
                hops,
                SearchState {
                    visited: visited@,
                    candidates: queue_entries(candidates),
                    nearest: queue_entries(nearest),
                },
            ) == search_layer_spec(g, q, entry, budget, hops),
            done ==> queue_entries(nearest) == search_layer_spec(g, q, entry, budget, hops),
            done && exhaustive ==> queue_entries(nearest).dom() == reach_set(g, hops, entry),
        decreases
                if done {
                    0
                } else {
                    search_measure(
                        g,
                        SearchState {
                            visited: visited@,
                            candidates: queue_entries(candidates),
                            nearest: queue_entries(nearest),
                        },
                    ) + 1
                },
    {
        let ghost before = SearchState {
            visited: visited@,
            candidates: queue_entries(candidates),
            nearest: queue_entries(nearest),
        };
        proof {
            lemma_pool_empty(before.candidates);
            lemma_extremes_exist(before.nearest);
            vstd::set_lib::lemma_len_subset(before.nearest.dom(), g.dom());
        }
        match queue_pop_min(&mut candidates) {
            None => {
                done = true;
                proof {
                    if exhaustive {
                        lemma_reach_within(g, hops, entry, before.visited);
                        assert(before.visited =~= reach_set(g, hops, entry));
                    }
                }
            },
            Some((current, current_rank)) => {
                let farthest = queue_peek_max(&nearest).unwrap();
                proof {
                    lemma_min_item_is(before.candidates, current);
                    lemma_max_item_is(before.nearest, farthest.0);
                    lemma_pool_remove(before.candidates, current);
                }
                if current_rank.0 > farthest.1.0 && queue_len(&nearest) >= ef {
                    done = true;
                } else {
                    let list = neighbors_of(store, current, layer);
                    let ghost popped = SearchState {
                        candidates: before.candidates.remove(current),
                        ..before
                    };
                    let mut j: usize = 0;
                    while j < list.len()
                        invariant
                            store.wf(),
                            g == store@,
                            q == query@,
                            hops == layer as int,
                            budget == ef as nat,
                            exhaustive == (ef > store.spec_len()),
                            g.dom().len() == store.spec_len(),
                            uniform(g, q.len()),
                            g.dom().finite(),
                            closed_at(g, hops),
                            g.contains_key(current),
                            visited@.contains(current),
                            list@ == g[current].neighbors(hops),
                            j <= list@.len(),
                            forall|k: int| 0 <= k < j ==> visited@.contains(#[trigger] list@[k]),
                            explored(
                                g,
                                hops,
                                entry,
                                exhaustive,
                                SearchState {
                                    visited: visited@,
                                    candidates: queue_entries(candidates),
                                    nearest: queue_entries(nearest),
                                },
                                Some(current),
                            ),
                            ranked(g, q, hops, queue_entries(candidates)),
                            ranked(g, q, hops, queue_entries(nearest)),
                            1 <= queue_entries(nearest).len(),
                            queue_entries(nearest).len() <= ef || queue_entries(nearest).len()
                                == 1,
                            alone == nothing_closer(g, q, hops, entry),
                            alone ==> queue_entries(nearest).contains_key(entry),
                            at_layer(g, entry, hops),
                            reachable(g, hops, entry, current),
                            search_measure(
                                g,
                                SearchState {
                                    visited: visited@,
                                    candidates: queue_entries(candidates),
                                    nearest: queue_entries(nearest),
                                },
                            ) <= search_measure(g, popped),
                            expand(
                                g,
                                q,
                                budget,
                                SearchState {
                                    visited: visited@,
                                    candidates: queue_entries(candidates),
                                    nearest: queue_entries(nearest),
                                },
                                list@,
                                j as int,
                            ) == expand(g, q, budget, popped, list@, 0),
                        decreases list@.len() - j,
                    {
                        let neighbor = list[j];
                        let ghost here = SearchState {
                            visited: visited@,
                            candidates: queue_entries(candidates),
                            nearest: queue_entries(nearest),
                        };
                        proof {
                            assert(at_layer(g, g[current].neighbors(hops)[j as int], hops));
                            lemma_visit(g, q, budget, here, neighbor);
                            lemma_extremes_exist(here.nearest);
                            vstd::set_lib::lemma_len_subset(here.nearest.dom(), g.dom());
                            assert(has_edge(g, hops, current, neighbor));
                            lemma_reach_step(g, hops, entry, current, neighbor);
                        }
                        if visited.insert(neighbor) {
                            let rank = rank_in(store, query, neighbor);
                            let worst = queue_peek_max(&nearest).unwrap();
                            proof {
                                lemma_max_item_is(here.nearest, worst.0);
                            }
                            if rank.0 < worst.1.0 || queue_len(&nearest) < ef {
                                queue_push(&mut candidates, neighbor, rank);
                                queue_push(&mut nearest, neighbor, rank);
                                let ghost grown = queue_entries(nearest);
                                proof {
                                    lemma_pool_insert(here.candidates, neighbor, rank);
                                    lemma_pool_insert(here.nearest, neighbor, rank);
                                    lemma_extremes_exist(grown);
                                    vstd::set_lib::lemma_len_subset(grown.dom(), g.dom());
                                }
                                if queue_len(&nearest) > ef {
                                    let dropped = queue_pop_max(&mut nearest).unwrap();
                                    proof {
                                        lemma_max_item_is(grown, dropped.0);
                                        lemma_pool_remove(grown, dropped.0);
                                        if alone && dropped.0 == entry {
                                            query.lemma_len_fits();
                                            lemma_squared_distance_fits(q, g[entry].vector);
                                            lemma_squared_distance_fits(q, g[neighbor].vector);
                                            assert(here.nearest.contains_key(entry));
                                            assert(grown.contains_key(worst.0));
                                            assert(rank_le(grown[worst.0], grown[entry]));
                                            assert(rank_le(
                                                here.nearest[entry],
                                                here.nearest[worst.0],
                                            ));
                                            assert(reachable(g, hops, entry, neighbor));
                                            assert(false);
                                        }
                                    }
                                }
                            }
                        }
                        proof {
                            let after = SearchState {
                                visited: visited@,
                                candidates: queue_entries(candidates),
                                nearest: queue_entries(nearest),
                            };
                            let want = visit(g, q, budget, here, neighbor);
                            assert(after.visited =~= want.visited);
                            assert(after.candidates =~= want.candidates);
                            assert(after.nearest =~= want.nearest);
                            assert(expand(g, q, budget, here, list@, j as int) == expand(
                                g,
                                q,
                                budget,
                                after,
                                list@,
                                j + 1,
                            ));
                            if exhaustive {
                                assert(after.nearest.dom() =~= after.visited);
                            }
                        }
                        j = j + 1;
                    }
                    proof {
                        lemma_search_step(g, q, budget, hops, before);
                        if exhaustive {
                            assert forall|x: usize, y: usize|
                                visited@.contains(x) && !queue_entries(candidates).contains_key(x)
                                    && #[trigger] has_edge(g, hops, x, y) implies visited@.contains(
                                y,
                            ) by {
                                if x == current {
                                    let k = choose|k: int|
                                        0 <= k < list@.len() && list@[k] == y;
                                    assert(visited@.contains(list@[k]));
                                }
                            }
                        }
                    }
                }
            },
        }
    }
    proof {
        assert forall|x: usize| queue_entries(nearest).dom().contains(x) implies reach_set(
            g,
            hops,
            entry,
        ).contains(x) by {
            assert(visited@.contains(x));
        }
    }
    nearest
}

} // verus!
