//! Linking a new node into the graph: the greedy descent to its layers,
//! and, layer by layer, the choice of its neighbours and the edges back
//! from them, with a prune where a neighbour's list grows over the cap.

use crate::graph::{
    at_layer, closed, closed_at, degree_within, detached, has_edge, joined,
    lemma_detached_unreached, lemma_min_item_is, lemma_pool_insert, lemma_reach_step, min_item,
    rank_of, ranked, reach_set, roomy, same_lists, secluded, uniform, Graph, Pool,
};
use crate::memtable::MemTable;
use crate::node::{copy_ids, LayerNum, NodeId};
use crate::queue::{queue_entries, queue_new, queue_pop_min, queue_push, RankQueue};
use crate::search::{neighbors_of, rank_in, search_layer, search_layer_spec};
use crate::select::{neighborhood, select_neighbors, select_neighbors_spec, selection_pool};
use crate::vector::Vector;
use vstd::prelude::*;

verus! {

/// The node that a greedy descent from `entry` arrives at: on each layer
/// from `top` down to the one above `floor`, it moves to the node nearest
/// to `q` that a search with a window of one finds.
pub open spec fn descend_spec(g: Graph, q: Seq<i32>, entry: usize, top: int, floor: int) -> usize
    decreases top - floor,
{
    if top <= floor {
        entry
    } else {
        descend_spec(g, q, min_item(search_layer_spec(g, q, entry, 1, top)), top - 1, floor)
    }
}

/// The nodes of `list`, each ranked by its distance to `q`.
pub open spec fn pool_of(g: Graph, q: Seq<i32>, list: Seq<usize>) -> Pool {
    Map::new(|x: usize| list.contains(x), |x: usize| rank_of(g, q, x))
}

/// The graph with the neighbour list of `id` at `layer` replaced by `list`.
pub open spec fn with_list(g: Graph, id: usize, layer: int, list: Seq<usize>) -> Graph {
    g.insert(id, g[id].with_neighbors(layer, list))
}

/// The graph after the edge from `e` to `id` was added at `layer`: `id`
/// joins the list of `e`; where that makes the list longer than `m_max`,
/// the list is selected anew from its own members, down to `m_max`.
pub open spec fn connect_spec(g: Graph, e: usize, id: usize, layer: int, m_max: nat) -> Graph {
    let list = g[e].neighbors(layer).push(id);
    if list.len() > m_max {
        with_list(
            g,
            e,
            layer,
            select_neighbors_spec(
                g,
                g[e].vector,
                pool_of(g, g[e].vector, list),
                m_max,
                layer,
                false,
                true,
            ),
        )
    } else {
        with_list(g, e, layer, list)
    }
}

/// The graph after the edges to `id` were added from `selected[from..]`,
/// one after the other.
pub open spec fn connect_all(
    g: Graph,
    selected: Seq<usize>,
    from: int,
    id: usize,
    layer: int,
    m_max: nat,
) -> Graph
    decreases selected.len() - from,
{
    if from < 0 || from >= selected.len() {
        g
    } else {
        connect_all(
            connect_spec(g, selected[from], id, layer, m_max),
            selected,
            from + 1,
            id,
            layer,
            m_max,
        )
    }
}

/// The neighbours chosen for the new node `id` at `layer`: selected, with
/// widening and backfill, from what a search from `entry` finds.
pub open spec fn chosen_at(
    g: Graph,
    q: Seq<i32>,
    entry: usize,
    layer: int,
    m: nat,
    ef_construction: nat,
) -> Seq<usize> {
    select_neighbors_spec(
        g,
        q,
        search_layer_spec(g, q, entry, ef_construction, layer),
        m,
        layer,
        true,
        true,
    )
}

/// The graph after the new node `id` was linked at `layer`: it gets the
/// neighbours chosen for it, and each of them gets an edge back.
pub open spec fn link_layer_spec(
    g: Graph,
    q: Seq<i32>,
    id: usize,
    entry: usize,
    layer: int,
    m: nat,
    m_max: nat,
    ef_construction: nat,
) -> Graph {
    let chosen = chosen_at(g, q, entry, layer, m, ef_construction);
    connect_all(with_list(g, id, layer, chosen), chosen, 0, id, layer, m_max)
}

/// Where the search of the next layer down starts: at the nearest of the
/// neighbours chosen, or where this layer's search started if none was.
pub open spec fn next_entry(
    g: Graph,
    q: Seq<i32>,
    entry: usize,
    layer: int,
    m: nat,
    ef_construction: nat,
) -> usize {
    let chosen = chosen_at(g, q, entry, layer, m, ef_construction);
    if chosen.len() > 0 {
        chosen[0]
    } else {
        entry
    }
}

/// The graph after the new node `id` was linked at every layer from
/// `layer` down to 0.
pub open spec fn link_down_spec(
    g: Graph,
    q: Seq<i32>,
    id: usize,
    entry: usize,
    layer: int,
    m: nat,
    m_max: nat,
    ef_construction: nat,
) -> Graph
    decreases layer,
{
    let linked = link_layer_spec(g, q, id, entry, layer, m, m_max, ef_construction);
    if layer <= 0 {
        linked
    } else {
        link_down_spec(
            linked,
            q,
            id,
            next_entry(g, q, entry, layer, m, ef_construction),
            layer - 1,
            m,
            m_max,
            ef_construction,
        )
    }
}

/// The two graphs have the same nodes, with the same vectors and the same
/// number of layers each: they differ in their neighbour lists at most.
pub open spec fn same_shape(g: Graph, h: Graph) -> bool {
    &&& g.dom() == h.dom()
    &&& forall|id: usize| #[trigger]
        g.contains_key(id) ==> {
            &&& g[id].id == h[id].id
            &&& g[id].vector == h[id].vector
            &&& g[id].layers.len() == h[id].layers.len()
        }
}

/// Replacing one list by nodes of its layer keeps the graph closed, keeps
/// its shape, and keeps a degree cap that the new list respects.
pub proof fn lemma_with_list(g: Graph, dim: nat, id: usize, layer: int, list: Seq<usize>, cap: nat)
    requires
        closed(g),
        uniform(g, dim),
        at_layer(g, id, layer),
        forall|k: int| 0 <= k < list.len() ==> at_layer(g, #[trigger] list[k], layer),
    ensures
        closed(with_list(g, id, layer, list)),
        uniform(with_list(g, id, layer, list), dim),
        same_shape(g, with_list(g, id, layer, list)),
        degree_within(g, cap) && list.len() <= cap ==> degree_within(
            with_list(g, id, layer, list),
            cap,
        ),
{
    let h = with_list(g, id, layer, list);
    assert(h.dom() =~= g.dom());
    assert(h[id].layers.len() == g[id].layers.len());
    assert forall|at: int| closed_at(h, at) by {
        assert(closed_at(g, at));
        assert forall|x: usize, j: int|
            h.contains_key(x) && 0 <= j < h[x].neighbors(at).len() implies at_layer(
            h,
            #[trigger] h[x].neighbors(at)[j],
            at,
        ) by {
            let y = h[x].neighbors(at)[j];
            if x == id && at == layer {
                assert(y == list[j]);
                assert(at_layer(g, y, at));
            } else {
                assert(h[x].neighbors(at) == g[x].neighbors(at));
                assert(at_layer(g, g[x].neighbors(at)[j], at));
            }
        }
    }
    if degree_within(g, cap) && list.len() <= cap {
        assert forall|x: usize, at: int|
            h.contains_key(x) && 0 <= at < h[x].layers.len() implies (#[trigger] h[x].layers[at]).len()
            <= cap by {
            if x == id && at == layer {
            } else {
                assert(h[x].layers[at] == g[x].layers[at]);
            }
        }
    }
}

/// Replacing the list of `id` at `layer` gives `id` that list there and
/// leaves every other list of the graph as it was.
pub proof fn lemma_with_list_lists(g: Graph, id: usize, layer: int, list: Seq<usize>)
    requires
        at_layer(g, id, layer),
    ensures
        with_list(g, id, layer, list)[id].neighbors(layer) == list,
        forall|x: usize, at: int|
            x != id || at != layer ==> #[trigger] with_list(g, id, layer, list)[x].neighbors(at)
                == g[x].neighbors(at),
{
    let h = with_list(g, id, layer, list);
    assert forall|x: usize, at: int| x != id || at != layer implies #[trigger] h[x].neighbors(at)
        == g[x].neighbors(at) by {
        if x == id {
            assert(h[x].neighbors(at) =~= g[x].neighbors(at));
        }
    }
}

/// Having the same shape carries over from step to step.
pub proof fn lemma_same_shape_trans(g: Graph, h: Graph, k: Graph)
    requires
        same_shape(g, h),
        same_shape(h, k),
    ensures
        same_shape(g, k),
{
    assert forall|id: usize| #[trigger] g.contains_key(id) implies g[id].vector == k[id].vector
        && g[id].id == k[id].id && g[id].layers.len() == k[id].layers.len() by {
        assert(h.contains_key(id));
    }
}

/// Descends from `entry` on layer `top` to the layer above `floor`, moving
/// on each layer to the stored node nearest to `query`.
pub(crate) fn descend(
    store: &MemTable,
    query: &Vector,
    entry: NodeId,
    top: LayerNum,
    floor: LayerNum,
) -> (nearest: NodeId)
    requires
        store.wf(),
        closed(store@),
        uniform(store@, query@.len()),
        at_layer(store@, entry, top as int),
    ensures
        nearest == descend_spec(store@, query@, entry, top as int, floor as int),
        at_layer(
            store@,
            nearest,
            if top <= floor {
                top as int
            } else {
                floor as int
            },
        ),
        forall|x: usize| x != entry && #[trigger] secluded(store@, x) ==> nearest != x,
{
    let mut current = entry;
    let mut layer = top;
    while layer > floor
        invariant
            store.wf(),
            closed(store@),
            uniform(store@, query@.len()),
            at_layer(store@, current, layer as int),
            layer <= top,
            top <= floor ==> layer == top,
            top > floor ==> layer >= floor,
            forall|x: usize| x != entry && #[trigger] secluded(store@, x) ==> current != x,
            descend_spec(store@, query@, current, layer as int, floor as int) == descend_spec(
                store@,
                query@,
                entry,
                top as int,
                floor as int,
            ),
        decreases layer,
    {
        assert(closed_at(store@, layer as int));
        let mut found = search_layer(store, query, current, 1, layer);
        let ghost window = queue_entries(found);
        let best = queue_pop_min(&mut found).unwrap();
        proof {
            lemma_min_item_is(window, best.0);
            assert(at_layer(store@, best.0, layer as int));
            assert(window.dom().contains(best.0));
            assert(reach_set(store@, layer as int, current).contains(best.0));
            assert forall|x: usize| x != entry && #[trigger] secluded(store@, x) implies best.0
                != x by {
                assert(detached(store@, layer as int, x));
                lemma_detached_unreached(store@, layer as int, current, x);
            }
        }
        current = best.0;
        layer = layer - 1;
    }
    current
}

/// A queue holding the nodes of `list`, each ranked by its distance to
/// `query`.
pub(crate) fn pool_from(
    store: &MemTable,
    query: &Vector,
    list: &Vec<NodeId>,
    layer: LayerNum,
) -> (pool: RankQueue)
    requires
        store.wf(),
        uniform(store@, query@.len()),
        forall|k: int| 0 <= k < list@.len() ==> at_layer(store@, #[trigger] list@[k], layer as int),
    ensures
        queue_entries(pool) == pool_of(store@, query@, list@),
        ranked(store@, query@, layer as int, queue_entries(pool)),
{
    let mut pool = queue_new();
    let mut i: usize = 0;
    proof {
        assert(queue_entries(pool) =~= pool_of(store@, query@, list@.take(0)));
    }
    while i < list.len()
        invariant
            store.wf(),
            uniform(store@, query@.len()),
            forall|k: int|
                0 <= k < list@.len() ==> at_layer(store@, #[trigger] list@[k], layer as int),
            i <= list@.len(),
            queue_entries(pool) == pool_of(store@, query@, list@.take(i as int)),
            ranked(store@, query@, layer as int, queue_entries(pool)),
        decreases list@.len() - i,
    {
        let ghost before = queue_entries(pool);
        proof {
            assert(at_layer(store@, list@[i as int], layer as int));
        }
        let rank = rank_in(store, query, list[i]);
        queue_push(&mut pool, list[i], rank);
        proof {
            lemma_pool_insert(before, list@[i as int], rank);
            let shorter = list@.take(i as int);
            let longer = list@.take(i + 1);
            assert(longer[i as int] == list@[i as int]);
            assert forall|x: usize| longer.contains(x) <==> (shorter.contains(x) || x
                == list@[i as int]) by {
                if longer.contains(x) {
                    let k = choose|k: int| 0 <= k < longer.len() && longer[k] == x;
                    if k < i {
                        assert(shorter[k] == x);
                    }
                }
                if shorter.contains(x) {
                    let k = choose|k: int| 0 <= k < shorter.len() && shorter[k] == x;
                    assert(longer[k] == x);
                }
            }
            assert(queue_entries(pool) =~= pool_of(store@, query@, longer));
        }
        i = i + 1;
    }
    proof {
        assert(list@.take(list@.len() as int) == list@);
    }
    pool
}

/// Adds the edge from `e` to `id` at `layer`, pruning the list of `e` back
/// to `m_max` neighbours where it grows beyond.
pub(crate) fn connect(
    store: &mut MemTable,
    e: NodeId,
    id: NodeId,
    layer: LayerNum,
    m_max: usize,
)
    requires
        old(store).wf(),
        closed(old(store)@),
        uniform(old(store)@, old(store)@[id].vector.len()),
        at_layer(old(store)@, e, layer as int),
        at_layer(old(store)@, id, layer as int),
        layer < usize::MAX,
    ensures
        final(store).wf(),
        final(store).spec_len() == old(store).spec_len(),
        final(store)@ == connect_spec(old(store)@, e, id, layer as int, m_max as nat),
        closed(final(store)@),
        uniform(final(store)@, old(store)@[id].vector.len()),
        same_shape(old(store)@, final(store)@),
        degree_within(old(store)@, m_max as nat) ==> degree_within(final(store)@, m_max as nat),
        forall|x: usize, at: int|
            x != e || at != layer ==> #[trigger] final(store)@[x].neighbors(at) == old(
                store,
            )@[x].neighbors(at),
        old(store)@[e].neighbors(layer as int).len() < m_max ==> final(store)@[e].neighbors(
            layer as int,
        ) == old(store)@[e].neighbors(layer as int).push(id),
{
    let ghost g = store@;
    let ghost dim = g[id].vector.len();
    let node = store.get(e).unwrap();
    let mut list = neighbors_of(store, e, layer);
    proof {
        assert(closed_at(g, layer as int));
        assert forall|k: int| 0 <= k < list@.len() implies at_layer(
            g,
            #[trigger] list@[k],
            layer as int,
        ) by {
            assert(at_layer(g, g[e].neighbors(layer as int)[k], layer as int));
        }
    }
    list.push(id);
    if list.len() > m_max {
        let pool = pool_from(store, node.vector(), &list, layer);
        let kept = select_neighbors(store, node.vector(), pool, m_max, layer, false, true);
        proof {
            lemma_with_list(g, dim, e, layer as int, kept@, m_max as nat);
            lemma_with_list_lists(g, e, layer as int, kept@);
        }
        let _ = store.update_neighbors(e, layer, kept);
    } else {
        proof {
            lemma_with_list(g, dim, e, layer as int, list@, m_max as nat);
            lemma_with_list_lists(g, e, layer as int, list@);
        }
        let _ = store.append_neighbor(e, layer, id);
    }
}

/// Links the new node `id` at `layer`: searches from `entry`, selects its
/// neighbours, records them, and adds the edges back. Returns where the
/// search of the next layer down starts.
///
/// The other layers stay as they are. Where `id` was detached at `layer`,
/// the search of the next layer does not start at `id`; and where,
/// moreover, every list of the layer had room, no edge of the layer is
/// lost and `id` is joined to the graph, if `m` is not zero.
pub(crate) fn link_layer(
    store: &mut MemTable,
    query: &Vector,
    id: NodeId,
    entry: NodeId,
    layer: LayerNum,
    m: usize,
    m_max: usize,
    ef_construction: usize,
) -> (next: NodeId)
    requires
        old(store).wf(),
        closed(old(store)@),
        uniform(old(store)@, query@.len()),
        at_layer(old(store)@, entry, layer as int),
        at_layer(old(store)@, id, layer as int),
        layer < usize::MAX,
    ensures
        final(store).wf(),
        final(store).spec_len() == old(store).spec_len(),
        final(store)@ == link_layer_spec(
            old(store)@,
            query@,
            id,
            entry,
            layer as int,
            m as nat,
            m_max as nat,
            ef_construction as nat,
        ),
        next == next_entry(
            old(store)@,
            query@,
            entry,
            layer as int,
            m as nat,
            ef_construction as nat,
        ),
        at_layer(final(store)@, next, layer as int),
        closed(final(store)@),
        uniform(final(store)@, query@.len()),
        same_shape(old(store)@, final(store)@),
        degree_within(old(store)@, m_max as nat) && m <= m_max ==> degree_within(
            final(store)@,
            m_max as nat,
        ),
        forall|at: int| at != layer ==> same_lists(old(store)@, final(store)@, at),
        detached(old(store)@, layer as int, id) && entry != id ==> next != id,
        detached(old(store)@, layer as int, id) && entry != id && roomy(
            old(store)@,
            layer as int,
            m_max as nat,
        ) && m >= 1 ==> joined(old(store)@, final(store)@, layer as int, id),
{
    let ghost g = store@;
    let ghost dim = query@.len();
    let ghost hops = layer as int;
    let ghost apartness = detached(g, hops, id) && entry != id;
    let ghost calm = apartness && roomy(g, hops, m_max as nat) && m >= 1;
    assert(closed_at(g, hops));
    let candidates = search_layer(store, query, entry, ef_construction, layer);
    let ghost found = queue_entries(candidates);
    let chosen = select_neighbors(store, query, candidates, m, layer, true, true);
    let next = if chosen.len() > 0 {
        chosen[0]
    } else {
        entry
    };
    proof {
        lemma_with_list(g, dim, id, hops, chosen@, m_max as nat);
        lemma_with_list_lists(g, id, hops, chosen@);
        if apartness {
            assert forall|k: int| 0 <= k < chosen@.len() implies #[trigger] chosen@[k] != id by {
                let x = chosen@[k];
                assert(selection_pool(g, query@, found, hops, true).contains_key(x));
                if found.contains_key(x) {
                    assert(found.dom().contains(x));
                    assert(reach_set(g, hops, entry).contains(x));
                } else {
                    assert(neighborhood(g, found.dom(), hops).contains(x));
                    let (c, j) = choose|c: usize, j: int|
                        found.dom().contains(c) && 0 <= j < g[c].neighbors(hops).len()
                            && #[trigger] g[c].neighbors(hops)[j] == x;
                    assert(reach_set(g, hops, entry).contains(c));
                    assert(g.contains_key(c));
                    assert(has_edge(g, hops, c, x));
                    lemma_reach_step(g, hops, entry, c, x);
                }
                lemma_detached_unreached(g, hops, entry, id);
            }
        }
    }
    let _ = store.update_neighbors(id, layer, copy_ids(&chosen));
    let ghost recorded = store@;
    let mut i: usize = 0;
    while i < chosen.len()
        invariant
            store.wf(),
            store.spec_len() == old(store).spec_len(),
            dim == query@.len(),
            hops == layer as int,
            closed(store@),
            uniform(store@, dim),
            same_shape(g, store@),
            layer < usize::MAX,
            at_layer(g, id, hops),
            forall|k: int| 0 <= k < chosen@.len() ==> at_layer(g, #[trigger] chosen@[k], hops),
            chosen@.no_duplicates(),
            i <= chosen@.len(),
            degree_within(g, m_max as nat) && m <= m_max ==> degree_within(store@, m_max as nat),
            forall|at: int| at != hops ==> same_lists(g, store@, at),
            calm == (detached(g, hops, id) && entry != id && roomy(g, hops, m_max as nat) && m
                >= 1),
            calm ==> forall|k: int| 0 <= k < chosen@.len() ==> #[trigger] chosen@[k] != id,
            calm ==> store@[id].neighbors(hops) == chosen@,
            calm ==> forall|k: int|
                0 <= k < i ==> store@[#[trigger] chosen@[k]].neighbors(hops) == g[chosen@[k]].neighbors(
                    hops,
                ).push(id),
            calm ==> forall|x: usize|
                #![trigger store@[x]]
                g.contains_key(x) && x != id && !chosen@.take(i as int).contains(x)
                    ==> store@[x].neighbors(hops) == g[x].neighbors(hops),
            connect_all(store@, chosen@, i as int, id, hops, m_max as nat) == connect_all(
                recorded,
                chosen@,
                0,
                id,
                hops,
                m_max as nat,
            ),
        decreases chosen@.len() - i,
    {
        let ghost before = store@;
        let e = chosen[i];
        proof {
            assert(at_layer(g, chosen@[i as int], hops));
            if calm {
                assert(!chosen@.take(i as int).contains(e)) by {
                    if chosen@.take(i as int).contains(e) {
                        let k = choose|k: int|
                            0 <= k < chosen@.take(i as int).len() && chosen@.take(i as int)[k]
                                == e;
                        assert(chosen@[k] == chosen@[i as int]);
                    }
                }
                assert(before[e].neighbors(hops) == g[e].neighbors(hops));
            }
        }
        connect(store, e, id, layer, m_max);
        proof {
            lemma_same_shape_trans(g, before, store@);
            assert forall|at: int| at != hops implies same_lists(g, store@, at) by {
                assert(same_lists(g, before, at));
                assert forall|x: usize| #[trigger] g.contains_key(x) implies g[x].neighbors(at)
                    == store@[x].neighbors(at) by {
                    assert(store@[x].neighbors(at) == before[x].neighbors(at));
                }
            }
            if calm {
                let longer = chosen@.take(i + 1);
                assert(longer[i as int] == e);
                assert(store@[id].neighbors(hops) == before[id].neighbors(hops));
                assert forall|k: int| 0 <= k < i + 1 implies store@[#[trigger] chosen@[k]].neighbors(
                    hops,
                ) == g[chosen@[k]].neighbors(hops).push(id) by {
                    if k < i {
                        assert(chosen@[k] != e);
                        assert(store@[chosen@[k]].neighbors(hops) == before[chosen@[k]].neighbors(
                            hops,
                        ));
                    }
                }
                assert forall|x: usize|
                    #![trigger store@[x]]
                    g.contains_key(x) && x != id && !longer.contains(x) implies store@[x].neighbors(
                    hops,
                ) == g[x].neighbors(hops) by {
                    assert(x != e);
                    if chosen@.take(i as int).contains(x) {
                        let k = choose|k: int|
                            0 <= k < chosen@.take(i as int).len() && chosen@.take(i as int)[k]
                                == x;
                        assert(longer[k] == x);
                    }
                    assert(store@[x].neighbors(hops) == before[x].neighbors(hops));
                }
            }
        }
        i = i + 1;
    }
    proof {
        if calm {
            let h = store@;
            assert(chosen@.len() >= 1) by {
                assert(found.len() > 0);
            }
            assert(chosen@.take(chosen@.len() as int) == chosen@);
            assert forall|x: usize, y: usize| #[trigger] has_edge(g, hops, x, y) implies has_edge(
                h,
                hops,
                x,
                y,
            ) by {
                assert(x != id);
                if chosen@.contains(x) {
                    let k = choose|k: int| 0 <= k < chosen@.len() && chosen@[k] == x;
                    assert(h[chosen@[k]].neighbors(hops) == g[x].neighbors(hops).push(id));
                    let at = choose|at: int|
                        0 <= at < g[x].neighbors(hops).len() && g[x].neighbors(hops)[at] == y;
                    assert(h[x].neighbors(hops)[at] == y);
                } else {
                    assert(h[x].neighbors(hops) == g[x].neighbors(hops));
                }
            }
            let c = chosen@[0];
            assert(h[c].neighbors(hops) == g[c].neighbors(hops).push(id));
            assert(h[c].neighbors(hops)[g[c].neighbors(hops).len() as int] == id);
            assert(has_edge(h, hops, c, id));
            assert(h[id].neighbors(hops)[0] == c);
            assert(has_edge(h, hops, id, c));
        }
    }
    next
}

/// Links the new node `id` at every layer from `top` down to 0, starting
/// the search of the first at `entry`.
///
/// Where `id` was detached at every layer and every list of the base layer
/// had room, no edge of the base layer is lost and `id` is joined to the
/// graph there, if `m` is not zero.
pub(crate) fn link_down(
    store: &mut MemTable,
    query: &Vector,
    id: NodeId,
    entry: NodeId,
    top: LayerNum,
    m: usize,
    m_max: usize,
    ef_construction: usize,
)
    requires
        old(store).wf(),
        closed(old(store)@),
        uniform(old(store)@, query@.len()),
        at_layer(old(store)@, entry, top as int),
        at_layer(old(store)@, id, top as int),
        top < usize::MAX,
    ensures
        final(store).wf(),
        final(store).spec_len() == old(store).spec_len(),
        final(store)@ == link_down_spec(
            old(store)@,
            query@,
            id,
            entry,
            top as int,
            m as nat,
            m_max as nat,
            ef_construction as nat,
        ),
        closed(final(store)@),
        uniform(final(store)@, query@.len()),
        same_shape(old(store)@, final(store)@),
        degree_within(old(store)@, m_max as nat) && m <= m_max ==> degree_within(
            final(store)@,
            m_max as nat,
        ),
        secluded(old(store)@, id) && entry != id && roomy(
            old(store)@,
            0,
            m_max as nat,
        ) && m >= 1 ==> joined(old(store)@, final(store)@, 0, id),
{
    let ghost g = store@;
    let ghost want = link_down_spec(
        g,
        query@,
        id,
        entry,
        top as int,
        m as nat,
        m_max as nat,
        ef_construction as nat,
    );
    let ghost apartness = secluded(g, id) && entry != id;
    let ghost calm = apartness && roomy(g, 0, m_max as nat) && m >= 1;
    let mut layer = top;
    let mut current = entry;
    let mut done = false;
    while !done
        invariant
            store.wf(),
            store.spec_len() == old(store).spec_len(),
            closed(store@),
            uniform(store@, query@.len()),
            same_shape(g, store@),
            layer < usize::MAX,
            degree_within(g, m_max as nat) && m <= m_max ==> degree_within(store@, m_max as nat),
            apartness == (secluded(g, id) && entry != id),
            calm == (apartness && roomy(g, 0, m_max as nat) && m >= 1),
            !done ==> at_layer(store@, current, layer as int),
            !done ==> at_layer(store@, id, layer as int),
            !done ==> forall|at: int| 0 <= at <= layer ==> same_lists(g, store@, at),
            !done && apartness ==> current != id,
            !done ==> link_down_spec(
                store@,
                query@,
                id,
                current,
                layer as int,
                m as nat,
                m_max as nat,
                ef_construction as nat,
            ) == want,
            done ==> store@ == want,
            done && calm ==> joined(g, store@, 0, id),
        decreases
                if done {
                    0
                } else {
                    layer + 1
                },
    {
        let ghost before = store@;
        proof {
            assert(same_lists(g, before, layer as int));
            if apartness {
                assert(detached(g, layer as int, id));
                assert forall|x: usize| !#[trigger] has_edge(before, layer as int, x, id) by {
                    if has_edge(before, layer as int, x, id) {
                        assert(g.contains_key(x));
                        assert(has_edge(g, layer as int, x, id));
                    }
                }
                assert(g.contains_key(id));
                assert(detached(before, layer as int, id));
            }
            if calm && layer == 0 {
                assert forall|x: usize| #[trigger] before.contains_key(x) implies before[x].neighbors(
                    0,
                ).len() < m_max by {
                    assert(g.contains_key(x));
                }
            }
        }
        let next = link_layer(store, query, id, current, layer, m, m_max, ef_construction);
        proof {
            lemma_same_shape_trans(g, before, store@);
            assert forall|at: int| 0 <= at < layer implies same_lists(g, store@, at) by {
                assert(same_lists(g, before, at));
                assert(same_lists(before, store@, at));
                assert forall|x: usize| #[trigger] g.contains_key(x) implies g[x].neighbors(at)
                    == store@[x].neighbors(at) by {
                    assert(before.contains_key(x));
                }
            }
            if calm && layer == 0 {
                assert(joined(before, store@, 0, id));
                assert forall|x: usize, y: usize| #[trigger] has_edge(g, 0, x, y) implies has_edge(
                    store@,
                    0,
                    x,
                    y,
                ) by {
                    assert(before.contains_key(x));
                    assert(has_edge(before, 0, x, y));
                }
                let c = choose|c: usize|
                    c != id && before.contains_key(c) && #[trigger] has_edge(store@, 0, id, c)
                        && has_edge(store@, 0, c, id);
                assert(g.contains_key(c));
            }
        }
        if layer == 0 {
            done = true;
        } else {
            layer = layer - 1;
            current = next;
        }
    }
}

} // verus!
