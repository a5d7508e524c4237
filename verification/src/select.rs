//! Neighbour selection: from a pool of candidates, picks up to `m` nodes
//! that are near the query and spread out around it.

use crate::graph::{
    at_layer, closed_at, empty_pool, lemma_extremes_exist, lemma_min_item_is, lemma_pool_empty,
    lemma_pool_insert, lemma_pool_remove, min_item, rank_of, ranked, tagged, uniform, Graph, Pool,
};
use crate::memtable::MemTable;
use crate::node::{LayerNum, Node, NodeId};
use crate::queue::{
    queue_entries, queue_items, queue_new, queue_pop_min, queue_push, rank_le, RankQueue,
};
use crate::search::{neighbors_of, rank_in};
use crate::vector::{squared_distance_spec, Vector};
use std::collections::HashSet;
use vstd::prelude::*;

verus! {

broadcast use vstd::std_specs::hash::group_hash_axioms;

/// The nodes that an edge of `layer` leads to from one of `sources`.
pub open spec fn neighborhood(g: Graph, sources: Set<usize>, layer: int) -> Set<usize> {
    Set::new(
        |x: usize|
            exists|c: usize, j: int|
                sources.contains(c) && 0 <= j < g[c].neighbors(layer).len()
                    && #[trigger] g[c].neighbors(layer)[j] == x,
    )
}

/// `pool` together with the nodes `found`, each ranked by its distance to
/// `q`; a node that `pool` holds already keeps its rank.
pub open spec fn with_found(g: Graph, q: Seq<i32>, pool: Pool, found: Set<usize>) -> Pool {
    Map::new(
        |x: usize| pool.contains_key(x) || found.contains(x),
        |x: usize|
            if pool.contains_key(x) {
                pool[x]
            } else {
                rank_of(g, q, x)
            },
    )
}

/// The pool widened by the neighbours, at `layer`, of the nodes it holds.
pub open spec fn extend_pool(g: Graph, q: Seq<i32>, pool: Pool, layer: int) -> Pool {
    with_found(g, q, pool, neighborhood(g, pool.dom(), layer))
}

/// What the selection has decided so far: the nodes selected, in the order
/// in which they were accepted, and the candidates set aside.
pub struct Selection {
    pub selected: Seq<usize>,
    pub pruned: Pool,
}

/// The candidate `id`, at distance `distance` from the query, is at least
/// as close to the query as to every node selected so far.
pub open spec fn is_diverse(g: Graph, id: usize, distance: u128, selected: Seq<usize>) -> bool {
    forall|k: int|
        0 <= k < selected.len() ==> squared_distance_spec(
            g[id].vector,
            g[#[trigger] selected[k]].vector,
        ) >= distance
}

/// Takes the candidates out of `pool` nearest first, until `m` are selected
/// or the pool is empty. The first candidate is selected; a later one is
/// selected where it is diverse and set aside where it is not.
pub open spec fn select_loop(g: Graph, pool: Pool, m: nat, sel: Selection) -> Selection
    decreases pool.len(),
    when pool.dom().finite()
{
    if pool.len() == 0 || sel.selected.len() >= m {
        sel
    } else {
        let c = min_item(pool);
        proof {
            lemma_extremes_exist(pool);
            lemma_pool_remove(pool, c);
        }
        if sel.selected.len() == 0 || is_diverse(g, c, pool[c].0, sel.selected) {
            select_loop(
                g,
                pool.remove(c),
                m,
                Selection { selected: sel.selected.push(c), pruned: sel.pruned },
            )
        } else {
            select_loop(
                g,
                pool.remove(c),
                m,
                Selection { selected: sel.selected, pruned: sel.pruned.insert(c, pool[c]) },
            )
        }
    }
}

/// `selected` filled up to `m` identifiers with the items of `pruned`,
/// nearest first.
pub open spec fn backfill(selected: Seq<usize>, pruned: Pool, m: nat) -> Seq<usize>
    decreases pruned.len(),
    when pruned.dom().finite()
{
    if pruned.len() == 0 || selected.len() >= m {
        selected
    } else {
        let c = min_item(pruned);
        proof {
            lemma_extremes_exist(pruned);
            lemma_pool_remove(pruned, c);
        }
        backfill(selected.push(c), pruned.remove(c), m)
    }
}

/// The items of `pool`, nearest first.
pub open spec fn nearest_first(pool: Pool) -> Seq<usize> {
    backfill(Seq::empty(), pool, pool.len())
}

/// The pool that the selection draws from: `pool` itself, or `pool`
/// widened by the neighbours of its nodes.
pub open spec fn selection_pool(
    g: Graph,
    q: Seq<i32>,
    pool: Pool,
    layer: int,
    extend_candidates: bool,
) -> Pool {
    if extend_candidates {
        extend_pool(g, q, pool, layer)
    } else {
        pool
    }
}

/// The neighbours selected for a query `q` from `pool` at `layer`: up to
/// `m` identifiers.
pub open spec fn select_neighbors_spec(
    g: Graph,
    q: Seq<i32>,
    pool: Pool,
    m: nat,
    layer: int,
    extend_candidates: bool,
    keep_pruned_connections: bool,
) -> Seq<usize> {
    let widened = selection_pool(g, q, pool, layer, extend_candidates);
    let sel = select_loop(g, widened, m, Selection { selected: Seq::empty(), pruned: empty_pool() });
    if keep_pruned_connections {
        backfill(sel.selected, sel.pruned, m)
    } else {
        sel.selected
    }
}

/// Widens the pool by the neighbours, at `layer`, of the candidates it
/// holds.
pub(crate) fn extend_candidates(
    store: &MemTable,
    query: &Vector,
    pool: &mut RankQueue,
    layer: LayerNum,
)
    requires
        store.wf(),
        closed_at(store@, layer as int),
        uniform(store@, query@.len()),
        ranked(store@, query@, layer as int, queue_entries(*old(pool))),
    ensures
        queue_entries(*final(pool)) == extend_pool(
            store@,
            query@,
            queue_entries(*old(pool)),
            layer as int,
        ),
        ranked(store@, query@, layer as int, queue_entries(*final(pool))),
{
    let ghost g = store@;
    let ghost q = query@;
    let ghost hops = layer as int;
    let ghost start = queue_entries(*pool);
    let items = queue_items(pool);
    let mut visited: HashSet<NodeId> = HashSet::new();
    let mut i: usize = 0;
    while i < items.len()
        invariant
            i <= items@.len(),
            visited@ == items@.take(i as int).to_set(),
        decreases items@.len() - i,
    {
        visited.insert(items[i]);
        proof {
            assert(items@.take(i + 1) == items@.take(i as int).push(items@[i as int]));
            assert(items@.take(i + 1).to_set() =~= items@.take(i as int).to_set().insert(
                items@[i as int],
            )) by {
                let shorter = items@.take(i as int);
                let longer = items@.take(i + 1);
                assert forall|x: usize| longer.to_set().contains(x) <==> shorter.to_set().insert(
                    items@[i as int],
                ).contains(x) by {
                    if longer.contains(x) {
                        let k = choose|k: int| 0 <= k < longer.len() && longer[k] == x;
                        if k < i {
                            assert(shorter[k] == x);
                        }
                    }
                    if shorter.contains(x) {
                        let k = choose|k: int| 0 <= k < shorter.len() && shorter[k] == x;
                        assert(longer[k] == x);
                    }
                    if x == items@[i as int] {
                        assert(longer[i as int] == x);
                    }
                }
            }
        }
        i = i + 1;
    }
    proof {
        assert(items@.take(items@.len() as int) == items@);
        assert(visited@ == start.dom());
        assert(queue_entries(*pool) =~= with_found(
            g,
            q,
            start,
            neighborhood(g, items@.take(0).to_set(), hops),
        ));
    }
    let mut i: usize = 0;
    while i < items.len()
        invariant
            store.wf(),
            g == store@,
            q == query@,
            hops == layer as int,
            closed_at(g, hops),
            uniform(g, q.len()),
            ranked(g, q, hops, start),
            items@.to_set() == start.dom(),
            i <= items@.len(),
            visited@ == queue_entries(*pool).dom(),
            ranked(g, q, hops, queue_entries(*pool)),
            queue_entries(*pool) == with_found(
                g,
                q,
                start,
                neighborhood(g, items@.take(i as int).to_set(), hops),
            ),
        decreases items@.len() - i,
    {
        let candidate = items[i];
        proof {
            assert(items@.to_set().contains(candidate));
            assert(start.contains_key(candidate));
        }
        let list = neighbors_of(store, candidate, layer);
        let ghost reached = neighborhood(g, items@.take(i as int).to_set(), hops);
        let mut j: usize = 0;
        while j < list.len()
            invariant
                store.wf(),
                g == store@,
                q == query@,
                hops == layer as int,
                closed_at(g, hops),
                uniform(g, q.len()),
                ranked(g, q, hops, start),
                g.contains_key(candidate),
                list@ == g[candidate].neighbors(hops),
                j <= list@.len(),
                visited@ == queue_entries(*pool).dom(),
                ranked(g, q, hops, queue_entries(*pool)),
                queue_entries(*pool) == with_found(
                    g,
                    q,
                    start,
                    reached.union(list@.take(j as int).to_set()),
                ),
            decreases list@.len() - j,
        {
            let neighbor = list[j];
            let ghost before = queue_entries(*pool);
            proof {
                assert(at_layer(g, g[candidate].neighbors(hops)[j as int], hops));
            }
            if visited.insert(neighbor) {
                let rank = rank_in(store, query, neighbor);
                queue_push(pool, neighbor, rank);
                proof {
                    lemma_pool_insert(before, neighbor, rank);
                }
            }
            proof {
                let shorter = list@.take(j as int);
                let longer = list@.take(j + 1);
                assert(longer[j as int] == neighbor);
                assert forall|x: usize| longer.to_set().contains(x) <==> (shorter.to_set().contains(
                    x,
                ) || x == neighbor) by {
                    if longer.contains(x) {
                        let k = choose|k: int| 0 <= k < longer.len() && longer[k] == x;
                        if k < j {
                            assert(shorter[k] == x);
                        }
                    }
                    if shorter.contains(x) {
                        let k = choose|k: int| 0 <= k < shorter.len() && shorter[k] == x;
                        assert(longer[k] == x);
                    }
                }
                assert(queue_entries(*pool) =~= with_found(
                    g,
                    q,
                    start,
                    reached.union(longer.to_set()),
                ));
            }
            j = j + 1;
        }
        proof {
            let fewer = items@.take(i as int);
            let longer = items@.take(i + 1);
            let sources = fewer.to_set();
            let more = longer.to_set();
            let next = neighborhood(g, more, hops);
            assert(list@.take(list@.len() as int) == list@);
            assert(longer[i as int] == candidate);
            assert forall|x: usize| next.contains(x) <==> (reached.contains(x)
                || list@.to_set().contains(x)) by {
                if next.contains(x) {
                    let (c, k) = choose|c: usize, k: int|
                        more.contains(c) && 0 <= k < g[c].neighbors(hops).len()
                            && #[trigger] g[c].neighbors(hops)[k] == x;
                    if c == candidate {
                        assert(list@[k] == x);
                    } else {
                        let at = choose|at: int| 0 <= at < longer.len() && longer[at] == c;
                        assert(fewer[at] == c);
                        assert(sources.contains(c));
                    }
                }
                if reached.contains(x) {
                    let (c, k) = choose|c: usize, k: int|
                        sources.contains(c) && 0 <= k < g[c].neighbors(hops).len()
                            && #[trigger] g[c].neighbors(hops)[k] == x;
                    let at = choose|at: int| 0 <= at < fewer.len() && fewer[at] == c;
                    assert(longer[at] == c);
                    assert(more.contains(c));
                }
                if list@.to_set().contains(x) {
                    let k = choose|k: int| 0 <= k < list@.len() && list@[k] == x;
                    assert(more.contains(candidate));
                    assert(g[candidate].neighbors(hops)[k] == x);
                }
            }
            assert(next =~= reached.union(list@.to_set()));
        }
        i = i + 1;
    }
    proof {
        assert(items@.take(items@.len() as int) == items@);
    }
}

/// Whether the candidate `node`, at distance `distance` from the query, is
/// at least as close to the query as to each of the nodes in `chosen`.
fn diverse_among(node: &Node, distance: u128, chosen: &Vec<Node>) -> (diverse: bool)
    requires
        forall|k: int|
            0 <= k < chosen@.len() ==> (#[trigger] chosen@[k])@.vector.len()
                == node@.vector.len(),
    ensures
        diverse == forall|k: int|
            0 <= k < chosen@.len() ==> squared_distance_spec(
                node@.vector,
                (#[trigger] chosen@[k])@.vector,
            ) >= distance,
{
    let mut k: usize = 0;
    while k < chosen.len()
        invariant
            k <= chosen@.len(),
            forall|k: int|
                0 <= k < chosen@.len() ==> (#[trigger] chosen@[k])@.vector.len()
                    == node@.vector.len(),
            forall|done: int|
                0 <= done < k ==> squared_distance_spec(
                    node@.vector,
                    (#[trigger] chosen@[done])@.vector,
                ) >= distance,
        decreases chosen@.len() - k,
    {
        let gap = node.vector().squared_distance(chosen[k].vector());
        if gap < distance {
            return false;
        }
        k = k + 1;
    }
    true
}

/// The nodes selected, the candidates left and the candidates set aside
/// are all drawn from `widened`, and no node is in two of them or twice
/// among the selected.
pub open spec fn apart(selected: Seq<usize>, left: Pool, pruned: Pool, widened: Pool) -> bool {
    &&& forall|x: usize| #[trigger]
        left.contains_key(x) ==> widened.contains_key(x) && !pruned.contains_key(x)
    &&& forall|x: usize| #[trigger] pruned.contains_key(x) ==> widened.contains_key(x)
    &&& forall|k: int|
        0 <= k < selected.len() ==> widened.contains_key(#[trigger] selected[k])
            && !left.contains_key(selected[k]) && !pruned.contains_key(selected[k])
    &&& selected.no_duplicates()
}

/// Takes up to `limit` items out of `pool`, nearest first.
pub(crate) fn drain_nearest(pool: RankQueue, limit: usize) -> (ids: Vec<NodeId>)
    requires
        tagged(queue_entries(pool)),
        queue_entries(pool).dom().finite(),
    ensures
        ids@ == backfill(Seq::empty(), queue_entries(pool), limit as nat),
        ids@.len() == if limit <= queue_entries(pool).len() {
            limit as nat
        } else {
            queue_entries(pool).len()
        },
        ids@.no_duplicates(),
        forall|k: int| 0 <= k < ids@.len() ==> queue_entries(pool).contains_key(#[trigger] ids@[k]),
        forall|a: int, b: int|
            0 <= a < b < ids@.len() ==> rank_le(
                queue_entries(pool)[#[trigger] ids@[a]],
                queue_entries(pool)[#[trigger] ids@[b]],
            ),
        limit >= queue_entries(pool).len() ==> ids@.to_set() == queue_entries(pool).dom(),
{
    let ghost given = queue_entries(pool);
    let mut pool = pool;
    let mut ids: Vec<NodeId> = Vec::new();
    let mut done = false;
    while !done
        invariant
            tagged(queue_entries(pool)),
            queue_entries(pool).dom().finite(),
            given.dom().finite(),
            apart(ids@, queue_entries(pool), empty_pool(), given),
            forall|x: usize| #[trigger]
                given.contains_key(x) ==> queue_entries(pool).contains_key(x) || ids@.contains(x),
            forall|x: usize| #[trigger]
                queue_entries(pool).contains_key(x) ==> queue_entries(pool)[x] == given[x],
            forall|a: int, b: int|
                0 <= a < b < ids@.len() ==> rank_le(
                    given[#[trigger] ids@[a]],
                    given[#[trigger] ids@[b]],
                ),
            forall|a: int, x: usize|
                0 <= a < ids@.len() && queue_entries(pool).contains_key(x) ==> rank_le(
                    given[#[trigger] ids@[a]],
                    #[trigger] given[x],
                ),
            ids@.len() <= limit,
            ids@.len() + queue_entries(pool).len() == given.len(),
            !done ==> backfill(ids@, queue_entries(pool), limit as nat) == backfill(
                Seq::empty(),
                given,
                limit as nat,
            ),
            done ==> ids@ == backfill(Seq::empty(), given, limit as nat),
            done ==> ids@.len() == limit || queue_entries(pool).len() == 0,
        decreases
                if done {
                    0
                } else {
                    queue_entries(pool).len() + 1
                },
    {
        let ghost left = queue_entries(pool);
        let ghost held = ids@;
        proof {
            lemma_pool_empty(left);
        }
        if ids.len() >= limit {
            done = true;
        } else {
            match queue_pop_min(&mut pool) {
                None => {
                    done = true;
                },
                Some((id, _)) => {
                    proof {
                        lemma_min_item_is(left, id);
                        lemma_pool_remove(left, id);
                    }
                    ids.push(id);
                    proof {
                        assert(ids@[held.len() as int] == id);
                        assert forall|a: int, b: int|
                            0 <= a < ids@.len() && 0 <= b < ids@.len() && a != b implies ids@[a]
                            != ids@[b] by {
                            if a < held.len() {
                                assert(!left.contains_key(held[a]));
                            }
                            if b < held.len() {
                                assert(!left.contains_key(held[b]));
                            }
                        }
                        assert forall|x: usize| #[trigger] given.contains_key(x) implies queue_entries(
                            pool,
                        ).contains_key(x) || ids@.contains(x) by {
                            if held.contains(x) {
                                let k = choose|k: int| 0 <= k < held.len() && held[k] == x;
                                assert(ids@[k] == x);
                            }
                        }
                    }
                },
            }
        }
    }
    proof {
        if limit >= given.len() {
            lemma_pool_empty(queue_entries(pool));
            assert(ids@.to_set() =~= given.dom());
        }
    }
    ids
}

/// Picks up to `m` neighbours for `query` among the candidates in `pool`.
///
/// With `extend_candidates` the pool is first widened by the neighbours of
/// its candidates at `layer`. With `keep_pruned_connections` the
/// candidates that were set aside fill the selection up, nearest first.
pub(crate) fn select_neighbors(
    store: &MemTable,
    query: &Vector,
    pool: RankQueue,
    m: usize,
    layer: LayerNum,
    extend: bool,
    keep_pruned_connections: bool,
) -> (selected: Vec<NodeId>)
    requires
        store.wf(),
        closed_at(store@, layer as int),
        uniform(store@, query@.len()),
        ranked(store@, query@, layer as int, queue_entries(pool)),
    ensures
        selected@ == select_neighbors_spec(
            store@,
            query@,
            queue_entries(pool),
            m as nat,
            layer as int,
            extend,
            keep_pruned_connections,
        ),
        selected@.len() <= m,
        selected@.no_duplicates(),
        m >= 1 && queue_entries(pool).len() > 0 ==> selected@.len() >= 1,
        forall|k: int|
            0 <= k < selected@.len() ==> at_layer(store@, #[trigger] selected@[k], layer as int)
                && selection_pool(
                store@,
                query@,
                queue_entries(pool),
                layer as int,
                extend,
            ).contains_key(selected@[k]),
{
    let ghost g = store@;
    let ghost q = query@;
    let ghost hops = layer as int;
    let ghost cap = m as nat;
    let ghost given = queue_entries(pool);
    let mut pool = pool;
    if extend {
        extend_candidates(store, query, &mut pool, layer);
    }
    let ghost widened = queue_entries(pool);
    let ghost start = Selection { selected: Seq::empty(), pruned: empty_pool() };
    let mut selected: Vec<NodeId> = Vec::new();
    let mut chosen: Vec<Node> = Vec::new();
    let mut pruned = queue_new();
    let mut done = false;
    proof {
        lemma_pool_empty(given);
        lemma_pool_empty(widened);
        if given.len() > 0 {
            let x = choose|x: usize| given.contains_key(x);
            assert(widened.contains_key(x));
        }
    }
    while !done
        invariant
            store.wf(),
            g == store@,
            q == query@,
            hops == layer as int,
            cap == m as nat,
            uniform(g, q.len()),
            ranked(g, q, hops, queue_entries(pool)),
            ranked(g, q, hops, queue_entries(pruned)),
            apart(selected@, queue_entries(pool), queue_entries(pruned), widened),
            selected@.len() <= m,
            selected@.len() == 0 && !done ==> queue_entries(pool) == widened,
            selected@.len() == 0 && done ==> m == 0 || widened.len() == 0,
            chosen@.len() == selected@.len(),
            forall|k: int|
                0 <= k < selected@.len() ==> at_layer(g, #[trigger] selected@[k], hops)
                    && chosen@[k]@ == g[selected@[k]],
            !done ==> select_loop(
                g,
                queue_entries(pool),
                cap,
                Selection { selected: selected@, pruned: queue_entries(pruned) },
            ) == select_loop(g, widened, cap, start),
            done ==> (Selection { selected: selected@, pruned: queue_entries(pruned) })
                == select_loop(g, widened, cap, start),
        decreases
                if done {
                    0
                } else {
                    queue_entries(pool).len() + 1
                },
    {
        let ghost before = queue_entries(pool);
        let ghost set_aside = queue_entries(pruned);
        let ghost picked = selected@;
        proof {
            lemma_pool_empty(before);
        }
        if selected.len() >= m {
            done = true;
        } else {
            match queue_pop_min(&mut pool) {
                None => {
                    done = true;
                },
                Some((candidate, rank)) => {
                    proof {
                        lemma_min_item_is(before, candidate);
                        lemma_pool_remove(before, candidate);
                        assert(at_layer(g, candidate, hops));
                    }
                    let node = store.get(candidate).unwrap();
                    proof {
                        assert forall|k: int| 0 <= k < chosen@.len() implies (
                        #[trigger] chosen@[k])@.vector.len() == node@.vector.len() by {
                            assert(at_layer(g, selected@[k], hops));
                        }
                    }
                    let diverse = selected.len() == 0 || diverse_among(&node, rank.0, &chosen);
                    proof {
                        if selected@.len() > 0 {
                            if is_diverse(g, candidate, rank.0, selected@) {
                                assert forall|k: int| 0 <= k < chosen@.len() implies squared_distance_spec(
                                    node@.vector,
                                    (#[trigger] chosen@[k])@.vector,
                                ) >= rank.0 by {
                                    assert(chosen@[k]@ == g[selected@[k]]);
                                }
                            }
                            if diverse {
                                assert forall|k: int|
                                    0 <= k < selected@.len() implies squared_distance_spec(
                                    g[candidate].vector,
                                    g[#[trigger] selected@[k]].vector,
                                ) >= rank.0 by {
                                    assert(chosen@[k]@ == g[selected@[k]]);
                                }
                            }
                        }
                    }
                    if diverse {
                        selected.push(candidate);
                        chosen.push(node);
                        proof {
                            assert forall|a: int, b: int|
                                0 <= a < selected@.len() && 0 <= b < selected@.len() && a
                                    != b implies selected@[a] != selected@[b] by {
                                if a < picked.len() {
                                    assert(!before.contains_key(picked[a]));
                                }
                                if b < picked.len() {
                                    assert(!before.contains_key(picked[b]));
                                }
                            }
                        }
                    } else {
                        queue_push(&mut pruned, candidate, rank);
                        proof {
                            lemma_pool_insert(set_aside, candidate, rank);
                        }
                    }
                },
            }
        }
    }
    if keep_pruned_connections {
        let ghost picked = selected@;
        let ghost set_aside = queue_entries(pruned);
        let mut full = false;
        while !full
            invariant
                cap == m as nat,
                hops == layer as int,
                ranked(g, q, hops, queue_entries(pruned)),
                apart(selected@, empty_pool(), queue_entries(pruned), widened),
                selected@.len() <= m,
                selected@.len() >= picked.len(),
                forall|k: int| 0 <= k < selected@.len() ==> at_layer(g, #[trigger] selected@[k], hops),
                !full ==> backfill(selected@, queue_entries(pruned), cap) == backfill(
                    picked,
                    set_aside,
                    cap,
                ),
                full ==> selected@ == backfill(picked, set_aside, cap),
            decreases
                    if full {
                        0
                    } else {
                        queue_entries(pruned).len() + 1
                    },
        {
            let ghost before = queue_entries(pruned);
            let ghost held = selected@;
            proof {
                lemma_pool_empty(before);
            }
            if selected.len() >= m {
                full = true;
            } else {
                match queue_pop_min(&mut pruned) {
                    None => {
                        full = true;
                    },
                    Some((candidate, rank)) => {
                        proof {
                            lemma_min_item_is(before, candidate);
                            lemma_pool_remove(before, candidate);
                            assert(at_layer(g, candidate, hops));
                        }
                        selected.push(candidate);
                        proof {
                            assert forall|a: int, b: int|
                                0 <= a < selected@.len() && 0 <= b < selected@.len() && a
                                    != b implies selected@[a] != selected@[b] by {
                                if a < held.len() {
                                    assert(!before.contains_key(held[a]));
                                }
                                if b < held.len() {
                                    assert(!before.contains_key(held[b]));
                                }
                            }
                        }
                    },
                }
            }
        }
    }
    selected
}

} // verus!
