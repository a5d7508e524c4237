//! The layered proximity graph as a mathematical value, and the facts about
//! ranked pools that the search and the selection rest on.

use crate::node::NodeView;
use crate::queue::{is_max_item, is_min_item, rank_le, Rank};
use crate::vector::squared_distance_spec;
use vstd::prelude::*;

verus! {

/// The graph: the value of every node, by identifier.
pub type Graph = Map<usize, NodeView>;

/// A ranked pool of identifiers.
pub type Pool = Map<usize, Rank>;

/// Squared distance from the coordinates `q` to the node `id`.
pub open spec fn distance_to(g: Graph, q: Seq<i32>, id: usize) -> nat {
    squared_distance_spec(q, g[id].vector)
}

/// Rank of the node `id` for the query `q`.
pub open spec fn rank_of(g: Graph, q: Seq<i32>, id: usize) -> Rank {
    (distance_to(g, q, id) as u128, id)
}

/// The node `id` is in the graph and exists at `layer`.
pub open spec fn at_layer(g: Graph, id: usize, layer: int) -> bool {
    g.contains_key(id) && 0 <= layer < g[id].layers.len()
}

/// Every edge of `layer` leads to a node that exists at `layer`.
pub open spec fn closed_at(g: Graph, layer: int) -> bool {
    forall|id: usize, j: int|
        g.contains_key(id) && 0 <= j < g[id].neighbors(layer).len() ==> at_layer(
            g,
            #[trigger] g[id].neighbors(layer)[j],
            layer,
        )
}

/// Every edge of every layer leads to a node that exists at that layer.
pub open spec fn closed(g: Graph) -> bool {
    forall|layer: int| closed_at(g, layer)
}

/// Every vector of the graph has `dim` coordinates.
pub open spec fn uniform(g: Graph, dim: nat) -> bool {
    forall|id: usize| #[trigger] g.contains_key(id) ==> g[id].vector.len() == dim
}

/// No neighbour list of the graph is longer than `cap`.
pub open spec fn degree_within(g: Graph, cap: nat) -> bool {
    forall|id: usize, layer: int|
        g.contains_key(id) && 0 <= layer < g[id].layers.len() ==> (
        #[trigger] g[id].layers[layer]).len() <= cap
}

/// The graph has an edge from `a` to `b` at `layer`.
pub open spec fn has_edge(g: Graph, layer: int, a: usize, b: usize) -> bool {
    g.contains_key(a) && g[a].neighbors(layer).contains(b)
}

/// `path` is a walk along edges of `layer`.
pub open spec fn is_path(g: Graph, layer: int, path: Seq<usize>) -> bool {
    &&& path.len() > 0
    &&& forall|i: int| 0 <= i < path.len() - 1 ==> has_edge(g, layer, #[trigger] path[i], path[i + 1])
}

/// A walk along edges of `layer` leads from `a` to `b`.
pub open spec fn reachable(g: Graph, layer: int, a: usize, b: usize) -> bool {
    exists|path: Seq<usize>| is_path(g, layer, path) && path[0] == a && path.last() == b
}

/// The nodes that a walk along edges of `layer` leads to from `a`.
pub open spec fn reach_set(g: Graph, layer: int, a: usize) -> Set<usize> {
    Set::new(|b: usize| reachable(g, layer, a, b))
}

/// At `layer`, a walk leads from every node of the graph to every other.
pub open spec fn strongly_connected(g: Graph, layer: int) -> bool {
    forall|a: usize, b: usize|
        g.contains_key(a) && g.contains_key(b) ==> #[trigger] reachable(g, layer, a, b)
}

/// Every node is reached from itself.
pub proof fn lemma_reach_self(g: Graph, layer: int, a: usize)
    ensures
        reachable(g, layer, a, a),
{
    let path = seq![a];
    assert(is_path(g, layer, path) && path[0] == a && path.last() == a);
}

/// A walk goes on along an edge.
pub proof fn lemma_reach_step(g: Graph, layer: int, a: usize, b: usize, c: usize)
    requires
        reachable(g, layer, a, b),
        has_edge(g, layer, b, c),
    ensures
        reachable(g, layer, a, c),
{
    let path = choose|path: Seq<usize>| is_path(g, layer, path) && path[0] == a && path.last() == b;
    let longer = path.push(c);
    assert forall|i: int| 0 <= i < longer.len() - 1 implies has_edge(
        g,
        layer,
        #[trigger] longer[i],
        longer[i + 1],
    ) by {
        if i < path.len() - 1 {
            assert(has_edge(g, layer, path[i], path[i + 1]));
        }
    }
    assert(is_path(g, layer, longer) && longer[0] == a && longer.last() == c);
}

/// Two walks, the second starting where the first ends, make one.
pub proof fn lemma_reach_trans(g: Graph, layer: int, a: usize, b: usize, c: usize)
    requires
        reachable(g, layer, a, b),
        reachable(g, layer, b, c),
    ensures
        reachable(g, layer, a, c),
{
    let second = choose|path: Seq<usize>|
        is_path(g, layer, path) && path[0] == b && path.last() == c;
    lemma_reach_along(g, layer, a, second, second.len() - 1);
}

/// Who reaches the start of a walk reaches each node on it.
pub proof fn lemma_reach_along(g: Graph, layer: int, a: usize, path: Seq<usize>, upto: int)
    requires
        is_path(g, layer, path),
        reachable(g, layer, a, path[0]),
        0 <= upto < path.len(),
    ensures
        reachable(g, layer, a, path[upto]),
    decreases upto,
{
    if upto > 0 {
        lemma_reach_along(g, layer, a, path, upto - 1);
        assert(has_edge(g, layer, path[upto - 1], path[upto - 1 + 1]));
        lemma_reach_step(g, layer, a, path[upto - 1], path[upto]);
    }
}

/// A set that holds `a` and, with each node, the nodes its edges lead to,
/// holds every node reached from `a`.
pub proof fn lemma_reach_within(g: Graph, layer: int, a: usize, within: Set<usize>)
    requires
        within.contains(a),
        forall|x: usize, y: usize|
            within.contains(x) && #[trigger] has_edge(g, layer, x, y) ==> within.contains(y),
    ensures
        reach_set(g, layer, a).subset_of(within),
{
    assert forall|b: usize| reachable(g, layer, a, b) implies within.contains(b) by {
        let path = choose|path: Seq<usize>|
            is_path(g, layer, path) && path[0] == a && path.last() == b;
        lemma_path_within(g, layer, path, within, path.len() - 1);
    }
}

/// A walk that starts in a set closed under the edges stays in it.
pub proof fn lemma_path_within(
    g: Graph,
    layer: int,
    path: Seq<usize>,
    within: Set<usize>,
    upto: int,
)
    requires
        is_path(g, layer, path),
        within.contains(path[0]),
        forall|x: usize, y: usize|
            within.contains(x) && #[trigger] has_edge(g, layer, x, y) ==> within.contains(y),
        0 <= upto < path.len(),
    ensures
        within.contains(path[upto]),
    decreases upto,
{
    if upto > 0 {
        lemma_path_within(g, layer, path, within, upto - 1);
        assert(has_edge(g, layer, path[upto - 1], path[upto - 1 + 1]));
    }
}

/// Where every edge of `g` is an edge of `h`, what is reached in `g` is
/// reached in `h`.
pub proof fn lemma_reach_mono(g: Graph, h: Graph, layer: int, a: usize, b: usize)
    requires
        reachable(g, layer, a, b),
        forall|x: usize, y: usize| #[trigger] has_edge(g, layer, x, y) ==> has_edge(h, layer, x, y),
    ensures
        reachable(h, layer, a, b),
{
    let path = choose|path: Seq<usize>| is_path(g, layer, path) && path[0] == a && path.last() == b;
    assert forall|i: int| 0 <= i < path.len() - 1 implies has_edge(
        h,
        layer,
        #[trigger] path[i],
        path[i + 1],
    ) by {
        assert(has_edge(g, layer, path[i], path[i + 1]));
    }
    assert(is_path(h, layer, path));
}

/// No edge of `layer` leads to `id`, and none leads away from it.
pub open spec fn detached(g: Graph, layer: int, id: usize) -> bool {
    &&& forall|x: usize| !#[trigger] has_edge(g, layer, x, id)
    &&& g[id].neighbors(layer).len() == 0
}

/// The node `id` has no edge at any layer, neither to it nor from it.
pub open spec fn secluded(g: Graph, id: usize) -> bool {
    forall|at: int| detached(g, at, id)
}

/// Every neighbour list of `layer` is shorter than `cap`.
pub open spec fn roomy(g: Graph, layer: int, cap: nat) -> bool {
    forall|id: usize| #[trigger] g.contains_key(id) ==> g[id].neighbors(layer).len() < cap
}

/// The graphs have the same nodes and, at `layer`, the same neighbour lists.
pub open spec fn same_lists(g: Graph, h: Graph, layer: int) -> bool {
    &&& g.dom() == h.dom()
    &&& forall|x: usize| #[trigger]
        g.contains_key(x) ==> g[x].neighbors(layer) == h[x].neighbors(layer)
}

/// `h` has every edge that `g` has at `layer`, and in `h` the node `id`
/// has an edge to and an edge from another node of `g`.
pub open spec fn joined(g: Graph, h: Graph, layer: int, id: usize) -> bool {
    &&& forall|x: usize, y: usize| #[trigger] has_edge(g, layer, x, y) ==> has_edge(h, layer, x, y)
    &&& exists|c: usize|
        c != id && g.contains_key(c) && #[trigger] has_edge(h, layer, id, c) && has_edge(
            h,
            layer,
            c,
            id,
        )
}

/// No walk leads from another node to a node that no edge leads to.
pub proof fn lemma_detached_unreached(g: Graph, layer: int, a: usize, id: usize)
    requires
        forall|x: usize| !#[trigger] has_edge(g, layer, x, id),
        a != id,
    ensures
        !reachable(g, layer, a, id),
{
    if reachable(g, layer, a, id) {
        let path = choose|path: Seq<usize>|
            is_path(g, layer, path) && path[0] == a && path.last() == id;
        assert(path.len() >= 2);
        assert(has_edge(g, layer, path[path.len() - 2], path[path.len() - 2 + 1]));
    }
}

/// A graph in which a walk leads from every node to every other stays so
/// when a detached node is joined to it.
pub proof fn lemma_joined_connected(g: Graph, h: Graph, layer: int, id: usize)
    requires
        strongly_connected(g.remove(id), layer),
        detached(g, layer, id),
        g.contains_key(id),
        h.dom() == g.dom(),
        joined(g, h, layer, id),
    ensures
        strongly_connected(h, layer),
{
    let old = g.remove(id);
    let c = choose|c: usize|
        c != id && g.contains_key(c) && #[trigger] has_edge(h, layer, id, c) && has_edge(
            h,
            layer,
            c,
            id,
        );
    assert forall|x: usize, y: usize| #[trigger] has_edge(old, layer, x, y) implies has_edge(
        h,
        layer,
        x,
        y,
    ) by {
        assert(has_edge(g, layer, x, y));
    }
    assert(old.contains_key(c));
    assert forall|a: usize, b: usize| h.contains_key(a) && h.contains_key(b) implies #[trigger] reachable(
        h,
        layer,
        a,
        b,
    ) by {
        if a != id {
            assert(old.contains_key(a));
            assert(reachable(old, layer, a, c));
            lemma_reach_mono(old, h, layer, a, c);
        } else {
            lemma_reach_self(h, layer, id);
            lemma_reach_step(h, layer, id, id, c);
        }
        assert(reachable(h, layer, a, c));
        if b != id {
            assert(old.contains_key(b));
            assert(reachable(old, layer, c, b));
            lemma_reach_mono(old, h, layer, c, b);
        } else {
            lemma_reach_self(h, layer, c);
            lemma_reach_step(h, layer, c, c, id);
        }
        lemma_reach_trans(h, layer, a, c, b);
    }
}

/// Every item of the pool carries its own identifier in its rank, so no two
/// items share a rank.
pub open spec fn tagged(pool: Pool) -> bool {
    forall|id: usize| #[trigger] pool.contains_key(id) ==> pool[id].1 == id
}

/// The pool is finite, and each of its items is a node at `layer` ranked by
/// its distance to `q`.
pub open spec fn ranked(g: Graph, q: Seq<i32>, layer: int, pool: Pool) -> bool {
    &&& pool.dom().finite()
    &&& forall|id: usize| #[trigger]
        pool.contains_key(id) ==> at_layer(g, id, layer) && pool[id] == rank_of(g, q, id)
}

/// The item of lowest rank.
pub open spec fn min_item(pool: Pool) -> usize {
    choose|id: usize| is_min_item(pool, id)
}

/// The item of highest rank.
pub open spec fn max_item(pool: Pool) -> usize {
    choose|id: usize| is_max_item(pool, id)
}

/// A tagged pool has at most one item of lowest rank, and at most one of
/// highest rank.
pub proof fn lemma_extremes_unique(pool: Pool, a: usize, b: usize)
    requires
        tagged(pool),
    ensures
        is_min_item(pool, a) && is_min_item(pool, b) ==> a == b,
        is_max_item(pool, a) && is_max_item(pool, b) ==> a == b,
{
    if is_min_item(pool, a) && is_min_item(pool, b) {
        assert(rank_le(pool[a], pool[b]) && rank_le(pool[b], pool[a]));
    }
    if is_max_item(pool, a) && is_max_item(pool, b) {
        assert(rank_le(pool[a], pool[b]) && rank_le(pool[b], pool[a]));
    }
}

/// In a tagged pool, an item of lowest rank is `min_item`.
pub proof fn lemma_min_item_is(pool: Pool, id: usize)
    requires
        tagged(pool),
        is_min_item(pool, id),
    ensures
        min_item(pool) == id,
{
    lemma_extremes_unique(pool, id, min_item(pool));
}

/// In a tagged pool, an item of highest rank is `max_item`.
pub proof fn lemma_max_item_is(pool: Pool, id: usize)
    requires
        tagged(pool),
        is_max_item(pool, id),
    ensures
        max_item(pool) == id,
{
    lemma_extremes_unique(pool, id, max_item(pool));
}

/// A finite pool that is not empty has an item of lowest rank and one of
/// highest rank.
pub proof fn lemma_extremes_exist(pool: Pool)
    requires
        pool.dom().finite(),
        pool.len() > 0,
    ensures
        is_min_item(pool, min_item(pool)),
        is_max_item(pool, max_item(pool)),
    decreases pool.len(),
{
    let x = pool.dom().choose();
    let rest = pool.remove(x);
    assert(pool.contains_key(x));
    if rest.len() == 0 {
        assert forall|other: usize| #[trigger] pool.contains_key(other) implies other == x by {
            if other != x {
                assert(rest.contains_key(other));
                assert(rest.dom().contains(other));
            }
        }
        assert(is_min_item(pool, x));
        assert(is_max_item(pool, x));
    } else {
        lemma_extremes_exist(rest);
        let lo = min_item(rest);
        let hi = max_item(rest);
        let low = if rank_le(pool[x], pool[lo]) {
            x
        } else {
            lo
        };
        let high = if rank_le(pool[hi], pool[x]) {
            x
        } else {
            hi
        };
        assert forall|other: usize| #[trigger] pool.contains_key(other) implies rank_le(
            pool[low],
            pool[other],
        ) && rank_le(pool[other], pool[high]) by {
            if other != x {
                assert(rest.contains_key(other));
            }
        }
        assert(is_min_item(pool, low));
        assert(is_max_item(pool, high));
    }
}

/// Adding an item to a finite pool keeps it finite; its size grows by one
/// where the item is new and stays where it is not.
pub proof fn lemma_pool_insert(pool: Pool, id: usize, rank: Rank)
    requires
        pool.dom().finite(),
    ensures
        pool.insert(id, rank).dom().finite(),
        pool.insert(id, rank).len() == pool.len() + (if pool.contains_key(id) {
            0int
        } else {
            1int
        }),
{
    assert(pool.insert(id, rank).dom() =~= pool.dom().insert(id));
}

/// Removing an item of a finite pool keeps it finite and makes it smaller by
/// one.
pub proof fn lemma_pool_remove(pool: Pool, id: usize)
    requires
        pool.dom().finite(),
        pool.contains_key(id),
    ensures
        pool.remove(id).dom().finite(),
        pool.remove(id).len() == pool.len() - 1,
{
    assert(pool.remove(id).dom() =~= pool.dom().remove(id));
}

/// The empty pool.
pub open spec fn empty_pool() -> Pool {
    Map::empty()
}

/// A finite pool has size zero exactly when it is empty.
pub proof fn lemma_pool_empty(pool: Pool)
    requires
        pool.dom().finite(),
    ensures
        pool.len() == 0 <==> pool == empty_pool(),
        pool.len() == 0 <==> (forall|id: usize| !pool.contains_key(id)),
{
    if pool.len() == 0 {
        assert(pool.dom() =~= Set::empty());
        assert(pool =~= empty_pool());
    }
    if forall|id: usize| !pool.contains_key(id) {
        assert(pool.dom() =~= Set::empty());
    }
}

} // verus!
