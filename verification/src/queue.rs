//! Ranked pools of node identifiers, kept in a double-ended priority queue.
//!
//! A pool maps an identifier to its rank: the distance to some query and,
//! to break ties, the identifier itself. Ranks are compared as pairs, the
//! distance first.

use crate::node::NodeId;
use priority_queue::DoublePriorityQueue;
use std::collections::hash_map::RandomState;
use vstd::prelude::*;

verus! {

#[verifier::external_type_specification]
#[verifier::external_body]
#[verifier::reject_recursive_types(I)]
#[verifier::reject_recursive_types(P)]
#[verifier::reject_recursive_types(H)]
pub struct ExDoublePriorityQueue<I, P, H>(DoublePriorityQueue<I, P, H>);

/// A distance paired with the identifier it belongs to.
pub type Rank = (u128, usize);

/// The queue that holds a pool.
pub type RankQueue = DoublePriorityQueue<NodeId, Rank, RandomState>;

/// What a queue holds: the rank under which each of its items was pushed
/// last.
pub uninterp spec fn queue_entries(q: RankQueue) -> Map<usize, Rank>;

/// The order of ranks: by distance, then by identifier.
pub open spec fn rank_le(a: Rank, b: Rank) -> bool {
    a.0 < b.0 || (a.0 == b.0 && a.1 <= b.1)
}

/// `item` is in the pool and no rank in the pool lies below its own.
pub open spec fn is_min_item(pool: Map<usize, Rank>, item: usize) -> bool {
    &&& pool.contains_key(item)
    &&& forall|other: usize| #[trigger] pool.contains_key(other) ==> rank_le(pool[item], pool[other])
}

/// `item` is in the pool and no rank in the pool lies above its own.
pub open spec fn is_max_item(pool: Map<usize, Rank>, item: usize) -> bool {
    &&& pool.contains_key(item)
    &&& forall|other: usize| #[trigger] pool.contains_key(other) ==> rank_le(pool[other], pool[item])
}

/// `DoublePriorityQueue::new`: a queue that holds nothing.
#[verifier::external_body]
pub(crate) fn queue_new() -> (q: RankQueue)
    ensures
        queue_entries(q) == (Map::<usize, Rank>::empty()),
{
    DoublePriorityQueue::new()
}

/// `DoublePriorityQueue::push`: afterwards `item` has the rank `rank`,
/// whether or not it was in the queue before, and every other item is as it
/// was.
#[verifier::external_body]
pub(crate) fn queue_push(q: &mut RankQueue, item: NodeId, rank: Rank)
    ensures
        queue_entries(*final(q)) == queue_entries(*old(q)).insert(item, rank),
{
    q.push(item, rank);
}

/// `DoublePriorityQueue::len`: the number of items held.
#[verifier::external_body]
pub(crate) fn queue_len(q: &RankQueue) -> (n: usize)
    ensures
        n == queue_entries(*q).len(),
{
    q.len()
}

/// `DoublePriorityQueue::pop_min`: takes out an item of lowest rank and
/// returns it with its rank; on an empty queue returns `None` and changes
/// nothing. Ranks are pairs of integers, which the standard library orders
/// by their first component and then by their second.
#[verifier::external_body]
pub(crate) fn queue_pop_min(q: &mut RankQueue) -> (popped: Option<(NodeId, Rank)>)
    ensures
        match popped {
            Some((item, rank)) => {
                &&& is_min_item(queue_entries(*old(q)), item)
                &&& rank == queue_entries(*old(q))[item]
                &&& queue_entries(*final(q)) == queue_entries(*old(q)).remove(item)
            },
            None => {
                &&& queue_entries(*old(q)) == (Map::<usize, Rank>::empty())
                &&& queue_entries(*final(q)) == queue_entries(*old(q))
            },
        },
{
    q.pop_min()
}

/// `DoublePriorityQueue::pop_max`: takes out an item of highest rank and
/// returns it with its rank; on an empty queue returns `None` and changes
/// nothing.
#[verifier::external_body]
pub(crate) fn queue_pop_max(q: &mut RankQueue) -> (popped: Option<(NodeId, Rank)>)
    ensures
        match popped {
            Some((item, rank)) => {
                &&& is_max_item(queue_entries(*old(q)), item)
                &&& rank == queue_entries(*old(q))[item]
                &&& queue_entries(*final(q)) == queue_entries(*old(q)).remove(item)
            },
            None => {
                &&& queue_entries(*old(q)) == (Map::<usize, Rank>::empty())
                &&& queue_entries(*final(q)) == queue_entries(*old(q))
            },
        },
{
    q.pop_max()
}

/// `DoublePriorityQueue::peek_max`, with the pair copied out: an item of
/// highest rank and its rank, or `None` on an empty queue.
#[verifier::external_body]
pub(crate) fn queue_peek_max(q: &RankQueue) -> (top: Option<(NodeId, Rank)>)
    ensures
        match top {
            Some((item, rank)) => is_max_item(queue_entries(*q), item) && rank == queue_entries(
                *q,
            )[item],
            None => queue_entries(*q) == (Map::<usize, Rank>::empty()),
        },
{
    q.peek_max().map(|(item, rank)| (*item, *rank))
}

/// `DoublePriorityQueue::iter`, with the items collected: every item of the
/// queue once, in an order that is left open.
#[verifier::external_body]
pub(crate) fn queue_items(q: &RankQueue) -> (items: Vec<NodeId>)
    ensures
        items@.no_duplicates() && items@.to_set() == queue_entries(*q).dom(),
{
    q.iter().map(|(item, _)| *item).collect()
}

} // verus!
