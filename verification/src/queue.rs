//! The priority queue in which districts are collected, as far as this
//! library relies on it. Nothing here is proved: each contract states what
//! the `priority-queue` crate documents and its source shows.

use vstd::prelude::*;
use priority_queue::PriorityQueue;
use std::cmp::Reverse;

verus! {

/// `priority_queue::PriorityQueue`, taken as it is: nothing is known of a
/// queue but what the functions below state.
#[verifier::external_type_specification]
#[verifier::external_body]
#[verifier::reject_recursive_types(I)]
#[verifier::reject_recursive_types(P)]
#[verifier::reject_recursive_types(H)]
pub struct ExPriorityQueue<I, P, H>(PriorityQueue<I, P, H>);

/// `std::cmp::Reverse`, the wrapper that turns an order around; it only
/// passes through this library as the type of a priority.
#[verifier::external_type_specification]
#[verifier::external_body]
#[verifier::reject_recursive_types(T)]
pub struct ExReverse<T>(Reverse<T>);

/// What a queue holds: its items, each with the number whose reverse is
/// the item's priority.
pub uninterp spec fn queue_contents(q: PriorityQueue<u64, Reverse<u64>>) -> Map<u64, u64>;

/// Makes an empty queue with `PriorityQueue::new`.
#[verifier::external_body]
pub(crate) fn queue_new() -> (q: PriorityQueue<u64, Reverse<u64>>)
    ensures
        queue_contents(q).dom() == Set::<u64>::empty(),
{
    PriorityQueue::new()
}

/// Puts an item into the queue with `PriorityQueue::push`, under the
/// priority `Reverse(rank)`. An item that the queue already holds is not
/// held twice: it gets the new priority, and the rank it had is returned.
#[verifier::external_body]
pub(crate) fn queue_push(q: &mut PriorityQueue<u64, Reverse<u64>>, item: u64, rank: u64) -> (had:
    Option<u64>)
    ensures
        queue_contents(*final(q)) == queue_contents(*old(q)).insert(item, rank),
        had == (if queue_contents(*old(q)).contains_key(item) {
            Some(queue_contents(*old(q))[item])
        } else {
            None
        }),
{
    q.push(item, Reverse(rank)).map(|r| r.0)
}

/// Lists the items of the queue with `PriorityQueue::iter`, which visits
/// each item once, in an order that the crate leaves open.
#[verifier::external_body]
pub(crate) fn queue_items(q: &PriorityQueue<u64, Reverse<u64>>) -> (items: Vec<u64>)
    ensures
        items@.no_duplicates(),
        items@.to_set() == queue_contents(*q).dom(),
{
    q.iter().map(|(item, _)| *item).collect()
}

} // verus!
