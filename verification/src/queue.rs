//! The ready queue: a `priority_queue::PriorityQueue` of task identifiers.
//!
//! A task is queued under the key `(user priority, internal priority, id)`.
//! Keys are ordered lexicographically and the task with the smallest key
//! leaves first, so the priority of the queue is the key wrapped in
//! `std::cmp::Reverse`. What the queue holds is named by [`queue_contents`];
//! the functions below restate the documented behaviour of the queue over
//! that name and are not proved here.

use std::cmp::Reverse;
use priority_queue::PriorityQueue;
use vstd::prelude::*;

verus! {

/// `priority_queue::PriorityQueue`, carried as it is.
#[verifier::external_type_specification]
#[verifier::external_body]
#[verifier::reject_recursive_types(I)]
#[verifier::reject_recursive_types(P)]
#[verifier::reject_recursive_types(H)]
pub struct ExPriorityQueue<I, P, H>(PriorityQueue<I, P, H>);

/// `std::cmp::Reverse`, carried as it is.
#[verifier::external_type_specification]
#[verifier::external_body]
#[verifier::reject_recursive_types(T)]
pub struct ExReverse<T>(Reverse<T>);

/// User priority, internal priority, task identifier.
pub type QueueKey = (i32, i32, u64);

/// The queue of identifiers; the greatest priority is the smallest key.
pub type ReadyQueue = PriorityQueue<u64, Reverse<QueueKey>>;

/// The queued identifiers, each with the key it was pushed under.
pub uninterp spec fn queue_contents(queue: ReadyQueue) -> Map<u64, QueueKey>;

/// Lexicographic order on keys, as the standard library orders tuples.
pub open spec fn key_le(a: QueueKey, b: QueueKey) -> bool {
    a.0 < b.0 || (a.0 == b.0 && (a.1 < b.1 || (a.1 == b.1 && a.2 <= b.2)))
}

/// Calls `priority_queue::PriorityQueue::new`: the new queue holds nothing.
#[verifier::external_body]
pub(crate) fn queue_new() -> (queue: ReadyQueue)
    ensures
        (queue_contents(queue) == Map::<u64, QueueKey>::empty()),
{
    PriorityQueue::new()
}

/// Calls `priority_queue::PriorityQueue::push`: afterwards `id` is queued
/// under `key`, whether or not it was queued before; the key it had before is
/// returned.
#[verifier::external_body]
pub(crate) fn queue_push(queue: &mut ReadyQueue, id: u64, key: QueueKey) -> (previous: Option<QueueKey>)
    ensures
        queue_contents(*final(queue)) == queue_contents(*old(queue)).insert(id, key),
        previous == if queue_contents(*old(queue)).contains_key(id) {
            Some(queue_contents(*old(queue))[id])
        } else {
            None
        },
{
    queue.push(id, Reverse(key)).map(|previous| previous.0)
}

/// Calls `priority_queue::PriorityQueue::pop`: an empty queue gives `None`
/// and stays as it is. Otherwise an entry of the greatest priority leaves the
/// queue and is returned. The priority is the key in `Reverse`, so the key of
/// that entry is no larger than any key that was queued; which of several
/// entries with that key leaves is not said.
#[verifier::external_body]
pub(crate) fn queue_pop(queue: &mut ReadyQueue) -> (popped: Option<(u64, QueueKey)>)
    ensures
        match popped {
            Some((id, key)) => {
                &&& queue_contents(*old(queue)).contains_key(id)
                &&& queue_contents(*old(queue))[id] == key
                &&& queue_contents(*final(queue)) == queue_contents(*old(queue)).remove(id)
                &&& forall|other: u64| #[trigger]
                    queue_contents(*old(queue)).contains_key(other) ==> key_le(
                        key,
                        queue_contents(*old(queue))[other],
                    )
            },
            None => {
                &&& queue_contents(*final(queue)) == queue_contents(*old(queue))
                &&& forall|other: u64| !#[trigger] queue_contents(*old(queue)).contains_key(other)
            },
        },
{
    queue.pop().map(|entry| (entry.0, entry.1.0))
}

/// Calls `priority_queue::PriorityQueue::remove`: afterwards `id` is not
/// queued and every other entry is as before; the key that `id` had is
/// returned.
#[verifier::external_body]
pub(crate) fn queue_remove(queue: &mut ReadyQueue, id: u64) -> (previous: Option<QueueKey>)
    ensures
        queue_contents(*final(queue)) == queue_contents(*old(queue)).remove(id),
        previous == if queue_contents(*old(queue)).contains_key(id) {
            Some(queue_contents(*old(queue))[id])
        } else {
            None
        },
{
    queue.remove(&id).map(|entry| entry.1.0)
}

/// Calls `priority_queue::PriorityQueue::len`: the number of entries in the
/// queue.
#[verifier::external_body]
pub(crate) fn queue_len(queue: &ReadyQueue) -> (count: usize)
    ensures
        count == queue_contents(*queue).len(),
{
    queue.len()
}

/// Calls `priority_queue::PriorityQueue::contains`: whether `id` is queued.
#[verifier::external_body]
pub(crate) fn queue_contains(queue: &ReadyQueue, id: u64) -> (found: bool)
    ensures
        found == queue_contents(*queue).contains_key(id),
{
    queue.contains(&id)
}

} // verus!
