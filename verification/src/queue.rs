//! The queue of edges by priority, kept in a `priority_queue::PriorityQueue`.
//!
//! Nothing in this file is proved: it says what the rest of the library takes
//! the queue of that crate to do.

use priority_queue::PriorityQueue;
use std::hash::RandomState;
use vstd::prelude::*;

verus! {

/// `priority_queue::PriorityQueue`, as a value that is handed around whole:
/// nothing is said of what it is made of.
#[verifier::external_type_specification]
#[verifier::external_body]
#[verifier::reject_recursive_types(I)]
#[verifier::reject_recursive_types(P)]
#[verifier::reject_recursive_types(H)]
pub struct ExPriorityQueue<I, P, H>(PriorityQueue<I, P, H>);

/// The queue of edges waiting to be collapsed: a pair of position indices,
/// smaller one first, with the priority it was last given.
pub type EdgeQueue = PriorityQueue<(i32, i32), i64, RandomState>;

/// Queued pairs, each with its priority.
pub type Queued = Map<(i32, i32), i64>;

/// What an edge queue holds: each queued pair with its priority.
pub uninterp spec fn queued(queue: EdgeQueue) -> Queued;

/// `PriorityQueue::new`: a queue that holds nothing.
#[verifier::external_body]
pub(crate) fn queue_new() -> (queue: EdgeQueue)
    ensures
        queued(queue) == Queued::empty(),
{
    PriorityQueue::new()
}

/// `PriorityQueue::push`: the pair is queued with the given priority, whether
/// or not it was queued before; the priority it had before is handed back.
#[verifier::external_body]
pub(crate) fn queue_push(queue: &mut EdgeQueue, item: (i32, i32), priority: i64) -> (before: Option<i64>)
    ensures
        queued(*final(queue)) == queued(*old(queue)).insert(item, priority),
        before == (if queued(*old(queue)).contains_key(item) {
            Some(queued(*old(queue))[item])
        } else {
            None
        }),
{
    queue.push(item, priority)
}

/// `PriorityQueue::pop`: takes out a pair whose priority no other queued pair
/// exceeds, or gives `None` on a queue that holds nothing. Which of several
/// pairs with the same greatest priority leaves is not stated.
#[verifier::external_body]
pub(crate) fn queue_pop(queue: &mut EdgeQueue) -> (top: Option<((i32, i32), i64)>)
    ensures
        match top {
            Some((item, priority)) => {
                &&& queued(*old(queue)).contains_key(item)
                &&& queued(*old(queue))[item] == priority
                &&& forall|other: (i32, i32)| #[trigger]
                    queued(*old(queue)).contains_key(other) ==> queued(*old(queue))[other]
                        <= priority
                &&& queued(*final(queue)) == queued(*old(queue)).remove(item)
            },
            None => {
                &&& queued(*old(queue)) == Queued::empty()
                &&& queued(*final(queue)) == queued(*old(queue))
            },
        },
{
    queue.pop()
}

/// `PriorityQueue::change_priority`: a queued pair gets the new priority and
/// its old one is handed back; a pair that is not queued is not added.
#[verifier::external_body]
pub(crate) fn queue_change_priority(queue: &mut EdgeQueue, item: (i32, i32), priority: i64) -> (before: Option<i64>)
    ensures
        queued(*final(queue)) == (if queued(*old(queue)).contains_key(item) {
            queued(*old(queue)).insert(item, priority)
        } else {
            queued(*old(queue))
        }),
        before == (if queued(*old(queue)).contains_key(item) {
            Some(queued(*old(queue))[item])
        } else {
            None
        }),
{
    queue.change_priority(&item, priority)
}

} // verus!
