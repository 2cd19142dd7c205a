use vstd::prelude::*;
use priority_queue::PriorityQueue;

verus! {

#[verifier::external_type_specification]
#[verifier::external_body]
#[verifier::reject_recursive_types(I)]
#[verifier::reject_recursive_types(P)]
#[verifier::reject_recursive_types(H)]
pub struct ExPriorityQueue<I, P, H>(PriorityQueue<I, P, H>);

/// What a queue holds: each queued item with its priority (the crate keeps one
/// priority per item).
pub uninterp spec fn queue_items(q: PriorityQueue<usize, i64>) -> Map<usize, i64>;

/// Relies on `PriorityQueue::new`: a new queue holds nothing.
#[verifier::external_body]
pub(crate) fn queue_new() -> (r: PriorityQueue<usize, i64>)
    ensures
        queue_items(r).dom() == Set::<usize>::empty(),
{
    PriorityQueue::new()
}

/// Relies on `PriorityQueue::push`: an item already queued gets the new priority
/// and its old one is returned; otherwise the pair is added and `None` returned.
#[verifier::external_body]
pub(crate) fn queue_push(q: &mut PriorityQueue<usize, i64>, item: usize, priority: i64) -> (r: Option<i64>)
    ensures
        queue_items(*final(q)) == queue_items(*old(q)).insert(item, priority),
        r == (if queue_items(*old(q)).contains_key(item) {
            Some(queue_items(*old(q))[item])
        } else {
            None
        }),
{
    q.push(item, priority)
}

/// Relies on `PriorityQueue::pop`: removes and returns an item of greatest
/// priority with that priority, or `None` when the queue is empty.
#[verifier::external_body]
pub(crate) fn queue_pop(q: &mut PriorityQueue<usize, i64>) -> (r: Option<(usize, i64)>)
    ensures
        match r {
            None => queue_items(*old(q)).dom() == Set::<usize>::empty() && queue_items(*final(q))
                == queue_items(*old(q)),
            Some((i, p)) => {
                &&& queue_items(*old(q)).contains_key(i)
                &&& queue_items(*old(q))[i] == p
                &&& forall|j: usize| #[trigger]
                    queue_items(*old(q)).contains_key(j) ==> queue_items(*old(q))[j] <= p
                &&& queue_items(*final(q)) == queue_items(*old(q)).remove(i)
            },
        },
{
    q.pop()
}

} // verus!
