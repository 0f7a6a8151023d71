//! The frontier of the shortest-path search: a min-priority structure over
//! encoded search states, built on the `priority_queue` crate.
//!
//! `priority_queue::PriorityQueue` keeps at most one entry per item and pops
//! the entry whose priority is greatest under `Ord`.  Storing priorities as
//! `core::cmp::Reverse<u64>` therefore pops a pair with the *least* cost.
//! Items are states encoded as plain integer tuples
//! `(x, y, heading index, run)`, so that the queue's behaviour rests only on
//! the standard equality and hashing of integers.
//!
//! The queue's contents are named by the uninterpreted map
//! [`frontier_entries`]; the trusted wrappers below state, over that name,
//! what the crate's `push`, `get_priority` and `pop` do.

use vstd::prelude::*;

use core::cmp::Reverse;
use priority_queue::PriorityQueue;

verus! {

/// A state key: `(x, y, heading index, run)`.
pub type StateKey = (u64, u64, u64, u64);

#[verifier::external_type_specification]
#[verifier::external_body]
#[verifier::reject_recursive_types(T)]
pub struct ExReverse<T>(Reverse<T>);

#[verifier::external_type_specification]
#[verifier::external_body]
#[verifier::reject_recursive_types(I)]
#[verifier::reject_recursive_types(P)]
#[verifier::reject_recursive_types(H)]
pub struct ExPriorityQueue<I, P, H>(PriorityQueue<I, P, H>);

/// The frontier: one live entry per state key, priority-ordered by cost,
/// lowest cost popped first.
pub type Frontier = PriorityQueue<StateKey, Reverse<u64>>;

/// What the frontier holds: each queued state key mapped to its tentative
/// cost.
pub uninterp spec fn frontier_entries(q: Frontier) -> Map<StateKey, u64>;

/// Relies on `PriorityQueue::new`: creates an empty queue.
#[verifier::external_body]
pub(crate) fn frontier_new() -> (q: Frontier)
    ensures
        frontier_entries(q) === Map::empty(),
{
    PriorityQueue::new()
}

/// Relies on `PriorityQueue::push`: inserts the item with the given
/// priority, or replaces the priority of an item already present.
#[verifier::external_body]
pub(crate) fn frontier_push(q: &mut Frontier, k: StateKey, cost: u64)
    ensures
        frontier_entries(*final(q)) == frontier_entries(*old(q)).insert(k, cost),
{
    q.push(k, Reverse(cost));
}

/// Relies on `PriorityQueue::get_priority`: returns the priority of an item
/// in the queue, or `None` if the item is not queued.
#[verifier::external_body]
pub(crate) fn frontier_get(q: &Frontier, k: StateKey) -> (r: Option<u64>)
    ensures
        r == (if frontier_entries(*q).dom().contains(k) {
            Some(frontier_entries(*q)[k])
        } else {
            None::<u64>
        }),
{
    q.get_priority(&k).map(|p| p.0)
}

/// Relies on `PriorityQueue::pop`: removes and returns an item with the
/// greatest priority, i.e. one whose cost is minimal over the whole queue
/// (ties broken arbitrarily), or `None` if the queue is empty.
#[verifier::external_body]
pub(crate) fn frontier_pop(q: &mut Frontier) -> (r: Option<(StateKey, u64)>)
    ensures
        match r {
            None => frontier_entries(*old(q)) === Map::empty() && frontier_entries(*final(q))
                == frontier_entries(*old(q)),
            Some(kc) => frontier_entries(*old(q)).contains_pair(kc.0, kc.1) && (forall|k2: StateKey|
                #[trigger] frontier_entries(*old(q)).dom().contains(k2) ==> kc.1
                    <= frontier_entries(*old(q))[k2]) && frontier_entries(*final(q))
                == frontier_entries(*old(q)).remove(kc.0),
        },
{
    q.pop().map(|(k, p)| (k, p.0))
}

} // verus!
