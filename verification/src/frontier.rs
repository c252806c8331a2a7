//! The frontier: a min-priority structure over pending search states with
//! push-if-better semantics. It is backed by `priority_queue::PriorityQueue`,
//! which keeps one entry per item; priorities are stored reversed, so the
//! crate's max-priority operations become min-priority ones here.
use vstd::prelude::*;

verus! {

/// Pending entries ordered by best-known priority. Keys are encoded search
/// states; each key is held at most once.
#[verifier::external_body]
pub struct Frontier {
    queue: priority_queue::PriorityQueue<u64, core::cmp::Reverse<u32>>,
}

/// What the frontier holds: each pending item with its current priority.
pub uninterp spec fn frontier_entries(q: Frontier) -> Map<u64, u32>;

/// The model of a frontier that holds nothing.
pub open spec fn no_entries() -> Map<u64, u32> {
    Map::empty()
}

impl Frontier {
    /// Relies on `PriorityQueue::new`: the new queue holds nothing.
    #[verifier::external_body]
    pub fn new() -> (out: Frontier)
        ensures
            frontier_entries(out) == no_entries(),
    {
        Frontier { queue: priority_queue::PriorityQueue::new() }
    }

    /// Decrease-key relaxation. Relies on `PriorityQueue::push_increase`,
    /// with priorities reversed: it inserts an absent item, lowers the stored
    /// priority of a present one when the new priority is lower, and
    /// otherwise changes nothing.
    #[verifier::external_body]
    pub fn push_improve(&mut self, item: u64, priority: u32)
        ensures
            frontier_entries(*final(self)) == if frontier_entries(*old(self)).contains_key(item)
                && frontier_entries(*old(self))[item] <= priority {
                frontier_entries(*old(self))
            } else {
                frontier_entries(*old(self)).insert(item, priority)
            },
    {
        self.queue.push_increase(item, core::cmp::Reverse(priority));
    }

    /// Relies on `PriorityQueue::pop`, with priorities reversed: it removes
    /// and returns an entry whose priority is least (ties broken by heap
    /// layout), and returns `None` exactly when the queue holds nothing.
    #[verifier::external_body]
    pub fn pop_min(&mut self) -> (r: Option<(u64, u32)>)
        ensures
            match r {
                None => frontier_entries(*old(self)) == no_entries()
                    && frontier_entries(*final(self)) == frontier_entries(*old(self)),
                Some((item, priority)) => {
                    &&& frontier_entries(*old(self)).contains_key(item)
                    &&& frontier_entries(*old(self))[item] == priority
                    &&& forall|other: u64|
                        frontier_entries(*old(self)).contains_key(other) ==> priority
                            <= frontier_entries(*old(self))[other]
                    &&& frontier_entries(*final(self)) == frontier_entries(*old(self)).remove(item)
                },
            },
    {
        match self.queue.pop() {
            Some((item, core::cmp::Reverse(priority))) => Some((item, priority)),
            None => None,
        }
    }
}

} // verus!
