//! A bounded FIFO queue with a non-blocking enqueue that drops the newest
//! item when the queue is full: bounded latency takes priority over
//! completeness on this best-effort link.

use vstd::prelude::*;

verus! {

/// Bounded FIFO queue. Enqueue refuses (and the caller drops the item)
/// when `capacity` items are already held; dequeue takes from the front,
/// so items leave in the order they entered.
pub struct BoundedQueue<T> {
    items: Vec<T>,
    cap: usize,
}

impl<T> BoundedQueue<T> {
    /// The items currently held, oldest first.
    pub closed spec fn contents(self) -> Seq<T> {
        self.items@
    }

    /// The fixed capacity the queue was created with.
    pub closed spec fn capacity(self) -> int {
        self.cap as int
    }

    /// The queue never holds more than its capacity.
    pub closed spec fn wf(self) -> bool {
        self.items@.len() <= self.cap
    }

    /// Create an empty queue. A zero capacity is a programming error and is
    /// ruled out at construction.
    pub fn new(cap: usize) -> (q: BoundedQueue<T>)
        requires
            cap >= 1,
        ensures
            q.wf(),
            q.capacity() == cap,
            q.contents() == Seq::<T>::empty(),
    {
        BoundedQueue { items: Vec::new(), cap }
    }

    /// How many items are held.
    pub fn len(&self) -> (n: usize)
        ensures
            n == self.contents().len(),
    {
        self.items.len()
    }

    /// Whether nothing is held.
    pub fn is_empty(&self) -> (e: bool)
        ensures
            e <==> self.contents().len() == 0,
    {
        self.items.is_empty()
    }

    /// Non-blocking enqueue: appends `v` when there is room and reports
    /// `true`; otherwise leaves the queue unchanged and reports `false`,
    /// and the newest item is thereby dropped.
    pub fn try_send(&mut self, v: T) -> (ok: bool)
        requires
            old(self).wf(),
        ensures
            final(self).wf(),
            final(self).capacity() == old(self).capacity(),
            old(self).contents().len() < old(self).capacity() ==> ok && final(self).contents()
                == old(self).contents().push(v),
            old(self).contents().len() >= old(self).capacity() ==> !ok && final(self).contents()
                == old(self).contents(),
    {
        if self.items.len() < self.cap {
            self.items.push(v);
            true
        } else {
            false
        }
    }

    /// Non-blocking dequeue: takes the oldest item, or reports that the
    /// queue is empty.
    pub fn try_receive(&mut self) -> (r: Option<T>)
        requires
            old(self).wf(),
        ensures
            final(self).wf(),
            final(self).capacity() == old(self).capacity(),
            old(self).contents().len() == 0 ==> r is None && final(self).contents() == old(self).contents(),
            old(self).contents().len() > 0 ==> r == Some(old(self).contents()[0])
                && final(self).contents() == old(self).contents().drop_first(),
    {
        if self.items.len() > 0 {
            let v = self.items.remove(0);
            proof {
                assert(self.items@ =~= old(self).contents().drop_first());
            }
            Some(v)
        } else {
            None
        }
    }
}

} // verus!
