//! A bounded handoff queue: a fixed-capacity, insertion-ordered container
//! that moves whole items from producers to a consumer. Items are never
//! dropped silently: a push against a full queue hands the item back.
//!
//! The queue itself is a plain single-owner value. Sharing it between
//! execution contexts is the surrounding glue's concern (a handle type that
//! wraps it in a lock); the capacity and ordering rules proved here are what
//! every handle then observes under mutual exclusion.

use vstd::prelude::*;

verus! {

/// A fixed-capacity queue of whole items, insertion order preserved.
/// `items.len() <= capacity` holds at every observable instant.
pub struct BoundedQueue<T> {
    capacity: usize,
    items: Vec<T>,
}

impl<T> BoundedQueue<T> {
    /// The items currently queued, oldest first.
    pub closed spec fn view(&self) -> Seq<T> {
        self.items@
    }

    /// The fixed capacity the queue was constructed with.
    pub closed spec fn capacity(&self) -> nat {
        self.capacity as nat
    }

    /// The capacity bound: never more than `capacity` items.
    pub open spec fn wf(&self) -> bool {
        self.view().len() <= self.capacity()
    }

    /// An empty queue that will never hold more than `capacity` items.
    pub fn new(capacity: usize) -> (r: Self)
        ensures
            r@ == Seq::<T>::empty(),
            r.capacity() == capacity,
            r.wf(),
    {
        BoundedQueue { capacity, items: Vec::new() }
    }

    /// How many items are queued.
    pub fn len(&self) -> (r: usize)
        ensures
            r == self@.len(),
    {
        self.items.len()
    }

    /// The fixed capacity.
    pub fn cap(&self) -> (r: usize)
        ensures
            r == self.capacity(),
    {
        self.capacity
    }

    /// Insert `t` at the tail. The full-queue policy is rejection: when the
    /// queue already holds `capacity` items the push changes nothing and
    /// hands the item back to the caller, so nothing is ever silently
    /// dropped or overwritten.
    pub fn push(&mut self, t: T) -> (r: Result<(), T>)
        requires
            old(self).wf(),
        ensures
            final(self).capacity() == old(self).capacity(),
            final(self).wf(),
            old(self)@.len() < old(self).capacity() ==> {
                &&& r is Ok
                &&& final(self)@ == old(self)@.push(t)
            },
            old(self)@.len() == old(self).capacity() ==> {
                &&& (r matches Err(u) && u == t)
                &&& final(self)@ == old(self)@
            },
    {
        if self.items.len() < self.capacity {
            self.items.push(t);
            Ok(())
        } else {
            Err(t)
        }
    }

    /// Atomically remove and return every queued item, oldest first, leaving
    /// the queue empty. Never waits: an empty queue yields an empty vector.
    pub fn drain(&mut self) -> (r: Vec<T>)
        ensures
            r@ == old(self)@,
            final(self)@ == Seq::<T>::empty(),
            final(self).capacity() == old(self).capacity(),
            final(self).wf(),
    {
        let mut out: Vec<T> = Vec::new();
        core::mem::swap(&mut out, &mut self.items);
        out
    }
}

/// What a fresh queue of capacity `cap` holds after a run of pushes, one
/// arriving item per push: each push appends its item exactly when the
/// queue is not yet full and changes nothing otherwise, which is `push`'s
/// contract.
pub open spec fn accepted<T>(arrivals: Seq<T>, cap: nat) -> Seq<T>
    decreases arrivals.len(),
{
    if arrivals.len() == 0 {
        Seq::empty()
    } else {
        let prior = accepted(arrivals.drop_last(), cap);
        if prior.len() < cap {
            prior.push(arrivals.last())
        } else {
            prior
        }
    }
}

/// The sequential core of drain atomicity: after any run of pushes into a
/// fresh queue, what the queue holds — and so what one drain returns — is
/// exactly the first `cap` arrivals, in arrival order. Each accepted item
/// appears exactly once and none is dropped from the middle, so any arrival
/// order consistent with per-producer insertion order is still consistent
/// after the cut; every later arrival was handed back to its pusher.
pub proof fn lemma_accepted_is_arrival_prefix<T>(arrivals: Seq<T>, cap: nat)
    ensures
        accepted(arrivals, cap) == arrivals.take(
            if arrivals.len() <= cap {
                arrivals.len() as int
            } else {
                cap as int
            },
        ),
    decreases arrivals.len(),
{
    if arrivals.len() == 0 {
        assert(accepted(arrivals, cap) =~= arrivals.take(0));
    } else {
        lemma_accepted_is_arrival_prefix(arrivals.drop_last(), cap);
        let shorter = arrivals.drop_last();
        let m: int = if shorter.len() <= cap {
            shorter.len() as int
        } else {
            cap as int
        };
        assert(shorter.take(m) =~= arrivals.take(m));
        if shorter.len() < cap {
            assert(arrivals.take(m).push(arrivals.last()) =~= arrivals.take(m + 1));
        }
    }
}

} // verus!
