//! Bounded single-producer/single-consumer FIFO queues: the per-task free
//! queue of message-slot indices and the per-dispatcher ready queue of
//! `(task, slot)` pairs are instances. The queue hands elements out in the
//! order they were put in and refuses an element only when full.

use vstd::prelude::*;

verus! {

/// A bounded FIFO queue.
pub struct Fifo<T> {
    items: Vec<T>,
    cap: usize,
}

impl<T> Fifo<T> {
    /// The elements currently queued, front first.
    pub closed spec fn contents(&self) -> Seq<T> {
        self.items@
    }

    /// The greatest number of elements the queue accepts.
    pub closed spec fn cap_spec(&self) -> usize {
        self.cap
    }

    /// The queue never holds more than its capacity.
    pub open spec fn inv(&self) -> bool {
        self.contents().len() <= self.cap_spec()
    }

    /// An empty queue of the given capacity.
    pub fn new(capacity: usize) -> (r: Fifo<T>)
        ensures
            r.contents() =~= Seq::<T>::empty(),
            r.cap_spec() == capacity,
            r.inv(),
    {
        Fifo { items: Vec::new(), cap: capacity }
    }

    /// How many elements are queued.
    pub fn len(&self) -> (r: usize)
        ensures
            r == self.contents().len(),
    {
        self.items.len()
    }

    /// Whether nothing is queued.
    pub fn is_empty(&self) -> (r: bool)
        ensures
            r == (self.contents().len() == 0),
    {
        self.items.len() == 0
    }

    /// The capacity the queue was built with.
    pub fn capacity(&self) -> (r: usize)
        ensures
            r == self.cap_spec(),
    {
        self.cap
    }

    /// Puts `x` at the back of the queue; a full queue returns it to the
    /// caller unchanged.
    pub fn enqueue(&mut self, x: T) -> (r: Result<(), T>)
        requires
            old(self).inv(),
        ensures
            final(self).inv(),
            final(self).cap_spec() == old(self).cap_spec(),
            old(self).contents().len() < old(self).cap_spec() ==> r is Ok
                && final(self).contents() == old(self).contents().push(x),
            old(self).contents().len() == old(self).cap_spec() ==> *final(self) == *old(self)
                && (r matches Err(y) && y == x),
    {
        if self.items.len() == self.cap {
            Err(x)
        } else {
            self.items.push(x);
            Ok(())
        }
    }

    /// Takes the element at the front of the queue, if any.
    pub fn dequeue(&mut self) -> (r: Option<T>)
        requires
            old(self).inv(),
        ensures
            final(self).inv(),
            final(self).cap_spec() == old(self).cap_spec(),
            old(self).contents().len() == 0 ==> r is None && *final(self) == *old(self),
            old(self).contents().len() > 0 ==> (r matches Some(y) && y == old(self).contents()[0])
                && final(self).contents() == old(self).contents().drop_first(),
    {
        if self.items.len() == 0 {
            None
        } else {
            let x = self.items.remove(0);
            proof {
                assert(self.items@ =~= old(self).items@.drop_first());
            }
            Some(x)
        }
    }
}

/// SPSC queue, round trip: an enqueue on an empty queue followed by a
/// dequeue yields exactly the enqueued value and leaves the queue empty;
/// and from any state, elements leave in the order they entered.
pub proof fn lemma_fifo_roundtrip<T>(s: Seq<T>, x: T)
    requires
        s.len() == 0,
    ensures
        s.push(x)[0] == x,
        s.push(x).drop_first() =~= s,
{
}

/// SPSC queue, order: after enqueueing `a` then `b` on an empty queue, the
/// first dequeue yields `a` and the second `b`.
pub proof fn lemma_fifo_order<T>(s: Seq<T>, a: T, b: T)
    requires
        s.len() == 0,
    ensures
        s.push(a).push(b)[0] == a,
        s.push(a).push(b).drop_first()[0] == b,
        s.push(a).push(b).drop_first().drop_first() =~= s,
{
}


/// SPSC queues in general, from any state: a push leaves every queued
/// element in place; after `k` dequeues the front is the `k`-th element;
/// after exactly the old length of dequeues the front is the pushed
/// element; and each dequeue takes the remainder one step further. So
/// elements leave in the order they entered, each unchanged.
pub proof fn lemma_fifo_general_order<T>(s: Seq<T>, x: T)
    ensures
        forall|k: int| 0 <= k < s.len() ==> s.push(x).skip(k)[0] == s[k],
        s.push(x).skip(s.len() as int)[0] == x,
        forall|k: int|
            0 <= k < s.push(x).len() ==> s.push(x).skip(k).drop_first() =~= s.push(x).skip(
                k + 1,
            ),
{
    assert forall|k: int| 0 <= k < s.push(x).len() implies s.push(x).skip(k).drop_first() =~= s.push(
        x,
    ).skip(k + 1) by {
        assert(s.push(x).skip(k).drop_first() =~= s.push(x).skip(k + 1));
    }
}

} // verus!
