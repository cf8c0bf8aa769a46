//! The bounded single-producer/single-consumer ring between the keyboard
//! IRQ handler (`push`) and the consumer (`pop`). `N` slots hold at most
//! `N - 1` values: `head == tail` means empty and `head + 1 == tail`
//! (modulo `N`) means full, with no separate counter. A push onto a full
//! ring drops the new value and counts it.
use vstd::prelude::*;

verus! {

/// A counter step that wraps to 0 past `u64::MAX`.
pub open spec fn counter_inc(x: u64) -> u64 {
    if x == u64::MAX { 0 } else { (x + 1) as u64 }
}

pub struct SpscRing<T, const N: usize> {
    buf: Vec<Option<T>>,
    /// Next slot the producer will write.
    head: usize,
    /// Next slot the consumer will read.
    tail: usize,
    /// Values `push` discarded because the ring was full.
    dropped: u64,
}

impl<T, const N: usize> View for SpscRing<T, N> {
    type V = Seq<T>;

    /// The queued values, oldest first.
    closed spec fn view(&self) -> Seq<T> {
        Seq::new(self.queued(), |i: int| self.buf@[self.slot(i)].unwrap())
    }
}

impl<T, const N: usize> SpscRing<T, N> {
    /// How many values are queued.
    closed spec fn queued(&self) -> nat {
        if self.head >= self.tail { (self.head - self.tail) as nat } else { (self.head + N - self.tail) as nat }
    }

    /// The slot holding the `i`-th queued value.
    closed spec fn slot(&self, i: int) -> int {
        if self.tail + i < N { self.tail + i } else { self.tail + i - N }
    }

    /// The number of values dropped so far (wrapping).
    pub closed spec fn dropped_spec(&self) -> u64 {
        self.dropped
    }

    pub closed spec fn wf(&self) -> bool {
        &&& N >= 1
        &&& self.buf@.len() == N
        &&& self.head < N
        &&& self.tail < N
        &&& forall|i: int| 0 <= i < self.queued() ==> (#[trigger] self.buf@[self.slot(i)]) is Some
    }

    /// A ring never holds more than `N - 1` values.
    pub proof fn lemma_capacity(&self)
        requires
            self.wf(),
        ensures
            self@.len() < N,
    {
    }
}

impl<T: Copy, const N: usize> SpscRing<T, N> {
    /// An empty ring with nothing dropped.
    pub fn new() -> (r: Self)
        requires
            N >= 1,
        ensures
            r.wf(),
            r@ == Seq::<T>::empty(),
            r.dropped_spec() == 0,
    {
        let mut buf: Vec<Option<T>> = Vec::new();
        while buf.len() < N
            invariant
                buf.len() <= N,
            decreases N - buf.len(),
        {
            buf.push(None);
        }
        let r = SpscRing { buf, head: 0, tail: 0, dropped: 0 };
        proof {
            assert(r.queued() == 0);
            assert(r@ =~= Seq::<T>::empty());
        }
        r
    }

    /// Queues `value`; if the ring is already full (`N - 1` values), drops
    /// `value` instead and counts it.
    pub fn push(&mut self, value: T)
        requires
            old(self).wf(),
        ensures
            final(self).wf(),
            old(self)@.len() + 1 < N ==> final(self)@ == old(self)@.push(value)
                && final(self).dropped_spec() == old(self).dropped_spec(),
            old(self)@.len() + 1 >= N ==> final(self)@ == old(self)@
                && final(self).dropped_spec() == counter_inc(old(self).dropped_spec()),
    {
        let next = if self.head + 1 == N { 0 } else { self.head + 1 };
        if next == self.tail {
            self.dropped = self.dropped.wrapping_add(1);
            proof {
                assert forall|i: int| 0 <= i < self.queued() implies (#[trigger] self.buf@[self.slot(i)]) is Some by {
                    assert(self.slot(i) == old(self).slot(i));
                    assert(old(self).buf@[old(self).slot(i)] is Some);
                }
                assert(self@ =~= old(self)@);
            }
            return;
        }
        let ghost old_q = self.queued();
        proof {
            assert(old_q + 1 < N);
        }
        self.buf.set(self.head, Some(value));
        self.head = next;
        proof {
            assert(self.queued() == old_q + 1);
            assert forall|i: int| 0 <= i < self.queued() implies (#[trigger] self.buf@[self.slot(i)]) is Some by {
                if i < old_q {
                    assert(self.slot(i) == old(self).slot(i));
                    assert(old(self).buf@[old(self).slot(i)] is Some);
                } else {
                    assert(self.slot(i) == old(self).head as int);
                }
            }
            assert forall|i: int| 0 <= i < old_q implies #[trigger] self.buf@[self.slot(i)] == old(self).buf@[old(self).slot(i)] by {
                assert(self.slot(i) == old(self).slot(i));
            }
            assert(self@ =~= old(self)@.push(value));
        }
    }

    /// Dequeues the oldest value, or `None` if the ring is empty.
    pub fn pop(&mut self) -> (r: Option<T>)
        requires
            old(self).wf(),
        ensures
            final(self).wf(),
            final(self).dropped_spec() == old(self).dropped_spec(),
            old(self)@.len() == 0 ==> r.is_none() && final(self)@ == old(self)@,
            old(self)@.len() > 0 ==> r == Some(old(self)@[0]) && final(self)@ == old(self)@.drop_first(),
    {
        if self.tail == self.head {
            proof {
                assert(self@ =~= Seq::<T>::empty());
            }
            return None;
        }
        let ghost old_q = self.queued();
        proof {
            assert(old_q > 0);
            assert(self.slot(0) == self.tail as int);
            assert(self.buf@[self.slot(0)] is Some);
        }
        let value = self.buf[self.tail].unwrap();
        self.tail = if self.tail + 1 == N { 0 } else { self.tail + 1 };
        proof {
            assert(self.queued() == old_q - 1);
            assert forall|i: int| 0 <= i < self.queued() implies (#[trigger] self.buf@[self.slot(i)]) is Some by {
                assert(self.slot(i) == old(self).slot(i + 1));
                assert(old(self).buf@[old(self).slot(i + 1)] is Some);
            }
            assert forall|i: int| 0 <= i < self.queued() implies #[trigger] self.buf@[self.slot(i)]
                == old(self).buf@[old(self).slot(i + 1)] by {
                assert(self.slot(i) == old(self).slot(i + 1));
            }
            assert(self@ =~= old(self)@.drop_first());
        }
        Some(value)
    }

    /// How many pushed values have been dropped because the ring was full.
    pub fn dropped(&self) -> (r: u64)
        ensures
            r == self.dropped_spec(),
    {
        self.dropped
    }

    /// Whether the ring has nothing left to pop.
    pub fn is_empty(&self) -> (r: bool)
        requires
            self.wf(),
        ensures
            r == (self@.len() == 0),
    {
        self.tail == self.head
    }
}

} // verus!
