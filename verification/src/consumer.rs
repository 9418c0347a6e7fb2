//! The consumer handle and consumer guards.

use vstd::prelude::*;

use crate::ring::RingBuffer;

verus! {

/// The single consumer handle of a ring.
pub struct RingBufferConsumer {
}

/// The result of one [`RingBufferConsumer::consume`] call: a copy of the
/// contiguous run of values that was ready, together with how much of it the
/// consumer will hand back on release — all of it, unless
/// [`RingBufferConsumerGuard::release_fewer`] lowered the amount.
pub struct RingBufferConsumerGuard<T> {
    /// First slot of the run inside the ring.
    pub offset: usize,
    /// The values of the run, in consumption order.
    pub items: Vec<T>,
    /// How many leading values `release` will commit.
    pub release_count: usize,
}

impl<T> RingBufferConsumerGuard<T> {
    /// The guard matches the run in front of the ring's `written` hand.
    pub open spec fn wf_for(self, ring: RingBuffer<T>) -> bool {
        &&& self.release_count <= self.items@.len()
        &&& self.offset == ring.written
        &&& self.offset + self.items@.len() <= ring.cap()
        &&& ring.run_readable(self.offset as int, self.items@.len() as int)
        &&& forall|k: int|
            0 <= k < self.items@.len() ==> ring.buffer@[self.offset + k] == Some(
                self.items@[k],
            )
    }

    /// Whether the run is empty.
    pub fn is_empty(&self) -> (r: bool)
        ensures
            r == (self.items@.len() == 0),
    {
        self.items.len() == 0
    }

    /// Length of the run.
    pub fn len(&self) -> (r: usize)
        ensures
            r == self.items@.len(),
    {
        self.items.len()
    }

    /// The value at position `index` of the run.
    pub fn get(&self, index: usize) -> (r: T)
        where T: Copy
        requires
            index < self.items@.len(),
        ensures
            r == self.items@[index as int],
    {
        self.items[index]
    }

    /// Commit only the first `count` values on release; the rest is offered
    /// again by the next `consume`.
    pub fn release_fewer(&mut self, count: usize)
        requires
            count <= old(self).items@.len(),
        ensures
            final(self).release_count == count,
            final(self).items@ == old(self).items@,
            final(self).offset == old(self).offset,
    {
        self.release_count = count;
    }

    /// Copies the first `maximum_to_move_out` values of the run (or the
    /// whole run, when it is shorter) into a fresh vector.
    pub fn move_out(&self, maximum_to_move_out: usize) -> (r: Vec<T>)
        where T: Copy
        ensures
            r@ == self.items@.take(
                if maximum_to_move_out <= self.items@.len() {
                    maximum_to_move_out as int
                } else {
                    self.items@.len() as int
                },
            ),
    {
        let count = if maximum_to_move_out <= self.items.len() {
            maximum_to_move_out
        } else {
            self.items.len()
        };
        let mut out: Vec<T> = Vec::new();
        let mut j: usize = 0;
        while j < count
            invariant
                j <= count,
                count <= self.items@.len(),
                out@ == self.items@.take(j as int),
            decreases count - j,
        {
            let value = self.items[j];
            out.push(value);
            proof {
                assert(out@ =~= self.items@.take(j + 1));
            }
            j = j + 1;
        }
        proof {
            assert(out@ =~= self.items@.take(count as int));
        }
        out
    }
}

impl RingBufferConsumer {
    /// Drains the longest contiguous run that is ready: copies it out of the
    /// ring into a guard.  The guard's values are exactly the slots in front
    /// of the consumer's hand; its `release_count` starts at the full run,
    /// so releasing the guard unchanged commits everything it carries.
    /// The run is empty when nothing is ready.
    pub fn consume<T: Copy>(&self, ring: &mut RingBuffer<T>) -> (g: RingBufferConsumerGuard<
        T,
    >)
        requires
            old(ring).wf(),
        ensures
            final(ring).wf(),
            final(ring).capacity == old(ring).capacity,
            final(ring).next == old(ring).next,
            final(ring).seen@ == old(ring).seen@,
            final(ring).buffer@ == old(ring).buffer@,
            final(ring).reservations@ == old(ring).reservations@,
            final(ring).produced@ == old(ring).produced@,
            final(ring).released@ == old(ring).released@,
            final(ring).written as int == (if old(ring).consume_resets() {
                0int
            } else {
                old(ring).written as int
            }),
            final(ring).end == (if old(ring).consume_resets() {
                crate::offset::MAX_OFFSET
            } else {
                old(ring).end
            }),
            g.items@.len() as int == old(ring).consume_count(),
            g.offset as int == old(ring).consume_offset(),
            g.offset == final(ring).written,
            g.release_count == g.items@.len(),
            g.wf_for(*final(ring)),
    {
        let (count, offset) = ring.consume();
        let ghost r1 = *ring;
        let mut items: Vec<T> = Vec::new();
        let mut j: usize = 0;
        while j < count
            invariant
                *ring == r1,
                r1.wf(),
                r1.run_readable(offset as int, count as int),
                offset + count <= r1.cap(),
                r1.buffer@.len() == r1.cap(),
                j <= count,
                items@.len() == j,
                forall|k: int|
                    0 <= k < j ==> r1.buffer@[offset + k] == Some(#[trigger] items@[k]),
            decreases count - j,
        {
            proof {
                assert(ring.readable_slot(offset + j));
            }
            let slot = ring.buffer[offset + j];
            items.push(slot.unwrap());
            j = j + 1;
        }
        RingBufferConsumerGuard { offset, items, release_count: count }
    }

    /// Hands the guard's committed run back to the producers: advances the
    /// ring's `written` hand by the guard's `release_count` and appends the
    /// released values to the release history.  Releasing a guard whose run
    /// is empty changes nothing.
    pub fn release<T: Copy>(&self, ring: &mut RingBuffer<T>, guard: RingBufferConsumerGuard<
        T,
    >)
        requires
            old(ring).wf(),
            guard.wf_for(*old(ring)),
        ensures
            final(ring).wf(),
            final(ring).capacity == old(ring).capacity,
            final(ring).next == old(ring).next,
            final(ring).end == old(ring).end,
            final(ring).seen@ == old(ring).seen@,
            final(ring).buffer@ == old(ring).buffer@,
            final(ring).reservations@ == old(ring).reservations@,
            final(ring).produced@ == old(ring).produced@,
            final(ring).written as int == (if old(ring).written + guard.release_count
                == old(ring).cap() {
                0int
            } else {
                old(ring).written + guard.release_count
            }),
            final(ring).released@ == old(ring).released@ + guard.items@.take(
                guard.release_count as int,
            ),
            guard.release_count == 0 ==> final(ring).written == old(ring).written
                && final(ring).released@ == old(ring).released@,
    {
        let ghost o = *old(ring);
        let count = guard.release_count;
        proof {
            assert forall|s: int|
                o.written <= s < o.written + count implies o.readable_slot(s) by {
                assert(o.run_readable(guard.offset as int, guard.items@.len() as int));
            }
        }
        ring.release(count);
        proof {
            assert(o.slot_vals(o.written as int, o.written + count) =~= guard.items@.take(
                count as int,
            ));
            assert(ring.released@ =~= o.released@ + guard.items@.take(count as int));
        }
    }
}

} // verus!
