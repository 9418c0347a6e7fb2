//! Producer handles and producer guards.

use vstd::prelude::*;

use crate::offset::MAX_OFFSET;
use crate::ring::Reservation;
use crate::ring::RingBuffer;

verus! {

/// A producer handle: the capability to reserve and publish bursts through
/// one of the per-producer records of a [`RingBuffer`].
pub struct RingBufferProducer {
    /// Which per-producer record this handle owns.
    pub producer_index: usize,
}

/// A live reservation held by a producer: `count` contiguous slots of the
/// ring starting at `offset`, together with the values staged for them.
/// Publishing the guard with [`RingBufferProducer::produce`] writes the
/// staged values into the reserved slots, so a guard must be full by then.
pub struct RingBufferProducerGuard<T> {
    /// The producer this reservation belongs to.
    pub producer_index: usize,
    /// First reserved slot.
    pub offset: usize,
    /// Number of reserved slots.
    pub count: usize,
    /// Values staged for the reserved slots, in slot order.
    pub items: Vec<T>,
}

impl<T> RingBufferProducerGuard<T> {
    /// The guard matches a live reservation of the ring.
    pub open spec fn wf_for(self, ring: RingBuffer<T>) -> bool {
        &&& (self.producer_index as int) < ring.num_producers()
        &&& ring.live(self.producer_index as int)
        &&& ring.res_at(self.producer_index as int).start == self.offset
        &&& ring.res_at(self.producer_index as int).count == self.count
        &&& self.items@.len() <= self.count
    }

    /// How many of the reserved slots have been staged so far.
    pub fn filled(&self) -> (r: usize)
        ensures
            r == self.items@.len(),
    {
        self.items.len()
    }

    /// Number of reserved slots.
    pub fn len(&self) -> (r: usize)
        ensures
            r == self.count,
    {
        self.count
    }

    /// Stages the next value of the burst.
    pub fn push(&mut self, value: T)
        requires
            old(self).items@.len() < old(self).count,
        ensures
            final(self).items@ == old(self).items@.push(value),
            final(self).producer_index == old(self).producer_index,
            final(self).offset == old(self).offset,
            final(self).count == old(self).count,
    {
        self.items.push(value);
    }
}

impl RingBufferProducer {
    /// Requests `count` contiguous slots of the ring.
    ///
    /// Returns a guard over the reserved region, or `None` when granting the
    /// request would overtake the consumer — then nothing has changed and
    /// the caller may retry later or with a smaller `count`.  The returned
    /// region never crosses the physical end of the buffer.
    pub fn acquire<T: Copy>(&self, ring: &mut RingBuffer<T>, count: usize) -> (r: Option<
        RingBufferProducerGuard<T>,
    >)
        requires
            old(ring).wf(),
            (self.producer_index as int) < old(ring).num_producers(),
            old(ring).seen@[self.producer_index as int] == MAX_OFFSET,
            1 <= count <= old(ring).capacity,
        ensures
            final(ring).wf(),
            r is Some <==> old(ring).acquire_ok(count as int),
            final(ring).capacity == old(ring).capacity,
            final(ring).written == old(ring).written,
            final(ring).buffer@ == old(ring).buffer@,
            final(ring).produced@ == old(ring).produced@,
            final(ring).released@ == old(ring).released@,
            final(ring).seen@.len() == old(ring).seen@.len(),
            r is None ==> {
                &&& final(ring).next == old(ring).next
                &&& final(ring).end == old(ring).end
                &&& final(ring).seen@ == old(ring).seen@
                &&& final(ring).reservations@ == old(ring).reservations@
            },
            r is Some ==> {
                let g = r->Some_0;
                &&& g.producer_index == self.producer_index
                &&& g.count == count
                &&& g.items@.len() == 0
                &&& g.offset as int == old(ring).acquire_offset(count as int)
                &&& g.offset + count <= old(ring).cap()
                &&& g.wf_for(*final(ring))
                &&& final(ring).next_off() == old(ring).acquire_new_next_off(
                    count as int,
                )
                &&& final(ring).seen@ == old(ring).seen@.update(
                    self.producer_index as int,
                    old(ring).next_off() as u64,
                )
                &&& final(ring).reservations@ == old(ring).reservations@.update(
                    self.producer_index as int,
                    Some(
                        Reservation {
                            start: old(ring).acquire_offset(count as int),
                            count: count as int,
                            initiator: old(ring).next_off() + count > old(ring).cap(),
                        },
                    ),
                )
            },
            forall|s: int| old(ring).readable_slot(s) ==> final(ring).readable_slot(s),
            old(ring).end != MAX_OFFSET ==> final(ring).end == old(ring).end,
    {
        match ring.acquire(self.producer_index, count) {
            None => None,
            Some(offset) => Some(
                RingBufferProducerGuard {
                    producer_index: self.producer_index,
                    offset,
                    count,
                    items: Vec::new(),
                },
            ),
        }
    }

    /// Publishes a full guard: writes its staged values into the reserved
    /// slots and retires the reservation, so the consumer may read them.
    pub fn produce<T: Copy>(&self, ring: &mut RingBuffer<T>, guard: RingBufferProducerGuard<
        T,
    >)
        requires
            old(ring).wf(),
            guard.producer_index == self.producer_index,
            guard.wf_for(*old(ring)),
            guard.items@.len() == guard.count,
        ensures
            final(ring).wf(),
            final(ring).capacity == old(ring).capacity,
            final(ring).next == old(ring).next,
            final(ring).end == old(ring).end,
            final(ring).written == old(ring).written,
            final(ring).seen@ == old(ring).seen@.update(
                self.producer_index as int,
                MAX_OFFSET,
            ),
            final(ring).reservations@ == old(ring).reservations@.update(
                self.producer_index as int,
                None,
            ),
            forall|k: int|
                guard.offset <= k < guard.offset + guard.count ==> final(ring).buffer@[k]
                    == Some(guard.items@[k - guard.offset]),
            forall|k: int|
                0 <= k < old(ring).cap() && !(guard.offset <= k < guard.offset
                    + guard.count) ==> final(ring).buffer@[k] == old(ring).buffer@[k],
            final(ring).produced@ == old(ring).produced@ + guard.items@,
            final(ring).released@ == old(ring).released@,
            forall|s: int|
                #[trigger] old(ring).readable_slot(s) ==> final(ring).readable_slot(s)
                    && final(ring).buffer@[s] == old(ring).buffer@[s],
    {
        ring.produce(self.producer_index, guard.offset, guard.items)
    }

    /// Moves as much of `populate_with` as it can into the ring, acquiring
    /// progressively smaller bursts when a request is denied and giving up
    /// only once even a single slot cannot be had: values are left behind
    /// only when a one-slot request is denied at the moment of return.
    ///
    /// The values move in order, from the front, so the ring publishes them
    /// in their input order and what stays behind is exactly a suffix of the
    /// input.  Taking the chunks from the back instead would publish them in
    /// reversed chunk order; the front-first form is deliberate, and it is
    /// what the contract states.
    pub fn repeatedly_acquire_and_try_to_populate<T: Copy>(
        &self,
        ring: &mut RingBuffer<T>,
        populate_with: &mut Vec<T>,
    )
        requires
            old(ring).wf(),
            (self.producer_index as int) < old(ring).num_producers(),
            old(ring).seen@[self.producer_index as int] == MAX_OFFSET,
        ensures
            final(ring).wf(),
            final(ring).capacity == old(ring).capacity,
            final(ring).written == old(ring).written,
            final(ring).seen@.len() == old(ring).seen@.len(),
            final(ring).seen@[self.producer_index as int] == MAX_OFFSET,
            final(ring).released@ == old(ring).released@,
            final(populate_with)@.len() <= old(populate_with)@.len(),
            final(populate_with)@ == old(populate_with)@.skip(
                old(populate_with)@.len() - final(populate_with)@.len(),
            ),
            final(ring).produced@ == old(ring).produced@ + old(populate_with)@.take(
                old(populate_with)@.len() - final(populate_with)@.len(),
            ),
            final(populate_with)@.len() > 0 ==> !final(ring).acquire_ok(1),
            forall|s: int|
                #[trigger] old(ring).readable_slot(s) ==> final(ring).readable_slot(s)
                    && final(ring).buffer@[s] == old(ring).buffer@[s],
    {
        let ghost orig_ring = *old(ring);
        let ghost orig_items = populate_with@;
        let total = populate_with.len();
        let mut moved: usize = 0;
        let mut try_count: usize = total;
        let mut gave_up = false;

        while moved < total && !gave_up
            invariant
                ring.wf(),
                (self.producer_index as int) < ring.num_producers(),
                ring.seen@[self.producer_index as int] == MAX_OFFSET,
                ring.capacity == orig_ring.capacity,
                ring.written == orig_ring.written,
                ring.seen@.len() == orig_ring.seen@.len(),
                ring.released@ == orig_ring.released@,
                populate_with@ == orig_items,
                total == orig_items.len(),
                moved <= total,
                moved < total ==> 1 <= try_count,
                gave_up ==> !ring.acquire_ok(1),
                ring.produced@ == orig_ring.produced@ + orig_items.take(moved as int),
                forall|s: int|
                    #[trigger] orig_ring.readable_slot(s) ==> ring.readable_slot(s)
                        && ring.buffer@[s] == orig_ring.buffer@[s],
            decreases total - moved, try_count, (if gave_up { 0int } else { 1int }),
        {
            let remaining = total - moved;
            if try_count > remaining {
                try_count = remaining;
            }
            let attempt = if try_count <= ring.capacity() {
                self.acquire(ring, try_count)
            } else {
                None
            };
            match attempt {
                Some(mut slice_guard) => {
                    let ghost ring_at_acquire = *ring;
                    let mut j: usize = 0;
                    while j < try_count
                        invariant
                            *ring == ring_at_acquire,
                            slice_guard.wf_for(*ring),
                            j <= try_count,
                            moved + try_count <= total,
                            total == populate_with@.len(),
                            slice_guard.items@.len() == j,
                            slice_guard.count == try_count,
                            slice_guard.producer_index == self.producer_index,
                            slice_guard.items@ == populate_with@.subrange(
                                moved as int,
                                moved + j,
                            ),
                        decreases try_count - j,
                    {
                        let value = populate_with[moved + j];
                        slice_guard.push(value);
                        proof {
                            assert(slice_guard.items@ =~= populate_with@.subrange(
                                moved as int,
                                moved + j + 1,
                            ));
                        }
                        j = j + 1;
                    }
                    let ghost ring_before = *ring;
                    let ghost guard_items = slice_guard.items@;
                    self.produce(ring, slice_guard);
                    moved = moved + try_count;
                    proof {
                        assert(orig_items.take(moved as int) =~= orig_items.take(
                            moved as int - try_count as int,
                        ) + guard_items);
                        assert(ring.produced@ =~= orig_ring.produced@
                            + orig_items.take(moved as int));
                    }
                },
                None => {
                    if try_count == 1 {
                        // Even a single slot is denied: give up.  The failed
                        // request changed nothing, so the denial still holds
                        // of the state handed back.
                        proof {
                            assert(!ring.acquire_ok(1));
                        }
                        gave_up = true;
                    } else {
                        try_count = try_count / 2;
                    }
                },
            }
        }

        // Shift the part that was not moved to the front.
        let mut rest: Vec<T> = Vec::new();
        let mut k: usize = moved;
        while k < total
            invariant
                moved <= k <= total,
                total == populate_with@.len(),
                populate_with@ == orig_items,
                rest@ == orig_items.subrange(moved as int, k as int),
            decreases total - k,
        {
            let value = populate_with[k];
            rest.push(value);
            proof {
                assert(rest@ =~= orig_items.subrange(moved as int, k + 1));
            }
            k = k + 1;
        }
        *populate_with = rest;
        proof {
            assert(populate_with@ =~= orig_items.skip(
                orig_items.len() - populate_with@.len(),
            ));
        }
    }
}

} // verus!
