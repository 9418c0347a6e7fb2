//! The shared ring buffer state and its well-formedness invariant.
//!
//! A [`RingBuffer`] owns every hand of the protocol: the `next` offset word
//! that producers advance, the `written` offset that only the consumer moves,
//! the `end` offset that marks where the data of a pending wrap stops, and
//! one `seen` offset word per producer.  Reservations are mirrored in ghost
//! state, so that well-formedness can say that the consumer's window never
//! touches a live reservation and that every slot the consumer may read has
//! been filled.

use vstd::multiset::Multiset;
use vstd::prelude::*;

use crate::backoff::SpinLockBackOff;
use crate::consumer::RingBufferConsumer;
use crate::offset::advance_wrap_counter;
use crate::offset::counter_part;
use crate::offset::counter_value;
use crate::offset::lemma_lock_roundtrip;
use crate::offset::lemma_word_compose;
use crate::offset::lock_bit_set;
use crate::offset::offset_part;
use crate::offset::word_counter;
use crate::offset::word_locked;
use crate::offset::word_offset;
use crate::offset::MAX_OFFSET;
use crate::offset::OFFSET_MASK;
use crate::offset::WRAP_COUNTER_MASK;
use crate::offset::WRAP_LOCK_BIT;
use crate::offset::WRAP_LOCK_MASK;
use crate::producer::RingBufferProducer;

verus! {

/// Ghost record of one producer's live reservation.
///
/// `start` and `count` delimit the reserved slots.  `initiator` marks the
/// reservation of a producer that wrapped past the physical end of the buffer
/// while older data was still pending: its reservation starts at slot 0 and
/// its `seen` word still holds the pre-wrap offset, which is also the `end`
/// of the pending data.
pub ghost struct Reservation {
    pub start: int,
    pub count: int,
    pub initiator: bool,
}

/// Whether two reservations cover disjoint slot ranges.
pub open spec fn ranges_disjoint(a: Reservation, b: Reservation) -> bool {
    a.start + a.count <= b.start || b.start + b.count <= a.start
}

/// The values of a sequence as a multiset.
pub open spec fn seq_ms<T>(s: Seq<T>) -> Multiset<T>
    decreases s.len(),
{
    if s.len() == 0 {
        Multiset::empty()
    } else {
        seq_ms(s.drop_last()).insert(s.last())
    }
}

/// Concatenation of sequences adds their multisets.
pub proof fn lemma_seq_ms_concat<T>(a: Seq<T>, b: Seq<T>)
    ensures
        seq_ms(a + b) == seq_ms(a).add(seq_ms(b)),
    decreases b.len(),
{
    if b.len() == 0 {
        assert(a + b =~= a);
        assert(seq_ms(a).add(Multiset::empty()) =~= seq_ms(a));
    } else {
        lemma_seq_ms_concat(a, b.drop_last());
        assert((a + b).drop_last() =~= a + b.drop_last());
        assert((a + b).last() == b.last());
        assert(seq_ms(a).add(seq_ms(b.drop_last()).insert(b.last())) =~= seq_ms(a).add(
            seq_ms(b.drop_last()),
        ).insert(b.last()));
    }
}

/// The smallest `seen` offset that is at or past `w`, or `MAX_OFFSET` when no
/// producer publishes one: the consumer's bound on how far it may read.
pub open spec fn ready_seen_rec(seen: Seq<u64>, w: u64) -> u64
    decreases seen.len(),
{
    if seen.len() == 0 {
        MAX_OFFSET
    } else {
        let rest = ready_seen_rec(seen.drop_last(), w);
        let s = seen.last();
        if s >= w && s < rest {
            s
        } else {
            rest
        }
    }
}

/// What the scan of the producers' `seen` hands yields: a lower bound on
/// every published hand at or past `w`, and either the sentinel or one of
/// those hands itself.
pub proof fn lemma_ready_seen_rec(seen: Seq<u64>, w: u64)
    ensures
        ready_seen_rec(seen, w) >= w || ready_seen_rec(seen, w) == MAX_OFFSET,
        forall|j: int|
            0 <= j < seen.len() && seen[j] >= w ==> ready_seen_rec(seen, w) <= seen[j],
        ready_seen_rec(seen, w) == MAX_OFFSET || (exists|j: int|
            0 <= j < seen.len() && seen[j] == ready_seen_rec(seen, w)),
    decreases seen.len(),
{
    if seen.len() > 0 {
        lemma_ready_seen_rec(seen.drop_last(), w);
        let rest = ready_seen_rec(seen.drop_last(), w);
        assert forall|j: int|
            0 <= j < seen.len() && seen[j] >= w implies ready_seen_rec(seen, w)
            <= seen[j] by {
            if j < seen.len() - 1 {
                assert(seen.drop_last()[j] == seen[j]);
            }
        }
        if ready_seen_rec(seen, w) != MAX_OFFSET {
            if seen.last() >= w && seen.last() < rest {
            } else {
                let j = choose|j: int|
                    0 <= j < seen.drop_last().len() && seen.drop_last()[j] == rest;
                assert(seen[j] == rest);
            }
        }
    }
}

/// The shared state of one ring buffer.
///
/// The element area holds `capacity` slots; a slot is `None` until some
/// producer publishes a value into it.  The ghost fields mirror the live
/// reservations and record the history of published and released values.
pub struct RingBuffer<T> {
    /// Number of slots; fixed at construction.
    pub capacity: usize,
    /// Offset word marking the start of unreserved space; producers advance it.
    pub next: u64,
    /// Offset at which the pre-wrap data region ends while a wrap is pending;
    /// `MAX_OFFSET` means no wrap is pending.
    pub end: u64,
    /// Offset up to which the consumer has released; only the consumer writes it.
    pub written: usize,
    /// One offset word per producer: `MAX_OFFSET` when idle, otherwise the
    /// `next` offset the producer observed when it reserved.
    pub seen: Vec<u64>,
    /// The element area.
    pub buffer: Vec<Option<T>>,
    /// Ghost mirror of each producer's live reservation.
    pub reservations: Ghost<Seq<Option<Reservation>>>,
    /// Ghost history of every value published by `produce`, in publish order.
    pub produced: Ghost<Seq<T>>,
    /// Ghost history of every value handed back by `release`, in release order.
    pub released: Ghost<Seq<T>>,
}

impl<T> RingBuffer<T> {
    /// Number of producers this ring was built for.
    pub open spec fn num_producers(self) -> int {
        self.seen@.len() as int
    }

    /// The capacity as a mathematical integer.
    pub open spec fn cap(self) -> int {
        self.capacity as int
    }

    /// The offset field of the `next` word.
    pub open spec fn next_off(self) -> int {
        offset_part(self.next) as int
    }

    /// Whether the producers have wrapped past the physical end while the
    /// consumer has not: reservations now grow below `written`.
    pub open spec fn wrapped(self) -> bool {
        self.next_off() < self.written
    }

    /// Where the data readable in front of the consumer stops: the pending
    /// `end` offset if a wrap set one, otherwise the capacity.
    pub open spec fn end_bound(self) -> int {
        if self.end == MAX_OFFSET {
            self.cap()
        } else {
            self.end as int
        }
    }

    /// Whether producer `i` holds a live reservation.
    pub open spec fn live(self, i: int) -> bool {
        self.reservations@[i] is Some
    }

    /// Producer `i`'s live reservation.
    pub open spec fn res_at(self, i: int) -> Reservation {
        self.reservations@[i]->Some_0
    }

    /// Whether slot `s` lies in the region between the consumer's `written`
    /// hand and the start of unreserved space (split in two parts while
    /// wrapped).  This window holds everything published but not yet released
    /// together with the live reservations.
    pub open spec fn in_window(self, s: int) -> bool {
        if !self.wrapped() {
            self.written <= s < self.next_off()
        } else {
            (self.written <= s < self.end_bound()) || (0 <= s < self.next_off())
        }
    }

    /// Whether slot `s` lies in producer `i`'s live reservation.
    pub open spec fn in_reservation(self, i: int, s: int) -> bool {
        self.live(i) && self.res_at(i).start <= s < self.res_at(i).start + self.res_at(i).count
    }

    /// Whether slot `s` lies in some live reservation.
    pub open spec fn in_some_reservation(self, s: int) -> bool {
        exists|i: int| 0 <= i < self.num_producers() && self.in_reservation(i, s)
    }

    /// Whether slot `s` is safe for the consumer to read: inside the window
    /// and in no live reservation.
    pub open spec fn readable_slot(self, s: int) -> bool {
        self.in_window(s) && !self.in_some_reservation(s)
    }

    /// Whether the whole run of `count` slots from `offset` is safe for the
    /// consumer to read, every slot filled.
    pub open spec fn run_readable(self, offset: int, count: int) -> bool {
        forall|s: int|
            offset <= s < offset + count ==> #[trigger] self.readable_slot(s)
                && self.buffer@[s] is Some
    }

    /// The multiset of values in slots `lo .. hi` of the element area.
    pub open spec fn buffer_ms(self, lo: int, hi: int) -> Multiset<T>
        decreases hi - lo,
    {
        if hi <= lo {
            Multiset::empty()
        } else {
            self.buffer_ms(lo, hi - 1).insert(self.buffer@[hi - 1]->Some_0)
        }
    }

    /// The multiset of values in the readable slots among `0 .. n`.
    pub open spec fn committed_ms_up_to(self, n: int) -> Multiset<T>
        decreases n,
    {
        if n <= 0 {
            Multiset::empty()
        } else if self.readable_slot(n - 1) {
            self.committed_ms_up_to(n - 1).insert(self.buffer@[n - 1]->Some_0)
        } else {
            self.committed_ms_up_to(n - 1)
        }
    }

    /// The multiset of values the consumer can still read.
    pub open spec fn committed_ms(self) -> Multiset<T> {
        self.committed_ms_up_to(self.cap())
    }

    /// Whatever the producers have published either has been released or
    /// still sits in a readable slot — with any number of producers,
    /// nothing is lost and nothing is delivered twice.
    pub open spec fn balance_ok(self) -> bool {
        seq_ms(self.produced@) == seq_ms(self.released@).add(self.committed_ms())
    }

    /// Bounds on the scalar hands.
    pub open spec fn wf_bounds(self) -> bool {
        &&& 0 < self.cap() < OFFSET_MASK as int
        &&& self.buffer@.len() == self.cap()
        &&& self.seen@.len() >= 1
        &&& self.reservations@.len() == self.seen@.len()
        &&& !lock_bit_set(self.next)
        &&& self.next_off() < self.cap()
        &&& (self.written as int) < self.cap()
        &&& (self.end != MAX_OFFSET ==> {
            &&& 0 < self.written
            &&& self.written as int <= self.end as int
            &&& (self.end as int) < self.cap()
            &&& self.wrapped()
        })
    }

    /// Producer `i`'s `seen` word agrees with its ghost reservation, and the
    /// reservation lies where the phase allows: between `written` and the
    /// stop of the pre-wrap data when it was taken before a wrap, below the
    /// `next` hand when it was taken after one.
    pub open spec fn res_ok(self, i: int) -> bool {
        if self.live(i) {
            let r = self.res_at(i);
            &&& 1 <= r.count <= self.cap()
            &&& 0 <= r.start
            &&& r.start + r.count <= self.cap()
            &&& if r.initiator {
                &&& self.end != MAX_OFFSET
                &&& self.seen@[i] == self.end
                &&& r.start == 0
                &&& r.count <= self.next_off()
            } else {
                &&& self.seen@[i] as int == r.start
                &&& if r.start >= self.written {
                    r.start + r.count <= (if self.wrapped() {
                        self.end_bound()
                    } else {
                        self.next_off()
                    })
                } else {
                    &&& self.wrapped()
                    &&& r.start + r.count <= self.next_off()
                }
            }
        } else {
            self.seen@[i] == MAX_OFFSET
        }
    }

    /// Live reservations never overlap.
    pub open spec fn res_disjoint(self) -> bool {
        forall|i: int, j: int|
            #![trigger self.res_at(i), self.res_at(j)]
            0 <= i < self.num_producers() && 0 <= j < self.num_producers() && i != j
                && self.live(i) && self.live(j)
                ==> ranges_disjoint(self.res_at(i), self.res_at(j))
    }

    /// Every slot the consumer may read has been filled.
    pub open spec fn init_ok(self) -> bool {
        forall|s: int| #[trigger] self.readable_slot(s) ==> self.buffer@[s] is Some
    }

    /// With a single producer, its reservation always sits flush against the
    /// `next` hand (or against the stop of the pre-wrap data, for the
    /// reservation that filled the buffer exactly to its physical end).
    pub open spec fn single_shape(self) -> bool {
        self.num_producers() == 1 && self.live(0) ==> {
            let r = self.res_at(0);
            if r.initiator {
                r.count == self.next_off()
            } else if !self.wrapped() {
                r.start + r.count == self.next_off() && r.start >= self.written
            } else if r.start >= self.written {
                &&& r.start + r.count == self.end_bound()
                &&& self.next_off() == 0
                &&& self.end == MAX_OFFSET
            } else {
                r.start + r.count == self.next_off()
            }
        }
    }

    /// The values of slots `lo .. hi`, in order.
    pub open spec fn slot_vals(self, lo: int, hi: int) -> Seq<T> {
        Seq::new(
            if hi >= lo {
                (hi - lo) as nat
            } else {
                0
            },
            |k: int| self.buffer@[lo + k]->Some_0,
        )
    }

    /// With a single producer: where the committed data in front of the
    /// consumer stops along the pre-wrap part of the window.
    pub open spec fn single_tail_front(self) -> int {
        if !self.wrapped() {
            if self.live(0) {
                self.res_at(0).start
            } else {
                self.next_off()
            }
        } else {
            if self.live(0) && !self.res_at(0).initiator && self.res_at(0).start
                >= self.written {
                self.res_at(0).start
            } else {
                self.end_bound()
            }
        }
    }

    /// With a single producer: where the committed data stops along the
    /// post-wrap part of the window.
    pub open spec fn single_head_front(self) -> int {
        if !self.wrapped() {
            0
        } else {
            if self.live(0) && (self.res_at(0).initiator || self.res_at(0).start
                < self.written) {
                self.res_at(0).start
            } else {
                self.next_off()
            }
        }
    }

    /// With a single producer: the committed values the consumer has not yet
    /// released, in the order it will release them.
    pub open spec fn single_window_vals(self) -> Seq<T> {
        self.slot_vals(self.written as int, self.single_tail_front()) + self.slot_vals(
            0,
            self.single_head_front(),
        )
    }

    /// With a single producer, the publish history is exactly the release
    /// history followed by what is still in flight: nothing is lost and
    /// nothing is delivered twice.
    pub open spec fn history_ok(self) -> bool {
        self.num_producers() == 1 ==> self.produced@ == self.released@
            + self.single_window_vals()
    }

    /// Well-formedness: every operation of the protocol requires and
    /// preserves this.
    pub open spec fn wf(self) -> bool {
        &&& self.wf_bounds()
        &&& forall|i: int| 0 <= i < self.num_producers() ==> #[trigger] self.res_ok(i)
        &&& self.res_disjoint()
        &&& self.init_ok()
        &&& self.single_shape()
        &&& self.history_ok()
        &&& self.balance_ok()
    }

    /// Number of slots.
    pub fn capacity(&self) -> (r: usize)
        ensures
            r == self.capacity,
    {
        self.capacity
    }

    /// Number of producers.
    pub fn number_of_producers(&self) -> (r: usize)
        requires
            self.wf(),
        ensures
            r as int == self.num_producers(),
    {
        self.seen.len()
    }

    /// Reads the `next` offset word once it is stable, waiting under
    /// backoff while its wrap lock bit is set.  The lock is taken and
    /// released within a single `acquire`, so with one owner the word is
    /// provably stable at rest and the wait never runs.
    pub fn stable_next_offset(&self) -> (r: u64)
        requires
            self.wf(),
        ensures
            r == self.next,
            !lock_bit_set(r),
            (offset_part(r) as int) < self.cap(),
    {
        let mut spin_lock_back_off = SpinLockBackOff::initial();
        let mut next = self.next;
        while word_locked(next)
            invariant
                next == self.next,
                !lock_bit_set(next),
                spin_lock_back_off.wf(),
            decreases 0int,
        {
            spin_lock_back_off.back_off();
            next = self.next;
        }
        next
    }

    /// Creates a ring of `capacity` slots shared by one consumer and
    /// `number_of_producers` producers, every hand at its start value and
    /// every producer idle.
    pub fn new(capacity: usize, number_of_producers: usize) -> (r: (
        RingBuffer<T>,
        RingBufferConsumer,
        Vec<RingBufferProducer>,
    ))
        requires
            0 < capacity,
            (capacity as int) < OFFSET_MASK as int,
            0 < number_of_producers,
        ensures
            r.0.wf(),
            r.0.capacity == capacity,
            r.0.next == 0u64,
            r.0.end == MAX_OFFSET,
            r.0.written == 0,
            r.0.num_producers() == number_of_producers,
            forall|i: int|
                0 <= i < number_of_producers ==> r.0.seen@[i] == MAX_OFFSET,
            forall|i: int|
                0 <= i < number_of_producers ==> !r.0.live(i),
            forall|s: int| 0 <= s < capacity ==> r.0.buffer@[s] is None,
            r.0.produced@ == Seq::<T>::empty(),
            r.0.released@ == Seq::<T>::empty(),
            r.2@.len() == number_of_producers,
            forall|i: int|
                0 <= i < number_of_producers ==> (#[trigger] r.2@[i]).producer_index == i,
    {
        let mut seen: Vec<u64> = Vec::new();
        let mut i: usize = 0;
        while i < number_of_producers
            invariant
                i <= number_of_producers,
                seen@.len() == i,
                forall|k: int| 0 <= k < i ==> seen@[k] == MAX_OFFSET,
            decreases number_of_producers - i,
        {
            seen.push(MAX_OFFSET);
            i = i + 1;
        }

        let mut buffer: Vec<Option<T>> = Vec::new();
        let mut s: usize = 0;
        while s < capacity
            invariant
                s <= capacity,
                buffer@.len() == s,
                forall|k: int| 0 <= k < s ==> buffer@[k] is None,
            decreases capacity - s,
        {
            buffer.push(None);
            s = s + 1;
        }

        let ghost reservations: Seq<Option<Reservation>> = Seq::new(
            number_of_producers as nat,
            |k: int| None,
        );

        let ring = RingBuffer {
            capacity,
            next: 0,
            end: MAX_OFFSET,
            written: 0,
            seen,
            buffer,
            reservations: Ghost(reservations),
            produced: Ghost(Seq::empty()),
            released: Ghost(Seq::empty()),
        };

        let mut producers: Vec<RingBufferProducer> = Vec::new();
        let mut p: usize = 0;
        while p < number_of_producers
            invariant
                p <= number_of_producers,
                producers@.len() == p,
                forall|k: int|
                    0 <= k < p ==> (#[trigger] producers@[k]).producer_index == k,
            decreases number_of_producers - p,
        {
            producers.push(RingBufferProducer { producer_index: p });
            p = p + 1;
        }

        proof {
            assert(offset_part(0u64) == 0u64) by (bit_vector);
            assert(!lock_bit_set(0u64)) by (bit_vector);
            assert(ring.produced@ =~= ring.released@ + ring.single_window_vals());
            assert forall|s: int| 0 <= s < ring.cap() implies !(#[trigger] ring.readable_slot(
                s,
            )) by {
                assert(!ring.in_window(s));
            }
            Self::lemma_committed_none(ring, ring.cap());
            assert(seq_ms(ring.released@).add(ring.committed_ms()) =~= seq_ms(
                ring.produced@,
            ));
        }

        (ring, RingBufferConsumer {}, producers)
    }

    /// Whether a request for `count` slots can be granted in this state:
    /// it must neither catch up with the consumer's `written` hand nor, when
    /// it has to wrap, start a region at slot 0 that would reach it.
    pub open spec fn acquire_ok(self, count: int) -> bool {
        let target = self.next_off() + count;
        if self.next_off() < self.written && target >= self.written {
            false
        } else if target >= self.cap() {
            (if target > self.cap() {
                count
            } else {
                0
            }) < self.written
        } else {
            true
        }
    }

    /// Where a granted request for `count` slots starts: at the `next` hand,
    /// or at slot 0 when the request does not fit before the physical end.
    pub open spec fn acquire_offset(self, count: int) -> int {
        if self.next_off() + count > self.cap() {
            0
        } else {
            self.next_off()
        }
    }

    /// The offset field of the `next` word after granting `count` slots.
    pub open spec fn acquire_new_next_off(self, count: int) -> int {
        let target = self.next_off() + count;
        if target > self.cap() {
            count
        } else if target == self.cap() {
            0
        } else {
            target
        }
    }

    /// Reserves `count` contiguous slots for producer `producer_index`.
    ///
    /// Returns the first reserved slot, or `None` when granting the request
    /// would overtake the consumer — in which case nothing changes and the
    /// caller may retry later or ask for less.  This is the producer-side
    /// offset-advance protocol: observe a stable `next`, publish the observed
    /// offset as the producer's `seen` hand, then advance `next` past the
    /// request, wrapping to slot 0 (and publishing `end`, under the wrap
    /// lock) when the request does not fit before the physical end.
    pub(crate) fn acquire(&mut self, producer_index: usize, count: usize) -> (r: Option<
        usize,
    >)
        requires
            old(self).wf(),
            (producer_index as int) < old(self).num_producers(),
            old(self).seen@[producer_index as int] == MAX_OFFSET,
            1 <= count <= old(self).capacity,
        ensures
            final(self).wf(),
            r is Some <==> old(self).acquire_ok(count as int),
            final(self).capacity == old(self).capacity,
            final(self).written == old(self).written,
            final(self).buffer@ == old(self).buffer@,
            final(self).produced@ == old(self).produced@,
            final(self).released@ == old(self).released@,
            final(self).seen@.len() == old(self).seen@.len(),
            r is None ==> {
                &&& final(self).next == old(self).next
                &&& final(self).end == old(self).end
                &&& final(self).seen@ == old(self).seen@
                &&& final(self).reservations@ == old(self).reservations@
            },
            r is Some ==> {
                let i = producer_index as int;
                &&& r->Some_0 as int == old(self).acquire_offset(count as int)
                &&& r->Some_0 as int + count <= old(self).cap()
                &&& final(self).next_off() == old(self).acquire_new_next_off(count as int)
                &&& counter_value(final(self).next) as int == (
                if old(self).next_off() + count >= old(self).cap() {
                    (counter_value(old(self).next) + 1) % 0x8000_0000
                } else {
                    counter_value(old(self).next) as int
                })
                &&& final(self).end as int == (if old(self).next_off() + count > old(
                    self,
                ).cap() {
                    old(self).next_off()
                } else {
                    old(self).end as int
                })
                &&& final(self).seen@ == old(self).seen@.update(
                    i,
                    old(self).next_off() as u64,
                )
                &&& final(self).reservations@ == old(self).reservations@.update(
                    i,
                    Some(
                        Reservation {
                            start: old(self).acquire_offset(count as int),
                            count: count as int,
                            initiator: old(self).next_off() + count > old(self).cap(),
                        },
                    ),
                )
            },
            forall|s: int|
                old(self).readable_slot(s) ==> final(self).readable_slot(s),
            old(self).end != MAX_OFFSET ==> final(self).end == old(self).end,
    {
        let ghost o = *old(self);
        let i = producer_index;
        let seen_word = self.stable_next_offset();
        let next_off_u = word_offset(seen_word);
        proof {
            assert(o.next_off() < o.cap());
        }
        // Publish the observed offset, marked unstable while the request is
        // in flight.
        self.seen.set(i, next_off_u | WRAP_LOCK_BIT);
        let target_off = next_off_u + count as u64;
        let written_u = self.written as u64;

        // The request may not catch up with the consumer.
        if next_off_u < written_u && target_off >= written_u {
            self.seen.set(i, MAX_OFFSET);
            proof {
                assert(self.seen@ =~= o.seen@);
                Self::lemma_state_equiv(o, *self);
                assert(!o.acquire_ok(count as int));
            }
            return None;
        }

        let cap_u = self.capacity as u64;
        if target_off >= cap_u {
            // The request does not fit before the physical end: wrap to 0.
            let exceed = target_off > cap_u;
            let wrap_off: u64 = if exceed {
                count as u64
            } else {
                0
            };
            // A region starting at 0 may not reach the consumer either.
            if wrap_off >= written_u {
                self.seen.set(i, MAX_OFFSET);
                proof {
                    assert(self.seen@ =~= o.seen@);
                    Self::lemma_state_equiv(o, *self);
                    assert(!o.acquire_ok(count as int));
                }
                return None;
            }
            let new_counter = advance_wrap_counter(seen_word);
            proof {
                lemma_word_compose(wrap_off, new_counter);
            }
            if exceed {
                // Take the wrap lock, publish where the pre-wrap data ends,
                // then release the lock.
                let unlocked = wrap_off | new_counter;
                proof {
                    lemma_lock_roundtrip(unlocked);
                }
                self.next = unlocked | WRAP_LOCK_BIT;
                self.end = next_off_u;
                self.next = self.next & WRAP_LOCK_MASK;
                self.seen.set(i, next_off_u);
                self.reservations = Ghost(
                    o.reservations@.update(
                        i as int,
                        Some(
                            Reservation {
                                start: 0,
                                count: count as int,
                                initiator: true,
                            },
                        ),
                    ),
                );
                proof {
                    assert(self.seen@ =~= o.seen@.update(i as int, o.next_off() as u64));
                    self.lemma_acquire_wrap_post(o, i as int, count as int);
                }
                Some(0)
            } else {
                // The request fills the buffer exactly to its end.
                self.next = wrap_off | new_counter;
                self.seen.set(i, next_off_u);
                self.reservations = Ghost(
                    o.reservations@.update(
                        i as int,
                        Some(
                            Reservation {
                                start: o.next_off(),
                                count: count as int,
                                initiator: false,
                            },
                        ),
                    ),
                );
                proof {
                    assert(self.seen@ =~= o.seen@.update(i as int, o.next_off() as u64));
                    self.lemma_acquire_exact_post(o, i as int, count as int);
                }
                Some(next_off_u as usize)
            }
        } else {
            // The regular case: advance `next`, preserving the wrap counter.
            let preserved = word_counter(seen_word);
            proof {
                assert(counter_part(seen_word) & WRAP_COUNTER_MASK == counter_part(
                    seen_word,
                )) by (bit_vector);
                lemma_word_compose(target_off, preserved);
            }
            self.next = target_off | preserved;
            self.seen.set(i, next_off_u);
            self.reservations = Ghost(
                o.reservations@.update(
                    i as int,
                    Some(
                        Reservation {
                            start: o.next_off(),
                            count: count as int,
                            initiator: false,
                        },
                    ),
                ),
            );
            proof {
                assert(self.seen@ =~= o.seen@.update(i as int, o.next_off() as u64));
                self.lemma_acquire_regular_post(o, i as int, count as int);
            }
            Some(next_off_u as usize)
        }
    }

    /// Publishes producer `producer_index`'s live reservation: writes the
    /// staged values into the reserved slots, then retires the reservation by
    /// resetting the producer's `seen` hand to the sentinel.  From that point
    /// on the consumer may read the region.
    pub(crate) fn produce(&mut self, producer_index: usize, offset: usize, items: Vec<T>)
        where T: Copy
        requires
            old(self).wf(),
            (producer_index as int) < old(self).num_producers(),
            old(self).live(producer_index as int),
            old(self).res_at(producer_index as int).start == offset,
            old(self).res_at(producer_index as int).count == items@.len(),
        ensures
            final(self).wf(),
            final(self).capacity == old(self).capacity,
            final(self).next == old(self).next,
            final(self).end == old(self).end,
            final(self).written == old(self).written,
            final(self).seen@ == old(self).seen@.update(producer_index as int, MAX_OFFSET),
            final(self).reservations@ == old(self).reservations@.update(
                producer_index as int,
                None,
            ),
            final(self).buffer@.len() == old(self).buffer@.len(),
            forall|k: int|
                offset <= k < offset + items@.len() ==> final(self).buffer@[k] == Some(
                    items@[k - offset],
                ),
            forall|k: int|
                0 <= k < old(self).cap() && !(offset <= k < offset + items@.len())
                    ==> final(self).buffer@[k] == old(self).buffer@[k],
            final(self).produced@ == old(self).produced@ + items@,
            final(self).released@ == old(self).released@,
            forall|s: int|
                old(self).readable_slot(s) ==> final(self).readable_slot(s)
                    && final(self).buffer@[s] == old(self).buffer@[s],
    {
        let ghost o = *old(self);
        let i = producer_index;
        let count = items.len();
        proof {
            assert(o.res_ok(i as int));
        }
        let mut j: usize = 0;
        while j < count
            invariant
                o.wf(),
                o.res_ok(i as int),
                (i as int) < o.num_producers(),
                o.live(i as int),
                o.res_at(i as int).start == offset,
                o.res_at(i as int).count == items@.len(),
                count == items@.len(),
                j <= count,
                offset + count <= o.cap(),
                self.capacity == o.capacity,
                self.next == o.next,
                self.end == o.end,
                self.written == o.written,
                self.seen == o.seen,
                self.reservations == o.reservations,
                self.produced == o.produced,
                self.released == o.released,
                self.buffer@.len() == o.buffer@.len(),
                forall|k: int|
                    offset <= k < offset + j ==> self.buffer@[k] == Some(
                        items@[k - offset],
                    ),
                forall|k: int|
                    0 <= k < o.cap() && !(offset <= k < offset + j) ==> self.buffer@[k]
                        == o.buffer@[k],
            decreases count - j,
        {
            self.buffer.set(offset + j, Some(items[j]));
            j = j + 1;
        }
        // Run concurrently, the algorithm issues a store fence here, so the
        // slot writes are visible before the reservation disappears from the
        // consumer's scan; with one owner the writes are visible as is.
        self.seen.set(i, MAX_OFFSET);
        self.reservations = Ghost(self.reservations@.update(i as int, None));
        self.produced = Ghost(self.produced@ + items@);
        proof {
            assert(self.seen@ =~= o.seen@.update(i as int, MAX_OFFSET));
            self.lemma_produce_post(o, i as int, offset as int, items@);
        }
    }

    /// After publishing a reservation the state is well-formed again, the
    /// consumer's readable slots persist with their values, and — with a
    /// single producer — the committed window has grown by exactly the
    /// published values.
    proof fn lemma_produce_post(
        &self,
        o: RingBuffer<T>,
        i: int,
        offset: int,
        items: Seq<T>,
    )
        requires
            o.wf(),
            0 <= i < o.num_producers(),
            o.live(i),
            o.res_at(i).start == offset,
            o.res_at(i).count == items.len(),
            self.capacity == o.capacity,
            self.next == o.next,
            self.end == o.end,
            self.written == o.written,
            self.seen@ == o.seen@.update(i, MAX_OFFSET),
            self.reservations@ == o.reservations@.update(i, None),
            self.buffer@.len() == o.buffer@.len(),
            forall|k: int|
                offset <= k < offset + items.len() ==> self.buffer@[k] == Some(
                    items[k - offset],
                ),
            forall|k: int|
                0 <= k < o.cap() && !(offset <= k < offset + items.len())
                    ==> self.buffer@[k] == o.buffer@[k],
            self.produced@ == o.produced@ + items,
            self.released@ == o.released@,
        ensures
            self.wf(),
            forall|s: int|
                #[trigger] o.readable_slot(s) ==> self.readable_slot(s) && self.buffer@[s]
                    == o.buffer@[s],
    {
        let r = o.res_at(i);
        assert(o.res_ok(i));
        assert(self.num_producers() == o.num_producers());
        assert(self.wrapped() == o.wrapped());
        assert(self.end_bound() == o.end_bound());

        assert forall|j: int| 0 <= j < self.num_producers() implies #[trigger] self.res_ok(
            j,
        ) by {
            assert(o.res_ok(j));
        }

        assert forall|j: int, k: int|
            #![trigger self.res_at(j), self.res_at(k)]
            0 <= j < self.num_producers() && 0 <= k < self.num_producers() && j != k
                && self.live(j) && self.live(k) implies ranges_disjoint(
            self.res_at(j),
            self.res_at(k),
        ) by {
            assert(o.res_ok(j));
            assert(o.res_ok(k));
            assert(ranges_disjoint(o.res_at(j), o.res_at(k)));
        }

        // A slot of the old state keeps its readability and its value.
        assert forall|s: int|
            #[trigger] o.readable_slot(s) implies self.readable_slot(s) && self.buffer@[s]
            == o.buffer@[s] by {
            assert(self.in_window(s));
            if self.in_some_reservation(s) {
                let j = choose|j: int|
                    0 <= j < self.num_producers() && self.in_reservation(j, s);
                assert(j != i);
                assert(o.in_reservation(j, s));
                assert(o.in_some_reservation(s));
            }
            assert(!(offset <= s < offset + items.len())) by {
                if offset <= s < offset + items.len() {
                    assert(o.in_reservation(i, s));
                    assert(o.in_some_reservation(s));
                }
            }
            assert(0 <= s < o.cap()) by {
                assert(o.in_window(s));
                assert(o.end_bound() <= o.cap());
            }
        }

        assert forall|s: int| #[trigger] self.readable_slot(s) implies self.buffer@[s]
            is Some by {
            if offset <= s < offset + items.len() {
                assert(self.buffer@[s] == Some(items[s - offset]));
            } else {
                if o.in_some_reservation(s) {
                    let j = choose|j: int|
                        0 <= j < o.num_producers() && o.in_reservation(j, s);
                    if j == i {
                        assert(offset <= s < offset + items.len());
                    } else {
                        assert(self.in_reservation(j, s));
                        assert(self.in_some_reservation(s));
                    }
                }
                assert(o.readable_slot(s));
                assert(0 <= s < o.cap()) by {
                    assert(o.end_bound() <= o.cap());
                }
            }
        }

        let hi = offset + items.len() as int;
        assert forall|s: int| offset <= s < hi implies !(#[trigger] o.readable_slot(s)) by {
            assert(o.in_reservation(i, s));
            assert(o.in_some_reservation(s));
        }
        assert forall|s: int| offset <= s < hi implies #[trigger] self.readable_slot(s) by {
            assert(o.res_ok(i));
            if r.initiator {
                assert(self.in_window(s));
            } else if r.start >= o.written {
                assert(self.in_window(s));
            } else {
                assert(self.in_window(s));
            }
            if self.in_some_reservation(s) {
                let j = choose|j: int|
                    0 <= j < self.num_producers() && self.in_reservation(j, s);
                assert(j != i);
                assert(o.in_reservation(j, s));
                assert(o.res_ok(j));
                assert(ranges_disjoint(o.res_at(i), o.res_at(j)));
            }
        }
        assert forall|s: int|
            0 <= s < self.cap() && !(offset <= s < hi) implies (#[trigger] o.readable_slot(
            s,
        ) == #[trigger] self.readable_slot(s) && (o.readable_slot(s) ==> o.buffer@[s]
            == self.buffer@[s])) by {
            if self.readable_slot(s) {
                assert(o.in_window(s));
                if o.in_some_reservation(s) {
                    let j = choose|j: int|
                        0 <= j < o.num_producers() && o.in_reservation(j, s);
                    assert(j != i);
                    assert(self.in_reservation(j, s));
                    assert(self.in_some_reservation(s));
                }
            }
        }
        Self::lemma_committed_region(o, *self, offset, hi, self.cap());
        Self::lemma_buffer_ms_matches(*self, offset, hi, items);
        lemma_seq_ms_concat(o.produced@, items);
        assert(seq_ms(self.released@).add(self.committed_ms()) =~= seq_ms(
            self.produced@,
        ));

        if self.num_producers() == 1 {
            self.lemma_produce_window(o, offset, items);
        }

        assert(self.wf());
    }

    /// The single-producer window arithmetic behind `lemma_produce_post`:
    /// publishing appends exactly the published values to the committed
    /// window.
    proof fn lemma_produce_window(&self, o: RingBuffer<T>, offset: int, items: Seq<T>)
        requires
            o.wf(),
            o.num_producers() == 1,
            self.num_producers() == 1,
            o.live(0),
            o.res_at(0).start == offset,
            o.res_at(0).count == items.len(),
            self.capacity == o.capacity,
            self.next == o.next,
            self.end == o.end,
            self.written == o.written,
            self.reservations@ == o.reservations@.update(0, None),
            self.buffer@.len() == o.buffer@.len(),
            forall|k: int|
                offset <= k < offset + items.len() ==> self.buffer@[k] == Some(
                    items[k - offset],
                ),
            forall|k: int|
                0 <= k < o.cap() && !(offset <= k < offset + items.len())
                    ==> self.buffer@[k] == o.buffer@[k],
            self.produced@ == o.produced@ + items,
            self.released@ == o.released@,
        ensures
            self.single_window_vals() == o.single_window_vals() + items,
            self.produced@ == self.released@ + self.single_window_vals(),
    {
        let r = o.res_at(0);
        assert(o.res_ok(0));
        assert(!self.live(0));
        assert(self.wrapped() == o.wrapped());
        assert(self.end_bound() == o.end_bound());
        let w = o.written as int;

        if r.initiator {
            // The pending-wrap region [0, count) becomes committed head data.
            assert(o.single_tail_front() == o.end_bound());
            assert(o.single_head_front() == 0);
            assert(self.single_tail_front() == o.end_bound());
            assert(self.single_head_front() == self.next_off());
            assert(r.count == o.next_off());
            assert(self.slot_vals(w, self.single_tail_front()) =~= o.slot_vals(
                w,
                o.single_tail_front(),
            ));
            assert(self.slot_vals(0, self.next_off()) =~= items);
            assert(self.single_window_vals() =~= o.single_window_vals() + items);
        } else if !o.wrapped() {
            assert(o.single_tail_front() == r.start);
            assert(r.start + r.count == o.next_off());
            assert(self.single_tail_front() == self.next_off());
            assert(o.single_head_front() == 0);
            assert(self.single_head_front() == 0);
            assert(self.slot_vals(w, self.next_off()) =~= o.slot_vals(w, r.start)
                + items);
            assert(self.single_window_vals() =~= o.single_window_vals() + items);
        } else if r.start >= w {
            // The reservation that filled the buffer exactly to its end.
            assert(o.single_tail_front() == r.start);
            assert(r.start + r.count == o.end_bound());
            assert(o.next_off() == 0);
            assert(self.single_tail_front() == self.end_bound());
            assert(o.single_head_front() == 0);
            assert(self.single_head_front() == 0);
            assert(self.slot_vals(w, self.end_bound()) =~= o.slot_vals(w, r.start)
                + items);
            assert(self.single_window_vals() =~= o.single_window_vals() + items);
        } else {
            // A reservation taken after the wrap, below `written`.
            assert(o.single_tail_front() == o.end_bound());
            assert(self.single_tail_front() == o.end_bound());
            assert(o.single_head_front() == r.start);
            assert(r.start + r.count == o.next_off());
            assert(self.single_head_front() == self.next_off());
            assert(self.slot_vals(w, self.single_tail_front()) =~= o.slot_vals(
                w,
                o.single_tail_front(),
            ));
            assert(self.slot_vals(0, self.next_off()) =~= o.slot_vals(0, r.start)
                + items);
            assert(self.single_window_vals() =~= o.single_window_vals() + items);
        }
        assert(self.produced@ == self.released@ + self.single_window_vals()) by {
            assert(o.produced@ == o.released@ + o.single_window_vals());
            assert((o.released@ + o.single_window_vals()) + items =~= o.released@ + (
            o.single_window_vals() + items));
        }
    }

    /// Hands `count` consumed slots back to the producers by advancing the
    /// consumer's `written` hand, resetting it to slot 0 when it reaches the
    /// physical end of the buffer.  Only slots the consumer could read may be
    /// handed back.
    pub(crate) fn release(&mut self, count: usize)
        requires
            old(self).wf(),
            old(self).written + count <= old(self).cap(),
            forall|s: int|
                old(self).written <= s < old(self).written + count ==> old(
                    self,
                ).readable_slot(s),
        ensures
            final(self).wf(),
            final(self).written as int == (if old(self).written + count == old(
                self,
            ).cap() {
                0int
            } else {
                old(self).written + count
            }),
            final(self).capacity == old(self).capacity,
            final(self).next == old(self).next,
            final(self).end == old(self).end,
            final(self).seen@ == old(self).seen@,
            final(self).buffer@ == old(self).buffer@,
            final(self).reservations@ == old(self).reservations@,
            final(self).produced@ == old(self).produced@,
            final(self).released@ == old(self).released@ + old(self).slot_vals(
                old(self).written as int,
                old(self).written + count,
            ),
            count == 0 ==> final(self).written == old(self).written
                && final(self).released@ == old(self).released@,
    {
        let ghost o = *old(self);
        let number_written = self.written + count;
        let value = if number_written == self.capacity {
            0
        } else {
            number_written
        };
        self.written = value;
        self.released = Ghost(
            self.released@ + o.slot_vals(o.written as int, o.written + count),
        );
        proof {
            self.lemma_release_post(o, count as int);
            if count == 0 {
                assert(o.slot_vals(o.written as int, o.written as int) =~= Seq::empty());
                assert(self.released@ =~= o.released@);
            }
        }
    }

    /// After a release the state is well-formed again: the `written` hand
    /// still trails every live pre-wrap reservation, and — with a single
    /// producer — the released values left the committed window at its front.
    proof fn lemma_release_post(&self, o: RingBuffer<T>, count: int)
        requires
            o.wf(),
            0 <= count,
            o.written + count <= o.cap(),
            forall|s: int| o.written <= s < o.written + count ==> o.readable_slot(s),
            self.written as int == (if o.written + count == o.cap() {
                0int
            } else {
                o.written + count
            }),
            self.capacity == o.capacity,
            self.next == o.next,
            self.end == o.end,
            self.seen@ == o.seen@,
            self.buffer@ == o.buffer@,
            self.reservations@ == o.reservations@,
            self.produced@ == o.produced@,
            self.released@ == o.released@ + o.slot_vals(
                o.written as int,
                o.written + count,
            ),
        ensures
            self.wf(),
    {
        let w = o.written as int;
        let w2 = w + count;
        let resets = w2 == o.cap();
        assert(self.num_producers() == o.num_producers());

        // No live reservation starts inside the released range, and when the
        // range runs to the physical end no pending `end` can be set either.
        assert forall|j: int|
            0 <= j < o.num_producers() && o.live(j) && !o.res_at(j).initiator && o.res_at(
                j,
            ).start >= w implies o.res_at(j).start >= w2 by {
            assert(o.res_ok(j));
            if o.res_at(j).start < w2 {
                assert(o.readable_slot(o.res_at(j).start));
                assert(o.in_reservation(j, o.res_at(j).start));
                assert(o.in_some_reservation(o.res_at(j).start));
            }
        }
        if resets {
            assert(count > 0);
            assert(o.end == MAX_OFFSET) by {
                if o.end != MAX_OFFSET {
                    let s = o.cap() - 1;
                    assert(o.readable_slot(s));
                    assert(o.wrapped());
                    assert(!o.in_window(s));
                }
            }
            assert(o.wrapped()) by {
                if !o.wrapped() {
                    let s = o.cap() - 1;
                    assert(o.readable_slot(s));
                    assert(o.next_off() < o.cap());
                    assert(!o.in_window(s));
                }
            }
            assert(!self.wrapped());
        } else {
            if count > 0 {
                if !o.wrapped() {
                    assert(o.readable_slot(w2 - 1));
                    assert(w2 <= o.next_off());
                } else {
                    assert(o.readable_slot(w2 - 1));
                    assert(w2 - 1 < o.end_bound() || w2 - 1 < o.next_off());
                    assert(o.next_off() < o.written);
                    assert(w2 <= o.end_bound());
                }
            }
            assert(self.wrapped() == o.wrapped());
        }

        assert forall|j: int| 0 <= j < self.num_producers() implies #[trigger] self.res_ok(
            j,
        ) by {
            assert(o.res_ok(j));
            if self.live(j) && !self.res_at(j).initiator {
                let rj = o.res_at(j);
                if rj.start >= w {
                    assert(rj.start >= w2);
                }
            }
        }

        assert forall|j: int, k: int|
            #![trigger self.res_at(j), self.res_at(k)]
            0 <= j < self.num_producers() && 0 <= k < self.num_producers() && j != k
                && self.live(j) && self.live(k) implies ranges_disjoint(
            self.res_at(j),
            self.res_at(k),
        ) by {
            assert(o.res_ok(j));
            assert(o.res_ok(k));
            assert(ranges_disjoint(o.res_at(j), o.res_at(k)));
        }

        assert forall|s: int| #[trigger] self.readable_slot(s) implies self.buffer@[s]
            is Some by {
            assert(o.in_window(s));
            if o.in_some_reservation(s) {
                let j = choose|j: int|
                    0 <= j < o.num_producers() && o.in_reservation(j, s);
                assert(self.in_reservation(j, s));
                assert(self.in_some_reservation(s));
            }
            assert(o.readable_slot(s));
        }

        assert forall|s: int| w <= s < w2 implies !(#[trigger] self.readable_slot(s)) by {
            assert(!self.in_window(s));
        }
        assert forall|s: int|
            0 <= s < self.cap() && !(w <= s < w2) implies (#[trigger] self.readable_slot(
            s,
        ) == #[trigger] o.readable_slot(s) && (self.readable_slot(s) ==> self.buffer@[s]
            == o.buffer@[s])) by {
            if self.readable_slot(s) {
                assert(o.in_window(s));
                if o.in_some_reservation(s) {
                    let j = choose|j: int|
                        0 <= j < o.num_producers() && o.in_reservation(j, s);
                    assert(self.in_reservation(j, s));
                    assert(self.in_some_reservation(s));
                }
            }
            if o.readable_slot(s) {
                assert(self.in_window(s));
                if self.in_some_reservation(s) {
                    let j = choose|j: int|
                        0 <= j < self.num_producers() && self.in_reservation(j, s);
                    assert(o.in_reservation(j, s));
                    assert(o.in_some_reservation(s));
                }
            }
        }
        Self::lemma_committed_region(*self, o, w, w2, self.cap());
        assert forall|k: int|
            0 <= k < o.slot_vals(w, w2).len() implies o.buffer@[w + k] == Some(
            #[trigger] o.slot_vals(w, w2)[k],
        ) by {
            assert(o.readable_slot(w + k));
            assert(o.buffer@[w + k] is Some);
        }
        Self::lemma_buffer_ms_matches(o, w, w2, o.slot_vals(w, w2));
        lemma_seq_ms_concat(o.released@, o.slot_vals(w, w2));
        assert(seq_ms(self.released@).add(self.committed_ms()) =~= seq_ms(
            self.produced@,
        ));

        if self.num_producers() == 1 {
            self.lemma_release_window(o, count);
        }
        if self.num_producers() == 1 && self.live(0) {
            assert(o.res_ok(0));
            let r0 = o.res_at(0);
            if !r0.initiator && r0.start >= w {
                assert(r0.start >= w2) by {
                    if r0.start < w2 {
                        assert(o.readable_slot(r0.start));
                        assert(o.in_reservation(0, r0.start));
                        assert(o.in_some_reservation(r0.start));
                    }
                }
            }
        }

        assert(self.wf());
    }

    /// The single-producer window arithmetic behind `lemma_release_post`:
    /// releasing removes exactly the released values from the front of the
    /// committed window.
    proof fn lemma_release_window(&self, o: RingBuffer<T>, count: int)
        requires
            o.wf(),
            o.num_producers() == 1,
            self.num_producers() == 1,
            0 <= count,
            o.written + count <= o.cap(),
            forall|s: int| o.written <= s < o.written + count ==> o.readable_slot(s),
            self.written as int == (if o.written + count == o.cap() {
                0int
            } else {
                o.written + count
            }),
            self.capacity == o.capacity,
            self.next == o.next,
            self.end == o.end,
            self.seen@ == o.seen@,
            self.buffer@ == o.buffer@,
            self.reservations@ == o.reservations@,
            self.produced@ == o.produced@,
            self.released@ == o.released@ + o.slot_vals(
                o.written as int,
                o.written + count,
            ),
        ensures
            self.produced@ == self.released@ + self.single_window_vals(),
    {
        let w = o.written as int;
        let w2 = w + count;
        let resets = w2 == o.cap();

        assert forall|j: int|
            0 <= j < o.num_producers() && o.live(j) && !o.res_at(j).initiator && o.res_at(
                j,
            ).start >= w implies o.res_at(j).start >= w2 by {
            assert(o.res_ok(j));
            if o.res_at(j).start < w2 {
                assert(o.readable_slot(o.res_at(j).start));
                assert(o.in_reservation(j, o.res_at(j).start));
                assert(o.in_some_reservation(o.res_at(j).start));
            }
        }
        assert(o.res_ok(0));

        if resets {
            assert(count > 0);
            assert(o.end == MAX_OFFSET) by {
                if o.end != MAX_OFFSET {
                    let s = o.cap() - 1;
                    assert(o.readable_slot(s));
                    assert(!o.in_window(s));
                }
            }
            assert(o.wrapped()) by {
                if !o.wrapped() {
                    let s = o.cap() - 1;
                    assert(o.readable_slot(s));
                    assert(!o.in_window(s));
                }
            }
            // The whole pre-wrap tail leaves; the head data stays.
            assert(o.single_tail_front() == o.cap()) by {
                if o.live(0) && !o.res_at(0).initiator && o.res_at(0).start >= w {
                    assert(o.res_at(0).start >= w2);
                    assert(o.res_at(0).start < o.cap());
                }
            }
            assert(self.single_tail_front() == o.single_head_front());
            assert(self.single_head_front() == 0);
            assert(self.slot_vals(0, o.single_head_front()) =~= o.slot_vals(
                0,
                o.single_head_front(),
            ));
            assert(o.single_window_vals() =~= o.slot_vals(w, w2) + self.slot_vals(
                0,
                self.single_tail_front(),
            ));
            assert(self.single_window_vals() =~= self.slot_vals(
                0,
                self.single_tail_front(),
            ));
        } else {
            if count > 0 {
                if !o.wrapped() {
                    assert(o.readable_slot(w2 - 1));
                    assert(w2 <= o.next_off());
                } else {
                    assert(o.readable_slot(w2 - 1));
                    assert(o.next_off() < o.written);
                    assert(w2 <= o.end_bound());
                }
            }
            assert(self.wrapped() == o.wrapped());
            assert(self.single_tail_front() == o.single_tail_front());
            assert(self.single_head_front() == o.single_head_front());
            let tf = o.single_tail_front();
            assert(w2 <= tf) by {
                if count > 0 {
                    if o.live(0) && !o.res_at(0).initiator && o.res_at(0).start >= w {
                        assert(o.res_at(0).start >= w2);
                    } else {
                        if !o.wrapped() {
                            assert(o.readable_slot(w2 - 1));
                            if o.live(0) {
                                assert(o.single_shape());
                            }
                        } else {
                            assert(o.readable_slot(w2 - 1));
                            assert(o.next_off() < o.written);
                        }
                    }
                }
            }
            assert(o.slot_vals(w, tf) =~= o.slot_vals(w, w2) + self.slot_vals(w2, tf));
            assert(self.slot_vals(0, o.single_head_front()) =~= o.slot_vals(
                0,
                o.single_head_front(),
            ));
            assert(o.single_window_vals() =~= o.slot_vals(w, w2)
                + self.single_window_vals());
        }

        assert(o.produced@ == o.released@ + o.single_window_vals());
        assert((o.released@ + o.slot_vals(w, w2)) + self.single_window_vals()
            =~= o.released@ + (o.slot_vals(w, w2) + self.single_window_vals()));
        assert(o.slot_vals(w, w2) + self.single_window_vals()
            =~= o.single_window_vals());
    }

    /// The scan result over this state's `seen` hands, from `written`.
    pub open spec fn scan_ready(self) -> int {
        ready_seen_rec(self.seen@, self.written as u64) as int
    }

    /// Whether `consume` finds the pre-wrap data fully drained and every
    /// producer out of the pre-wrap region, and therefore wraps the consumer
    /// itself: `written` back to slot 0, the pending `end` cleared.
    pub open spec fn consume_resets(self) -> bool {
        &&& self.wrapped()
        &&& self.scan_ready() == MAX_OFFSET as int
        &&& self.written as int == self.end_bound()
    }

    /// Where the run that `consume` returns starts.
    pub open spec fn consume_offset(self) -> int {
        if self.consume_resets() {
            0
        } else {
            self.written as int
        }
    }

    /// How long the run that `consume` returns is: from the consumer's hand
    /// to the nearest bound — the `next` hand, a published `seen` hand, or
    /// the stop of the pre-wrap data.
    pub open spec fn consume_count(self) -> int {
        if self.next_off() == self.written {
            0
        } else if !self.wrapped() {
            (if self.scan_ready() < self.next_off() {
                self.scan_ready()
            } else {
                self.next_off()
            }) - self.written
        } else if self.consume_resets() {
            if self.next_off() == 0 {
                0
            } else {
                let scan0 = ready_seen_rec(self.seen@, 0u64) as int;
                if scan0 < self.next_off() {
                    scan0
                } else {
                    self.next_off()
                }
            }
        } else {
            (if self.scan_ready() < self.end_bound() {
                self.scan_ready()
            } else {
                self.end_bound()
            }) - self.written
        }
    }

    /// Scans every producer's `seen` hand and returns the smallest one at or
    /// past `w`, or the sentinel when none is.  A hand is re-read under
    /// backoff until its wrap lock bit clears; here every hand is provably
    /// stable at rest, so the wait never runs.
    fn scan_seen(&self, w: usize) -> (r: u64)
        requires
            self.wf(),
        ensures
            r == ready_seen_rec(self.seen@, w as u64),
    {
        let w_u = w as u64;
        let mut ready: u64 = MAX_OFFSET;
        let mut j: usize = 0;
        while j < self.seen.len()
            invariant
                self.wf(),
                j <= self.seen@.len(),
                w_u == w as u64,
                ready == ready_seen_rec(self.seen@.take(j as int), w_u),
            decreases self.seen@.len() - j,
        {
            proof {
                assert(self.res_ok(j as int));
                assert(MAX_OFFSET & WRAP_LOCK_BIT == 0u64) by (bit_vector);
                assert forall|v: u64| v <= OFFSET_MASK implies v & WRAP_LOCK_BIT
                    == 0u64 by {
                    assert(v <= OFFSET_MASK ==> v & WRAP_LOCK_BIT == 0u64)
                        by (bit_vector);
                }
                if self.live(j as int) && !self.res_at(j as int).initiator {
                    assert(self.seen@[j as int] as int == self.res_at(j as int).start);
                }
                assert(!lock_bit_set(self.seen@[j as int]));
            }
            let mut spin_lock_back_off = SpinLockBackOff::initial();
            let mut s = self.seen[j];
            while word_locked(s)
                invariant
                    s == self.seen@[j as int],
                    !lock_bit_set(s),
                    spin_lock_back_off.wf(),
                decreases 0int,
            {
                spin_lock_back_off.back_off();
                s = self.seen[j];
            }
            proof {
                assert(self.seen@.take(j + 1).drop_last() =~= self.seen@.take(j as int));
                assert(self.seen@.take(j + 1).last() == self.seen@[j as int]);
            }
            if s >= w_u && s < ready {
                ready = s;
            }
            j = j + 1;
        }
        proof {
            assert(self.seen@.take(self.seen@.len() as int) =~= self.seen@);
        }
        ready
    }

    /// Computes the longest contiguous run the consumer may read, starting
    /// at its `written` hand.  The run never spans the wrap: when the
    /// pre-wrap data is fully drained the consumer itself wraps to slot 0
    /// (clearing the pending `end`) and reports the run found there.
    /// Returns `(count, offset)`; `count` is 0 when nothing is ready.
    pub(crate) fn consume(&mut self) -> (r: (usize, usize))
        requires
            old(self).wf(),
        ensures
            final(self).wf(),
            final(self).capacity == old(self).capacity,
            final(self).next == old(self).next,
            final(self).seen@ == old(self).seen@,
            final(self).buffer@ == old(self).buffer@,
            final(self).reservations@ == old(self).reservations@,
            final(self).produced@ == old(self).produced@,
            final(self).released@ == old(self).released@,
            final(self).written as int == (if old(self).consume_resets() {
                0int
            } else {
                old(self).written as int
            }),
            final(self).end == (if old(self).consume_resets() {
                MAX_OFFSET
            } else {
                old(self).end
            }),
            r.0 as int == old(self).consume_count(),
            r.1 as int == old(self).consume_offset(),
            r.1 == final(self).written,
            r.1 + r.0 <= old(self).cap(),
            final(self).run_readable(r.1 as int, r.0 as int),
    {
        let ghost o = *old(self);
        let written = self.written;
        let next_off_u = word_offset(self.stable_next_offset());
        let w_u = written as u64;

        // Nothing published since the consumer's hand caught up.
        if next_off_u == w_u {
            return (0, written);
        }

        let ready_seen = self.scan_seen(written);
        proof {
            lemma_ready_seen_rec(self.seen@, w_u);
        }

        if next_off_u < w_u {
            // Producers have wrapped; the run may only cover the pre-wrap
            // data, which stops at `end` (or at the capacity).
            let cap_u = self.capacity as u64;
            let e_u: u64 = if cap_u < self.end {
                cap_u
            } else {
                self.end
            };
            proof {
                assert(e_u as int == o.end_bound());
            }
            if ready_seen == MAX_OFFSET && w_u == e_u {
                // The pre-wrap data is drained and no producer is left in
                // it: wrap the consumer itself and report the data at the
                // head.  Run concurrently, the algorithm fences stores after
                // clearing `end`.
                if self.end != MAX_OFFSET {
                    self.end = MAX_OFFSET;
                }
                self.written = 0;
                proof {
                    self.lemma_consume_reset_post(o);
                }
                if next_off_u == 0 {
                    return (0, 0);
                }
                let ready_seen2 = self.scan_seen(0);
                let ready2 = if ready_seen2 < next_off_u {
                    ready_seen2
                } else {
                    next_off_u
                };
                let count_r2 = ready2 as usize;
                proof {
                    lemma_ready_seen_rec(self.seen@, 0u64);
                    assert(ready2 as int <= o.cap());
                    assert(count_r2 as int == ready2 as int);
                    self.lemma_consume_run_readable(ready2 as int);
                    assert(self.run_readable(0, count_r2 as int));
                }
                return (count_r2, 0);
            }
            let ready = if ready_seen < e_u {
                ready_seen
            } else {
                e_u
            };
            let count_r = (ready - w_u) as usize;
            proof {
                assert(ready >= w_u);
                assert(ready as int - w_u as int <= o.cap());
                assert(count_r as int == ready as int - w_u as int);
                assert(written + count_r == ready as int);
                self.lemma_consume_run_readable(ready as int);
                assert(self.run_readable(written as int, count_r as int));
            }
            return (count_r, written);
        } else {
            // The regular case: up to the nearest published hand, or the
            // `next` hand when every producer is idle.
            let ready = if ready_seen < next_off_u {
                ready_seen
            } else {
                next_off_u
            };
            let count_r = (ready - w_u) as usize;
            proof {
                assert(ready >= w_u);
                assert(ready as int - w_u as int <= o.cap());
                assert(count_r as int == ready as int - w_u as int);
                assert(written + count_r == ready as int);
                self.lemma_consume_run_readable(ready as int);
                assert(self.run_readable(written as int, count_r as int));
            }
            return (count_r, written);
        }
    }

    /// Every slot from the consumer's hand up to `ready` — a bound that
    /// stays below the stop of readable data and below every published
    /// `seen` hand — is safe to read and filled.
    pub(crate) proof fn lemma_consume_run_readable(&self, ready: int)
        requires
            self.wf(),
            self.written as int <= ready,
            ready <= ready_seen_rec(self.seen@, self.written as u64) as int,
            ready <= (if self.wrapped() {
                self.end_bound()
            } else {
                self.next_off()
            }),
        ensures
            self.run_readable(self.written as int, ready - self.written as int),
    {
        let w = self.written as int;
        lemma_ready_seen_rec(self.seen@, self.written as u64);
        assert forall|s: int|
            w <= s < w + (ready - w) implies #[trigger] self.readable_slot(s)
            && self.buffer@[s] is Some by {
            assert(self.in_window(s));
            if self.in_some_reservation(s) {
                let j = choose|j: int|
                    0 <= j < self.num_producers() && self.in_reservation(j, s);
                assert(self.res_ok(j));
                let rj = self.res_at(j);
                if rj.initiator {
                    assert(rj.count <= self.next_off());
                } else if rj.start < w {
                    assert(rj.start + rj.count <= self.next_off());
                } else {
                    assert(self.seen@[j] as int == rj.start);
                    assert(self.seen@[j] >= self.written as u64);
                    assert(ready_seen_rec(self.seen@, self.written as u64)
                        <= self.seen@[j]);
                }
            }
            assert(self.readable_slot(s));
        }
    }

    /// After the consumer wraps itself (pre-wrap data drained, `end`
    /// cleared, `written` back to 0) the state is well-formed again and
    /// nothing in flight changed.
    proof fn lemma_consume_reset_post(&self, o: RingBuffer<T>)
        requires
            o.wf(),
            o.consume_resets(),
            self.capacity == o.capacity,
            self.next == o.next,
            self.end == MAX_OFFSET,
            self.written == 0,
            self.seen@ == o.seen@,
            self.buffer@ == o.buffer@,
            self.reservations@ == o.reservations@,
            self.produced@ == o.produced@,
            self.released@ == o.released@,
        ensures
            self.wf(),
    {
        assert(self.num_producers() == o.num_producers());
        lemma_ready_seen_rec(o.seen@, o.written as u64);
        // Every live reservation lies past the wrap: were one still in the
        // pre-wrap region, its published hand would have bounded the scan.
        assert forall|j: int|
            0 <= j < o.num_producers() && o.live(j) implies !o.res_at(j).initiator
                && o.res_at(j).start < o.written by {
            assert(o.res_ok(j));
            let rj = o.res_at(j);
            if rj.initiator {
                assert(o.seen@[j] == o.end);
                assert(o.end != MAX_OFFSET);
                assert(o.seen@[j] >= o.written as u64);
                assert(o.scan_ready() <= o.seen@[j] as int);
            } else if rj.start >= o.written {
                assert(o.seen@[j] as int == rj.start);
                assert(o.seen@[j] >= o.written as u64);
                assert(rj.start < o.cap());
                assert(o.scan_ready() <= o.seen@[j] as int);
            }
        }
        assert(!self.wrapped());

        assert forall|j: int| 0 <= j < self.num_producers() implies #[trigger] self.res_ok(
            j,
        ) by {
            assert(o.res_ok(j));
        }

        assert forall|j: int, k: int|
            #![trigger self.res_at(j), self.res_at(k)]
            0 <= j < self.num_producers() && 0 <= k < self.num_producers() && j != k
                && self.live(j) && self.live(k) implies ranges_disjoint(
            self.res_at(j),
            self.res_at(k),
        ) by {
            assert(o.res_ok(j));
            assert(o.res_ok(k));
            assert(ranges_disjoint(o.res_at(j), o.res_at(k)));
        }

        assert forall|s: int| #[trigger] self.readable_slot(s) implies self.buffer@[s]
            is Some by {
            assert(self.in_window(s));
            assert(o.in_window(s));
            if o.in_some_reservation(s) {
                let j = choose|j: int|
                    0 <= j < o.num_producers() && o.in_reservation(j, s);
                assert(self.in_reservation(j, s));
                assert(self.in_some_reservation(s));
            }
            assert(o.readable_slot(s));
        }

        if self.num_producers() == 1 {
            assert(o.single_tail_front() == o.end_bound());
            assert(self.single_tail_front() == o.single_head_front());
            assert(self.single_head_front() == 0);
            assert(o.slot_vals(o.written as int, o.single_tail_front())
                =~= Seq::empty());
            assert(self.slot_vals(0, self.single_head_front()) =~= Seq::empty());
            assert(self.slot_vals(self.written as int, self.single_tail_front()) =~= o
                .slot_vals(0, o.single_head_front()));
            assert(self.single_window_vals() =~= o.single_window_vals());
        }
        if self.num_producers() == 1 && self.live(0) {
            assert(o.res_ok(0));
        }

        assert forall|s: int|
            0 <= s < self.cap() implies (#[trigger] o.readable_slot(s)
            == #[trigger] self.readable_slot(s) && (o.readable_slot(s) ==> o.buffer@[s]
            == self.buffer@[s])) by {
            if o.readable_slot(s) {
                assert(self.in_window(s));
                if self.in_some_reservation(s) {
                    let j = choose|j: int|
                        0 <= j < self.num_producers() && self.in_reservation(j, s);
                    assert(o.in_reservation(j, s));
                    assert(o.in_some_reservation(s));
                }
            }
            if self.readable_slot(s) {
                assert(o.in_window(s));
                if o.in_some_reservation(s) {
                    let j = choose|j: int|
                        0 <= j < o.num_producers() && o.in_reservation(j, s);
                    assert(self.in_reservation(j, s));
                    assert(self.in_some_reservation(s));
                }
            }
        }
        Self::lemma_committed_congruent(o, *self, self.cap());

        assert(self.wf());
    }

    /// Two states whose readable slots agree slot for slot, value for
    /// value, hold the same committed multiset.
    proof fn lemma_committed_congruent(a: RingBuffer<T>, b: RingBuffer<T>, n: int)
        requires
            forall|s: int|
                0 <= s < n ==> (#[trigger] a.readable_slot(s) == #[trigger] b.readable_slot(
                    s,
                ) && (a.readable_slot(s) ==> a.buffer@[s] == b.buffer@[s])),
        ensures
            a.committed_ms_up_to(n) == b.committed_ms_up_to(n),
        decreases n,
    {
        if n > 0 {
            Self::lemma_committed_congruent(a, b, n - 1);
        }
    }

    /// A state without a single readable slot commits nothing.
    pub(crate) proof fn lemma_committed_none(a: RingBuffer<T>, n: int)
        requires
            forall|s: int| 0 <= s < n ==> !(#[trigger] a.readable_slot(s)),
        ensures
            a.committed_ms_up_to(n) == Multiset::<T>::empty(),
        decreases n,
    {
        if n > 0 {
            Self::lemma_committed_none(a, n - 1);
        }
    }

    /// When the run `lo .. hi` is unreadable in one state and readable in
    /// another, and every other slot agrees, the second state commits
    /// exactly the run's values more.
    proof fn lemma_committed_region(
        a: RingBuffer<T>,
        b: RingBuffer<T>,
        lo: int,
        hi: int,
        n: int,
    )
        requires
            0 <= lo <= hi,
            forall|s: int|
                0 <= s < n && !(lo <= s < hi) ==> (#[trigger] a.readable_slot(s)
                    == #[trigger] b.readable_slot(s) && (a.readable_slot(s)
                    ==> a.buffer@[s] == b.buffer@[s])),
            forall|s: int| lo <= s < hi ==> !(#[trigger] a.readable_slot(s)),
            forall|s: int| lo <= s < hi ==> #[trigger] b.readable_slot(s),
        ensures
            b.committed_ms_up_to(n) == a.committed_ms_up_to(n).add(
                b.buffer_ms(
                    lo,
                    if n <= lo {
                        lo
                    } else if n < hi {
                        n
                    } else {
                        hi
                    },
                ),
            ),
        decreases n,
    {
        if n <= 0 {
            assert(a.committed_ms_up_to(n).add(b.buffer_ms(lo, lo))
                =~= a.committed_ms_up_to(n));
        } else {
            Self::lemma_committed_region(a, b, lo, hi, n - 1);
            let prev = a.committed_ms_up_to(n - 1).add(
                b.buffer_ms(
                    lo,
                    if n - 1 <= lo {
                        lo
                    } else if n - 1 < hi {
                        n - 1
                    } else {
                        hi
                    },
                ),
            );
            if lo <= n - 1 < hi {
                let v = b.buffer@[n - 1]->Some_0;
                assert(b.committed_ms_up_to(n) == b.committed_ms_up_to(n - 1).insert(v));
                assert(a.committed_ms_up_to(n) == a.committed_ms_up_to(n - 1));
                assert(b.buffer_ms(
                    lo,
                    if n < hi {
                        n
                    } else {
                        hi
                    },
                ) == b.buffer_ms(
                    lo,
                    if n - 1 <= lo {
                        lo
                    } else if n - 1 < hi {
                        n - 1
                    } else {
                        hi
                    },
                ).insert(v));
                assert(a.committed_ms_up_to(n - 1).add(
                    b.buffer_ms(
                        lo,
                        if n - 1 <= lo {
                            lo
                        } else if n - 1 < hi {
                            n - 1
                        } else {
                            hi
                        },
                    ).insert(v),
                ) =~= prev.insert(v));
            } else {
                if a.readable_slot(n - 1) {
                    let v = a.buffer@[n - 1]->Some_0;
                    assert(b.readable_slot(n - 1));
                    assert(b.buffer@[n - 1]->Some_0 == v);
                    assert(a.committed_ms_up_to(n - 1).insert(v).add(
                        b.buffer_ms(
                            lo,
                            if n - 1 <= lo {
                                lo
                            } else if n - 1 < hi {
                                n - 1
                            } else {
                                hi
                            },
                        ),
                    ) =~= prev.insert(v));
                }
            }
        }
    }

    /// When a run of slots carries the values of `vals` in order, its
    /// multiset is theirs.
    proof fn lemma_buffer_ms_matches(b: RingBuffer<T>, lo: int, hi: int, vals: Seq<T>)
        requires
            0 <= lo <= hi,
            vals.len() == hi - lo,
            forall|k: int| 0 <= k < vals.len() ==> b.buffer@[lo + k] == Some(#[trigger] vals[k]),
        ensures
            b.buffer_ms(lo, hi) == seq_ms(vals),
        decreases hi - lo,
    {
        if hi > lo {
            Self::lemma_buffer_ms_matches(b, lo, hi - 1, vals.drop_last());
            assert(b.buffer@[hi - 1] == Some(vals[hi - 1 - lo]));
            assert(vals.last() == vals[hi - 1 - lo]);
        }
    }

    /// Two states whose fields agree view for view satisfy the same protocol
    /// predicates.
    proof fn lemma_state_equiv(a: RingBuffer<T>, b: RingBuffer<T>)
        requires
            a.capacity == b.capacity,
            a.next == b.next,
            a.end == b.end,
            a.written == b.written,
            a.seen@ == b.seen@,
            a.buffer@ == b.buffer@,
            a.reservations@ == b.reservations@,
            a.produced@ == b.produced@,
            a.released@ == b.released@,
        ensures
            a.wf() ==> b.wf(),
            forall|s: int| a.readable_slot(s) <==> b.readable_slot(s),
    {
        assert forall|s: int| a.in_some_reservation(s) implies b.in_some_reservation(
            s,
        ) by {
            let j = choose|j: int| 0 <= j < a.num_producers() && a.in_reservation(j, s);
            assert(b.in_reservation(j, s));
        }
        assert forall|s: int| b.in_some_reservation(s) implies a.in_some_reservation(
            s,
        ) by {
            let j = choose|j: int| 0 <= j < b.num_producers() && b.in_reservation(j, s);
            assert(a.in_reservation(j, s));
        }
        assert forall|s: int| a.readable_slot(s) <==> b.readable_slot(s) by {
            assert(a.in_window(s) == b.in_window(s));
        }
        if a.wf() {
            assert forall|i: int|
                0 <= i < b.num_producers() implies #[trigger] b.res_ok(i) by {
                assert(a.res_ok(i));
            }
            assert forall|j: int, k: int|
                #![trigger b.res_at(j), b.res_at(k)]
                0 <= j < b.num_producers() && 0 <= k < b.num_producers() && j != k
                    && b.live(j) && b.live(k) implies ranges_disjoint(
                b.res_at(j),
                b.res_at(k),
            ) by {
                assert(a.res_ok(j));
                assert(a.res_ok(k));
                assert(ranges_disjoint(a.res_at(j), a.res_at(k)));
            }
            assert forall|s: int| #[trigger] b.readable_slot(s) implies b.buffer@[s]
                is Some by {
                assert(a.readable_slot(s));
            }
            assert(b.single_tail_front() == a.single_tail_front());
            assert(b.single_head_front() == a.single_head_front());
            assert(b.single_window_vals() =~= a.single_window_vals());
            Self::lemma_committed_congruent(a, b, b.cap());
            assert(b.wf());
        }
    }

    /// After a regular (non-wrapping) grant the state is well-formed again
    /// and every slot the consumer could read before, it still can.
    proof fn lemma_acquire_regular_post(&self, o: RingBuffer<T>, i: int, count: int)
        requires
            o.wf(),
            0 <= i < o.num_producers(),
            o.seen@[i] == MAX_OFFSET,
            1 <= count <= o.cap(),
            !(o.next_off() < o.written && o.next_off() + count >= o.written),
            o.next_off() + count < o.cap(),
            self.capacity == o.capacity,
            self.written == o.written,
            self.buffer@ == o.buffer@,
            self.produced@ == o.produced@,
            self.released@ == o.released@,
            self.end == o.end,
            offset_part(self.next) as int == o.next_off() + count,
            !lock_bit_set(self.next),
            self.seen@ == o.seen@.update(i, o.next_off() as u64),
            self.reservations@ == o.reservations@.update(
                i,
                Some(
                    Reservation {
                        start: o.next_off(),
                        count: count,
                        initiator: false,
                    },
                ),
            ),
        ensures
            self.wf(),
            forall|s: int| o.readable_slot(s) ==> self.readable_slot(s),
    {
        assert(o.res_ok(i));
        assert(!o.live(i));
        let t = o.next_off() + count;
        assert(self.num_producers() == o.num_producers());
        assert(self.next_off() == t);
        assert(self.wrapped() == o.wrapped());
        assert(self.end_bound() == o.end_bound());
        assert(o.wrapped() ==> t <= o.written);

        assert forall|j: int| 0 <= j < self.num_producers() implies #[trigger] self.res_ok(
            j,
        ) by {
            assert(o.res_ok(j));
            if j != i {
                assert(self.seen@[j] == o.seen@[j]);
                assert(self.reservations@[j] == o.reservations@[j]);
            }
        }

        assert forall|j: int, k: int|
            #![trigger self.res_at(j), self.res_at(k)]
            0 <= j < self.num_producers() && 0 <= k < self.num_producers() && j != k
                && self.live(j) && self.live(k) implies ranges_disjoint(
            self.res_at(j),
            self.res_at(k),
        ) by {
            if j != i && k != i {
                assert(o.res_ok(j));
                assert(o.res_ok(k));
                assert(ranges_disjoint(o.res_at(j), o.res_at(k)));
            } else {
                let m = if j == i {
                    k
                } else {
                    j
                };
                assert(o.res_ok(m));
                let rm = o.res_at(m);
                // Every older live reservation either stops at or before the
                // old `next` hand, or lies wholly at or past `written` while
                // this grant stops below `written`.
                if rm.initiator {
                    assert(rm.start + rm.count <= o.next_off());
                } else if rm.start < o.written {
                    assert(rm.start + rm.count <= o.next_off());
                } else {
                    if o.wrapped() {
                        assert(t <= o.written);
                        assert(o.written <= rm.start);
                    } else {
                        assert(rm.start + rm.count <= o.next_off());
                    }
                }
            }
        }

        assert forall|s: int| #[trigger] self.readable_slot(s) implies self.buffer@[s]
            is Some by {
            if o.next_off() <= s < t {
                assert(self.in_reservation(i, s));
                assert(self.in_some_reservation(s));
            } else {
                assert(o.in_window(s));
                if o.in_some_reservation(s) {
                    let j = choose|j: int|
                        0 <= j < o.num_producers() && o.in_reservation(j, s);
                    assert(j != i);
                    assert(self.in_reservation(j, s));
                    assert(self.in_some_reservation(s));
                }
                assert(o.readable_slot(s));
            }
        }

        assert forall|s: int| o.readable_slot(s) implies #[trigger] self.readable_slot(
            s,
        ) by {
            assert(self.in_window(s));
            assert forall|j: int|
                0 <= j < self.num_producers() implies !(#[trigger] self.in_reservation(
                j,
                s,
            )) by {
                if j == i {
                    if o.wrapped() {
                        assert(o.res_ok(j) || true);
                    }
                } else {
                    if self.in_reservation(j, s) {
                        assert(o.in_reservation(j, s));
                        assert(o.in_some_reservation(s));
                    }
                }
            }
        }


        assert forall|s: int|
            0 <= s < self.cap() implies (#[trigger] o.readable_slot(s)
            == #[trigger] self.readable_slot(s) && (o.readable_slot(s) ==> o.buffer@[s]
            == self.buffer@[s])) by {
            if self.readable_slot(s) {
                if o.next_off() <= s < t {
                    assert(self.in_reservation(i, s));
                    assert(self.in_some_reservation(s));
                } else {
                    assert(o.in_window(s));
                    if o.in_some_reservation(s) {
                        let j = choose|j: int|
                            0 <= j < o.num_producers() && o.in_reservation(j, s);
                        assert(j != i);
                        assert(self.in_reservation(j, s));
                        assert(self.in_some_reservation(s));
                    }
                }
            }
            if o.readable_slot(s) {
                assert(self.in_window(s));
                if self.in_some_reservation(s) {
                    let j = choose|j: int|
                        0 <= j < self.num_producers() && self.in_reservation(j, s);
                    assert(j != i);
                    assert(o.in_reservation(j, s));
                    assert(o.in_some_reservation(s));
                }
            }
        }
        Self::lemma_committed_congruent(o, *self, self.cap());

        if self.num_producers() == 1 {
            assert(i == 0);
            assert(!o.live(0));
            assert(self.single_tail_front() == o.single_tail_front());
            assert(self.single_head_front() == o.single_head_front());
            assert(self.slot_vals(self.written as int, self.single_tail_front()) =~= o
                .slot_vals(o.written as int, o.single_tail_front()));
            assert(self.slot_vals(0, self.single_head_front()) =~= o.slot_vals(
                0,
                o.single_head_front(),
            ));
            assert(self.single_window_vals() == o.single_window_vals());
        }
    }

    /// After a grant that fills the buffer exactly to its physical end the
    /// state is well-formed again and the consumer's readable slots persist.
    proof fn lemma_acquire_exact_post(&self, o: RingBuffer<T>, i: int, count: int)
        requires
            o.wf(),
            0 <= i < o.num_producers(),
            o.seen@[i] == MAX_OFFSET,
            1 <= count <= o.cap(),
            o.next_off() + count == o.cap(),
            0 < o.written,
            !(o.next_off() < o.written && o.next_off() + count >= o.written),
            self.capacity == o.capacity,
            self.written == o.written,
            self.buffer@ == o.buffer@,
            self.produced@ == o.produced@,
            self.released@ == o.released@,
            self.end == o.end,
            offset_part(self.next) == 0u64,
            !lock_bit_set(self.next),
            self.seen@ == o.seen@.update(i, o.next_off() as u64),
            self.reservations@ == o.reservations@.update(
                i,
                Some(
                    Reservation {
                        start: o.next_off(),
                        count: count,
                        initiator: false,
                    },
                ),
            ),
        ensures
            self.wf(),
            forall|s: int| o.readable_slot(s) ==> self.readable_slot(s),
    {
        assert(o.res_ok(i));
        assert(!o.live(i));
        assert(self.num_producers() == o.num_producers());
        assert(self.next_off() == 0);
        // The exact fit is only granted while ahead of the consumer, so the
        // old state was not wrapped and carried no pending `end`.
        assert(!o.wrapped());
        assert(o.end == MAX_OFFSET);
        assert(self.wrapped());
        assert(self.end_bound() == o.cap());

        assert forall|j: int| 0 <= j < self.num_producers() implies #[trigger] self.res_ok(
            j,
        ) by {
            assert(o.res_ok(j));
            if j != i {
                assert(self.seen@[j] == o.seen@[j]);
                assert(self.reservations@[j] == o.reservations@[j]);
                if self.live(j) {
                    let rj = o.res_at(j);
                    assert(!rj.initiator);
                    assert(rj.start >= o.written);
                    assert(rj.start + rj.count <= o.next_off());
                }
            }
        }

        assert forall|j: int, k: int|
            #![trigger self.res_at(j), self.res_at(k)]
            0 <= j < self.num_producers() && 0 <= k < self.num_producers() && j != k
                && self.live(j) && self.live(k) implies ranges_disjoint(
            self.res_at(j),
            self.res_at(k),
        ) by {
            if j != i && k != i {
                assert(o.res_ok(j));
                assert(o.res_ok(k));
                assert(ranges_disjoint(o.res_at(j), o.res_at(k)));
            } else {
                let m = if j == i {
                    k
                } else {
                    j
                };
                assert(o.res_ok(m));
                assert(o.res_at(m).start + o.res_at(m).count <= o.next_off());
            }
        }

        assert forall|s: int| #[trigger] self.readable_slot(s) implies self.buffer@[s]
            is Some by {
            if o.next_off() <= s < o.cap() {
                assert(self.in_reservation(i, s));
                assert(self.in_some_reservation(s));
            } else {
                assert(o.in_window(s));
                if o.in_some_reservation(s) {
                    let j = choose|j: int|
                        0 <= j < o.num_producers() && o.in_reservation(j, s);
                    assert(j != i);
                    assert(self.in_reservation(j, s));
                    assert(self.in_some_reservation(s));
                }
                assert(o.readable_slot(s));
            }
        }

        assert forall|s: int| o.readable_slot(s) implies #[trigger] self.readable_slot(
            s,
        ) by {
            assert(self.in_window(s));
            assert forall|j: int|
                0 <= j < self.num_producers() implies !(#[trigger] self.in_reservation(
                j,
                s,
            )) by {
                if j == i {
                    assert(s < o.next_off());
                } else {
                    if self.in_reservation(j, s) {
                        assert(o.in_reservation(j, s));
                        assert(o.in_some_reservation(s));
                    }
                }
            }
        }


        assert forall|s: int|
            0 <= s < self.cap() implies (#[trigger] o.readable_slot(s)
            == #[trigger] self.readable_slot(s) && (o.readable_slot(s) ==> o.buffer@[s]
            == self.buffer@[s])) by {
            if self.readable_slot(s) {
                if o.next_off() <= s < o.cap() {
                    assert(self.in_reservation(i, s));
                    assert(self.in_some_reservation(s));
                } else {
                    assert(o.in_window(s));
                    if o.in_some_reservation(s) {
                        let j = choose|j: int|
                            0 <= j < o.num_producers() && o.in_reservation(j, s);
                        assert(j != i);
                        assert(self.in_reservation(j, s));
                        assert(self.in_some_reservation(s));
                    }
                }
            }
            if o.readable_slot(s) {
                assert(self.in_window(s));
                if self.in_some_reservation(s) {
                    let j = choose|j: int|
                        0 <= j < self.num_producers() && self.in_reservation(j, s);
                    assert(j != i);
                    assert(o.in_reservation(j, s));
                    assert(o.in_some_reservation(s));
                }
            }
        }
        Self::lemma_committed_congruent(o, *self, self.cap());

        if self.num_producers() == 1 {
            assert(i == 0);
            assert(!o.live(0));
            assert(self.single_tail_front() == o.next_off());
            assert(self.single_head_front() == 0);
            assert(o.single_tail_front() == o.next_off());
            assert(o.single_head_front() == 0);
            assert(self.slot_vals(self.written as int, self.single_tail_front()) =~= o
                .slot_vals(o.written as int, o.single_tail_front()));
            assert(self.slot_vals(0, self.single_head_front()) =~= o.slot_vals(
                0,
                o.single_head_front(),
            ));
            assert(self.single_window_vals() == o.single_window_vals());
        }
    }

    /// After a wrapping grant (the one that publishes `end` under the wrap
    /// lock) the state is well-formed again and the consumer's readable
    /// slots persist.
    proof fn lemma_acquire_wrap_post(&self, o: RingBuffer<T>, i: int, count: int)
        requires
            o.wf(),
            0 <= i < o.num_producers(),
            o.seen@[i] == MAX_OFFSET,
            1 <= count <= o.cap(),
            o.next_off() + count > o.cap(),
            count < o.written,
            !(o.next_off() < o.written && o.next_off() + count >= o.written),
            self.capacity == o.capacity,
            self.written == o.written,
            self.buffer@ == o.buffer@,
            self.produced@ == o.produced@,
            self.released@ == o.released@,
            self.end as int == o.next_off(),
            offset_part(self.next) as int == count,
            !lock_bit_set(self.next),
            self.seen@ == o.seen@.update(i, o.next_off() as u64),
            self.reservations@ == o.reservations@.update(
                i,
                Some(Reservation { start: 0, count: count, initiator: true }),
            ),
        ensures
            self.wf(),
            forall|s: int| o.readable_slot(s) ==> self.readable_slot(s),
    {
        assert(o.res_ok(i));
        assert(!o.live(i));
        assert(self.num_producers() == o.num_producers());
        assert(self.next_off() == count);
        // Wrapping is only granted while ahead of the consumer.
        assert(!o.wrapped());
        assert(o.end == MAX_OFFSET);
        assert(o.written <= o.next_off());
        assert(self.wrapped());
        assert(self.end != MAX_OFFSET);
        assert(self.end_bound() == o.next_off());

        assert forall|j: int| 0 <= j < self.num_producers() implies #[trigger] self.res_ok(
            j,
        ) by {
            assert(o.res_ok(j));
            if j != i {
                assert(self.seen@[j] == o.seen@[j]);
                assert(self.reservations@[j] == o.reservations@[j]);
                if self.live(j) {
                    let rj = o.res_at(j);
                    assert(!rj.initiator);
                    assert(rj.start >= o.written);
                    assert(rj.start + rj.count <= o.next_off());
                }
            }
        }

        assert forall|j: int, k: int|
            #![trigger self.res_at(j), self.res_at(k)]
            0 <= j < self.num_producers() && 0 <= k < self.num_producers() && j != k
                && self.live(j) && self.live(k) implies ranges_disjoint(
            self.res_at(j),
            self.res_at(k),
        ) by {
            if j != i && k != i {
                assert(o.res_ok(j));
                assert(o.res_ok(k));
                assert(ranges_disjoint(o.res_at(j), o.res_at(k)));
            } else {
                let m = if j == i {
                    k
                } else {
                    j
                };
                assert(o.res_ok(m));
                // The new region stops below `written`; every older live
                // reservation starts at or past `written`.
                assert(o.res_at(m).start >= o.written);
            }
        }

        assert forall|s: int| #[trigger] self.readable_slot(s) implies self.buffer@[s]
            is Some by {
            if 0 <= s < count {
                assert(self.in_reservation(i, s));
                assert(self.in_some_reservation(s));
            } else {
                assert(self.written <= s < self.end_bound());
                assert(o.in_window(s));
                if o.in_some_reservation(s) {
                    let j = choose|j: int|
                        0 <= j < o.num_producers() && o.in_reservation(j, s);
                    assert(j != i);
                    assert(self.in_reservation(j, s));
                    assert(self.in_some_reservation(s));
                }
                assert(o.readable_slot(s));
            }
        }

        assert forall|s: int| o.readable_slot(s) implies #[trigger] self.readable_slot(
            s,
        ) by {
            assert(o.written <= s < o.next_off());
            assert(self.in_window(s));
            assert forall|j: int|
                0 <= j < self.num_producers() implies !(#[trigger] self.in_reservation(
                j,
                s,
            )) by {
                if j == i {
                    assert(s >= o.written);
                    assert(count < o.written);
                } else {
                    if self.in_reservation(j, s) {
                        assert(o.in_reservation(j, s));
                        assert(o.in_some_reservation(s));
                    }
                }
            }
        }


        assert forall|s: int|
            0 <= s < self.cap() implies (#[trigger] o.readable_slot(s)
            == #[trigger] self.readable_slot(s) && (o.readable_slot(s) ==> o.buffer@[s]
            == self.buffer@[s])) by {
            if self.readable_slot(s) {
                if 0 <= s < count {
                    assert(self.in_reservation(i, s));
                    assert(self.in_some_reservation(s));
                } else {
                    assert(o.in_window(s));
                    if o.in_some_reservation(s) {
                        let j = choose|j: int|
                            0 <= j < o.num_producers() && o.in_reservation(j, s);
                        assert(j != i);
                        assert(self.in_reservation(j, s));
                        assert(self.in_some_reservation(s));
                    }
                }
            }
            if o.readable_slot(s) {
                assert(self.in_window(s));
                if self.in_some_reservation(s) {
                    let j = choose|j: int|
                        0 <= j < self.num_producers() && self.in_reservation(j, s);
                    assert(j != i);
                    assert(o.in_reservation(j, s));
                    assert(o.in_some_reservation(s));
                }
            }
        }
        Self::lemma_committed_congruent(o, *self, self.cap());

        if self.num_producers() == 1 {
            assert(i == 0);
            assert(!o.live(0));
            assert(self.single_tail_front() == self.end_bound());
            assert(self.single_head_front() == 0);
            assert(o.single_tail_front() == o.next_off());
            assert(o.single_head_front() == 0);
            assert(self.slot_vals(self.written as int, self.single_tail_front()) =~= o
                .slot_vals(o.written as int, o.single_tail_front()));
            assert(self.slot_vals(0, self.single_head_front()) =~= o.slot_vals(
                0,
                o.single_head_front(),
            ));
            assert(self.single_window_vals() == o.single_window_vals());
        }
    }
}

} // verus!
