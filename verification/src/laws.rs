//! The guarantees of the protocol, stated and proved on their own.
//!
//! Each law here is a consequence of well-formedness ([`RingBuffer::wf`])
//! and of the operation contracts; they spell out what the protocol promises
//! to every user of the ring.

use vstd::prelude::*;

use vstd::multiset::Multiset;

use crate::offset::MAX_OFFSET;
use crate::ring::seq_ms;
use crate::ring::RingBuffer;

verus! {

/// No overtake: in every well-formed state the hands stay inside the buffer,
/// and the run that `consume` reports from this state (when it does not
/// first wrap the consumer) overlaps no live reservation — the consumer
/// never reads slots a producer still owns.
pub proof fn lemma_no_overtake<T>(ring: RingBuffer<T>)
    requires
        ring.wf(),
        !ring.consume_resets(),
    ensures
        (ring.written as int) < ring.cap(),
        ring.next_off() < ring.cap(),
        ring.run_readable(ring.consume_offset(), ring.consume_count()),
        forall|i: int, s: int|
            0 <= i < ring.num_producers() && ring.consume_offset() <= s
                < ring.consume_offset() + ring.consume_count() ==> !ring.in_reservation(
                i,
                s,
            ),
{
    let w = ring.written as int;
    let count = ring.consume_count();
    crate::ring::lemma_ready_seen_rec(ring.seen@, ring.written as u64);
    if ring.next_off() == ring.written {
        assert(count == 0);
    } else if !ring.wrapped() {
        let ready = if ring.scan_ready() < ring.next_off() {
            ring.scan_ready()
        } else {
            ring.next_off()
        };
        assert(ready >= w);
        ring.lemma_consume_run_readable(ready);
    } else {
        let ready = if ring.scan_ready() < ring.end_bound() {
            ring.scan_ready()
        } else {
            ring.end_bound()
        };
        assert(ready >= w);
        ring.lemma_consume_run_readable(ready);
    }
    assert forall|i: int, s: int|
        0 <= i < ring.num_producers() && ring.consume_offset() <= s
            < ring.consume_offset() + ring.consume_count() implies !ring.in_reservation(
        i,
        s,
    ) by {
        assert(ring.readable_slot(s));
        if ring.in_reservation(i, s) {
            assert(ring.in_some_reservation(s));
        }
    }
}

/// No duplication, no loss: with a single producer, the values published so
/// far are exactly the values released so far followed by what is still
/// sitting in the ring, in order.  In particular, once the ring is drained
/// and the producer idle, everything published has been released exactly
/// once.
pub proof fn lemma_no_duplication_no_loss<T>(ring: RingBuffer<T>)
    requires
        ring.wf(),
        ring.num_producers() == 1,
    ensures
        ring.produced@ == ring.released@ + ring.single_window_vals(),
        (!ring.live(0) && !ring.wrapped() && ring.next_off() == ring.written)
            ==> ring.produced@ == ring.released@,
{
    if !ring.live(0) && !ring.wrapped() && ring.next_off() == ring.written {
        assert(ring.single_window_vals() =~= Seq::empty());
        assert(ring.released@ + ring.single_window_vals() =~= ring.released@);
    }
}

/// No duplication, no loss, with any number of producers: the multiset of
/// values published so far is exactly the multiset of values released so far
/// together with what still sits readable in the ring.  Once the ring is
/// drained, everything published has been released exactly once.
///
/// With several producers the publish history records publish order, which
/// interleaves freely with reservation order, so the ordered form of this
/// law (`lemma_no_duplication_no_loss`) is stated for a single producer
/// only; here the guarantee is the multiset equality, which no interleaving
/// of publishes can break.
pub proof fn lemma_no_loss_any_producers<T>(ring: RingBuffer<T>)
    requires
        ring.wf(),
    ensures
        seq_ms(ring.produced@) == seq_ms(ring.released@).add(ring.committed_ms()),
        (!ring.wrapped() && ring.next_off() == ring.written) ==> seq_ms(ring.produced@)
            == seq_ms(ring.released@),
{
    if !ring.wrapped() && ring.next_off() == ring.written {
        assert forall|s: int| 0 <= s < ring.cap() implies !(#[trigger] ring.readable_slot(
            s,
        )) by {
            assert(!ring.in_window(s));
        }
        RingBuffer::<T>::lemma_committed_none(ring, ring.cap());
        assert(seq_ms(ring.released@).add(Multiset::<T>::empty()) =~= seq_ms(
            ring.released@,
        ));
    }
}

/// Contiguous reservations: every request that the protocol grants yields a
/// region of exactly `count` consecutive slots that lies inside the buffer
/// and does not cross its physical end.
pub proof fn lemma_contiguous_reservation<T>(ring: RingBuffer<T>, count: int)
    requires
        ring.wf(),
        1 <= count <= ring.cap(),
        ring.acquire_ok(count),
    ensures
        0 <= ring.acquire_offset(count),
        ring.acquire_offset(count) + count <= ring.cap(),
{
}

/// Wrap atomicity: at most one wrap region is ever pending — no two live
/// reservations can both be wrap initiators, and while `end` is set no
/// request that would start another wrap can be granted.
pub proof fn lemma_wrap_atomicity<T>(ring: RingBuffer<T>, count: int)
    requires
        ring.wf(),
        1 <= count,
    ensures
        forall|i: int, j: int|
            0 <= i < ring.num_producers() && 0 <= j < ring.num_producers()
                && ring.live(i) && ring.live(j) && ring.res_at(i).initiator && ring.res_at(
                j,
            ).initiator ==> i == j,
        ring.end != MAX_OFFSET ==> !(ring.acquire_ok(count) && ring.next_off() + count
            > ring.cap()),
{
    assert forall|i: int, j: int|
        0 <= i < ring.num_producers() && 0 <= j < ring.num_producers() && ring.live(i)
            && ring.live(j) && ring.res_at(i).initiator && ring.res_at(j).initiator
        implies i == j by {
        assert(ring.res_ok(i));
        assert(ring.res_ok(j));
        if i != j {
            // Both would start at slot 0 and overlap there.
            assert(crate::ring::ranges_disjoint(ring.res_at(i), ring.res_at(j)));
        }
    }
}

/// Liveness from an aligned empty ring: when the consumer has caught up and
/// both hands stand at slot 0, every request of fewer than `capacity` slots
/// is granted.
pub proof fn lemma_liveness_when_aligned<T>(ring: RingBuffer<T>, count: int)
    requires
        ring.wf(),
        ring.written == 0,
        ring.next_off() == 0,
        1 <= count < ring.cap(),
    ensures
        ring.acquire_ok(count),
{
}

/// Exactly when a request is granted on an empty ring: it must fit before
/// the physical end, fill it exactly (with room at slot 0 behind the
/// consumer), or wrap into a region strictly below the consumer's hand.
pub proof fn lemma_acquire_when_empty<T>(ring: RingBuffer<T>, count: int)
    requires
        ring.wf(),
        ring.next_off() == ring.written,
        1 <= count <= ring.cap(),
    ensures
        ring.acquire_ok(count) <==> {
            ||| ring.written + count < ring.cap()
            ||| (ring.written + count == ring.cap() && ring.written > 0)
            ||| (ring.written + count > ring.cap() && count < ring.written)
        },
{
}

} // verus!
