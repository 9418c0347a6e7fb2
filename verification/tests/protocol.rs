use mpsc_ring_buffer::RingBuffer;
use mpsc_ring_buffer::MAX_OFFSET;

#[test]
fn single_producer_small_round_trip() {
    let (mut ring, consumer, producers) = RingBuffer::<u64>::new(8, 1);
    let producer = &producers[0];

    let mut guard = producer.acquire(&mut ring, 3).unwrap();
    assert_eq!(guard.offset, 0);
    assert_eq!(guard.len(), 3);
    guard.push(10);
    guard.push(20);
    guard.push(30);
    producer.produce(&mut ring, guard);

    let read = consumer.consume(&mut ring);
    assert_eq!(read.len(), 3);
    assert_eq!(read.offset, 0);
    assert_eq!(read.get(0), 10);
    assert_eq!(read.get(1), 20);
    assert_eq!(read.get(2), 30);
    consumer.release(&mut ring, read);

    let empty = consumer.consume(&mut ring);
    assert_eq!(empty.len(), 0);
    assert!(empty.is_empty());
    assert_eq!(empty.offset, 3);
    consumer.release(&mut ring, empty);
}

#[test]
fn exact_end_fill_then_wrap() {
    let (mut ring, consumer, producers) = RingBuffer::<u64>::new(4, 1);
    let producer = &producers[0];

    // An exact fill of the whole buffer from a consumer hand at 0 is
    // refused: it would make the ring look empty and lose the data.
    assert!(producer.acquire(&mut ring, 4).is_none());

    let mut guard = producer.acquire(&mut ring, 2).unwrap();
    assert_eq!(guard.offset, 0);
    guard.push(1);
    guard.push(2);
    producer.produce(&mut ring, guard);
    let read = consumer.consume(&mut ring);
    assert_eq!(read.len(), 2);
    consumer.release(&mut ring, read);

    // Now the remaining two slots fill the buffer exactly to its end.
    let mut guard = producer.acquire(&mut ring, 2).unwrap();
    assert_eq!(guard.offset, 2);
    guard.push(3);
    guard.push(4);
    producer.produce(&mut ring, guard);

    let read = consumer.consume(&mut ring);
    assert_eq!(read.len(), 2);
    assert_eq!(read.offset, 2);
    assert_eq!(read.get(0), 3);
    assert_eq!(read.get(1), 4);
    consumer.release(&mut ring, read);

    // Releasing up to the physical end wrapped the consumer's hand to 0.
    assert_eq!(ring.written, 0);
    let guard = producer.acquire(&mut ring, 2).unwrap();
    assert_eq!(guard.offset, 0);
}

#[test]
fn wrap_with_pending_tail() {
    let (mut ring, consumer, producers) = RingBuffer::<u64>::new(8, 1);
    let producer = &producers[0];

    let mut guard = producer.acquire(&mut ring, 6).unwrap();
    for value in 1..=6u64 {
        guard.push(value);
    }
    producer.produce(&mut ring, guard);

    let mut read = consumer.consume(&mut ring);
    assert_eq!(read.len(), 6);
    read.release_fewer(5);
    consumer.release(&mut ring, read);

    // One value (at slot 5) is still pending; the next request does not fit
    // in the two slots before the physical end, so it wraps to slot 0 and
    // records where the pre-wrap data stops.
    let mut guard = producer.acquire(&mut ring, 4).unwrap();
    assert_eq!(guard.offset, 0);
    assert_eq!(ring.end, 6);
    for value in 7..=10u64 {
        guard.push(value);
    }
    producer.produce(&mut ring, guard);

    // The consumer first gets the pre-wrap tail, never a run that spans the
    // physical end.
    let read = consumer.consume(&mut ring);
    assert_eq!(read.len(), 1);
    assert_eq!(read.offset, 5);
    assert_eq!(read.get(0), 6);
    consumer.release(&mut ring, read);

    // With the tail drained, the consumer follows the wrap and the pending
    // stop is cleared.
    let read = consumer.consume(&mut ring);
    assert_eq!(read.offset, 0);
    assert_eq!(read.len(), 4);
    assert_eq!(read.get(0), 7);
    assert_eq!(read.get(3), 10);
    assert_eq!(ring.end, MAX_OFFSET);
    consumer.release(&mut ring, read);
}

#[test]
fn overtake_denied() {
    let (mut ring, consumer, producers) = RingBuffer::<u64>::new(4, 1);
    let producer = &producers[0];

    let mut guard = producer.acquire(&mut ring, 3).unwrap();
    assert_eq!(guard.offset, 0);
    guard.push(1);
    guard.push(2);
    guard.push(3);
    producer.produce(&mut ring, guard);

    // Without consumer progress nothing more fits: a wrap would reach the
    // consumer's hand at slot 0.
    assert!(producer.acquire(&mut ring, 3).is_none());
    assert!(producer.acquire(&mut ring, 1).is_none());

    let read = consumer.consume(&mut ring);
    assert_eq!(read.len(), 3);
    consumer.release(&mut ring, read);

    // With the hand at 3, the last slot can be had as an exact fill.
    let guard = producer.acquire(&mut ring, 1).unwrap();
    assert_eq!(guard.offset, 3);
}

#[test]
fn two_producers_interleaved() {
    let (mut ring, consumer, producers) = RingBuffer::<u64>::new(16, 2);
    let first = &producers[0];
    let second = &producers[1];

    let mut guard_a = first.acquire(&mut ring, 3).unwrap();
    let mut guard_b = second.acquire(&mut ring, 3).unwrap();
    let mut offsets = [guard_a.offset, guard_b.offset];
    offsets.sort();
    assert_eq!(offsets, [0, 3]);

    for value in 1..=3u64 {
        guard_a.push(value);
    }
    for value in 4..=6u64 {
        guard_b.push(value);
    }

    // Until both publish, nothing is ready: the scan stops at the earliest
    // live reservation.
    let read = consumer.consume(&mut ring);
    assert_eq!(read.len(), 0);
    consumer.release(&mut ring, read);

    second.produce(&mut ring, guard_b);
    let read = consumer.consume(&mut ring);
    assert_eq!(read.len(), 0);
    consumer.release(&mut ring, read);

    first.produce(&mut ring, guard_a);
    let read = consumer.consume(&mut ring);
    assert_eq!(read.len(), 6);
    assert_eq!(read.offset, 0);
    assert_eq!(read.get(0), 1);
    assert_eq!(read.get(3), 4);
    consumer.release(&mut ring, read);
}

#[test]
fn empty_consume_and_release_changes_nothing() {
    let (mut ring, consumer, producers) = RingBuffer::<u64>::new(8, 1);
    let producer = &producers[0];

    let mut guard = producer.acquire(&mut ring, 2).unwrap();
    guard.push(1);
    guard.push(2);
    producer.produce(&mut ring, guard);
    let read = consumer.consume(&mut ring);
    consumer.release(&mut ring, read);
    assert_eq!(ring.written, 2);

    // An empty run, released right away, moves nothing.
    let empty = consumer.consume(&mut ring);
    assert!(empty.is_empty());
    consumer.release(&mut ring, empty);
    assert_eq!(ring.written, 2);
}

#[test]
fn release_fewer_re_offers_the_rest() {
    let (mut ring, consumer, producers) = RingBuffer::<u64>::new(8, 1);
    let producer = &producers[0];

    let mut guard = producer.acquire(&mut ring, 4).unwrap();
    for value in [5, 6, 7, 8u64] {
        guard.push(value);
    }
    producer.produce(&mut ring, guard);

    let mut read = consumer.consume(&mut ring);
    assert_eq!(read.len(), 4);
    read.release_fewer(1);
    consumer.release(&mut ring, read);

    let read = consumer.consume(&mut ring);
    assert_eq!(read.offset, 1);
    assert_eq!(read.len(), 3);
    assert_eq!(read.get(0), 6);
    consumer.release(&mut ring, read);
}

#[test]
fn wrap_advances_the_counter_against_stale_words() {
    let (mut ring, consumer, producers) = RingBuffer::<u64>::new(4, 1);
    let producer = &producers[0];

    // A producer that stalled before the wrap would still hold this word.
    let stale_next = ring.next;

    let mut guard = producer.acquire(&mut ring, 2).unwrap();
    guard.push(1);
    guard.push(2);
    producer.produce(&mut ring, guard);
    let read = consumer.consume(&mut ring);
    consumer.release(&mut ring, read);

    // Exact fill to the end wraps: the offset field returns to 0, but the
    // wrap counter has moved on, so the stale word no longer matches and a
    // stalled compare-and-swap on it would fail.
    let mut guard = producer.acquire(&mut ring, 2).unwrap();
    guard.push(3);
    guard.push(4);
    producer.produce(&mut ring, guard);

    assert_eq!(
        mpsc_ring_buffer::offset::word_offset(ring.next),
        mpsc_ring_buffer::offset::word_offset(stale_next)
    );
    assert_ne!(ring.next, stale_next);
    assert_ne!(
        mpsc_ring_buffer::offset::word_counter(ring.next),
        mpsc_ring_buffer::offset::word_counter(stale_next)
    );
}

#[test]
fn repeatedly_acquire_moves_what_fits() {
    let (mut ring, consumer, producers) = RingBuffer::<u64>::new(4, 1);
    let producer = &producers[0];

    let mut values: Vec<u64> = vec![1, 2, 3, 4, 5, 6];
    producer.repeatedly_acquire_and_try_to_populate(&mut ring, &mut values);

    // Three slots fit (a fourth would catch the consumer); the rest stays,
    // and values are left behind only because even one slot is denied now.
    assert_eq!(values, vec![4, 5, 6]);
    assert!(producer.acquire(&mut ring, 1).is_none());

    let read = consumer.consume(&mut ring);
    assert_eq!(read.len(), 3);
    assert_eq!(read.offset, 0);
    assert_eq!(read.get(0), 1);
    assert_eq!(read.get(1), 2);
    assert_eq!(read.get(2), 3);
    consumer.release(&mut ring, read);

    let mut rest: Vec<u64> = vec![7];
    producer.repeatedly_acquire_and_try_to_populate(&mut ring, &mut rest);
    assert!(rest.is_empty());
}

#[test]
fn move_out_copies_a_prefix() {
    let (mut ring, consumer, producers) = RingBuffer::<u16>::new(8, 1);
    let producer = &producers[0];

    let mut guard = producer.acquire(&mut ring, 3).unwrap();
    guard.push(11);
    guard.push(22);
    guard.push(33);
    producer.produce(&mut ring, guard);

    let read = consumer.consume(&mut ring);
    assert_eq!(read.move_out(2), vec![11, 22]);
    assert_eq!(read.move_out(10), vec![11, 22, 33]);
    consumer.release(&mut ring, read);
}

#[test]
fn construction_hands_out_every_producer_once() {
    let (ring, _consumer, producers) = RingBuffer::<u32>::new(8, 3);
    assert_eq!(ring.capacity(), 8);
    assert_eq!(ring.number_of_producers(), 3);
    assert_eq!(producers.len(), 3);
    for (expected, producer) in producers.iter().enumerate() {
        assert_eq!(producer.producer_index, expected);
    }
    assert_eq!(ring.written, 0);
    assert_eq!(ring.end, MAX_OFFSET);
    assert_eq!(ring.next, 0);
}

#[test]
fn drain_preserves_every_value_in_order() {
    let (mut ring, consumer, producers) = RingBuffer::<u64>::new(5, 1);
    let producer = &producers[0];

    // Push 1..=20 through the small ring, draining between rounds, and
    // check that exactly the published sequence comes out, in order.
    let mut pending: Vec<u64> = (1..=20u64).collect();
    let mut collected: Vec<u64> = Vec::new();
    let mut rounds = 0;
    while collected.len() < 20 {
        producer.repeatedly_acquire_and_try_to_populate(&mut ring, &mut pending);
        loop {
            let read = consumer.consume(&mut ring);
            if read.is_empty() {
                consumer.release(&mut ring, read);
                break;
            }
            for k in 0..read.len() {
                collected.push(read.get(k));
            }
            consumer.release(&mut ring, read);
        }
        rounds += 1;
        assert!(rounds < 100);
    }

    assert!(pending.is_empty());
    let expected: Vec<u64> = (1..=20u64).collect();
    assert_eq!(collected, expected);
}

#[test]
fn aligned_empty_ring_grants_any_burst_below_capacity() {
    for count in 1..8usize {
        let (mut ring, _consumer, producers) = RingBuffer::<u64>::new(8, 1);
        let guard = producers[0].acquire(&mut ring, count).unwrap();
        assert_eq!(guard.offset, 0);
        assert_eq!(guard.len(), count);
    }
}

#[test]
fn unaligned_empty_ring_can_refuse_a_large_burst() {
    let (mut ring, consumer, producers) = RingBuffer::<u64>::new(8, 1);
    let producer = &producers[0];

    // Move both hands to slot 5 and leave the ring empty.
    let mut guard = producer.acquire(&mut ring, 5).unwrap();
    for value in 1..=5u64 {
        guard.push(value);
    }
    producer.produce(&mut ring, guard);
    let read = consumer.consume(&mut ring);
    consumer.release(&mut ring, read);
    assert_eq!(ring.written, 5);

    // Seven slots are free, but not seven contiguous ones: the run would
    // either cross the physical end or, wrapped, reach the consumer's hand.
    assert!(producer.acquire(&mut ring, 7).is_none());
    // Up to the physical end it works.
    let guard = producer.acquire(&mut ring, 3).unwrap();
    assert_eq!(guard.offset, 5);
}

#[test]
fn two_producers_across_a_wrap() {
    let (mut ring, consumer, producers) = RingBuffer::<u32>::new(6, 2);
    let first = &producers[0];
    let second = &producers[1];

    let mut guard = first.acquire(&mut ring, 4).unwrap();
    for value in [1, 2, 3, 4u32] {
        guard.push(value);
    }
    first.produce(&mut ring, guard);
    let read = consumer.consume(&mut ring);
    assert_eq!(read.len(), 4);
    consumer.release(&mut ring, read);

    // The first producer fills the remaining pre-wrap space exactly, then
    // the second one starts over at slot 0, behind the consumer's hand.
    let mut guard_a = first.acquire(&mut ring, 2).unwrap();
    assert_eq!(guard_a.offset, 4);
    let mut guard_b = second.acquire(&mut ring, 3).unwrap();
    assert_eq!(guard_b.offset, 0);
    for value in [7, 8, 9u32] {
        guard_b.push(value);
    }
    for value in [5, 6u32] {
        guard_a.push(value);
    }
    first.produce(&mut ring, guard_a);
    second.produce(&mut ring, guard_b);

    // Pre-wrap data first, then the wrapped region.
    let read = consumer.consume(&mut ring);
    assert_eq!(read.offset, 4);
    assert_eq!(read.len(), 2);
    assert_eq!(read.get(0), 5);
    assert_eq!(read.get(1), 6);
    consumer.release(&mut ring, read);

    let read = consumer.consume(&mut ring);
    assert_eq!(read.offset, 0);
    assert_eq!(read.len(), 3);
    assert_eq!(read.get(0), 7);
    assert_eq!(read.get(2), 9);
    consumer.release(&mut ring, read);
}

#[test]
fn two_producers_lose_nothing_across_many_rounds() {
    let (mut ring, consumer, producers) = RingBuffer::<u64>::new(7, 2);

    // Two producers alternate bursts of different sizes for several rounds;
    // afterwards every published value must have come out exactly once.
    let mut published: Vec<u64> = Vec::new();
    let mut collected: Vec<u64> = Vec::new();
    let mut next_value: u64 = 1;
    for round in 0..12usize {
        for (which, burst) in [(0usize, 1 + round % 3), (1usize, 1 + (round + 1) % 2)] {
            if let Some(mut guard) = producers[which].acquire(&mut ring, burst) {
                for _ in 0..burst {
                    guard.push(next_value);
                    published.push(next_value);
                    next_value += 1;
                }
                producers[which].produce(&mut ring, guard);
            }
        }
        loop {
            let read = consumer.consume(&mut ring);
            if read.is_empty() {
                consumer.release(&mut ring, read);
                break;
            }
            for k in 0..read.len() {
                collected.push(read.get(k));
            }
            consumer.release(&mut ring, read);
        }
    }

    let mut expected = published.clone();
    expected.sort();
    collected.sort();
    assert_eq!(collected, expected);
}
