use mpsc_ring_buffer::backoff::SpinLockBackOff;
use mpsc_ring_buffer::offset::advance_wrap_counter;
use mpsc_ring_buffer::offset::word_counter;
use mpsc_ring_buffer::offset::word_locked;
use mpsc_ring_buffer::offset::word_offset;
use mpsc_ring_buffer::RingBufferProducerIterator;
use mpsc_ring_buffer::MAX_OFFSET;
use mpsc_ring_buffer::OFFSET_MASK;
use mpsc_ring_buffer::WRAP_COUNTER_MASK;
use mpsc_ring_buffer::WRAP_COUNTER_TICK;
use mpsc_ring_buffer::WRAP_LOCK_BIT;
use mpsc_ring_buffer::WRAP_LOCK_MASK;

#[test]
fn offset_word_fields() {
    let word: u64 = WRAP_LOCK_BIT | (7 << 32) | 0x1234;
    assert_eq!(word_offset(word), 0x1234);
    assert_eq!(word_counter(word), 7 << 32);
    assert!(word_locked(word));
    assert!(!word_locked(word & WRAP_LOCK_MASK));
    assert_eq!(word_offset(MAX_OFFSET), OFFSET_MASK);
    assert!(!word_locked(MAX_OFFSET));
}

#[test]
fn wrap_counter_advances_and_wraps_in_its_field() {
    assert_eq!(advance_wrap_counter(0), WRAP_COUNTER_TICK);
    let word: u64 = (3 << 32) | 42;
    let advanced = advance_wrap_counter(word);
    assert_eq!(advanced, 4 << 32);
    assert_eq!(word_offset(advanced), 0);
    assert!(!word_locked(advanced));
    // At the top of its field the counter rolls over to zero without
    // touching the other fields.
    assert_eq!(advance_wrap_counter(WRAP_COUNTER_MASK | 9), 0);
}

#[test]
fn back_off_doubles_to_the_ceiling() {
    let mut backoff = SpinLockBackOff::initial();
    assert_eq!(backoff.count, 4);
    assert_eq!(SpinLockBackOff::default().count, 4);
    for want in [8u8, 16, 32, 64, 128, 128, 128] {
        backoff.back_off();
        assert_eq!(backoff.count, want);
    }
}

#[test]
fn producer_iterator_hands_out_each_index_once() {
    let mut iterator = RingBufferProducerIterator::new(3);
    assert_eq!(iterator.next().unwrap().producer_index, 0);
    assert_eq!(iterator.next().unwrap().producer_index, 1);
    assert_eq!(iterator.next().unwrap().producer_index, 2);
    assert!(iterator.next().is_none());
    assert!(iterator.next().is_none());
}
