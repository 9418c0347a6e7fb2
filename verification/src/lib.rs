//! A multi-producer, single-consumer ring buffer that hands out contiguous
//! bursts of fixed-size elements.
//!
//! Producers reserve a contiguous run of slots with [`RingBufferProducer::acquire`],
//! fill the reservation, and publish it with [`RingBufferProducer::produce`].
//! The single consumer drains the longest contiguous run that is known complete
//! with [`RingBufferConsumer::consume`] and hands the space back with
//! [`RingBufferConsumer::release`].
//!
//! The coordination state is a 64-bit offset word per shared hand: the low
//! 32 bits carry a slot offset, bits 32..63 a wrap counter, and bit 63 a wrap
//! lock.  The protocol is verified over a [`RingBuffer`] value that owns all
//! of this state; well-formedness ([`RingBuffer::wf`]) ties every producer's
//! pending reservation, the pending wrap region, and the consumer's window
//! together, and every operation is proved to preserve it.

pub mod backoff;
pub mod consumer;
pub mod laws;
pub mod offset;
pub mod producer;
pub mod producer_iterator;
pub mod ring;

pub use consumer::RingBufferConsumer;
pub use consumer::RingBufferConsumerGuard;
pub use producer::RingBufferProducer;
pub use producer::RingBufferProducerGuard;
pub use producer_iterator::RingBufferProducerIterator;
pub use ring::RingBuffer;
pub use ring::Reservation;

pub use offset::MAX_OFFSET;
pub use offset::OFFSET_MASK;
pub use offset::WRAP_COUNTER_MASK;
pub use offset::WRAP_COUNTER_TICK;
pub use offset::WRAP_LOCK_BIT;
pub use offset::WRAP_LOCK_MASK;
