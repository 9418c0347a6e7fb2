//! Arithmetic on 64-bit offset words.
//!
//! An offset word packs three fields into one machine word:
//! bits 0..32 hold a slot offset, bits 32..63 hold a wrap counter that
//! defends against ABA during wrap-around, and bit 63 is the wrap lock bit,
//! set while a producer is in the middle of a wrap.

use vstd::prelude::*;

verus! {

/// Mask selecting the offset field (bits 0..32) of an offset word.
pub const OFFSET_MASK: u64 = 0x0000_0000_FFFF_FFFF;

/// Mask selecting the wrap counter field (bits 32..63) of an offset word.
pub const WRAP_COUNTER_MASK: u64 = 0x7FFF_FFFF_0000_0000;

/// The wrap lock bit (bit 63), set while a producer is performing a wrap.
pub const WRAP_LOCK_BIT: u64 = 0x8000_0000_0000_0000;

/// Every bit except the wrap lock bit.
pub const WRAP_LOCK_MASK: u64 = 0x7FFF_FFFF_FFFF_FFFF;

/// Sentinel offset word: every bit except the lock bit.  A producer whose
/// `seen` word equals this value holds no reservation.
pub const MAX_OFFSET: u64 = 0x7FFF_FFFF_FFFF_FFFF;

/// The increment that advances the wrap counter by one.
pub const WRAP_COUNTER_TICK: u64 = 0x0000_0001_0000_0000;

/// The offset field of a word.
pub open spec fn offset_part(word: u64) -> u64 {
    word & OFFSET_MASK
}

/// The wrap counter field of a word (still shifted into bits 32..63).
pub open spec fn counter_part(word: u64) -> u64 {
    word & WRAP_COUNTER_MASK
}

/// Whether the wrap lock bit is set.
pub open spec fn lock_bit_set(word: u64) -> bool {
    word & WRAP_LOCK_BIT != 0u64
}

/// The wrap counter as a plain number in `0 .. 0x8000_0000`.
pub open spec fn counter_value(word: u64) -> u64 {
    (word & WRAP_COUNTER_MASK) >> 32u64
}

/// Extracts the offset field.
pub fn word_offset(word: u64) -> (r: u64)
    ensures
        r == offset_part(word),
        r <= OFFSET_MASK,
{
    proof {
        assert(word & OFFSET_MASK <= OFFSET_MASK) by (bit_vector);
    }
    word & OFFSET_MASK
}

/// Extracts the wrap counter field, still in place in bits 32..63.
pub fn word_counter(word: u64) -> (r: u64)
    ensures
        r == counter_part(word),
{
    word & WRAP_COUNTER_MASK
}

/// Whether the word carries the wrap lock bit.
pub fn word_locked(word: u64) -> (r: bool)
    ensures
        r == lock_bit_set(word),
{
    word & WRAP_LOCK_BIT != 0
}

/// Advances the wrap counter field of `word` by one tick, wrapping inside its
/// own field, and returns only the counter bits of the result.
pub fn advance_wrap_counter(word: u64) -> (r: u64)
    requires
        !lock_bit_set(word),
    ensures
        r == counter_part((word + WRAP_COUNTER_TICK) as u64),
        counter_part(r) == r,
        offset_part(r) == 0u64,
        !lock_bit_set(r),
        counter_value(r) == (counter_value(word) + 1) % 0x8000_0000,
{
    proof {
        assert(word & WRAP_LOCK_BIT == 0u64 ==> word <= WRAP_LOCK_MASK) by (bit_vector);
        assert(word <= WRAP_LOCK_MASK ==> word + WRAP_COUNTER_TICK <= u64::MAX) by (bit_vector);
        let s: u64 = (word + WRAP_COUNTER_TICK) as u64;
        assert(
            (s & WRAP_COUNTER_MASK) & WRAP_COUNTER_MASK == s & WRAP_COUNTER_MASK
            && (s & WRAP_COUNTER_MASK) & OFFSET_MASK == 0u64
            && (s & WRAP_COUNTER_MASK) & WRAP_LOCK_BIT == 0u64
        ) by (bit_vector);
        assert(
            word & WRAP_LOCK_BIT == 0u64
                ==> ((((word + WRAP_COUNTER_TICK) as u64) & WRAP_COUNTER_MASK) >> 32u64)
                    == (((word & WRAP_COUNTER_MASK) >> 32u64) + 1) % 0x8000_0000
        ) by (bit_vector);
    }
    (word + WRAP_COUNTER_TICK) & WRAP_COUNTER_MASK
}

/// Combining an offset below the mask with pure counter bits leaves both
/// fields readable and the lock bit clear.
pub proof fn lemma_word_compose(off: u64, ctr: u64)
    by (bit_vector)
    requires
        off <= OFFSET_MASK,
        ctr & WRAP_COUNTER_MASK == ctr,
    ensures
        (off | ctr) & OFFSET_MASK == off,
        (off | ctr) & WRAP_COUNTER_MASK == ctr,
        (off | ctr) & WRAP_LOCK_BIT == 0u64,
{
}

/// Setting the lock bit hides neither field, and clearing it again through
/// `WRAP_LOCK_MASK` restores the original word.
pub proof fn lemma_lock_roundtrip(word: u64)
    by (bit_vector)
    requires
        word & WRAP_LOCK_BIT == 0u64,
    ensures
        (word | WRAP_LOCK_BIT) & OFFSET_MASK == word & OFFSET_MASK,
        (word | WRAP_LOCK_BIT) & WRAP_COUNTER_MASK == word & WRAP_COUNTER_MASK,
        (word | WRAP_LOCK_BIT) & WRAP_LOCK_BIT != 0u64,
        (word | WRAP_LOCK_BIT) & WRAP_LOCK_MASK == word,
{
}

/// The counter field of a word with the lock bit clear distinguishes the word
/// from its own successor: after one tick the two words differ, so a stale
/// word saved before a wrap can never equal the word after it.
pub proof fn lemma_counter_tick_distinguishes(word: u64)
    by (bit_vector)
    requires
        word & WRAP_LOCK_BIT == 0u64,
        ((word & WRAP_COUNTER_MASK) >> 32u64) != 0x7FFF_FFFFu64,
    ensures
        counter_part((word + WRAP_COUNTER_TICK) as u64) != counter_part(word),
{
}

} // verus!
