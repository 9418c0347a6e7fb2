//! Bounded exponential backoff for spin loops.
//!
//! Callers that observe an unstable offset word (wrap lock bit set) pause for
//! a growing number of CPU pause hints between retries.  The count starts at
//! 4 and doubles on every call until it reaches the ceiling of 128.

use vstd::prelude::*;

verus! {

/// The pause count a fresh backoff starts from.
pub const INITIAL_BACK_OFF: u8 = 4;

/// The pause count never grows past this ceiling.
pub const MAXIMUM_BACK_OFF: u8 = 128;

/// Relies on std::hint::spin_loop: emits a CPU pause hint and returns;
/// it has no observable effect on any value.
#[verifier::external_body]
fn cpu_pause() {
    std::hint::spin_loop()
}

/// Exponential backoff state for the two spin loops of the protocol.
pub struct SpinLockBackOff {
    /// How many pause hints the next `back_off` call issues.
    pub count: u8,
}

impl SpinLockBackOff {
    /// The count stays a power of two between the start value and the ceiling.
    pub open spec fn wf(self) -> bool {
        ||| self.count == 4
        ||| self.count == 8
        ||| self.count == 16
        ||| self.count == 32
        ||| self.count == 64
        ||| self.count == 128
    }

    /// A fresh backoff, ready to pause for the initial count.
    pub fn initial() -> (r: Self)
        ensures
            r.wf(),
            r.count == INITIAL_BACK_OFF,
    {
        SpinLockBackOff { count: INITIAL_BACK_OFF }
    }

    /// Issues `count` CPU pause hints, then doubles the count, saturating at
    /// the ceiling.
    pub fn back_off(&mut self)
        requires
            old(self).wf(),
        ensures
            final(self).wf(),
            final(self).count == if old(self).count < MAXIMUM_BACK_OFF {
                (2 * old(self).count) as u8
            } else {
                old(self).count
            },
    {
        let original_count = self.count;
        let mut i = original_count;
        while i != 0
            invariant
                i <= original_count,
            decreases i,
        {
            cpu_pause();
            i = i - 1;
        }

        if original_count < MAXIMUM_BACK_OFF {
            self.count = original_count + original_count;
        }
    }
}

impl Default for SpinLockBackOff {
    /// The default backoff starts at the initial count.
    fn default() -> (r: Self)
        ensures
            r.wf(),
            r.count == INITIAL_BACK_OFF,
    {
        SpinLockBackOff { count: INITIAL_BACK_OFF }
    }
}

} // verus!
