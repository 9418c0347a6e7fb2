//! Hands out the producer handles one by one.

use vstd::prelude::*;

use crate::producer::RingBufferProducer;

verus! {

/// Hands out producer handles with indices `0 ..` until the number it was
/// created for is exhausted.  Each index comes out exactly once.
pub struct RingBufferProducerIterator {
    /// Index of the next handle to hand out.
    pub next_producer_index: usize,
    /// How many handles are still to hand out.
    pub producers_to_iterate: usize,
}

impl RingBufferProducerIterator {
    /// An iterator over `number_of_producers` fresh producer handles.
    pub fn new(number_of_producers: usize) -> (r: Self)
        ensures
            r.next_producer_index == 0,
            r.producers_to_iterate == number_of_producers,
    {
        RingBufferProducerIterator {
            next_producer_index: 0,
            producers_to_iterate: number_of_producers,
        }
    }

    /// The next producer handle, or `None` when all have been handed out.
    pub fn next(&mut self) -> (r: Option<RingBufferProducer>)
        requires
            old(self).next_producer_index + old(self).producers_to_iterate
                <= usize::MAX,
        ensures
            old(self).producers_to_iterate == 0 ==> r is None && *final(self) == *old(
                self,
            ),
            old(self).producers_to_iterate > 0 ==> {
                &&& r is Some
                &&& r->Some_0.producer_index == old(self).next_producer_index
                &&& final(self).next_producer_index == old(self).next_producer_index
                    + 1
                &&& final(self).producers_to_iterate == old(self).producers_to_iterate
                    - 1
            },
    {
        if self.producers_to_iterate == 0 {
            return None;
        }
        self.producers_to_iterate = self.producers_to_iterate - 1;
        let producer_index = self.next_producer_index;
        self.next_producer_index = self.next_producer_index + 1;
        Some(RingBufferProducer { producer_index })
    }
}

} // verus!
