//! Multi-producer, multi-consumer channel with a choice of how its slots are initialized.

use vstd::prelude::*;

use crate::queue::mpmc::{channel_with_ring, Receiver, Sender, Shared};
use crate::ringbuffer::{RingBuffer, RingBufferMeta};
use crate::sequencers::Sequencer;

verus! {

/// Creates a bounded channel using `T::default()` to initialize the ring.
///
/// `capacity` is a power of two.
pub fn channel<T>(capacity: usize) -> (made: (Shared<T>, Sender<T>, Receiver<T>)) where T: Default
    requires
        RingBufferMeta::valid_size(capacity as int),
        call_requires(T::default, ()),
    ensures
        made.0.serves(&made.1.inner.publisher_sequencer),
        made.0.serves(&made.2.inner.consumer_sequencer),
        made.0@ == crate::queue::mpmc::fresh(made.0@.slots),
        made.0@.slots.len() == capacity,
        forall|i: int|
            0 <= i < capacity ==> call_ensures(T::default, (), #[trigger] made.0@.slots[i]),
{
    channel_with_ring(RingBuffer::init_with_default(capacity))
}

/// Creates a bounded channel, initializing each slot of the ring with what `initializer` makes of
/// its index.
///
/// `capacity` is a power of two.
pub fn channel_with<T, I>(capacity: usize, initializer: I) -> (made: (
    Shared<T>,
    Sender<T>,
    Receiver<T>,
)) where
    I: Copy + FnOnce(usize) -> T,

    requires
        RingBufferMeta::valid_size(capacity as int),
        forall|i: usize| i < capacity ==> call_requires(initializer, (i,)),
    ensures
        made.0.serves(&made.1.inner.publisher_sequencer),
        made.0.serves(&made.2.inner.consumer_sequencer),
        made.0@ == crate::queue::mpmc::fresh(made.0@.slots),
        made.0@.slots.len() == capacity,
        forall|i: int|
            0 <= i < capacity ==> call_ensures(
                initializer,
                (i as usize,),
                #[trigger] made.0@.slots[i],
            ),
{
    channel_with_ring(RingBuffer::init_with(capacity, initializer))
}

} // verus!
