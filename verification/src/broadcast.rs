//! Broadcast to a fixed number of receivers, with batches made by a factory.

use vstd::prelude::*;

use crate::consumers::{Consumer, ReadGuard, ReadIter};
use crate::fanout::{ConsumerSequencer, PublisherSequencer, Shared};
use crate::publisher::Publisher;
use crate::ringbuffer::{RingBuffer, RingBufferMeta};
use crate::sequencers::Sequencer;

verus! {

/// A sending endpoint.
pub type Sender<T, const N: usize> = crate::channel_api::Sender<PublisherSequencer<N>, T>;

/// A batch of reserved slots.
pub type SendBatch<'a, T, S, const N: usize> = crate::permit::SendBatch<
    'a,
    PublisherSequencer<N>,
    T,
    S,
>;

/// A receiving endpoint.
pub type Receiver<T, const N: usize> = crate::channel_api::Receiver<ConsumerSequencer<N>, T>;

/// A received item.
pub type RecvGuard<'a, T, const N: usize> = ReadGuard<'a, ConsumerSequencer<N>, T>;

/// A received batch.
pub type RecvIter<'a, T, const N: usize> = ReadIter<'a, ConsumerSequencer<N>, T>;

/// Whether `receivers` are the `N` receivers of the channel, in order.
pub open spec fn complete<const N: usize, T>(
    chan: &Shared<N, T>,
    receivers: Seq<Receiver<T, N>>,
) -> bool {
    &&& receivers.len() == N
    &&& forall|i: int|
        0 <= i < N ==> {
            &&& chan.serves(&(#[trigger] receivers[i]).inner.consumer_sequencer)
            &&& receivers[i].inner.consumer_sequencer@ == i
        }
}

/// Creates a bounded channel with `N` receivers using `T::default()` to initialize the ring.
///
/// `capacity` is a power of two.
pub fn channel<T, const N: usize>(capacity: usize) -> (made: (
    Shared<N, T>,
    Sender<T, N>,
    Vec<Receiver<T, N>>,
)) where T: Default
    requires
        RingBufferMeta::valid_size(capacity as int),
        call_requires(T::default, ()),
    ensures
        made.0.serves(&made.1.inner.publisher_sequencer),
        complete(&made.0, made.2@),
        made.0@ == crate::fanout::fresh(N as int, made.0@.slots),
        made.0@.slots.len() == capacity,
        forall|i: int|
            0 <= i < capacity ==> call_ensures(T::default, (), #[trigger] made.0@.slots[i]),
{
    channel_with_ring(RingBuffer::init_with_default(capacity))
}

/// Creates a bounded channel with `N` receivers, initializing each slot of the ring with what
/// `initializer` makes of its index.
///
/// `capacity` is a power of two.
pub fn channel_with<T, I, const N: usize>(capacity: usize, initializer: I) -> (made: (
    Shared<N, T>,
    Sender<T, N>,
    Vec<Receiver<T, N>>,
)) where
    I: Copy + FnOnce(usize) -> T,

    requires
        RingBufferMeta::valid_size(capacity as int),
        forall|i: usize| i < capacity ==> call_requires(initializer, (i,)),
    ensures
        made.0.serves(&made.1.inner.publisher_sequencer),
        complete(&made.0, made.2@),
        made.0@ == crate::fanout::fresh(N as int, made.0@.slots),
        made.0@.slots.len() == capacity,
        forall|i: int|
            0 <= i < capacity ==> call_ensures(
                initializer,
                (i as usize,),
                #[trigger] made.0@.slots[i],
            ),
{
    channel_with_ring(RingBuffer::init_with(capacity, initializer))
}

/// The channel over `ring_buffer` with its endpoints.
fn channel_with_ring<T, const N: usize>(ring_buffer: RingBuffer<T>) -> (made: (
    Shared<N, T>,
    Sender<T, N>,
    Vec<Receiver<T, N>>,
))
    requires
        ring_buffer.wf(),
    ensures
        made.0.serves(&made.1.inner.publisher_sequencer),
        complete(&made.0, made.2@),
        made.0@ == crate::fanout::fresh(N as int, made.0@.slots),
        made.0@.slots == ring_buffer@,
{
    let (chan, sender, fans) = crate::fanout::channel_with_ring::<N, T>(ring_buffer);
    let mut receivers: Vec<Receiver<T, N>> = Vec::new();
    for fan in it: fans
        invariant
            crate::fanout::complete(&chan, it.seq()),
            receivers@.len() == it.index(),
            forall|i: int|
                0 <= i < receivers@.len() ==> {
                    &&& chan.serves(&(#[trigger] receivers@[i]).inner.consumer_sequencer)
                    &&& receivers@[i].inner.consumer_sequencer@ == i
                },
    {
        assert(chan.serves(&it.seq()[it.index() as int].consumer_sequencer));
        receivers.push(crate::channel_api::Receiver { inner: Consumer::new(fan.consumer_sequencer) });
    }
    (
        chan,
        crate::channel_api::Sender { inner: Publisher::new(sender.publisher_sequencer) },
        receivers,
    )
}

} // verus!
