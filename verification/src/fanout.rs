//! Lossless fan-out to a fixed number of receivers: each receiver sees every item.

use vstd::prelude::*;

use crate::channel::{Channel, ChannelView};
use crate::errors::InvalidChannelSize;
use crate::guards::{WritePermitImpl, WritePermitsImpl};
use crate::receiver::{ReadRefImpl, ReadRefsImpl, ReceiverImpl};
use crate::ringbuffer::{RingBuffer, RingBufferMeta};
use crate::sender::SenderImpl;
use crate::sequencers::con_fanout::FanoutConSeqGate;
use crate::sequencers::consumer::DefaultConsumerSequencer;
use crate::sequencers::pub_mul::{MultiPublisherSequencer, SharedState, SharedView};
use crate::sequencers::{CursorsView, Gates, GatesView, Sequencer};

verus! {

/// The sequencer of a sender.
pub type PublisherSequencer<const N: usize> = MultiPublisherSequencer<FanoutConSeqGate<N>>;

/// The sequencer of a receiver.
pub type ConsumerSequencer<const N: usize> = DefaultConsumerSequencer<
    SharedState,
    FanoutConSeqGate<N>,
>;

/// What the endpoints share.
pub type Shared<const N: usize, T> = Channel<Gates<SharedState, FanoutConSeqGate<N>>, T>;

/// A fan-out channel sender that can send items to multiple receivers.
pub type Sender<const N: usize, T> = SenderImpl<PublisherSequencer<N>, T>;

/// A fan-out channel permit for writing a single item to the channel.
pub type WritePermit<'a, const N: usize, T, S> = WritePermitImpl<'a, T, S, PublisherSequencer<N>>;

/// A batch of reserved slots for writing multiple consecutive items to a fan-out channel.
pub type WritePermits<'a, const N: usize, T, S> = WritePermitsImpl<'a, T, S, PublisherSequencer<N>>;

/// A receiver for a fan-out channel.
pub type Receiver<const N: usize, T> = ReceiverImpl<ConsumerSequencer<N>, T>;

/// A read reference for a fan-out channel.
pub type ReadRef<'a, const N: usize, T> = ReadRefImpl<'a, T, ConsumerSequencer<N>>;

/// A read reference for a batch of values for a fan-out channel.
pub type ReadRefs<'a, const N: usize, T> = ReadRefsImpl<'a, T, ConsumerSequencer<N>>;

/// The channel over `slots` with `n` receivers before anything is sent.
pub open spec fn fresh<T>(n: int, slots: Seq<T>) -> ChannelView<
    GatesView<SharedView, CursorsView>,
    T,
> {
    ChannelView {
        gates: GatesView {
            producer: SharedView::fresh(slots.len() as int),
            consumer: CursorsView::fresh(n),
        },
        slots,
    }
}

/// Whether `receivers` are the `N` receivers of the channel, in order.
pub open spec fn complete<const N: usize, T>(
    chan: &Shared<N, T>,
    receivers: Seq<Receiver<N, T>>,
) -> bool {
    &&& receivers.len() == N
    &&& forall|i: int|
        0 <= i < N ==> {
            &&& chan.serves(&(#[trigger] receivers[i]).consumer_sequencer)
            &&& receivers[i].consumer_sequencer@ == i
        }
}

/// Creates a bounded fan-out channel with `N` receivers, using `T::default()` to initialize
/// the ring.
///
/// `capacity` must be a power of two.
pub fn channel<const N: usize, T: Default>(capacity: usize) -> (made: Result<
    (Shared<N, T>, Sender<N, T>, Vec<Receiver<N, T>>),
    InvalidChannelSize,
>)
    requires
        call_requires(T::default, ()),
    ensures
        match made {
            Ok((chan, sender, receivers)) => {
                &&& RingBufferMeta::valid_size(capacity as int)
                &&& chan.serves(&sender.publisher_sequencer)
                &&& complete(&chan, receivers@)
                &&& chan@ == fresh(N as int, chan@.slots)
                &&& chan@.slots.len() == capacity
                &&& forall|i: int|
                    0 <= i < capacity ==> call_ensures(T::default, (), #[trigger] chan@.slots[i])
            },
            Err(error) => {
                &&& !RingBufferMeta::valid_size(capacity as int)
                &&& error.capacity == capacity
            },
        },
{
    match InvalidChannelSize::validate(capacity) {
        Ok(()) => Ok(channel_with_ring(RingBuffer::init_with_default(capacity))),
        Err(error) => Err(error),
    }
}

/// Creates a bounded fan-out channel with `N` receivers, initializing the ring buffer with
/// `initializer`, which is invoked once per slot.
///
/// `capacity` must be a power of two.
pub fn channel_with<const N: usize, T, I>(capacity: usize, initializer: I) -> (made: Result<
    (Shared<N, T>, Sender<N, T>, Vec<Receiver<N, T>>),
    InvalidChannelSize,
>) where I: Fn() -> T
    requires
        call_requires(initializer, ()),
    ensures
        match made {
            Ok((chan, sender, receivers)) => {
                &&& RingBufferMeta::valid_size(capacity as int)
                &&& chan.serves(&sender.publisher_sequencer)
                &&& complete(&chan, receivers@)
                &&& chan@ == fresh(N as int, chan@.slots)
                &&& chan@.slots.len() == capacity
                &&& forall|i: int|
                    0 <= i < capacity ==> call_ensures(initializer, (), #[trigger] chan@.slots[i])
            },
            Err(error) => {
                &&& !RingBufferMeta::valid_size(capacity as int)
                &&& error.capacity == capacity
            },
        },
{
    match InvalidChannelSize::validate(capacity) {
        Ok(()) => {
            let make = &initializer;
            let fill = |_index: usize| -> (value: T)
                requires
                    call_requires(*make, ())
                ensures
                    call_ensures(*make, (), value)
                { (*make)() };
            Ok(channel_with_ring(RingBuffer::init_with(capacity, fill)))
        },
        Err(error) => Err(error),
    }
}

/// The channel over `ring_buffer` with its endpoints.
pub fn channel_with_ring<const N: usize, T>(ring_buffer: RingBuffer<T>) -> (made: (
    Shared<N, T>,
    Sender<N, T>,
    Vec<Receiver<N, T>>,
))
    requires
        ring_buffer.wf(),
    ensures
        made.0.serves(&made.1.publisher_sequencer),
        complete(&made.0, made.2@),
        made.0@ == fresh(N as int, ring_buffer@),
{
    let ring_meta = ring_buffer.meta();
    let gates = Gates {
        producer: SharedState::new(ring_meta),
        consumer: FanoutConSeqGate::<N>::new(),
    };
    let sender = SenderImpl::new(MultiPublisherSequencer::new(ring_meta));
    let chan = Channel { gates, ring_buffer };
    let mut receivers: Vec<Receiver<N, T>> = Vec::new();
    while receivers.len() < N
        invariant
            ring_meta.wf(),
            ring_meta.capacity() == chan@.slots.len(),
            chan.gates.inv(),
            chan.ring_buffer.wf(),
            chan@ == fresh(N as int, chan@.slots),
            receivers@.len() <= N,
            forall|i: int|
                0 <= i < receivers@.len() ==> {
                    &&& chan.serves(&(#[trigger] receivers@[i]).consumer_sequencer)
                    &&& receivers@[i].consumer_sequencer@ == i
                },
        decreases N - receivers@.len(),
    {
        receivers.push(ReceiverImpl::new(DefaultConsumerSequencer::new(receivers.len(), ring_meta)));
    }
    (chan, sender, receivers)
}

} // verus!
