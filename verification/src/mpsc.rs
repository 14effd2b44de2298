//! Multi-producer, single-consumer channel.

use vstd::prelude::*;

use crate::channel::{Channel, ChannelView};
use crate::errors::InvalidChannelSize;
use crate::guards::{WritePermitImpl, WritePermitsImpl};
use crate::receiver::{ReadRefImpl, ReadRefsImpl, ReceiverImpl};
use crate::ringbuffer::{RingBuffer, RingBufferMeta};
use crate::sender::SenderImpl;
use crate::sequencers::con_ex::ExclusiveConSeqGate;
use crate::sequencers::consumer::DefaultConsumerSequencer;
use crate::sequencers::pub_mul::{MultiPublisherSequencer, SharedState, SharedView};
use crate::sequencers::{CursorsView, Gates, GatesView, Sequencer};

verus! {

/// The sequencer of a sender.
pub type PublisherSequencer = MultiPublisherSequencer<ExclusiveConSeqGate>;

/// The sequencer of the receiver.
pub type ConsumerSequencer = DefaultConsumerSequencer<SharedState, ExclusiveConSeqGate>;

/// What the endpoints share.
pub type Shared<T> = Channel<Gates<SharedState, ExclusiveConSeqGate>, T>;

/// Sender for an MPSC channel.
pub type Sender<T> = SenderImpl<PublisherSequencer, T>;

/// Permit for writing a single item to an MPSC channel.
pub type WritePermit<'a, T, S> = WritePermitImpl<'a, T, S, PublisherSequencer>;

/// Permit for writing a batch of items to an MPSC channel.
pub type WritePermits<'a, T, S> = WritePermitsImpl<'a, T, S, PublisherSequencer>;

/// A receiver for the MPSC channel.
pub type Receiver<T> = ReceiverImpl<ConsumerSequencer, T>;

/// A read reference for a single value from the MPSC channel.
pub type ReadRef<'a, T> = ReadRefImpl<'a, T, ConsumerSequencer>;

/// A read reference for a batch of values from the MPSC channel.
pub type ReadRefs<'a, T> = ReadRefsImpl<'a, T, ConsumerSequencer>;

/// The channel over `slots` before anything is sent.
pub open spec fn fresh<T>(slots: Seq<T>) -> ChannelView<GatesView<SharedView, CursorsView>, T> {
    ChannelView {
        gates: GatesView {
            producer: SharedView::fresh(slots.len() as int),
            consumer: CursorsView::fresh(1),
        },
        slots,
    }
}

/// Creates a bounded MPSC channel using `T::default()` to initialize the ring.
///
/// `capacity` must be a power of two.
pub fn channel<T: Default>(capacity: usize) -> (made: Result<
    (Shared<T>, Sender<T>, Receiver<T>),
    InvalidChannelSize,
>)
    requires
        call_requires(T::default, ()),
    ensures
        match made {
            Ok((chan, sender, receiver)) => {
                &&& RingBufferMeta::valid_size(capacity as int)
                &&& chan.serves(&sender.publisher_sequencer)
                &&& chan.serves(&receiver.consumer_sequencer)
                &&& receiver.consumer_sequencer@ == 0
                &&& chan@ == fresh(chan@.slots)
                &&& chan@.slots.len() == capacity
                &&& forall|i: int|
                    0 <= i < capacity ==> call_ensures(T::default, (), #[trigger] chan@.slots[i])
            },
            Err(error) => {
                &&& !RingBufferMeta::valid_size(capacity as int)
                &&& error.capacity == capacity
            },
        },
{
    match InvalidChannelSize::validate(capacity) {
        Ok(()) => Ok(channel_with_ring(RingBuffer::init_with_default(capacity))),
        Err(error) => Err(error),
    }
}

/// Creates a bounded MPSC channel, initializing the ring buffer with `initializer`, which is
/// invoked once per slot.
///
/// `capacity` must be a power of two.
pub fn channel_with<T, I>(capacity: usize, initializer: I) -> (made: Result<
    (Shared<T>, Sender<T>, Receiver<T>),
    InvalidChannelSize,
>) where I: Fn() -> T
    requires
        call_requires(initializer, ()),
    ensures
        match made {
            Ok((chan, sender, receiver)) => {
                &&& RingBufferMeta::valid_size(capacity as int)
                &&& chan.serves(&sender.publisher_sequencer)
                &&& chan.serves(&receiver.consumer_sequencer)
                &&& receiver.consumer_sequencer@ == 0
                &&& chan@ == fresh(chan@.slots)
                &&& chan@.slots.len() == capacity
                &&& forall|i: int|
                    0 <= i < capacity ==> call_ensures(initializer, (), #[trigger] chan@.slots[i])
            },
            Err(error) => {
                &&& !RingBufferMeta::valid_size(capacity as int)
                &&& error.capacity == capacity
            },
        },
{
    match InvalidChannelSize::validate(capacity) {
        Ok(()) => {
            let make = &initializer;
            let fill = |_index: usize| -> (value: T)
                requires
                    call_requires(*make, ())
                ensures
                    call_ensures(*make, (), value)
                { (*make)() };
            Ok(channel_with_ring(RingBuffer::init_with(capacity, fill)))
        },
        Err(error) => Err(error),
    }
}

/// The channel over `ring_buffer` with its two endpoints.
fn channel_with_ring<T>(ring_buffer: RingBuffer<T>) -> (made: (Shared<T>, Sender<T>, Receiver<T>))
    requires
        ring_buffer.wf(),
    ensures
        made.0.serves(&made.1.publisher_sequencer),
        made.0.serves(&made.2.consumer_sequencer),
        made.2.consumer_sequencer@ == 0,
        made.0@ == fresh(ring_buffer@),
{
    let ring_meta = ring_buffer.meta();
    let gates = Gates {
        producer: SharedState::new(ring_meta),
        consumer: ExclusiveConSeqGate::new(),
    };
    let sender = SenderImpl::new(MultiPublisherSequencer::new(ring_meta));
    let receiver = ReceiverImpl::new(DefaultConsumerSequencer::new(0, ring_meta));
    (Channel { gates, ring_buffer }, sender, receiver)
}

} // verus!
