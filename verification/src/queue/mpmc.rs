//! Multi-producer, multi-consumer channel: each item is delivered to one receiver.

use vstd::prelude::*;

use crate::channel::{Channel, ChannelView};
use crate::consumers::{Consumer, ReadGuard, ReadIter};
use crate::publisher::Publisher;
use crate::ringbuffer::{RingBuffer, RingBufferMeta};
use crate::sequencers::con_queue::{QueuedConsumerSequencer, QueuedSharedState, QueuedView};
use crate::sequencers::pub_mul::{MultiPublisherSequencer, SharedState, SharedView};
use crate::sequencers::{Gates, GatesView, ProducerBarrier, Sequencer};

verus! {

/// The sequencer of a sender.
pub type PublisherSequencer = MultiPublisherSequencer<QueuedSharedState>;

/// The sequencer of a receiver.
pub type ConsumerSequencer = QueuedConsumerSequencer<SharedState>;

/// What the endpoints share.
pub type Shared<T> = Channel<Gates<SharedState, QueuedSharedState>, T>;

/// A sending endpoint.
pub type Sender<T> = crate::channel_api::Sender<PublisherSequencer, T>;

/// A batch of reserved slots.
pub type SendBatch<'a, T, S> = crate::permit::SendBatch<'a, PublisherSequencer, T, S>;

/// A receiving endpoint.
pub type Receiver<T> = crate::channel_api::Receiver<ConsumerSequencer, T>;

/// A received item.
pub type RecvGuard<'a, T> = ReadGuard<'a, ConsumerSequencer, T>;

/// A received batch.
pub type RecvIter<'a, T> = ReadIter<'a, ConsumerSequencer, T>;

/// The channel over `slots` before anything is sent.
pub open spec fn fresh<T>(slots: Seq<T>) -> ChannelView<GatesView<SharedView, QueuedView>, T> {
    ChannelView {
        gates: GatesView {
            producer: SharedView::fresh(slots.len() as int),
            consumer: QueuedView::fresh(slots.len() as int),
        },
        slots,
    }
}

/// Creates a bounded channel using `T::default()` to initialize the ring.
///
/// `capacity` is a power of two.
pub fn channel<T>(capacity: usize) -> (made: (Shared<T>, Sender<T>, Receiver<T>)) where T: Default
    requires
        RingBufferMeta::valid_size(capacity as int),
        call_requires(T::default, ()),
    ensures
        made.0.serves(&made.1.inner.publisher_sequencer),
        made.0.serves(&made.2.inner.consumer_sequencer),
        made.0@ == fresh(made.0@.slots),
        made.0@.slots.len() == capacity,
        forall|i: int|
            0 <= i < capacity ==> call_ensures(T::default, (), #[trigger] made.0@.slots[i]),
{
    channel_with_ring(RingBuffer::init_with_default(capacity))
}

/// The channel over `ring_buffer` with one endpoint on each side.
pub fn channel_with_ring<T>(ring_buffer: RingBuffer<T>) -> (made: (
    Shared<T>,
    Sender<T>,
    Receiver<T>,
))
    requires
        ring_buffer.wf(),
    ensures
        made.0.serves(&made.1.inner.publisher_sequencer),
        made.0.serves(&made.2.inner.consumer_sequencer),
        made.0@ == fresh(made.0@.slots),
        made.0@.slots == ring_buffer@,
{
    let ring_meta = ring_buffer.meta();
    let gates = Gates {
        producer: SharedState::new(ring_meta),
        consumer: QueuedSharedState::new(ring_meta),
    };
    proof {
        gates.producer.lemma_sound();
        assert(gates@.producer.progress().reachable(-1));
    }
    let publisher = Publisher::new(MultiPublisherSequencer::new(ring_meta));
    let consumer = Consumer::new(QueuedConsumerSequencer::new(ring_meta));
    (
        Channel { gates, ring_buffer },
        crate::channel_api::Sender { inner: publisher },
        crate::channel_api::Receiver { inner: consumer },
    )
}

} // verus!
