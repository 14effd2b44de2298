//! Single-producer, single-consumer channel.

use vstd::prelude::*;

use crate::channel::{Channel, ChannelView};
use crate::consumers::{Consumer, ReadGuard, ReadIter};
use crate::publisher::Publisher;
use crate::ringbuffer::{RingBuffer, RingBufferMeta};
use crate::sequencers::con_ex::ExclusiveConSeqGate;
use crate::sequencers::consumer::DefaultConsumerSequencer;
use crate::sequencers::pub_ex::{ExclusivePubSeqGate, ExclusivePubView, ExclusivePublisherSequencer};
use crate::sequencers::{CursorsView, Gates, GatesView, Sequencer};

verus! {

/// The sequencer of the sender.
pub type PublisherSequencer = ExclusivePublisherSequencer<ExclusiveConSeqGate>;

/// The sequencer of the receiver.
pub type ConsumerSequencer = DefaultConsumerSequencer<ExclusivePubSeqGate, ExclusiveConSeqGate>;

/// What the endpoints share.
pub type Shared<T> = Channel<Gates<ExclusivePubSeqGate, ExclusiveConSeqGate>, T>;

/// The sending endpoint.
pub type Sender<T> = crate::channel_api::Sender<PublisherSequencer, T>;

/// A batch of reserved slots.
pub type SendBatch<'a, T, S> = crate::permit::SendBatch<'a, PublisherSequencer, T, S>;

/// The receiving endpoint.
pub type Receiver<T> = crate::channel_api::Receiver<ConsumerSequencer, T>;

/// A received item.
pub type RecvGuard<'a, T> = ReadGuard<'a, ConsumerSequencer, T>;

/// A received batch.
pub type RecvIter<'a, T> = ReadIter<'a, ConsumerSequencer, T>;

/// The channel over `slots` before anything is sent.
pub open spec fn fresh<T>(slots: Seq<T>) -> ChannelView<
    GatesView<ExclusivePubView, CursorsView>,
    T,
> {
    ChannelView {
        gates: GatesView {
            producer: ExclusivePubView {
                published: -1,
                shutdown: i64::MIN as int,
                capacity: slots.len() as int,
            },
            consumer: CursorsView::fresh(1),
        },
        slots,
    }
}

/// Creates a bounded channel using `T::default()` to initialize the ring.
///
/// `capacity` is a power of two.
pub fn channel<T>(capacity: usize) -> (made: (Shared<T>, Sender<T>, Receiver<T>)) where T: Default
    requires
        RingBufferMeta::valid_size(capacity as int),
        call_requires(T::default, ()),
    ensures
        made.0.serves(&made.1.inner.publisher_sequencer),
        made.0.serves(&made.2.inner.consumer_sequencer),
        made.1.inner.publisher_sequencer@ == -1,
        made.2.inner.consumer_sequencer@ == 0,
        made.0@ == fresh(made.0@.slots),
        made.0@.slots.len() == capacity,
        forall|i: int|
            0 <= i < capacity ==> call_ensures(T::default, (), #[trigger] made.0@.slots[i]),
{
    channel_with_ring(RingBuffer::init_with_default(capacity))
}

/// Creates a bounded channel, initializing each slot of the ring with what `initializer` makes of
/// its index.
///
/// `capacity` is a power of two.
pub fn channel_with<T, I>(capacity: usize, initializer: I) -> (made: (
    Shared<T>,
    Sender<T>,
    Receiver<T>,
)) where
    I: Copy + FnOnce(usize) -> T,

    requires
        RingBufferMeta::valid_size(capacity as int),
        forall|i: usize| i < capacity ==> call_requires(initializer, (i,)),
    ensures
        made.0.serves(&made.1.inner.publisher_sequencer),
        made.0.serves(&made.2.inner.consumer_sequencer),
        made.1.inner.publisher_sequencer@ == -1,
        made.2.inner.consumer_sequencer@ == 0,
        made.0@ == fresh(made.0@.slots),
        made.0@.slots.len() == capacity,
        forall|i: int|
            0 <= i < capacity ==> call_ensures(
                initializer,
                (i as usize,),
                #[trigger] made.0@.slots[i],
            ),
{
    channel_with_ring(RingBuffer::init_with(capacity, initializer))
}

/// The channel over `ring_buffer` with its two endpoints.
fn channel_with_ring<T>(ring_buffer: RingBuffer<T>) -> (made: (Shared<T>, Sender<T>, Receiver<T>))
    requires
        ring_buffer.wf(),
    ensures
        made.0.serves(&made.1.inner.publisher_sequencer),
        made.0.serves(&made.2.inner.consumer_sequencer),
        made.1.inner.publisher_sequencer@ == -1,
        made.2.inner.consumer_sequencer@ == 0,
        made.0@ == fresh(made.0@.slots),
        made.0@.slots == ring_buffer@,
{
    let ring_meta = ring_buffer.meta();
    proof {
        ring_meta.lemma_wf();
        CursorsView::lemma_slowest(CursorsView::fresh(1).consumed);
        assert(CursorsView::fresh(1).consumed[0] == -1);
    }
    let gates = Gates {
        producer: ExclusivePubSeqGate::new(ring_meta),
        consumer: ExclusiveConSeqGate::new(),
    };
    let publisher = Publisher::new(ExclusivePublisherSequencer::new(ring_meta));
    let consumer = Consumer::new(DefaultConsumerSequencer::new(0, ring_meta));
    (
        Channel { gates, ring_buffer },
        crate::channel_api::Sender { inner: publisher },
        crate::channel_api::Receiver { inner: consumer },
    )
}

} // verus!
