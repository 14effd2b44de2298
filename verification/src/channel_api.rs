//! The endpoints of the channels whose batches are made by a factory.

use vstd::prelude::*;

use crate::channel::{claim_limit, Channel};
use crate::consumers::{Consumer, ReadGuard, ReadIter};
use crate::errors::{TryRecvAtMostError, TryRecvError, TrySendAtMostError, TrySendError};
use crate::permit::SendBatch;
use crate::publisher::Publisher;
use crate::sequencers::con_queue::{QueuedConsumerSequencer, QueuedSharedState, QueuedView};
use crate::sequencers::consumer::DefaultConsumerSequencer;
use crate::sequencers::pub_ex::{ExclusivePubSeqGate, ExclusivePublisherSequencer};
use crate::sequencers::pub_mul::{MultiPublisherSequencer, SharedState, SharedView};
use crate::sequencers::{ConsumerBarrier, ConsumerCursors, Gates, ProducerBarrier, Sequencer};
use crate::slot_recycler::{ResetWith, ResetWithDefault};

verus! {

/// A sending endpoint.
pub struct Sender<P, T> {
    pub inner: Publisher<P, T>,
}

impl<P: Sequencer, T> Sender<P, T> {
    /// Tries to send one item.
    pub fn try_send(&mut self, chan: &mut Channel<P::Gates, T>, item: T) -> (answer: Result<
        (),
        TrySendError<T>,
    >)
        requires
            old(chan).serves(&old(self).inner.publisher_sequencer),
            P::may_claim(old(self).inner.publisher_sequencer@, old(chan)@.gates),
        ensures
            final(chan).serves(&final(self).inner.publisher_sequencer),
            Publisher::<P, T>::published(
                old(self).inner.publisher_sequencer@,
                old(chan)@,
                item,
                answer,
                final(self).inner.publisher_sequencer@,
                final(chan)@,
            ),
    {
        self.inner.try_publish(chan, item)
    }

    /// Tries to claim exactly `n` slots; `factory` fills those that are not written.
    pub fn try_send_many<'a, F>(
        &'a mut self,
        chan: &mut Channel<P::Gates, T>,
        n: usize,
        factory: F,
    ) -> (answer: Result<SendBatch<'a, P, T, ResetWith<F>>, TrySendError<()>>)
        where F: Fn() -> T + Copy,

        requires
            n > 0,
            old(chan).serves(&old(self).inner.publisher_sequencer),
            P::may_claim(old(self).inner.publisher_sequencer@, old(chan)@.gates),
        ensures
            Publisher::claimed_exactly(
                old(self).inner.publisher_sequencer@,
                old(chan)@,
                n,
                ResetWith(factory),
                answer,
                &final(self).inner,
                final(chan),
            ),
    {
        self.inner.try_publish_many(chan, n, factory)
    }

    /// Tries to claim exactly `n` slots; those that are not written get the default value.
    pub fn try_send_many_default<'a>(
        &'a mut self,
        chan: &mut Channel<P::Gates, T>,
        n: usize,
    ) -> (answer: Result<SendBatch<'a, P, T, ResetWithDefault>, TrySendError<()>>)
        where T: Default,

        requires
            n > 0,
            old(chan).serves(&old(self).inner.publisher_sequencer),
            P::may_claim(old(self).inner.publisher_sequencer@, old(chan)@.gates),
        ensures
            Publisher::claimed_exactly(
                old(self).inner.publisher_sequencer@,
                old(chan)@,
                n,
                ResetWithDefault,
                answer,
                &final(self).inner,
                final(chan),
            ),
    {
        self.inner.try_publish_many_default(chan, n)
    }

    /// Tries to claim up to `limit` slots; `factory` fills those that are not written.
    pub fn try_send_at_most<'a, F>(
        &'a mut self,
        chan: &mut Channel<P::Gates, T>,
        limit: usize,
        factory: F,
    ) -> (answer: Result<SendBatch<'a, P, T, ResetWith<F>>, TrySendAtMostError>)
        where F: Fn() -> T + Copy,

        requires
            limit > 0,
            old(chan).serves(&old(self).inner.publisher_sequencer),
            P::may_claim(old(self).inner.publisher_sequencer@, old(chan)@.gates),
        ensures
            Publisher::claimed_up_to(
                old(self).inner.publisher_sequencer@,
                old(chan)@,
                limit,
                ResetWith(factory),
                answer,
                &final(self).inner,
                final(chan),
            ),
    {
        self.inner.try_publish_at_most(chan, limit, factory)
    }

    /// Tries to claim up to `limit` slots; those that are not written get the default value.
    pub fn try_send_at_most_default<'a>(
        &'a mut self,
        chan: &mut Channel<P::Gates, T>,
        limit: usize,
    ) -> (answer: Result<SendBatch<'a, P, T, ResetWithDefault>, TrySendAtMostError>)
        where T: Default,

        requires
            limit > 0,
            old(chan).serves(&old(self).inner.publisher_sequencer),
            P::may_claim(old(self).inner.publisher_sequencer@, old(chan)@.gates),
        ensures
            Publisher::claimed_up_to(
                old(self).inner.publisher_sequencer@,
                old(chan)@,
                limit,
                ResetWithDefault,
                answer,
                &final(self).inner,
                final(chan),
            ),
    {
        self.inner.try_publish_at_most_default(chan, limit)
    }
}

/// A receiving endpoint.
pub struct Receiver<C, T> {
    pub inner: Consumer<C, T>,
}

impl<C: Sequencer, T> Receiver<C, T> {
    /// Tries to receive one item.
    pub fn try_recv<'a>(
        &'a mut self,
        chan: &mut Channel<C::Gates, T>,
    ) -> (answer: Result<ReadGuard<'a, C, T>, TryRecvError>)
        requires
            old(chan).serves(&old(self).inner.consumer_sequencer),
            C::may_claim(old(self).inner.consumer_sequencer@, old(chan)@.gates),
        ensures
            Consumer::received(
                old(self).inner.consumer_sequencer@,
                old(chan)@,
                answer,
                &final(self).inner,
                final(chan),
            ),
    {
        self.inner.try_recv(chan)
    }

    /// Tries to receive exactly `n` items.
    pub fn try_recv_many<'a>(
        &'a mut self,
        chan: &mut Channel<C::Gates, T>,
        n: usize,
    ) -> (answer: Result<ReadIter<'a, C, T>, TryRecvError>)
        requires
            n > 0,
            old(chan).serves(&old(self).inner.consumer_sequencer),
            C::may_claim(old(self).inner.consumer_sequencer@, old(chan)@.gates),
        ensures
            Consumer::received_exactly(
                old(self).inner.consumer_sequencer@,
                old(chan)@,
                crate::channel::spec_claim_limit(n),
                answer,
                &final(self).inner,
                final(chan),
            ),
    {
        self.inner.try_recv_many(chan, claim_limit(n))
    }

    /// Tries to receive up to `limit` items, as many as are there.
    pub fn try_recv_at_most<'a>(
        &'a mut self,
        chan: &mut Channel<C::Gates, T>,
        limit: usize,
    ) -> (answer: Result<ReadIter<'a, C, T>, TryRecvAtMostError>)
        requires
            limit > 0,
            old(chan).serves(&old(self).inner.consumer_sequencer),
            C::may_claim(old(self).inner.consumer_sequencer@, old(chan)@.gates),
        ensures
            Consumer::received_up_to(
                old(self).inner.consumer_sequencer@,
                old(chan)@,
                crate::channel::spec_claim_limit(limit),
                answer,
                &final(self).inner,
                final(chan),
            ),
    {
        self.inner.try_recv_at_most(chan, claim_limit(limit))
    }
}

impl<C: ConsumerBarrier, T> Sender<MultiPublisherSequencer<C>, T> {
    /// A second sender of the same channel.
    pub fn clone_endpoint(&self, chan: &mut Channel<Gates<SharedState, C>, T>) -> (sender: Self)
        requires
            old(chan).serves(&self.inner.publisher_sequencer),
            old(chan)@.gates.producer.senders < usize::MAX,
        ensures
            final(chan).serves(&self.inner.publisher_sequencer),
            final(chan).serves(&sender.inner.publisher_sequencer),
            final(chan)@.slots == old(chan)@.slots,
            final(chan)@.gates.consumer == old(chan)@.gates.consumer,
            final(chan)@.gates.producer == (SharedView {
                senders: old(chan)@.gates.producer.senders + 1,
                ..old(chan)@.gates.producer
            }),
    {
        let sequencer = self.inner.publisher_sequencer.clone_endpoint(&mut chan.gates);
        Sender { inner: Publisher::new(sequencer) }
    }

    /// This sender leaves the channel. The last one to leave ends the stream.
    pub fn disconnect(self, chan: &mut Channel<Gates<SharedState, C>, T>)
        requires
            old(chan).serves(&self.inner.publisher_sequencer),
            old(chan)@.gates.producer.senders >= 1,
        ensures
            final(chan).gates.inv(),
            final(chan).ring_buffer == old(chan).ring_buffer,
            final(chan)@.gates == MultiPublisherSequencer::<C>::left(old(chan)@.gates),
    {
        self.inner.publisher_sequencer.disconnect(&mut chan.gates);
    }
}

impl<C: ConsumerCursors, T> Sender<ExclusivePublisherSequencer<C>, T> {
    /// The sender leaves the channel, which ends the stream.
    pub fn disconnect(self, chan: &mut Channel<Gates<ExclusivePubSeqGate, C>, T>)
        requires
            old(chan).serves(&self.inner.publisher_sequencer),
        ensures
            final(chan).gates.inv(),
            final(chan).ring_buffer == old(chan).ring_buffer,
            final(chan)@.gates == ExclusivePublisherSequencer::<C>::left(old(chan)@.gates),
    {
        self.inner.publisher_sequencer.disconnect(&mut chan.gates);
    }
}

impl<P: ProducerBarrier, C: ConsumerCursors, T> Receiver<DefaultConsumerSequencer<P, C>, T> {
    /// This receiver leaves the channel and no longer holds the senders back.
    pub fn disconnect(self, chan: &mut Channel<Gates<P, C>, T>)
        requires
            old(chan).serves(&self.inner.consumer_sequencer),
        ensures
            final(chan).gates.inv(),
            final(chan).ring_buffer == old(chan).ring_buffer,
            final(chan)@.gates == DefaultConsumerSequencer::<P, C>::left(
                self.inner.consumer_sequencer@,
                old(chan)@.gates,
            ),
    {
        self.inner.consumer_sequencer.disconnect(&mut chan.gates);
    }
}

impl<P: ProducerBarrier, T> Receiver<QueuedConsumerSequencer<P>, T> {
    /// A second receiver of the same channel.
    pub fn clone_endpoint(&self, chan: &mut Channel<Gates<P, QueuedSharedState>, T>) -> (receiver: Self)
        requires
            old(chan).serves(&self.inner.consumer_sequencer),
            old(chan)@.gates.consumer.receivers < usize::MAX,
        ensures
            final(chan).serves(&self.inner.consumer_sequencer),
            final(chan).serves(&receiver.inner.consumer_sequencer),
            final(chan)@.slots == old(chan)@.slots,
            final(chan)@.gates.producer == old(chan)@.gates.producer,
            final(chan)@.gates.consumer == (QueuedView {
                receivers: old(chan)@.gates.consumer.receivers + 1,
                ..old(chan)@.gates.consumer
            }),
    {
        let sequencer = self.inner.consumer_sequencer.clone_endpoint(&mut chan.gates);
        Receiver { inner: Consumer::new(sequencer) }
    }

    /// This receiver leaves the channel. When the last one has left, senders are told so.
    pub fn disconnect(self, chan: &mut Channel<Gates<P, QueuedSharedState>, T>)
        requires
            old(chan).serves(&self.inner.consumer_sequencer),
            old(chan)@.gates.consumer.receivers >= 1,
        ensures
            final(chan).gates.inv(),
            final(chan).ring_buffer == old(chan).ring_buffer,
            final(chan)@.gates == QueuedConsumerSequencer::<P>::left(old(chan)@.gates),
    {
        self.inner.consumer_sequencer.disconnect(&mut chan.gates);
    }
}

} // verus!
