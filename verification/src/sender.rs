//! The sending half of a channel.

use vstd::prelude::*;

use crate::channel::{claim_limit, Channel};
use crate::errors::{TryClaimError, TryReserveError, TrySendAtMostError, TrySendError};
use crate::guards::{ChanWritePermit, ChanWritePermits, WritePermitImpl, WritePermitsImpl};
use crate::sequencers::pub_mul::{MultiPublisherSequencer, SharedState, SharedView};
use crate::sequencers::{ConsumerBarrier, Gates, Sequencer};
use crate::slot_recycler::SlotRecycler;

verus! {

/// A sender for a channel that allows sending values of type `T`.
pub trait ChannelSender<T>: Sized {
    /// The sequencer that slots are claimed from.
    type Publisher: Sequencer;

    /// The sequencer of this endpoint.
    spec fn publisher(&self) -> Self::Publisher;

    /// Tries to send a value.
    fn try_send(
        &mut self,
        chan: &mut Channel<<Self::Publisher as Sequencer>::Gates, T>,
        value: T,
    ) -> (sent: Result<(), TrySendError<T>>)
        requires
            old(chan).serves(&old(self).publisher()),
            <Self::Publisher as Sequencer>::may_claim(old(self).publisher()@, old(chan)@.gates),
        ensures
            final(chan).serves(&final(self).publisher()),
            match (
                sent,
                <Self::Publisher as Sequencer>::grant(
                    old(self).publisher()@,
                    old(chan)@.gates,
                    1,
                ),
            ) {
                (Ok(()), Ok((seq, _))) => (final(self).publisher()@, final(chan)@)
                    == Channel::sent::<Self::Publisher>(
                    old(self).publisher()@,
                    old(chan)@,
                    seq,
                    value,
                ),
                (Err(TrySendError::Full(unsent)), Err(TryClaimError::Empty)) => {
                    &&& unsent == value
                    &&& final(self).publisher()@ == old(self).publisher()@
                    &&& final(chan)@ == old(chan)@
                },
                (Err(TrySendError::Disconnected(unsent)), Err(TryClaimError::Shutdown)) => {
                    &&& unsent == value
                    &&& final(self).publisher()@ == old(self).publisher()@
                    &&& final(chan)@ == old(chan)@
                },
                _ => false,
            },
    ;

    /// Tries to reserve a slot. `recycler` repairs the slot if the permit is released without
    /// a value.
    fn try_reserve<'a, S: SlotRecycler<T>>(
        &'a mut self,
        chan: &mut Channel<<Self::Publisher as Sequencer>::Gates, T>,
        recycler: S,
    ) -> (permit: Result<WritePermitImpl<'a, T, S, Self::Publisher>, TryReserveError>)
        requires
            old(chan).serves(&old(self).publisher()),
            <Self::Publisher as Sequencer>::may_claim(old(self).publisher()@, old(chan)@.gates),
        ensures
            final(chan).serves(&final(self).publisher()),
            match (
                permit,
                <Self::Publisher as Sequencer>::grant(
                    old(self).publisher()@,
                    old(chan)@.gates,
                    1,
                ),
            ) {
                (Ok(permit), Ok((seq, _))) => {
                    &&& permit.sequence@ == seq
                    &&& permit.recycler == recycler
                    &&& *permit.publisher_sequencer == final(self).publisher()
                    &&& permit.attached(final(chan))
                    &&& permit.open(final(chan)@.gates)
                    &&& (final(self).publisher()@, final(chan)@) == Channel::claimed::<
                        Self::Publisher,
                    >(old(self).publisher()@, old(chan)@, seq)
                },
                (Err(TryReserveError::Full), Err(TryClaimError::Empty)) => {
                    &&& final(self).publisher()@ == old(self).publisher()@
                    &&& final(chan)@ == old(chan)@
                },
                (Err(TryReserveError::Disconnected), Err(TryClaimError::Shutdown)) => {
                    &&& final(self).publisher()@ == old(self).publisher()@
                    &&& final(chan)@ == old(chan)@
                },
                _ => false,
            },
    ;

    /// Tries to reserve up to `limit` consecutive slots, as many as are free. With a `limit`
    /// of zero the batch is empty, whatever state the channel is in.
    fn try_send_at_most<'a, S: SlotRecycler<T>>(
        &'a mut self,
        chan: &mut Channel<<Self::Publisher as Sequencer>::Gates, T>,
        limit: usize,
        recycler: S,
    ) -> (batch: Result<WritePermitsImpl<'a, T, S, Self::Publisher>, TrySendAtMostError>)
        requires
            old(chan).serves(&old(self).publisher()),
            limit > 0 ==> <Self::Publisher as Sequencer>::may_claim(
                old(self).publisher()@,
                old(chan)@.gates,
            ),
        ensures
            final(chan).serves(&final(self).publisher()),
            batch matches Ok(batch) ==> {
                &&& batch.recycler == recycler
                &&& *batch.publisher_sequencer == final(self).publisher()
                &&& batch.wf()
                &&& batch.attached(final(chan))
                &&& batch.open(final(chan)@.gates)
                &&& batch.next_seq == batch.start_seq
            },
            limit == 0 ==> {
                &&& batch matches Ok(batch)
                &&& batch.start_seq == 0
                &&& batch.end_seq == -1
                &&& *final(self) == *old(self)
                &&& *final(chan) == *old(chan)
            },
            limit > 0 ==> match (
                batch,
                <Self::Publisher as Sequencer>::grant(
                    old(self).publisher()@,
                    old(chan)@.gates,
                    crate::channel::spec_claim_limit(limit),
                ),
            ) {
                (Ok(batch), Ok((start, end))) => {
                    &&& batch.start_seq == start
                    &&& batch.end_seq == end
                    &&& (final(self).publisher()@, final(chan)@) == Channel::claimed::<
                        Self::Publisher,
                    >(old(self).publisher()@, old(chan)@, end)
                },
                (Err(TrySendAtMostError::Full), Err(TryClaimError::Empty)) => {
                    &&& final(self).publisher()@ == old(self).publisher()@
                    &&& final(chan)@ == old(chan)@
                },
                (Err(TrySendAtMostError::Disconnected), Err(TryClaimError::Shutdown)) => {
                    &&& final(self).publisher()@ == old(self).publisher()@
                    &&& final(chan)@ == old(chan)@
                },
                _ => false,
            },
    ;
}

/// The sending endpoint over a publisher's sequencer.
pub struct SenderImpl<P, T> {
    pub publisher_sequencer: P,
    pub item: core::marker::PhantomData<T>,
}

impl<P: Sequencer, T> SenderImpl<P, T> {
    /// The endpoint that sends through `publisher_sequencer`.
    pub fn new(publisher_sequencer: P) -> (sender: Self)
        ensures
            sender.publisher_sequencer == publisher_sequencer,
    {
        SenderImpl { publisher_sequencer, item: core::marker::PhantomData }
    }
}

impl<P: Sequencer, T> ChannelSender<T> for SenderImpl<P, T> {
    type Publisher = P;

    open spec fn publisher(&self) -> P {
        self.publisher_sequencer
    }

    fn try_send(&mut self, chan: &mut Channel<P::Gates, T>, value: T) -> (sent: Result<
        (),
        TrySendError<T>,
    >) {
        proof {
            self.publisher_sequencer.lemma_grant(&chan.gates, 1);
        }
        match self.publisher_sequencer.try_claim(&mut chan.gates) {
            Ok(seq) => {
                chan.ring_buffer.write_at(seq, value);
                self.publisher_sequencer.commit(&mut chan.gates, seq);
                Ok(())
            },
            Err(TryClaimError::Shutdown) => Err(TrySendError::Disconnected(value)),
            Err(_) => Err(TrySendError::Full(value)),
        }
    }

    fn try_reserve<'a, S: SlotRecycler<T>>(
        &'a mut self,
        chan: &mut Channel<P::Gates, T>,
        recycler: S,
    ) -> (permit: Result<WritePermitImpl<'a, T, S, P>, TryReserveError>) {
        proof {
            self.publisher_sequencer.lemma_grant(&chan.gates, 1);
        }
        match self.publisher_sequencer.try_claim(&mut chan.gates) {
            Ok(sequence) => Ok(
                WritePermitImpl {
                    sequence,
                    publisher_sequencer: &self.publisher_sequencer,
                    recycler,
                    item: core::marker::PhantomData,
                },
            ),
            Err(error) => Err(TryReserveError::from(error)),
        }
    }

    fn try_send_at_most<'a, S: SlotRecycler<T>>(
        &'a mut self,
        chan: &mut Channel<P::Gates, T>,
        limit: usize,
        recycler: S,
    ) -> (batch: Result<WritePermitsImpl<'a, T, S, P>, TrySendAtMostError>) {
        proof {
            chan.ring_buffer.lemma_wf();
        }
        if limit == 0 {
            return Ok(
                WritePermitsImpl {
                    publisher_sequencer: &self.publisher_sequencer,
                    start_seq: 0,
                    end_seq: -1,
                    next_seq: 0,
                    recycler,
                    item: core::marker::PhantomData,
                },
            );
        }
        let n = claim_limit(limit);
        proof {
            self.publisher_sequencer.lemma_grant(&chan.gates, n as int);
        }
        match self.publisher_sequencer.try_claim_at_most(&mut chan.gates, n) {
            Ok((start_seq, end_seq)) => Ok(
                WritePermitsImpl {
                    publisher_sequencer: &self.publisher_sequencer,
                    start_seq: start_seq.value(),
                    end_seq: end_seq.value(),
                    next_seq: start_seq.value(),
                    recycler,
                    item: core::marker::PhantomData,
                },
            ),
            Err(error) => Err(TrySendAtMostError::from(error)),
        }
    }
}

impl<C: ConsumerBarrier, T> SenderImpl<MultiPublisherSequencer<C>, T> {
    /// A second sender of the same channel.
    pub fn clone_endpoint(&self, chan: &mut Channel<Gates<SharedState, C>, T>) -> (sender: Self)
        requires
            old(chan).serves(&self.publisher_sequencer),
            old(chan)@.gates.producer.senders < usize::MAX,
        ensures
            final(chan).serves(&self.publisher_sequencer),
            final(chan).serves(&sender.publisher_sequencer),
            final(chan)@.slots == old(chan)@.slots,
            final(chan)@.gates.consumer == old(chan)@.gates.consumer,
            final(chan)@.gates.producer == (SharedView {
                senders: old(chan)@.gates.producer.senders + 1,
                ..old(chan)@.gates.producer
            }),
    {
        Self::new(self.publisher_sequencer.clone_endpoint(&mut chan.gates))
    }

    /// This sender leaves the channel. The last one to leave ends the stream.
    pub fn disconnect(self, chan: &mut Channel<Gates<SharedState, C>, T>)
        requires
            old(chan).serves(&self.publisher_sequencer),
            old(chan)@.gates.producer.senders >= 1,
        ensures
            final(chan).gates.inv(),
            final(chan).ring_buffer == old(chan).ring_buffer,
            final(chan)@.gates == MultiPublisherSequencer::<C>::left(old(chan)@.gates),
    {
        self.publisher_sequencer.disconnect(&mut chan.gates);
    }

    /// Stops all senders of the channel at once.
    pub fn terminate(&self, chan: &mut Channel<Gates<SharedState, C>, T>)
        requires
            old(chan).serves(&self.publisher_sequencer),
        ensures
            final(chan).serves(&self.publisher_sequencer),
            final(chan)@.slots == old(chan)@.slots,
            final(chan)@.gates == MultiPublisherSequencer::<C>::stopped(old(chan)@.gates),
    {
        self.publisher_sequencer.terminate(&mut chan.gates);
    }
}

} // verus!
