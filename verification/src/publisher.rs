//! The publishing half of a channel whose batches are made by a factory.

use vstd::prelude::*;

use crate::channel::{claim_limit, Channel, ChannelView};
use crate::errors::{TryClaimError, TrySendAtMostError, TrySendError};
use crate::permit::SendBatch;
use crate::sequence::Sequence;
use crate::sequencers::Sequencer;
use crate::slot_recycler::{ResetWith, ResetWithDefault, SlotRecycler};

verus! {

/// The publishing endpoint over a publisher's sequencer.
pub struct Publisher<P, T> {
    pub publisher_sequencer: P,
    pub item: core::marker::PhantomData<T>,
}

impl<P: Sequencer, T> Publisher<P, T> {
    /// What an attempt to publish `item` comes to: it is claimed, written and committed, or
    /// handed back with nothing changed.
    pub open spec fn published(
        before: P::V,
        chan_before: ChannelView<<P::Gates as View>::V, T>,
        item: T,
        answer: Result<(), TrySendError<T>>,
        after: P::V,
        chan_after: ChannelView<<P::Gates as View>::V, T>,
    ) -> bool {
        match (answer, P::grant(before, chan_before.gates, 1)) {
            (Ok(()), Ok((seq, _))) => (after, chan_after) == Channel::sent::<P>(
                before,
                chan_before,
                seq,
                item,
            ),
            (Err(TrySendError::Full(unsent)), Err(TryClaimError::Empty)) => {
                unsent == item && after == before && chan_after == chan_before
            },
            (Err(TrySendError::Disconnected(unsent)), Err(TryClaimError::Shutdown)) => {
                unsent == item && after == before && chan_after == chan_before
            },
            _ => false,
        }
    }

    /// Whether `batch` holds the claimed range from `start` to `end`, nothing written yet.
    pub open spec fn holds<S: SlotRecycler<T>>(
        batch: SendBatch<'_, P, T, S>,
        chan: &Channel<P::Gates, T>,
        factory: S,
        start: int,
        end: int,
    ) -> bool {
        &&& batch.wf()
        &&& batch.start_seq == batch.next_seq == start
        &&& batch.end_seq == end
        &&& batch.factory == factory
        &&& batch.attached(chan)
        &&& batch.open(chan@.gates)
    }

    /// What an attempt to claim exactly `n` slots comes to: a batch of them, or nothing changed.
    pub open spec fn claimed_exactly<S: SlotRecycler<T>>(
        before: P::V,
        chan_before: ChannelView<<P::Gates as View>::V, T>,
        n: usize,
        factory: S,
        answer: Result<SendBatch<'_, P, T, S>, TrySendError<()>>,
        after: &Self,
        chan_after: &Channel<P::Gates, T>,
    ) -> bool {
        &&& chan_after.serves(&after.publisher_sequencer)
        &&& match (
            answer,
            crate::sequencers::all_or_none(
                crate::channel::spec_claim_limit(n),
                P::capacity(chan_before.gates),
                P::grant(before, chan_before.gates, crate::channel::spec_claim_limit(n)),
            ),
        ) {
            (Ok(batch), Ok((start, end))) => {
                &&& Self::holds(batch, chan_after, factory, start, end)
                &&& *batch.publisher == *after
                &&& (after.publisher_sequencer@, chan_after@) == Channel::claimed::<P>(
                    before,
                    chan_before,
                    end,
                )
            },
            (Err(error), Err(cause)) => {
                &&& error == (if cause is Shutdown {
                    TrySendError::Disconnected(())
                } else {
                    TrySendError::Full(())
                })
                &&& after.publisher_sequencer@ == before
                &&& chan_after@ == chan_before
            },
            _ => false,
        }
    }

    /// What an attempt to claim up to `limit` slots comes to: a batch of those that are free, or
    /// nothing changed.
    pub open spec fn claimed_up_to<S: SlotRecycler<T>>(
        before: P::V,
        chan_before: ChannelView<<P::Gates as View>::V, T>,
        limit: usize,
        factory: S,
        answer: Result<SendBatch<'_, P, T, S>, TrySendAtMostError>,
        after: &Self,
        chan_after: &Channel<P::Gates, T>,
    ) -> bool {
        &&& chan_after.serves(&after.publisher_sequencer)
        &&& match (
            answer,
            P::grant(before, chan_before.gates, crate::channel::spec_claim_limit(limit)),
        ) {
            (Ok(batch), Ok((start, end))) => {
                &&& Self::holds(batch, chan_after, factory, start, end)
                &&& *batch.publisher == *after
                &&& (after.publisher_sequencer@, chan_after@) == Channel::claimed::<P>(
                    before,
                    chan_before,
                    end,
                )
            },
            (Err(error), Err(cause)) => {
                &&& error == (if cause is Shutdown {
                    TrySendAtMostError::Disconnected
                } else {
                    TrySendAtMostError::Full
                })
                &&& after.publisher_sequencer@ == before
                &&& chan_after@ == chan_before
            },
            _ => false,
        }
    }

    /// The endpoint that publishes through `publisher_sequencer`.
    pub fn new(publisher_sequencer: P) -> (publisher: Self)
        ensures
            publisher.publisher_sequencer == publisher_sequencer,
    {
        Publisher { publisher_sequencer, item: core::marker::PhantomData }
    }

    /// Writes `item` to the slot of sequence `seq`.
    fn write(&self, chan: &mut Channel<P::Gates, T>, item: T, seq: Sequence)
        requires
            old(chan).serves(&self.publisher_sequencer),
        ensures
            final(chan).serves(&self.publisher_sequencer),
            final(chan)@ == old(chan)@.written(seq@, item),
    {
        chan.ring_buffer.write_at(seq, item);
    }

    /// Writes `item` to the slot of sequence number `seq`.
    pub fn write_at_value(&self, chan: &mut Channel<P::Gates, T>, seq: i64, item: T)
        requires
            old(chan).serves(&self.publisher_sequencer),
        ensures
            final(chan).serves(&self.publisher_sequencer),
            final(chan)@ == old(chan)@.written(seq as int, item),
            final(chan)@.slots.len() == old(chan)@.slots.len(),
    {
        self.write(chan, item, Sequence::new(seq));
    }

    /// Commits the claimed range from `start_seq` to `end_seq`.
    pub fn commit_range_value(&self, chan: &mut Channel<P::Gates, T>, start_seq: i64, end_seq: i64)
        requires
            old(chan).serves(&self.publisher_sequencer),
            P::outstanding(
                self.publisher_sequencer@,
                old(chan)@.gates,
                start_seq as int,
                end_seq as int,
            ),
        ensures
            final(chan).serves(&self.publisher_sequencer),
            final(chan)@.slots == old(chan)@.slots,
            final(chan)@.gates == P::committed(
                self.publisher_sequencer@,
                old(chan)@.gates,
                start_seq as int,
                end_seq as int,
            ),
    {
        self.publisher_sequencer.commit_range(
            &mut chan.gates,
            Sequence::new(start_seq),
            Sequence::new(end_seq),
        );
    }

    /// Tries to publish one item.
    pub fn try_publish(&mut self, chan: &mut Channel<P::Gates, T>, item: T) -> (answer: Result<
        (),
        TrySendError<T>,
    >)
        requires
            old(chan).serves(&old(self).publisher_sequencer),
            P::may_claim(old(self).publisher_sequencer@, old(chan)@.gates),
        ensures
            final(chan).serves(&final(self).publisher_sequencer),
            Self::published(
                old(self).publisher_sequencer@,
                old(chan)@,
                item,
                answer,
                final(self).publisher_sequencer@,
                final(chan)@,
            ),
    {
        proof {
            self.publisher_sequencer.lemma_grant(&chan.gates, 1);
        }
        match self.publisher_sequencer.try_claim(&mut chan.gates) {
            Ok(seq) => {
                self.write(chan, item, seq);
                self.publisher_sequencer.commit(&mut chan.gates, seq);
                Ok(())
            },
            Err(TryClaimError::Shutdown) => Err(TrySendError::Disconnected(item)),
            Err(_) => Err(TrySendError::Full(item)),
        }
    }

    /// Claims exactly `n` slots as a batch whose unwritten slots `factory` fills.
    fn claim_exactly<'a, S: SlotRecycler<T>>(
        &'a mut self,
        chan: &mut Channel<P::Gates, T>,
        n: usize,
        factory: S,
    ) -> (answer: Result<SendBatch<'a, P, T, S>, TrySendError<()>>)
        requires
            n > 0,
            old(chan).serves(&old(self).publisher_sequencer),
            P::may_claim(old(self).publisher_sequencer@, old(chan)@.gates),
        ensures
            Self::claimed_exactly(
                old(self).publisher_sequencer@,
                old(chan)@,
                n,
                factory,
                answer,
                final(self),
                final(chan),
            ),
    {
        proof {
            chan.ring_buffer.lemma_wf();
        }
        let wanted = claim_limit(n);
        proof {
            self.publisher_sequencer.lemma_grant(&chan.gates, wanted as int);
        }
        match self.publisher_sequencer.try_claim_n(&mut chan.gates, wanted) {
            Ok((start_seq, end_seq)) => Ok(
                SendBatch::new(&*self, start_seq.value(), end_seq.value(), factory),
            ),
            Err(error) => Err(TrySendError::from(error)),
        }
    }

    /// Claims up to `limit` slots as a batch whose unwritten slots `factory` fills.
    fn claim_up_to<'a, S: SlotRecycler<T>>(
        &'a mut self,
        chan: &mut Channel<P::Gates, T>,
        limit: usize,
        factory: S,
    ) -> (answer: Result<SendBatch<'a, P, T, S>, TrySendAtMostError>)
        requires
            limit > 0,
            old(chan).serves(&old(self).publisher_sequencer),
            P::may_claim(old(self).publisher_sequencer@, old(chan)@.gates),
        ensures
            Self::claimed_up_to(
                old(self).publisher_sequencer@,
                old(chan)@,
                limit,
                factory,
                answer,
                final(self),
                final(chan),
            ),
    {
        proof {
            chan.ring_buffer.lemma_wf();
        }
        let wanted = claim_limit(limit);
        proof {
            self.publisher_sequencer.lemma_grant(&chan.gates, wanted as int);
        }
        match self.publisher_sequencer.try_claim_at_most(&mut chan.gates, wanted) {
            Ok((start_seq, end_seq)) => Ok(
                SendBatch::new(&*self, start_seq.value(), end_seq.value(), factory),
            ),
            Err(error) => Err(TrySendAtMostError::from(error)),
        }
    }

    /// Tries to claim exactly `n` slots; `factory` fills those that are not written.
    pub fn try_publish_many<'a, F>(
        &'a mut self,
        chan: &mut Channel<P::Gates, T>,
        n: usize,
        factory: F,
    ) -> (answer: Result<SendBatch<'a, P, T, ResetWith<F>>, TrySendError<()>>)
        where F: Fn() -> T + Copy,

        requires
            n > 0,
            old(chan).serves(&old(self).publisher_sequencer),
            P::may_claim(old(self).publisher_sequencer@, old(chan)@.gates),
        ensures
            Self::claimed_exactly(
                old(self).publisher_sequencer@,
                old(chan)@,
                n,
                ResetWith(factory),
                answer,
                final(self),
                final(chan),
            ),
    {
        self.claim_exactly(chan, n, ResetWith(factory))
    }

    /// Tries to claim exactly `n` slots; those that are not written get the default value.
    pub fn try_publish_many_default<'a>(
        &'a mut self,
        chan: &mut Channel<P::Gates, T>,
        n: usize,
    ) -> (answer: Result<SendBatch<'a, P, T, ResetWithDefault>, TrySendError<()>>)
        where T: Default,

        requires
            n > 0,
            old(chan).serves(&old(self).publisher_sequencer),
            P::may_claim(old(self).publisher_sequencer@, old(chan)@.gates),
        ensures
            Self::claimed_exactly(
                old(self).publisher_sequencer@,
                old(chan)@,
                n,
                ResetWithDefault,
                answer,
                final(self),
                final(chan),
            ),
    {
        self.claim_exactly(chan, n, ResetWithDefault)
    }

    /// Tries to claim up to `limit` slots; `factory` fills those that are not written.
    pub fn try_publish_at_most<'a, F>(
        &'a mut self,
        chan: &mut Channel<P::Gates, T>,
        limit: usize,
        factory: F,
    ) -> (answer: Result<SendBatch<'a, P, T, ResetWith<F>>, TrySendAtMostError>)
        where F: Fn() -> T + Copy,

        requires
            limit > 0,
            old(chan).serves(&old(self).publisher_sequencer),
            P::may_claim(old(self).publisher_sequencer@, old(chan)@.gates),
        ensures
            Self::claimed_up_to(
                old(self).publisher_sequencer@,
                old(chan)@,
                limit,
                ResetWith(factory),
                answer,
                final(self),
                final(chan),
            ),
    {
        self.claim_up_to(chan, limit, ResetWith(factory))
    }

    /// Tries to claim up to `limit` slots; those that are not written get the default value.
    pub fn try_publish_at_most_default<'a>(
        &'a mut self,
        chan: &mut Channel<P::Gates, T>,
        limit: usize,
    ) -> (answer: Result<SendBatch<'a, P, T, ResetWithDefault>, TrySendAtMostError>)
        where T: Default,

        requires
            limit > 0,
            old(chan).serves(&old(self).publisher_sequencer),
            P::may_claim(old(self).publisher_sequencer@, old(chan)@.gates),
        ensures
            Self::claimed_up_to(
                old(self).publisher_sequencer@,
                old(chan)@,
                limit,
                ResetWithDefault,
                answer,
                final(self),
                final(chan),
            ),
    {
        self.claim_up_to(chan, limit, ResetWithDefault)
    }
}

} // verus!
