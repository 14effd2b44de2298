//! The consuming half of a channel whose batches are visited in order.

use vstd::prelude::*;

use crate::channel::{Channel, ChannelView};
use crate::errors::{TryRecvAtMostError, TryRecvError};
use crate::sequence::Sequence;
use crate::sequencers::Sequencer;

verus! {

/// The consuming endpoint over a consumer's sequencer.
pub struct Consumer<C, T> {
    pub consumer_sequencer: C,
    pub item: core::marker::PhantomData<T>,
}

impl<C, T> Consumer<C, T> {
    /// The endpoint that receives through `consumer_sequencer`.
    pub fn new(consumer_sequencer: C) -> (consumer: Self)
        ensures
            consumer.consumer_sequencer == consumer_sequencer,
    {
        Consumer { consumer_sequencer, item: core::marker::PhantomData }
    }
}

impl<C: Sequencer, T> Consumer<C, T> {
    /// What an attempt to receive one item comes to: a guard on it, or nothing changed.
    pub open spec fn received(
        before: C::V,
        chan_before: ChannelView<<C::Gates as View>::V, T>,
        answer: Result<ReadGuard<'_, C, T>, TryRecvError>,
        after: &Self,
        chan_after: &Channel<C::Gates, T>,
    ) -> bool {
        &&& chan_after.serves(&after.consumer_sequencer)
        &&& match (
            answer,
            C::grant(before, chan_before.gates, 1),
        ) {
            (Ok(guard), Ok((seq, _))) => {
                &&& guard.seq@ == seq
                &&& *guard.consumer_sequencer == after.consumer_sequencer
                &&& guard.attached(chan_after)
                &&& guard.open(chan_after@.gates)
                &&& (after.consumer_sequencer@, chan_after@) == Channel::claimed::<C>(
                    before,
                    chan_before,
                    seq,
                )
            },
            (Err(error), Err(cause)) => {
                &&& error == (if cause is Shutdown {
                    TryRecvError::Disconnected
                } else {
                    TryRecvError::Empty
                })
                &&& after.consumer_sequencer@ == before
                &&& chan_after@ == chan_before
            },
            _ => false,
        }
    }

    /// What an attempt to receive exactly `n` items comes to: all of them, or nothing changed.
    pub open spec fn received_exactly(
        before: C::V,
        chan_before: ChannelView<<C::Gates as View>::V, T>,
        n: int,
        answer: Result<ReadIter<'_, C, T>, TryRecvError>,
        after: &Self,
        chan_after: &Channel<C::Gates, T>,
    ) -> bool {
        &&& chan_after.serves(&after.consumer_sequencer)
        &&& match (
            answer,
            crate::sequencers::all_or_none(
                n,
                C::capacity(chan_before.gates),
                C::grant(before, chan_before.gates, n),
            ),
        ) {
            (Ok(iter), Ok((start, end))) => {
                &&& iter.start_seq@ == iter.current_seq@ == start
                &&& iter.end_seq@ == end
                &&& *iter.consumer_sequencer == after.consumer_sequencer
                &&& iter.attached(chan_after)
                &&& iter.open(chan_after@.gates)
                &&& (after.consumer_sequencer@, chan_after@) == Channel::claimed::<C>(
                    before,
                    chan_before,
                    end,
                )
            },
            (Err(error), Err(cause)) => {
                &&& error == (if cause is Shutdown {
                    TryRecvError::Disconnected
                } else {
                    TryRecvError::Empty
                })
                &&& after.consumer_sequencer@ == before
                &&& chan_after@ == chan_before
            },
            _ => false,
        }
    }

    /// What an attempt to receive up to `limit` items comes to: those that are there, or nothing
    /// changed.
    pub open spec fn received_up_to(
        before: C::V,
        chan_before: ChannelView<<C::Gates as View>::V, T>,
        limit: int,
        answer: Result<ReadIter<'_, C, T>, TryRecvAtMostError>,
        after: &Self,
        chan_after: &Channel<C::Gates, T>,
    ) -> bool {
        &&& chan_after.serves(&after.consumer_sequencer)
        &&& match (
            answer,
            C::grant(before, chan_before.gates, limit),
        ) {
            (Ok(iter), Ok((start, end))) => {
                &&& iter.start_seq@ == iter.current_seq@ == start
                &&& iter.end_seq@ == end
                &&& *iter.consumer_sequencer == after.consumer_sequencer
                &&& iter.attached(chan_after)
                &&& iter.open(chan_after@.gates)
                &&& (after.consumer_sequencer@, chan_after@) == Channel::claimed::<C>(
                    before,
                    chan_before,
                    end,
                )
            },
            (Err(error), Err(cause)) => {
                &&& error == (if cause is Shutdown {
                    TryRecvAtMostError::Disconnected
                } else {
                    TryRecvAtMostError::Empty
                })
                &&& after.consumer_sequencer@ == before
                &&& chan_after@ == chan_before
            },
            _ => false,
        }
    }

    /// Tries to receive one item.
    pub fn try_recv<'a>(
        &'a mut self,
        chan: &mut Channel<C::Gates, T>,
    ) -> (answer: Result<ReadGuard<'a, C, T>, TryRecvError>)
        requires
            old(chan).serves(&old(self).consumer_sequencer),
            C::may_claim(old(self).consumer_sequencer@, old(chan)@.gates),
        ensures
            Self::received(
                old(self).consumer_sequencer@,
                old(chan)@,
                answer,
                final(self),
                final(chan),
            ),
    {
        proof {
            self.consumer_sequencer.lemma_grant(&chan.gates, 1);
        }
        match self.consumer_sequencer.try_claim(&mut chan.gates) {
            Ok(seq) => Ok(
                ReadGuard {
                    consumer_sequencer: &self.consumer_sequencer,
                    seq,
                    item: core::marker::PhantomData,
                },
            ),
            Err(error) => Err(TryRecvError::from(error)),
        }
    }

    /// Tries to receive exactly `n` items.
    pub fn try_recv_many<'a>(
        &'a mut self,
        chan: &mut Channel<C::Gates, T>,
        n: i64,
    ) -> (answer: Result<ReadIter<'a, C, T>, TryRecvError>)
        requires
            n > 0,
            old(chan).serves(&old(self).consumer_sequencer),
            C::may_claim(old(self).consumer_sequencer@, old(chan)@.gates),
        ensures
            Self::received_exactly(
                old(self).consumer_sequencer@,
                old(chan)@,
                n as int,
                answer,
                final(self),
                final(chan),
            ),
    {
        proof {
            self.consumer_sequencer.lemma_grant(&chan.gates, n as int);
        }
        match self.consumer_sequencer.try_claim_n(&mut chan.gates, n) {
            Ok((start_seq, end_seq)) => Ok(
                ReadIter::new(&self.consumer_sequencer, start_seq, end_seq),
            ),
            Err(error) => Err(TryRecvError::from(error)),
        }
    }

    /// Tries to receive up to `limit` items, as many as are there.
    pub fn try_recv_at_most<'a>(
        &'a mut self,
        chan: &mut Channel<C::Gates, T>,
        limit: i64,
    ) -> (answer: Result<ReadIter<'a, C, T>, TryRecvAtMostError>)
        requires
            limit > 0,
            old(chan).serves(&old(self).consumer_sequencer),
            C::may_claim(old(self).consumer_sequencer@, old(chan)@.gates),
        ensures
            Self::received_up_to(
                old(self).consumer_sequencer@,
                old(chan)@,
                limit as int,
                answer,
                final(self),
                final(chan),
            ),
    {
        proof {
            self.consumer_sequencer.lemma_grant(&chan.gates, limit as int);
        }
        match self.consumer_sequencer.try_claim_at_most(&mut chan.gates, limit) {
            Ok((start_seq, end_seq)) => Ok(
                ReadIter::new(&self.consumer_sequencer, start_seq, end_seq),
            ),
            Err(error) => Err(TryRecvAtMostError::from(error)),
        }
    }
}

/// A claimed item. It ends by being finished, which releases its slot.
pub struct ReadGuard<'a, C, T> {
    pub consumer_sequencer: &'a C,
    pub seq: Sequence,
    pub item: core::marker::PhantomData<T>,
}

impl<'a, C: Sequencer, T> ReadGuard<'a, C, T> {
    /// The endpoint that this guard came from is one of the channel.
    pub open spec fn attached(&self, chan: &Channel<C::Gates, T>) -> bool {
        chan.serves(self.consumer_sequencer)
    }

    /// The slot is not released yet.
    pub open spec fn open(&self, gates: <C::Gates as View>::V) -> bool {
        C::outstanding(self.consumer_sequencer@, gates, self.seq@, self.seq@)
    }

    /// The claimed item.
    pub fn get<'c>(&self, chan: &'c Channel<C::Gates, T>) -> (item: &'c T)
        requires
            self.attached(chan),
            self.open(chan@.gates),
        ensures
            *item == chan@.item(self.seq@),
    {
        chan.ring_buffer.get_ref_at(self.seq)
    }

    /// Releases the slot.
    pub fn finish(self, chan: &mut Channel<C::Gates, T>)
        requires
            self.attached(old(chan)),
            self.open(old(chan)@.gates),
        ensures
            self.attached(final(chan)),
            final(chan)@.slots == old(chan)@.slots,
            final(chan)@.gates == C::committed(
                self.consumer_sequencer@,
                old(chan)@.gates,
                self.seq@,
                self.seq@,
            ),
    {
        self.consumer_sequencer.commit(&mut chan.gates, self.seq);
    }
}

/// Claimed consecutive items. They end by being finished, which releases all their slots,
/// visited or not.
pub struct ReadIter<'a, C, T> {
    pub consumer_sequencer: &'a C,
    pub current_seq: Sequence,
    pub start_seq: Sequence,
    pub end_seq: Sequence,
    pub item: core::marker::PhantomData<T>,
}

impl<'a, C: Sequencer, T> ReadIter<'a, C, T> {
    /// The endpoint that this batch came from is one of the channel.
    pub open spec fn attached(&self, chan: &Channel<C::Gates, T>) -> bool {
        &&& chan.serves(self.consumer_sequencer)
        &&& self.end_seq@ < i64::MAX
    }

    /// The slots are not released yet.
    pub open spec fn open(&self, gates: <C::Gates as View>::V) -> bool {
        C::outstanding(self.consumer_sequencer@, gates, self.start_seq@, self.end_seq@)
    }

    /// The items that were not visited yet.
    pub open spec fn rest(&self, chan: ChannelView<<C::Gates as View>::V, T>) -> Seq<T> {
        chan.items(self.current_seq@, self.end_seq@)
    }

    /// The items of the claimed range from `start_seq` to `end_seq`.
    fn new(consumer_sequencer: &'a C, start_seq: Sequence, end_seq: Sequence) -> (iter: Self)
        ensures
            *iter.consumer_sequencer == *consumer_sequencer,
            iter.current_seq == start_seq,
            iter.start_seq == start_seq,
            iter.end_seq == end_seq,
    {
        ReadIter {
            consumer_sequencer,
            current_seq: start_seq,
            start_seq,
            end_seq,
            item: core::marker::PhantomData,
        }
    }

    /// The next item.
    pub fn next<'c>(&mut self, chan: &'c Channel<C::Gates, T>) -> (item: Option<&'c T>)
        requires
            old(self).attached(chan),
            old(self).open(chan@.gates),
        ensures
            final(self).attached(chan),
            final(self).open(chan@.gates),
            *final(self).consumer_sequencer == *old(self).consumer_sequencer,
            final(self).start_seq == old(self).start_seq,
            final(self).end_seq == old(self).end_seq,
            match item {
                Some(item) => {
                    &&& old(self).rest(chan@).len() > 0
                    &&& *item == old(self).rest(chan@)[0]
                    &&& final(self).rest(chan@) == old(self).rest(chan@).drop_first()
                    &&& final(self).current_seq@ == old(self).current_seq@ + 1
                },
                None => {
                    &&& old(self).rest(chan@).len() == 0
                    &&& final(self).current_seq == old(self).current_seq
                },
            },
    {
        if self.current_seq.value() > self.end_seq.value() {
            return None;
        }
        let slot = chan.ring_buffer.get_ref_at(self.current_seq);
        self.current_seq = Sequence::new(self.current_seq.value() + 1);
        assert(self.rest(chan@) =~= old(self).rest(chan@).drop_first());
        Some(slot)
    }

    /// Releases the slots.
    pub fn finish(self, chan: &mut Channel<C::Gates, T>)
        requires
            self.attached(old(chan)),
            self.open(old(chan)@.gates),
        ensures
            self.attached(final(chan)),
            final(chan)@.slots == old(chan)@.slots,
            final(chan)@.gates == C::committed(
                self.consumer_sequencer@,
                old(chan)@.gates,
                self.start_seq@,
                self.end_seq@,
            ),
    {
        self.consumer_sequencer.commit_range(&mut chan.gates, self.start_seq, self.end_seq);
    }
}

} // verus!
