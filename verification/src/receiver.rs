//! The receiving half of a channel.

use vstd::prelude::*;

use crate::channel::{claim_limit, Channel};
use crate::errors::{TryClaimError, TryRecvError};
use crate::guards::{ChanReadRef, ChanReadRefs};
use crate::ringbuffer::RingBuffer;
use crate::sequence::Sequence;
use crate::sequencers::consumer::DefaultConsumerSequencer;
use crate::sequencers::{
    ConsumerCursors, ConsumerSequencer, Gates, Polled, ProducerBarrier, Sequencer,
};

verus! {

/// A reference to one claimed item.
pub struct ReadRefImpl<'a, T, C> {
    pub consumer_sequencer: &'a C,
    pub seq: Sequence,
    pub item: core::marker::PhantomData<T>,
}

impl<'a, T, C: Sequencer> ChanReadRef<T> for ReadRefImpl<'a, T, C> {
    type Gates = C::Gates;

    open spec fn attached(&self, chan: &Channel<C::Gates, T>) -> bool {
        chan.serves(self.consumer_sequencer)
    }

    open spec fn open(&self, gates: <C::Gates as View>::V) -> bool {
        C::outstanding(self.consumer_sequencer@, gates, self.seq@, self.seq@)
    }

    open spec fn sequence(&self) -> int {
        self.seq@
    }

    open spec fn ended(&self, gates: <C::Gates as View>::V) -> <C::Gates as View>::V {
        C::committed(self.consumer_sequencer@, gates, self.seq@, self.seq@)
    }

    fn get<'c>(&self, chan: &'c Channel<C::Gates, T>) -> (value: &'c T)
        ensures
            *value == RingBuffer::item(chan@.slots, self.seq@),
    {
        chan.ring_buffer.get_ref_at(self.seq)
    }

    fn finish(self, chan: &mut Channel<C::Gates, T>)
        ensures
            final(chan)@.gates == C::committed(
                self.consumer_sequencer@,
                old(chan)@.gates,
                self.seq@,
                self.seq@,
            ),
    {
        self.consumer_sequencer.commit(&mut chan.gates, self.seq);
    }
}

/// A reference to consecutive claimed items.
pub struct ReadRefsImpl<'a, T, C> {
    pub consumer_sequencer: &'a C,
    pub start_seq: Sequence,
    pub end_seq: Sequence,
    pub item: core::marker::PhantomData<T>,
}

impl<'a, T, C: Sequencer> ChanReadRefs<T> for ReadRefsImpl<'a, T, C> {
    type Gates = C::Gates;

    open spec fn attached(&self, chan: &Channel<C::Gates, T>) -> bool {
        &&& chan.serves(self.consumer_sequencer)
        &&& -1 <= self.end_seq@ < i64::MAX
    }

    open spec fn open(&self, gates: <C::Gates as View>::V) -> bool {
        if self.end_seq@ == -1 {
            self.start_seq@ == 0
        } else {
            &&& self.start_seq@ <= self.end_seq@
            &&& C::outstanding(
                self.consumer_sequencer@,
                gates,
                self.start_seq@,
                self.end_seq@,
            )
        }
    }

    open spec fn first(&self) -> int {
        self.start_seq@
    }

    open spec fn last(&self) -> int {
        self.end_seq@
    }

    open spec fn ended(&self, gates: <C::Gates as View>::V) -> <C::Gates as View>::V {
        if self.end_seq@ == -1 {
            gates
        } else {
            C::committed(self.consumer_sequencer@, gates, self.start_seq@, self.end_seq@)
        }
    }

    fn iter<'c>(&self, chan: &'c Channel<C::Gates, T>) -> (iter: ReadBatchIter<'c, T>)
        ensures
            iter@ == RingBuffer::items(chan@.slots, self.start_seq@, self.end_seq@),
    {
        ReadBatchIter {
            ring_buffer: &chan.ring_buffer,
            current_seq: self.start_seq,
            end_seq: self.end_seq,
        }
    }

    fn finish(self, chan: &mut Channel<C::Gates, T>)
        ensures
            final(chan)@.gates == if self.end_seq@ == -1 {
                old(chan)@.gates
            } else {
                C::committed(
                    self.consumer_sequencer@,
                    old(chan)@.gates,
                    self.start_seq@,
                    self.end_seq@,
                )
            },
    {
        if self.end_seq.is_init() {
            return;
        }
        self.consumer_sequencer.commit_range(&mut chan.gates, self.start_seq, self.end_seq);
    }
}

/// The items of a batch that are still to be visited.
pub struct ReadBatchIter<'a, T> {
    ring_buffer: &'a RingBuffer<T>,
    current_seq: Sequence,
    end_seq: Sequence,
}

impl<'a, T> View for ReadBatchIter<'a, T> {
    type V = Seq<T>;

    closed spec fn view(&self) -> Seq<T> {
        RingBuffer::items(self.ring_buffer@, self.current_seq@, self.end_seq@)
    }
}

impl<'a, T> ReadBatchIter<'a, T> {
    /// The ring is one, and the sequence after the last one is a number.
    pub closed spec fn wf(&self) -> bool {
        &&& self.ring_buffer.wf()
        &&& self.end_seq@ < i64::MAX
    }

    /// The next item.
    pub fn next(&mut self) -> (item: Option<&'a T>)
        requires
            old(self).wf(),
        ensures
            final(self).wf(),
            match item {
                Some(item) => {
                    &&& old(self)@.len() > 0
                    &&& *item == old(self)@[0]
                    &&& final(self)@ == old(self)@.drop_first()
                },
                None => old(self)@.len() == 0 && final(self)@ == old(self)@,
            },
    {
        if self.current_seq.value() > self.end_seq.value() {
            return None;
        }
        let slot = self.ring_buffer.get_ref_at(self.current_seq);
        self.current_seq = Sequence::new(self.current_seq.value() + 1);
        proof {
            assert(self@ =~= old(self)@.drop_first());
        }
        Some(slot)
    }

    /// All the items that are left.
    pub fn collect(self) -> (items: Vec<&'a T>)
        requires
            self.wf(),
        ensures
            items@.len() == self@.len(),
            forall|i: int| 0 <= i < items@.len() ==> *#[trigger] items@[i] == self@[i],
    {
        let mut items: Vec<&'a T> = Vec::new();
        let mut rest = self;
        let ghost all = self@;
        while rest.current_seq.value() <= rest.end_seq.value()
            invariant
                rest.wf(),
                all.len() == items@.len() + rest@.len(),
                rest@ == all.skip(items@.len() as int),
                forall|i: int| 0 <= i < items@.len() ==> *#[trigger] items@[i] == all[i],
            decreases rest@.len(),
        {
            if let Some(item) = rest.next() {
                items.push(item);
            }
        }
        items
    }
}

/// A receiver of values from a channel.
pub trait ChanReceiver<T>: Sized {
    /// The sequencer that items are claimed from.
    type Consumer: ConsumerSequencer;

    /// The sequencer of this endpoint.
    spec fn consumer(&self) -> Self::Consumer;

    /// Tries to receive a single value.
    fn try_recv<'a>(
        &'a mut self,
        chan: &mut Channel<<Self::Consumer as Sequencer>::Gates, T>,
    ) -> (received: Result<ReadRefImpl<'a, T, Self::Consumer>, TryRecvError>)
        requires
            old(chan).serves(&old(self).consumer()),
            <Self::Consumer as Sequencer>::may_claim(old(self).consumer()@, old(chan)@.gates),
        ensures
            final(chan).serves(&final(self).consumer()),
            match (
                received,
                <Self::Consumer as Sequencer>::grant(old(self).consumer()@, old(chan)@.gates, 1),
            ) {
                (Ok(read), Ok((seq, _))) => {
                    &&& read.seq@ == seq
                    &&& *read.consumer_sequencer == final(self).consumer()
                    &&& read.attached(final(chan))
                    &&& read.open(final(chan)@.gates)
                    &&& (final(self).consumer()@, final(chan)@) == Channel::claimed::<Self::Consumer>(
                        old(self).consumer()@,
                        old(chan)@,
                        seq,
                    )
                },
                (Err(TryRecvError::Empty), Err(TryClaimError::Empty)) => {
                    &&& final(self).consumer()@ == old(self).consumer()@
                    &&& final(chan)@ == old(chan)@
                },
                (Err(TryRecvError::Disconnected), Err(TryClaimError::Shutdown)) => {
                    &&& final(self).consumer()@ == old(self).consumer()@
                    &&& final(chan)@ == old(chan)@
                },
                _ => false,
            },
    ;

    /// Tries to receive up to `limit` values, as many as are available. With a `limit` of zero
    /// the batch is empty, whatever state the channel is in.
    fn try_recv_at_most<'a>(
        &'a mut self,
        chan: &mut Channel<<Self::Consumer as Sequencer>::Gates, T>,
        limit: usize,
    ) -> (received: Result<ReadRefsImpl<'a, T, Self::Consumer>, TryRecvError>)
        requires
            old(chan).serves(&old(self).consumer()),
            limit > 0 ==> <Self::Consumer as Sequencer>::may_claim(
                old(self).consumer()@,
                old(chan)@.gates,
            ),
        ensures
            final(chan).serves(&final(self).consumer()),
            received matches Ok(batch) ==> {
                &&& *batch.consumer_sequencer == final(self).consumer()
                &&& batch.attached(final(chan))
                &&& batch.open(final(chan)@.gates)
            },
            limit == 0 ==> {
                &&& received matches Ok(batch)
                &&& batch.start_seq@ == 0
                &&& batch.end_seq@ == -1
                &&& *final(self) == *old(self)
                &&& *final(chan) == *old(chan)
            },
            limit > 0 ==> match (
                received,
                <Self::Consumer as Sequencer>::grant(
                    old(self).consumer()@,
                    old(chan)@.gates,
                    crate::channel::spec_claim_limit(limit),
                ),
            ) {
                (Ok(batch), Ok((start, end))) => {
                    &&& batch.start_seq@ == start
                    &&& batch.end_seq@ == end
                    &&& (final(self).consumer()@, final(chan)@) == Channel::claimed::<Self::Consumer>(
                        old(self).consumer()@,
                        old(chan)@,
                        end,
                    )
                },
                (Err(TryRecvError::Empty), Err(TryClaimError::Empty)) => {
                    &&& final(self).consumer()@ == old(self).consumer()@
                    &&& final(chan)@ == old(chan)@
                },
                (Err(TryRecvError::Disconnected), Err(TryClaimError::Shutdown)) => {
                    &&& final(self).consumer()@ == old(self).consumer()@
                    &&& final(chan)@ == old(chan)@
                },
                _ => false,
            },
    ;

    /// One poll of a receive: a value, or `None` where the channel is disconnected, or the
    /// task of `waker` is registered to be woken.
    fn poll_recv<'a>(
        &'a mut self,
        chan: &mut Channel<<Self::Consumer as Sequencer>::Gates, T>,
        waker: &std::task::Waker,
    ) -> (polled: Polled<Option<ReadRefImpl<'a, T, Self::Consumer>>>)
        requires
            old(chan).serves(&old(self).consumer()),
            <Self::Consumer as Sequencer>::may_claim(old(self).consumer()@, old(chan)@.gates),
        ensures
            final(chan).serves(&final(self).consumer()),
            match (
                polled,
                <Self::Consumer as Sequencer>::grant(old(self).consumer()@, old(chan)@.gates, 1),
            ) {
                (Polled::Ready(Some(read)), Ok((seq, _))) => {
                    &&& read.seq@ == seq
                    &&& *read.consumer_sequencer == final(self).consumer()
                    &&& read.attached(final(chan))
                    &&& read.open(final(chan)@.gates)
                    &&& (final(self).consumer()@, final(chan)@) == Channel::claimed::<Self::Consumer>(
                        old(self).consumer()@,
                        old(chan)@,
                        seq,
                    )
                },
                (Polled::Ready(None), Err(TryClaimError::Shutdown)) => {
                    &&& final(self).consumer()@ == old(self).consumer()@
                    &&& final(chan)@ == old(chan)@
                },
                (Polled::Pending, Err(TryClaimError::Empty)) => {
                    &&& final(self).consumer()@ == old(self).consumer()@
                    &&& final(chan)@.slots == old(chan)@.slots
                    &&& final(chan)@.gates == <Self::Consumer as ConsumerSequencer>::waits(
                        old(self).consumer()@,
                        old(chan)@.gates,
                        crate::waker::task_of(*waker),
                    )
                },
                _ => false,
            },
    ;

    /// One poll of a receive of up to `limit` values: a batch, or `None` where the channel is
    /// disconnected, or the task of `waker` is registered to be woken. With a `limit` of zero
    /// the batch is empty, whatever state the channel is in.
    fn poll_recv_at_most<'a>(
        &'a mut self,
        chan: &mut Channel<<Self::Consumer as Sequencer>::Gates, T>,
        limit: usize,
        waker: &std::task::Waker,
    ) -> (polled: Polled<Option<ReadRefsImpl<'a, T, Self::Consumer>>>)
        requires
            old(chan).serves(&old(self).consumer()),
            limit > 0 ==> <Self::Consumer as Sequencer>::may_claim(
                old(self).consumer()@,
                old(chan)@.gates,
            ),
        ensures
            final(chan).serves(&final(self).consumer()),
            polled matches Polled::Ready(Some(batch)) ==> {
                &&& *batch.consumer_sequencer == final(self).consumer()
                &&& batch.attached(final(chan))
                &&& batch.open(final(chan)@.gates)
            },
            limit == 0 ==> {
                &&& polled matches Polled::Ready(Some(batch))
                &&& batch.start_seq@ == 0
                &&& batch.end_seq@ == -1
                &&& *final(self) == *old(self)
                &&& *final(chan) == *old(chan)
            },
            limit > 0 ==> match (
                polled,
                <Self::Consumer as Sequencer>::grant(
                    old(self).consumer()@,
                    old(chan)@.gates,
                    crate::channel::spec_claim_limit(limit),
                ),
            ) {
                (Polled::Ready(Some(batch)), Ok((start, end))) => {
                    &&& batch.start_seq@ == start
                    &&& batch.end_seq@ == end
                    &&& (final(self).consumer()@, final(chan)@) == Channel::claimed::<Self::Consumer>(
                        old(self).consumer()@,
                        old(chan)@,
                        end,
                    )
                },
                (Polled::Ready(None), Err(TryClaimError::Shutdown)) => {
                    &&& final(self).consumer()@ == old(self).consumer()@
                    &&& final(chan)@ == old(chan)@
                },
                (Polled::Pending, Err(TryClaimError::Empty)) => {
                    &&& final(self).consumer()@ == old(self).consumer()@
                    &&& final(chan)@.slots == old(chan)@.slots
                    &&& final(chan)@.gates == <Self::Consumer as ConsumerSequencer>::waits(
                        old(self).consumer()@,
                        old(chan)@.gates,
                        crate::waker::task_of(*waker),
                    )
                },
                _ => false,
            },
    ;
}

/// A reference to no items.
fn empty_read_refs<'a, T, C>(consumer_sequencer: &'a C) -> (batch: ReadRefsImpl<'a, T, C>)
    ensures
        *batch.consumer_sequencer == *consumer_sequencer,
        batch.start_seq@ == 0,
        batch.end_seq@ == -1,
{
    ReadRefsImpl {
        consumer_sequencer,
        start_seq: Sequence::new(0),
        end_seq: Sequence::init(),
        item: core::marker::PhantomData,
    }
}

/// The receiving endpoint over a consumer's sequencer.
pub struct ReceiverImpl<C, T> {
    pub consumer_sequencer: C,
    pub item: core::marker::PhantomData<T>,
}

impl<C, T> ReceiverImpl<C, T> {
    /// The endpoint that receives through `consumer_sequencer`.
    pub fn new(consumer_sequencer: C) -> (receiver: Self)
        ensures
            receiver.consumer_sequencer == consumer_sequencer,
    {
        ReceiverImpl { consumer_sequencer, item: core::marker::PhantomData }
    }
}

impl<C: ConsumerSequencer, T> ChanReceiver<T> for ReceiverImpl<C, T> {
    type Consumer = C;

    open spec fn consumer(&self) -> C {
        self.consumer_sequencer
    }

    fn try_recv<'a>(&'a mut self, chan: &mut Channel<C::Gates, T>) -> (received: Result<
        ReadRefImpl<'a, T, C>,
        TryRecvError,
    >) {
        proof {
            self.consumer_sequencer.lemma_grant(&chan.gates, 1);
        }
        match self.consumer_sequencer.try_claim(&mut chan.gates) {
            Ok(seq) => Ok(
                ReadRefImpl {
                    consumer_sequencer: &self.consumer_sequencer,
                    seq,
                    item: core::marker::PhantomData,
                },
            ),
            Err(error) => Err(TryRecvError::from(error)),
        }
    }

    fn try_recv_at_most<'a>(&'a mut self, chan: &mut Channel<C::Gates, T>, limit: usize) -> (received:
        Result<ReadRefsImpl<'a, T, C>, TryRecvError>) {
        if limit == 0 {
            return Ok(empty_read_refs(&self.consumer_sequencer));
        }
        let n = claim_limit(limit);
        proof {
            self.consumer_sequencer.lemma_grant(&chan.gates, n as int);
        }
        match self.consumer_sequencer.try_claim_at_most(&mut chan.gates, n) {
            Ok((start_seq, end_seq)) => Ok(
                ReadRefsImpl {
                    consumer_sequencer: &self.consumer_sequencer,
                    start_seq,
                    end_seq,
                    item: core::marker::PhantomData,
                },
            ),
            Err(error) => Err(TryRecvError::from(error)),
        }
    }

    fn poll_recv<'a>(&'a mut self, chan: &mut Channel<C::Gates, T>, waker: &std::task::Waker) -> (polled:
        Polled<Option<ReadRefImpl<'a, T, C>>>) {
        proof {
            self.consumer_sequencer.lemma_grant(&chan.gates, 1);
        }
        match self.consumer_sequencer.poll_claim_at_most(&mut chan.gates, 1, waker) {
            Polled::Ready(Ok((start_seq, _))) => Polled::Ready(
                Some(
                    ReadRefImpl {
                        consumer_sequencer: &self.consumer_sequencer,
                        seq: start_seq,
                        item: core::marker::PhantomData,
                    },
                ),
            ),
            Polled::Ready(Err(_)) => Polled::Ready(None),
            Polled::Pending => Polled::Pending,
        }
    }

    fn poll_recv_at_most<'a>(
        &'a mut self,
        chan: &mut Channel<C::Gates, T>,
        limit: usize,
        waker: &std::task::Waker,
    ) -> (polled: Polled<Option<ReadRefsImpl<'a, T, C>>>) {
        if limit == 0 {
            return Polled::Ready(Some(empty_read_refs(&self.consumer_sequencer)));
        }
        let n = claim_limit(limit);
        proof {
            self.consumer_sequencer.lemma_grant(&chan.gates, n as int);
        }
        match self.consumer_sequencer.poll_claim_at_most(&mut chan.gates, n, waker) {
            Polled::Ready(Ok((start_seq, end_seq))) => Polled::Ready(
                Some(
                    ReadRefsImpl {
                        consumer_sequencer: &self.consumer_sequencer,
                        start_seq,
                        end_seq,
                        item: core::marker::PhantomData,
                    },
                ),
            ),
            Polled::Ready(Err(_)) => Polled::Ready(None),
            Polled::Pending => Polled::Pending,
        }
    }
}

impl<P: ProducerBarrier, C: ConsumerCursors, T> ReceiverImpl<DefaultConsumerSequencer<P, C>, T> {
    /// This receiver leaves the channel and no longer holds the senders back.
    pub fn disconnect(self, chan: &mut Channel<Gates<P, C>, T>)
        requires
            old(chan).serves(&self.consumer_sequencer),
        ensures
            final(chan).gates.inv(),
            final(chan).ring_buffer == old(chan).ring_buffer,
            final(chan)@.gates == DefaultConsumerSequencer::<P, C>::left(
                self.consumer_sequencer@,
                old(chan)@.gates,
            ),
    {
        self.consumer_sequencer.disconnect(&mut chan.gates);
    }
}

} // verus!
