//! Permits to write reserved slots and references to claimed items.
//!
//! A permit or a reference borrows the endpoint that it came from and is handed the channel
//! where it acts on it. It is used up by the step that completes it.

use vstd::prelude::*;

use crate::channel::Channel;
use crate::receiver::ReadBatchIter;
use crate::ringbuffer::RingBuffer;
use crate::sequence::Sequence;
use crate::sequencers::Sequencer;
use crate::slot_recycler::SlotRecycler;

verus! {

/// A reserved slot in the channel for writing a value.
///
/// A permit ends by writing a value or by being released, which leaves the sentinel value in
/// the slot.
pub trait ChanWritePermit<T>: Sized {
    /// The gates of the channel.
    type Gates: View;

    /// The endpoint that this permit came from is one of the channel.
    spec fn attached(&self, chan: &Channel<Self::Gates, T>) -> bool;

    /// The slot is still reserved.
    spec fn open(&self, gates: <Self::Gates as View>::V) -> bool;

    /// The sequence of the reserved slot.
    spec fn sequence(&self) -> int;

    /// The gates after the permit has ended.
    spec fn ended(&self, gates: <Self::Gates as View>::V) -> <Self::Gates as View>::V;

    /// The stale values that the permit can replace by a sentinel value.
    spec fn can_recycle(&self, stale: T) -> bool;

    /// Whether `fresh` may take the place of `stale` where nothing is written.
    spec fn recycled(&self, stale: T, fresh: T) -> bool;

    /// Writes the value to the reserved slot.
    fn write(self, chan: &mut Channel<Self::Gates, T>, value: T)
        requires
            self.attached(old(chan)),
            self.open(old(chan)@.gates),
        ensures
            self.attached(final(chan)),
            final(chan)@.gates == self.ended(old(chan)@.gates),
            final(chan)@.slots == RingBuffer::with_item(
                old(chan)@.slots,
                self.sequence(),
                value,
            ),
    ;

    /// Lets `f` change the value in the reserved slot.
    fn update_in_place<F>(self, chan: &mut Channel<Self::Gates, T>, f: F) where F: FnOnce(&mut T)
        requires
            self.attached(old(chan)),
            self.open(old(chan)@.gates),
            forall|slot: &mut T|
                *slot == old(chan)@.item(self.sequence()) ==> call_requires(f, (slot,)),
        ensures
            self.attached(final(chan)),
            final(chan)@.gates == self.ended(old(chan)@.gates),
            exists|slot: &mut T|
                {
                    &&& *slot == old(chan)@.item(self.sequence())
                    &&& final(chan)@.slots == RingBuffer::with_item(
                        old(chan)@.slots,
                        self.sequence(),
                        *final(slot),
                    )
                    &&& #[trigger] call_ensures(f, (slot,), ())
                },
    ;

    /// Ends the permit without a value: the slot is recycled.
    fn release(self, chan: &mut Channel<Self::Gates, T>)
        requires
            self.attached(old(chan)),
            self.open(old(chan)@.gates),
            self.can_recycle(old(chan)@.item(self.sequence())),
        ensures
            self.attached(final(chan)),
            final(chan)@.gates == self.ended(old(chan)@.gates),
            final(chan)@.slots == RingBuffer::with_item(
                old(chan)@.slots,
                self.sequence(),
                final(chan)@.item(self.sequence()),
            ),
            self.recycled(
                old(chan)@.item(self.sequence()),
                final(chan)@.item(self.sequence()),
            ),
    ;
}

/// A permit for one slot.
pub struct WritePermitImpl<'a, T, S, P> {
    pub sequence: Sequence,
    pub publisher_sequencer: &'a P,
    pub recycler: S,
    pub item: core::marker::PhantomData<T>,
}

impl<'a, T, S: SlotRecycler<T>, P: Sequencer> ChanWritePermit<T> for WritePermitImpl<'a, T, S, P> {
    type Gates = P::Gates;

    open spec fn attached(&self, chan: &Channel<P::Gates, T>) -> bool {
        chan.serves(self.publisher_sequencer)
    }

    open spec fn open(&self, gates: <P::Gates as View>::V) -> bool {
        P::outstanding(self.publisher_sequencer@, gates, self.sequence@, self.sequence@)
    }

    open spec fn sequence(&self) -> int {
        self.sequence@
    }

    open spec fn ended(&self, gates: <P::Gates as View>::V) -> <P::Gates as View>::V {
        P::committed(self.publisher_sequencer@, gates, self.sequence@, self.sequence@)
    }

    open spec fn can_recycle(&self, stale: T) -> bool {
        self.recycler.can_recycle(stale)
    }

    open spec fn recycled(&self, stale: T, fresh: T) -> bool {
        self.recycler.recycled(stale, fresh)
    }

    fn write(self, chan: &mut Channel<P::Gates, T>, value: T)
        ensures
            final(chan)@.gates == P::committed(
                self.publisher_sequencer@,
                old(chan)@.gates,
                self.sequence@,
                self.sequence@,
            ),
            final(chan)@.slots == RingBuffer::with_item(old(chan)@.slots, self.sequence@, value),
    {
        chan.ring_buffer.write_at(self.sequence, value);
        self.publisher_sequencer.commit(&mut chan.gates, self.sequence);
    }

    fn update_in_place<F>(self, chan: &mut Channel<P::Gates, T>, f: F) where F: FnOnce(&mut T)
        ensures
            final(chan)@.gates == P::committed(
                self.publisher_sequencer@,
                old(chan)@.gates,
                self.sequence@,
                self.sequence@,
            ),
    {
        chan.ring_buffer.modify_at(self.sequence, f);
        self.publisher_sequencer.commit(&mut chan.gates, self.sequence);
    }

    fn release(self, chan: &mut Channel<P::Gates, T>)
        ensures
            final(chan)@.gates == P::committed(
                self.publisher_sequencer@,
                old(chan)@.gates,
                self.sequence@,
                self.sequence@,
            ),
            final(chan)@.slots == RingBuffer::with_item(
                old(chan)@.slots,
                self.sequence@,
                final(chan)@.item(self.sequence@),
            ),
            exists|slot: &mut T|
                {
                    &&& *slot == old(chan)@.item(self.sequence@)
                    &&& *final(slot) == final(chan)@.item(self.sequence@)
                    &&& call_ensures(S::recycle, (&self.recycler, slot), ())
                },
    {
        chan.ring_buffer.recycle_at(self.sequence, &self.recycler);
        self.publisher_sequencer.commit(&mut chan.gates, self.sequence);
    }
}

/// A batch of consecutive reserved slots in the channel for writing values.
///
/// A batch ends by being committed. The slots that were not handed out by then are recycled.
pub trait ChanWritePermits<T>: Sized {
    /// The gates of the channel.
    type Gates: View;

    /// What repairs the slots without a value.
    type Recycler: SlotRecycler<T>;

    /// The sequencer that the slots were claimed from.
    type Publisher: Sequencer;

    /// The slots that were handed out come first, and the batch is no larger than can be
    /// counted.
    spec fn wf(&self) -> bool;

    /// The endpoint that this batch came from is one of the channel.
    spec fn attached(&self, chan: &Channel<Self::Gates, T>) -> bool;

    /// The slots are still reserved.
    spec fn open(&self, gates: <Self::Gates as View>::V) -> bool;

    /// The first sequence of the batch.
    spec fn first(&self) -> int;

    /// The last sequence of the batch.
    spec fn last(&self) -> int;

    /// The next sequence to hand out.
    spec fn upcoming(&self) -> int;

    /// The gates after the batch is committed.
    spec fn ended(&self, gates: <Self::Gates as View>::V) -> <Self::Gates as View>::V;

    /// The stale values that the batch can replace by a sentinel value.
    spec fn can_recycle(&self, stale: T) -> bool;

    /// Whether `fresh` may take the place of `stale` in a slot that was not handed out.
    spec fn recycled(&self, stale: T, fresh: T) -> bool;

    /// The number of slots reserved in total.
    fn total_reserved(&self) -> (total: usize)
        requires
            self.wf(),
        ensures
            total == self.last() - self.first() + 1,
    ;

    /// The permit for the next slot, if there is one left.
    fn next<'batch>(&'batch mut self) -> (permit: Option<
        BatchWritePermitImpl<'batch, T, Self::Recycler, Self::Publisher>,
    >)
        requires
            old(self).wf(),
        ensures
            final(self).wf(),
            final(self).first() == old(self).first(),
            final(self).last() == old(self).last(),
            match permit {
                Some(permit) => {
                    &&& old(self).upcoming() <= old(self).last()
                    &&& permit.sequence@ == old(self).upcoming()
                    &&& final(self).upcoming() == old(self).upcoming() + 1
                },
                None => {
                    &&& old(self).upcoming() > old(self).last()
                    &&& final(self).upcoming() == old(self).upcoming()
                },
            },
    ;

    /// Commits the batch so that the receivers can read its values.
    fn commit(self, chan: &mut Channel<Self::Gates, T>)
        requires
            self.wf(),
            self.attached(old(chan)),
            self.open(old(chan)@.gates),
            forall|seq: int|
                self.upcoming() <= seq <= self.last() ==> self.can_recycle(
                    #[trigger] old(chan)@.item(seq),
                ),
        ensures
            self.attached(final(chan)),
            final(chan)@.gates == self.ended(old(chan)@.gates),
            final(chan)@.slots.len() == old(chan)@.slots.len(),
            forall|seq: int|
                self.upcoming() <= seq <= self.last() ==> self.recycled(
                    old(chan)@.item(seq),
                    #[trigger] final(chan)@.item(seq),
                ),
            forall|seq: int|
                self.last() - old(chan)@.slots.len() < seq < self.upcoming()
                    ==> #[trigger] final(chan)@.item(seq) == old(chan)@.item(seq),
    ;
}

/// A batch of permits.
pub struct WritePermitsImpl<'a, T, S, P> {
    pub publisher_sequencer: &'a P,
    pub start_seq: i64,
    pub end_seq: i64,
    pub next_seq: i64,
    pub recycler: S,
    pub item: core::marker::PhantomData<T>,
}

/// A permit for one slot of a batch.
pub struct BatchWritePermitImpl<'batch, T, S, P> {
    pub sequence: Sequence,
    pub batch: &'batch WritePermitsImpl<'batch, T, S, P>,
}

impl<'a, T, S: SlotRecycler<T>, P: Sequencer> WritePermitsImpl<'a, T, S, P> {
    /// Writes `value` to the slot of sequence `seq`.
    fn write(&self, chan: &mut Channel<P::Gates, T>, seq: Sequence, value: T)
        requires
            old(chan).serves(self.publisher_sequencer),
        ensures
            final(chan).serves(self.publisher_sequencer),
            final(chan)@ == old(chan)@.written(seq@, value),
    {
        chan.ring_buffer.write_at(seq, value);
    }

    /// Recycles the slot of sequence `seq`.
    fn recycle(&self, chan: &mut Channel<P::Gates, T>, seq: Sequence)
        requires
            old(chan).serves(self.publisher_sequencer),
            self.recycler.can_recycle(old(chan)@.item(seq@)),
        ensures
            final(chan).serves(self.publisher_sequencer),
            final(chan)@ == old(chan)@.written(seq@, final(chan)@.item(seq@)),
            self.recycler.recycled(old(chan)@.item(seq@), final(chan)@.item(seq@)),
            exists|slot: &mut T|
                {
                    &&& *slot == old(chan)@.item(seq@)
                    &&& *final(slot) == final(chan)@.item(seq@)
                    &&& call_ensures(S::recycle, (&self.recycler, slot), ())
                },
    {
        chan.ring_buffer.recycle_at(seq, &self.recycler);
    }
}

impl<'batch, T, S: SlotRecycler<T>, P: Sequencer> ChanWritePermit<
    T,
> for BatchWritePermitImpl<'batch, T, S, P> {
    type Gates = P::Gates;

    open spec fn attached(&self, chan: &Channel<P::Gates, T>) -> bool {
        chan.serves(self.batch.publisher_sequencer)
    }

    open spec fn open(&self, gates: <P::Gates as View>::V) -> bool {
        &&& self.batch.open(gates)
        &&& self.batch.start_seq <= self.sequence@ < self.batch.next_seq
    }

    open spec fn sequence(&self) -> int {
        self.sequence@
    }

    open spec fn ended(&self, gates: <P::Gates as View>::V) -> <P::Gates as View>::V {
        gates
    }

    open spec fn can_recycle(&self, stale: T) -> bool {
        self.batch.recycler.can_recycle(stale)
    }

    open spec fn recycled(&self, stale: T, fresh: T) -> bool {
        self.batch.recycler.recycled(stale, fresh)
    }

    fn write(self, chan: &mut Channel<P::Gates, T>, value: T)
        ensures
            final(chan)@.gates == old(chan)@.gates,
            final(chan)@.slots == RingBuffer::with_item(old(chan)@.slots, self.sequence@, value),
    {
        self.batch.write(chan, self.sequence, value);
    }

    fn update_in_place<F>(self, chan: &mut Channel<P::Gates, T>, f: F) where F: FnOnce(&mut T)
        ensures
            final(chan)@.gates == old(chan)@.gates,
    {
        chan.ring_buffer.modify_at(self.sequence, f);
    }

    fn release(self, chan: &mut Channel<P::Gates, T>)
        ensures
            final(chan)@.gates == old(chan)@.gates,
            final(chan)@.slots == RingBuffer::with_item(
                old(chan)@.slots,
                self.sequence@,
                final(chan)@.item(self.sequence@),
            ),
            exists|slot: &mut T|
                {
                    &&& *slot == old(chan)@.item(self.sequence@)
                    &&& *final(slot) == final(chan)@.item(self.sequence@)
                    &&& call_ensures(S::recycle, (&self.batch.recycler, slot), ())
                },
    {
        self.batch.recycle(chan, self.sequence);
    }
}

impl<'a, T, S: SlotRecycler<T>, P: Sequencer> ChanWritePermits<T> for WritePermitsImpl<'a, T, S, P> {
    type Gates = P::Gates;

    type Recycler = S;

    type Publisher = P;

    open spec fn wf(&self) -> bool {
        &&& 0 <= self.start_seq <= self.next_seq <= self.end_seq + 1
        &&& self.end_seq < i64::MAX
        &&& self.end_seq - self.start_seq < usize::MAX
    }

    open spec fn attached(&self, chan: &Channel<P::Gates, T>) -> bool {
        &&& chan.serves(self.publisher_sequencer)
        &&& self.end_seq - self.start_seq < chan@.slots.len()
    }

    open spec fn open(&self, gates: <P::Gates as View>::V) -> bool {
        self.start_seq <= self.end_seq ==> P::outstanding(
            self.publisher_sequencer@,
            gates,
            self.start_seq as int,
            self.end_seq as int,
        )
    }

    open spec fn first(&self) -> int {
        self.start_seq as int
    }

    open spec fn last(&self) -> int {
        self.end_seq as int
    }

    open spec fn upcoming(&self) -> int {
        self.next_seq as int
    }

    open spec fn ended(&self, gates: <P::Gates as View>::V) -> <P::Gates as View>::V {
        if self.start_seq <= self.end_seq {
            P::committed(
                self.publisher_sequencer@,
                gates,
                self.start_seq as int,
                self.end_seq as int,
            )
        } else {
            gates
        }
    }

    open spec fn can_recycle(&self, stale: T) -> bool {
        self.recycler.can_recycle(stale)
    }

    open spec fn recycled(&self, stale: T, fresh: T) -> bool {
        self.recycler.recycled(stale, fresh)
    }

    fn total_reserved(&self) -> (total: usize)
        ensures
            total == self.end_seq - self.start_seq + 1,
    {
        (self.end_seq - self.start_seq + 1) as usize
    }

    fn next<'batch>(&'batch mut self) -> (permit: Option<BatchWritePermitImpl<'batch, T, S, P>>)
        ensures
            *final(self) == (WritePermitsImpl { next_seq: final(self).next_seq, ..*old(self) }),
            permit is Some <==> old(self).next_seq <= old(self).end_seq,
            permit matches Some(permit) ==> {
                &&& *permit.batch == *final(self)
                &&& permit.sequence@ == old(self).next_seq
                &&& final(self).next_seq == old(self).next_seq + 1
            },
            permit is None ==> *final(self) == *old(self),
    {
        if self.next_seq > self.end_seq {
            return None;
        }
        let seq = self.next_seq;
        self.next_seq = seq + 1;
        Some(BatchWritePermitImpl { sequence: Sequence::new(seq), batch: &*self })
    }

    fn commit(self, chan: &mut Channel<P::Gates, T>)
        ensures
            final(chan)@.gates == if self.start_seq <= self.end_seq {
                P::committed(
                    self.publisher_sequencer@,
                    old(chan)@.gates,
                    self.start_seq as int,
                    self.end_seq as int,
                )
            } else {
                old(chan)@.gates
            },
            forall|seq: int|
                self.end_seq - old(chan)@.slots.len() < seq < self.next_seq
                    ==> #[trigger] final(chan)@.item(seq) == old(chan)@.item(seq),
            forall|seq: int|
                self.next_seq <= seq <= self.end_seq ==> {
                    &&& self.recycler.recycled(
                        old(chan)@.item(seq),
                        #[trigger] final(chan)@.item(seq),
                    )
                    &&& exists|slot: &mut T|
                        {
                            &&& *slot == old(chan)@.item(seq)
                            &&& *final(slot) == final(chan)@.item(seq)
                            &&& call_ensures(S::recycle, (&self.recycler, slot), ())
                        }
                },
    {
        let mut next_seq = self.next_seq;
        let ghost capacity = chan@.slots.len();
        while next_seq <= self.end_seq
            invariant
                self.wf(),
                self.attached(chan),
                self.attached(old(chan)),
                self.next_seq <= next_seq <= self.end_seq + 1,
                capacity == chan@.slots.len() == old(chan)@.slots.len(),
                chan@.gates == old(chan)@.gates,
                forall|seq: int|
                    self.next_seq <= seq <= self.end_seq ==> self.recycler.can_recycle(
                        #[trigger] old(chan)@.item(seq),
                    ),
                forall|seq: int|
                    self.next_seq <= seq < next_seq ==> {
                        &&& self.recycler.recycled(
                            old(chan)@.item(seq),
                            #[trigger] chan@.item(seq),
                        )
                        &&& exists|slot: &mut T|
                            {
                                &&& *slot == old(chan)@.item(seq)
                                &&& *final(slot) == chan@.item(seq)
                                &&& call_ensures(S::recycle, (&self.recycler, slot), ())
                            }
                    },
                forall|seq: int|
                    self.end_seq - capacity < seq < self.next_seq || next_seq <= seq
                        <= self.end_seq ==> #[trigger] chan@.item(seq) == old(chan)@.item(seq),
            decreases self.end_seq + 1 - next_seq,
        {
            let ghost before = chan@;
            self.recycle(chan, Sequence::new(next_seq));
            proof {
                assert forall|seq: int|
                    self.end_seq - capacity < seq <= self.end_seq
                        && seq != next_seq implies #[trigger] chan@.item(seq) == before.item(seq) by {
                    RingBuffer::lemma_with_item(
                        before.slots,
                        next_seq as int,
                        chan@.item(next_seq as int),
                        seq,
                    );
                }
                assert(before.item(next_seq as int) == old(chan)@.item(next_seq as int));
                assert forall|seq: int| self.next_seq <= seq <= next_seq implies {
                    &&& self.recycler.recycled(old(chan)@.item(seq), #[trigger] chan@.item(seq))
                    &&& exists|slot: &mut T|
                        {
                            &&& *slot == old(chan)@.item(seq)
                            &&& *final(slot) == chan@.item(seq)
                            &&& call_ensures(S::recycle, (&self.recycler, slot), ())
                        }
                } by {
                    if seq < next_seq {
                        assert(chan@.item(seq) == before.item(seq));
                    }
                }
            }
            next_seq = next_seq + 1;
        }
        let ghost filled = chan@;
        if self.start_seq <= self.end_seq {
            self.publisher_sequencer.commit_range(
                &mut chan.gates,
                Sequence::new(self.start_seq),
                Sequence::new(self.end_seq),
            );
        }
        assert(forall|seq: int| #[trigger] chan@.item(seq) == filled.item(seq));
    }
}

/// A readable reference to a value from the channel.
///
/// A reference ends by being finished, which releases its slot. A value that is not read by
/// then is lost to this consumer.
pub trait ChanReadRef<T>: Sized {
    /// The gates of the channel.
    type Gates: View;

    /// The endpoint that this reference came from is one of the channel.
    spec fn attached(&self, chan: &Channel<Self::Gates, T>) -> bool;

    /// The slot is not released yet.
    spec fn open(&self, gates: <Self::Gates as View>::V) -> bool;

    /// The sequence of the value.
    spec fn sequence(&self) -> int;

    /// The gates after the reference is finished.
    spec fn ended(&self, gates: <Self::Gates as View>::V) -> <Self::Gates as View>::V;

    /// The value.
    fn get<'c>(&self, chan: &'c Channel<Self::Gates, T>) -> (value: &'c T)
        requires
            self.attached(chan),
            self.open(chan@.gates),
        ensures
            *value == chan@.item(self.sequence()),
    ;

    /// Consumes the reference, releasing its slot to the channel.
    fn finish(self, chan: &mut Channel<Self::Gates, T>)
        requires
            self.attached(old(chan)),
            self.open(old(chan)@.gates),
        ensures
            self.attached(final(chan)),
            final(chan)@.gates == self.ended(old(chan)@.gates),
            final(chan)@.slots == old(chan)@.slots,
    ;
}

/// A readable reference to consecutive values from the channel.
///
/// A reference ends by being finished, which releases its slots. Values that are not read by
/// then are lost to this consumer.
pub trait ChanReadRefs<T>: Sized {
    /// The gates of the channel.
    type Gates: View;

    /// The endpoint that this reference came from is one of the channel.
    spec fn attached(&self, chan: &Channel<Self::Gates, T>) -> bool;

    /// The slots are not released yet.
    spec fn open(&self, gates: <Self::Gates as View>::V) -> bool;

    /// The first sequence of the batch.
    spec fn first(&self) -> int;

    /// The last sequence of the batch.
    spec fn last(&self) -> int;

    /// The gates after the reference is finished.
    spec fn ended(&self, gates: <Self::Gates as View>::V) -> <Self::Gates as View>::V;

    /// The values of the batch, in the order in which they were sent.
    fn iter<'c>(&self, chan: &'c Channel<Self::Gates, T>) -> (iter: ReadBatchIter<'c, T>)
        requires
            self.attached(chan),
            self.open(chan@.gates),
        ensures
            iter.wf(),
            iter@ == chan@.items(self.first(), self.last()),
    ;

    /// Consumes the reference, releasing its slots to the channel.
    fn finish(self, chan: &mut Channel<Self::Gates, T>)
        requires
            self.attached(old(chan)),
            self.open(old(chan)@.gates),
        ensures
            self.attached(final(chan)),
            final(chan)@.gates == self.ended(old(chan)@.gates),
            final(chan)@.slots == old(chan)@.slots,
    ;
}

} // verus!
