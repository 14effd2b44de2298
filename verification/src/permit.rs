//! A claimed range of slots that is filled and committed as one batch.

use vstd::prelude::*;

use crate::channel::Channel;
use crate::publisher::Publisher;
use crate::ringbuffer::RingBuffer;
use crate::sequence::Sequence;
use crate::sequencers::Sequencer;
use crate::slot_recycler::SlotRecycler;

verus! {

/// An exact write was offered a number of items other than the number of slots left.
#[derive(Debug, Clone, Copy, PartialEq, Eq, Structural)]
pub struct ExactLenMismatch {
    pub expected: usize,
    pub got: usize,
}

/// A claimed contiguous range of sequences.
///
/// The batch ends by being finished: the slots without an item are filled by the factory, and
/// the whole range is committed.
pub struct SendBatch<'a, P, T, S> {
    pub publisher: &'a Publisher<P, T>,
    pub start_seq: i64,
    pub end_seq: i64,
    pub next_seq: i64,
    pub factory: S,
}

impl<'a, P: Sequencer, T, S: SlotRecycler<T>> SendBatch<'a, P, T, S> {
    /// The range is not empty, its written part comes first, and it is no larger than can be
    /// counted.
    pub open spec fn wf(&self) -> bool {
        &&& 0 <= self.start_seq <= self.end_seq < i64::MAX
        &&& self.start_seq <= self.next_seq <= self.end_seq + 1
        &&& self.end_seq - self.start_seq < usize::MAX
    }

    /// The endpoint that this batch came from is one of the channel.
    pub open spec fn attached(&self, chan: &Channel<P::Gates, T>) -> bool {
        &&& chan.serves(&self.publisher.publisher_sequencer)
        &&& self.end_seq - self.start_seq < chan@.slots.len()
    }

    /// The range is still claimed.
    pub open spec fn open(&self, gates: <P::Gates as View>::V) -> bool {
        P::outstanding(
            self.publisher.publisher_sequencer@,
            gates,
            self.start_seq as int,
            self.end_seq as int,
        )
    }

    /// The gates after the batch is committed.
    pub open spec fn ended(&self, gates: <P::Gates as View>::V) -> <P::Gates as View>::V {
        P::committed(
            self.publisher.publisher_sequencer@,
            gates,
            self.start_seq as int,
            self.end_seq as int,
        )
    }

    /// The number of slots without an item.
    pub open spec fn left(&self) -> int {
        self.end_seq + 1 - self.next_seq
    }

    /// This batch with `n` more slots written.
    pub open spec fn advanced(self, n: int) -> Self {
        SendBatch { next_seq: (self.next_seq + n) as i64, ..self }
    }

    /// Whether the slots without an item are filled as the factory fills them and the others
    /// are left alone.
    pub open spec fn filled(&self, before: Seq<T>, after: Seq<T>) -> bool {
        &&& after.len() == before.len()
        &&& forall|seq: int|
            self.next_seq <= seq <= self.end_seq ==> self.factory.recycled(
                RingBuffer::item(before, seq),
                #[trigger] RingBuffer::item(after, seq),
            )
        &&& forall|seq: int|
            self.end_seq - before.len() < seq < self.next_seq ==> #[trigger] RingBuffer::item(
                after,
                seq,
            ) == RingBuffer::item(before, seq)
    }

    /// Whether the factory can fill the slots without an item.
    pub open spec fn can_fill(&self, slots: Seq<T>) -> bool {
        forall|seq: int|
            self.next_seq <= seq <= self.end_seq ==> self.factory.can_recycle(
                #[trigger] RingBuffer::item(slots, seq),
            )
    }

    /// The batch over the claimed range from `start_seq` to `end_seq`.
    pub fn new(publisher: &'a Publisher<P, T>, start_seq: i64, end_seq: i64, factory: S) -> (batch:
        Self)
        requires
            0 <= start_seq <= end_seq < i64::MAX,
            end_seq - start_seq < usize::MAX,
        ensures
            batch.wf(),
            batch == (SendBatch { publisher, start_seq, end_seq, next_seq: start_seq, factory }),
    {
        SendBatch { publisher, start_seq, end_seq, next_seq: start_seq, factory }
    }

    /// The number of slots in the batch.
    pub fn capacity(&self) -> (capacity: usize)
        requires
            self.wf(),
        ensures
            capacity == self.end_seq - self.start_seq + 1,
    {
        (self.end_seq - self.start_seq + 1) as usize
    }

    /// The number of slots without an item.
    pub fn remaining(&self) -> (remaining: usize)
        requires
            self.wf(),
        ensures
            remaining == self.left(),
            remaining == self.end_seq + 1 - self.next_seq,
    {
        if self.next_seq > self.end_seq {
            0
        } else {
            (self.end_seq - self.next_seq + 1) as usize
        }
    }

    /// Writes `item` to the next slot, or hands it back where the batch is full.
    pub fn try_write_next(&mut self, chan: &mut Channel<P::Gates, T>, item: T) -> (written: Result<
        (),
        T,
    >)
        requires
            old(self).wf(),
            old(self).attached(old(chan)),
        ensures
            final(self).wf(),
            final(self).attached(final(chan)),
            match written {
                Ok(()) => {
                    &&& old(self).left() > 0
                    &&& *final(self) == old(self).advanced(1)
                    &&& final(chan)@ == old(chan)@.written(old(self).next_seq as int, item)
                },
                Err(unwritten) => {
                    &&& old(self).left() == 0
                    &&& unwritten == item
                    &&& *final(self) == *old(self)
                    &&& final(chan)@ == old(chan)@
                },
            },
    {
        if self.next_seq > self.end_seq {
            return Err(item);
        }
        self.publisher.write_at_value(chan, self.next_seq, item);
        self.next_seq = self.next_seq + 1;
        Ok(())
    }

    /// Writes `item` to the next slot.
    pub fn write_next(&mut self, chan: &mut Channel<P::Gates, T>, item: T)
        requires
            old(self).wf(),
            old(self).attached(old(chan)),
            old(self).left() > 0,
        ensures
            final(self).wf(),
            final(self).attached(final(chan)),
            *final(self) == old(self).advanced(1),
            final(chan)@ == old(chan)@.written(old(self).next_seq as int, item),
    {
        let _ = self.try_write_next(chan, item);
    }

    /// Writes items to the next slots until there are no more of either, and tells how many
    /// were written.
    pub fn write_from_iter(&mut self, chan: &mut Channel<P::Gates, T>, items: Vec<T>) -> (written:
        usize)
        requires
            old(self).wf(),
            old(self).attached(old(chan)),
        ensures
            final(self).wf(),
            final(self).attached(final(chan)),
            written == if items@.len() <= old(self).left() {
                items@.len() as int
            } else {
                old(self).left()
            },
            *final(self) == old(self).advanced(written as int),
            final(chan)@.gates == old(chan)@.gates,
            final(chan)@.slots == RingBuffer::with_items(
                old(chan)@.slots,
                old(self).next_seq as int,
                items@.take(written as int),
            ),
    {
        let ghost offered = items@;
        let mut written: usize = 0;
        assert(offered.take(0) =~= Seq::empty());
        for item in it: items
            invariant
                self.wf(),
                self.attached(chan),
                it.seq() == offered,
                written == if it.index() <= old(self).left() {
                    it.index() as int
                } else {
                    old(self).left()
                },
                old(self).wf(),
                *self == old(self).advanced(written as int),
                chan@.gates == old(chan)@.gates,
                chan@.slots == RingBuffer::with_items(
                    old(chan)@.slots,
                    old(self).next_seq as int,
                    offered.take(written as int),
                ),
        {
            if self.try_write_next(chan, item).is_ok() {
                proof {
                    assert(offered.take(written + 1).drop_last() =~= offered.take(written as int));
                    assert(offered.take(written + 1).last() == item);
                }
                written = written + 1;
            }
        }
        written
    }

    /// Writes `items` to the slots that are left, where there are as many of the one as of the
    /// other.
    pub fn try_write_exact(&mut self, chan: &mut Channel<P::Gates, T>, items: Vec<T>) -> (written:
        Result<(), ExactLenMismatch>)
        requires
            old(self).wf(),
            old(self).attached(old(chan)),
        ensures
            final(self).wf(),
            final(self).attached(final(chan)),
            match written {
                Ok(()) => {
                    &&& items@.len() == old(self).left()
                    &&& *final(self) == old(self).advanced(items@.len() as int)
                    &&& final(chan)@.gates == old(chan)@.gates
                    &&& final(chan)@.slots == RingBuffer::with_items(
                        old(chan)@.slots,
                        old(self).next_seq as int,
                        items@,
                    )
                },
                Err(mismatch) => {
                    &&& items@.len() != old(self).left()
                    &&& mismatch.expected == old(self).left()
                    &&& mismatch.got == items@.len()
                    &&& *final(self) == *old(self)
                    &&& final(chan)@ == old(chan)@
                },
            },
    {
        let got = items.len();
        let expected = self.remaining();
        if got != expected {
            return Err(ExactLenMismatch { expected, got });
        }
        proof {
            assert(items@.take(items@.len() as int) =~= items@);
        }
        let _ = self.write_from_iter(chan, items);
        Ok(())
    }

    /// Writes `items`, of which there are as many as slots left.
    pub fn write_exact(&mut self, chan: &mut Channel<P::Gates, T>, items: Vec<T>)
        requires
            old(self).wf(),
            old(self).attached(old(chan)),
            items@.len() == old(self).left(),
        ensures
            final(self).wf(),
            final(self).attached(final(chan)),
            *final(self) == old(self).advanced(items@.len() as int),
            final(chan)@.gates == old(chan)@.gates,
            final(chan)@.slots == RingBuffer::with_items(
                old(chan)@.slots,
                old(self).next_seq as int,
                items@,
            ),
    {
        let _ = self.try_write_exact(chan, items);
    }

    /// Writes what `make` makes to each slot that is left.
    pub fn fill_with<G>(&mut self, chan: &mut Channel<P::Gates, T>, mut make: G) where G: FnMut() -> T
        requires
            old(self).wf(),
            old(self).attached(old(chan)),
            call_requires(make, ()),
        ensures
            final(self).wf(),
            final(self).attached(final(chan)),
            *final(self) == old(self).advanced(old(self).left()),
            final(chan)@.gates == old(chan)@.gates,
            final(chan)@.slots.len() == old(chan)@.slots.len(),
            forall|seq: int|
                old(self).next_seq <= seq <= old(self).end_seq ==> call_ensures(
                    make,
                    (),
                    #[trigger] RingBuffer::item(final(chan)@.slots, seq),
                ),
            forall|seq: int|
                old(self).end_seq - old(chan)@.slots.len() < seq < old(self).next_seq
                    ==> #[trigger] RingBuffer::item(final(chan)@.slots, seq) == RingBuffer::item(
                    old(chan)@.slots,
                    seq,
                ),
    {
        let ghost maker = make;
        let ghost capacity = chan@.slots.len();
        while self.next_seq <= self.end_seq
            invariant
                self.wf(),
                self.attached(chan),
                old(self).wf(),
                make == maker,
                call_requires(make, ()),
                old(self).next_seq <= self.next_seq,
                *self == old(self).advanced(self.next_seq - old(self).next_seq),
                chan@.gates == old(chan)@.gates,
                capacity == chan@.slots.len() == old(chan)@.slots.len(),
                forall|seq: int|
                    old(self).next_seq <= seq < self.next_seq ==> call_ensures(
                        make,
                        (),
                        #[trigger] RingBuffer::item(chan@.slots, seq),
                    ),
                forall|seq: int|
                    old(self).end_seq - capacity < seq < old(self).next_seq
                        ==> #[trigger] RingBuffer::item(chan@.slots, seq) == RingBuffer::item(
                        old(chan)@.slots,
                        seq,
                    ),
            decreases self.end_seq + 1 - self.next_seq,
        {
            let ghost before = chan@;
            let ghost seq_written = self.next_seq as int;
            let item = make();
            let ghost made = item;
            self.publisher.write_at_value(chan, self.next_seq, item);
            proof {
                assert forall|seq: int|
                    self.end_seq - capacity < seq <= self.end_seq implies #[trigger] RingBuffer::item(
                    chan@.slots,
                    seq,
                ) == if seq == seq_written {
                    made
                } else {
                    RingBuffer::item(before.slots, seq)
                } by {
                    RingBuffer::lemma_with_item(before.slots, seq_written, made, seq);
                }
            }
            self.next_seq = self.next_seq + 1;
        }
    }

    /// Fills the slots that are left with what the factory makes and commits the batch.
    pub fn finish(self, chan: &mut Channel<P::Gates, T>)
        requires
            self.wf(),
            self.attached(old(chan)),
            self.open(old(chan)@.gates),
            self.can_fill(old(chan)@.slots),
        ensures
            self.attached(final(chan)),
            final(chan)@.gates == self.ended(old(chan)@.gates),
            final(chan)@.gates == P::committed(
                self.publisher.publisher_sequencer@,
                old(chan)@.gates,
                self.start_seq as int,
                self.end_seq as int,
            ),
            self.filled(old(chan)@.slots, final(chan)@.slots),
            forall|seq: int|
                self.next_seq <= seq <= self.end_seq ==> {
                    &&& self.factory.recycled(
                        RingBuffer::item(old(chan)@.slots, seq),
                        #[trigger] RingBuffer::item(final(chan)@.slots, seq),
                    )
                    &&& exists|slot: &mut T|
                        {
                            &&& *slot == RingBuffer::item(old(chan)@.slots, seq)
                            &&& *final(slot) == RingBuffer::item(final(chan)@.slots, seq)
                            &&& call_ensures(S::recycle, (&self.factory, slot), ())
                        }
                },
    {
        let mut batch = self;
        batch.fill_remaining_with_factory(chan);
        batch.commit(chan);
    }

    /// Fills the slots that are left with what the factory makes.
    fn fill_remaining_with_factory(&mut self, chan: &mut Channel<P::Gates, T>)
        requires
            old(self).wf(),
            old(self).attached(old(chan)),
            old(self).can_fill(old(chan)@.slots),
        ensures
            final(self).wf(),
            final(self).attached(final(chan)),
            *final(self) == old(self).advanced(old(self).left()),
            final(chan)@.gates == old(chan)@.gates,
            old(self).filled(old(chan)@.slots, final(chan)@.slots),
            forall|seq: int|
                old(self).next_seq <= seq <= old(self).end_seq ==> {
                    &&& old(self).factory.recycled(
                        RingBuffer::item(old(chan)@.slots, seq),
                        #[trigger] RingBuffer::item(final(chan)@.slots, seq),
                    )
                    &&& exists|slot: &mut T|
                        {
                            &&& *slot == RingBuffer::item(old(chan)@.slots, seq)
                            &&& *final(slot) == RingBuffer::item(final(chan)@.slots, seq)
                            &&& call_ensures(S::recycle, (&old(self).factory, slot), ())
                        }
                },
    {
        let ghost capacity = chan@.slots.len();
        while self.next_seq <= self.end_seq
            invariant
                self.wf(),
                self.attached(chan),
                old(self).wf(),
                old(self).can_fill(old(chan)@.slots),
                old(self).next_seq <= self.next_seq,
                *self == old(self).advanced(self.next_seq - old(self).next_seq),
                chan@.gates == old(chan)@.gates,
                capacity == chan@.slots.len() == old(chan)@.slots.len(),
                forall|seq: int|
                    old(self).next_seq <= seq < self.next_seq ==> {
                        &&& old(self).factory.recycled(
                            RingBuffer::item(old(chan)@.slots, seq),
                            #[trigger] RingBuffer::item(chan@.slots, seq),
                        )
                        &&& exists|slot: &mut T|
                            {
                                &&& *slot == RingBuffer::item(old(chan)@.slots, seq)
                                &&& *final(slot) == RingBuffer::item(chan@.slots, seq)
                                &&& call_ensures(S::recycle, (&old(self).factory, slot), ())
                            }
                    },
                forall|seq: int|
                    old(self).end_seq - capacity < seq < old(self).next_seq || self.next_seq <= seq
                        <= self.end_seq ==> #[trigger] RingBuffer::item(chan@.slots, seq)
                        == RingBuffer::item(old(chan)@.slots, seq),
            decreases self.end_seq + 1 - self.next_seq,
        {
            let ghost before = chan@;
            let ghost seq_filled = self.next_seq as int;
            assert(RingBuffer::item(before.slots, seq_filled) == RingBuffer::item(
                old(chan)@.slots,
                seq_filled,
            ));
            chan.ring_buffer.recycle_at(Sequence::new(self.next_seq), &self.factory);
            proof {
                assert forall|seq: int|
                    self.end_seq - capacity < seq <= self.end_seq && seq
                        != seq_filled implies #[trigger] RingBuffer::item(chan@.slots, seq)
                    == RingBuffer::item(before.slots, seq) by {
                    RingBuffer::lemma_with_item(
                        before.slots,
                        seq_filled,
                        RingBuffer::item(chan@.slots, seq_filled),
                        seq,
                    );
                }
                assert forall|seq: int| old(self).next_seq <= seq <= seq_filled implies {
                    &&& old(self).factory.recycled(
                        RingBuffer::item(old(chan)@.slots, seq),
                        #[trigger] RingBuffer::item(chan@.slots, seq),
                    )
                    &&& exists|slot: &mut T|
                        {
                            &&& *slot == RingBuffer::item(old(chan)@.slots, seq)
                            &&& *final(slot) == RingBuffer::item(chan@.slots, seq)
                            &&& call_ensures(S::recycle, (&old(self).factory, slot), ())
                        }
                } by {
                    if seq < seq_filled {
                        assert(RingBuffer::item(chan@.slots, seq) == RingBuffer::item(
                            before.slots,
                            seq,
                        ));
                    }
                }
            }
            self.next_seq = self.next_seq + 1;
        }
    }

    /// Commits the range.
    fn commit(&self, chan: &mut Channel<P::Gates, T>)
        requires
            self.wf(),
            self.attached(old(chan)),
            self.open(old(chan)@.gates),
        ensures
            self.attached(final(chan)),
            final(chan)@.gates == self.ended(old(chan)@.gates),
            final(chan)@.gates == P::committed(
                self.publisher.publisher_sequencer@,
                old(chan)@.gates,
                self.start_seq as int,
                self.end_seq as int,
            ),
            final(chan)@.slots == old(chan)@.slots,
    {
        self.publisher.commit_range_value(chan, self.start_seq, self.end_seq);
    }
}

} // verus!
