//! What permits and read references come to, on the channels whose receivers see every item.

use vstd::prelude::*;

use crate::channel::{Channel, ChannelView};
use crate::errors::TryClaimError;
use crate::guards::{
    BatchWritePermitImpl, ChanReadRef, ChanReadRefs, ChanWritePermit, ChanWritePermits,
    WritePermitImpl, WritePermitsImpl,
};
use crate::receiver::{ReadRefImpl, ReadRefsImpl};
use crate::ringbuffer::{RingBuffer, RingBufferMeta};
use crate::sequencers::consumer::DefaultConsumerSequencer;
use crate::sequencers::pub_mul::{MultiPublisherSequencer, SharedState, SharedView};
use crate::sequencers::{ConsumerCursors, CursorsView, GatesView, Sequencer};
use crate::slot_recycler::SlotRecycler;

verus! {

/// A permit stands for the sequence that it was handed, and ends, in whatever lap that lies, by
/// the commit of that sequence.
pub proof fn law_permit_ends_by_a_commit<T, S: SlotRecycler<T>, P: Sequencer>(
    permit: WritePermitImpl<'_, T, S, P>,
    gates: <P::Gates as View>::V,
    stale: T,
    fresh: T,
)
    ensures
        permit.sequence() == permit.sequence@,
        permit.ended(gates) == P::committed(
            permit.publisher_sequencer@,
            gates,
            permit.sequence@,
            permit.sequence@,
        ),
        permit.open(gates) <==> P::outstanding(
            permit.publisher_sequencer@,
            gates,
            permit.sequence@,
            permit.sequence@,
        ),
        permit.can_recycle(stale) <==> permit.recycler.can_recycle(stale),
        permit.recycled(stale, fresh) <==> permit.recycler.recycled(stale, fresh),
{
}

/// A batch stands for the sequences from its first to its last one and hands them out in turn.
/// It ends, in whatever lap they lie, by the commit of all of them; an empty one changes nothing.
pub proof fn law_batch_ends_by_a_commit<T, S: SlotRecycler<T>, P: Sequencer>(
    batch: WritePermitsImpl<'_, T, S, P>,
    gates: <P::Gates as View>::V,
    stale: T,
    fresh: T,
)
    ensures
        batch.first() == batch.start_seq,
        batch.last() == batch.end_seq,
        batch.upcoming() == batch.next_seq,
        batch.start_seq <= batch.end_seq ==> {
            &&& batch.ended(gates) == P::committed(
                batch.publisher_sequencer@,
                gates,
                batch.start_seq as int,
                batch.end_seq as int,
            )
            &&& batch.open(gates) <==> P::outstanding(
                batch.publisher_sequencer@,
                gates,
                batch.start_seq as int,
                batch.end_seq as int,
            )
        },
        batch.start_seq > batch.end_seq ==> batch.ended(gates) == gates && batch.open(gates),
        batch.can_recycle(stale) <==> batch.recycler.can_recycle(stale),
        batch.recycled(stale, fresh) <==> batch.recycler.recycled(stale, fresh),
{
}

/// A permit of a batch stands for the sequence that it was handed and commits nothing by itself.
pub proof fn law_batch_permit_commits_nothing<T, S: SlotRecycler<T>, P: Sequencer>(
    permit: BatchWritePermitImpl<'_, T, S, P>,
    gates: <P::Gates as View>::V,
    stale: T,
    fresh: T,
)
    ensures
        permit.sequence() == permit.sequence@,
        permit.ended(gates) == gates,
        permit.open(gates) <==> permit.batch.open(gates) && permit.batch.start_seq
            <= permit.sequence@ < permit.batch.next_seq,
        permit.can_recycle(stale) <==> permit.batch.recycler.can_recycle(stale),
        permit.recycled(stale, fresh) <==> permit.batch.recycler.recycled(stale, fresh),
{
}

/// Reserving a slot and writing a value to it comes to the same as sending the value.
pub proof fn law_send_is_reserve_and_write<T, S: SlotRecycler<T>, P: Sequencer>(
    endpoint: P::V,
    chan: ChannelView<<P::Gates as View>::V, T>,
    permit: WritePermitImpl<'_, T, S, P>,
    value: T,
)
    requires
        permit.publisher_sequencer@ == Channel::claimed::<P>(
            endpoint,
            chan,
            permit.sequence@,
        ).0,
    ensures
        ({
            let (claimant, held) = Channel::claimed::<P>(endpoint, chan, permit.sequence@);
            Channel::sent::<P>(endpoint, chan, permit.sequence@, value) == (
                claimant,
                ChannelView {
                    gates: permit.ended(held.gates),
                    slots: RingBuffer::with_item(held.slots, permit.sequence(), value),
                },
            )
        }),
{
}

/// A value that is written to a reserved slot while no other claim is open is, whatever lap the
/// slot's sequence lies in, the newest unread item of every receiver.
pub proof fn law_reserved_item_is_received<C: ConsumerCursors, T, S: SlotRecycler<T>>(
    chan: ChannelView<GatesView<SharedView, CursorsView>, T>,
    permit: WritePermitImpl<'_, T, S, MultiPublisherSequencer<C>>,
    value: T,
)
    requires
        chan.valid(),
        chan.settled(),
        MultiPublisherSequencer::<C>::may_claim((), chan.gates),
        MultiPublisherSequencer::<C>::grant((), chan.gates, 1) == Ok::<(int, int), TryClaimError>(
            (permit.sequence@, permit.sequence@),
        ),
    ensures
        ({
            let held = Channel::claimed::<MultiPublisherSequencer<C>>(
                (),
                chan,
                permit.sequence@,
            ).1;
            let after = ChannelView {
                gates: permit.ended(held.gates),
                slots: RingBuffer::with_item(held.slots, permit.sequence(), value),
            };
            &&& permit.open(held.gates)
            &&& after.valid()
            &&& after.settled()
            &&& after.gates.producer.claimed == permit.sequence@
            &&& forall|index: int|
                #![trigger after.unread(index)]
                chan.follows(index) ==> after.follows(index) && after.unread(index)
                    == chan.unread(index).push(value)
        }),
{
    crate::laws::delivery::law_claim_is_invisible::<C, T>(
        chan,
        1,
        permit.sequence@,
        permit.sequence@,
    );
    crate::laws::delivery::law_send_appends::<C, T>(chan, permit.sequence@, value);
}

/// A permit that ends publishes its item whatever other claims are open: a receiver that had
/// reached it can read it, and a receiver that waits for an earlier claim still waits.
pub proof fn law_ended_permit_publishes<C: ConsumerCursors, T, S: SlotRecycler<T>>(
    chan: ChannelView<GatesView<SharedView, CursorsView>, T>,
    permit: WritePermitImpl<'_, T, S, MultiPublisherSequencer<C>>,
    index: int,
)
    requires
        chan.valid(),
        chan.follows(index),
        !chan.gates.producer.terminated,
        permit.open(chan.gates),
    ensures
        ({
            let after = ChannelView { gates: permit.ended(chan.gates), ..chan };
            let before = chan.unread(index);
            let seq = permit.sequence@;
            &&& after.valid()
            &&& after.follows(index)
            &&& after.gates.producer.published(seq)
            &&& seq > chan.horizon(index) + 1 ==> after.unread(index) == before
            &&& seq <= chan.horizon(index) + 1 ==> {
                &&& before.len() + 1 <= after.unread(index).len()
                &&& after.unread(index).take(before.len() as int + 1) == before.push(chan.item(seq))
            }
        }),
{
    let seq = permit.sequence@;
    crate::laws::delivery::law_commit_publishes_the_batch::<C, T>(chan, seq, seq, index);
    chan.gates.producer.lemma_commit(seq, seq);
    assert(chan.items(seq, seq) =~= seq![chan.item(seq)]);
    assert(chan.unread(index) + seq![chan.item(seq)] =~= chan.unread(index).push(chan.item(seq)));
}

/// A batch of a claim of up to `limit` slots has as many as were asked for, or as many as are
/// free where that is less. Committed while no other claim is open, it is received by every
/// receiver after what it had not read yet: all that its slots hold, in order, whatever lap its
/// sequences lie in.
pub proof fn law_reserved_batch_is_received<C: ConsumerCursors, T, S: SlotRecycler<T>>(
    chan: ChannelView<GatesView<SharedView, CursorsView>, T>,
    batch: WritePermitsImpl<'_, T, S, MultiPublisherSequencer<C>>,
    limit: usize,
    slots: Seq<T>,
)
    requires
        chan.valid(),
        chan.settled(),
        limit >= 1,
        MultiPublisherSequencer::<C>::may_claim((), chan.gates),
        MultiPublisherSequencer::<C>::grant(
            (),
            chan.gates,
            crate::channel::spec_claim_limit(limit),
        ) == Ok::<(int, int), TryClaimError>((batch.start_seq as int, batch.end_seq as int)),
        slots.len() == chan.slots.len(),
        forall|seq: int|
            batch.end_seq - slots.len() < seq < batch.start_seq ==> #[trigger] RingBuffer::item(
                slots,
                seq,
            ) == RingBuffer::item(chan.slots, seq),
    ensures
        ({
            let total = batch.last() - batch.first() + 1;
            let held = Channel::claimed::<MultiPublisherSequencer<C>>(
                (),
                chan,
                batch.end_seq as int,
            ).1;
            let after = ChannelView { gates: batch.ended(held.gates), slots };
            &&& 1 <= total <= limit
            &&& forall|index: int|
                chan.follows(index) ==> total + #[trigger] chan.unread(index).len()
                    <= chan.gates.producer.capacity()
            &&& total < limit ==> exists|index: int|
                chan.follows(index) && total + #[trigger] chan.unread(index).len()
                    == chan.gates.producer.capacity()
            &&& batch.open(held.gates)
            &&& after.valid()
            &&& after.settled()
            &&& forall|index: int|
                #![trigger after.unread(index)]
                chan.follows(index) ==> after.follows(index) && after.unread(index)
                    == chan.unread(index) + RingBuffer::items(
                    slots,
                    batch.start_seq as int,
                    batch.end_seq as int,
                ) && after.unread(index).len() == chan.unread(index).len() + total
        }),
{
    let asked = crate::channel::spec_claim_limit(limit);
    let start = batch.start_seq as int;
    let end = batch.end_seq as int;
    RingBufferMeta::lemma_exponent(chan.gates.producer.capacity());
    crate::laws::basics::law_limits_reach_the_sequencer(limit, chan.gates.producer.capacity());
    crate::laws::delivery::law_claim_is_invisible::<C, T>(chan, asked, start, end);
    crate::laws::delivery::law_filled_batch_appends::<C, T>(chan, asked, start, end, slots);
    law_settled_batch_takes_what_is_free::<C, T>(chan, limit, start, end);
    let held = Channel::claimed::<MultiPublisherSequencer<C>>((), chan, end).1;
    let after = ChannelView { gates: batch.ended(held.gates), slots };
    C::lemma_gated_by_slowest(chan.gates.consumer, 0, 0, 1);
    assert forall|index: int|
        #![trigger after.unread(index)]
        chan.follows(index) implies after.follows(index) && after.unread(index) == chan.unread(
        index,
    ) + RingBuffer::items(slots, start, end) && after.unread(index).len() == chan.unread(
        index,
    ).len() + (end - start + 1) by {
        assert(RingBuffer::items(slots, start, end).len() == end - start + 1);
    }
}

/// In a settled channel a claim of up to `limit` slots takes as many as were asked for, or as many
/// as the receiver with the most unread items leaves free where that is less.
pub proof fn law_settled_batch_takes_what_is_free<C: ConsumerCursors, T>(
    chan: ChannelView<GatesView<SharedView, CursorsView>, T>,
    limit: usize,
    start: int,
    end: int,
)
    requires
        chan.valid(),
        chan.settled(),
        limit >= 1,
        MultiPublisherSequencer::<C>::grant(
            (),
            chan.gates,
            crate::channel::spec_claim_limit(limit),
        ) == Ok::<(int, int), TryClaimError>((start, end)),
    ensures
        1 <= end - start + 1 <= limit,
        forall|index: int|
            chan.follows(index) ==> end - start + 1 + #[trigger] chan.unread(index).len()
                <= chan.gates.producer.capacity(),
        end - start + 1 < limit ==> exists|index: int|
            chan.follows(index) && end - start + 1 + #[trigger] chan.unread(index).len()
                == chan.gates.producer.capacity(),
{
    let asked = crate::channel::spec_claim_limit(limit);
    let capacity = chan.gates.producer.capacity();
    RingBufferMeta::lemma_exponent(capacity);
    crate::laws::basics::law_limits_reach_the_sequencer(limit, capacity);
    crate::laws::lifecycle::law_claims_what_is_free::<C, T>(chan, asked, start, end);
    assert forall|index: int| chan.follows(index) implies end - start + 1 + #[trigger] chan.unread(
        index,
    ).len() <= capacity by {
        chan.lemma_unread(index);
        chan.lemma_settled(index);
        assert(end <= chan.gates.consumer.consumed[index] + capacity);
    }
    if end - start + 1 < limit {
        assert(end - start + 1 < asked);
        let index = choose|index: int|
            chan.follows(index) && end == #[trigger] chan.gates.consumer.consumed[index]
                + capacity;
        chan.lemma_unread(index);
        chan.lemma_settled(index);
        assert(end - start + 1 + chan.unread(index).len() == capacity);
    }
}

/// A reference to one received item gives the oldest unread one, and finishing it, whatever lap
/// it lies in, takes exactly that item away, from this receiver alone.
pub proof fn law_received_item_is_the_oldest<C: ConsumerCursors, T>(
    chan: ChannelView<GatesView<SharedView, CursorsView>, T>,
    read: ReadRefImpl<'_, T, DefaultConsumerSequencer<SharedState, C>>,
    index: int,
)
    requires
        chan.valid(),
        chan.follows(index),
        read.consumer_sequencer@ == index,
        DefaultConsumerSequencer::<SharedState, C>::grant(index, chan.gates, 1) == Ok::<
            (int, int),
            TryClaimError,
        >((read.seq@, read.seq@)),
    ensures
        ({
            let held = Channel::claimed::<DefaultConsumerSequencer<SharedState, C>>(
                index,
                chan,
                read.seq@,
            ).1;
            let after = ChannelView { gates: read.ended(held.gates), ..held };
            &&& chan.unread(index).len() > 0
            &&& held.item(read.sequence()) == chan.unread(index)[0]
            &&& after.valid()
            &&& after.follows(index)
            &&& after.unread(index) == chan.unread(index).drop_first()
            &&& forall|other: int|
                #![trigger after.unread(other)]
                other != index && chan.follows(other) ==> after.follows(other)
                    && after.unread(other) == chan.unread(other)
        }),
{
    let seq = read.seq@;
    crate::laws::delivery::law_receive_takes_the_oldest::<C, T>(chan, index, 1);
    crate::laws::delivery::law_finished_items_are_gone::<C, T>(chan, index, 1, seq, seq);
    assert(chan.items(seq, seq)[0] == chan.unread(index).take(1)[0]);
    assert(chan.unread(index).skip(1) =~= chan.unread(index).drop_first());
}

/// A reference to a received batch gives as many of the oldest unread items as were asked for, or
/// all where there are fewer, in order. Finishing it takes exactly those away, from this receiver
/// alone.
pub proof fn law_received_batch_is_the_oldest<C: ConsumerCursors, T>(
    chan: ChannelView<GatesView<SharedView, CursorsView>, T>,
    batch: ReadRefsImpl<'_, T, DefaultConsumerSequencer<SharedState, C>>,
    index: int,
    limit: usize,
)
    requires
        chan.valid(),
        chan.follows(index),
        limit >= 1,
        batch.consumer_sequencer@ == index,
        DefaultConsumerSequencer::<SharedState, C>::grant(
            index,
            chan.gates,
            crate::channel::spec_claim_limit(limit),
        ) == Ok::<(int, int), TryClaimError>((batch.start_seq@, batch.end_seq@)),
    ensures
        ({
            let n = if limit < chan.unread(index).len() {
                limit as int
            } else {
                chan.unread(index).len() as int
            };
            let held = Channel::claimed::<DefaultConsumerSequencer<SharedState, C>>(
                index,
                chan,
                batch.end_seq@,
            ).1;
            let after = ChannelView { gates: batch.ended(held.gates), ..held };
            &&& n >= 1
            &&& batch.end_seq@ - batch.start_seq@ + 1 == n
            &&& held.items(batch.first(), batch.last()) == chan.unread(index).take(n)
            &&& after.valid()
            &&& after.follows(index)
            &&& after.unread(index) == chan.unread(index).skip(n)
            &&& forall|other: int|
                #![trigger after.unread(other)]
                other != index && chan.follows(other) ==> after.follows(other)
                    && after.unread(other) == chan.unread(other)
        }),
{
    let asked = crate::channel::spec_claim_limit(limit);
    let capacity = chan.gates.producer.capacity();
    RingBufferMeta::lemma_exponent(capacity);
    chan.lemma_unread(index);
    crate::laws::basics::law_limits_reach_the_sequencer(limit, capacity);
    crate::laws::delivery::law_receive_takes_the_oldest::<C, T>(chan, index, asked);
    crate::laws::delivery::law_finished_items_are_gone::<C, T>(
        chan,
        index,
        asked,
        batch.start_seq@,
        batch.end_seq@,
    );
}

/// References stand for the sequences that they were handed and end, in whatever lap those lie,
/// by the commit of them; a reference to nothing changes nothing.
pub proof fn law_references_end_by_a_commit<T, C: Sequencer>(
    read: ReadRefImpl<'_, T, C>,
    batch: ReadRefsImpl<'_, T, C>,
    gates: <C::Gates as View>::V,
)
    ensures
        read.sequence() == read.seq@,
        read.ended(gates) == C::committed(
            read.consumer_sequencer@,
            gates,
            read.seq@,
            read.seq@,
        ),
        read.open(gates) <==> C::outstanding(
            read.consumer_sequencer@,
            gates,
            read.seq@,
            read.seq@,
        ),
        batch.first() == batch.start_seq@,
        batch.last() == batch.end_seq@,
        0 <= batch.start_seq@ <= batch.end_seq@ ==> {
            &&& batch.ended(gates) == C::committed(
                batch.consumer_sequencer@,
                gates,
                batch.start_seq@,
                batch.end_seq@,
            )
            &&& batch.open(gates) <==> C::outstanding(
                batch.consumer_sequencer@,
                gates,
                batch.start_seq@,
                batch.end_seq@,
            )
        },
        batch.start_seq@ == 0 && batch.end_seq@ == -1 ==> batch.ended(gates) == gates
            && batch.open(gates),
{
}

} // verus!
