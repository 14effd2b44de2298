//! Delivery over the channels whose receivers see every item, with any number of senders.

use vstd::prelude::*;

use crate::channel::{Channel, ChannelView};
use crate::errors::TryClaimError;
use crate::ringbuffer::{RingBuffer, RingBufferMeta};
use crate::sequencers::consumer::DefaultConsumerSequencer;
use crate::sequencers::pub_mul::{MultiPublisherSequencer, SharedState, SharedView};
use crate::sequencers::{ConsumerCursors, CursorsView, GatesView, Sequencer};

verus! {

impl<T> ChannelView<GatesView<SharedView, CursorsView>, T> {
    /// The producers' record is sound, the receivers are in step with it, and there is a slot
    /// for each state.
    pub open spec fn valid(self) -> bool {
        &&& self.gates.producer.sound()
        &&& self.gates.consumer.in_step(self.gates.producer.progress())
        &&& self.slots.len() == self.gates.producer.capacity()
    }

    /// Receiver `index` is connected.
    pub open spec fn follows(self, index: int) -> bool {
        &&& 0 <= index < self.gates.consumer.consumed.len()
        &&& self.gates.consumer.connected(index)
    }

    /// Everything that is claimed is committed.
    pub open spec fn settled(self) -> bool {
        forall|seq: int|
            self.gates.producer.in_window(seq) ==> #[trigger] self.gates.producer.published(seq)
    }

    /// The last sequence that receiver `index` can read.
    pub open spec fn horizon(self, index: int) -> int {
        self.gates.producer.progress().run(self.gates.consumer.consumed[index])
    }

    /// The items that receiver `index` can read, oldest first.
    pub open spec fn unread(self, index: int) -> Seq<T> {
        self.items(self.gates.consumer.consumed[index] + 1, self.horizon(index))
    }

    /// What validity says of a connected receiver.
    pub proof fn lemma_unread(self, index: int)
        requires
            self.valid(),
            self.follows(index),
        ensures
            self.gates.producer.progress().reachable(self.gates.consumer.consumed[index]),
            self.gates.consumer.consumed[index] <= self.horizon(index)
                <= self.gates.producer.claimed,
            self.gates.producer.claimed <= self.gates.consumer.consumed[index]
                + self.gates.producer.capacity(),
            self.unread(index).len() == self.horizon(index) - self.gates.consumer.consumed[index],
            self.unread(index).len() <= self.gates.producer.capacity(),
            self.slots.len() >= 1,
    {
        let progress = self.gates.producer.progress();
        assert(progress.reachable(self.gates.consumer.consumed[index]));
        progress.lemma_run(self.gates.consumer.consumed[index]);
        RingBufferMeta::lemma_exponent(self.gates.producer.capacity());
    }
}

/// A receive of up to `limit` items is granted the oldest unread ones, as many as there are up
/// to the limit, and it is refused if and only if there are none.
pub proof fn law_receive_takes_the_oldest<C: ConsumerCursors, T>(
    chan: ChannelView<GatesView<SharedView, CursorsView>, T>,
    index: int,
    limit: int,
)
    requires
        chan.valid(),
        chan.follows(index),
        limit >= 1,
    ensures
        match DefaultConsumerSequencer::<SharedState, C>::grant(index, chan.gates, limit) {
            Ok((start, end)) => {
                let n = if limit < chan.unread(index).len() {
                    limit
                } else {
                    chan.unread(index).len() as int
                };
                &&& n >= 1
                &&& start == chan.gates.consumer.consumed[index] + 1
                &&& end == start + n - 1
                &&& chan.items(start, end) == chan.unread(index).take(n)
            },
            Err(_) => chan.unread(index).len() == 0,
        },
        chan.unread(index).len() > 0 ==> DefaultConsumerSequencer::<SharedState, C>::grant(
            index,
            chan.gates,
            limit,
        ) is Ok,
{
    chan.lemma_unread(index);
    let position = chan.gates.consumer.consumed[index];
    let end = DefaultConsumerSequencer::<SharedState, C>::wanted(index, chan.gates, limit);
    crate::sequencers::lemma_published_run::<SharedState>(chan.gates.producer, position, end);
    if let Ok((start, end)) = DefaultConsumerSequencer::<SharedState, C>::grant(
        index,
        chan.gates,
        limit,
    ) {
        assert(chan.items(start, end) =~= chan.unread(index).take(end - start + 1));
    }
}

/// Once a receiver has finished what it was granted, exactly those items are no longer unread
/// for it, and nothing changes for any other receiver.
pub proof fn law_finished_items_are_gone<C: ConsumerCursors, T>(
    chan: ChannelView<GatesView<SharedView, CursorsView>, T>,
    index: int,
    limit: int,
    start: int,
    end: int,
)
    requires
        chan.valid(),
        chan.follows(index),
        limit >= 1,
        DefaultConsumerSequencer::<SharedState, C>::grant(index, chan.gates, limit) == Ok::<
            (int, int),
            TryClaimError,
        >((start, end)),
    ensures
        ({
            let after = ChannelView {
                gates: DefaultConsumerSequencer::<SharedState, C>::committed(
                    index,
                    chan.gates,
                    start,
                    end,
                ),
                ..chan
            };
            &&& after.valid()
            &&& after.follows(index)
            &&& after.unread(index) == chan.unread(index).skip(end - start + 1)
            &&& forall|other: int|
                #![trigger after.unread(other)]
                other != index && chan.follows(other) ==> after.follows(other)
                    && after.unread(other) == chan.unread(other)
        }),
{
    law_receive_takes_the_oldest::<C, T>(chan, index, limit);
    chan.lemma_unread(index);
    let progress = chan.gates.producer.progress();
    let after = ChannelView {
        gates: DefaultConsumerSequencer::<SharedState, C>::committed(index, chan.gates, start, end),
        ..chan
    };
    progress.lemma_run(chan.gates.consumer.consumed[index]);
    assert(progress.reachable(end)) by {
        assert forall|seq: int|
            progress.frontier - progress.capacity < seq <= end implies #[trigger] (progress.ready)(
            seq,
        ) by {
            if seq > chan.gates.consumer.consumed[index] {
                assert((progress.ready)(seq));
            }
        }
    }
    assert forall|other: int|
        0 <= other < after.gates.consumer.consumed.len() && #[trigger] after.gates.consumer.connected(
            other,
        ) implies progress.reachable(after.gates.consumer.consumed[other]) by {
        if other != index {
            assert(chan.gates.consumer.connected(other));
        }
    }
    assert(progress.run(end) == chan.horizon(index));
    assert(after.unread(index) =~= chan.unread(index).skip(end - start + 1));
    assert forall|other: int|
        #![trigger after.unread(other)]
        other != index && chan.follows(other) implies after.follows(other) && after.unread(other)
        == chan.unread(other) by {
        assert(after.gates.consumer.connected(other));
    }
}

/// A granted claim starts after everything that was claimed before and ends no more than a lap
/// past the slowest receiver. It is open until it is committed, and it changes nothing for any
/// receiver.
pub proof fn law_claim_is_invisible<C: ConsumerCursors, T>(
    chan: ChannelView<GatesView<SharedView, CursorsView>, T>,
    limit: int,
    start: int,
    end: int,
)
    requires
        chan.valid(),
        limit >= 1,
        MultiPublisherSequencer::<C>::may_claim((), chan.gates),
        MultiPublisherSequencer::<C>::grant((), chan.gates, limit) == Ok::<
            (int, int),
            TryClaimError,
        >((start, end)),
    ensures
        ({
            let after = Channel::claimed::<MultiPublisherSequencer<C>>((), chan, end).1;
            &&& start == chan.gates.producer.claimed + 1 <= end
            &&& forall|index: int|
                chan.follows(index) ==> end <= #[trigger] chan.gates.consumer.consumed[index]
                    + chan.gates.producer.capacity()
            &&& after.valid()
            &&& MultiPublisherSequencer::<C>::outstanding((), after.gates, start, end)
            &&& forall|index: int|
                #![trigger after.unread(index)]
                chan.follows(index) ==> after.follows(index) && after.unread(index)
                    == chan.unread(index)
        }),
{
    let producer = chan.gates.producer;
    let consumer = chan.gates.consumer;
    let progress = producer.progress();
    let after = Channel::claimed::<MultiPublisherSequencer<C>>((), chan, end).1;
    let slowest = CursorsView::slowest(consumer.consumed);
    C::lemma_gated_by_slowest(
        consumer,
        producer.claimed + 1,
        producer.wanted(limit),
        producer.capacity(),
    );
    RingBufferMeta::lemma_exponent(producer.capacity());
    consumer.lemma_consumed_until(progress);
    CursorsView::lemma_slowest(consumer.consumed);
    assert forall|seq: int|
        producer.claimed - producer.capacity() < seq <= end
            - producer.capacity() implies #[trigger] producer.published(seq) by {
        assert((progress.ready)(seq));
    }
    producer.lemma_claim(end);
    let later = producer.claim(end).progress();
    assert forall|seq: int|
        end - progress.capacity < seq <= progress.frontier implies #[trigger] (later.ready)(seq)
        == (progress.ready)(seq) by {
        assert(producer.claim(end).published(seq) == producer.published(seq));
    }
    assert forall|seq: int| progress.frontier < seq <= end implies !#[trigger] (later.ready)(seq) by {
        assert(!producer.claim(end).published(seq));
    }
    assert(progress.extends_to(later, end));
    consumer.lemma_claim_in_step(progress, later, end);
    assert(producer.claim(end).outstanding(start, end));
    assert forall|index: int| chan.follows(index) implies end
        <= #[trigger] consumer.consumed[index] + producer.capacity() by {
        assert(consumer.connected(index));
    }
    assert forall|index: int|
        #![trigger after.unread(index)]
        chan.follows(index) implies after.follows(index) && after.unread(index) == chan.unread(
        index,
    ) by {
        assert(end <= consumer.consumed[index] + producer.capacity());
        chan.lemma_unread(index);
        progress.lemma_extended_run(later, end, consumer.consumed[index]);
    }
}

/// Writing to a slot of an open claim changes nothing that any receiver can read.
pub proof fn law_open_slots_are_not_readable<C: ConsumerCursors, T>(
    chan: ChannelView<GatesView<SharedView, CursorsView>, T>,
    start: int,
    end: int,
    seq: int,
    value: T,
)
    requires
        chan.valid(),
        MultiPublisherSequencer::<C>::outstanding((), chan.gates, start, end),
        start <= seq <= end,
    ensures
        chan.written(seq, value).valid(),
        forall|index: int|
            #![trigger chan.written(seq, value).unread(index)]
            chan.follows(index) ==> chan.written(seq, value).unread(index) == chan.unread(index),
{
    let producer = chan.gates.producer;
    RingBufferMeta::lemma_exponent(producer.capacity());
    RingBufferMeta::lemma_slot_bounds(seq, chan.slots.len() as int);
    let after = chan.written(seq, value);
    assert forall|index: int|
        #![trigger after.unread(index)]
        chan.follows(index) implies after.unread(index) == chan.unread(index) by {
        chan.lemma_unread(index);
        let position = chan.gates.consumer.consumed[index];
        producer.progress().lemma_run(position);
        if position >= seq || chan.horizon(index) >= seq {
            assert((producer.progress().ready)(seq));
            assert(producer.published(seq));
        }
        assert forall|i: int| 0 <= i < chan.unread(index).len() implies after.unread(index)[i]
            == #[trigger] chan.unread(index)[i] by {
            RingBuffer::lemma_with_item(chan.slots, seq, value, position + 1 + i);
        }
        assert(after.unread(index) =~= chan.unread(index));
    }
}

/// Committing an open claim takes nothing away from any receiver. A receiver that had reached
/// the claim can now read all of it, in order; a receiver that waits for an earlier claim
/// still waits.
pub proof fn law_commit_publishes_the_batch<C: ConsumerCursors, T>(
    chan: ChannelView<GatesView<SharedView, CursorsView>, T>,
    start: int,
    end: int,
    index: int,
)
    requires
        chan.valid(),
        chan.follows(index),
        !chan.gates.producer.terminated,
        MultiPublisherSequencer::<C>::outstanding((), chan.gates, start, end),
    ensures
        ({
            let after = ChannelView {
                gates: MultiPublisherSequencer::<C>::committed((), chan.gates, start, end),
                ..chan
            };
            let before = chan.unread(index);
            &&& after.valid()
            &&& after.follows(index)
            &&& before.len() <= after.unread(index).len()
            &&& after.unread(index).take(before.len() as int) == before
            &&& start > chan.horizon(index)
            &&& start > chan.horizon(index) + 1 ==> after.unread(index) == before
            &&& start == chan.horizon(index) + 1 ==> {
                &&& before.len() + (end - start + 1) <= after.unread(index).len()
                &&& after.unread(index).take(before.len() + (end - start + 1)) == before
                    + chan.items(start, end)
            }
            &&& start == chan.horizon(index) + 1 && end == chan.gates.producer.claimed
                ==> after.unread(index) == before + chan.items(start, end)
        }),
{
    let producer = chan.gates.producer;
    let progress = producer.progress();
    let after = ChannelView {
        gates: MultiPublisherSequencer::<C>::committed((), chan.gates, start, end),
        ..chan
    };
    let later = after.gates.producer.progress();
    let position = chan.gates.consumer.consumed[index];
    C::lemma_gated_by_slowest(
        chan.gates.consumer,
        producer.claimed + 1,
        producer.claimed + 1,
        producer.capacity(),
    );
    chan.lemma_unread(index);
    progress.lemma_run(position);
    producer.lemma_commit(start, end);
    assert(after.gates.producer.states.len() == producer.states.len()) by {
        crate::slot_states::U32SlotStates::lemma_with_range(producer.states, start, end);
    }
    assert forall|seq: int|
        progress.frontier - progress.capacity < seq <= progress.frontier implies #[trigger] (
    later.ready)(seq) == ((progress.ready)(seq) || start <= seq <= end) by {
        assert(producer.commit(start, end).published(seq) == (producer.published(seq) || start
            <= seq <= end));
    }
    assert(progress.publishes_to(later, start, end));
    chan.gates.consumer.lemma_commit_in_step(progress, later);
    if start <= chan.horizon(index) {
        if start > position {
            assert((progress.ready)(start));
        } else {
            assert((progress.ready)(start));
        }
        assert(producer.published(start));
    }
    progress.lemma_published_run(later, start, end, position);
    assert(after.unread(index).take(chan.unread(index).len() as int) =~= chan.unread(index));
    if start == chan.horizon(index) + 1 {
        assert(after.unread(index).take(chan.unread(index).len() + (end - start + 1))
            =~= chan.unread(index) + chan.items(start, end));
        if end == producer.claimed {
            later.lemma_run(position);
            assert(after.unread(index) =~= chan.unread(index) + chan.items(start, end));
        }
    }
}

impl<T> ChannelView<GatesView<SharedView, CursorsView>, T> {
    /// In a settled channel every connected receiver can read up to the last claimed sequence.
    pub proof fn lemma_settled(self, index: int)
        requires
            self.valid(),
            self.settled(),
            self.follows(index),
        ensures
            self.horizon(index) == self.gates.producer.claimed,
    {
        self.lemma_unread(index);
        let progress = self.gates.producer.progress();
        let position = self.gates.consumer.consumed[index];
        assert forall|seq: int| position < seq <= progress.frontier implies #[trigger] (
        progress.ready)(seq) by {
            assert(self.gates.producer.published(seq));
        }
        progress.lemma_run_unique(position, progress.frontier);
    }

    /// The channel after `values` were sent one after the other.
    pub open spec fn after_sends<C: ConsumerCursors>(self, values: Seq<T>) -> Self
        decreases values.len(),
    {
        if values.len() == 0 {
            self
        } else {
            let before = self.after_sends::<C>(values.drop_last());
            Channel::sent::<MultiPublisherSequencer<C>>(
                (),
                before,
                before.gates.producer.claimed + 1,
                values.last(),
            ).1
        }
    }
}

/// A value that is sent while no other claim is open is the newest unread item of every
/// receiver.
pub proof fn law_send_appends<C: ConsumerCursors, T>(
    chan: ChannelView<GatesView<SharedView, CursorsView>, T>,
    seq: int,
    value: T,
)
    requires
        chan.valid(),
        chan.settled(),
        MultiPublisherSequencer::<C>::may_claim((), chan.gates),
        MultiPublisherSequencer::<C>::grant((), chan.gates, 1) == Ok::<(int, int), TryClaimError>(
            (seq, seq),
        ),
    ensures
        ({
            let after = Channel::sent::<MultiPublisherSequencer<C>>((), chan, seq, value).1;
            &&& after.valid()
            &&& after.settled()
            &&& after.gates.producer.claimed == seq == chan.gates.producer.claimed + 1
            &&& !after.gates.producer.terminated
            &&& after.gates.consumer.consumed == chan.gates.consumer.consumed
            &&& after.slots.len() == chan.slots.len()
            &&& forall|index: int|
                #![trigger after.unread(index)]
                chan.follows(index) ==> after.follows(index) && after.unread(index)
                    == chan.unread(index).push(value)
        }),
{
    let claimed = Channel::claimed::<MultiPublisherSequencer<C>>((), chan, seq).1;
    let written = claimed.written(seq, value);
    let after = Channel::sent::<MultiPublisherSequencer<C>>((), chan, seq, value).1;
    let producer = chan.gates.producer;
    let progress = producer.progress();
    law_claim_is_invisible::<C, T>(chan, 1, seq, seq);
    law_open_slots_are_not_readable::<C, T>(claimed, seq, seq, seq, value);
    C::lemma_gated_by_slowest(
        chan.gates.consumer,
        producer.claimed + 1,
        producer.wanted(1),
        producer.capacity(),
    );
    C::lemma_gated_by_slowest(chan.gates.consumer, 0, 0, 1);
    RingBufferMeta::lemma_exponent(producer.capacity());
    RingBufferMeta::lemma_slot_bounds(seq, chan.slots.len() as int);
    assert(producer.claim(seq).outstanding(seq, seq));
    chan.gates.consumer.lemma_consumed_until(progress);
    assert forall|s: int|
        producer.claimed - producer.capacity() < s <= seq
            - producer.capacity() implies #[trigger] producer.published(s) by {
        assert((progress.ready)(s));
    }
    producer.lemma_claim(seq);
    producer.claim(seq).lemma_commit(seq, seq);
    crate::slot_states::U32SlotStates::lemma_with_range(producer.states, seq, seq);
    assert(after == ChannelView {
        gates: MultiPublisherSequencer::<C>::committed((), written.gates, seq, seq),
        ..written
    });
    chan.gates.consumer.lemma_commit_in_step(
        producer.claim(seq).progress(),
        after.gates.producer.progress(),
    );
    assert forall|s: int|
        after.gates.producer.in_window(s) implies #[trigger] after.gates.producer.published(s) by {
        assert(producer.claim(seq).commit(seq, seq).published(s) == (producer.claim(
            seq,
        ).published(s) || s == seq));
        if s != seq {
            assert(producer.published(s));
            assert(producer.claim(seq).published(s) == producer.published(s));
        }
    }
    assert forall|index: int|
        #![trigger after.unread(index)]
        chan.follows(index) implies after.follows(index) && after.unread(index) == chan.unread(
        index,
    ).push(value) by {
        assert(claimed.unread(index) == chan.unread(index));
        assert(written.unread(index) == claimed.unread(index));
        chan.lemma_settled(index);
        chan.lemma_unread(index);
        assert(progress.extends_to(claimed.gates.producer.progress(), seq)) by {
            assert forall|s: int|
                seq - progress.capacity < s <= progress.frontier implies #[trigger] (
            claimed.gates.producer.progress().ready)(s) == (progress.ready)(s) by {
                assert(producer.claim(seq).published(s) == producer.published(s));
            }
            assert forall|s: int| progress.frontier < s <= seq implies !#[trigger] (
            claimed.gates.producer.progress().ready)(s) by {
                assert(!producer.claim(seq).published(s));
            }
        }
        progress.lemma_extended_run(
            claimed.gates.producer.progress(),
            seq,
            chan.gates.consumer.consumed[index],
        );
        law_commit_publishes_the_batch::<C, T>(written, seq, seq, index);
        RingBuffer::lemma_with_item(chan.slots, seq, value, seq);
        assert(written.items(seq, seq) =~= seq![value]);
        assert(chan.unread(index) + seq![value] =~= chan.unread(index).push(value));
    }
}

/// Writing the slots of an open claim one after the other changes nothing that any receiver can
/// read.
proof fn lemma_open_batch_is_not_readable<C: ConsumerCursors, T>(
    chan: ChannelView<GatesView<SharedView, CursorsView>, T>,
    start: int,
    end: int,
    values: Seq<T>,
)
    requires
        chan.valid(),
        MultiPublisherSequencer::<C>::outstanding((), chan.gates, start, end),
        values.len() <= end - start + 1,
    ensures
        ({
            let after = ChannelView {
                slots: RingBuffer::with_items(chan.slots, start, values),
                ..chan
            };
            &&& after.valid()
            &&& forall|index: int|
                #![trigger after.unread(index)]
                chan.follows(index) ==> after.unread(index) == chan.unread(index)
        }),
    decreases values.len(),
{
    if values.len() > 0 {
        lemma_open_batch_is_not_readable::<C, T>(chan, start, end, values.drop_last());
        let before = ChannelView {
            slots: RingBuffer::with_items(chan.slots, start, values.drop_last()),
            ..chan
        };
        let seq = start + values.len() - 1;
        law_open_slots_are_not_readable::<C, T>(before, start, end, seq, values.last());
        let after = ChannelView {
            slots: RingBuffer::with_items(chan.slots, start, values),
            ..chan
        };
        assert(after == before.written(seq, values.last()));
        assert forall|index: int|
            #![trigger after.unread(index)]
            chan.follows(index) implies after.unread(index) == chan.unread(index) by {
            assert(before.follows(index));
            assert(before.written(seq, values.last()).unread(index) == before.unread(index));
        }
    }
}

/// A batch that is claimed, filled and committed while no other claim is open is received by
/// every receiver after what it had not read yet, complete and in order.
pub proof fn law_batch_appends<C: ConsumerCursors, T>(
    chan: ChannelView<GatesView<SharedView, CursorsView>, T>,
    limit: int,
    start: int,
    end: int,
    values: Seq<T>,
)
    requires
        chan.valid(),
        chan.settled(),
        limit >= 1,
        MultiPublisherSequencer::<C>::may_claim((), chan.gates),
        MultiPublisherSequencer::<C>::grant((), chan.gates, limit) == Ok::<
            (int, int),
            TryClaimError,
        >((start, end)),
        values.len() == end - start + 1,
    ensures
        ({
            let claimed = Channel::claimed::<MultiPublisherSequencer<C>>((), chan, end).1;
            let after = ChannelView {
                gates: MultiPublisherSequencer::<C>::committed((), claimed.gates, start, end),
                slots: RingBuffer::with_items(claimed.slots, start, values),
            };
            &&& after.valid()
            &&& after.settled()
            &&& after.gates.producer.claimed == end
            &&& forall|index: int|
                #![trigger after.unread(index)]
                chan.follows(index) ==> after.follows(index) && after.unread(index)
                    == chan.unread(index) + values
        }),
{
    let claimed = Channel::claimed::<MultiPublisherSequencer<C>>((), chan, end).1;
    let filled = ChannelView {
        slots: RingBuffer::with_items(claimed.slots, start, values),
        ..claimed
    };
    let after = ChannelView {
        gates: MultiPublisherSequencer::<C>::committed((), claimed.gates, start, end),
        slots: RingBuffer::with_items(claimed.slots, start, values),
    };
    let producer = chan.gates.producer;
    let progress = producer.progress();
    law_claim_is_invisible::<C, T>(chan, limit, start, end);
    lemma_open_batch_is_not_readable::<C, T>(claimed, start, end, values);
    RingBufferMeta::lemma_exponent(producer.capacity());
    RingBuffer::lemma_with_items(claimed.slots, start, values);
    C::lemma_gated_by_slowest(
        chan.gates.consumer,
        producer.claimed + 1,
        producer.wanted(limit),
        producer.capacity(),
    );
    chan.gates.consumer.lemma_consumed_until(progress);
    assert forall|s: int|
        producer.claimed - producer.capacity() < s <= end
            - producer.capacity() implies #[trigger] producer.published(s) by {
        assert((progress.ready)(s));
    }
    producer.lemma_claim(end);
    assert(producer.claim(end).outstanding(start, end));
    producer.claim(end).lemma_commit(start, end);
    crate::slot_states::U32SlotStates::lemma_with_range(producer.states, start, end);
    chan.gates.consumer.lemma_commit_in_step(
        producer.claim(end).progress(),
        after.gates.producer.progress(),
    );
    assert forall|s: int|
        after.gates.producer.in_window(s) implies #[trigger] after.gates.producer.published(s) by {
        assert(producer.claim(end).commit(start, end).published(s) == (producer.claim(
            end,
        ).published(s) || start <= s <= end));
        if s < start {
            assert(producer.published(s));
            assert(producer.claim(end).published(s) == producer.published(s));
        }
    }
    assert forall|index: int|
        #![trigger after.unread(index)]
        chan.follows(index) implies after.follows(index) && after.unread(index) == chan.unread(
        index,
    ) + values by {
        assert(claimed.unread(index) == chan.unread(index));
        assert(filled.unread(index) == claimed.unread(index));
        chan.lemma_settled(index);
        chan.lemma_unread(index);
        claimed.lemma_unread(index);
        filled.lemma_unread(index);
        law_commit_publishes_the_batch::<C, T>(filled, start, end, index);
        assert(filled.items(start, end) == values);
    }
}

/// A batch that is claimed, filled in whatever way and committed while no other claim is open is
/// received by every receiver after what it had not read yet: what its slots hold, complete and
/// in order.
pub proof fn law_filled_batch_appends<C: ConsumerCursors, T>(
    chan: ChannelView<GatesView<SharedView, CursorsView>, T>,
    limit: int,
    start: int,
    end: int,
    slots: Seq<T>,
)
    requires
        chan.valid(),
        chan.settled(),
        limit >= 1,
        MultiPublisherSequencer::<C>::may_claim((), chan.gates),
        MultiPublisherSequencer::<C>::grant((), chan.gates, limit) == Ok::<
            (int, int),
            TryClaimError,
        >((start, end)),
        slots.len() == chan.slots.len(),
        forall|seq: int|
            end - slots.len() < seq < start ==> #[trigger] RingBuffer::item(slots, seq)
                == RingBuffer::item(chan.slots, seq),
    ensures
        ({
            let claimed = Channel::claimed::<MultiPublisherSequencer<C>>((), chan, end).1;
            let after = ChannelView {
                gates: MultiPublisherSequencer::<C>::committed((), claimed.gates, start, end),
                slots,
            };
            &&& after.valid()
            &&& after.settled()
            &&& after.gates.producer.claimed == end
            &&& !after.gates.producer.terminated
            &&& forall|index: int|
                #![trigger after.unread(index)]
                chan.follows(index) ==> after.follows(index) && after.unread(index)
                    == chan.unread(index) + RingBuffer::items(slots, start, end)
        }),
{
    let claimed = Channel::claimed::<MultiPublisherSequencer<C>>((), chan, end).1;
    let values = RingBuffer::items(chan.slots, start, end);
    let written = RingBuffer::with_items(claimed.slots, start, values);
    let same = ChannelView {
        gates: MultiPublisherSequencer::<C>::committed((), claimed.gates, start, end),
        slots: written,
    };
    let after = ChannelView { gates: same.gates, slots };
    law_claim_is_invisible::<C, T>(chan, limit, start, end);
    RingBufferMeta::lemma_exponent(chan.gates.producer.capacity());
    C::lemma_gated_by_slowest(chan.gates.consumer, 0, 0, 1);
    law_batch_appends::<C, T>(chan, limit, start, end, values);
    RingBuffer::lemma_with_items(claimed.slots, start, values);
    assert forall|index: int|
        #![trigger after.unread(index)]
        chan.follows(index) implies after.follows(index) && after.unread(index) == chan.unread(
        index,
    ) + RingBuffer::items(slots, start, end) by {
        assert(same.follows(index) && same.unread(index) == chan.unread(index) + values);
        chan.lemma_unread(index);
        chan.lemma_settled(index);
        same.lemma_unread(index);
        let position = chan.gates.consumer.consumed[index];
        assert(end <= position + chan.gates.producer.capacity());
        assert forall|i: int| 0 <= i < after.unread(index).len() implies #[trigger] after.unread(
            index,
        )[i] == (chan.unread(index) + RingBuffer::items(slots, start, end))[i] by {
            let seq = position + 1 + i;
            assert(after.unread(index)[i] == RingBuffer::item(slots, seq));
            if seq < start {
                assert(RingBuffer::item(slots, seq) == RingBuffer::item(chan.slots, seq));
            }
        }
        assert(after.unread(index) =~= chan.unread(index) + RingBuffer::items(slots, start, end));
    }
}

/// Values that are sent while there is room for all of them are received by every receiver
/// after what it had not read yet, complete and in the order in which they were sent.
pub proof fn law_sent_is_received<C: ConsumerCursors, T>(
    chan: ChannelView<GatesView<SharedView, CursorsView>, T>,
    values: Seq<T>,
)
    requires
        chan.valid(),
        chan.settled(),
        !chan.gates.producer.terminated,
        chan.gates.producer.claimed + values.len() + 2 * chan.gates.producer.capacity()
            <= i64::MAX,
        exists|index: int| chan.follows(index),
        forall|index: int|
            #![trigger chan.unread(index)]
            chan.follows(index) ==> chan.unread(index).len() + values.len()
                <= chan.gates.producer.capacity(),
    ensures
        ({
            let after = chan.after_sends::<C>(values);
            &&& after.valid()
            &&& after.settled()
            &&& !after.gates.producer.terminated
            &&& after.gates.producer.claimed == chan.gates.producer.claimed + values.len()
            &&& after.gates.producer.capacity() == chan.gates.producer.capacity()
            &&& after.gates.consumer.consumed == chan.gates.consumer.consumed
            &&& forall|index: int|
                #![trigger after.unread(index)]
                chan.follows(index) ==> after.follows(index) && after.unread(index)
                    == chan.unread(index) + values
        }),
    decreases values.len(),
{
    if values.len() == 0 {
        assert forall|index: int|
            #![trigger chan.unread(index)]
            chan.follows(index) implies chan.unread(index) == chan.unread(index) + values by {
            assert(chan.unread(index) + values =~= chan.unread(index));
        }
    } else {
        law_sent_is_received::<C, T>(chan, values.drop_last());
        let before = chan.after_sends::<C>(values.drop_last());
        let producer = before.gates.producer;
        let seq = producer.claimed + 1;
        let slowest = CursorsView::slowest(before.gates.consumer.consumed);
        CursorsView::lemma_slowest(before.gates.consumer.consumed);
        let some = choose|index: int| chan.follows(index);
        assert(chan.gates.consumer.consumed[some] != i64::MIN);
        let index = choose|index: int|
            0 <= index < before.gates.consumer.consumed.len()
                && #[trigger] before.gates.consumer.consumed[index] == slowest;
        assert(chan.follows(index));
        assert(chan.unread(index).len() + values.len() <= producer.capacity());
        chan.lemma_unread(index);
        chan.lemma_settled(index);
        RingBufferMeta::lemma_exponent(producer.capacity());
        C::lemma_gated_by_slowest(
            before.gates.consumer,
            producer.claimed + 1,
            producer.wanted(1),
            producer.capacity(),
        );
        law_send_appends::<C, T>(before, seq, values.last());
        let after = chan.after_sends::<C>(values);
        assert forall|index: int|
            #![trigger after.unread(index)]
            chan.follows(index) implies after.follows(index) && after.unread(index)
            == chan.unread(index) + values by {
            assert(before.follows(index) && before.unread(index) == chan.unread(index)
                + values.drop_last());
            assert((chan.unread(index) + values.drop_last()).push(values.last())
                =~= chan.unread(index) + values);
        }
    }
}

} // verus!
