//! Delivery over the channels whose receivers compete for the items.

use vstd::prelude::*;

use crate::channel::{Channel, ChannelView};
use crate::errors::TryClaimError;
use crate::laws::lifecycle::lemma_publishing_marks_nothing;
use crate::ringbuffer::{RingBuffer, RingBufferMeta};
use crate::sequencers::con_queue::{QueuedConsumerSequencer, QueuedSharedState, QueuedView};
use crate::sequencers::pub_mul::{MultiPublisherSequencer, SharedState, SharedView};
use crate::sequencers::{ConsumerBarrier, Gates, GatesView, Sequencer};
use crate::slot_states::U32SlotStates;

verus! {

impl QueuedView {
    /// No consumer's slot carries a shutdown mark.
    pub open spec fn unmarked(self) -> bool {
        forall|i: int|
            0 <= i < self.states.len() ==> !U32SlotStates::is_marked(#[trigger] self.states[i])
    }
}

impl<T> ChannelView<GatesView<SharedView, QueuedView>, T> {
    /// The producers' record is sound, the receivers are in step with it, and there is a slot
    /// for each state.
    pub open spec fn valid(self) -> bool {
        &&& self.gates.producer.sound()
        &&& self.gates.consumer.in_step(self.gates.producer.progress())
        &&& self.slots.len() == self.gates.producer.capacity()
    }

    /// Everything that is claimed is committed.
    pub open spec fn settled(self) -> bool {
        forall|seq: int|
            self.gates.producer.in_window(seq) ==> #[trigger] self.gates.producer.published(seq)
    }

    /// The last sequence that can be received.
    pub open spec fn horizon(self) -> int {
        self.gates.producer.progress().run(self.gates.consumer.claimed)
    }

    /// The items that no receiver has claimed yet, oldest first.
    pub open spec fn unread(self) -> Seq<T> {
        self.items(self.gates.consumer.claimed + 1, self.horizon())
    }

    /// No consumer's slot carries a shutdown mark. That is so while a receiver is left, as
    /// `history::law_no_mark_while_a_receiver_is_left` shows.
    pub open spec fn heard(self) -> bool {
        self.gates.consumer.unmarked()
    }

    /// The channel after `values` were sent one after the other.
    pub open spec fn after_sends(self, values: Seq<T>) -> Self
        decreases values.len(),
    {
        if values.len() == 0 {
            self
        } else {
            let before = self.after_sends(values.drop_last());
            Channel::sent::<MultiPublisherSequencer<QueuedSharedState>>(
                (),
                before,
                before.gates.producer.claimed + 1,
                values.last(),
            ).1
        }
    }

    /// What validity says of the items that are not claimed yet.
    proof fn lemma_unread(self)
        requires
            self.valid(),
        ensures
            self.gates.producer.progress().reachable(self.gates.consumer.claimed),
            self.gates.consumer.claimed <= self.horizon() <= self.gates.producer.claimed,
            self.gates.producer.claimed <= self.gates.consumer.claimed
                + self.gates.producer.capacity(),
            self.unread().len() == self.horizon() - self.gates.consumer.claimed,
            self.unread().len() <= self.gates.producer.capacity(),
            self.slots.len() >= 1,
    {
        self.gates.producer.progress().lemma_run(self.gates.consumer.claimed);
        RingBufferMeta::lemma_exponent(self.gates.producer.capacity());
    }
}

/// A receive of up to `limit` items is granted the oldest unclaimed ones, as many as there are
/// up to the limit, and it is refused if and only if there are none.
pub proof fn law_receive_takes_the_oldest<T>(
    chan: ChannelView<GatesView<SharedView, QueuedView>, T>,
    limit: int,
)
    requires
        chan.valid(),
        limit >= 1,
    ensures
        match QueuedConsumerSequencer::<SharedState>::grant((), chan.gates, limit) {
            Ok((start, end)) => {
                let n = if limit < chan.unread().len() {
                    limit
                } else {
                    chan.unread().len() as int
                };
                &&& n >= 1
                &&& start == chan.gates.consumer.claimed + 1
                &&& end == start + n - 1
                &&& chan.items(start, end) == chan.unread().take(n)
            },
            Err(_) => chan.unread().len() == 0,
        },
        chan.unread().len() > 0 ==> QueuedConsumerSequencer::<SharedState>::grant(
            (),
            chan.gates,
            limit,
        ) is Ok,
{
    chan.lemma_unread();
    let end = QueuedConsumerSequencer::<SharedState>::wanted(chan.gates, limit);
    crate::sequencers::lemma_published_run::<SharedState>(
        chan.gates.producer,
        chan.gates.consumer.claimed,
        end,
    );
    if let Ok((start, end)) = QueuedConsumerSequencer::<SharedState>::grant(
        (),
        chan.gates,
        limit,
    ) {
        assert(chan.items(start, end) =~= chan.unread().take(end - start + 1));
    }
}

/// Each item goes to one receiver: what one claim was granted is gone for every later claim,
/// which starts with the item after it.
pub proof fn law_each_item_once<T>(
    chan: ChannelView<GatesView<SharedView, QueuedView>, T>,
    limit: int,
    start: int,
    end: int,
    next_limit: int,
)
    requires
        chan.valid(),
        limit >= 1,
        next_limit >= 1,
        QueuedConsumerSequencer::<SharedState>::grant((), chan.gates, limit) == Ok::<
            (int, int),
            TryClaimError,
        >((start, end)),
    ensures
        ({
            let after = Channel::claimed::<QueuedConsumerSequencer<SharedState>>((), chan, end).1;
            &&& after.valid()
            &&& after.unread() == chan.unread().skip(end - start + 1)
            &&& QueuedConsumerSequencer::<SharedState>::outstanding((), after.gates, start, end)
            &&& QueuedConsumerSequencer::<SharedState>::grant(
                (),
                after.gates,
                next_limit,
            ) matches Ok((next_start, next_end)) ==> next_start == end + 1
        }),
{
    law_receive_takes_the_oldest(chan, limit);
    chan.lemma_unread();
    let progress = chan.gates.producer.progress();
    let claimed = chan.gates.consumer.claimed;
    let after = Channel::claimed::<QueuedConsumerSequencer<SharedState>>((), chan, end).1;
    progress.lemma_run(claimed);
    assert forall|seq: int| #[trigger] after.gates.consumer.consumed(seq)
        == chan.gates.consumer.consumed(seq) by {}
    assert(progress.reachable(end)) by {
        assert forall|seq: int|
            progress.frontier - progress.capacity < seq <= end implies #[trigger] (progress.ready)(
            seq,
        ) by {
            if seq > claimed {
                assert((progress.ready)(seq));
            }
        }
    }
    assert(after.gates.consumer.in_step(progress));
    assert(progress.run(end) == chan.horizon());
    assert(after.unread() =~= chan.unread().skip(end - start + 1));
    assert forall|seq: int| start <= seq <= end implies !#[trigger] after.gates.consumer.consumed(
        seq,
    ) by {
        assert(after.gates.consumer.consumed(seq) == chan.gates.consumer.consumed(seq));
    }
}

/// A receiver's open claim stays open while other receivers claim and finish.
pub proof fn law_open_reads_outlive_receivers(
    gates: GatesView<SharedView, QueuedView>,
    read_start: int,
    read_end: int,
    limit: int,
    start: int,
    end: int,
)
    requires
        gates.producer.sound(),
        gates.consumer.in_step(gates.producer.progress()),
        limit >= 1,
        QueuedConsumerSequencer::<SharedState>::outstanding((), gates, read_start, read_end),
    ensures
        QueuedConsumerSequencer::<SharedState>::grant((), gates, limit) == Ok::<
            (int, int),
            TryClaimError,
        >((start, end)) ==> {
            &&& read_end < start
            &&& QueuedConsumerSequencer::<SharedState>::outstanding(
                (),
                QueuedConsumerSequencer::<SharedState>::granted((), gates, end).1,
                read_start,
                read_end,
            )
        },
        QueuedConsumerSequencer::<SharedState>::outstanding((), gates, start, end) && (end
            < read_start || read_end < start) ==> QueuedConsumerSequencer::<
            SharedState,
        >::outstanding(
            (),
            QueuedConsumerSequencer::<SharedState>::committed((), gates, start, end),
            read_start,
            read_end,
        ),
{
    let progress = gates.producer.progress();
    let consumer = gates.consumer;
    if consumer.outstanding(progress, start, end) && (end < read_start || read_end < start) {
        consumer.lemma_commit(progress, start, end);
        let later = consumer.commit(start, end);
        assert forall|seq: int| read_start <= seq <= read_end implies !#[trigger] later.consumed(
            seq,
        ) by {
            assert(!consumer.consumed(seq));
        }
    }
    assert forall|seq: int| #[trigger] consumer.claim(end).consumed(seq) == consumer.consumed(
        seq,
    ) by {}
}

/// A granted claim starts after everything that was claimed before. It is open until it is
/// committed, and it changes nothing for the receivers.
pub proof fn law_claim_is_invisible<T>(
    chan: ChannelView<GatesView<SharedView, QueuedView>, T>,
    limit: int,
    start: int,
    end: int,
)
    requires
        chan.valid(),
        limit >= 1,
        MultiPublisherSequencer::<QueuedSharedState>::may_claim((), chan.gates),
        MultiPublisherSequencer::<QueuedSharedState>::grant((), chan.gates, limit) == Ok::<
            (int, int),
            TryClaimError,
        >((start, end)),
    ensures
        ({
            let after = Channel::claimed::<MultiPublisherSequencer<QueuedSharedState>>(
                (),
                chan,
                end,
            ).1;
            &&& start == chan.gates.producer.claimed + 1 <= end
            &&& end <= chan.gates.consumer.claimed + chan.gates.producer.capacity()
            &&& after.valid()
            &&& MultiPublisherSequencer::<QueuedSharedState>::outstanding((), after.gates, start, end)
            &&& chan.gates.producer.progress().extends_to(after.gates.producer.progress(), end)
            &&& after.unread() == chan.unread()
        }),
{
    let producer = chan.gates.producer;
    let progress = producer.progress();
    let wanted = producer.wanted(limit);
    chan.lemma_unread();
    RingBufferMeta::lemma_exponent(producer.capacity());
    QueuedSharedState::lemma_consumed_until(chan.gates.consumer, progress, wanted);
    assert forall|seq: int|
        producer.claimed - producer.capacity() < seq <= end
            - producer.capacity() implies #[trigger] producer.published(seq) by {
        assert((progress.ready)(seq));
    }
    producer.lemma_claim(end);
    let later = producer.claim(end).progress();
    QueuedSharedState::lemma_claim_in_step(chan.gates.consumer, progress, wanted, later, end);
    assert forall|seq: int|
        end - progress.capacity < seq <= progress.frontier implies #[trigger] (later.ready)(seq)
        == (progress.ready)(seq) by {
        assert(producer.claim(end).published(seq) == producer.published(seq));
    }
    assert forall|seq: int| progress.frontier < seq <= end implies !#[trigger] (later.ready)(seq) by {
        assert(!producer.claim(end).published(seq));
    }
    assert(producer.claim(end).outstanding(start, end));
    progress.lemma_extended_run(later, end, chan.gates.consumer.claimed);
}

/// Writing the slots of an open claim changes nothing that can be received.
pub proof fn law_open_slots_are_not_readable<T>(
    chan: ChannelView<GatesView<SharedView, QueuedView>, T>,
    start: int,
    end: int,
    values: Seq<T>,
)
    requires
        chan.valid(),
        MultiPublisherSequencer::<QueuedSharedState>::outstanding((), chan.gates, start, end),
        values.len() <= end - start + 1,
    ensures
        ({
            let after = ChannelView {
                slots: RingBuffer::with_items(chan.slots, start, values),
                ..chan
            };
            after.valid() && after.unread() == chan.unread()
        }),
{
    let producer = chan.gates.producer;
    let progress = producer.progress();
    let position = chan.gates.consumer.claimed;
    let after = ChannelView {
        slots: RingBuffer::with_items(chan.slots, start, values),
        ..chan
    };
    chan.lemma_unread();
    progress.lemma_run(position);
    RingBuffer::lemma_with_items(chan.slots, start, values);
    if chan.horizon() >= start {
        assert((progress.ready)(start));
        assert(producer.published(start));
    }
    assert forall|i: int| 0 <= i < chan.unread().len() implies after.unread()[i]
        == #[trigger] chan.unread()[i] by {
        let seq = position + 1 + i;
        assert(RingBuffer::item(after.slots, seq) == RingBuffer::item(chan.slots, seq));
    }
    assert(after.unread() =~= chan.unread());
}

/// Committing an open claim takes nothing away. Where everything before the claim is committed,
/// all of it can now be received, in order; where an earlier claim is open, what there is to
/// receive stays the same.
pub proof fn law_commit_publishes_the_batch<T>(
    chan: ChannelView<GatesView<SharedView, QueuedView>, T>,
    start: int,
    end: int,
)
    requires
        chan.valid(),
        !chan.gates.producer.terminated,
        MultiPublisherSequencer::<QueuedSharedState>::outstanding((), chan.gates, start, end),
    ensures
        ({
            let after = ChannelView {
                gates: MultiPublisherSequencer::<QueuedSharedState>::committed((), chan.gates, start, end),
                ..chan
            };
            let before = chan.unread();
            &&& after.valid()
            &&& before.len() <= after.unread().len()
            &&& after.unread().take(before.len() as int) == before
            &&& start > chan.horizon()
            &&& start > chan.horizon() + 1 ==> after.unread() == before
            &&& start == chan.horizon() + 1 ==> {
                &&& before.len() + (end - start + 1) <= after.unread().len()
                &&& after.unread().take(before.len() + (end - start + 1)) == before + chan.items(
                    start,
                    end,
                )
            }
            &&& start == chan.horizon() + 1 && end == chan.gates.producer.claimed
                ==> after.unread() == before + chan.items(start, end)
        }),
{
    let producer = chan.gates.producer;
    let progress = producer.progress();
    let after = ChannelView {
        gates: MultiPublisherSequencer::<QueuedSharedState>::committed((), chan.gates, start, end),
        ..chan
    };
    let later = after.gates.producer.progress();
    let position = chan.gates.consumer.claimed;
    chan.lemma_unread();
    progress.lemma_run(position);
    producer.lemma_commit(start, end);
    U32SlotStates::lemma_with_range(producer.states, start, end);
    assert forall|seq: int|
        progress.frontier - progress.capacity < seq <= progress.frontier implies #[trigger] (
    later.ready)(seq) == ((progress.ready)(seq) || start <= seq <= end) by {
        assert(producer.commit(start, end).published(seq) == (producer.published(seq) || start
            <= seq <= end));
    }
    assert(progress.publishes_to(later, start, end));
    QueuedSharedState::lemma_commit_in_step(chan.gates.consumer, progress, later);
    if start <= chan.horizon() {
        assert((progress.ready)(start));
        assert(producer.published(start));
    }
    progress.lemma_published_run(later, start, end, position);
    assert(after.unread().take(chan.unread().len() as int) =~= chan.unread());
    if start == chan.horizon() + 1 {
        assert(after.unread().take(chan.unread().len() + (end - start + 1)) =~= chan.unread()
            + chan.items(start, end));
        if end == producer.claimed {
            later.lemma_run(position);
            assert(after.unread() =~= chan.unread() + chan.items(start, end));
        }
    }
}

/// A batch that is claimed, filled and committed while no other claim is open is received after
/// what was there, complete and in order.
pub proof fn law_batch_appends<T>(
    chan: ChannelView<GatesView<SharedView, QueuedView>, T>,
    limit: int,
    start: int,
    end: int,
    values: Seq<T>,
)
    requires
        chan.valid(),
        chan.settled(),
        limit >= 1,
        MultiPublisherSequencer::<QueuedSharedState>::may_claim((), chan.gates),
        MultiPublisherSequencer::<QueuedSharedState>::grant((), chan.gates, limit) == Ok::<
            (int, int),
            TryClaimError,
        >((start, end)),
        values.len() == end - start + 1,
    ensures
        ({
            let claimed = Channel::claimed::<MultiPublisherSequencer<QueuedSharedState>>(
                (),
                chan,
                end,
            ).1;
            let after = ChannelView {
                gates: MultiPublisherSequencer::<QueuedSharedState>::committed((), claimed.gates, start, end),
                slots: RingBuffer::with_items(claimed.slots, start, values),
            };
            &&& after.valid()
            &&& after.settled()
            &&& after.gates.producer.claimed == end
            &&& after.unread() == chan.unread() + values
        }),
{
    let producer = chan.gates.producer;
    let progress = producer.progress();
    let claimed = Channel::claimed::<MultiPublisherSequencer<QueuedSharedState>>((), chan, end).1;
    let filled = ChannelView {
        slots: RingBuffer::with_items(claimed.slots, start, values),
        ..claimed
    };
    let after = ChannelView {
        gates: MultiPublisherSequencer::<QueuedSharedState>::committed((), claimed.gates, start, end),
        slots: RingBuffer::with_items(claimed.slots, start, values),
    };
    law_claim_is_invisible(chan, limit, start, end);
    law_open_slots_are_not_readable(claimed, start, end, values);
    chan.lemma_unread();
    let position = chan.gates.consumer.claimed;
    assert forall|seq: int| position < seq <= progress.frontier implies #[trigger] (progress.ready)(
        seq,
    ) by {
        assert(producer.published(seq));
    }
    progress.lemma_run_unique(position, progress.frontier);
    progress.lemma_extended_run(claimed.gates.producer.progress(), end, position);
    law_commit_publishes_the_batch(filled, start, end);
    RingBuffer::lemma_with_items(claimed.slots, start, values);
    assert(filled.items(start, end) == values);
    producer.claim(end).lemma_commit(start, end);
    U32SlotStates::lemma_with_range(producer.states, start, end);
    assert forall|seq: int|
        after.gates.producer.in_window(seq) implies #[trigger] after.gates.producer.published(
        seq,
    ) by {
        assert(producer.claim(end).commit(start, end).published(seq) == (producer.claim(
            end,
        ).published(seq) || start <= seq <= end));
        if seq < start {
            assert(producer.published(seq));
            assert((progress.ready)(seq));
            assert((claimed.gates.producer.progress().ready)(seq));
        }
    }
}

/// A batch that is claimed, filled in whatever way and committed while no other claim is open is
/// received after what was there: what its slots hold, complete and in order.
pub proof fn law_filled_batch_appends<T>(
    chan: ChannelView<GatesView<SharedView, QueuedView>, T>,
    limit: int,
    start: int,
    end: int,
    slots: Seq<T>,
)
    requires
        chan.valid(),
        chan.settled(),
        limit >= 1,
        MultiPublisherSequencer::<QueuedSharedState>::may_claim((), chan.gates),
        MultiPublisherSequencer::<QueuedSharedState>::grant((), chan.gates, limit) == Ok::<
            (int, int),
            TryClaimError,
        >((start, end)),
        slots.len() == chan.slots.len(),
        forall|seq: int|
            end - slots.len() < seq < start ==> #[trigger] RingBuffer::item(slots, seq)
                == RingBuffer::item(chan.slots, seq),
    ensures
        ({
            let claimed = Channel::claimed::<MultiPublisherSequencer<QueuedSharedState>>(
                (),
                chan,
                end,
            ).1;
            let after = ChannelView {
                gates: MultiPublisherSequencer::<QueuedSharedState>::committed(
                    (),
                    claimed.gates,
                    start,
                    end,
                ),
                slots,
            };
            &&& after.valid()
            &&& after.settled()
            &&& after.gates.producer.claimed == end
            &&& after.unread() == chan.unread() + RingBuffer::items(slots, start, end)
        }),
{
    let claimed = Channel::claimed::<MultiPublisherSequencer<QueuedSharedState>>((), chan, end).1;
    let values = RingBuffer::items(chan.slots, start, end);
    let same = ChannelView {
        gates: MultiPublisherSequencer::<QueuedSharedState>::committed(
            (),
            claimed.gates,
            start,
            end,
        ),
        slots: RingBuffer::with_items(claimed.slots, start, values),
    };
    let after = ChannelView { gates: same.gates, slots };
    let producer = chan.gates.producer;
    let progress = producer.progress();
    let position = chan.gates.consumer.claimed;
    law_claim_is_invisible(chan, limit, start, end);
    law_batch_appends(chan, limit, start, end, values);
    RingBuffer::lemma_with_items(claimed.slots, start, values);
    chan.lemma_unread();
    same.lemma_unread();
    assert forall|seq: int| position < seq <= progress.frontier implies #[trigger] (progress.ready)(
        seq,
    ) by {
        assert(producer.published(seq));
    }
    progress.lemma_run_unique(position, progress.frontier);
    assert forall|i: int| 0 <= i < after.unread().len() implies #[trigger] after.unread()[i] == (
    chan.unread() + RingBuffer::items(slots, start, end))[i] by {
        let seq = position + 1 + i;
        assert(after.unread()[i] == RingBuffer::item(slots, seq));
        if seq < start {
            assert(RingBuffer::item(slots, seq) == RingBuffer::item(chan.slots, seq));
        }
    }
    assert(after.unread() =~= chan.unread() + RingBuffer::items(slots, start, end));
}

/// A value that is sent while no other claim is open is the newest item.
pub proof fn law_send_appends<T>(
    chan: ChannelView<GatesView<SharedView, QueuedView>, T>,
    seq: int,
    value: T,
)
    requires
        chan.valid(),
        chan.settled(),
        MultiPublisherSequencer::<QueuedSharedState>::may_claim((), chan.gates),
        MultiPublisherSequencer::<QueuedSharedState>::grant((), chan.gates, 1) == Ok::<
            (int, int),
            TryClaimError,
        >((seq, seq)),
    ensures
        ({
            let after = Channel::sent::<MultiPublisherSequencer<QueuedSharedState>>(
                (),
                chan,
                seq,
                value,
            ).1;
            &&& after.valid()
            &&& after.settled()
            &&& after.gates.producer.claimed == seq == chan.gates.producer.claimed + 1
            &&& after.gates.producer.capacity() == chan.gates.producer.capacity()
            &&& !after.gates.producer.terminated
            &&& after.gates.consumer == chan.gates.consumer
            &&& after.unread() == chan.unread().push(value)
        }),
{
    let producer = chan.gates.producer;
    let progress = producer.progress();
    let after = Channel::sent::<MultiPublisherSequencer<QueuedSharedState>>(
        (),
        chan,
        seq,
        value,
    ).1;
    chan.lemma_unread();
    RingBufferMeta::lemma_exponent(producer.capacity());
    RingBufferMeta::lemma_slot_bounds(seq, chan.slots.len() as int);
    QueuedSharedState::lemma_consumed_until(chan.gates.consumer, progress, producer.wanted(1));
    assert forall|s: int|
        producer.claimed - producer.capacity() < s <= seq
            - producer.capacity() implies #[trigger] producer.published(s) by {}
    producer.lemma_claim(seq);
    let claimed = producer.claim(seq);
    assert(claimed.outstanding(seq, seq));
    QueuedSharedState::lemma_claim_in_step(
        chan.gates.consumer,
        progress,
        producer.wanted(1),
        claimed.progress(),
        seq,
    );
    claimed.lemma_commit(seq, seq);
    U32SlotStates::lemma_with_range(producer.states, seq, seq);
    QueuedSharedState::lemma_commit_in_step(
        chan.gates.consumer,
        claimed.progress(),
        after.gates.producer.progress(),
    );
    assert forall|s: int|
        after.gates.producer.in_window(s) implies #[trigger] after.gates.producer.published(s) by {
        assert(claimed.commit(seq, seq).published(s) == (claimed.published(s) || s == seq));
        if s != seq {
            assert(producer.published(s));
            assert(claimed.published(s) == producer.published(s));
        }
    }
    let cursor = chan.gates.consumer.claimed;
    assert forall|s: int| cursor < s <= progress.frontier implies #[trigger] (progress.ready)(s) by {
        assert(producer.published(s));
    }
    progress.lemma_run_unique(cursor, progress.frontier);
    let later = after.gates.producer.progress();
    assert forall|s: int| cursor < s <= later.frontier implies #[trigger] (later.ready)(s) by {
        assert(after.gates.producer.published(s));
    }
    later.lemma_run_unique(cursor, later.frontier);
    assert forall|i: int| 0 <= i < after.unread().len() implies #[trigger] after.unread()[i]
        == chan.unread().push(value)[i] by {
        RingBuffer::lemma_with_item(chan.slots, seq, value, cursor + 1 + i);
    }
    assert(after.unread() =~= chan.unread().push(value));
}

/// While a receiver is left, a claim is refused as disconnected if and only if the senders were
/// terminated. Otherwise it is refused as full if and only if the slot of the next sequence is
/// not released yet.
pub proof fn law_refusals<T>(
    chan: ChannelView<GatesView<SharedView, QueuedView>, T>,
    limit: int,
)
    requires
        chan.valid(),
        chan.heard(),
        limit >= 1,
    ensures
        MultiPublisherSequencer::<QueuedSharedState>::grant((), chan.gates, limit) == Err::<
            (int, int),
            TryClaimError,
        >(TryClaimError::Shutdown) <==> chan.gates.producer.terminated,
        MultiPublisherSequencer::<QueuedSharedState>::grant((), chan.gates, limit) == Err::<
            (int, int),
            TryClaimError,
        >(TryClaimError::Empty) <==> {
            &&& !chan.gates.producer.terminated
            &&& !chan.gates.consumer.consumed(
                chan.gates.producer.claimed + 1 - chan.gates.producer.capacity(),
            )
        },
{
    let producer = chan.gates.producer;
    let states = chan.gates.consumer.states;
    RingBufferMeta::lemma_exponent(producer.capacity());
    assert forall|seq: int| !#[trigger] U32SlotStates::marked(states, seq) by {
        RingBufferMeta::lemma_slot_bounds(seq, states.len() as int);
    }
    let first = producer.claimed + 1 - producer.capacity();
    let last = producer.wanted(limit) - producer.capacity();
    U32SlotStates::lemma_run_end(states, first, last);
    if U32SlotStates::run_end(states, first, last) >= first {
        assert(U32SlotStates::available(states, first));
    }
}

/// Values that are sent while the slots for all of them are released are received after what
/// was there, complete and in the order in which they were sent.
pub proof fn law_sent_is_received<T>(
    chan: ChannelView<GatesView<SharedView, QueuedView>, T>,
    values: Seq<T>,
)
    requires
        chan.valid(),
        chan.settled(),
        chan.heard(),
        !chan.gates.producer.terminated,
        chan.gates.producer.claimed + values.len() + 2 * chan.gates.producer.capacity()
            <= i64::MAX,
        forall|i: int|
            0 <= i < values.len() ==> #[trigger] chan.gates.consumer.consumed(
                chan.gates.producer.claimed + 1 + i - chan.gates.producer.capacity(),
            ),
    ensures
        ({
            let after = chan.after_sends(values);
            &&& after.valid()
            &&& after.settled()
            &&& !after.gates.producer.terminated
            &&& after.gates.producer.claimed == chan.gates.producer.claimed + values.len()
            &&& after.gates.producer.capacity() == chan.gates.producer.capacity()
            &&& after.gates.consumer == chan.gates.consumer
            &&& after.unread() == chan.unread() + values
        }),
    decreases values.len(),
{
    if values.len() == 0 {
        assert(chan.unread() + values =~= chan.unread());
    } else {
        law_sent_is_received(chan, values.drop_last());
        let before = chan.after_sends(values.drop_last());
        assert(before.gates.consumer.consumed(
            chan.gates.producer.claimed + 1 + (values.len() - 1)
                - chan.gates.producer.capacity(),
        ));
        RingBufferMeta::lemma_exponent(before.gates.producer.capacity());
        law_refusals(before, 1);
        law_send_appends(before, before.gates.producer.claimed + 1, values.last());
        assert((chan.unread() + values.drop_last()).push(values.last()) =~= chan.unread()
            + values);
    }
}

/// No sender holds a slot that a receiver is reading: the slots of an open claim and those of
/// an open read are different.
pub proof fn law_reads_are_not_overwritten(
    gates: GatesView<SharedView, QueuedView>,
    start: int,
    end: int,
    read_start: int,
    read_end: int,
    written: int,
    read: int,
)
    requires
        gates.producer.sound(),
        gates.consumer.in_step(gates.producer.progress()),
        MultiPublisherSequencer::<QueuedSharedState>::outstanding((), gates, start, end),
        QueuedConsumerSequencer::<SharedState>::outstanding((), gates, read_start, read_end),
        start <= written <= end,
        read_start <= read <= read_end,
    ensures
        RingBufferMeta::slot_of(written, gates.producer.capacity()) != RingBufferMeta::slot_of(
            read,
            gates.producer.capacity(),
        ),
{
    let producer = gates.producer;
    assert((producer.progress().ready)(read));
    assert(producer.published(read));
    assert(!producer.published(written));
    RingBufferMeta::lemma_slots_distinct(written, read, producer.capacity());
}

/// An open read stays open while senders claim, commit, arrive and leave, be it the last one,
/// and when they are terminated.
pub proof fn law_open_reads_outlive_senders(
    gates: GatesView<SharedView, QueuedView>,
    read_start: int,
    read_end: int,
    limit: int,
    start: int,
    end: int,
)
    requires
        gates.producer.sound(),
        gates.consumer.in_step(gates.producer.progress()),
        limit >= 1,
        QueuedConsumerSequencer::<SharedState>::outstanding((), gates, read_start, read_end),
    ensures
        MultiPublisherSequencer::<QueuedSharedState>::grant((), gates, limit) == Ok::<
            (int, int),
            TryClaimError,
        >((start, end)) ==> QueuedConsumerSequencer::<SharedState>::outstanding(
            (),
            MultiPublisherSequencer::<QueuedSharedState>::granted((), gates, end).1,
            read_start,
            read_end,
        ),
        MultiPublisherSequencer::<QueuedSharedState>::outstanding((), gates, start, end) ==> QueuedConsumerSequencer::<SharedState>::outstanding(
            (),
            MultiPublisherSequencer::<QueuedSharedState>::committed((), gates, start, end),
            read_start,
            read_end,
        ),
        QueuedConsumerSequencer::<SharedState>::outstanding(
            (),
            GatesView {
                producer: SharedView {
                    senders: gates.producer.senders + 1,
                    ..gates.producer
                },
                ..gates
            },
            read_start,
            read_end,
        ),
        QueuedConsumerSequencer::<SharedState>::outstanding(
            (),
            MultiPublisherSequencer::<QueuedSharedState>::left(gates),
            read_start,
            read_end,
        ),
        QueuedConsumerSequencer::<SharedState>::outstanding(
            (),
            MultiPublisherSequencer::<QueuedSharedState>::stopped(gates),
            read_start,
            read_end,
        ),
{
    let producer = gates.producer;
    let capacity = producer.capacity();
    RingBufferMeta::lemma_exponent(capacity);
    let first = producer.claimed + 1 - capacity;
    let wanted = producer.wanted(limit);
    U32SlotStates::lemma_run_end(gates.consumer.states, first, wanted - capacity);
    if read_start <= U32SlotStates::run_end(gates.consumer.states, first, wanted - capacity) {
        assert(U32SlotStates::available(gates.consumer.states, read_start));
        assert(gates.consumer.consumed(read_start));
    }
    if producer.outstanding(start, end) && !producer.terminated {
        U32SlotStates::lemma_with_range(producer.states, start, end);
    }
    let left = SharedView { senders: (producer.senders - 1) as nat, ..producer };
    U32SlotStates::lemma_with_mark(producer.states, producer.boundary());
    U32SlotStates::lemma_with_mark(left.states, left.boundary());
}

/// When the last receiver leaves, senders are told that they are disconnected.
pub proof fn law_last_receiver_disconnects_senders<T>(
    chan: ChannelView<GatesView<SharedView, QueuedView>, T>,
    limit: int,
)
    requires
        chan.valid(),
        limit >= 1,
        chan.gates.consumer.receivers == 1,
    ensures
        MultiPublisherSequencer::<QueuedSharedState>::grant(
            (),
            QueuedConsumerSequencer::<SharedState>::left(chan.gates),
            limit,
        ) == Err::<(int, int), TryClaimError>(TryClaimError::Shutdown),
{
    let producer = chan.gates.producer;
    let states = chan.gates.consumer.without_receiver().states;
    RingBufferMeta::lemma_exponent(producer.capacity());
    let seq = producer.claimed + 1 - producer.capacity();
    RingBufferMeta::lemma_slot_bounds(seq, states.len() as int);
    let slot = RingBufferMeta::slot_of(seq, states.len() as int);
    U32SlotStates::lemma_mark(chan.gates.consumer.states[slot]);
    U32SlotStates::lemma_run_end(states, seq, producer.wanted(limit) - producer.capacity());
    assert(U32SlotStates::marked(states, seq));
    assert(U32SlotStates::mark_met(states, seq, producer.wanted(limit) - producer.capacity()));
}

/// A stream that has ended is drained: receivers are granted what is left, and are told that
/// they are disconnected if and only if nothing is.
pub proof fn law_drained_then_disconnected<T>(
    chan: ChannelView<GatesView<SharedView, QueuedView>, T>,
    limit: int,
)
    requires
        chan.valid(),
        limit >= 1,
        chan.gates.producer.ended(),
    ensures
        chan.unread().len() > 0 <==> QueuedConsumerSequencer::<SharedState>::grant(
            (),
            chan.gates,
            limit,
        ) is Ok,
        chan.unread().len() == 0 <==> QueuedConsumerSequencer::<SharedState>::grant(
            (),
            chan.gates,
            limit,
        ) == Err::<(int, int), TryClaimError>(TryClaimError::Shutdown),
{
    law_receive_takes_the_oldest(chan, limit);
    chan.lemma_unread();
    let producer = chan.gates.producer;
    let progress = producer.progress();
    let position = chan.gates.consumer.claimed;
    producer.lemma_boundary();
    progress.lemma_run(position);
    if chan.unread().len() == 0 {
        if position + 1 != producer.boundary() {
            if position + 1 < producer.boundary() {
                assert(producer.published(position + 1));
                assert((progress.ready)(position + 1));
            } else {
                assert((progress.ready)(producer.boundary()));
            }
        }
        let end = QueuedConsumerSequencer::<SharedState>::wanted(chan.gates, limit);
        U32SlotStates::lemma_run_end(producer.states, position + 1, end);
        assert(U32SlotStates::marked(producer.states, position + 1));
        assert(U32SlotStates::mark_met(producer.states, position + 1, end));
    }
}

impl<T> ChannelView<GatesView<SharedView, QueuedView>, T> {
    /// The same items are left where the same sequences of the lap are published.
    proof fn lemma_same_run(self, other: Self)
        requires
            other.valid(),
            self.slots == other.slots,
            self.gates.consumer.claimed == other.gates.consumer.claimed,
            self.gates.producer.capacity() == other.gates.producer.capacity(),
            other.gates.producer.claimed <= self.gates.producer.claimed,
            self.gates.producer.claimed - self.gates.producer.capacity()
                <= other.gates.consumer.claimed,
            forall|seq: int|
                self.gates.producer.claimed - self.gates.producer.capacity() < seq
                    ==> #[trigger] self.gates.producer.published(seq)
                    == other.gates.producer.published(seq),
        ensures
            self.unread() == other.unread(),
    {
        let progress = other.gates.producer.progress();
        let same = self.gates.producer.progress();
        let position = other.gates.consumer.claimed;
        other.lemma_unread();
        progress.lemma_run(position);
        let last = progress.run(position);
        assert forall|seq: int| position < seq <= last implies #[trigger] (same.ready)(seq) by {
            assert((progress.ready)(seq));
            assert(self.gates.producer.published(seq) == other.gates.producer.published(seq));
        }
        assert(self.gates.producer.published(last + 1) == other.gates.producer.published(last + 1));
        same.lemma_run_unique(position, last);
    }
}

/// When the last sender leaves, the stream ends where it is: receivers keep what is left.
pub proof fn law_last_sender_ends_the_stream<T>(
    chan: ChannelView<GatesView<SharedView, QueuedView>, T>,
)
    requires
        chan.valid(),
        chan.gates.producer.senders == 1,
    ensures
        ({
            let after = ChannelView {
                gates: MultiPublisherSequencer::<QueuedSharedState>::left(chan.gates),
                ..chan
            };
            &&& after.valid()
            &&& after.gates.producer.ended()
            &&& after.gates.producer.senders == 0
            &&& after.unread() == chan.unread()
        }),
{
    let producer = chan.gates.producer;
    let left = SharedView { senders: 0, ..producer };
    let after = ChannelView {
        gates: MultiPublisherSequencer::<QueuedSharedState>::left(chan.gates),
        ..chan
    };
    producer.lemma_same_slots(left);
    left.lemma_closed();
    assert forall|seq: int| #[trigger] left.closed().published(seq) == producer.published(seq) by {
        assert(left.published(seq) == producer.published(seq));
    }
    assert forall|seq: int|
        producer.claimed - producer.capacity() < seq <= producer.claimed && (
        producer.progress().ready)(seq) implies #[trigger] (left.closed().progress().ready)(
        seq,
    ) by {
        assert(left.closed().published(seq) == producer.published(seq));
    }
    QueuedSharedState::lemma_commit_in_step(
        chan.gates.consumer,
        producer.progress(),
        left.closed().progress(),
    );
    chan.lemma_unread();
    after.lemma_same_run(chan);
}

/// Terminating ends the stream: every later claim is refused as disconnected, every later
/// commit is discarded, and terminating again changes nothing. Receivers keep what is left.
pub proof fn law_terminated<T>(
    chan: ChannelView<GatesView<SharedView, QueuedView>, T>,
    limit: int,
    start: int,
    end: int,
)
    requires
        chan.valid(),
        limit >= 1,
    ensures
        ({
            let after = ChannelView {
                gates: MultiPublisherSequencer::<QueuedSharedState>::stopped(chan.gates),
                ..chan
            };
            &&& after.valid()
            &&& !chan.gates.producer.terminated ==> after.gates.producer.ended()
            &&& MultiPublisherSequencer::<QueuedSharedState>::grant((), after.gates, limit)
                == Err::<(int, int), TryClaimError>(TryClaimError::Shutdown)
            &&& MultiPublisherSequencer::<QueuedSharedState>::committed(
                (),
                after.gates,
                start,
                end,
            ) == after.gates
            &&& MultiPublisherSequencer::<QueuedSharedState>::stopped(after.gates) == after.gates
            &&& after.unread() == chan.unread()
        }),
{
    let producer = chan.gates.producer;
    let after = ChannelView {
        gates: MultiPublisherSequencer::<QueuedSharedState>::stopped(chan.gates),
        ..chan
    };
    if !producer.terminated {
        let closed = producer.closed();
        let stopped = producer.terminate();
        producer.lemma_closed();
        producer.lemma_terminated();
        chan.lemma_unread();
        RingBufferMeta::lemma_exponent(producer.capacity());
        if producer.claimed < 0 {
            QueuedSharedState::lemma_commit_in_step(
                chan.gates.consumer,
                producer.progress(),
                closed.progress(),
            );
            assert forall|seq: int|
                -1 - closed.capacity() < seq <= -1 implies #[trigger] (closed.progress().ready)(
                seq,
            ) by {
                assert(closed.published(seq));
            }
            QueuedSharedState::lemma_first_claim_in_step(
                chan.gates.consumer,
                closed.progress(),
                stopped.progress(),
            );
        } else {
            QueuedSharedState::lemma_commit_in_step(
                chan.gates.consumer,
                producer.progress(),
                stopped.progress(),
            );
        }
        after.lemma_same_run(chan);
    }
}

/// What a receiver remembers to be published stays published while senders claim and commit.
pub proof fn law_receiver_outlives_senders(
    receiver: &QueuedConsumerSequencer<SharedState>,
    gates: GatesView<SharedView, QueuedView>,
    limit: int,
    start: int,
    end: int,
)
    requires
        gates.producer.sound(),
        gates.consumer.in_step(gates.producer.progress()),
        receiver.intact(gates.producer.progress(), gates.consumer.claimed),
        limit >= 1,
    ensures
        MultiPublisherSequencer::<QueuedSharedState>::may_claim((), gates)
            && MultiPublisherSequencer::<QueuedSharedState>::grant((), gates, limit) == Ok::<
            (int, int),
            TryClaimError,
        >((start, end)) ==> {
            let claimed = MultiPublisherSequencer::<QueuedSharedState>::granted((), gates, end).1;
            &&& claimed.producer.sound()
            &&& claimed.consumer.in_step(claimed.producer.progress())
            &&& MultiPublisherSequencer::<QueuedSharedState>::outstanding((), claimed, start, end)
            &&& receiver.intact(claimed.producer.progress(), gates.consumer.claimed)
        },
        MultiPublisherSequencer::<QueuedSharedState>::outstanding((), gates, start, end)
            ==> receiver.intact(
            MultiPublisherSequencer::<QueuedSharedState>::committed(
                (),
                gates,
                start,
                end,
            ).producer.progress(),
            gates.consumer.claimed,
        ),
{
    let producer = gates.producer;
    let progress = producer.progress();
    let claimed = gates.consumer.claimed;
    RingBufferMeta::lemma_exponent(producer.capacity());
    if producer.outstanding(start, end) {
        let later = producer.commit(start, end).progress();
        producer.lemma_commit(start, end);
        if !producer.terminated {
            U32SlotStates::lemma_with_range(producer.states, start, end);
        }
        assert forall|seq: int|
            claimed < seq && #[trigger] (progress.ready)(seq) implies (later.ready)(seq) by {
            assert(producer.published(seq));
            assert(producer.commit(start, end).published(seq));
        }
        receiver.lemma_intact(progress, claimed, later, claimed);
    }
    if MultiPublisherSequencer::<QueuedSharedState>::may_claim((), gates)
        && MultiPublisherSequencer::<QueuedSharedState>::grant((), gates, limit) == Ok::<
        (int, int),
        TryClaimError,
    >((start, end)) {
        let later = producer.claim(end).progress();
        QueuedSharedState::lemma_consumed_until(gates.consumer, progress, producer.wanted(limit));
        assert forall|seq: int|
            producer.claimed - producer.capacity() < seq <= end
                - producer.capacity() implies #[trigger] producer.published(seq) by {
            assert((progress.ready)(seq));
        }
        producer.lemma_claim(end);
        QueuedSharedState::lemma_claim_in_step(
            gates.consumer,
            progress,
            producer.wanted(limit),
            later,
            end,
        );
        assert forall|seq: int|
            claimed < seq && #[trigger] (progress.ready)(seq) implies (later.ready)(seq) by {
            assert(producer.published(seq));
            assert(producer.claim(end).published(seq) == producer.published(seq));
        }
        assert(producer.claim(end).outstanding(start, end));
        receiver.lemma_intact(progress, claimed, later, claimed);
    }
}

/// A receiver stays an endpoint of the channel while other receivers claim and finish.
pub proof fn law_receiver_outlives_receivers(
    receiver: &QueuedConsumerSequencer<SharedState>,
    before: &Gates<SharedState, QueuedSharedState>,
    after: &Gates<SharedState, QueuedSharedState>,
)
    requires
        receiver.attached(before),
        after.inv(),
        after@.producer == before@.producer,
        before@.consumer.claimed <= after@.consumer.claimed,
    ensures
        receiver.attached(after),
{
    receiver.lemma_intact(
        before@.producer.progress(),
        before@.consumer.claimed,
        after@.producer.progress(),
        after@.consumer.claimed,
    );
}

/// The receivers are never more than a lap behind the senders.
pub proof fn law_bounded<T>(chan: ChannelView<GatesView<SharedView, QueuedView>, T>)
    requires
        chan.valid(),
    ensures
        chan.gates.producer.claimed - chan.gates.consumer.claimed
            <= chan.gates.producer.capacity(),
        chan.unread().len() <= chan.gates.producer.capacity(),
{
    chan.lemma_unread();
}

/// A granted claim takes as many slots as were asked for, or as many in a row as are released
/// where that is less.
pub proof fn law_claims_what_is_free<T>(
    chan: ChannelView<GatesView<SharedView, QueuedView>, T>,
    limit: int,
    start: int,
    end: int,
)
    requires
        chan.valid(),
        limit >= 1,
        MultiPublisherSequencer::<QueuedSharedState>::grant((), chan.gates, limit) == Ok::<
            (int, int),
            TryClaimError,
        >((start, end)),
    ensures
        1 <= end - start + 1 <= limit,
        end - start + 1 <= chan.gates.producer.capacity(),
        forall|seq: int|
            start <= seq <= end ==> chan.gates.consumer.consumed(
                #[trigger] (seq - chan.gates.producer.capacity()),
            ),
        end - start + 1 < limit && end - start + 1 < chan.gates.producer.capacity()
            ==> !chan.gates.consumer.consumed(end + 1 - chan.gates.producer.capacity()),
{
    let producer = chan.gates.producer;
    let capacity = producer.capacity();
    RingBufferMeta::lemma_exponent(capacity);
    U32SlotStates::lemma_run_end(
        chan.gates.consumer.states,
        producer.claimed + 1 - capacity,
        producer.wanted(limit) - capacity,
    );
    assert forall|seq: int| start <= seq <= end implies chan.gates.consumer.consumed(
        #[trigger] (seq - capacity),
    ) by {
        assert(U32SlotStates::available(chan.gates.consumer.states, seq - capacity));
    }
}

/// While no producer's slot carries a shutdown mark, no receiver is told that it is
/// disconnected. [`law_marks_are_for_the_end`] and `history::law_no_mark_while_a_sender_is_left`
/// show that there is none while a sender is left and the senders are not terminated.
pub proof fn law_no_early_end<T>(
    chan: ChannelView<GatesView<SharedView, QueuedView>, T>,
    limit: int,
)
    requires
        chan.valid(),
        limit >= 1,
        chan.gates.producer.unmarked(),
    ensures
        QueuedConsumerSequencer::<SharedState>::grant((), chan.gates, limit) != Err::<
            (int, int),
            TryClaimError,
        >(TryClaimError::Shutdown),
{
    chan.lemma_unread();
    let states = chan.gates.producer.states;
    assert forall|seq: int| !#[trigger] U32SlotStates::marked(states, seq) by {
        RingBufferMeta::lemma_slot_bounds(seq, states.len() as int);
    }
}

/// A new channel carries no shutdown mark on either side. Neither a claim nor a commit nor a
/// sender's arrival nor the leaving of a sender that is not the last puts one on the producers'
/// slots; neither a receive nor its finish nor a receiver's arrival nor the leaving of a receiver
/// that is not the last puts one on the consumers'.
pub proof fn law_marks_are_for_the_end(
    gates: GatesView<SharedView, QueuedView>,
    start: int,
    end: int,
)
    requires
        gates.producer.sound(),
        gates.consumer.in_step(gates.producer.progress()),
    ensures
        SharedView::fresh(gates.producer.capacity()).unmarked(),
        QueuedView::fresh(gates.producer.capacity()).unmarked(),
        gates.producer.unmarked() ==> {
            &&& MultiPublisherSequencer::<QueuedSharedState>::granted(
                (),
                gates,
                end,
            ).1.producer.unmarked()
            &&& MultiPublisherSequencer::<QueuedSharedState>::committed(
                (),
                gates,
                start,
                end,
            ).producer.unmarked()
            &&& (SharedView { senders: gates.producer.senders + 1, ..gates.producer }).unmarked()
            &&& gates.producer.senders > 1 ==> MultiPublisherSequencer::<QueuedSharedState>::left(
                gates,
            ).producer.unmarked()
        },
        gates.consumer.unmarked() ==> {
            &&& QueuedConsumerSequencer::<SharedState>::granted(
                (),
                gates,
                end,
            ).1.consumer.unmarked()
            &&& QueuedConsumerSequencer::<SharedState>::committed(
                (),
                gates,
                start,
                end,
            ).consumer.unmarked()
            &&& (QueuedView { receivers: gates.consumer.receivers + 1, ..gates.consumer }).unmarked()
            &&& gates.consumer.receivers > 1 ==> QueuedConsumerSequencer::<SharedState>::left(
                gates,
            ).consumer.unmarked()
        },
{
    RingBufferMeta::lemma_exponent(gates.producer.capacity());
    if gates.producer.unmarked() {
        lemma_publishing_marks_nothing(gates.producer.states, start, end);
    }
    if gates.consumer.unmarked() {
        lemma_publishing_marks_nothing(gates.consumer.states, start, end);
    }
}

/// Finishing a claim releases exactly its slots and leaves what there is to receive as it is.
pub proof fn law_finishing_releases_the_slots<T>(
    chan: ChannelView<GatesView<SharedView, QueuedView>, T>,
    start: int,
    end: int,
)
    requires
        chan.valid(),
        QueuedConsumerSequencer::<SharedState>::outstanding((), chan.gates, start, end),
    ensures
        ({
            let after = ChannelView {
                gates: QueuedConsumerSequencer::<SharedState>::committed((), chan.gates, start, end),
                ..chan
            };
            &&& after.valid()
            &&& after.unread() == chan.unread()
            &&& forall|seq: int|
                chan.gates.producer.in_window(seq) ==> #[trigger] after.gates.consumer.consumed(seq)
                    == (chan.gates.consumer.consumed(seq) || start <= seq <= end)
        }),
{
    chan.gates.consumer.lemma_commit(chan.gates.producer.progress(), start, end);
}

/// A sender's open claim stays open while receivers claim, finish, arrive and leave.
pub proof fn law_open_claims_outlive_receivers(
    gates: GatesView<SharedView, QueuedView>,
    start: int,
    end: int,
    read_start: int,
    read_end: int,
)
    requires
        MultiPublisherSequencer::<QueuedSharedState>::outstanding((), gates, start, end),
    ensures
        MultiPublisherSequencer::<QueuedSharedState>::outstanding(
            (),
            QueuedConsumerSequencer::<SharedState>::granted((), gates, read_end).1,
            start,
            end,
        ),
        MultiPublisherSequencer::<QueuedSharedState>::outstanding(
            (),
            QueuedConsumerSequencer::<SharedState>::committed((), gates, read_start, read_end),
            start,
            end,
        ),
        MultiPublisherSequencer::<QueuedSharedState>::outstanding(
            (),
            QueuedConsumerSequencer::<SharedState>::left(gates),
            start,
            end,
        ),
        MultiPublisherSequencer::<QueuedSharedState>::outstanding(
            (),
            GatesView {
                consumer: QueuedView {
                    receivers: gates.consumer.receivers + 1,
                    ..gates.consumer
                },
                ..gates
            },
            start,
            end,
        ),
{
}

/// A sender or a receiver that arrives, or leaves while others of its side stay, changes nothing
/// but their number: claims are granted as before, and there is the same to receive.
pub proof fn law_other_endpoints_are_invisible<T>(
    chan: ChannelView<GatesView<SharedView, QueuedView>, T>,
    limit: int,
)
    requires
        chan.valid(),
    ensures
        chan.gates.producer.senders > 1 ==> {
            let after = ChannelView {
                gates: MultiPublisherSequencer::<QueuedSharedState>::left(chan.gates),
                ..chan
            };
            &&& after.valid()
            &&& after.gates.producer.senders == chan.gates.producer.senders - 1
            &&& after.gates.consumer == chan.gates.consumer
            &&& after.unread() == chan.unread()
            &&& MultiPublisherSequencer::<QueuedSharedState>::grant((), after.gates, limit)
                == MultiPublisherSequencer::<QueuedSharedState>::grant((), chan.gates, limit)
            &&& QueuedConsumerSequencer::<SharedState>::grant((), after.gates, limit)
                == QueuedConsumerSequencer::<SharedState>::grant((), chan.gates, limit)
        },
        chan.gates.consumer.receivers > 1 ==> {
            let after = ChannelView {
                gates: QueuedConsumerSequencer::<SharedState>::left(chan.gates),
                ..chan
            };
            &&& after.valid()
            &&& after.gates.consumer.receivers == chan.gates.consumer.receivers - 1
            &&& after.gates.producer == chan.gates.producer
            &&& after.unread() == chan.unread()
            &&& MultiPublisherSequencer::<QueuedSharedState>::grant((), after.gates, limit)
                == MultiPublisherSequencer::<QueuedSharedState>::grant((), chan.gates, limit)
            &&& QueuedConsumerSequencer::<SharedState>::grant((), after.gates, limit)
                == QueuedConsumerSequencer::<SharedState>::grant((), chan.gates, limit)
        },
{
    let producer = chan.gates.producer;
    let fewer = SharedView { senders: (producer.senders - 1) as nat, ..producer };
    let shrunk = ChannelView { gates: GatesView { producer: fewer, ..chan.gates }, ..chan };
    producer.lemma_same_slots(fewer);
    QueuedSharedState::lemma_commit_in_step(
        chan.gates.consumer,
        producer.progress(),
        fewer.progress(),
    );
    shrunk.lemma_same_run(chan);
    let left = QueuedView {
        receivers: (chan.gates.consumer.receivers - 1) as nat,
        ..chan.gates.consumer
    };
    assert forall|seq: int| #[trigger] left.consumed(seq) == chan.gates.consumer.consumed(seq) by {}
    assert(left.in_step(producer.progress()));
}

} // verus!
