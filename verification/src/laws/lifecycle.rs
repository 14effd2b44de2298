//! Backpressure, the end of a stream and waking, on the channels whose receivers see every
//! item.

use vstd::prelude::*;

use crate::channel::{Channel, ChannelView};
use crate::errors::TryClaimError;
use crate::ringbuffer::RingBufferMeta;
use crate::sequencers::consumer::DefaultConsumerSequencer;
use crate::sequencers::pub_mul::{MultiPublisherSequencer, SharedState, SharedView};
use crate::sequencers::{ConsumerCursors, ConsumerSequencer, CursorsView, GatesView, Sequencer};
use crate::slot_states::U32SlotStates;

verus! {

impl SharedView {
    /// The boundary carries the shutdown mark: the stream ends there.
    pub open spec fn ended(self) -> bool {
        U32SlotStates::marked(self.states, self.boundary())
    }

    /// No slot carries a shutdown mark.
    pub open spec fn unmarked(self) -> bool {
        forall|i: int|
            0 <= i < self.states.len() ==> !U32SlotStates::is_marked(#[trigger] self.states[i])
    }
}

impl<T> ChannelView<GatesView<SharedView, CursorsView>, T> {
    /// Some receiver is connected.
    pub open spec fn heard(self) -> bool {
        exists|index: int| self.follows(index)
    }

    /// No task waits for a receiver that has something to read.
    pub open spec fn parked(self) -> bool {
        &&& self.gates.consumer.waiting.len() == self.gates.consumer.consumed.len()
        &&& forall|index: int|
            #![trigger self.gates.consumer.waiting[index]]
            self.follows(index) && self.gates.consumer.waiting[index] is Some ==> self.unread(
                index,
            ).len() == 0
    }
}

impl<T> ChannelView<GatesView<SharedView, CursorsView>, T> {
    /// Receivers read the same where the same sequences are published and claimed.
    proof fn lemma_same_run(self, other: Self, index: int)
        requires
            other.valid(),
            other.follows(index),
            self.slots == other.slots,
            self.gates.consumer.consumed == other.gates.consumer.consumed,
            self.gates.producer.claimed == other.gates.producer.claimed,
            forall|seq: int|
                #[trigger] self.gates.producer.published(seq) == other.gates.producer.published(
                    seq,
                ),
        ensures
            self.unread(index) == other.unread(index),
    {
        let progress = other.gates.producer.progress();
        let same = self.gates.producer.progress();
        let position = other.gates.consumer.consumed[index];
        other.lemma_unread(index);
        progress.lemma_run(position);
        let last = progress.run(position);
        assert forall|seq: int| position < seq <= last implies #[trigger] (same.ready)(seq) by {
            assert((progress.ready)(seq));
            assert(self.gates.producer.published(seq) == other.gates.producer.published(seq));
        }
        assert(self.gates.producer.published(last + 1) == other.gates.producer.published(last + 1));
        same.lemma_run_unique(position, last);
    }
}

impl SharedView {
    /// Marking the boundary ends the stream and publishes nothing.
    pub proof fn lemma_closed(self)
        requires
            self.sound(),
        ensures
            self.closed().sound(),
            self.closed().ended(),
            self.closed().boundary() == self.boundary(),
            self.closed().capacity() == self.capacity(),
            self.progress().commits_to(self.closed().progress()),
            forall|seq: int| #[trigger] self.closed().published(seq) == self.published(seq),
    {
        let closed = self.closed();
        RingBufferMeta::lemma_exponent(self.capacity());
        U32SlotStates::lemma_with_mark(self.states, self.boundary());
        self.lemma_boundary();
        self.lemma_mark(self.boundary());
        assert forall|seq: int| #[trigger] closed.published(seq) == self.published(seq) by {
            assert(U32SlotStates::lap_of(U32SlotStates::state_of(closed.states, seq))
                == U32SlotStates::lap_of(U32SlotStates::state_of(self.states, seq)));
        }
        let start = if self.claimed - self.capacity() + 1 > 0 {
            self.claimed - self.capacity() + 1
        } else {
            0
        };
        assert forall|seq: int|
            start <= seq <= self.claimed implies #[trigger] U32SlotStates::available(
            closed.states,
            seq,
        ) == U32SlotStates::available(self.states, seq) by {
            assert(U32SlotStates::lap_of(U32SlotStates::state_of(closed.states, seq))
                == U32SlotStates::lap_of(U32SlotStates::state_of(self.states, seq)));
        }
        U32SlotStates::lemma_run_end_same_laps(closed.states, self.states, start, self.claimed);
    }

    /// Producers that were terminated before they claimed anything count the first sequence as
    /// claimed; nothing else is claimed or published by termination, and the stream ends.
    pub proof fn lemma_terminated(self)
        requires
            self.sound(),
            !self.terminated,
        ensures
            self.terminate().sound(),
            self.terminate().ended(),
            self.terminate().capacity() == self.capacity(),
            self.claimed >= 0 ==> self.progress().commits_to(self.terminate().progress()),
            self.claimed < 0 ==> self.closed().progress().extends_to(
                self.terminate().progress(),
                0,
            ),
            forall|seq: int|
                self.terminate().claimed - self.capacity() < seq ==> #[trigger] self.terminate().published(
                    seq,
                ) == self.published(seq),
    {
        let closed = self.closed();
        let stopped = self.terminate();
        self.lemma_closed();
        RingBufferMeta::lemma_exponent(self.capacity());
        if self.claimed < 0 {
            self.lemma_boundary();
            assert forall|seq: int|
                closed.claimed - closed.capacity() < seq <= 0
                    - closed.capacity() implies #[trigger] closed.published(seq) by {}
            closed.lemma_claim(0);
            closed.claim(0).lemma_same_slots(stopped);
            assert(!U32SlotStates::available(closed.states, 0)) by {
                closed.lemma_boundary();
            }
            assert(stopped.boundary() == 0);
            let progress = closed.progress();
            let later = stopped.progress();
            assert forall|seq: int| #[trigger] stopped.published(seq) == closed.claim(0).published(
                seq,
            ) by {}
            assert forall|seq: int|
                0 - progress.capacity < seq <= progress.frontier implies #[trigger] (later.ready)(
                seq,
            ) == (progress.ready)(seq) by {
                assert(stopped.published(seq) == closed.claim(0).published(seq));
                assert(closed.claim(0).published(seq) == closed.published(seq));
            }
            assert forall|seq: int| progress.frontier < seq <= 0 implies !#[trigger] (later.ready)(
                seq,
            ) by {
                assert(stopped.published(seq) == closed.claim(0).published(seq));
                assert(!closed.claim(0).published(seq));
            }
            assert forall|seq: int|
                stopped.claimed - self.capacity() < seq implies #[trigger] stopped.published(seq)
                == self.published(seq) by {
                assert(closed.published(seq) == self.published(seq));
                if seq <= 0 {
                    assert((later.ready)(seq) == stopped.published(seq));
                }
            }
        } else {
            closed.lemma_same_slots(stopped);
            assert forall|seq: int| #[trigger] stopped.published(seq) == self.published(seq) by {
                assert(closed.published(seq) == self.published(seq));
            }
            assert forall|seq: int|
                self.progress().frontier - self.capacity() < seq <= self.progress().frontier && (
                self.progress().ready)(seq) implies #[trigger] (stopped.progress().ready)(seq) by {
                assert(stopped.published(seq) == self.published(seq));
            }
        }
    }
}

/// Marking the boundary ends the stream and takes nothing away.
proof fn lemma_closing<T>(chan: ChannelView<GatesView<SharedView, CursorsView>, T>)
    requires
        chan.valid(),
    ensures
        ({
            let after = ChannelView {
                gates: GatesView {
                    producer: chan.gates.producer.closed(),
                    consumer: chan.gates.consumer.notified(),
                },
                ..chan
            };
            &&& after.valid()
            &&& after.gates.producer.ended()
            &&& forall|index: int|
                #![trigger after.unread(index)]
                chan.follows(index) ==> after.follows(index) && after.unread(index)
                    == chan.unread(index)
        }),
{
    let producer = chan.gates.producer;
    let after = ChannelView {
        gates: GatesView { producer: producer.closed(), consumer: chan.gates.consumer.notified() },
        ..chan
    };
    producer.lemma_closed();
    chan.gates.consumer.lemma_commit_in_step(producer.progress(), producer.closed().progress());
    assert forall|index: int|
        #![trigger after.unread(index)]
        chan.follows(index) implies after.follows(index) && after.unread(index) == chan.unread(
        index,
    ) by {
        after.lemma_same_run(chan, index);
    }
}

/// A claim is refused as disconnected if and only if the senders were terminated or no receiver
/// is connected. Otherwise it is refused as full if and only if some receiver is a whole lap
/// behind.
pub proof fn law_refusals<C: ConsumerCursors, T>(
    chan: ChannelView<GatesView<SharedView, CursorsView>, T>,
    limit: int,
)
    requires
        chan.valid(),
        limit >= 1,
    ensures
        MultiPublisherSequencer::<C>::grant((), chan.gates, limit) == Err::<
            (int, int),
            TryClaimError,
        >(TryClaimError::Shutdown) <==> chan.gates.producer.terminated || !chan.heard(),
        MultiPublisherSequencer::<C>::grant((), chan.gates, limit) == Err::<
            (int, int),
            TryClaimError,
        >(TryClaimError::Empty) <==> {
            &&& !chan.gates.producer.terminated
            &&& exists|index: int|
                chan.follows(index) && chan.gates.producer.claimed
                    == #[trigger] chan.gates.consumer.consumed[index]
                    + chan.gates.producer.capacity()
        },
{
    let producer = chan.gates.producer;
    let consumer = chan.gates.consumer;
    let slowest = CursorsView::slowest(consumer.consumed);
    C::lemma_gated_by_slowest(
        consumer,
        producer.claimed + 1,
        producer.wanted(limit),
        producer.capacity(),
    );
    CursorsView::lemma_slowest(consumer.consumed);
    RingBufferMeta::lemma_exponent(producer.capacity());
    if slowest != i64::MIN {
        let index = choose|index: int|
            0 <= index < consumer.consumed.len() && #[trigger] consumer.consumed[index] == slowest;
        assert(chan.follows(index));
        consumer.lemma_consumed_until(producer.progress());
    } else {
        assert forall|index: int| !chan.follows(index) by {}
    }
    assert forall|index: int| chan.follows(index) implies producer.claimed
        <= #[trigger] consumer.consumed[index] + producer.capacity() && slowest
        <= consumer.consumed[index] by {
        assert(consumer.connected(index));
    }
}

/// A granted claim takes as many slots as were asked for, or as many as are free where that is
/// less: a slot is free once every connected receiver has finished its item.
pub proof fn law_claims_what_is_free<C: ConsumerCursors, T>(
    chan: ChannelView<GatesView<SharedView, CursorsView>, T>,
    limit: int,
    start: int,
    end: int,
)
    requires
        chan.valid(),
        limit >= 1,
        MultiPublisherSequencer::<C>::grant((), chan.gates, limit) == Ok::<
            (int, int),
            TryClaimError,
        >((start, end)),
    ensures
        1 <= end - start + 1 <= limit,
        end - start + 1 <= chan.gates.producer.capacity(),
        forall|index: int|
            chan.follows(index) ==> end <= #[trigger] chan.gates.consumer.consumed[index]
                + chan.gates.producer.capacity(),
        end - start + 1 < limit ==> exists|index: int|
            chan.follows(index) && end == #[trigger] chan.gates.consumer.consumed[index]
                + chan.gates.producer.capacity(),
{
    let producer = chan.gates.producer;
    let consumer = chan.gates.consumer;
    let slowest = CursorsView::slowest(consumer.consumed);
    C::lemma_gated_by_slowest(
        consumer,
        producer.claimed + 1,
        producer.wanted(limit),
        producer.capacity(),
    );
    CursorsView::lemma_slowest(consumer.consumed);
    RingBufferMeta::lemma_exponent(producer.capacity());
    consumer.lemma_consumed_until(producer.progress());
    let index = choose|index: int|
        0 <= index < consumer.consumed.len() && #[trigger] consumer.consumed[index] == slowest;
    assert(chan.follows(index));
}

/// No receiver is ever more than a lap behind the senders.
pub proof fn law_bounded<T>(
    chan: ChannelView<GatesView<SharedView, CursorsView>, T>,
    index: int,
)
    requires
        chan.valid(),
        chan.follows(index),
    ensures
        chan.gates.producer.claimed - chan.gates.consumer.consumed[index]
            <= chan.gates.producer.capacity(),
        chan.unread(index).len() <= chan.gates.producer.capacity(),
{
    chan.lemma_unread(index);
}

/// While no producer's slot carries a shutdown mark, no receiver is told that it is
/// disconnected. [`law_marks_are_for_the_end`] and `history::law_no_mark_while_a_sender_is_left`
/// show that there is none while a sender is left and the senders are not terminated.
pub proof fn law_no_early_end<C: ConsumerCursors, T>(
    chan: ChannelView<GatesView<SharedView, CursorsView>, T>,
    index: int,
    limit: int,
)
    requires
        chan.valid(),
        chan.follows(index),
        limit >= 1,
        chan.gates.producer.unmarked(),
    ensures
        DefaultConsumerSequencer::<SharedState, C>::grant(index, chan.gates, limit) != Err::<
            (int, int),
            TryClaimError,
        >(TryClaimError::Shutdown),
{
    chan.lemma_unread(index);
    let states = chan.gates.producer.states;
    assert forall|seq: int| !#[trigger] U32SlotStates::marked(states, seq) by {
        RingBufferMeta::lemma_slot_bounds(seq, states.len() as int);
    }
}

/// A new channel carries no shutdown mark, and neither a claim nor a commit nor a sender's
/// arrival nor the leaving of one that is not the last puts one there.
pub proof fn law_marks_are_for_the_end<C: ConsumerCursors>(
    gates: GatesView<SharedView, CursorsView>,
    start: int,
    end: int,
)
    requires
        gates.producer.sound(),
        gates.producer.unmarked(),
    ensures
        SharedView::fresh(gates.producer.capacity()).unmarked(),
        MultiPublisherSequencer::<C>::granted((), gates, end).1.producer.unmarked(),
        MultiPublisherSequencer::<C>::outstanding((), gates, start, end)
            ==> MultiPublisherSequencer::<C>::committed(
            (),
            gates,
            start,
            end,
        ).producer.unmarked(),
        (SharedView { senders: gates.producer.senders + 1, ..gates.producer }).unmarked(),
        gates.producer.senders > 1 ==> MultiPublisherSequencer::<C>::left(
            gates,
        ).producer.unmarked(),
{
    let producer = gates.producer;
    RingBufferMeta::lemma_exponent(producer.capacity());
    lemma_publishing_marks_nothing(producer.states, start, end);
}

/// Publishing leaves no mark.
pub proof fn lemma_publishing_marks_nothing(states: Seq<u32>, start: int, end: int)
    requires
        states.len() >= 1,
        forall|i: int| 0 <= i < states.len() ==> !U32SlotStates::is_marked(#[trigger] states[i]),
    ensures
        U32SlotStates::with_range(states, start, end).len() == states.len(),
        forall|i: int|
            0 <= i < states.len() ==> !U32SlotStates::is_marked(
                #[trigger] U32SlotStates::with_range(states, start, end)[i],
            ),
    decreases end - start + 1,
{
    if start <= end {
        lemma_publishing_marks_nothing(states, start, end - 1);
        let before = U32SlotStates::with_range(states, start, end - 1);
        U32SlotStates::lemma_flag_bounds(end, states.len() as int);
        RingBufferMeta::lemma_slot_bounds(end, states.len() as int);
        U32SlotStates::lemma_with_published(before, end);
    }
}

/// A stream that has ended is drained: a receiver is granted what it has not read yet, and is
/// told that it is disconnected if and only if there is nothing left for it.
pub proof fn law_drained_then_disconnected<C: ConsumerCursors, T>(
    chan: ChannelView<GatesView<SharedView, CursorsView>, T>,
    index: int,
    limit: int,
)
    requires
        chan.valid(),
        chan.follows(index),
        limit >= 1,
        chan.gates.producer.ended(),
    ensures
        chan.unread(index).len() > 0 <==> DefaultConsumerSequencer::<SharedState, C>::grant(
            index,
            chan.gates,
            limit,
        ) is Ok,
        chan.unread(index).len() == 0 <==> DefaultConsumerSequencer::<SharedState, C>::grant(
            index,
            chan.gates,
            limit,
        ) == Err::<(int, int), TryClaimError>(TryClaimError::Shutdown),
{
    crate::laws::delivery::law_receive_takes_the_oldest::<C, T>(chan, index, limit);
    chan.lemma_unread(index);
    let producer = chan.gates.producer;
    let progress = producer.progress();
    let position = chan.gates.consumer.consumed[index];
    producer.lemma_boundary();
    progress.lemma_run(position);
    if chan.unread(index).len() == 0 {
        if position + 1 != producer.boundary() {
            if position + 1 < producer.boundary() {
                assert(producer.published(position + 1));
                assert((progress.ready)(position + 1));
            } else {
                assert((progress.ready)(producer.boundary()));
            }
        }
        let end = DefaultConsumerSequencer::<SharedState, C>::wanted(index, chan.gates, limit);
        U32SlotStates::lemma_run_end(producer.states, position + 1, end);
        assert(U32SlotStates::marked(producer.states, position + 1));
        assert(U32SlotStates::mark_met(producer.states, position + 1, end));
    }
}

/// When the last sender leaves, the stream ends where it is: every receiver keeps what it has
/// not read yet.
pub proof fn law_last_sender_ends_the_stream<C: ConsumerCursors, T>(
    chan: ChannelView<GatesView<SharedView, CursorsView>, T>,
)
    requires
        chan.valid(),
        chan.gates.producer.senders == 1,
    ensures
        ({
            let after = ChannelView {
                gates: MultiPublisherSequencer::<C>::left(chan.gates),
                ..chan
            };
            &&& after.valid()
            &&& after.gates.producer.ended()
            &&& after.gates.producer.senders == 0
            &&& forall|index: int|
                #![trigger after.unread(index)]
                chan.follows(index) ==> after.follows(index) && after.unread(index)
                    == chan.unread(index)
        }),
{
    let left = SharedView { senders: 0, ..chan.gates.producer };
    chan.gates.producer.lemma_same_slots(left);
    C::lemma_gated_by_slowest(chan.gates.consumer, 0, 0, 1);
    let closing = ChannelView { gates: GatesView { producer: left, ..chan.gates }, ..chan };
    chan.gates.consumer.lemma_commit_in_step(chan.gates.producer.progress(), left.progress());
    assert forall|index: int|
        #![trigger closing.unread(index)]
        chan.follows(index) implies closing.follows(index) && closing.unread(index) == chan.unread(
        index,
    ) by {
        closing.lemma_same_run(chan, index);
    }
    lemma_closing::<T>(closing);
    let after = ChannelView { gates: MultiPublisherSequencer::<C>::left(chan.gates), ..chan };
    assert forall|index: int|
        #![trigger after.unread(index)]
        chan.follows(index) implies after.follows(index) && after.unread(index) == chan.unread(
        index,
    ) by {
        assert(closing.unread(index) == chan.unread(index));
    }
}

/// Terminating ends the stream: every later claim is refused as disconnected, every later
/// commit is discarded, and terminating again changes nothing. Every receiver keeps what it
/// has not read yet.
pub proof fn law_terminated<C: ConsumerCursors, T>(
    chan: ChannelView<GatesView<SharedView, CursorsView>, T>,
    limit: int,
    start: int,
    end: int,
)
    requires
        chan.valid(),
        limit >= 1,
    ensures
        ({
            let after = ChannelView {
                gates: MultiPublisherSequencer::<C>::stopped(chan.gates),
                ..chan
            };
            &&& after.valid()
            &&& !chan.gates.producer.terminated ==> after.gates.producer.ended()
            &&& MultiPublisherSequencer::<C>::grant((), after.gates, limit) == Err::<
                (int, int),
                TryClaimError,
            >(TryClaimError::Shutdown)
            &&& MultiPublisherSequencer::<C>::committed((), after.gates, start, end).producer
                == after.gates.producer
            &&& MultiPublisherSequencer::<C>::stopped(after.gates) == after.gates
            &&& forall|index: int|
                #![trigger after.unread(index)]
                chan.follows(index) ==> after.follows(index) && after.unread(index)
                    == chan.unread(index)
        }),
{
    let producer = chan.gates.producer;
    let after = ChannelView { gates: MultiPublisherSequencer::<C>::stopped(chan.gates), ..chan };
    C::lemma_gated_by_slowest(chan.gates.consumer, 0, 0, 1);
    C::lemma_gated_by_slowest(after.gates.consumer, 0, 0, 1);
    assert(after.gates.consumer.notified().waiting =~= after.gates.consumer.waiting);
    assert(after.gates.consumer.notified().woken =~= after.gates.consumer.woken);
    if producer.terminated {
        chan.gates.consumer.lemma_commit_in_step(producer.progress(), producer.progress());
    } else {
        let progress = producer.progress();
        let later = producer.terminate().progress();
        producer.lemma_terminated();
        assert forall|index: int| chan.follows(index) implies {
            &&& later.reachable(#[trigger] chan.gates.consumer.consumed[index])
            &&& later.run(chan.gates.consumer.consumed[index]) == progress.run(
                chan.gates.consumer.consumed[index],
            )
        } by {
            chan.lemma_unread(index);
            let position = chan.gates.consumer.consumed[index];
            let last = progress.run(position);
            progress.lemma_run(position);
            assert forall|seq: int|
                later.frontier - later.capacity < seq <= last implies #[trigger] (later.ready)(
                seq,
            ) by {
                assert((progress.ready)(seq));
                assert(producer.terminate().published(seq) == producer.published(seq));
            }
            if last < later.frontier {
                assert(producer.terminate().published(last + 1) == producer.published(last + 1));
                assert(!(later.ready)(last + 1));
            }
            later.lemma_run_unique(position, last);
        }
        assert forall|index: int|
            0 <= index < after.gates.consumer.consumed.len()
                && #[trigger] after.gates.consumer.connected(index) implies later.reachable(
            after.gates.consumer.consumed[index],
        ) by {
            assert(chan.follows(index));
        }
    }
}

/// When the last connected receiver leaves, senders are told that they are disconnected.
pub proof fn law_last_receiver_disconnects_senders<C: ConsumerCursors, T>(
    chan: ChannelView<GatesView<SharedView, CursorsView>, T>,
    index: int,
    limit: int,
)
    requires
        chan.valid(),
        limit >= 1,
        chan.follows(index),
        forall|other: int| other != index ==> !#[trigger] chan.follows(other),
    ensures
        MultiPublisherSequencer::<C>::grant(
            (),
            DefaultConsumerSequencer::<SharedState, C>::left(index, chan.gates),
            limit,
        ) == Err::<(int, int), TryClaimError>(TryClaimError::Shutdown),
{
    let after = ChannelView {
        gates: DefaultConsumerSequencer::<SharedState, C>::left(index, chan.gates),
        ..chan
    };
    let producer = chan.gates.producer;
    C::lemma_gated_by_slowest(
        after.gates.consumer,
        producer.claimed + 1,
        producer.wanted(limit),
        producer.capacity(),
    );
    CursorsView::lemma_slowest(after.gates.consumer.consumed);
    assert forall|other: int|
        0 <= other < after.gates.consumer.consumed.len() implies #[trigger] after.gates.consumer.consumed[other]
        == i64::MIN by {
        if other != index {
            assert(!chan.follows(other));
        }
    }
}

/// A receiver that leaves while others stay holds no sender back any longer, and takes nothing
/// away from the others.
pub proof fn law_leaving_frees_slots<C: ConsumerCursors, T>(
    chan: ChannelView<GatesView<SharedView, CursorsView>, T>,
    index: int,
    other: int,
    limit: int,
)
    requires
        chan.valid(),
        limit >= 1,
        chan.follows(index),
        chan.follows(other),
        other != index,
    ensures
        ({
            let after = ChannelView {
                gates: DefaultConsumerSequencer::<SharedState, C>::left(index, chan.gates),
                ..chan
            };
            &&& after.valid()
            &&& !after.follows(index)
            &&& after.follows(other)
            &&& after.unread(other) == chan.unread(other)
            &&& MultiPublisherSequencer::<C>::grant((), chan.gates, limit) matches Ok((start, end))
                ==> {
                &&& MultiPublisherSequencer::<C>::grant((), after.gates, limit) matches Ok(
                    (start_after, end_after),
                )
                &&& start_after == start
                &&& end_after >= end
            }
        }),
{
    let after = ChannelView {
        gates: DefaultConsumerSequencer::<SharedState, C>::left(index, chan.gates),
        ..chan
    };
    let producer = chan.gates.producer;
    C::lemma_gated_by_slowest(
        chan.gates.consumer,
        producer.claimed + 1,
        producer.wanted(limit),
        producer.capacity(),
    );
    C::lemma_gated_by_slowest(
        after.gates.consumer,
        producer.claimed + 1,
        producer.wanted(limit),
        producer.capacity(),
    );
    CursorsView::lemma_slowest(chan.gates.consumer.consumed);
    CursorsView::lemma_slowest(after.gates.consumer.consumed);
    assert(after.gates.consumer.consumed[other] != i64::MIN);
    let slowest = choose|i: int|
        0 <= i < after.gates.consumer.consumed.len()
            && #[trigger] after.gates.consumer.consumed[i] == CursorsView::slowest(
            after.gates.consumer.consumed,
        );
    assert(chan.gates.consumer.consumed[slowest] == after.gates.consumer.consumed[slowest]);
    assert forall|i: int|
        0 <= i < after.gates.consumer.consumed.len() && #[trigger] after.gates.consumer.connected(
            i,
        ) implies producer.progress().reachable(after.gates.consumer.consumed[i]) by {
        assert(chan.gates.consumer.connected(i));
    }
}

/// A sender that arrives, or leaves while others stay, changes nothing but the number of senders:
/// claims are granted as before, and every receiver finds what it found before.
pub proof fn law_other_senders_are_invisible<C: ConsumerCursors, T>(
    chan: ChannelView<GatesView<SharedView, CursorsView>, T>,
    limit: int,
    index: int,
)
    requires
        chan.valid(),
        chan.follows(index),
    ensures
        chan.gates.producer.senders > 1 ==> {
            let after = ChannelView {
                gates: MultiPublisherSequencer::<C>::left(chan.gates),
                ..chan
            };
            &&& after.valid()
            &&& after.gates.producer.senders == chan.gates.producer.senders - 1
            &&& after.gates.producer.claimed == chan.gates.producer.claimed
            &&& after.gates.producer.terminated == chan.gates.producer.terminated
            &&& after.gates.consumer == chan.gates.consumer
            &&& after.follows(index)
            &&& after.unread(index) == chan.unread(index)
            &&& MultiPublisherSequencer::<C>::grant((), after.gates, limit)
                == MultiPublisherSequencer::<C>::grant((), chan.gates, limit)
            &&& DefaultConsumerSequencer::<SharedState, C>::grant(index, after.gates, limit)
                == DefaultConsumerSequencer::<SharedState, C>::grant(index, chan.gates, limit)
        },
        ({
            let after = ChannelView {
                gates: GatesView {
                    producer: SharedView {
                        senders: chan.gates.producer.senders + 1,
                        ..chan.gates.producer
                    },
                    ..chan.gates
                },
                ..chan
            };
            &&& after.valid()
            &&& after.follows(index)
            &&& after.unread(index) == chan.unread(index)
            &&& MultiPublisherSequencer::<C>::grant((), after.gates, limit)
                == MultiPublisherSequencer::<C>::grant((), chan.gates, limit)
            &&& DefaultConsumerSequencer::<SharedState, C>::grant(index, after.gates, limit)
                == DefaultConsumerSequencer::<SharedState, C>::grant(index, chan.gates, limit)
        }),
{
    let producer = chan.gates.producer;
    let more = SharedView { senders: producer.senders + 1, ..producer };
    let fewer = SharedView { senders: (producer.senders - 1) as nat, ..producer };
    let grown = ChannelView { gates: GatesView { producer: more, ..chan.gates }, ..chan };
    let shrunk = ChannelView { gates: GatesView { producer: fewer, ..chan.gates }, ..chan };
    producer.lemma_same_slots(more);
    producer.lemma_same_slots(fewer);
    chan.gates.consumer.lemma_commit_in_step(producer.progress(), more.progress());
    chan.gates.consumer.lemma_commit_in_step(producer.progress(), fewer.progress());
    grown.lemma_same_run(chan, index);
    shrunk.lemma_same_run(chan, index);
}

/// The last sender to leave is no sender any more, and what was claimed stays claimed.
pub proof fn law_last_sender_leaves<C: ConsumerCursors>(gates: GatesView<SharedView, CursorsView>)
    requires
        gates.producer.sound(),
        gates.producer.senders >= 1,
    ensures
        ({
            let after = MultiPublisherSequencer::<C>::left(gates);
            &&& after.producer.senders == gates.producer.senders - 1
            &&& after.producer.claimed == gates.producer.claimed
            &&& after.producer.terminated == gates.producer.terminated
            &&& after.producer.capacity() == gates.producer.capacity()
            &&& after.consumer.consumed == gates.consumer.consumed
        }),
{
    let producer = gates.producer;
    let fewer = SharedView { senders: (producer.senders - 1) as nat, ..producer };
    C::lemma_gated_by_slowest(gates.consumer, 0, 0, 1);
    RingBufferMeta::lemma_exponent(producer.capacity());
    U32SlotStates::lemma_with_mark(fewer.states, fewer.boundary());
}

/// A poll that finds nothing registers its task, and no other receiver's task is forgotten. It
/// moves no receiver and wakes nobody.
pub proof fn law_pending_registers<C: ConsumerCursors, T>(
    chan: ChannelView<GatesView<SharedView, CursorsView>, T>,
    index: int,
    limit: int,
    task: int,
)
    requires
        chan.valid(),
        chan.parked(),
        chan.follows(index),
        limit >= 1,
        DefaultConsumerSequencer::<SharedState, C>::grant(index, chan.gates, limit) == Err::<
            (int, int),
            TryClaimError,
        >(TryClaimError::Empty),
    ensures
        ({
            let after = ChannelView {
                gates: DefaultConsumerSequencer::<SharedState, C>::waits(index, chan.gates, task),
                ..chan
            };
            &&& after.parked()
            &&& after.valid()
            &&& after.gates.producer == chan.gates.producer
            &&& after.gates.consumer.consumed == chan.gates.consumer.consumed
            &&& after.gates.consumer.woken == chan.gates.consumer.woken
            &&& after.unread(index) == chan.unread(index)
            &&& after.gates.consumer.waiting[index] == Some(task)
            &&& forall|other: int|
                other != index && 0 <= other < chan.gates.consumer.waiting.len()
                    ==> #[trigger] after.gates.consumer.waiting[other]
                    == chan.gates.consumer.waiting[other]
        }),
{
    crate::laws::delivery::law_receive_takes_the_oldest::<C, T>(chan, index, limit);
    let after = ChannelView {
        gates: DefaultConsumerSequencer::<SharedState, C>::waits(index, chan.gates, task),
        ..chan
    };
    assert forall|other: int|
        0 <= other < after.gates.consumer.consumed.len() && #[trigger] after.gates.consumer.connected(
            other,
        ) implies after.gates.producer.progress().reachable(
        after.gates.consumer.consumed[other],
    ) by {
        assert(chan.gates.consumer.connected(other));
    }
    assert forall|other: int|
        #![trigger after.gates.consumer.waiting[other]]
        after.follows(other) && after.gates.consumer.waiting[other] is Some implies after.unread(
        other,
    ).len() == 0 by {
        assert(chan.follows(other));
        assert(after.unread(other) == chan.unread(other));
        if other != index {
            assert(chan.gates.consumer.waiting[other] is Some);
        }
    }
}

/// Whatever gives a receiver something to read, or ends its stream, wakes the task that waits
/// for it: a commit, the leaving of the last sender and termination each wake it once, and it
/// waits no longer. Where no task waits, none is woken.
pub proof fn law_events_wake<C: ConsumerCursors>(
    gates: GatesView<SharedView, CursorsView>,
    start: int,
    end: int,
    index: int,
)
    requires
        0 <= index < gates.consumer.waiting.len(),
    ensures
        ({
            let woken = match gates.consumer.waiting[index] {
                Some(task) => gates.consumer.woken[index].push(task),
                None => gates.consumer.woken[index],
            };
            let committed = MultiPublisherSequencer::<C>::committed(
                (),
                gates,
                start,
                end,
            ).consumer;
            let left = MultiPublisherSequencer::<C>::left(gates).consumer;
            let stopped = MultiPublisherSequencer::<C>::stopped(gates).consumer;
            &&& committed.waiting[index] is None
            &&& committed.woken[index] == woken
            &&& gates.producer.senders == 1 ==> left.waiting[index] is None && left.woken[index]
                == woken
            &&& stopped.waiting[index] is None
            &&& stopped.woken[index] == woken
        }),
{
    C::lemma_gated_by_slowest(gates.consumer, 0, 0, 1);
}

/// Nothing else wakes a task: neither a claim nor the leaving of a sender that is not the last,
/// nor what receivers do when they finish, register or leave.
pub proof fn law_nothing_else_wakes<C: ConsumerCursors>(
    gates: GatesView<SharedView, CursorsView>,
    start: int,
    end: int,
    index: int,
    task: int,
)
    ensures
        MultiPublisherSequencer::<C>::granted((), gates, end).1.consumer.woken
            == gates.consumer.woken,
        gates.producer.senders != 1 ==> MultiPublisherSequencer::<C>::left(gates).consumer.woken
            == gates.consumer.woken,
        DefaultConsumerSequencer::<SharedState, C>::committed(
            index,
            gates,
            start,
            end,
        ).consumer.woken == gates.consumer.woken,
        DefaultConsumerSequencer::<SharedState, C>::waits(index, gates, task).consumer.woken
            == gates.consumer.woken,
        DefaultConsumerSequencer::<SharedState, C>::left(index, gates).consumer.woken
            == gates.consumer.woken,
{
}

/// A receiver whose poll found nothing is woken by the next commit, by the leaving of the last
/// sender and by termination.
pub proof fn law_pending_is_woken<C: ConsumerCursors>(
    gates: GatesView<SharedView, CursorsView>,
    index: int,
    task: int,
    start: int,
    end: int,
)
    requires
        0 <= index < gates.consumer.waiting.len(),
    ensures
        ({
            let pending = DefaultConsumerSequencer::<SharedState, C>::waits(index, gates, task);
            let woken = gates.consumer.woken[index].push(task);
            &&& MultiPublisherSequencer::<C>::committed(
                (),
                pending,
                start,
                end,
            ).consumer.woken[index] == woken
            &&& gates.producer.senders == 1 ==> MultiPublisherSequencer::<C>::left(
                pending,
            ).consumer.woken[index] == woken
            &&& MultiPublisherSequencer::<C>::stopped(pending).consumer.woken[index] == woken
        }),
{
    let pending = DefaultConsumerSequencer::<SharedState, C>::waits(index, gates, task);
    law_events_wake::<C>(pending, start, end, index);
}

/// A task that waits keeps waiting for a receiver that has nothing to read while senders claim
/// and receivers finish: neither gives a waiting receiver anything to read.
pub proof fn law_waiting_stays_idle<C: ConsumerCursors, T>(
    chan: ChannelView<GatesView<SharedView, CursorsView>, T>,
    limit: int,
    start: int,
    end: int,
)
    requires
        chan.valid(),
        chan.parked(),
        limit >= 1,
    ensures
        MultiPublisherSequencer::<C>::may_claim((), chan.gates) && MultiPublisherSequencer::<
            C,
        >::grant((), chan.gates, limit) == Ok::<(int, int), TryClaimError>((start, end))
            ==> Channel::claimed::<MultiPublisherSequencer<C>>((), chan, end).1.parked(),
        forall|index: int|
            chan.follows(index) && DefaultConsumerSequencer::<SharedState, C>::grant(
                index,
                chan.gates,
                limit,
            ) == Ok::<(int, int), TryClaimError>((start, end)) ==> (ChannelView {
                gates: #[trigger] DefaultConsumerSequencer::<SharedState, C>::committed(
                    index,
                    chan.gates,
                    start,
                    end,
                ),
                ..chan
            }).parked(),
{
    if MultiPublisherSequencer::<C>::may_claim((), chan.gates) && MultiPublisherSequencer::<
        C,
    >::grant((), chan.gates, limit) == Ok::<(int, int), TryClaimError>((start, end)) {
        crate::laws::delivery::law_claim_is_invisible::<C, T>(chan, limit, start, end);
        let after = Channel::claimed::<MultiPublisherSequencer<C>>((), chan, end).1;
        assert forall|index: int|
            #![trigger after.gates.consumer.waiting[index]]
            after.follows(index) && after.gates.consumer.waiting[index] is Some implies after.unread(
            index,
        ).len() == 0 by {
            assert(chan.follows(index));
            assert(chan.gates.consumer.waiting[index] is Some);
        }
    }
    assert forall|index: int|
        chan.follows(index) && DefaultConsumerSequencer::<SharedState, C>::grant(
            index,
            chan.gates,
            limit,
        ) == Ok::<(int, int), TryClaimError>((start, end)) implies (ChannelView {
        gates: #[trigger] DefaultConsumerSequencer::<SharedState, C>::committed(
            index,
            chan.gates,
            start,
            end,
        ),
        ..chan
    }).parked() by {
        crate::laws::delivery::law_finished_items_are_gone::<C, T>(chan, index, limit, start, end);
        let after = ChannelView {
            gates: DefaultConsumerSequencer::<SharedState, C>::committed(
                index,
                chan.gates,
                start,
                end,
            ),
            ..chan
        };
        assert forall|other: int|
            #![trigger after.gates.consumer.waiting[other]]
            after.follows(other) && after.gates.consumer.waiting[other] is Some implies after.unread(
            other,
        ).len() == 0 by {
            assert(chan.gates.consumer.waiting[other] is Some);
            if other != index {
                assert(chan.gates.consumer.connected(other));
                assert(chan.follows(other));
            } else {
                assert(chan.unread(index).len() == 0);
                crate::laws::delivery::law_receive_takes_the_oldest::<C, T>(chan, index, limit);
            }
        }
    }
}

/// A task that waits keeps waiting for a receiver that has nothing to read while other endpoints
/// come and go.
pub proof fn law_waiting_outlives_others<C: ConsumerCursors, T>(
    chan: ChannelView<GatesView<SharedView, CursorsView>, T>,
    index: int,
)
    requires
        chan.valid(),
        chan.parked(),
        chan.follows(index),
    ensures
        (ChannelView {
            gates: DefaultConsumerSequencer::<SharedState, C>::left(index, chan.gates),
            ..chan
        }).parked(),
        chan.gates.producer.senders > 1 ==> (ChannelView {
            gates: MultiPublisherSequencer::<C>::left(chan.gates),
            ..chan
        }).parked(),
        (ChannelView {
            gates: GatesView {
                producer: SharedView {
                    senders: chan.gates.producer.senders + 1,
                    ..chan.gates.producer
                },
                ..chan.gates
            },
            ..chan
        }).parked(),
{
    let alone = ChannelView {
        gates: DefaultConsumerSequencer::<SharedState, C>::left(index, chan.gates),
        ..chan
    };
    assert forall|other: int|
        #![trigger alone.gates.consumer.waiting[other]]
        alone.follows(other) && alone.gates.consumer.waiting[other] is Some implies alone.unread(
        other,
    ).len() == 0 by {
        assert(chan.follows(other));
        assert(chan.gates.consumer.waiting[other] is Some);
        assert(alone.unread(other) == chan.unread(other));
    }
    lemma_counting_senders(chan, (chan.gates.producer.senders - 1) as nat);
    lemma_counting_senders(chan, chan.gates.producer.senders + 1);
}

/// The number of senders bears on nothing that is read.
proof fn lemma_counting_senders<T>(
    chan: ChannelView<GatesView<SharedView, CursorsView>, T>,
    senders: nat,
)
    requires
        chan.valid(),
        chan.parked(),
    ensures
        (ChannelView {
            gates: GatesView {
                producer: SharedView { senders, ..chan.gates.producer },
                ..chan.gates
            },
            ..chan
        }).parked(),
{
    let after = ChannelView {
        gates: GatesView {
            producer: SharedView { senders, ..chan.gates.producer },
            ..chan.gates
        },
        ..chan
    };
    chan.gates.producer.lemma_same_slots(after.gates.producer);
    assert forall|index: int|
        #![trigger after.gates.consumer.waiting[index]]
        after.follows(index) && after.gates.consumer.waiting[index] is Some implies after.unread(
        index,
    ).len() == 0 by {
        assert(chan.follows(index));
        assert(chan.gates.consumer.waiting[index] is Some);
        after.lemma_same_run(chan, index);
    }
}

} // verus!
