//! The barrier and the sequencer of consumers that compete for the items.
//!
//! Each item is delivered to one consumer. Consumers claim from a common cursor and record
//! consumption slot by slot, so they may finish in any order.

use vstd::prelude::*;

use crate::cursor::Cursor;
use crate::errors::TryClaimError;
use crate::ringbuffer::RingBufferMeta;
use crate::sequence::Sequence;
use crate::sequencers::consumer::plan_take;
use crate::sequencers::{
    ConsumerBarrier, Gates, GatesView, ProducerBarrier, Progress, Sequencer, SlotState,
};
use crate::slot_states::U32SlotStates;

verus! {

/// What competing consumers share.
pub struct QueuedSharedState {
    claimed: Cursor,
    consumed_states: U32SlotStates,
    receivers: usize,
}

/// What the barrier of competing consumers records.
pub struct QueuedView {
    /// The last sequence that a consumer has claimed.
    pub claimed: int,
    /// The consumption state of each slot.
    pub states: Seq<u32>,
    /// The number of receiving endpoints.
    pub receivers: nat,
}

impl View for QueuedSharedState {
    type V = QueuedView;

    closed spec fn view(&self) -> QueuedView {
        QueuedView {
            claimed: self.claimed@,
            states: self.consumed_states@,
            receivers: self.receivers as nat,
        }
    }
}

impl QueuedView {
    /// Nothing is claimed or consumed yet, and there is one consumer.
    pub open spec fn fresh(capacity: int) -> QueuedView {
        QueuedView { claimed: -1, states: Seq::new(capacity as nat, |i: int| 0u32), receivers: 1 }
    }

    /// Whether sequence `seq` is consumed.
    pub open spec fn consumed(self, seq: int) -> bool {
        U32SlotStates::available(self.states, seq)
    }

    /// The consumers claim what is committed and consume what they have claimed. The lap
    /// before the first sequence counts as consumed.
    pub open spec fn in_step(self, progress: Progress) -> bool {
        &&& self.states.len() == progress.capacity
        &&& progress.reachable(self.claimed)
        &&& forall|seq: int|
            #![trigger U32SlotStates::state_of(self.states, seq)]
            progress.frontier - progress.capacity < seq <= progress.frontier ==> {
                let lap = U32SlotStates::lap_of(U32SlotStates::state_of(self.states, seq));
                ||| lap == U32SlotStates::flag_of(seq, progress.capacity)
                ||| lap == U32SlotStates::flag_of(seq - progress.capacity, progress.capacity)
            }
        &&& forall|seq: int|
            progress.frontier - progress.capacity < seq <= progress.frontier
                && #[trigger] self.consumed(seq) ==> seq <= self.claimed
        &&& forall|seq: int|
            progress.frontier - progress.capacity < seq < 0 ==> #[trigger] self.consumed(seq)
    }

    /// The barrier after a claim up to `end`.
    pub open spec fn claim(self, end: int) -> QueuedView {
        QueuedView { claimed: end, ..self }
    }

    /// The barrier after `[start, end]` is consumed.
    pub open spec fn commit(self, start: int, end: int) -> QueuedView {
        QueuedView { states: U32SlotStates::with_range(self.states, start, end), ..self }
    }

    /// The barrier after a receiving endpoint has left. The last one to leave marks every slot,
    /// so that a producer finds the mark wherever it looks.
    pub open spec fn without_receiver(self) -> QueuedView {
        QueuedView {
            receivers: (self.receivers - 1) as nat,
            states: if self.receivers == 1 {
                U32SlotStates::with_all_marked(self.states)
            } else {
                self.states
            },
            ..self
        }
    }

    /// Whether each sequence of `[start, end]` is claimed and none of them is consumed.
    pub open spec fn outstanding(self, progress: Progress, start: int, end: int) -> bool {
        &&& 0 <= start <= end <= self.claimed
        &&& progress.frontier - progress.capacity < start
        &&& forall|seq: int| start <= seq <= end ==> !#[trigger] self.consumed(seq)
    }

    /// The previous lap's sequences that are consumed are those whose slots are free.
    proof fn lemma_consumed_until(self, progress: Progress, end: int)
        requires
            progress.wf(),
            self.in_step(progress),
            progress.frontier < end <= progress.frontier + progress.capacity,
        ensures
            ({
                let last = U32SlotStates::run_end(
                    self.states,
                    progress.frontier + 1 - progress.capacity,
                    end - progress.capacity,
                );
                &&& progress.passed(last)
                &&& last <= self.claimed
                &&& forall|seq: int|
                    progress.frontier - progress.capacity < seq <= last
                        ==> #[trigger] self.consumed(seq)
            }),
    {
        let first = progress.frontier + 1 - progress.capacity;
        U32SlotStates::lemma_run_end(self.states, first, end - progress.capacity);
        let last = U32SlotStates::run_end(self.states, first, end - progress.capacity);
        RingBufferMeta::lemma_exponent(progress.capacity);
        assert forall|seq: int|
            progress.frontier - progress.capacity < seq <= last implies #[trigger] self.consumed(
            seq,
        ) by {
            assert(U32SlotStates::available(self.states, seq));
        }
        assert forall|seq: int|
            progress.frontier - progress.capacity < seq <= last implies #[trigger] (progress.ready)(
            seq,
        ) by {
            assert(self.consumed(seq));
        }
        if last >= first {
            assert(self.consumed(last));
        }
    }

    /// Claiming over consumed sequences leaves the consumers in step.
    proof fn lemma_claim_in_step(self, progress: Progress, later: Progress, claimed: int)
        requires
            progress.wf(),
            self.in_step(progress),
            progress.frontier < claimed <= progress.frontier + progress.capacity,
            claimed - progress.capacity <= self.claimed,
            forall|seq: int|
                progress.frontier - progress.capacity < seq <= claimed - progress.capacity
                    ==> #[trigger] self.consumed(seq),
            progress.claims_to(later, claimed),
        ensures
            self.in_step(later),
    {
        let capacity = progress.capacity;
        RingBufferMeta::lemma_exponent(capacity);
        assert forall|seq: int| progress.frontier < seq <= claimed implies {
            &&& U32SlotStates::lap_of(#[trigger] U32SlotStates::state_of(self.states, seq))
                == U32SlotStates::flag_of(seq - capacity, capacity)
            &&& !self.consumed(seq)
        } by {
            RingBufferMeta::lemma_next_lap(seq - capacity, capacity);
            assert(self.consumed(seq - capacity));
            U32SlotStates::lemma_flags_distinct(seq, capacity);
        }
        assert forall|seq: int|
            #![trigger U32SlotStates::state_of(self.states, seq)]
            later.frontier - later.capacity < seq <= later.frontier implies {
            let lap = U32SlotStates::lap_of(U32SlotStates::state_of(self.states, seq));
            ||| lap == U32SlotStates::flag_of(seq, later.capacity)
            ||| lap == U32SlotStates::flag_of(seq - later.capacity, later.capacity)
        } by {}
        assert forall|seq: int|
            later.frontier - later.capacity < seq <= later.frontier && #[trigger] self.consumed(
                seq,
            ) implies seq <= self.claimed by {
            if seq > progress.frontier {
                assert(U32SlotStates::state_of(self.states, seq) == U32SlotStates::state_of(
                    self.states,
                    seq,
                ));
            }
        }
        assert forall|seq: int|
            later.frontier - later.capacity < seq <= self.claimed implies #[trigger] (later.ready)(
            seq,
        ) by {
            assert((progress.ready)(seq));
        }
    }

    /// Consuming an open claim leaves the consumers in step and consumes exactly that claim.
    pub proof fn lemma_commit(self, progress: Progress, start: int, end: int)
        requires
            progress.wf(),
            self.in_step(progress),
            self.outstanding(progress, start, end),
        ensures
            self.commit(start, end).in_step(progress),
            forall|seq: int|
                progress.frontier - progress.capacity < seq <= progress.frontier
                    ==> #[trigger] self.commit(start, end).consumed(seq) == (self.consumed(seq)
                    || start <= seq <= end),
    {
        let capacity = progress.capacity;
        let later = self.commit(start, end);
        RingBufferMeta::lemma_exponent(capacity);
        U32SlotStates::lemma_with_range(self.states, start, end);
        assert forall|seq: int|
            progress.frontier - capacity < seq <= progress.frontier implies {
            &&& start <= seq <= end ==> U32SlotStates::lap_of(
                #[trigger] U32SlotStates::state_of(later.states, seq),
            ) == U32SlotStates::flag_of(seq, capacity)
            &&& !(start <= seq <= end) ==> U32SlotStates::state_of(later.states, seq)
                == U32SlotStates::state_of(self.states, seq)
        } by {
            U32SlotStates::lemma_flag_bounds(seq, capacity);
        }
        assert forall|seq: int|
            progress.frontier - capacity < seq
                <= progress.frontier implies #[trigger] later.consumed(seq) == (self.consumed(seq)
            || start <= seq <= end) by {
            assert(U32SlotStates::state_of(later.states, seq) == U32SlotStates::state_of(
                later.states,
                seq,
            ));
        }
        assert forall|seq: int|
            #![trigger U32SlotStates::state_of(later.states, seq)]
            progress.frontier - progress.capacity < seq <= progress.frontier implies {
            let lap = U32SlotStates::lap_of(U32SlotStates::state_of(later.states, seq));
            ||| lap == U32SlotStates::flag_of(seq, progress.capacity)
            ||| lap == U32SlotStates::flag_of(seq - progress.capacity, progress.capacity)
        } by {
            assert(U32SlotStates::state_of(self.states, seq) == U32SlotStates::state_of(
                self.states,
                seq,
            ));
        }
        assert forall|seq: int|
            progress.frontier - progress.capacity < seq < 0 implies #[trigger] later.consumed(
            seq,
        ) by {
            assert(self.consumed(seq));
        }
    }

    /// Marks and the number of receivers bear on no lap flag.
    proof fn lemma_same_laps(self, later: QueuedView, progress: Progress)
        requires
            self.in_step(progress),
            later.claimed == self.claimed,
            later.states.len() == self.states.len(),
            forall|i: int|
                0 <= i < self.states.len() ==> U32SlotStates::lap_of(#[trigger] later.states[i])
                    == U32SlotStates::lap_of(self.states[i]),
            progress.wf(),
        ensures
            later.in_step(progress),
    {
        RingBufferMeta::lemma_exponent(progress.capacity);
        assert forall|seq: int|
            U32SlotStates::lap_of(#[trigger] U32SlotStates::state_of(later.states, seq))
                == U32SlotStates::lap_of(U32SlotStates::state_of(self.states, seq)) by {
            RingBufferMeta::lemma_slot_bounds(seq, progress.capacity);
        }
        assert forall|seq: int| #[trigger] later.consumed(seq) == self.consumed(seq) by {
            assert(U32SlotStates::lap_of(U32SlotStates::state_of(later.states, seq))
                == U32SlotStates::lap_of(U32SlotStates::state_of(self.states, seq)));
        }
        assert forall|seq: int|
            #![trigger U32SlotStates::state_of(later.states, seq)]
            progress.frontier - progress.capacity < seq <= progress.frontier implies {
            let lap = U32SlotStates::lap_of(U32SlotStates::state_of(later.states, seq));
            ||| lap == U32SlotStates::flag_of(seq, progress.capacity)
            ||| lap == U32SlotStates::flag_of(seq - progress.capacity, progress.capacity)
        } by {
            assert(U32SlotStates::lap_of(U32SlotStates::state_of(later.states, seq))
                == U32SlotStates::lap_of(U32SlotStates::state_of(self.states, seq)));
        }
    }
}

impl QueuedSharedState {
    /// The barrier of consumers over `ring_meta` that have consumed nothing, with one endpoint.
    pub fn new(ring_meta: RingBufferMeta) -> (shared: Self)
        requires
            ring_meta.wf(),
        ensures
            shared.wf(),
            shared@ == QueuedView::fresh(ring_meta.capacity()),
            forall|progress: Progress|
                progress.wf() && progress.frontier == -1 && progress.capacity
                    == ring_meta.capacity() && #[trigger] progress.reachable(-1)
                    ==> shared@.in_step(progress),
    {
        let shared = QueuedSharedState {
            claimed: Cursor::new(Sequence::init()),
            consumed_states: U32SlotStates::new_all_available(ring_meta),
            receivers: 1,
        };
        assert forall|progress: Progress|
            progress.wf() && progress.frontier == -1 && progress.capacity == ring_meta.capacity()
                && #[trigger] progress.reachable(-1) implies shared@.in_step(progress) by {
            assert forall|seq: int|
                #![trigger U32SlotStates::state_of(shared@.states, seq)]
                -1 - progress.capacity < seq <= -1 implies U32SlotStates::available(
                shared@.states,
                seq,
            ) by {}
        }
        shared
    }

    /// Marks every slot: no consumer is left.
    fn close(&mut self)
        requires
            old(self).wf(),
        ensures
            final(self).wf(),
            final(self)@ == (QueuedView {
                states: U32SlotStates::with_all_marked(old(self)@.states),
                ..old(self)@
            }),
    {
        self.consumed_states.mark_all_shutdown();
    }
}

impl ConsumerBarrier for QueuedSharedState {
    closed spec fn wf(&self) -> bool {
        &&& self.consumed_states.wf()
        &&& i64::MIN <= self.claimed@ <= i64::MAX
    }

    open spec fn in_step(gate: QueuedView, progress: Progress) -> bool {
        gate.in_step(progress)
    }

    open spec fn consumed_until(gate: QueuedView, next: int, end: int, capacity: int) -> (
        int,
        bool,
    ) {
        (
            U32SlotStates::run_end(gate.states, next - capacity, end - capacity),
            U32SlotStates::mark_met(gate.states, next - capacity, end - capacity),
        )
    }

    open spec fn notified(gate: QueuedView) -> QueuedView {
        gate
    }

    proof fn lemma_consumed_until(gate: QueuedView, progress: Progress, end: int) {
        gate.lemma_consumed_until(progress, end);
    }

    proof fn lemma_claim_in_step(
        gate: QueuedView,
        progress: Progress,
        end: int,
        later: Progress,
        claimed: int,
    ) {
        gate.lemma_consumed_until(progress, end);
        gate.lemma_claim_in_step(progress, later, claimed);
    }

    proof fn lemma_first_claim_in_step(gate: QueuedView, progress: Progress, later: Progress) {
        RingBufferMeta::lemma_exponent(progress.capacity);
        gate.lemma_claim_in_step(progress, later, 0);
    }

    proof fn lemma_commit_in_step(gate: QueuedView, progress: Progress, later: Progress) {
        assert forall|seq: int|
            later.frontier - later.capacity < seq <= gate.claimed implies #[trigger] (later.ready)(
            seq,
        ) by {
            assert((progress.ready)(seq));
        }
    }

    fn max_consumed(&self, next_seq: Sequence, end_seq: Sequence, capacity: i64) -> (state:
        SlotState) {
        proof {
            RingBufferMeta::lemma_exponent(capacity as int);
        }
        self.consumed_states.scan_available_until(
            Sequence::new(next_seq.value() - capacity),
            Sequence::new(end_seq.value() - capacity),
        )
    }

    fn notify(&mut self) {
    }
}

/// The sequencer of one of several competing consumers.
pub struct QueuedConsumerSequencer<P> {
    max_published: Sequence,
    ring_meta: RingBufferMeta,
    producer_gate: core::marker::PhantomData<P>,
}

impl<P> View for QueuedConsumerSequencer<P> {
    type V = ();

    open spec fn view(&self) -> () {
        ()
    }
}

impl<P: ProducerBarrier> QueuedConsumerSequencer<P> {
    /// The last sequence that a claim of up to `limit` reaches for.
    pub open spec fn wanted(gates: GatesView<P::V, QueuedView>, limit: int) -> int {
        let capacity = P::progress(gates.producer).capacity;
        gates.consumer.claimed + if limit < capacity {
            limit
        } else {
            capacity
        }
    }

    /// The gates after a receiving endpoint has left.
    pub open spec fn left(gates: GatesView<P::V, QueuedView>) -> GatesView<P::V, QueuedView> {
        GatesView { consumer: gates.consumer.without_receiver(), ..gates }
    }

    /// The sequencer of the first consumer of a channel over `ring_meta`.
    pub fn new(ring_meta: RingBufferMeta) -> (sequencer: Self)
        requires
            ring_meta.wf(),
        ensures
            sequencer.ring_capacity() == ring_meta.capacity(),
            forall|progress: Progress, claimed: int| -1 <= claimed ==> #[trigger] sequencer.intact(
                progress,
                claimed,
            ),
    {
        QueuedConsumerSequencer {
            max_published: Sequence::init(),
            ring_meta,
            producer_gate: core::marker::PhantomData,
        }
    }

    /// The capacity that this endpoint reckons with.
    pub closed spec fn ring_capacity(&self) -> int {
        self.ring_meta.capacity()
    }

    /// The endpoint's own arithmetic is that of a ring, and what it remembers to be published
    /// past `claimed` still is.
    pub closed spec fn intact(&self, progress: Progress, claimed: int) -> bool {
        &&& self.ring_meta.wf()
        &&& forall|seq: int| claimed < seq <= self.max_published@ ==> #[trigger] (progress.ready)(seq)
    }

    /// What an endpoint remembers stays true while others commit and claim.
    pub proof fn lemma_intact(&self, progress: Progress, claimed: int, later: Progress, taken: int)
        requires
            self.intact(progress, claimed),
            claimed <= taken,
            forall|seq: int|
                taken < seq && #[trigger] (progress.ready)(seq) ==> (later.ready)(seq),
        ensures
            self.intact(later, taken),
    {
        assert forall|seq: int| taken < seq <= self.max_published@ implies #[trigger] (later.ready)(
            seq,
        ) by {
            assert((progress.ready)(seq));
        }
    }

    /// A second consumer of the same channel.
    pub fn clone_endpoint(&self, gates: &mut Gates<P, QueuedSharedState>) -> (sequencer: Self)
        requires
            self.attached(old(gates)),
            old(gates)@.consumer.receivers < usize::MAX,
        ensures
            self.attached(final(gates)),
            sequencer.attached(final(gates)),
            final(gates)@.producer == old(gates)@.producer,
            final(gates)@.consumer == (QueuedView {
                receivers: old(gates)@.consumer.receivers + 1,
                ..old(gates)@.consumer
            }),
    {
        let ghost before = gates@;
        gates.consumer.receivers = gates.consumer.receivers + 1;
        proof {
            gates.producer.lemma_sound();
            before.consumer.lemma_same_laps(gates@.consumer, P::progress(before.producer));
        }
        QueuedConsumerSequencer {
            max_published: self.max_published,
            ring_meta: self.ring_meta,
            producer_gate: core::marker::PhantomData,
        }
    }

    /// This consumer leaves the channel.
    pub fn disconnect(self, gates: &mut Gates<P, QueuedSharedState>)
        requires
            self.attached(old(gates)),
            old(gates)@.consumer.receivers >= 1,
        ensures
            final(gates).inv(),
            final(gates)@ == Self::left(old(gates)@),
    {
        let ghost before = gates@;
        gates.consumer.receivers = gates.consumer.receivers - 1;
        if gates.consumer.receivers == 0 {
            gates.consumer.close();
        }
        proof {
            gates.producer.lemma_sound();
            assert forall|i: int|
                0 <= i < before.consumer.states.len() implies U32SlotStates::lap_of(
                #[trigger] gates@.consumer.states[i],
            ) == U32SlotStates::lap_of(before.consumer.states[i]) by {
                U32SlotStates::lemma_mark(before.consumer.states[i]);
            }
            before.consumer.lemma_same_laps(gates@.consumer, P::progress(before.producer));
        }
    }
}

impl<P: ProducerBarrier> Sequencer for QueuedConsumerSequencer<P> {
    type Gates = Gates<P, QueuedSharedState>;

    open spec fn attached(&self, gates: &Gates<P, QueuedSharedState>) -> bool {
        &&& self.intact(P::progress(gates@.producer), gates@.consumer.claimed)
        &&& self.ring_capacity() == P::progress(gates@.producer).capacity
        &&& gates.inv()
    }

    open spec fn capacity(gates: GatesView<P::V, QueuedView>) -> int {
        P::progress(gates.producer).capacity
    }

    open spec fn may_claim(endpoint: (), gates: GatesView<P::V, QueuedView>) -> bool {
        true
    }

    open spec fn grant(endpoint: (), gates: GatesView<P::V, QueuedView>, limit: int) -> Result<
        (int, int),
        TryClaimError,
    > {
        let claimed = gates.consumer.claimed;
        let (last, shutdown) = P::published_until(
            gates.producer,
            claimed + 1,
            Self::wanted(gates, limit),
        );
        if last > claimed {
            Ok((claimed + 1, last))
        } else if shutdown {
            Err(TryClaimError::Shutdown)
        } else {
            Err(TryClaimError::Empty)
        }
    }

    open spec fn granted(endpoint: (), gates: GatesView<P::V, QueuedView>, end: int) -> (
        (),
        GatesView<P::V, QueuedView>,
    ) {
        ((), GatesView { consumer: gates.consumer.claim(end), ..gates })
    }

    open spec fn outstanding(
        endpoint: (),
        gates: GatesView<P::V, QueuedView>,
        start: int,
        end: int,
    ) -> bool {
        gates.consumer.outstanding(P::progress(gates.producer), start, end)
    }

    open spec fn committed(
        endpoint: (),
        gates: GatesView<P::V, QueuedView>,
        start: int,
        end: int,
    ) -> GatesView<P::V, QueuedView> {
        GatesView { consumer: gates.consumer.commit(start, end), ..gates }
    }

    proof fn lemma_grant(&self, gates: &Gates<P, QueuedSharedState>, limit: int) {
        gates.producer.lemma_sound();
        let progress = P::progress(gates@.producer);
        let claimed = gates@.consumer.claimed;
        RingBufferMeta::lemma_exponent(progress.capacity);
        P::lemma_published_until(gates@.producer, claimed, Self::wanted(gates@, limit));
        assert(Self::capacity(gates@) == progress.capacity);
        if let Ok((start, end)) = Self::grant(self@, gates@, limit) {
            let after = Self::granted(self@, gates@, end);
            assert(Self::capacity(after.1) == progress.capacity);
            assert forall|seq: int| start <= seq <= end implies !#[trigger] after.1.consumer.consumed(
                seq,
            ) by {
                assert(after.1.consumer.consumed(seq) == gates@.consumer.consumed(seq));
            }
            assert(after.1.consumer.outstanding(progress, start, end));
            assert(Self::outstanding(after.0, after.1, start, end));
        }
    }

    fn can_claim(&self, gates: &Gates<P, QueuedSharedState>) -> (can: bool) {
        true
    }

    fn try_claim_at_most(&mut self, gates: &mut Gates<P, QueuedSharedState>, limit: i64) -> (claim:
        Result<(Sequence, Sequence), TryClaimError>) {
        let ghost before = gates@;
        let ghost progress = P::progress(before.producer);
        proof {
            self.lemma_grant(gates, limit as int);
            gates.producer.lemma_sound();
            RingBufferMeta::lemma_exponent(progress.capacity);
            P::lemma_published_until(
                before.producer,
                before.consumer.claimed,
                Self::wanted(before, limit as int),
            );
        }
        let last_claimed = gates.consumer.claimed.load();
        let capacity = self.ring_meta.buffer_size();
        let n = if limit < capacity {
            limit
        } else {
            capacity
        };
        let highest_to_consume: i64 = last_claimed + n;
        let found = if highest_to_consume > self.max_published.value() {
            let state = gates.producer.max_published(
                Sequence::new(last_claimed + 1),
                Sequence::new(highest_to_consume),
            );
            self.max_published = state.sequence();
            state
        } else {
            proof {
                let last = P::published_until(
                    before.producer,
                    before.consumer.claimed + 1,
                    highest_to_consume as int,
                ).0;
                if last < highest_to_consume {
                    assert((progress.ready)(last + 1));
                }
            }
            SlotState::new(Sequence::new(highest_to_consume), false)
        };
        match plan_take(Sequence::new(last_claimed), found) {
            Ok((start_seq, end_seq)) => {
                let _ = gates.consumer.claimed.compare_exchange(last_claimed, end_seq.value());
                proof {
                    let later = gates@.consumer;
                    assert forall|seq: int| #[trigger] later.consumed(seq)
                        == before.consumer.consumed(seq) by {}
                    assert(later.in_step(progress));
                }
                Ok((start_seq, end_seq))
            },
            Err(error) => Err(error),
        }
    }

    fn try_claim_n(&mut self, gates: &mut Gates<P, QueuedSharedState>, n: i64) -> (claim: Result<
        (Sequence, Sequence),
        TryClaimError,
    >) {
        let ghost before = gates@;
        proof {
            self.lemma_grant(gates, n as int);
            gates.producer.lemma_sound();
            RingBufferMeta::lemma_exponent(P::progress(before.producer).capacity);
            P::lemma_published_until(
                before.producer,
                before.consumer.claimed,
                Self::wanted(before, n as int),
            );
        }
        let capacity = self.ring_meta.buffer_size();
        if n > capacity {
            return Err(TryClaimError::Insufficient { missing: n - capacity });
        }
        let last_claimed = gates.consumer.claimed.load();
        let state = gates.producer.max_published(
            Sequence::new(last_claimed + 1),
            Sequence::new(last_claimed + n),
        );
        let published: i64 = state.sequence().value() - last_claimed;
        if published == 0 && state.is_shutdown() {
            return Err(TryClaimError::Shutdown);
        }
        if published < n {
            return Err(TryClaimError::Insufficient { missing: n - published });
        }
        self.try_claim_at_most(gates, n)
    }

    fn commit(&self, gates: &mut Gates<P, QueuedSharedState>, seq: Sequence) {
        self.commit_range(gates, seq, seq);
    }

    fn commit_range(
        &self,
        gates: &mut Gates<P, QueuedSharedState>,
        start_seq: Sequence,
        end_seq: Sequence,
    ) {
        proof {
            gates.producer.lemma_sound();
            gates@.consumer.lemma_commit(P::progress(gates@.producer), start_seq@, end_seq@);
        }
        gates.consumer.consumed_states.publish_range(start_seq, end_seq);
    }
}

} // verus!
