//! The barrier and the sequencer of a single producer.

use vstd::prelude::*;

use crate::cursor::Cursor;
use crate::errors::TryClaimError;
use crate::ringbuffer::RingBufferMeta;
use crate::sequence::Sequence;
use crate::sequencers::{
    ConsumerCursors, CursorsView, Gates, GatesView, ProducerBarrier, Progress, Sequencer,
    SlotState,
};

verus! {

/// How far a single producer has come.
pub struct ExclusivePubSeqGate {
    published: Cursor,
    shutdown_sequence: Cursor,
    ring_meta: RingBufferMeta,
}

/// What the barrier of a single producer records.
pub struct ExclusivePubView {
    /// The last committed sequence.
    pub published: int,
    /// The last committed sequence at shutdown; `i64::MIN` where none has happened.
    pub shutdown: int,
    /// The number of slots.
    pub capacity: int,
}

impl View for ExclusivePubSeqGate {
    type V = ExclusivePubView;

    closed spec fn view(&self) -> ExclusivePubView {
        ExclusivePubView {
            published: self.published@,
            shutdown: self.shutdown_sequence@,
            capacity: self.ring_meta.capacity(),
        }
    }
}

impl ExclusivePubView {
    /// The producer has committed everything up to the last committed sequence.
    pub open spec fn progress(self) -> Progress {
        Progress {
            frontier: self.published,
            capacity: self.capacity,
            ready: |seq: int| seq <= self.published,
        }
    }

    /// The barrier after everything up to `end` is committed.
    pub open spec fn commit(self, end: int) -> ExclusivePubView {
        ExclusivePubView { published: end, ..self }
    }

    /// The barrier after the producer has shut down. Only the first shutdown counts.
    pub open spec fn closed(self) -> ExclusivePubView {
        if self.shutdown == i64::MIN {
            ExclusivePubView { shutdown: self.published, ..self }
        } else {
            self
        }
    }
}

impl ExclusivePubSeqGate {
    /// The barrier of a producer over `ring_meta` that has committed nothing.
    pub fn new(ring_meta: RingBufferMeta) -> (gate: Self)
        requires
            ring_meta.wf(),
        ensures
            gate.wf(),
            gate@ == (ExclusivePubView {
                published: -1,
                shutdown: i64::MIN as int,
                capacity: ring_meta.capacity(),
            }),
    {
        proof {
            ring_meta.lemma_wf();
        }
        ExclusivePubSeqGate {
            published: Cursor::new(Sequence::init()),
            shutdown_sequence: Cursor::new(Sequence::shutdown_open()),
            ring_meta,
        }
    }

    /// Records the end of the stream.
    fn close(&mut self)
        requires
            old(self).wf(),
        ensures
            final(self).wf(),
            final(self)@ == old(self)@.closed(),
    {
        let last_published = self.published.load();
        let _ = self.shutdown_sequence.compare_exchange(i64::MIN, last_published);
    }

    /// The last committed sequence at shutdown, if one has happened.
    pub fn shutdown_sequence(&self) -> (seq: Sequence)
        requires
            self.wf(),
        ensures
            seq@ == self@.shutdown,
    {
        Sequence::new(self.shutdown_sequence.load())
    }

    /// Commits everything up to `end_seq`.
    fn publish(&mut self, end_seq: Sequence)
        requires
            old(self).wf(),
            -1 <= end_seq@,
            end_seq@ + old(self)@.capacity <= i64::MAX,
        ensures
            final(self).wf(),
            final(self)@ == old(self)@.commit(end_seq@),
    {
        self.published.store(end_seq.value());
    }
}

impl ProducerBarrier for ExclusivePubSeqGate {
    closed spec fn wf(&self) -> bool {
        &&& self.ring_meta.wf()
        &&& Self::sound(self@)
        &&& i64::MIN <= self.shutdown_sequence@ <= i64::MAX
    }

    open spec fn sound(gate: ExclusivePubView) -> bool {
        gate.progress().wf()
    }

    open spec fn progress(gate: ExclusivePubView) -> Progress {
        gate.progress()
    }

    open spec fn published_until(gate: ExclusivePubView, next: int, end: int) -> (int, bool) {
        (
            if gate.published < end {
                gate.published
            } else {
                end
            },
            gate.shutdown != i64::MIN,
        )
    }

    proof fn lemma_sound(&self) {
    }

    proof fn lemma_published_until(gate: ExclusivePubView, position: int, end: int) {
    }

    fn max_published(&self, next_seq: Sequence, end_seq: Sequence) -> (state: SlotState) {
        let published = self.published.load();
        let last = if published < end_seq.value() {
            published
        } else {
            end_seq.value()
        };
        SlotState::new(Sequence::new(last), !self.shutdown_sequence().is_shutdown_open())
    }
}

/// The sequencer of a single producer.
pub struct ExclusivePublisherSequencer<C> {
    claimed: Sequence,
    max_available: Sequence,
    ring_meta: RingBufferMeta,
    consumer_gate: core::marker::PhantomData<C>,
}

impl<C> View for ExclusivePublisherSequencer<C> {
    type V = int;

    /// The last claimed sequence.
    closed spec fn view(&self) -> int {
        self.claimed@
    }
}

impl<C: ConsumerCursors> ExclusivePublisherSequencer<C> {
    /// The gates after the producer has left; the consumers are woken.
    pub open spec fn left(gates: GatesView<ExclusivePubView, CursorsView>) -> GatesView<
        ExclusivePubView,
        CursorsView,
    > {
        GatesView { producer: gates.producer.closed(), consumer: gates.consumer.notified() }
    }

    /// The capacity that this endpoint reckons with.
    pub closed spec fn ring_capacity(&self) -> int {
        self.ring_meta.capacity()
    }

    /// The endpoint's own arithmetic is that of a ring, and what it remembers to be free is no
    /// more than a lap past `slowest`.
    pub closed spec fn intact(&self, slowest: int) -> bool {
        &&& self.ring_meta.wf()
        &&& -1 <= self.max_available@
        &&& slowest != i64::MIN ==> self.max_available@ <= slowest + self.ring_meta.capacity()
    }

    /// What the endpoint remembers to be free stays free while the consumers advance.
    pub proof fn lemma_intact(&self, slowest: int, later: int)
        requires
            self.intact(slowest),
            later == i64::MIN || slowest != i64::MIN && slowest <= later,
        ensures
            self.intact(later),
    {
    }

    /// The sequencer of the producer of a channel over `ring_meta`.
    pub fn new(ring_meta: RingBufferMeta) -> (sequencer: Self)
        requires
            ring_meta.wf(),
        ensures
            sequencer@ == -1,
            sequencer.ring_capacity() == ring_meta.capacity(),
            sequencer.intact(-1),
    {
        proof {
            ring_meta.lemma_wf();
        }
        ExclusivePublisherSequencer {
            claimed: Sequence::init(),
            max_available: Sequence::init(),
            ring_meta,
            consumer_gate: core::marker::PhantomData,
        }
    }

    /// Looks up how much is free where `highest_to_publish` is more than what is remembered.
    /// Returns whether the consumers are gone.
    fn refresh(&mut self, gates: &Gates<ExclusivePubSeqGate, C>, highest_to_publish: i64) -> (gone:
        bool)
        requires
            old(self).attached(gates),
            old(self)@ < highest_to_publish,
            old(self)@ + old(self).ring_capacity() <= i64::MAX,
        ensures
            final(self).attached(gates),
            final(self)@ == old(self)@,
            final(self).ring_capacity() == old(self).ring_capacity(),
            gone == (CursorsView::slowest(gates@.consumer.consumed) == i64::MIN),
            !gone ==> (final(self).max_available@ == CursorsView::slowest(gates@.consumer.consumed)
                + final(self).ring_capacity() || highest_to_publish <= final(self).max_available@),
    {
        proof {
            gates.producer.lemma_sound();
            C::lemma_in_step(gates@.consumer, gates@.producer.progress());
            C::lemma_gated_by_slowest(
                gates@.consumer,
                self@ + 1,
                highest_to_publish as int,
                self.ring_capacity(),
            );
            self.ring_meta.lemma_wf();
            if CursorsView::slowest(gates@.consumer.consumed) != i64::MIN {
                gates@.consumer.lemma_consumed_until(gates@.producer.progress());
            }
        }
        let capacity = self.ring_meta.buffer_size();
        let consumed = gates.consumer.max_consumed(
            Sequence::new(self.claimed.value() + 1),
            Sequence::new(highest_to_publish),
            capacity,
        );
        if consumed.is_shutdown() {
            return true;
        }
        if highest_to_publish > self.max_available.value() {
            let free_slots = self.ring_meta.available_slots(self.claimed, consumed.sequence());
            let max_available: i64 = self.claimed.value() + free_slots;
            if max_available > self.max_available.value() {
                self.max_available = Sequence::new(max_available);
            }
        }
        false
    }

    /// The producer leaves the channel.
    pub fn disconnect(self, gates: &mut Gates<ExclusivePubSeqGate, C>)
        requires
            self.attached(old(gates)),
        ensures
            final(gates).inv(),
            final(gates)@ == Self::left(old(gates)@),
    {
        let ghost before = gates@;
        gates.producer.close();
        gates.consumer.notify();
        proof {
            C::lemma_in_step(before.consumer, before.producer.progress());
            C::lemma_gated_by_slowest(before.consumer, 0, 0, 0);
            before.consumer.lemma_commit_in_step(
                before.producer.progress(),
                gates@.producer.progress(),
            );
            C::lemma_in_step(gates@.consumer, gates@.producer.progress());
        }
    }
}

impl<C: ConsumerCursors> Sequencer for ExclusivePublisherSequencer<C> {
    type Gates = Gates<ExclusivePubSeqGate, C>;

    open spec fn attached(&self, gates: &Gates<ExclusivePubSeqGate, C>) -> bool {
        let slowest = CursorsView::slowest(gates@.consumer.consumed);
        &&& self.intact(slowest)
        &&& self.ring_capacity() == gates@.producer.capacity
        &&& gates.inv()
        &&& gates@.producer.published <= self@
        &&& self@ + gates@.producer.capacity <= i64::MAX
        &&& slowest != i64::MIN ==> self@ <= slowest + gates@.producer.capacity
    }

    open spec fn capacity(gates: GatesView<ExclusivePubView, CursorsView>) -> int {
        gates.producer.capacity
    }

    open spec fn may_claim(endpoint: int, gates: GatesView<ExclusivePubView, CursorsView>) -> bool {
        endpoint + 2 * gates.producer.capacity <= i64::MAX
    }

    open spec fn grant(
        endpoint: int,
        gates: GatesView<ExclusivePubView, CursorsView>,
        limit: int,
    ) -> Result<(int, int), TryClaimError> {
        let slowest = CursorsView::slowest(gates.consumer.consumed);
        let last_free = slowest + gates.producer.capacity;
        let wanted = endpoint + if limit < gates.producer.capacity {
            limit
        } else {
            gates.producer.capacity
        };
        if slowest == i64::MIN {
            Err(TryClaimError::Shutdown)
        } else if last_free <= endpoint {
            Err(TryClaimError::Empty)
        } else if last_free < wanted {
            Ok((endpoint + 1, last_free))
        } else {
            Ok((endpoint + 1, wanted))
        }
    }

    open spec fn granted(
        endpoint: int,
        gates: GatesView<ExclusivePubView, CursorsView>,
        end: int,
    ) -> (int, GatesView<ExclusivePubView, CursorsView>) {
        (end, gates)
    }

    open spec fn outstanding(
        endpoint: int,
        gates: GatesView<ExclusivePubView, CursorsView>,
        start: int,
        end: int,
    ) -> bool {
        0 <= start && gates.producer.published < start <= end <= endpoint
    }

    open spec fn committed(
        endpoint: int,
        gates: GatesView<ExclusivePubView, CursorsView>,
        start: int,
        end: int,
    ) -> GatesView<ExclusivePubView, CursorsView> {
        GatesView { producer: gates.producer.commit(end), consumer: gates.consumer.notified() }
    }

    proof fn lemma_grant(&self, gates: &Gates<ExclusivePubSeqGate, C>, limit: int) {
        gates.producer.lemma_sound();
        assert(Self::capacity(gates@) == gates@.producer.capacity);
        RingBufferMeta::lemma_exponent(gates@.producer.capacity);
        if CursorsView::slowest(gates@.consumer.consumed) != i64::MIN {
            C::lemma_in_step(gates@.consumer, gates@.producer.progress());
            gates@.consumer.lemma_consumed_until(gates@.producer.progress());
        }
        if let Ok((start, end)) = Self::grant(self@, gates@, limit) {
            let after = Self::granted(self@, gates@, end);
            assert(Self::capacity(after.1) == gates@.producer.capacity);
            assert(Self::outstanding(after.0, after.1, start, end));
        }
    }

    fn can_claim(&self, gates: &Gates<ExclusivePubSeqGate, C>) -> (can: bool) {
        proof {
            gates.producer.lemma_sound();
            self.ring_meta.lemma_wf();
        }
        let capacity = self.ring_meta.buffer_size();
        let claimed = self.claimed.value();
        claimed <= i64::MAX - capacity - capacity
    }

    fn try_claim_at_most(&mut self, gates: &mut Gates<ExclusivePubSeqGate, C>, limit: i64) -> (claim:
        Result<(Sequence, Sequence), TryClaimError>) {
        proof {
            self.lemma_grant(gates, limit as int);
            self.ring_meta.lemma_wf();
        }
        let capacity = self.ring_meta.buffer_size();
        let n = if limit < capacity {
            limit
        } else {
            capacity
        };
        let claimed = self.claimed.value();
        let highest_to_publish: i64 = claimed + n;
        let gone = self.refresh(gates, highest_to_publish);
        if gone {
            return Err(TryClaimError::Shutdown);
        }
        if self.max_available.value() <= claimed {
            return Err(TryClaimError::Empty);
        }
        proof {
            C::lemma_in_step(gates@.consumer, gates@.producer.progress());
            gates@.consumer.lemma_consumed_until(gates@.producer.progress());
        }
        let free: i64 = self.max_available.value() - claimed;
        let available = if free < n {
            free
        } else {
            n
        };
        self.claimed = Sequence::new(claimed + available);
        Ok((Sequence::new(claimed + 1), Sequence::new(claimed + available)))
    }

    fn try_claim_n(&mut self, gates: &mut Gates<ExclusivePubSeqGate, C>, n: i64) -> (claim: Result<
        (Sequence, Sequence),
        TryClaimError,
    >) {
        proof {
            self.lemma_grant(gates, n as int);
            self.ring_meta.lemma_wf();
        }
        let capacity = self.ring_meta.buffer_size();
        if n > capacity {
            return Err(TryClaimError::Insufficient { missing: n - capacity });
        }
        let claimed = self.claimed.value();
        let highest_to_publish: i64 = claimed + n;
        let gone = self.refresh(gates, highest_to_publish);
        if gone {
            return Err(TryClaimError::Shutdown);
        }
        if highest_to_publish <= self.max_available.value() {
            self.claimed = Sequence::new(highest_to_publish);
            Ok((Sequence::new(claimed + 1), Sequence::new(highest_to_publish)))
        } else {
            let missing: i64 = highest_to_publish - self.max_available.value();
            Err(TryClaimError::Insufficient { missing })
        }
    }

    fn commit(&self, gates: &mut Gates<ExclusivePubSeqGate, C>, seq: Sequence) {
        self.commit_range(gates, seq, seq);
    }

    fn commit_range(
        &self,
        gates: &mut Gates<ExclusivePubSeqGate, C>,
        start_seq: Sequence,
        end_seq: Sequence,
    ) {
        let ghost before = gates@;
        proof {
            gates.producer.lemma_sound();
            C::lemma_in_step(before.consumer, before.producer.progress());
            C::lemma_gated_by_slowest(before.consumer, 0, 0, 0);
            CursorsView::lemma_slowest(before.consumer.consumed);
        }
        gates.producer.publish(end_seq);
        gates.consumer.notify();
        proof {
            let later = gates@.producer.progress();
            assert forall|index: int|
                0 <= index < gates@.consumer.consumed.len() && #[trigger] gates@.consumer.connected(
                    index,
                ) implies later.reachable(gates@.consumer.consumed[index]) by {
                assert(before.consumer.connected(index));
                assert(before.producer.progress().reachable(before.consumer.consumed[index]));
                assert(before.consumer.consumed[index] != i64::MIN);
            }
            C::lemma_in_step(gates@.consumer, later);
        }
    }
}

} // verus!
