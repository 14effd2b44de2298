//! The barrier and the sequencer of several producers.

use vstd::prelude::*;

use crate::cursor::Cursor;
use crate::errors::TryClaimError;
use crate::ringbuffer::RingBufferMeta;
use crate::sequence::Sequence;
use crate::sequencers::{
    ConsumerBarrier, Gates, GatesView, ProducerBarrier, Progress, Sequencer, SlotState,
};
use crate::slot_states::U32SlotStates;

verus! {

/// The bit of the claim cursor that signals termination.
pub const SHUTDOWN_MASK: i64 = i64::MIN;

/// The bits of a terminated claim cursor that hold the last claimed sequence.
pub const VALUE_MASK: i64 = i64::MAX;

/// Whether a claim cursor that holds `raw` is terminated.
///
/// A cursor before the first sequence holds `-1`, whose sign bit is set as well; only the
/// other negative numbers signal termination.
pub fn has_shutdown(raw: i64) -> (shutdown: bool)
    ensures
        shutdown == (raw < -1),
{
    raw < 0 && raw != -1
}

/// What several producers share.
pub struct SharedState {
    claimed: Cursor,
    slot_states: U32SlotStates,
    senders: usize,
}

/// What the producers' barrier records.
pub struct SharedView {
    /// The last sequence that a producer has claimed.
    pub claimed: int,
    /// No further claim is granted.
    pub terminated: bool,
    /// The publication state of each slot.
    pub states: Seq<u32>,
    /// The number of sending endpoints.
    pub senders: nat,
}

impl View for SharedState {
    type V = SharedView;

    closed spec fn view(&self) -> SharedView {
        SharedView {
            claimed: Self::last_claimed(self.claimed@),
            terminated: self.claimed@ < -1,
            states: self.slot_states@,
            senders: self.senders as nat,
        }
    }
}

impl SharedView {
    /// Nothing is claimed yet, and there is one producer.
    pub open spec fn fresh(capacity: int) -> SharedView {
        SharedView {
            claimed: -1,
            terminated: false,
            states: Seq::new(capacity as nat, |i: int| 0u32),
            senders: 1,
        }
    }

    /// The number of slots.
    pub open spec fn capacity(self) -> int {
        self.states.len() as int
    }

    /// Whether `seq` is one of the sequences of the lap that ends at the last claimed one.
    pub open spec fn in_window(self, seq: int) -> bool {
        self.claimed - self.capacity() < seq <= self.claimed
    }

    /// Whether sequence `seq` is claimed and committed, and its slot not claimed again.
    pub open spec fn published(self, seq: int) -> bool {
        self.in_window(seq) && U32SlotStates::available(self.states, seq)
    }

    /// Every slot stores the flag of the sequence last claimed for it, or of the one before.
    pub open spec fn tracks(self) -> bool {
        forall|seq: int|
            #![trigger U32SlotStates::state_of(self.states, seq)]
            self.in_window(seq) ==> {
                let lap = U32SlotStates::lap_of(U32SlotStates::state_of(self.states, seq));
                ||| lap == U32SlotStates::flag_of(seq, self.capacity())
                ||| lap == U32SlotStates::flag_of(seq - self.capacity(), self.capacity())
            }
    }

    /// How far the producers have come.
    pub open spec fn progress(self) -> Progress {
        Progress {
            frontier: self.claimed,
            capacity: self.capacity(),
            ready: |seq: int| self.published(seq),
        }
    }

    /// What holds of the barrier between steps. The lap before the first sequence counts as
    /// published.
    pub open spec fn sound(self) -> bool {
        &&& self.progress().wf()
        &&& self.tracks()
        &&& forall|seq: int| self.in_window(seq) && seq < 0 ==> #[trigger] self.published(seq)
    }

    /// The first sequence that is not published: nothing past it can be read.
    pub open spec fn boundary(self) -> int {
        let start = if self.claimed - self.capacity() + 1 > 0 {
            self.claimed - self.capacity() + 1
        } else {
            0
        };
        U32SlotStates::run_end(self.states, start, self.claimed) + 1
    }

    /// The barrier after its boundary is marked as shut down.
    pub open spec fn closed(self) -> SharedView {
        SharedView { states: U32SlotStates::with_mark(self.states, self.boundary()), ..self }
    }

    /// The barrier after the producers are terminated.
    pub open spec fn terminate(self) -> SharedView {
        if self.terminated {
            self
        } else {
            SharedView {
                terminated: true,
                claimed: if self.claimed < 0 {
                    0
                } else {
                    self.claimed
                },
                ..self.closed()
            }
        }
    }

    /// The barrier after a claim up to `end`.
    pub open spec fn claim(self, end: int) -> SharedView {
        SharedView { claimed: end, ..self }
    }

    /// The barrier after `[start, end]` is committed. What is committed after termination is
    /// discarded.
    pub open spec fn commit(self, start: int, end: int) -> SharedView {
        if self.terminated {
            self
        } else {
            SharedView { states: U32SlotStates::with_range(self.states, start, end), ..self }
        }
    }

    /// The barrier after a sending endpoint has left.
    pub open spec fn without_sender(self) -> SharedView {
        let left = SharedView { senders: (self.senders - 1) as nat, ..self };
        if self.senders == 1 {
            left.closed()
        } else {
            left
        }
    }

    /// The last sequence that a claim of up to `limit` reaches for.
    pub open spec fn wanted(self, limit: int) -> int {
        self.claimed + if limit < self.capacity() {
            limit
        } else {
            self.capacity()
        }
    }

    /// The answer to a claim of up to `limit` sequences: the consumers are to be there, and no
    /// slot is claimed before it is consumed.
    pub open spec fn grant(self, consumed: (int, bool), limit: int) -> Result<
        (int, int),
        TryClaimError,
    > {
        let last_free = consumed.0 + self.capacity();
        if self.terminated || consumed.1 {
            Err(TryClaimError::Shutdown)
        } else if last_free <= self.claimed {
            Err(TryClaimError::Empty)
        } else if last_free < self.wanted(limit) {
            Ok((self.claimed + 1, last_free))
        } else {
            Ok((self.claimed + 1, self.wanted(limit)))
        }
    }

    /// Whether each sequence of `[start, end]` is claimed and none of them is committed.
    pub open spec fn outstanding(self, start: int, end: int) -> bool {
        &&& 0 <= start <= end
        &&& self.in_window(start)
        &&& self.in_window(end)
        &&& forall|seq: int| start <= seq <= end ==> !#[trigger] self.published(seq)
    }

    /// What is published depends on the claims and the slots alone.
    pub proof fn lemma_same_slots(self, other: SharedView)
        requires
            other.claimed == self.claimed,
            other.states == self.states,
        ensures
            other.sound() == self.sound(),
            other.boundary() == self.boundary(),
            self.progress().commits_to(other.progress()),
            forall|seq: int| #[trigger] other.published(seq) == self.published(seq),
    {
        assert forall|seq: int| #[trigger] other.published(seq) == self.published(seq) by {}
        assert forall|seq: int| #[trigger] self.published(seq) == other.published(seq) by {}
        assert(other.tracks() == self.tracks());
    }

    /// Claiming past committed sequences only keeps the barrier sound and commits nothing.
    pub proof fn lemma_claim(self, end: int)
        requires
            self.sound(),
            self.claimed <= end <= self.claimed + self.capacity(),
            end + self.capacity() <= i64::MAX,
            forall|seq: int|
                self.claimed - self.capacity() < seq <= end - self.capacity()
                    ==> #[trigger] self.published(seq),
        ensures
            self.claim(end).sound(),
            self.progress().claims_to(self.claim(end).progress(), end),
            forall|seq: int|
                self.claimed < seq <= end ==> !#[trigger] self.claim(end).published(seq),
            forall|seq: int|
                end - self.capacity() < seq <= self.claimed ==> #[trigger] self.claim(
                    end,
                ).published(seq) == self.published(seq),
    {
        let capacity = self.capacity();
        let later = self.claim(end);
        RingBufferMeta::lemma_exponent(capacity);
        assert forall|seq: int| self.claimed < seq <= end implies {
            &&& U32SlotStates::state_of(self.states, seq) == U32SlotStates::state_of(
                self.states,
                seq - capacity,
            )
            &&& U32SlotStates::lap_of(#[trigger] U32SlotStates::state_of(self.states, seq))
                == U32SlotStates::flag_of(seq - capacity, capacity)
        } by {
            RingBufferMeta::lemma_next_lap(seq - capacity, capacity);
            assert(self.published(seq - capacity));
        }
        assert forall|seq: int| self.claimed < seq <= end implies !#[trigger] later.published(seq) by {
            U32SlotStates::lemma_flags_distinct(seq, capacity);
            assert(U32SlotStates::lap_of(U32SlotStates::state_of(self.states, seq))
                == U32SlotStates::flag_of(seq - capacity, capacity));
        }
        assert(later.tracks()) by {
            assert forall|seq: int|
                #![trigger U32SlotStates::state_of(later.states, seq)]
                later.in_window(seq) implies {
                let lap = U32SlotStates::lap_of(U32SlotStates::state_of(later.states, seq));
                ||| lap == U32SlotStates::flag_of(seq, later.capacity())
                ||| lap == U32SlotStates::flag_of(seq - later.capacity(), later.capacity())
            } by {
                if seq <= self.claimed {
                    assert(self.in_window(seq));
                }
            }
        }
        assert forall|seq: int| later.in_window(seq) && seq < 0 implies #[trigger] later.published(
            seq,
        ) by {
            if seq <= self.claimed {
                assert(self.published(seq));
            }
        }
    }

    /// No sequence past the last claimed one looks published.
    pub proof fn lemma_nothing_beyond(self, seq: int)
        requires
            self.sound(),
            self.claimed < seq <= self.claimed + self.capacity(),
        ensures
            !U32SlotStates::available(self.states, seq),
    {
        let capacity = self.capacity();
        RingBufferMeta::lemma_exponent(capacity);
        RingBufferMeta::lemma_next_lap(seq - capacity, capacity);
        U32SlotStates::lemma_flags_distinct(seq - capacity, capacity);
        assert(self.in_window(seq - capacity));
        assert(U32SlotStates::state_of(self.states, seq) == U32SlotStates::state_of(
            self.states,
            seq - capacity,
        ));
    }

    /// Committing an open claim keeps the barrier sound, publishes exactly that claim, and leaves
    /// every other sequence of the lap as it was.
    pub proof fn lemma_commit(self, start: int, end: int)
        requires
            self.sound(),
            self.outstanding(start, end),
        ensures
            self.commit(start, end).sound(),
            self.progress().commits_to(self.commit(start, end).progress()),
            forall|seq: int|
                self.in_window(seq) ==> #[trigger] self.commit(start, end).published(seq) == (
                self.published(seq) || (!self.terminated && start <= seq <= end)),
    {
        if !self.terminated {
            let capacity = self.capacity();
            let later = self.commit(start, end);
            RingBufferMeta::lemma_exponent(capacity);
            U32SlotStates::lemma_with_range(self.states, start, end);
            assert forall|seq: int| self.in_window(seq) implies {
                &&& start <= seq <= end ==> U32SlotStates::lap_of(
                    #[trigger] U32SlotStates::state_of(later.states, seq),
                ) == U32SlotStates::flag_of(seq, capacity)
                &&& !(start <= seq <= end) ==> U32SlotStates::state_of(later.states, seq)
                    == U32SlotStates::state_of(self.states, seq)
            } by {
                U32SlotStates::lemma_flag_bounds(seq, capacity);
            }
            assert forall|seq: int|
                self.in_window(seq) implies #[trigger] later.published(seq) == (self.published(seq)
                || start <= seq <= end) by {
                assert(U32SlotStates::state_of(later.states, seq) == U32SlotStates::state_of(
                    later.states,
                    seq,
                ));
            }
            assert(later.tracks()) by {
                assert forall|seq: int|
                    #![trigger U32SlotStates::state_of(later.states, seq)]
                    later.in_window(seq) implies {
                    let lap = U32SlotStates::lap_of(U32SlotStates::state_of(later.states, seq));
                    ||| lap == U32SlotStates::flag_of(seq, later.capacity())
                    ||| lap == U32SlotStates::flag_of(seq - later.capacity(), later.capacity())
                } by {
                    assert(U32SlotStates::state_of(self.states, seq) == U32SlotStates::state_of(
                        self.states,
                        seq,
                    ));
                }
            }
            assert forall|seq: int|
                later.in_window(seq) && seq < 0 implies #[trigger] later.published(seq) by {
                assert(self.published(seq));
            }
        }
    }

    /// Marking a slot keeps the barrier sound and changes nothing of what is published.
    pub proof fn lemma_mark(self, at: int)
        requires
            self.sound(),
        ensures
            ({
                let later = SharedView { states: U32SlotStates::with_mark(self.states, at), ..self };
                &&& later.sound()
                &&& later.capacity() == self.capacity()
                &&& forall|seq: int| #[trigger] later.published(seq) == self.published(seq)
                &&& forall|seq: int|
                    #[trigger] U32SlotStates::available(later.states, seq)
                        == U32SlotStates::available(self.states, seq)
                &&& self.progress().commits_to(later.progress())
            }),
    {
        RingBufferMeta::lemma_exponent(self.capacity());
        U32SlotStates::lemma_with_mark(self.states, at);
        let later = SharedView { states: U32SlotStates::with_mark(self.states, at), ..self };
        assert forall|seq: int|
            #[trigger] U32SlotStates::available(later.states, seq) == U32SlotStates::available(
                self.states,
                seq,
            ) by {
            assert(U32SlotStates::lap_of(U32SlotStates::state_of(later.states, seq))
                == U32SlotStates::lap_of(U32SlotStates::state_of(self.states, seq)));
        }
        assert forall|seq: int| #[trigger] later.published(seq) == self.published(seq) by {
            assert(U32SlotStates::available(later.states, seq) == U32SlotStates::available(
                self.states,
                seq,
            ));
        }
        assert(later.tracks()) by {
            assert forall|seq: int|
                #![trigger U32SlotStates::state_of(later.states, seq)]
                later.in_window(seq) implies {
                let lap = U32SlotStates::lap_of(U32SlotStates::state_of(later.states, seq));
                ||| lap == U32SlotStates::flag_of(seq, later.capacity())
                ||| lap == U32SlotStates::flag_of(seq - later.capacity(), later.capacity())
            } by {
                assert(U32SlotStates::lap_of(U32SlotStates::state_of(later.states, seq))
                    == U32SlotStates::lap_of(U32SlotStates::state_of(self.states, seq)));
            }
        }
    }

    /// Everything in the window below the boundary is published, the boundary itself is not.
    pub proof fn lemma_boundary(self)
        requires
            self.sound(),
        ensures
            0 <= self.boundary() <= self.claimed + 1,
            self.claimed - self.capacity() < self.boundary(),
            !self.published(self.boundary()),
            !U32SlotStates::available(self.states, self.boundary()),
            forall|seq: int|
                self.in_window(seq) && seq < self.boundary() ==> #[trigger] self.published(seq),
    {
        RingBufferMeta::lemma_exponent(self.capacity());
        let start = if self.claimed - self.capacity() + 1 > 0 {
            self.claimed - self.capacity() + 1
        } else {
            0
        };
        U32SlotStates::lemma_run_end(self.states, start, self.claimed);
        if self.boundary() == self.claimed + 1 {
            self.lemma_nothing_beyond(self.boundary());
        }
    }
}

impl SharedState {
    /// The last claimed sequence that the claim cursor encodes.
    pub open spec fn last_claimed(raw: int) -> int {
        if raw < -1 {
            raw + 0x8000_0000_0000_0000
        } else {
            raw
        }
    }

    /// The barrier of a channel over `ring_meta` with one sending endpoint.
    pub fn new(ring_meta: RingBufferMeta) -> (shared: Self)
        requires
            ring_meta.wf(),
        ensures
            shared.wf(),
            shared@ == SharedView::fresh(ring_meta.capacity()),
            shared@.progress().reachable(-1),
    {
        let shared = SharedState {
            claimed: Cursor::new(Sequence::init()),
            slot_states: U32SlotStates::new_all_available(ring_meta),
            senders: 1,
        };
        proof {
            ring_meta.lemma_wf();
            let capacity = ring_meta.capacity();
            assert forall|seq: int|
                #![trigger U32SlotStates::state_of(shared@.states, seq)]
                shared@.in_window(seq) implies {
                let lap = U32SlotStates::lap_of(U32SlotStates::state_of(shared@.states, seq));
                ||| lap == U32SlotStates::flag_of(seq, capacity)
                ||| lap == U32SlotStates::flag_of(seq - capacity, capacity)
            } by {
                assert(U32SlotStates::available(shared@.states, seq));
            }
            assert forall|seq: int|
                -1 - capacity < seq <= -1 implies #[trigger] (shared@.progress().ready)(seq) by {
                assert(U32SlotStates::available(shared@.states, seq));
            }
        }
        shared
    }

    /// The last claimed sequence, and whether the producers are terminated.
    fn load_claimed(&self) -> (loaded: (i64, bool))
        requires
            self.wf(),
        ensures
            loaded.0 == self@.claimed,
            loaded.1 == self@.terminated,
    {
        let raw = self.claimed.load();
        if has_shutdown(raw) {
            proof {
                lemma_value_bits(raw);
            }
            (raw & VALUE_MASK, true)
        } else {
            (raw, false)
        }
    }

    /// Moves the claim cursor from `last_claimed` to `end_seq`.
    fn advance_claimed(&mut self, last_claimed: Sequence, end_seq: Sequence)
        requires
            old(self).wf(),
            !old(self)@.terminated,
            last_claimed@ == old(self)@.claimed,
            last_claimed@ <= end_seq@,
            old(self)@.claim(end_seq@).sound(),
        ensures
            final(self).wf(),
            final(self)@ == old(self)@.claim(end_seq@),
    {
        let _ = self.claimed.compare_exchange(last_claimed.value(), end_seq.value());
    }

    /// Publishes the claimed range `[start_seq, end_seq]`, unless the producers are terminated.
    fn publish_range(&mut self, start_seq: Sequence, end_seq: Sequence)
        requires
            old(self).wf(),
            old(self)@.outstanding(start_seq@, end_seq@),
        ensures
            final(self).wf(),
            final(self)@ == old(self)@.commit(start_seq@, end_seq@),
    {
        proof {
            self@.lemma_commit(start_seq@, end_seq@);
        }
        if !has_shutdown(self.claimed.load()) {
            self.slot_states.publish_range(start_seq, end_seq);
        }
    }

    /// Marks the first sequence that is not published as the end of the stream.
    pub fn close(&mut self)
        requires
            old(self).wf(),
        ensures
            final(self).wf(),
            final(self)@ == old(self)@.closed(),
    {
        let (claimed, _) = self.load_claimed();
        proof {
            self.lemma_sound();
            self.slot_states.lemma_wf();
            self@.lemma_boundary();
        }
        let capacity = self.slot_states.capacity();
        let last_published = if claimed < 0 {
            Sequence::new(claimed)
        } else {
            let lap_start: i64 = claimed - (capacity - 1);
            let window_start = if lap_start > 0 {
                lap_start
            } else {
                0
            };
            self.slot_states.scan_last_available(
                Sequence::new(window_start),
                Sequence::new(claimed),
            )
        };
        proof {
            assert(last_published@ + 1 == self@.boundary());
            self@.lemma_mark(self@.boundary());
        }
        self.slot_states.mark_shutdown(Sequence::new(last_published.value() + 1));
    }

    /// Stops all producers: no further claim is granted, and the consumers find the end of the
    /// stream where the first sequence is missing.
    pub fn terminate(&mut self)
        requires
            old(self).wf(),
        ensures
            final(self).wf(),
            final(self)@ == old(self)@.terminate(),
    {
        let raw = self.claimed.load();
        if has_shutdown(raw) {
            return ;
        }
        proof {
            self.lemma_sound();
            self@.lemma_boundary();
            self@.lemma_mark(self@.boundary());
        }
        self.close();
        let stopped: i64 = if raw < 0 {
            SHUTDOWN_MASK
        } else {
            raw | SHUTDOWN_MASK
        };
        proof {
            if raw >= 0 {
                lemma_shutdown_bit(raw);
            }
        }
        let ghost closed = self@;
        proof {
            RingBufferMeta::lemma_exponent(closed.capacity());
            if raw < 0 {
                closed.lemma_claim(0);
                closed.claim(0).lemma_same_slots(SharedView { terminated: true, ..closed.claim(0) });
            } else {
                closed.lemma_same_slots(SharedView { terminated: true, ..closed });
            }
        }
        self.claimed.store(stopped);
    }

    /// Counts one more sending endpoint.
    pub fn add_sender(&mut self)
        requires
            old(self).wf(),
            old(self)@.senders < usize::MAX,
        ensures
            final(self).wf(),
            final(self)@ == (SharedView { senders: old(self)@.senders + 1, ..old(self)@ }),
    {
        let ghost before = self@;
        self.senders = self.senders + 1;
        proof {
            before.lemma_same_slots(self@);
        }
    }

    /// Counts one sending endpoint less; the last one to leave closes the stream.
    pub fn remove_sender(&mut self) -> (last: bool)
        requires
            old(self).wf(),
            old(self)@.senders >= 1,
        ensures
            final(self).wf(),
            last == (old(self)@.senders == 1),
            final(self)@ == old(self)@.without_sender(),
    {
        let ghost before = self@;
        self.senders = self.senders - 1;
        proof {
            before.lemma_same_slots(self@);
        }
        if self.senders == 0 {
            self.close();
            true
        } else {
            false
        }
    }
}

impl ProducerBarrier for SharedState {
    closed spec fn wf(&self) -> bool {
        &&& self.slot_states.wf()
        &&& self@.sound()
    }

    open spec fn sound(gate: SharedView) -> bool {
        gate.sound()
    }

    open spec fn progress(gate: SharedView) -> Progress {
        gate.progress()
    }

    open spec fn published_until(gate: SharedView, next: int, end: int) -> (int, bool) {
        (
            U32SlotStates::run_end(gate.states, next, end),
            U32SlotStates::mark_met(gate.states, next, end),
        )
    }

    proof fn lemma_sound(&self) {
    }

    proof fn lemma_published_until(gate: SharedView, position: int, end: int) {
        U32SlotStates::lemma_run_end(gate.states, position + 1, end);
        let last = U32SlotStates::run_end(gate.states, position + 1, end);
        if last > gate.claimed {
            gate.lemma_nothing_beyond(gate.claimed + 1);
            assert(U32SlotStates::available(gate.states, gate.claimed + 1));
        }
        assert forall|seq: int|
            gate.claimed - gate.capacity() < seq <= last implies #[trigger] (
        gate.progress().ready)(seq) by {
            if seq <= position {
                assert((gate.progress().ready)(seq));
            } else {
                assert(U32SlotStates::available(gate.states, seq));
            }
        }
    }

    fn max_published(&self, next_seq: Sequence, end_seq: Sequence) -> (state: SlotState) {
        self.slot_states.scan_available_until(next_seq, end_seq)
    }
}

/// The claim that an endpoint makes, given what it found in the claim cursor and in the
/// consumers' barrier: up to `n` sequences past `last_claimed`, as many as are free.
pub fn plan_claim(
    ring_meta: &RingBufferMeta,
    last_claimed: Sequence,
    consumed: SlotState,
    n: i64,
) -> (plan: Result<(Sequence, Sequence), TryClaimError>)
    requires
        ring_meta.wf(),
        -1 <= last_claimed@,
        last_claimed@ + ring_meta.capacity() <= i64::MAX,
        !consumed.shutdown ==> last_claimed@ - ring_meta.capacity() <= consumed.seq@
            <= last_claimed@,
        1 <= n <= ring_meta.capacity(),
    ensures
        match plan {
            Ok((start_seq, end_seq)) => {
                let free = consumed.seq@ + ring_meta.capacity() - last_claimed@;
                &&& !consumed.shutdown
                &&& free > 0
                &&& start_seq@ == last_claimed@ + 1
                &&& end_seq@ == last_claimed@ + if free < n {
                    free
                } else {
                    n as int
                }
            },
            Err(TryClaimError::Shutdown) => consumed.shutdown,
            Err(TryClaimError::Empty) => !consumed.shutdown && consumed.seq@
                + ring_meta.capacity() <= last_claimed@,
            Err(TryClaimError::Insufficient { .. }) => false,
        },
{
    proof {
        ring_meta.lemma_wf();
    }
    if consumed.is_shutdown() {
        return Err(TryClaimError::Shutdown);
    }
    let available_capacity = ring_meta.available_slots(last_claimed, consumed.sequence());
    if available_capacity <= 0 {
        return Err(TryClaimError::Empty);
    }
    let available = if available_capacity < n {
        available_capacity
    } else {
        n
    };
    Ok((Sequence::new(last_claimed.value() + 1), Sequence::new(last_claimed.value() + available)))
}

/// The sequencer of one of several producers.
pub struct MultiPublisherSequencer<C> {
    ring_meta: RingBufferMeta,
    consumer_gate: core::marker::PhantomData<C>,
}

impl<C> View for MultiPublisherSequencer<C> {
    type V = ();

    open spec fn view(&self) -> () {
        ()
    }
}

impl<C: ConsumerBarrier> MultiPublisherSequencer<C> {
    /// The gates after a sending endpoint has left; the consumers are woken where it was the
    /// last one.
    pub open spec fn left(gates: GatesView<SharedView, C::V>) -> GatesView<SharedView, C::V> {
        GatesView {
            producer: gates.producer.without_sender(),
            consumer: if gates.producer.senders == 1 {
                C::notified(gates.consumer)
            } else {
                gates.consumer
            },
        }
    }

    /// The gates after the producers are terminated.
    pub open spec fn stopped(gates: GatesView<SharedView, C::V>) -> GatesView<SharedView, C::V> {
        GatesView {
            producer: gates.producer.terminate(),
            consumer: C::notified(gates.consumer),
        }
    }

    /// The sequencer of the first producer of a channel over `ring_meta`.
    pub fn new(ring_meta: RingBufferMeta) -> (sequencer: Self)
        requires
            ring_meta.wf(),
        ensures
            sequencer.ring_capacity() == ring_meta.capacity(),
            sequencer.intact(),
    {
        MultiPublisherSequencer { ring_meta, consumer_gate: core::marker::PhantomData }
    }

    /// The capacity that this endpoint reckons with.
    pub closed spec fn ring_capacity(&self) -> int {
        self.ring_meta.capacity()
    }

    /// The endpoint's own arithmetic is that of a ring.
    pub closed spec fn intact(&self) -> bool {
        self.ring_meta.wf()
    }

    /// A second producer of the same channel.
    pub fn clone_endpoint(&self, gates: &mut Gates<SharedState, C>) -> (sequencer: Self)
        requires
            self.attached(old(gates)),
            old(gates)@.producer.senders < usize::MAX,
        ensures
            self.attached(final(gates)),
            sequencer.attached(final(gates)),
            final(gates)@.consumer == old(gates)@.consumer,
            final(gates)@.producer == (SharedView {
                senders: old(gates)@.producer.senders + 1,
                ..old(gates)@.producer
            }),
    {
        let ghost before = gates@;
        proof {
            gates.producer.lemma_sound();
        }
        gates.producer.add_sender();
        proof {
            before.producer.lemma_same_slots(gates@.producer);
            C::lemma_commit_in_step(
                before.consumer,
                before.producer.progress(),
                gates@.producer.progress(),
            );
        }
        MultiPublisherSequencer {
            ring_meta: self.ring_meta,
            consumer_gate: core::marker::PhantomData,
        }
    }

    /// This producer leaves the channel.
    pub fn disconnect(self, gates: &mut Gates<SharedState, C>)
        requires
            self.attached(old(gates)),
            old(gates)@.producer.senders >= 1,
        ensures
            final(gates).inv(),
            final(gates)@ == Self::left(old(gates)@),
    {
        let ghost before = gates@;
        proof {
            gates.producer.lemma_sound();
        }
        let last = gates.producer.remove_sender();
        proof {
            let counted = SharedView {
                senders: (before.producer.senders - 1) as nat,
                ..before.producer
            };
            before.producer.lemma_same_slots(counted);
            counted.lemma_mark(counted.boundary());
            C::lemma_commit_in_step(
                before.consumer,
                before.producer.progress(),
                gates@.producer.progress(),
            );
        }
        if last {
            gates.consumer.notify();
        }
    }

    /// Stops all producers of the channel.
    pub fn terminate(&self, gates: &mut Gates<SharedState, C>)
        requires
            self.attached(old(gates)),
        ensures
            self.attached(final(gates)),
            final(gates)@ == Self::stopped(old(gates)@),
    {
        let ghost before = gates@;
        proof {
            gates.producer.lemma_sound();
            let producer = before.producer;
            producer.lemma_mark(producer.boundary());
            let closed = producer.closed();
            let stopped = producer.terminate();
            RingBufferMeta::lemma_exponent(producer.capacity());
            C::lemma_commit_in_step(before.consumer, producer.progress(), closed.progress());
            if !producer.terminated {
                if producer.claimed < 0 {
                    assert forall|seq: int|
                        -1 - closed.capacity() < seq <= -1 implies #[trigger] (
                    closed.progress().ready)(seq) by {
                        assert(closed.published(seq));
                    }
                    closed.lemma_claim(0);
                    closed.claim(0).lemma_same_slots(stopped);
                    C::lemma_first_claim_in_step(
                        before.consumer,
                        closed.progress(),
                        closed.claim(0).progress(),
                    );
                    C::lemma_commit_in_step(
                        before.consumer,
                        closed.claim(0).progress(),
                        stopped.progress(),
                    );
                } else {
                    closed.lemma_same_slots(stopped);
                    C::lemma_commit_in_step(
                        before.consumer,
                        closed.progress(),
                        stopped.progress(),
                    );
                }
            } else {
                C::lemma_commit_in_step(before.consumer, stopped.progress(), stopped.progress());
            }
        }
        gates.producer.terminate();
        gates.consumer.notify();
    }
}

impl<C: ConsumerBarrier> Sequencer for MultiPublisherSequencer<C> {
    type Gates = Gates<SharedState, C>;

    open spec fn attached(&self, gates: &Gates<SharedState, C>) -> bool {
        &&& self.intact()
        &&& self.ring_capacity() == gates@.producer.capacity()
        &&& gates.inv()
    }

    open spec fn capacity(gates: GatesView<SharedView, C::V>) -> int {
        gates.producer.capacity()
    }

    open spec fn may_claim(endpoint: (), gates: GatesView<SharedView, C::V>) -> bool {
        gates.producer.claimed + 2 * gates.producer.capacity() <= i64::MAX
    }

    open spec fn grant(endpoint: (), gates: GatesView<SharedView, C::V>, limit: int) -> Result<
        (int, int),
        TryClaimError,
    > {
        gates.producer.grant(
            C::consumed_until(
                gates.consumer,
                gates.producer.claimed + 1,
                gates.producer.wanted(limit),
                gates.producer.capacity(),
            ),
            limit,
        )
    }

    open spec fn granted(endpoint: (), gates: GatesView<SharedView, C::V>, end: int) -> (
        (),
        GatesView<SharedView, C::V>,
    ) {
        ((), GatesView { producer: gates.producer.claim(end), ..gates })
    }

    open spec fn outstanding(
        endpoint: (),
        gates: GatesView<SharedView, C::V>,
        start: int,
        end: int,
    ) -> bool {
        gates.producer.outstanding(start, end)
    }

    open spec fn committed(
        endpoint: (),
        gates: GatesView<SharedView, C::V>,
        start: int,
        end: int,
    ) -> GatesView<SharedView, C::V> {
        GatesView {
            producer: gates.producer.commit(start, end),
            consumer: C::notified(gates.consumer),
        }
    }

    proof fn lemma_grant(&self, gates: &Gates<SharedState, C>, limit: int) {
        gates.producer.lemma_sound();
        let producer = gates@.producer;
        assert(Self::capacity(gates@) == producer.capacity());
        RingBufferMeta::lemma_exponent(producer.capacity());
        if let Ok((start, end)) = Self::grant(self@, gates@, limit) {
            C::lemma_consumed_until(
                gates@.consumer,
                producer.progress(),
                producer.wanted(limit),
            );
            let consumed = C::consumed_until(
                gates@.consumer,
                producer.claimed + 1,
                producer.wanted(limit),
                producer.capacity(),
            );
            assert forall|seq: int|
                producer.claimed - producer.capacity() < seq <= end
                    - producer.capacity() implies #[trigger] producer.published(seq) by {
                assert((producer.progress().ready)(seq));
            }
            producer.lemma_claim(end);
            assert(start == producer.claimed + 1 && start <= end <= producer.wanted(limit));
            assert(producer.claim(end).capacity() == producer.capacity());
            let after = Self::granted(self@, gates@, end);
            assert(producer.claim(end).outstanding(start, end));
            assert(Self::capacity(after.1) == producer.capacity());
            assert(Self::outstanding(after.0, after.1, start, end));
        }
    }

    fn can_claim(&self, gates: &Gates<SharedState, C>) -> (can: bool) {
        proof {
            gates.producer.lemma_sound();
            self.ring_meta.lemma_wf();
        }
        let capacity = self.ring_meta.buffer_size();
        gates.producer.load_claimed().0 <= i64::MAX - capacity - capacity
    }

    fn try_claim_at_most(&mut self, gates: &mut Gates<SharedState, C>, limit: i64) -> (claim:
        Result<(Sequence, Sequence), TryClaimError>) {
        let ghost before = gates@;
        proof {
            self.lemma_grant(gates, limit as int);
            gates.producer.lemma_sound();
            RingBufferMeta::lemma_exponent(before.producer.capacity());
        }
        let capacity = self.ring_meta.buffer_size();
        let n = if limit < capacity {
            limit
        } else {
            capacity
        };
        let (claimed, terminated) = gates.producer.load_claimed();
        if terminated {
            return Err(TryClaimError::Shutdown);
        }
        let last_claimed = Sequence::new(claimed);
        let consumed = gates.consumer.max_consumed(
            Sequence::new(claimed + 1),
            Sequence::new(claimed + n),
            capacity,
        );
        proof {
            if !consumed.shutdown {
                C::lemma_consumed_until(
                    before.consumer,
                    before.producer.progress(),
                    before.producer.wanted(limit as int),
                );
            }
        }
        match plan_claim(&self.ring_meta, last_claimed, consumed, n) {
            Ok((start_seq, end_seq)) => {
                proof {
                    let end = end_seq@;
                    assert forall|seq: int|
                        before.producer.claimed - before.producer.capacity() < seq <= end
                            - before.producer.capacity() implies #[trigger] before.producer.published(
                        seq,
                    ) by {
                        assert((before.producer.progress().ready)(seq));
                    }
                    before.producer.lemma_claim(end);
                    C::lemma_claim_in_step(
                        before.consumer,
                        before.producer.progress(),
                        before.producer.wanted(limit as int),
                        before.producer.claim(end).progress(),
                        end,
                    );
                }
                gates.producer.advance_claimed(last_claimed, end_seq);
                Ok((start_seq, end_seq))
            },
            Err(error) => Err(error),
        }
    }

    fn try_claim_n(&mut self, gates: &mut Gates<SharedState, C>, n: i64) -> (claim: Result<
        (Sequence, Sequence),
        TryClaimError,
    >) {
        let ghost before = gates@;
        proof {
            self.lemma_grant(gates, n as int);
            gates.producer.lemma_sound();
            RingBufferMeta::lemma_exponent(before.producer.capacity());
        }
        let capacity = self.ring_meta.buffer_size();
        if n > capacity {
            return Err(TryClaimError::Insufficient { missing: n - capacity });
        }
        let (claimed, terminated) = gates.producer.load_claimed();
        if terminated {
            return Err(TryClaimError::Shutdown);
        }
        let last_claimed = Sequence::new(claimed);
        let consumed = gates.consumer.max_consumed(
            Sequence::new(claimed + 1),
            Sequence::new(claimed + n),
            capacity,
        );
        if consumed.is_shutdown() {
            return Err(TryClaimError::Shutdown);
        }
        proof {
            C::lemma_consumed_until(
                before.consumer,
                before.producer.progress(),
                before.producer.wanted(n as int),
            );
        }
        let available = self.ring_meta.available_slots(last_claimed, consumed.sequence());
        if available < n {
            return Err(TryClaimError::Insufficient { missing: n - available });
        }
        self.try_claim_at_most(gates, n)
    }

    fn commit(&self, gates: &mut Gates<SharedState, C>, seq: Sequence) {
        self.commit_range(gates, seq, seq);
    }

    fn commit_range(&self, gates: &mut Gates<SharedState, C>, start_seq: Sequence, end_seq: Sequence) {
        let ghost before = gates@;
        proof {
            gates.producer.lemma_sound();
            before.producer.lemma_commit(start_seq@, end_seq@);
            C::lemma_commit_in_step(
                before.consumer,
                before.producer.progress(),
                before.producer.commit(start_seq@, end_seq@).progress(),
            );
        }
        gates.producer.publish_range(start_seq, end_seq);
        gates.consumer.notify();
    }
}

/// Masking a negative cursor clears its sign bit.
proof fn lemma_value_bits(raw: i64)
    requires
        raw < 0,
    ensures
        (raw & VALUE_MASK) == raw + 0x8000_0000_0000_0000,
{
    assert(raw & 0x7fff_ffff_ffff_ffff == raw + 0x8000_0000_0000_0000) by (bit_vector)
        requires
            raw < 0,
    ;
}

/// Setting the sign bit of a cursor that is not negative subtracts its weight.
proof fn lemma_shutdown_bit(raw: i64)
    requires
        raw >= 0,
    ensures
        (raw | SHUTDOWN_MASK) == raw - 0x8000_0000_0000_0000,
{
    assert(raw | i64::MIN == raw - 0x8000_0000_0000_0000) by (bit_vector)
        requires
            raw >= 0,
    ;
}

/// Setting the shutdown bit of a claim cursor signals termination and keeps the last claimed
/// sequence, which clearing the bit gives back; a cursor without it signals none.
///
/// The last sequence number is left out: with the bit set it reads as the cursor of producers
/// that have claimed nothing. No claim reaches it.
pub proof fn law_shutdown_bit_keeps_the_sequence(claimed: i64)
    requires
        0 <= claimed < i64::MAX,
    ensures
        (claimed | SHUTDOWN_MASK) < -1,
        ((claimed | SHUTDOWN_MASK) & VALUE_MASK) == claimed,
        SharedState::last_claimed((claimed | SHUTDOWN_MASK) as int) == claimed,
        SharedState::last_claimed(claimed as int) == claimed,
{
    lemma_shutdown_bit(claimed);
    lemma_value_bits(claimed | SHUTDOWN_MASK);
}

} // verus!
