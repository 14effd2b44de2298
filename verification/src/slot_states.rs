//! Per-slot publication state.
//!
//! Each slot stores one `u32`: the low 31 bits hold the lap in which the slot was last
//! published, the high bit marks a shutdown.

use vstd::prelude::*;

use crate::ringbuffer::{exact_log2, RingBufferMeta};
use crate::sequence::Sequence;
use crate::sequencers::SlotState;

verus! {

/// The bits of a slot state that carry the lap flag.
pub const MASK: u32 = 0x7fff_ffff;

/// The bit of a slot state that marks a shutdown.
pub const SHUTDOWN_BIT: u32 = 0x8000_0000;

/// The number of distinct lap flags.
pub const LAP_FLAGS: u32 = 0x8000_0000;

/// Per-slot state tracking using lap flags.
///
/// A sequence is available where its slot stores the flag of its lap. Flags repeat after
/// [`LAP_FLAGS`] laps; the two sides of a channel are never further apart than one lap, so two
/// laps that matter at once never share a flag.
pub struct U32SlotStates {
    states: Vec<u32>,
    index_shift: u32,
    ring_meta: RingBufferMeta,
}

impl View for U32SlotStates {
    type V = Seq<u32>;

    /// The stored state of each slot.
    closed spec fn view(&self) -> Seq<u32> {
        self.states@
    }
}

/// What the stored states mean.
impl U32SlotStates {
    /// The flag that marks sequence `seq` as published in a ring of `capacity` slots.
    pub open spec fn flag_of(seq: int, capacity: int) -> int {
        (seq / capacity + 1) % (LAP_FLAGS as int)
    }

    /// The lap flag that a state carries.
    pub open spec fn lap_of(state: u32) -> int {
        state as int % (LAP_FLAGS as int)
    }

    /// Whether a state carries the shutdown mark.
    pub open spec fn is_marked(state: u32) -> bool {
        state >= SHUTDOWN_BIT
    }

    /// The state stored for sequence `seq`.
    pub open spec fn state_of(states: Seq<u32>, seq: int) -> u32 {
        states[RingBufferMeta::slot_of(seq, states.len() as int)]
    }

    /// Whether sequence `seq` is available.
    pub open spec fn available(states: Seq<u32>, seq: int) -> bool {
        Self::lap_of(Self::state_of(states, seq)) == Self::flag_of(seq, states.len() as int)
    }

    /// Whether the slot of sequence `seq` carries the shutdown mark.
    pub open spec fn marked(states: Seq<u32>, seq: int) -> bool {
        Self::is_marked(Self::state_of(states, seq))
    }

    /// The last sequence of the unbroken run of available ones that begins at `start` and
    /// ends no later than `end`; `start - 1` where `start` is not available.
    pub open spec fn run_end(states: Seq<u32>, start: int, end: int) -> int
        decreases end - start + 1,
    {
        if start > end || !Self::available(states, start) {
            start - 1
        } else {
            Self::run_end(states, start + 1, end)
        }
    }

    /// Whether a scan of `[start, end]` meets a shutdown mark: on the run of available
    /// sequences, or on the first one after it.
    pub open spec fn mark_met(states: Seq<u32>, start: int, end: int) -> bool {
        exists|seq: int|
            {
                &&& start <= seq <= end
                &&& seq <= Self::run_end(states, start, end) + 1
                &&& #[trigger] Self::marked(states, seq)
            }
    }

    /// The states after sequence `seq` is published: its slot holds its flag and no mark.
    pub open spec fn with_published(states: Seq<u32>, seq: int) -> Seq<u32> {
        states.update(
            RingBufferMeta::slot_of(seq, states.len() as int),
            Self::flag_of(seq, states.len() as int) as u32,
        )
    }

    /// The states after each sequence of `[start, end]` is published in turn.
    pub open spec fn with_range(states: Seq<u32>, start: int, end: int) -> Seq<u32>
        decreases end - start + 1,
    {
        if start > end {
            states
        } else {
            Self::with_published(Self::with_range(states, start, end - 1), end)
        }
    }

    /// A state with the shutdown mark added.
    pub open spec fn mark(state: u32) -> u32 {
        if Self::is_marked(state) {
            state
        } else {
            (state + SHUTDOWN_BIT) as u32
        }
    }

    /// The states after the slot of sequence `seq` is marked.
    pub open spec fn with_mark(states: Seq<u32>, seq: int) -> Seq<u32> {
        states.update(
            RingBufferMeta::slot_of(seq, states.len() as int),
            Self::mark(Self::state_of(states, seq)),
        )
    }

    /// The states after every slot is marked.
    pub open spec fn with_all_marked(states: Seq<u32>) -> Seq<u32> {
        Seq::new(states.len(), |i: int| Self::mark(states[i]))
    }
}

impl U32SlotStates {
    /// There is one state for each slot of a ring, and laps are counted by its capacity.
    pub closed spec fn wf(&self) -> bool {
        &&& self.ring_meta.wf()
        &&& self.states@.len() == self.ring_meta.capacity()
        &&& self.index_shift < 63
        &&& self.states@.len() == vstd::arithmetic::power2::pow2(self.index_shift as nat)
    }

    /// What well-formedness tells a caller of the number of slots.
    pub proof fn lemma_wf(&self)
        requires
            self.wf(),
        ensures
            1 <= self@.len() <= usize::MAX,
            RingBufferMeta::valid_size(self@.len() as int),
    {
        self.ring_meta.lemma_wf();
    }

    /// States in which no sequence from `0` on is available and nothing is marked.
    pub fn new_all_empty(ring_meta: RingBufferMeta) -> (group: Self)
        requires
            ring_meta.wf(),
        ensures
            group.wf(),
            group@ == Seq::new(ring_meta.capacity() as nat, |i: int| 0u32),
    {
        proof {
            ring_meta.lemma_wf();
        }
        let capacity = ring_meta.buffer_size() as usize;
        let mut states: Vec<u32> = Vec::with_capacity(capacity);
        while states.len() < capacity
            invariant
                states@.len() <= capacity,
                forall|i: int| 0 <= i < states@.len() ==> states@[i] == 0,
            decreases capacity - states@.len(),
        {
            states.push(0);
        }
        let index_shift: u32 = match exact_log2(capacity) {
            Some(log) => log,
            None => 0,
        };
        proof {
            let k = RingBufferMeta::lemma_exponent(capacity as int);
            if index_shift >= 63 {
                vstd::arithmetic::power2::lemma_pow2_strictly_increases(k, index_shift as nat);
            }
        }
        U32SlotStates { states, index_shift, ring_meta }
    }

    /// The number of slots.
    pub fn capacity(&self) -> (capacity: i64)
        requires
            self.wf(),
        ensures
            capacity == self@.len(),
    {
        self.ring_meta.buffer_size()
    }

    /// The slot of sequence `seq`.
    pub fn slot_index(&self, seq: Sequence) -> (index: usize)
        requires
            self.wf(),
        ensures
            index == RingBufferMeta::slot_of(seq@, self@.len() as int),
            index < self@.len(),
    {
        self.ring_meta.index_of_seq(seq)
    }

    /// The flag that marks sequence `seq` as published.
    pub fn available_flag(&self, seq: Sequence) -> (flag: u32)
        requires
            self.wf(),
        ensures
            flag == Self::flag_of(seq@, self@.len() as int),
    {
        let shifted: i64 = seq.value() >> self.index_shift;
        let lap: u32 = #[verifier::truncate]
        (shifted as u32);
        proof {
            lemma_shift_is_floor(seq.0, self.index_shift, self@.len() as int);
            lemma_flag_bits(shifted, lap);
        }
        lap.wrapping_add(1) & MASK
    }

    /// The slot and the flag of sequence `seq`.
    pub fn slot_state(&self, seq: Sequence) -> (state: (usize, u32))
        requires
            self.wf(),
        ensures
            state.0 == RingBufferMeta::slot_of(seq@, self@.len() as int),
            state.0 < self@.len(),
            state.1 == Self::flag_of(seq@, self@.len() as int),
    {
        (self.slot_index(seq), self.available_flag(seq))
    }

    /// States in which every sequence of the lap before `0` is available and nothing is
    /// marked.
    pub fn new_all_available(ring_meta: RingBufferMeta) -> (group: Self)
        requires
            ring_meta.wf(),
        ensures
            group.wf(),
            group@ == Seq::new(ring_meta.capacity() as nat, |i: int| 0u32),
            forall|seq: int| -ring_meta.capacity() <= seq < 0 ==> #[trigger] Self::available(group@, seq),
    {
        let group = U32SlotStates::new_all_empty(ring_meta);
        proof {
            ring_meta.lemma_wf();
            let capacity = ring_meta.capacity();
            assert forall|seq: int| -capacity <= seq < 0 implies #[trigger] Self::available(
                group@,
                seq,
            ) by {
                assert(seq / capacity == -1 && 0 <= seq % capacity < capacity) by {
                    vstd::arithmetic::div_mod::lemma_fundamental_div_mod_converse(
                        seq,
                        capacity,
                        -1,
                        seq + capacity,
                    );
                }
            }
        }
        group
    }

    /// Marks the slot of sequence `seq` as shut down.
    pub fn mark_shutdown(&mut self, seq: Sequence)
        requires
            old(self).wf(),
        ensures
            final(self).wf(),
            final(self)@ == Self::with_mark(old(self)@, seq@),
            final(self)@.len() == old(self)@.len(),
    {
        let index = self.slot_index(seq);
        let state: u32 = self.states[index];
        proof {
            lemma_mark_bits(state);
        }
        self.states.set(index, state | SHUTDOWN_BIT);
    }

    /// Marks every slot as shut down.
    pub fn mark_all_shutdown(&mut self)
        requires
            old(self).wf(),
        ensures
            final(self).wf(),
            final(self)@ == Self::with_all_marked(old(self)@),
    {
        let mut index: usize = 0;
        while index < self.states.len()
            invariant
                self.wf(),
                old(self).wf(),
                self@.len() == old(self)@.len(),
                index <= self@.len(),
                forall|i: int| 0 <= i < index ==> self@[i] == Self::mark(old(self)@[i]),
                forall|i: int| index <= i < self@.len() ==> self@[i] == old(self)@[i],
            decreases self@.len() - index,
        {
            let state: u32 = self.states[index];
            proof {
                lemma_mark_bits(state);
            }
            self.states.set(index, state | SHUTDOWN_BIT);
            index = index + 1;
        }
        assert(self@ =~= Self::with_all_marked(old(self)@));
    }

    /// The last contiguous available sequence of `[start, end]`, without shutdown detection.
    pub fn scan_last_available(&self, start: Sequence, end: Sequence) -> (last: Sequence)
        requires
            self.wf(),
            i64::MIN < start@ <= end@,
        ensures
            last@ == Self::run_end(self@, start@, end@),
    {
        let mut last_available: i64 = start.value() - 1;
        while last_available < end.value()
            invariant_except_break
                Self::run_end(self@, start@, end@) == Self::run_end(
                    self@,
                    last_available + 1,
                    end@,
                ),
            invariant
                self.wf(),
                i64::MIN < start@ <= end@,
                start@ - 1 <= last_available <= end@,
            ensures
                last_available == Self::run_end(self@, start@, end@),
            decreases end@ - last_available,
        {
            let seq = Sequence::new(last_available + 1);
            let (index, flag) = self.slot_state(seq);
            let state: u32 = self.states[index];
            proof {
                lemma_state_bits(state);
            }
            if state & MASK != flag {
                break;
            }
            last_available = last_available + 1;
        }
        Sequence::new(last_available)
    }

    /// Publishes each sequence of `[start, end]`.
    pub fn publish_range(&mut self, start: Sequence, end: Sequence)
        requires
            old(self).wf(),
            i64::MIN < start@ <= end@,
        ensures
            final(self).wf(),
            final(self)@ == Self::with_range(old(self)@, start@, end@),
            final(self)@.len() == old(self)@.len(),
    {
        let mut published: i64 = start.value() - 1;
        while published < end.value()
            invariant
                self.wf(),
                i64::MIN < start@ <= end@,
                start@ - 1 <= published <= end@,
                self@.len() == old(self)@.len(),
                self@ == Self::with_range(old(self)@, start@, published as int),
            decreases end@ - published,
        {
            let seq = Sequence::new(published + 1);
            self.publish(seq);
            published = published + 1;
        }
    }

    /// The last contiguous available sequence of `[start, end]`, and whether the scan met a
    /// shutdown mark.
    pub fn scan_available_until(&self, start: Sequence, end: Sequence) -> (state: SlotState)
        requires
            self.wf(),
            i64::MIN < start@ <= end@,
        ensures
            state.seq@ == Self::run_end(self@, start@, end@),
            state.shutdown == Self::mark_met(self@, start@, end@),
    {
        let mut last_available: i64 = start.value() - 1;
        let mut shutdown = false;
        while last_available < end.value()
            invariant_except_break
                Self::run_end(self@, start@, end@) == Self::run_end(
                    self@,
                    last_available + 1,
                    end@,
                ),
                shutdown == exists|seq: int|
                    start@ <= seq <= last_available && #[trigger] Self::marked(self@, seq),
            invariant
                self.wf(),
                i64::MIN < start@ <= end@,
                start@ - 1 <= last_available <= end@,
            ensures
                last_available == Self::run_end(self@, start@, end@),
                shutdown == Self::mark_met(self@, start@, end@),
            decreases end@ - last_available,
        {
            let seq = Sequence::new(last_available + 1);
            let (index, flag) = self.slot_state(seq);
            let state: u32 = self.states[index];
            proof {
                lemma_state_bits(state);
                assert(Self::is_marked(state) == Self::marked(self@, seq@));
            }
            shutdown = shutdown || (state & SHUTDOWN_BIT) != 0;
            if state & MASK != flag {
                break;
            }
            last_available = last_available + 1;
        }
        SlotState::new(Sequence::new(last_available), shutdown)
    }

    /// Publishes sequence `seq`.
    pub fn publish(&mut self, seq: Sequence)
        requires
            old(self).wf(),
        ensures
            final(self).wf(),
            final(self)@ == Self::with_published(old(self)@, seq@),
            final(self)@.len() == old(self)@.len(),
    {
        let (index, flag) = self.slot_state(seq);
        self.states.set(index, flag);
    }
}

/// What follows from the meaning of the states.
impl U32SlotStates {
    /// A run begins where it is scanned from, holds available sequences only, and stops at the
    /// first one that is not available.
    pub proof fn lemma_run_end(states: Seq<u32>, start: int, end: int)
        requires
            start <= end + 1,
        ensures
            start - 1 <= Self::run_end(states, start, end) <= end,
            forall|seq: int|
                start <= seq <= Self::run_end(states, start, end) ==> #[trigger] Self::available(
                    states,
                    seq,
                ),
            Self::run_end(states, start, end) < end ==> !Self::available(
                states,
                Self::run_end(states, start, end) + 1,
            ),
        decreases end - start + 1,
    {
        if start <= end && Self::available(states, start) {
            Self::lemma_run_end(states, start + 1, end);
        }
    }

    /// A run is the only stretch of available sequences that cannot be continued.
    pub proof fn lemma_run_end_unique(states: Seq<u32>, start: int, end: int, last: int)
        requires
            start - 1 <= last <= end,
            forall|seq: int| start <= seq <= last ==> #[trigger] Self::available(states, seq),
            last < end ==> !Self::available(states, last + 1),
        ensures
            Self::run_end(states, start, end) == last,
        decreases end - start + 1,
    {
        if start <= last {
            assert(Self::available(states, start));
            Self::lemma_run_end_unique(states, start + 1, end, last);
        }
    }

    /// Laps that are one or two apart have different flags.
    pub proof fn lemma_flags_distinct(seq: int, capacity: int)
        requires
            capacity >= 1,
        ensures
            Self::flag_of(seq, capacity) != Self::flag_of(seq - capacity, capacity),
            Self::flag_of(seq + capacity, capacity) != Self::flag_of(seq, capacity),
            Self::flag_of(seq + capacity, capacity) != Self::flag_of(seq - capacity, capacity),
    {
        RingBufferMeta::lemma_next_lap(seq, capacity);
        RingBufferMeta::lemma_next_lap(seq - capacity, capacity);
    }

    /// A flag fits into a state and carries no mark.
    pub proof fn lemma_flag_bounds(seq: int, capacity: int)
        ensures
            0 <= Self::flag_of(seq, capacity) < LAP_FLAGS,
            Self::lap_of(Self::flag_of(seq, capacity) as u32) == Self::flag_of(seq, capacity),
            !Self::is_marked(Self::flag_of(seq, capacity) as u32),
    {
    }

    /// Publishing a sequence makes it available and leaves the slots of all sequences less
    /// than a lap away as they were.
    pub proof fn lemma_with_published(states: Seq<u32>, seq: int)
        requires
            states.len() >= 1,
        ensures
            Self::with_published(states, seq).len() == states.len(),
            Self::available(Self::with_published(states, seq), seq),
            !Self::marked(Self::with_published(states, seq), seq),
            forall|other: int|
                other != seq && -states.len() < other - seq < states.len()
                    ==> #[trigger] Self::state_of(Self::with_published(states, seq), other)
                    == Self::state_of(states, other),
    {
        let capacity = states.len() as int;
        RingBufferMeta::lemma_slot_bounds(seq, capacity);
        Self::lemma_flag_bounds(seq, capacity);
        assert forall|other: int|
            other != seq && -states.len() < other - seq < states.len() implies #[trigger] Self::state_of(
            Self::with_published(states, seq),
            other,
        ) == Self::state_of(states, other) by {
            RingBufferMeta::lemma_slot_bounds(other, capacity);
            RingBufferMeta::lemma_slots_distinct(seq, other, capacity);
        }
    }

    /// Publishing a range of at most one lap makes each sequence of it available, and leaves
    /// the slots of the sequences of the lap around it as they were.
    pub proof fn lemma_with_range(states: Seq<u32>, start: int, end: int)
        requires
            states.len() >= 1,
            start <= end + 1,
            end - start < states.len(),
        ensures
            Self::with_range(states, start, end).len() == states.len(),
            forall|seq: int|
                start <= seq <= end ==> #[trigger] Self::state_of(
                    Self::with_range(states, start, end),
                    seq,
                ) == Self::flag_of(seq, states.len() as int) as u32,
            forall|seq: int|
                (seq < start || seq > end) && end - states.len() < seq < start + states.len()
                    ==> #[trigger] Self::state_of(Self::with_range(states, start, end), seq)
                    == Self::state_of(states, seq),
        decreases end - start + 1,
    {
        if start <= end {
            let capacity = states.len() as int;
            let before = Self::with_range(states, start, end - 1);
            let after = Self::with_range(states, start, end);
            Self::lemma_with_range(states, start, end - 1);
            Self::lemma_with_published(before, end);
            RingBufferMeta::lemma_slot_bounds(end, capacity);
            assert forall|seq: int| start <= seq <= end implies #[trigger] Self::state_of(after, seq)
                == Self::flag_of(seq, capacity) as u32 by {
                if seq < end {
                    assert(Self::state_of(after, seq) == Self::state_of(before, seq));
                }
            }
            assert forall|seq: int|
                (seq < start || seq > end) && end - capacity < seq < start
                    + capacity implies #[trigger] Self::state_of(after, seq) == Self::state_of(
                states,
                seq,
            ) by {
                assert(Self::state_of(after, seq) == Self::state_of(before, seq));
            }
        }
    }

    /// Marking a slot changes no lap flag and no other slot.
    pub proof fn lemma_with_mark(states: Seq<u32>, seq: int)
        requires
            states.len() >= 1,
        ensures
            Self::with_mark(states, seq).len() == states.len(),
            Self::marked(Self::with_mark(states, seq), seq),
            forall|other: int|
                #[trigger] Self::lap_of(Self::state_of(Self::with_mark(states, seq), other))
                    == Self::lap_of(Self::state_of(states, other)),
            forall|other: int|
                Self::marked(states, other) ==> #[trigger] Self::marked(
                    Self::with_mark(states, seq),
                    other,
                ),
    {
        let capacity = states.len() as int;
        RingBufferMeta::lemma_slot_bounds(seq, capacity);
        Self::lemma_mark(Self::state_of(states, seq));
        assert forall|other: int|
            #[trigger] Self::lap_of(Self::state_of(Self::with_mark(states, seq), other))
                == Self::lap_of(Self::state_of(states, other)) by {
            RingBufferMeta::lemma_slot_bounds(other, capacity);
        }
        assert forall|other: int| Self::marked(states, other) implies #[trigger] Self::marked(
            Self::with_mark(states, seq),
            other,
        ) by {
            RingBufferMeta::lemma_slot_bounds(other, capacity);
        }
    }

    /// A mark leaves the lap flag of its state.
    pub proof fn lemma_mark(state: u32)
        ensures
            Self::is_marked(Self::mark(state)),
            Self::lap_of(Self::mark(state)) == Self::lap_of(state),
    {
    }

    /// Runs depend on the lap flags alone.
    pub proof fn lemma_run_end_same_laps(a: Seq<u32>, b: Seq<u32>, start: int, end: int)
        requires
            a.len() == b.len(),
            forall|seq: int|
                start <= seq <= end ==> #[trigger] Self::available(a, seq) == Self::available(b, seq),
        ensures
            Self::run_end(a, start, end) == Self::run_end(b, start, end),
        decreases end - start + 1,
    {
        if start <= end {
            assert(Self::available(a, start) == Self::available(b, start));
            Self::lemma_run_end_same_laps(a, b, start + 1, end);
        }
    }
}

/// The bits of a state are its lap flag and its mark.
proof fn lemma_state_bits(state: u32)
    ensures
        (state & MASK) == U32SlotStates::lap_of(state),
        (state & SHUTDOWN_BIT != 0) == U32SlotStates::is_marked(state),
{
    assert(state & 0x7fff_ffff == state % 0x8000_0000) by (bit_vector);
    assert((state & 0x8000_0000 != 0) == (state >= 0x8000_0000)) by (bit_vector);
}

/// Setting the shutdown bit adds the mark.
proof fn lemma_mark_bits(state: u32)
    ensures
        (state | SHUTDOWN_BIT) == U32SlotStates::mark(state),
{
    assert(state | 0x8000_0000 == if state >= 0x8000_0000 {
        state as int
    } else {
        state + 0x8000_0000
    }) by (bit_vector);
}

/// An arithmetic shift to the right is the floor of the quotient.
proof fn lemma_shift_is_floor(x: i64, shift: u32, size: int)
    requires
        shift < 63,
        size == vstd::arithmetic::power2::pow2(shift as nat),
    ensures
        (x >> shift) == x as int / size,
{
    vstd::arithmetic::power2::lemma_pow2_pos(shift as nat);
    if x >= 0 {
        let ux = x as u64;
        let us = shift as u64;
        assert(x >> shift == (((x as u64) >> (shift as u64)) as i64)) by (bit_vector)
            requires
                x >= 0,
                shift < 63,
        ;
        assert((x as u64) >> (shift as u64) <= x as u64) by (bit_vector)
            requires
                shift < 63,
        ;
        vstd::bits::lemma_u64_shr_is_div(ux, us);
    } else {
        let y = !x;
        let uy = y as u64;
        let us = shift as u64;
        assert(!x == -x - 1) by (bit_vector);
        assert(x >> shift == !((!x) >> shift)) by (bit_vector)
            requires
                shift < 63,
        ;
        assert(y >> shift == (((y as u64) >> (shift as u64)) as i64)) by (bit_vector)
            requires
                y >= 0,
                shift < 63,
        ;
        assert((y as u64) >> (shift as u64) <= y as u64) by (bit_vector)
            requires
                shift < 63,
        ;
        vstd::bits::lemma_u64_shr_is_div(uy, us);
        let t = y >> shift;
        assert(!t == -t - 1) by (bit_vector);
        assert(t == y as int / size);
        vstd::arithmetic::div_mod::lemma_fundamental_div_mod(y as int, size);
        let r = y as int % size;
        assert(x as int == (-t - 1) * size + (size - 1 - r)) by (nonlinear_arith)
            requires
                y as int == size * (t as int) + r,
                x as int == -(y as int) - 1,
        ;
        vstd::arithmetic::div_mod::lemma_fundamental_div_mod_converse(
            x as int,
            size,
            -t - 1,
            size - 1 - r,
        );
    }
}

/// Truncating a lap, stepping it and masking it leaves its remainder by the number of flags.
proof fn lemma_flag_bits(shifted: i64, lap: u32)
    requires
        lap == shifted as u32,
    ensures
        (lap.wrapping_add(1) & MASK) == (shifted + 1) % (LAP_FLAGS as int),
{
    let high = shifted >> 32;
    assert(shifted == ((shifted as u32) as i64) + (shifted >> 32) * 0x1_0000_0000) by (bit_vector);
    let next = lap.wrapping_add(1);
    assert(next & 0x7fff_ffff == next % 0x8000_0000) by (bit_vector);
    assert(shifted + 1 == (lap + 1) + 0x8000_0000 * (2 * high));
    vstd::arithmetic::div_mod::lemma_mod_multiples_vanish(
        2 * (high as int),
        lap as int + 1,
        0x8000_0000,
    );
}

} // verus!
