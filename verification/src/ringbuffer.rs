//! The pre-allocated ring of slots and its index arithmetic.

use vstd::prelude::*;

use crate::sequence::Sequence;
use crate::slot_recycler::SlotRecycler;

verus! {

/// The exponent of the power of two that equals `n`, or `None` where `n` is no power of two.
pub fn exact_log2(n: usize) -> (log: Option<u32>)
    ensures
        log is Some <==> vstd::arithmetic::power2::is_pow2(n as int),
        log matches Some(k) ==> k < usize::BITS && n == vstd::arithmetic::power2::pow2(k as nat),
{
    if n == 0 {
        proof {
            reveal(vstd::arithmetic::power2::is_pow2);
        }
        return None;
    }
    let mut rest: usize = n;
    let mut log: u32 = 0;
    proof {
        vstd::arithmetic::power2::lemma2_to64();
    }
    while rest % 2 == 0
        invariant
            rest >= 1,
            n == rest * vstd::arithmetic::power2::pow2(log as nat),
            log < usize::BITS,
            n >= 1,
        decreases rest,
    {
        proof {
            let half = (rest / 2) as int;
            vstd::arithmetic::power2::lemma_pow2_unfold((log + 1) as nat);
            assert(rest == 2 * half);
            let p = vstd::arithmetic::power2::pow2(log as nat) as int;
            assert((2 * half) * p == half * (2 * p)) by (nonlinear_arith);
            if log + 1 >= usize::BITS {
                vstd::arithmetic::power2::lemma2_to64();
                vstd::arithmetic::power2::lemma2_to64_rest();
                let q = 2 * p;
                assert(half * q >= q) by (nonlinear_arith)
                    requires
                        half >= 1,
                        q >= 0,
                ;
                if usize::BITS == 64 {
                    assert(q == 0x1_0000_0000_0000_0000);
                } else {
                    assert(q == 0x1_0000_0000);
                }
            }
        }
        rest = rest / 2;
        log = log + 1;
    }
    if rest == 1 {
        proof {
            assert(vstd::arithmetic::power::pow(2, log as nat) == n as int) by {
                vstd::arithmetic::power::lemma_pow_positive(2, log as nat);
            }
            vstd::arithmetic::power2::is_pow2_equiv(n as int);
        }
        Some(log)
    } else {
        proof {
            if vstd::arithmetic::power2::is_pow2(n as int) {
                lemma_odd_times_power(rest as nat, log as nat, n as nat);
            }
        }
        None
    }
}

/// An odd factor greater than one divides no power of two.
proof fn lemma_odd_times_power(odd: nat, k: nat, n: nat)
    requires
        odd % 2 == 1,
        odd > 1,
        n == odd * vstd::arithmetic::power2::pow2(k),
    ensures
        !vstd::arithmetic::power2::is_pow2(n as int),
    decreases k,
{
    reveal(vstd::arithmetic::power2::is_pow2);
    if k == 0 {
        vstd::arithmetic::power2::lemma2_to64();
        assert(n == odd);
        assert(!vstd::arithmetic::power2::is_pow2(n as int));
    } else {
        let p = vstd::arithmetic::power2::pow2((k - 1) as nat);
        vstd::arithmetic::power2::lemma_pow2_unfold(k);
        assert(odd * (2 * p) == 2 * (odd * p)) by (nonlinear_arith);
        assert(n == 2 * (odd * p));
        lemma_odd_times_power(odd, (k - 1) as nat, odd * p);
        vstd::arithmetic::power2::lemma_pow2_pos((k - 1) as nat);
        assert(odd * p >= 1) by (nonlinear_arith)
            requires
                odd > 1,
                p > 0,
        ;
    }
}

/// The capacity of a ring and the mask that maps sequences to slots.
#[derive(Clone, Copy)]
pub struct RingBufferMeta {
    index_mask: i64,
    buffer_size: i64,
}

impl RingBufferMeta {
    /// The number of slots.
    pub closed spec fn capacity(self) -> int {
        self.buffer_size as int
    }

    /// The capacity is a power of two and the mask selects the bits below it.
    pub closed spec fn wf(self) -> bool {
        &&& vstd::arithmetic::power2::is_pow2(self.buffer_size as int)
        &&& self.index_mask == self.buffer_size - 1
        &&& self.buffer_size <= usize::MAX
    }

    /// What a ring's capacity has to be: a power of two that a sequence number can hold.
    pub open spec fn valid_size(size: int) -> bool {
        &&& vstd::arithmetic::power2::is_pow2(size)
        &&& size <= i64::MAX
    }

    /// The slot of sequence `seq` in a ring of `capacity` slots.
    pub open spec fn slot_of(seq: int, capacity: int) -> int {
        seq % capacity
    }

    /// A power of two no greater than `i64::MAX` has an exponent below 63.
    pub proof fn lemma_exponent(size: int) -> (k: nat)
        requires
            Self::valid_size(size),
        ensures
            k < 63,
            vstd::arithmetic::power2::pow2(k) == size,
            1 <= size,
            2 * size <= i64::MAX + 1,
    {
        vstd::arithmetic::power2::is_pow2_equiv(size);
        let k = choose|k: nat| vstd::arithmetic::power::pow(2, k) == size;
        vstd::arithmetic::power::lemma_pow_positive(2, k);
        vstd::arithmetic::power2::lemma2_to64_rest();
        if k > 63 {
            vstd::arithmetic::power2::lemma_pow2_strictly_increases(63, k);
        }
        if k < 62 {
            vstd::arithmetic::power2::lemma_pow2_strictly_increases(k, 62);
        }
        k
    }

    /// Slots lie within the ring.
    pub proof fn lemma_slot_bounds(seq: int, capacity: int)
        requires
            capacity >= 1,
        ensures
            0 <= Self::slot_of(seq, capacity) < capacity,
    {
        vstd::arithmetic::div_mod::lemma_mod_bound(seq, capacity);
    }

    /// One lap on, a sequence has the same slot and the next lap number.
    pub proof fn lemma_next_lap(seq: int, capacity: int)
        requires
            capacity >= 1,
        ensures
            Self::slot_of(seq + capacity, capacity) == Self::slot_of(seq, capacity),
            (seq + capacity) / capacity == seq / capacity + 1,
    {
        vstd::arithmetic::div_mod::lemma_fundamental_div_mod(seq, capacity);
        vstd::arithmetic::div_mod::lemma_mod_bound(seq, capacity);
        let q = seq / capacity;
        assert(capacity * (q + 1) == capacity * q + capacity) by (nonlinear_arith);
        assert((q + 1) * capacity == capacity * (q + 1)) by (nonlinear_arith);
        vstd::arithmetic::div_mod::lemma_fundamental_div_mod_converse(
            seq + capacity,
            capacity,
            q + 1,
            seq % capacity,
        );
    }

    /// Two different sequences less than a lap apart have different slots: within one lap no
    /// slot is used twice.
    pub proof fn lemma_slots_distinct(a: int, b: int, capacity: int)
        requires
            a != b,
            -capacity < a - b < capacity,
        ensures
            Self::slot_of(a, capacity) != Self::slot_of(b, capacity),
    {
        vstd::arithmetic::div_mod::lemma_fundamental_div_mod(a, capacity);
        vstd::arithmetic::div_mod::lemma_fundamental_div_mod(b, capacity);
        if Self::slot_of(a, capacity) == Self::slot_of(b, capacity) {
            let d = a / capacity - b / capacity;
            assert(a - b == capacity * d) by (nonlinear_arith)
                requires
                    a == capacity * (a / capacity) + a % capacity,
                    b == capacity * (b / capacity) + b % capacity,
                    a % capacity == b % capacity,
                    d == a / capacity - b / capacity,
            ;
            assert(d == 0) by (nonlinear_arith)
                requires
                    -capacity < capacity * d < capacity,
            ;
        }
    }

    /// What well-formedness tells a caller of the capacity.
    pub proof fn lemma_wf(self)
        requires
            self.wf(),
        ensures
            1 <= self.capacity() <= usize::MAX,
            Self::valid_size(self.capacity()),
            2 * self.capacity() <= i64::MAX + 1,
    {
        Self::lemma_exponent(self.capacity());
    }

    /// The arithmetic of a ring of `buffer_size` slots.
    pub fn new(buffer_size: usize) -> (meta: Self)
        requires
            Self::valid_size(buffer_size as int),
        ensures
            meta.wf(),
            meta.capacity() == buffer_size,
    {
        RingBufferMeta { index_mask: buffer_size as i64 - 1, buffer_size: buffer_size as i64 }
    }

    /// The index of the slot that holds sequence `seq`.
    pub fn index_of_seq(&self, seq: Sequence) -> (index: usize)
        requires
            self.wf(),
        ensures
            index == Self::slot_of(seq@, self.capacity()),
            index < self.capacity(),
    {
        proof {
            self.lemma_wf();
            lemma_mask_is_mod(seq.0, self.index_mask, self.buffer_size as int);
        }
        (seq.value() & self.index_mask) as usize
    }

    /// The number of slots.
    pub fn buffer_size(&self) -> (size: i64)
        ensures
            size == self.capacity(),
    {
        self.buffer_size
    }

    /// How many sequences past `highest_published` fit into the ring once everything up to
    /// `max_consumed` is consumed.
    pub fn available_slots(&self, highest_published: Sequence, max_consumed: Sequence) -> (free: i64)
        requires
            i64::MIN <= highest_published@ - self.capacity() <= i64::MAX,
            i64::MIN <= self.capacity() - (highest_published@ - max_consumed@) <= i64::MAX,
        ensures
            free == self.capacity() - (highest_published@ - max_consumed@),
    {
        let wrap_point: i64 = highest_published.value() - self.buffer_size;
        max_consumed.value() - wrap_point
    }
}

/// A fixed ring of slots, addressed by sequence.
pub struct RingBuffer<T> {
    slots: Vec<T>,
    ring_meta: RingBufferMeta,
}

impl<T> View for RingBuffer<T> {
    type V = Seq<T>;

    /// The value in each slot.
    closed spec fn view(&self) -> Seq<T> {
        self.slots@
    }
}

impl<T> RingBuffer<T> {
    /// There is one slot for each index that the ring's arithmetic yields.
    pub closed spec fn wf(&self) -> bool {
        &&& self.ring_meta.wf()
        &&& self.ring_meta.capacity() == self.slots@.len()
    }

    /// The value that sequence `seq` has in a ring holding `slots`.
    pub open spec fn item(slots: Seq<T>, seq: int) -> T {
        slots[RingBufferMeta::slot_of(seq, slots.len() as int)]
    }

    /// The items for the sequences from `first` to `last`.
    pub open spec fn items(slots: Seq<T>, first: int, last: int) -> Seq<T> {
        if first <= last {
            Seq::new((last - first + 1) as nat, |i: int| Self::item(slots, first + i))
        } else {
            Seq::empty()
        }
    }

    /// The ring after `value` is written for sequence `seq`.
    pub open spec fn with_item(slots: Seq<T>, seq: int, value: T) -> Seq<T> {
        slots.update(RingBufferMeta::slot_of(seq, slots.len() as int), value)
    }

    /// The ring after `items` are written for the sequences from `start` on.
    pub open spec fn with_items(slots: Seq<T>, start: int, items: Seq<T>) -> Seq<T>
        decreases items.len(),
    {
        if items.len() == 0 {
            slots
        } else {
            Self::with_item(
                Self::with_items(slots, start, items.drop_last()),
                start + items.len() - 1,
                items.last(),
            )
        }
    }

    /// What is written for up to a lap of sequences is what a read for them finds, and the
    /// rest of the lap is untouched.
    pub proof fn lemma_with_items(slots: Seq<T>, start: int, items: Seq<T>)
        requires
            1 <= slots.len(),
            items.len() <= slots.len(),
        ensures
            Self::with_items(slots, start, items).len() == slots.len(),
            forall|seq: int|
                start <= seq < start + items.len() ==> #[trigger] Self::item(
                    Self::with_items(slots, start, items),
                    seq,
                ) == items[seq - start],
            forall|seq: int|
                start + items.len() <= seq < start + slots.len() ==> #[trigger] Self::item(
                    Self::with_items(slots, start, items),
                    seq,
                ) == Self::item(slots, seq),
            forall|seq: int|
                start + items.len() - slots.len() <= seq < start ==> #[trigger] Self::item(
                    Self::with_items(slots, start, items),
                    seq,
                ) == Self::item(slots, seq),
            Self::items(Self::with_items(slots, start, items), start, start + items.len() - 1)
                == items,
        decreases items.len(),
    {
        let after = Self::with_items(slots, start, items);
        if items.len() > 0 {
            let before = Self::with_items(slots, start, items.drop_last());
            Self::lemma_with_items(slots, start, items.drop_last());
            let last = start + items.len() - 1;
            assert forall|seq: int| start <= seq < start + items.len() implies #[trigger] Self::item(
                after,
                seq,
            ) == items[seq - start] by {
                Self::lemma_with_item(before, last, items.last(), seq);
                if seq < last {
                    assert(Self::item(before, seq) == items.drop_last()[seq - start]);
                }
            }
            assert forall|seq: int|
                start + items.len() <= seq < start + slots.len() implies #[trigger] Self::item(
                after,
                seq,
            ) == Self::item(slots, seq) by {
                Self::lemma_with_item(before, last, items.last(), seq);
                assert(Self::item(before, seq) == Self::item(slots, seq));
            }
            Self::lemma_with_item(before, last, items.last(), last);
        }
        assert forall|seq: int|
            start + items.len() - slots.len() <= seq < start implies #[trigger] Self::item(
            after,
            seq,
        ) == Self::item(slots, seq) by {
            RingBufferMeta::lemma_next_lap(seq, slots.len() as int);
            assert(Self::item(after, seq + slots.len()) == Self::item(slots, seq + slots.len()));
        }
        assert(Self::items(after, start, start + items.len() - 1) =~= items);
    }

    /// What well-formedness tells a caller of the number of slots.
    pub proof fn lemma_wf(&self)
        requires
            self.wf(),
        ensures
            1 <= self@.len() <= usize::MAX,
            RingBufferMeta::valid_size(self@.len() as int),
    {
        self.ring_meta.lemma_wf();
    }

    /// A ring of `capacity` slots that hold `T::default()`.
    pub fn init_with_default(capacity: usize) -> (ring: Self) where T: Default
        requires
            RingBufferMeta::valid_size(capacity as int),
            call_requires(T::default, ()),
        ensures
            ring.wf(),
            ring@.len() == capacity,
            forall|i: int| 0 <= i < capacity ==> call_ensures(T::default, (), #[trigger] ring@[i]),
    {
        let fill = |_index: usize| -> (value: T)
            requires
                call_requires(T::default, ())
            ensures
                call_ensures(T::default, (), value)
            { T::default() };
        Self::init_with(capacity, fill)
    }

    /// A ring of `capacity` slots, slot `i` holding `initializer(i)`.
    pub fn init_with<F>(capacity: usize, initializer: F) -> (ring: Self) where
        F: Copy + FnOnce(usize) -> T,

        requires
            RingBufferMeta::valid_size(capacity as int),
            forall|i: usize| i < capacity ==> call_requires(initializer, (i,)),
        ensures
            ring.wf(),
            ring@.len() == capacity,
            forall|i: int|
                0 <= i < capacity ==> call_ensures(
                    initializer,
                    (i as usize,),
                    #[trigger] ring@[i],
                ),
    {
        let ring_meta = RingBufferMeta::new(capacity);
        let mut slots: Vec<T> = Vec::with_capacity(capacity);
        let mut index: usize = 0;
        while index < capacity
            invariant
                index == slots@.len(),
                index <= capacity,
                forall|i: usize| i < capacity ==> call_requires(initializer, (i,)),
                forall|i: int|
                    0 <= i < index ==> call_ensures(
                        initializer,
                        (i as usize,),
                        #[trigger] slots@[i],
                    ),
            decreases capacity - index,
        {
            slots.push(initializer(index));
            index = index + 1;
        }
        RingBuffer { slots, ring_meta }
    }

    /// The number of slots.
    pub fn capacity(&self) -> (capacity: i64)
        requires
            self.wf(),
        ensures
            capacity == self@.len(),
    {
        self.ring_meta.buffer_size()
    }

    /// The index arithmetic of this ring.
    pub fn meta(&self) -> (meta: RingBufferMeta)
        requires
            self.wf(),
        ensures
            meta.wf(),
            meta.capacity() == self@.len(),
    {
        self.ring_meta
    }

    /// Applies `modifier` to the slot of sequence `seq`; every other slot keeps its value.
    pub fn modify_at<F>(&mut self, seq: Sequence, modifier: F) where F: FnOnce(&mut T)
        requires
            old(self).wf(),
            forall|slot: &mut T|
                *slot == Self::item(old(self)@, seq@) ==> call_requires(modifier, (slot,)),
        ensures
            final(self).wf(),
            final(self)@.len() == old(self)@.len(),
            exists|slot: &mut T|
                {
                    &&& *slot == Self::item(old(self)@, seq@)
                    &&& final(self)@ == Self::with_item(old(self)@, seq@, *final(slot))
                    &&& #[trigger] call_ensures(modifier, (slot,), ())
                },
    {
        let index = self.ring_meta.index_of_seq(seq);
        modifier(&mut self.slots[index]);
    }

    /// The value in the slot of sequence `seq`.
    pub fn get_ref_at(&self, seq: Sequence) -> (item: &T)
        requires
            self.wf(),
        ensures
            *item == Self::item(self@, seq@),
    {
        let index = self.ring_meta.index_of_seq(seq);
        &self.slots[index]
    }

    /// Writes `item` into the slot of sequence `seq`.
    pub fn write_at(&mut self, seq: Sequence, item: T)
        requires
            old(self).wf(),
        ensures
            final(self).wf(),
            final(self)@.len() == old(self)@.len(),
            final(self)@ == Self::with_item(old(self)@, seq@, item),
    {
        let store = |slot: &mut T|
            ensures
                (*final(slot) == item)
            {
                *slot = item;
            };
        self.modify_at(seq, store);
    }

    /// Recycles the slot of sequence `seq`.
    pub fn recycle_at<S: SlotRecycler<T>>(&mut self, seq: Sequence, recycler: &S)
        requires
            old(self).wf(),
            recycler.can_recycle(Self::item(old(self)@, seq@)),
        ensures
            final(self).wf(),
            final(self)@.len() == old(self)@.len(),
            final(self)@ == Self::with_item(old(self)@, seq@, Self::item(final(self)@, seq@)),
            recycler.recycled(Self::item(old(self)@, seq@), Self::item(final(self)@, seq@)),
            exists|slot: &mut T|
                {
                    &&& *slot == Self::item(old(self)@, seq@)
                    &&& *final(slot) == Self::item(final(self)@, seq@)
                    &&& call_ensures(S::recycle, (recycler, slot), ())
                },
    {
        let recycle = |slot: &mut T|
            requires
                recycler.can_recycle(*slot)
            ensures
                recycler.recycled(*old(slot), *final(slot)),
                (exists|inner: &mut T|
                    *inner == *old(slot) && *final(inner) == *final(slot) && call_ensures(
                        S::recycle,
                        (recycler, inner),
                        (),
                    ))
            {
                recycler.recycle(slot);
            };
        proof {
            self.lemma_wf();
            RingBufferMeta::lemma_slot_bounds(seq@, self@.len() as int);
        }
        self.modify_at(seq, recycle);
    }

    /// A write for one sequence is what a read for that sequence finds, and it touches no
    /// other sequence less than a lap away.
    pub proof fn lemma_with_item(slots: Seq<T>, seq: int, value: T, other: int)
        requires
            slots.len() >= 1,
            -slots.len() < seq - other < slots.len(),
        ensures
            Self::with_item(slots, seq, value).len() == slots.len(),
            Self::item(Self::with_item(slots, seq, value), other) == if seq == other {
                value
            } else {
                Self::item(slots, other)
            },
    {
        RingBufferMeta::lemma_slot_bounds(seq, slots.len() as int);
        RingBufferMeta::lemma_slot_bounds(other, slots.len() as int);
        if seq != other {
            RingBufferMeta::lemma_slots_distinct(seq, other, slots.len() as int);
        }
    }
}

/// Masking with one less than a power of two is the remainder by that power, for negative
/// numbers too.
proof fn lemma_mask_is_mod(x: i64, mask: i64, size: int)
    requires
        RingBufferMeta::valid_size(size),
        mask == size - 1,
    ensures
        0 <= (x & mask) <= mask,
        (x & mask) == x as int % size,
{
    let k = RingBufferMeta::lemma_exponent(size);
    let ux = x as u64;
    let um = mask as u64;
    assert((x & mask) as u64 == (x as u64) & (mask as u64)) by (bit_vector);
    assert(0 <= (x & mask) <= mask) by (bit_vector)
        requires
            mask >= 0,
    ;
    assert(um == vstd::bits::low_bits_mask(k));
    vstd::bits::lemma_u64_low_bits_mask_is_mod(ux, k);
    assert(x < 0 ==> (x as u64) == x + 0x1_0000_0000_0000_0000) by (bit_vector);
    assert((x & mask) as int == ux as int % size);
    if x < 0 {
        let q = vstd::arithmetic::power2::pow2((64 - k) as nat) as int;
        vstd::arithmetic::power2::lemma_pow2_adds(k, (64 - k) as nat);
        vstd::arithmetic::power2::lemma2_to64();
        assert(size * q == 0x1_0000_0000_0000_0000);
        vstd::arithmetic::div_mod::lemma_mod_multiples_vanish(q, x as int, size);
    }
}

} // verus!
