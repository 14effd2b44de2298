//! Sequence numbers: the positions that endpoints claim and commit.

use vstd::prelude::*;

verus! {

/// A position in the stream of slots that passes through the ring.
///
/// Sequences start at `0`; [`Sequence::init`] stands before the first one.
#[derive(Debug, Clone, Copy, PartialEq, Eq, PartialOrd, Ord, Structural)]
pub struct Sequence(pub i64);

impl View for Sequence {
    type V = int;

    open spec fn view(&self) -> int {
        self.0 as int
    }
}

impl Sequence {
    /// The sequence numbered `value`.
    pub fn new(value: i64) -> (seq: Self)
        ensures
            seq == Sequence(value),
    {
        Sequence(value)
    }

    /// The position before the first sequence.
    pub fn init() -> (seq: Self)
        ensures
            seq@ == -1,
    {
        Sequence(-1)
    }

    /// The sentinel of an endpoint that has left, or of a shutdown that has not happened.
    pub fn shutdown_open() -> (seq: Self)
        ensures
            seq@ == i64::MIN,
    {
        Sequence(i64::MIN)
    }

    /// The number of this sequence.
    pub fn value(self) -> (value: i64)
        ensures
            value == self.0,
    {
        self.0
    }

    /// The number in decimal notation.
    pub fn to_text(&self) -> (text: String)
        ensures
            vstd::string::to_string_from_display_ensures::<i64>(&self.0, text),
    {
        self.0.to_string()
    }

    /// Whether this is the sentinel [`Sequence::shutdown_open`].
    pub fn is_shutdown_open(self) -> (open: bool)
        ensures
            open == (self.0 == i64::MIN),
    {
        self.0 == i64::MIN
    }

    /// Whether this is the position before the first sequence.
    pub fn is_init(self) -> (init: bool)
        ensures
            init == (self.0 == -1),
    {
        self.0 == -1
    }
}

impl core::ops::Add<i64> for Sequence {
    type Output = Sequence;

    fn add(self, rhs: i64) -> (sum: Sequence) {
        Sequence(self.0 + rhs)
    }
}

impl vstd::std_specs::ops::AddSpecImpl<i64> for Sequence {
    open spec fn obeys_add_spec() -> bool {
        true
    }

    open spec fn add_req(self, rhs: i64) -> bool {
        i64::MIN <= self.0 + rhs <= i64::MAX
    }

    open spec fn add_spec(self, rhs: i64) -> Sequence {
        Sequence((self.0 + rhs) as i64)
    }
}

impl core::ops::Sub<i64> for Sequence {
    type Output = Sequence;

    fn sub(self, rhs: i64) -> (difference: Sequence) {
        Sequence(self.0 - rhs)
    }
}

impl vstd::std_specs::ops::SubSpecImpl<i64> for Sequence {
    open spec fn obeys_sub_spec() -> bool {
        true
    }

    open spec fn sub_req(self, rhs: i64) -> bool {
        i64::MIN <= self.0 - rhs <= i64::MAX
    }

    open spec fn sub_spec(self, rhs: i64) -> Sequence {
        Sequence((self.0 - rhs) as i64)
    }
}

impl core::ops::Sub<Sequence> for Sequence {
    type Output = Sequence;

    fn sub(self, rhs: Sequence) -> (difference: Sequence) {
        Sequence(self.0 - rhs.0)
    }
}

impl vstd::std_specs::ops::SubSpecImpl<Sequence> for Sequence {
    open spec fn obeys_sub_spec() -> bool {
        true
    }

    open spec fn sub_req(self, rhs: Sequence) -> bool {
        i64::MIN <= self.0 - rhs.0 <= i64::MAX
    }

    open spec fn sub_spec(self, rhs: Sequence) -> Sequence {
        Sequence((self.0 - rhs.0) as i64)
    }
}

impl core::ops::AddAssign<i64> for Sequence {
    fn add_assign(&mut self, rhs: i64)
        requires
            i64::MIN <= old(self).0 + rhs <= i64::MAX,
        ensures
            final(self)@ == old(self)@ + rhs,
    {
        self.0 += rhs;
    }
}

impl PartialEq<i64> for Sequence {
    fn eq(&self, other: &i64) -> (equal: bool) {
        self.0 == *other
    }
}

impl vstd::std_specs::cmp::PartialEqSpecImpl<i64> for Sequence {
    open spec fn obeys_eq_spec() -> bool {
        true
    }

    open spec fn eq_spec(&self, other: &i64) -> bool {
        self.0 == *other
    }
}

impl PartialOrd<i64> for Sequence {
    fn partial_cmp(&self, other: &i64) -> (ordering: Option<core::cmp::Ordering>) {
        self.0.partial_cmp(other)
    }
}

impl vstd::std_specs::cmp::PartialOrdSpecImpl<i64> for Sequence {
    open spec fn obeys_partial_cmp_spec() -> bool {
        true
    }

    open spec fn partial_cmp_spec(&self, other: &i64) -> Option<core::cmp::Ordering> {
        if self.0 < *other {
            Some(core::cmp::Ordering::Less)
        } else if self.0 > *other {
            Some(core::cmp::Ordering::Greater)
        } else {
            Some(core::cmp::Ordering::Equal)
        }
    }
}

impl From<i64> for Sequence {
    fn from(value: i64) -> (seq: Self) {
        Sequence::new(value)
    }
}

impl vstd::std_specs::convert::FromSpecImpl<i64> for Sequence {
    open spec fn obeys_from_spec() -> bool {
        true
    }

    open spec fn from_spec(value: i64) -> Self {
        Sequence(value)
    }
}

impl From<Sequence> for i64 {
    fn from(seq: Sequence) -> (value: Self) {
        seq.value()
    }
}

impl vstd::std_specs::convert::FromSpecImpl<Sequence> for i64 {
    open spec fn obeys_from_spec() -> bool {
        true
    }

    open spec fn from_spec(seq: Sequence) -> Self {
        seq.0
    }
}

} // verus!
