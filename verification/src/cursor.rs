//! A sequence cursor on a cache line of its own.

use vstd::prelude::*;

use crossbeam_utils::CachePadded;

use crate::sequence::Sequence;

verus! {

/// `crossbeam_utils::CachePadded`, a value padded to the length of a cache line.
#[verifier::external_type_specification]
#[verifier::external_body]
#[verifier::reject_recursive_types(T)]
pub struct ExCachePadded<T>(CachePadded<T>);

/// The number inside a padded cell.
pub uninterp spec fn padded_value(cell: CachePadded<i64>) -> i64;

/// `CachePadded::new`: the cell holds the value it was made with.
#[verifier::external_body]
fn pad_value(value: i64) -> (cell: CachePadded<i64>)
    ensures
        padded_value(cell) == value,
{
    CachePadded::new(value)
}

/// `CachePadded::deref`: a reference to the padded value, which is read here.
#[verifier::external_body]
fn read_padded(cell: &CachePadded<i64>) -> (value: i64)
    ensures
        value == padded_value(*cell),
{
    **cell
}

/// `CachePadded::deref_mut`: a reference to the padded value, which is replaced here.
#[verifier::external_body]
fn write_padded(cell: &mut CachePadded<i64>, value: i64)
    ensures
        padded_value(*final(cell)) == value,
{
    **cell = value;
}

/// A position that one side of a channel advances and the other side reads.
pub struct Cursor(CachePadded<i64>);

impl View for Cursor {
    type V = int;

    /// The number that the cursor holds.
    closed spec fn view(&self) -> int {
        padded_value(self.0) as int
    }
}

impl Cursor {
    /// A cursor at `value`.
    pub fn new(value: Sequence) -> (cursor: Self)
        ensures
            cursor@ == value@,
    {
        Cursor(pad_value(value.value()))
    }

    /// Moves the cursor to `value`.
    pub fn store(&mut self, value: i64)
        ensures
            final(self)@ == value,
    {
        write_padded(&mut self.0, value);
    }

    /// Where the cursor stands.
    pub fn load(&self) -> (value: i64)
        ensures
            value == self@,
    {
        read_padded(&self.0)
    }

    /// Moves the cursor to `new` where it stands at `current`.
    ///
    /// The exchange fails only because the cursor stands elsewhere, never spuriously: a close
    /// relies on a single attempt. Either way the result holds the number found.
    pub fn compare_exchange(&mut self, current: i64, new: i64) -> (exchanged: Result<i64, i64>)
        ensures
            old(self)@ == current ==> {
                &&& exchanged == Ok::<i64, i64>(current)
                &&& final(self)@ == new
            },
            old(self)@ != current ==> {
                &&& exchanged == Err::<i64, i64>(old(self)@ as i64)
                &&& final(self)@ == old(self)@
            },
    {
        let found = self.load();
        if found == current {
            self.store(new);
            Ok(found)
        } else {
            Err(found)
        }
    }
}

impl Default for Cursor {
    /// A cursor before the first sequence.
    fn default() -> (cursor: Self)
        ensures
            cursor@ == -1,
    {
        Cursor::new(Sequence::init())
    }
}

} // verus!
