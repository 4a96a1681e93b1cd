//! The set of selected row indices: bit_set's `BitSet`.
use bit_set::BitSet;
use vstd::prelude::*;

verus! {

/// A set of row indices, held in a `BitSet`. Verus cannot declare `BitSet`
/// itself (its parameter is bound by bit_set's own `BitBlock` trait), so the
/// set sits in a field that only the functions below touch.
#[verifier::external_body]
pub struct RowSet {
    bits: BitSet,
}

/// The row indices that a row set holds.
pub uninterp spec fn members(b: RowSet) -> Set<int>;

/// Relies on `BitSet::new`: the set is empty.
#[verifier::external_body]
pub(crate) fn rowset_new() -> (r: RowSet)
    ensures
        members(r) == Set::<int>::empty(),
{
    RowSet { bits: BitSet::new() }
}

/// Relies on `BitSet::insert`: the value is a member afterwards, and the
/// other members stay. The bit vector grows to `value + 1` bits, so the
/// value must leave room for that.
#[verifier::external_body]
pub(crate) fn rowset_insert(b: &mut RowSet, value: usize)
    requires
        value < usize::MAX,
    ensures
        members(*final(b)) == members(*old(b)).insert(value as int),
{
    b.bits.insert(value);
}

/// Relies on `BitSet::remove`: the value is no member afterwards, and the
/// other members stay.
#[verifier::external_body]
pub(crate) fn rowset_remove(b: &mut RowSet, value: usize)
    ensures
        members(*final(b)) == members(*old(b)).remove(value as int),
{
    b.bits.remove(value);
}

/// Relies on `BitSet::contains`: whether the value is a member.
#[verifier::external_body]
pub(crate) fn rowset_contains(b: &RowSet, value: usize) -> (r: bool)
    ensures
        r == members(*b).contains(value as int),
{
    b.bits.contains(value)
}

} // verus!
