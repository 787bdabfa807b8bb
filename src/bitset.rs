//! The bit sets that hold grid cells and enumeration masks, from `fixedbitset`.
use fixedbitset::FixedBitSet;
use vstd::prelude::*;

verus! {

#[verifier::external_type_specification]
#[verifier::external_body]
pub struct ExFixedBitSet(FixedBitSet);

/// The bits of a set, one per index below its length.
pub uninterp spec fn bits_of(s: FixedBitSet) -> Seq<bool>;

/// Whether bit `i` of `s` is set; bits at or past the length are clear.
pub open spec fn bit(s: FixedBitSet, i: int) -> bool {
    0 <= i < bits_of(s).len() && bits_of(s)[i]
}

/// Relies on `FixedBitSet::with_capacity`: `bits` bits, all clear.
#[verifier::external_body]
pub(crate) fn bitset_with_capacity(bits: usize) -> (r: FixedBitSet)
    ensures
        bits_of(r) == Seq::new(bits as nat, |i: int| false),
{
    FixedBitSet::with_capacity(bits)
}

/// Relies on `FixedBitSet::len`: the number of bits, set or clear.
#[verifier::external_body]
pub(crate) fn bitset_len(s: &FixedBitSet) -> (r: usize)
    ensures
        r == bits_of(*s).len(),
{
    s.len()
}

/// Relies on `FixedBitSet::contains`: the bit at `i`, clear past the length.
#[verifier::external_body]
pub(crate) fn bitset_contains(s: &FixedBitSet, i: usize) -> (r: bool)
    ensures
        r == bit(*s, i as int),
{
    s.contains(i)
}

/// Relies on `FixedBitSet::put`: sets the bit at `i` (which must be below the
/// length, else it panics) and returns its previous value.
#[verifier::external_body]
pub(crate) fn bitset_put(s: &mut FixedBitSet, i: usize) -> (r: bool)
    requires
        i < bits_of(*old(s)).len(),
    ensures
        r == bits_of(*old(s))[i as int],
        bits_of(*final(s)) == bits_of(*old(s)).update(i as int, true),
{
    s.put(i)
}

/// Relies on `FixedBitSet::set_range`: sets every bit in `start..end` (which
/// must lie within the length, else it panics) to `enabled`.
#[verifier::external_body]
pub(crate) fn bitset_set_range(s: &mut FixedBitSet, start: usize, end: usize, enabled: bool)
    requires
        start <= end <= bits_of(*old(s)).len(),
    ensures
        bits_of(*final(s)) == Seq::new(
            bits_of(*old(s)).len(),
            |i: int| if start <= i < end { enabled } else { bits_of(*old(s))[i] },
        ),
{
    s.set_range(start..end, enabled)
}

} // verus!
