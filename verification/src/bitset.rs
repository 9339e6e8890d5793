//! Trusted boundary around `fixedbitset::FixedBitSet`, the packed bit
//! vector that backs the grid. Each wrapper states, over `bits_of`, what
//! the crate's source shows of the one method it calls.
use vstd::prelude::*;

verus! {

#[verifier::external_type_specification]
#[verifier::external_body]
pub struct ExFixedBitSet(fixedbitset::FixedBitSet);

/// The bits a `FixedBitSet` holds, in index order; its length is the
/// set's capacity in bits.
pub uninterp spec fn bits_of(s: fixedbitset::FixedBitSet) -> Seq<bool>;

/// Relies on FixedBitSet::with_capacity: a fresh set of `bits` bits,
/// all initially clear.
#[verifier::external_body]
pub(crate) fn bits_with_capacity(bits: usize) -> (r: fixedbitset::FixedBitSet)
    ensures
        bits_of(r) == Seq::new(bits as nat, |i: int| false),
{
    fixedbitset::FixedBitSet::with_capacity(bits)
}

/// Relies on FixedBitSet::contains: the bit's value, and false for a bit
/// beyond the capacity.
#[verifier::external_body]
pub(crate) fn bits_contains(s: &fixedbitset::FixedBitSet, bit: usize) -> (r: bool)
    ensures
        r == (bit < bits_of(*s).len() && bits_of(*s)[bit as int]),
{
    s.contains(bit)
}

/// Relies on FixedBitSet::set: writes one bit; panics only when `bit` is
/// out of bounds, which the precondition rules out.
#[verifier::external_body]
pub(crate) fn bits_set(s: &mut fixedbitset::FixedBitSet, bit: usize, enabled: bool)
    requires
        bit < bits_of(*old(s)).len(),
    ensures
        bits_of(*final(s)) == bits_of(*old(s)).update(bit as int, enabled),
{
    s.set(bit, enabled)
}

/// Relies on FixedBitSet::clear: disables every bit and keeps the
/// capacity.
#[verifier::external_body]
pub(crate) fn bits_clear(s: &mut fixedbitset::FixedBitSet)
    ensures
        bits_of(*final(s)) == Seq::new(bits_of(*old(s)).len(), |i: int| false),
{
    s.clear()
}

/// Relies on FixedBitSet's Clone impl: the copy holds the same blocks and
/// length, so the same bits.
#[verifier::external_body]
pub(crate) fn bits_clone(s: &fixedbitset::FixedBitSet) -> (r: fixedbitset::FixedBitSet)
    ensures
        bits_of(r) == bits_of(*s),
{
    s.clone()
}

} // verus!
