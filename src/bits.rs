//! The bit set that backs the adjacency matrix and the visited sets, as seen by
//! the verifier: a set of bit positions and a length.
use fixedbitset::FixedBitSet;
use vstd::prelude::*;

verus! {

#[verifier::external_type_specification]
#[verifier::external_body]
pub struct ExFixedBitSet(FixedBitSet);

/// The positions of the bits that are set.
pub uninterp spec fn bits_of(b: FixedBitSet) -> Set<nat>;

/// The number of bits the set was made with.
pub uninterp spec fn bit_len(b: FixedBitSet) -> nat;

/// Relies on `FixedBitSet::with_capacity`: `n` bits, all clear.
#[verifier::external_body]
pub(crate) fn bitset_with_capacity(n: usize) -> (r: FixedBitSet)
    ensures
        bits_of(r) == Set::<nat>::empty(),
        bit_len(r) == n,
{
    FixedBitSet::with_capacity(n)
}

/// Relies on `FixedBitSet::insert`: sets bit `i`; it panics unless `i` is below
/// the length.
#[verifier::external_body]
pub(crate) fn bitset_insert(b: &mut FixedBitSet, i: usize)
    requires
        i < bit_len(*old(b)),
    ensures
        bits_of(*final(b)) == bits_of(*old(b)).insert(i as nat),
        bit_len(*final(b)) == bit_len(*old(b)),
{
    b.insert(i)
}

/// Relies on `FixedBitSet::contains`: whether bit `i` is set (`false` past the
/// end).
#[verifier::external_body]
pub(crate) fn bitset_contains(b: &FixedBitSet, i: usize) -> (r: bool)
    ensures
        r == bits_of(*b).contains(i as nat),
{
    b.contains(i)
}

/// Relies on `FixedBitSet::clone`: the same bits and length.
#[verifier::external_body]
pub(crate) fn bitset_clone(b: &FixedBitSet) -> (r: FixedBitSet)
    ensures
        bits_of(r) == bits_of(*b),
        bit_len(r) == bit_len(*b),
{
    b.clone()
}

} // verus!
