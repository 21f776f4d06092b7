//! What the library relies on of `fixedbitset::FixedBitSet`.

use fixedbitset::FixedBitSet;
use vstd::prelude::*;

verus! {

/// A set of bits of a fixed length.
#[verifier::external_type_specification]
#[verifier::external_body]
pub struct ExFixedBitSet(FixedBitSet);

/// The bits of a set from bit 0 up to the set's length, in order: `true` for
/// a bit that is enabled.
pub uninterp spec fn bit_seq(set: FixedBitSet) -> Seq<bool>;

/// `FixedBitSet::with_capacity` makes a set of `bits` bits, all disabled.
pub assume_specification[ FixedBitSet::with_capacity ](bits: usize) -> (set: FixedBitSet)
    ensures
        bit_seq(set) == Seq::new(bits as nat, |i: int| false),
;

/// `FixedBitSet::insert` enables `bit` and leaves the other bits as they
/// are. It panics on a bit beyond the set's length.
pub assume_specification[ FixedBitSet::insert ](set: &mut FixedBitSet, bit: usize)
    requires
        bit < bit_seq(*old(set)).len(),
    ensures
        bit_seq(*final(set)) == bit_seq(*old(set)).update(bit as int, true),
;

/// `FixedBitSet::set` gives `bit` the value `enabled` and leaves the other
/// bits as they are. It panics on a bit beyond the set's length.
pub assume_specification[ FixedBitSet::set ](set: &mut FixedBitSet, bit: usize, enabled: bool)
    requires
        bit < bit_seq(*old(set)).len(),
    ensures
        bit_seq(*final(set)) == bit_seq(*old(set)).update(bit as int, enabled),
;

/// `FixedBitSet::contains` tells whether `bit` is enabled; a bit beyond the
/// set's length is not.
pub assume_specification[ FixedBitSet::contains ](set: &FixedBitSet, bit: usize) -> (enabled: bool)
    ensures
        enabled == (bit < bit_seq(*set).len() && bit_seq(*set)[bit as int]),
;

/// `FixedBitSet::minimum` looks for the lowest bit that is set in the blocks
/// of the set. It does not look at the set's length, so the bit that it
/// finds may lie beyond it. No bit of the set below the one found is enabled;
/// where the bit found is a bit of the set, it is enabled; and where nothing
/// is found, no bit of the set is enabled.
pub assume_specification[ FixedBitSet::minimum ](set: &FixedBitSet) -> (lowest: Option<usize>)
    ensures
        match lowest {
            Some(bit) => (bit < bit_seq(*set).len() ==> bit_seq(*set)[bit as int]) && forall|i: int|
                0 <= i < bit && i < bit_seq(*set).len() ==> !#[trigger] bit_seq(*set)[i],
            None => forall|i: int| 0 <= i < bit_seq(*set).len() ==> !#[trigger] bit_seq(*set)[i],
        },
;

/// The lowest enabled bit of `set`, if there is one.
pub fn lowest_enabled(set: &FixedBitSet) -> (lowest: Option<usize>)
    ensures
        match lowest {
            Some(bit) => bit < bit_seq(*set).len() && bit_seq(*set)[bit as int] && forall|i: int|
                0 <= i < bit ==> !#[trigger] bit_seq(*set)[i],
            None => forall|i: int| 0 <= i < bit_seq(*set).len() ==> !#[trigger] bit_seq(*set)[i],
        },
{
    match set.minimum() {
        Some(bit) => if set.contains(bit) {
            Some(bit)
        } else {
            None
        },
        None => None,
    }
}

} // verus!
