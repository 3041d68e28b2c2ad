//! The liveness mask handed to batch cleanup: a `hibitset::BitSet`, which the
//! verifier cannot look into. What it holds is named here, and the one query
//! the storage makes of it is given a contract that is believed, not proved.

use hibitset::BitSet;
use vstd::prelude::*;

verus! {

#[verifier::external_type_specification]
#[verifier::external_body]
pub struct ExBitSet(hibitset::BitSet);

/// The indices that a bit set holds.
pub uninterp spec fn members(set: BitSet) -> Set<u32>;

/// Calls `hibitset::BitSet::contains`.
///
/// Believed of it: the answer is `true` exactly when `id` is one of the
/// indices the set holds. The call reads the set and never panics: an `id`
/// past the words the set has allocated is answered `false`.
#[verifier::external_body]
pub(crate) fn mask_contains(set: &BitSet, id: u32) -> (found: bool)
    ensures
        found == members(*set).contains(id),
{
    set.contains(id)
}

} // verus!
