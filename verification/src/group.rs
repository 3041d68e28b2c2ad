//! The unit of the backing table: four redirect entries and one payload slot.

use vstd::prelude::*;

verus! {

/// How many sparse indices share one group of the table.
pub const SPARSE_RATIO: usize = 4;

/// One element of the backing table.
///
/// As indirection metadata it holds the redirect entries of the four sparse
/// indices whose home group it is. As a storage cell it holds at most one
/// payload, which may belong to any sparse index; `owner` records which one
/// and is meaningful only while `data` is present.
pub struct InterleavedGroup<T> {
    pub redirects: [usize; SPARSE_RATIO],
    pub owner: usize,
    pub data: Option<T>,
}

impl<T> InterleavedGroup<T> {
    /// A group as the table creates it: every redirect zero, no payload.
    pub open spec fn is_blank(&self) -> bool {
        &&& self.data is None
        &&& self.owner == 0
        &&& forall|sub: int| 0 <= sub < SPARSE_RATIO ==> self.redirects@[sub] == 0
    }

    /// A blank group.
    pub fn blank() -> (g: Self)
        ensures
            g.is_blank(),
    {
        Self { redirects: [0; SPARSE_RATIO], owner: 0, data: None }
    }
}

} // verus!
