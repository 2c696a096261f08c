//! Levels of detail.

use vstd::prelude::*;

verus! {

/// How many levels of detail a block of terrain can be loaded at.
pub const LOD_COUNT: u32 = 4;

/// The index of a level of detail: 0 is the finest, and every further
/// level samples the same block more sparsely.
#[derive(Debug, PartialEq, Eq, PartialOrd, Ord, Hash, Copy, Clone, Structural)]
pub struct LODIndex(pub u32);

impl LODIndex {
    /// Whether this is one of the levels that blocks are loaded at.
    pub open spec fn valid(self) -> bool {
        self.0 < LOD_COUNT
    }

    /// Computes [`LODIndex::valid`].
    pub fn is_valid(&self) -> (r: bool)
        ensures
            r == self.valid(),
    {
        self.0 < LOD_COUNT
    }
}

} // verus!
