use vstd::prelude::*;

verus! {

/// Dimension of a level-1 TLWE mask (equal to the ring degree of level 1).
pub const N: usize = 1024;

} // verus!
