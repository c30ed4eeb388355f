use vstd::prelude::*;

verus! {

/// Dimension of a level-0 TLWE mask.
pub const N: usize = 635;

} // verus!
