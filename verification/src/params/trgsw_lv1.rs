use vstd::prelude::*;

verus! {

/// Ring degree: polynomials live in `T[X] / (X^N + 1)`.
pub const N: usize = 1024;

/// `N == 1 << NBIT`.
pub const NBIT: usize = 10;

/// Bits per gadget digit.
pub const BGBIT: u32 = 6;

/// Gadget base, `1 << BGBIT`.
pub const BG: u32 = 64;

/// Number of gadget digits per torus element.
pub const L: usize = 3;

/// Bits per key-switching digit.
pub const BASEBIT: usize = 2;

/// Number of key-switching digits per torus element.
pub const IKS_T: usize = 8;

} // verus!
