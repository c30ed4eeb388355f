use crate::params;
use vstd::prelude::*;

verus! {

/// Number of torus elements of a level-0 TLWE ciphertext: the mask and `b`.
pub const LV0_LEN: usize = params::tlwe_lv0::N + 1;

/// Number of torus elements of a level-1 TLWE ciphertext: the mask and `b`.
pub const LV1_LEN: usize = params::tlwe_lv1::N + 1;

/// A level-0 TLWE ciphertext: mask `p[0..N]` followed by the body `p[N]`.
#[derive(Debug, Clone, Copy)]
pub struct TLWELv0 {
    pub p: [u32; LV0_LEN],
}

/// A level-1 TLWE ciphertext: mask `p[0..N]` followed by the body `p[N]`.
#[derive(Debug, Clone, Copy)]
pub struct TLWELv1 {
    pub p: [u32; LV1_LEN],
}

impl TLWELv0 {
    /// The all-zero ciphertext.
    pub fn new() -> (r: TLWELv0)
        ensures
            forall|i: int| 0 <= i < LV0_LEN ==> r.p[i] == 0,
    {
        TLWELv0 { p: [0u32; LV0_LEN] }
    }

    /// The body of the ciphertext.
    pub fn b(&self) -> (r: u32)
        ensures
            r == self.p[params::tlwe_lv0::N as int],
    {
        self.p[params::tlwe_lv0::N]
    }
}

impl TLWELv1 {
    /// The all-zero ciphertext.
    pub fn new() -> (r: TLWELv1)
        ensures
            forall|i: int| 0 <= i < LV1_LEN ==> r.p[i] == 0,
    {
        TLWELv1 { p: [0u32; LV1_LEN] }
    }

    /// The body of the ciphertext.
    pub fn b(&self) -> (r: u32)
        ensures
            r == self.p[params::tlwe_lv1::N as int],
    {
        self.p[params::tlwe_lv1::N]
    }
}

} // verus!
