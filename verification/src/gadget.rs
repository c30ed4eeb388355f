//! Gadget decomposition of torus elements and what recomposition gives back.
use crate::params::trgsw_lv1::{BGBIT, L};
use crate::torus::{lemma_torus_id, lemma_torus_shift, modulus, torus};
use crate::trlwe::TRLWELv1;
use vstd::arithmetic::power2::pow2;
use vstd::prelude::*;

verus! {

/// Mask of one gadget digit.
pub const DIGIT_MASK: u32 = 63;

/// Half the gadget base: digits are centred into `[-HALF_BG, HALF_BG)`.
pub const HALF_BG: u32 = 32;

/// Unsigned gadget digit `i` of `y`, most significant first.
pub open spec fn gadget_digit(y: u32, i: int) -> u32 {
    (y >> ((32 - (i + 1) * BGBIT) as u32)) & DIGIT_MASK
}

/// A digit in `[0, BG)` moved to `[-HALF_BG, HALF_BG)`, as a torus integer.
pub open spec fn centred(d: u32) -> u32 {
    if d < HALF_BG {
        (d + (modulus() - HALF_BG)) as u32
    } else {
        (d - HALF_BG) as u32
    }
}

/// Signed gadget digit `i` of `x` after adding `offset`.
pub open spec fn decomposed(x: u32, offset: u32, i: int) -> u32 {
    centred(gadget_digit(torus(x + offset), i))
}

/// Weight `2^(32 - (i + 1) * BGBIT)`, the torus value of `BG^-(i + 1)`, of gadget digit `i`.
pub open spec fn gadget(i: int) -> int {
    pow2((32 - (i + 1) * BGBIT) as nat) as int
}

/// `d[0] * gadget(0) + ... + d[n - 1] * gadget(n - 1)`.
pub open spec fn weighted_sum(d: Seq<u32>, n: int) -> int
    decreases n,
{
    if n <= 0 {
        0
    } else {
        weighted_sum(d, n - 1) + d[n - 1] * gadget(n - 1)
    }
}

/// The torus element that the digits `d` recompose to.
pub open spec fn recompose(d: Seq<u32>) -> u32 {
    torus(weighted_sum(d, d.len() as int))
}

/// The `L` signed gadget digits of `x` after adding `offset`.
pub open spec fn digits_of(x: u32, offset: u32) -> Seq<u32> {
    Seq::new(L as nat, |i: int| decomposed(x, offset, i))
}

/// What centring the digits takes away: `HALF_BG * (gadget(0) + ... + gadget(L - 1))`.
pub open spec fn centring() -> int {
    HALF_BG * weighted_sum(Seq::new(L as nat, |i: int| 1u32), L as int)
}

/// The decomposition offset that undoes the centring and rounds to the
/// nearest multiple of the last digit's weight.
pub open spec fn rounding_offset() -> int {
    centring() + gadget(L - 1) / 2
}

proof fn lemma_digits_bv(y: u32)
    by (bit_vector)
    ensures
        ((y >> 26u32) & 63u32) * 0x400_0000 + ((y >> 20u32) & 63u32) * 0x10_0000 + ((y >> 14u32)
            & 63u32) * 0x4000 + (y & 0x3fffu32) == y,
        (y & 0x3fffu32) == y % 0x4000,
        (y >> 26u32) & 63u32 < 64,
        (y >> 20u32) & 63u32 < 64,
        (y >> 14u32) & 63u32 < 64,
{
}

/// Recomposing the signed digits of `x` gives `x + offset` with the bits
/// below the last digit cleared and the centring taken away.
#[verifier::spinoff_prover]
pub proof fn lemma_recompose(x: u32, offset: u32)
    ensures
        recompose(digits_of(x, offset)) == torus(
            x + offset - (torus(x + offset) as int) % gadget(L - 1) - centring(),
        ),
{
    let y = torus(x + offset);
    let d = digits_of(x, offset);
    vstd::arithmetic::power2::lemma2_to64();
    lemma_digits_bv(y);
    reveal_with_fuel(weighted_sum, 4);
    let d0 = gadget_digit(y, 0);
    let d1 = gadget_digit(y, 1);
    let d2 = gadget_digit(y, 2);
    assert(d[0] == centred(d0) && d[1] == centred(d1) && d[2] == centred(d2));
    assert(gadget(0) == 0x400_0000 && gadget(1) == 0x10_0000 && gadget(2) == 0x4000);
    assert(d0 == (y >> 26u32) & 63u32 && d1 == (y >> 20u32) & 63u32 && d2 == (y >> 14u32) & 63u32);
    assert(centring() == 32 * (0x400_0000 + 0x10_0000 + 0x4000));
    assert(weighted_sum(d, 3) == d[0] * 0x400_0000 + d[1] * 0x10_0000 + d[2] * 0x4000);
    let w = (if d0 < HALF_BG { 0x400_0000int } else { 0 }) + (if d1 < HALF_BG { 0x10_0000int } else { 0 }) + (if d2 < HALF_BG { 0x4000int } else { 0 });
    let z = y - y % 0x4000 - centring();
    assert(weighted_sum(d, 3) == modulus() * w + z);
    vstd::arithmetic::div_mod::lemma_mod_multiples_vanish(w, z, modulus());
}

/// With the rounding offset, decomposition rounds to nearest: `x` minus its
/// recomposition lies in `[-gadget(L - 1) / 2, gadget(L - 1) / 2)` on the torus.
pub proof fn lemma_decomposition_rounds(x: u32)
    ensures
        0 <= rounding_offset() < modulus(),
        torus(x - recompose(digits_of(x, rounding_offset() as u32)) + gadget(L - 1) / 2) < gadget(
            L - 1,
        ),
{
    vstd::arithmetic::power2::lemma2_to64();
    reveal_with_fuel(weighted_sum, 4);
    assert(gadget(0) == 0x400_0000 && gadget(1) == 0x10_0000 && gadget(2) == 0x4000);
    assert(centring() == 32 * (0x400_0000 + 0x10_0000 + 0x4000));
    assert(rounding_offset() == 32 * (0x400_0000 + 0x10_0000 + 0x4000) + 0x2000);
    let offset = rounding_offset() as u32;
    lemma_recompose(x, offset);
    let y = torus(x + offset);
    let r = (y as int) % 0x4000;
    let a = x + offset - r - centring();
    let m = modulus();
    vstd::arithmetic::div_mod::lemma_fundamental_div_mod(a, m);
    let q = a / m;
    assert(x - recompose(digits_of(x, offset)) + 0x2000 == m * q + r);
    vstd::arithmetic::div_mod::lemma_mod_multiples_vanish(q, r, m);
    vstd::arithmetic::div_mod::lemma_small_mod(r as nat, m as nat);
}

/// Entry `(r, j)` of the decomposition of `trlwe`: digit `r` of `a[j]` for
/// `r < L`, digit `r - L` of `b[j]` otherwise.
pub open spec fn decomposition_entry(trlwe: TRLWELv1, offset: u32, r: int, j: int) -> u32 {
    if r < L {
        decomposed(trlwe.a[j], offset, r)
    } else {
        decomposed(trlwe.b[j], offset, r - L)
    }
}

proof fn lemma_digit_mask_bv(v: u32)
    by (bit_vector)
    ensures
        v & 63u32 < 64u32,
{
}

/// Signed digits are centred: read as signed integers they lie in
/// `[-HALF_BG, HALF_BG)`, so adding `HALF_BG` on the torus gives a value below `2 * HALF_BG`.
pub proof fn lemma_digit_range(x: u32, offset: u32, i: int)
    ensures
        torus(decomposed(x, offset, i) + HALF_BG) < 2 * HALF_BG,
{
    let y = torus(x + offset);
    let d = gadget_digit(y, i);
    lemma_digit_mask_bv(y >> ((32 - (i + 1) * BGBIT) as u32));
    if d < HALF_BG {
        lemma_torus_shift(d as int, 1);
    }
    lemma_torus_id(d);
}

} // verus!
