//! Multiplication by monomials in `T[X] / (X^N + 1)`, and what blind
//! rotation computes with exact external products.
use crate::params;
use crate::params::trgsw_lv1::N;
use crate::tlwe::TLWELv0;
use crate::torus::{lemma_torus_congruent, lemma_torus_id, modulus, torus};
use crate::trlwe::{lemma_poly_select, poly_add, poly_sub, poly_zero};
use vstd::prelude::*;

verus! {

/// Coefficient `m` of `a * X^k` in `T[X] / (X^N + 1)`, where a negated
/// coefficient `c` is written `u32::MAX - c`.
pub open spec fn rotate_coeff(a: Seq<u32>, k: int, m: int) -> u32 {
    let t = (m - k) % (2 * N as int);
    if t < N as int {
        a[t]
    } else {
        (u32::MAX - a[t - N as int]) as u32
    }
}

/// The polynomial `a * X^k`, coefficient by coefficient.
pub open spec fn rotate(a: Seq<u32>, k: int) -> Seq<u32> {
    Seq::new(N as nat, |m: int| rotate_coeff(a, k, m))
}

/// Reduction of a shift difference `d` with `-2N <= d < 2N` modulo `2N`.
pub(crate) proof fn lemma_mod_2n(d: int)
    requires
        -2 * N <= d < 2 * N,
    ensures
        d % (2 * N as int) == if d < 0 { d + 2 * N } else { d },
{
    let n2 = 2 * N as int;
    if d < 0 {
        vstd::arithmetic::div_mod::lemma_mod_add_multiples_vanish(d, n2);
        vstd::arithmetic::div_mod::lemma_small_mod((d + n2) as nat, n2 as nat);
    } else {
        vstd::arithmetic::div_mod::lemma_small_mod(d as nat, n2 as nat);
    }
}

/// Subtracting after reducing modulo `2N` is subtracting before.
pub(crate) proof fn lemma_mod_2n_sub(x: int, y: int)
    ensures
        ((x % (2 * N as int)) - y) % (2 * N as int) == (x - y) % (2 * N as int),
{
    let n2 = 2 * N as int;
    vstd::arithmetic::div_mod::lemma_add_mod_noop(x, -y, n2);
    vstd::arithmetic::div_mod::lemma_add_mod_noop(x % n2, -y, n2);
    vstd::arithmetic::div_mod::lemma_mod_twice(x, n2);
}

/// Rotating by `k1` and then by `k2` is rotating by `k1 + k2`: the
/// monomials `X^k` act on `T[X] / (X^N + 1)` as the group `Z / 2N`.
pub proof fn lemma_rotate_compose(a: Seq<u32>, k1: int, k2: int)
    requires
        a.len() == N,
    ensures
        rotate(rotate(a, k1), k2) == rotate(a, k1 + k2),
{
    let n2 = 2 * N as int;
    let b = rotate(a, k1);
    assert forall|m: int| 0 <= m < N implies #[trigger] rotate(b, k2)[m] == rotate(a, k1 + k2)[m] by {
        let t2 = (m - k2) % n2;
        let tt = (m - (k1 + k2)) % n2;
        vstd::arithmetic::div_mod::lemma_mod_bound(m - k2, n2);
        vstd::arithmetic::div_mod::lemma_mod_bound(m - (k1 + k2), n2);
        lemma_mod_2n_sub(m - k2, k1);
        lemma_mod_2n_sub(m - k2, k1 + N);
        lemma_mod_2n_sub(m - (k1 + k2), N as int);
        lemma_mod_2n(tt - N);
        lemma_mod_2n(t2 - N);
        if t2 < N {
            assert(rotate(b, k2)[m] == b[t2]);
        } else {
            assert(rotate(b, k2)[m] == (u32::MAX - b[t2 - N]) as u32);
        }
    }
    assert(rotate(b, k2) =~= rotate(a, k1 + k2));
}

/// Rotating by `0`, or by any multiple of `2N`, leaves a polynomial unchanged.
pub proof fn lemma_rotate_zero(a: Seq<u32>, k: int)
    requires
        a.len() == N,
        k % (2 * N as int) == 0,
    ensures
        rotate(a, k) == a,
{
    assert forall|m: int| 0 <= m < N implies #[trigger] rotate(a, k)[m] == a[m] by {
        vstd::arithmetic::div_mod::lemma_sub_mod_noop(m, k, 2 * N as int);
        vstd::arithmetic::div_mod::lemma_small_mod(m as nat, 2 * N as nat);
    }
    assert(rotate(a, k) =~= a);
}

/// Rotating by `N` negates every coefficient, as `u32::MAX - c`.
pub proof fn lemma_rotate_half(a: Seq<u32>)
    requires
        a.len() == N,
    ensures
        rotate(a, N as int) == Seq::new(N as nat, |m: int| (u32::MAX - a[m]) as u32),
{
    assert forall|m: int| 0 <= m < N implies #[trigger] rotate(a, N as int)[m] == (u32::MAX - a[m]) as u32 by {
        lemma_mod_2n(m - N);
    }
    assert(rotate(a, N as int) =~= Seq::new(N as nat, |m: int| (u32::MAX - a[m]) as u32));
}

/// Multiplying by `X` moves every coefficient up by one and brings the top
/// one, negated as `u32::MAX - c`, round to the constant coefficient.
pub proof fn lemma_rotate_one(a: Seq<u32>)
    requires
        a.len() == N,
    ensures
        rotate(a, 1)[0] == (u32::MAX - a[N - 1]) as u32,
        forall|m: int| 1 <= m < N ==> #[trigger] rotate(a, 1)[m] == a[m - 1],
{
    lemma_mod_2n(-1);
    assert forall|m: int| 1 <= m < N implies #[trigger] rotate(a, 1)[m] == a[m - 1] by {
        lemma_mod_2n(m - 1);
    }
}

/// `round(x * 2N)` for the torus element `x`: `(x + 2^20) >> 21` on the wrapped sum.
pub open spec fn a_tilda(x: u32) -> int {
    (torus(x + 0x10_0000) as int) / 0x20_0000
}

/// The exponent the test vector is first rotated by: `2N - round(b * 2N)`,
/// with the rounding sum taken without wrapping.
pub open spec fn b_tilda(b: u32) -> int {
    2 * N - (b + 0x10_0000) / 0x20_0000
}

/// Total exponent after `r` rounds of blind rotation of `src` in which
/// round `i` rotates exactly when `bits[i]`: `b_tilda(b) + sum a_tilda(a[i])`.
pub open spec fn rotation_after(src: TLWELv0, bits: Seq<bool>, r: int) -> int
    decreases r,
{
    if r <= 0 {
        b_tilda(src.p[params::tlwe_lv0::N as int])
    } else {
        rotation_after(src, bits, r - 1) + if bits[r - 1] {
            a_tilda(src.p[r - 1])
        } else {
            0
        }
    }
}

/// One polynomial of the accumulator after `r` rounds of `blind_rotate`,
/// `next_input` and `advance`, when the external product of round `i`
/// hands back its input if `bits[i]` (the key encrypts 1) and zero otherwise.
pub open spec fn ideal_accumulator(testvec: Seq<u32>, src: TLWELv0, bits: Seq<bool>, r: int) -> Seq<u32>
    decreases r,
{
    if r <= 0 {
        rotate(testvec, b_tilda(src.p[params::tlwe_lv0::N as int]))
    } else {
        let acc = ideal_accumulator(testvec, src, bits, r - 1);
        let input = poly_sub(rotate(acc, a_tilda(src.p[r - 1])), acc);
        poly_add(if bits[r - 1] { input } else { poly_zero() }, acc)
    }
}

/// Blind rotation rotates: with exact external products, the accumulator
/// after `r` rounds is the test vector times `X^rotation_after(src, bits, r)`.
pub proof fn lemma_blind_rotation(testvec: Seq<u32>, src: TLWELv0, bits: Seq<bool>, r: int)
    requires
        testvec.len() == N,
    ensures
        ideal_accumulator(testvec, src, bits, r) == rotate(testvec, rotation_after(src, bits, r)),
    decreases r,
{
    if r > 0 {
        lemma_blind_rotation(testvec, src, bits, r - 1);
        let acc = ideal_accumulator(testvec, src, bits, r - 1);
        let k = a_tilda(src.p[r - 1]);
        lemma_poly_select(acc, rotate(acc, k));
        lemma_rotate_compose(testvec, rotation_after(src, bits, r - 1), k);
    }
}

/// `a_tilda(x)` is `x * 2N` rounded to nearest, as an exponent in `[0, 2N)`:
/// `x - a_tilda(x) / 2N` lies in `[-1/4N, 1/4N)` on the torus.
pub proof fn lemma_a_tilda_rounds(x: u32)
    ensures
        0 <= a_tilda(x) < 2 * N,
        torus(x - a_tilda(x) * 0x20_0000 + 0x10_0000) < 0x20_0000,
{
    let m = modulus();
    let y = torus(x + 0x10_0000) as int;
    let a = y / 0x20_0000;
    let r = y % 0x20_0000;
    vstd::arithmetic::div_mod::lemma_fundamental_div_mod(y, 0x20_0000);
    vstd::arithmetic::div_mod::lemma_mod_bound(y, 0x20_0000);
    vstd::arithmetic::div_mod::lemma_fundamental_div_mod(x + 0x10_0000, m);
    let q = (x + 0x10_0000) / m;
    assert(x - a * 0x20_0000 + 0x10_0000 == r + m * q);
    vstd::arithmetic::div_mod::lemma_mod_multiples_vanish(q, r, m);
    vstd::arithmetic::div_mod::lemma_small_mod(r as nat, m as nat);
}

/// `b_tilda(b)` is minus `b * 2N` rounded to nearest, as an exponent in
/// `[0, 2N]`: `b + b_tilda(b) / 2N` lies in `[-1/4N, 1/4N)` on the torus.
pub proof fn lemma_b_tilda_rounds(b: u32)
    ensures
        0 <= b_tilda(b) <= 2 * N,
        torus(b + b_tilda(b) * 0x20_0000 + 0x10_0000) < 0x20_0000,
{
    let m = modulus();
    let s = b + 0x10_0000;
    let q = s / 0x20_0000;
    let r = s % 0x20_0000;
    vstd::arithmetic::div_mod::lemma_fundamental_div_mod(s, 0x20_0000);
    vstd::arithmetic::div_mod::lemma_mod_bound(s, 0x20_0000);
    assert(b + b_tilda(b) * 0x20_0000 + 0x10_0000 == r + m * 1);
    vstd::arithmetic::div_mod::lemma_mod_multiples_vanish(1, r, m);
    vstd::arithmetic::div_mod::lemma_small_mod(r as nat, m as nat);
}

} // verus!
