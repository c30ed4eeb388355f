//! Digits and sums of identity key switching.
use crate::params;
use crate::params::trgsw_lv1::{BASEBIT, IKS_T, N};
use crate::tlwe::{TLWELv0, TLWELv1, LV0_LEN};
use crate::torus::{lemma_torus_congruent, lemma_torus_id, lemma_torus_mul, lemma_torus_torus, modulus, torus};
use vstd::arithmetic::power2::pow2;
use vstd::prelude::*;

verus! {

/// Key-switching base, `1 << BASEBIT`.
pub const BASE: usize = 4;

/// Mask of one key-switching digit, `BASE - 1`.
pub const BASE_MASK: u32 = 3;

/// Added before key-switching digits are taken, so that they round to nearest:
/// `1 << (32 - (1 + BASEBIT * IKS_T))`.
pub const PREC_OFFSET: u32 = 0x8000;

/// Key-switching digit `j` (most significant first) of the mask element `a`.
pub open spec fn ks_digit(a: u32, j: int) -> u32 {
    (torus(a + PREC_OFFSET) >> ((32 - (j + 1) * BASEBIT) as u32)) & BASE_MASK
}

/// Entry of the key-switching key that digit `j` of mask element `i`, of value `k`, selects.
pub open spec fn ks_index(i: int, j: int, k: int) -> int {
    BASE * IKS_T * i + BASE * j + k
}

/// Sum, over the first `t` digit positions `i * IKS_T + j` of the mask `a`
/// whose digit `k` is not zero, of coefficient `x` of key entry `ks_index(i, j, k)`.
pub open spec fn ks_sum(a: Seq<u32>, ksk: Seq<TLWELv0>, x: int, t: int) -> int
    decreases t,
{
    if t <= 0 {
        0
    } else {
        let i = (t - 1) / IKS_T as int;
        let j = (t - 1) % IKS_T as int;
        let k = ks_digit(a[i], j);
        ks_sum(a, ksk, x, t - 1) + if k != 0 {
            ksk[ks_index(i, j, k as int)].p[x] as int
        } else {
            0
        }
    }
}

/// Coefficient `x` of the level-0 ciphertext that key switching turns `src` into.
pub open spec fn key_switched(src: TLWELv1, ksk: Seq<TLWELv0>, x: int) -> u32 {
    let body = if x == params::tlwe_lv0::N { src.p[params::tlwe_lv1::N as int] as int } else { 0 };
    torus(body - ks_sum(src.p@, ksk, x, (N * IKS_T) as int))
}

/// What the first `n` key-switching digits of `a` stand for:
/// `ks_digit(a, 0) * 2^(32 - BASEBIT) + ... + ks_digit(a, n - 1) * 2^(32 - n * BASEBIT)`.
pub open spec fn ks_weighted(a: u32, n: int) -> int
    decreases n,
{
    if n <= 0 {
        0
    } else {
        ks_weighted(a, n - 1) + ks_digit(a, n - 1) * pow2((32 - n * BASEBIT) as nat)
    }
}

proof fn lemma_ks_digits_bv(y: u32)
    by (bit_vector)
    ensures
        ((y >> 30u32) & 3u32) * 0x4000_0000 + ((y >> 28u32) & 3u32) * 0x1000_0000 + ((y >> 26u32)
            & 3u32) * 0x400_0000 + ((y >> 24u32) & 3u32) * 0x100_0000 + ((y >> 22u32) & 3u32)
            * 0x40_0000 + ((y >> 20u32) & 3u32) * 0x10_0000 + ((y >> 18u32) & 3u32) * 0x4_0000 + ((y
            >> 16u32) & 3u32) * 0x1_0000 + (y & 0xffffu32) == y,
        (y & 0xffffu32) == y % 0x1_0000,
{
}

/// Key-switching digits round to nearest: `a` minus what its `IKS_T`
/// digits stand for lies in `[-PREC_OFFSET, PREC_OFFSET)` on the torus.
#[verifier::spinoff_prover]
pub proof fn lemma_ks_digits_round(a: u32)
    ensures
        torus(a - ks_weighted(a, IKS_T as int) + PREC_OFFSET) < 2 * PREC_OFFSET,
{
    let y = torus(a + PREC_OFFSET);
    vstd::arithmetic::power2::lemma2_to64();
    lemma_ks_digits_bv(y);
    reveal_with_fuel(ks_weighted, 9);
    assert(ks_weighted(a, 8) == y - y % 0x1_0000);
    let m = modulus();
    let s = a + PREC_OFFSET;
    vstd::arithmetic::div_mod::lemma_fundamental_div_mod(s, m);
    let q = s / m;
    assert(a - ks_weighted(a, 8) + PREC_OFFSET == m * q + (y as int) % 0x1_0000);
    vstd::arithmetic::div_mod::lemma_mod_multiples_vanish(q, (y as int) % 0x1_0000, m);
    vstd::arithmetic::div_mod::lemma_small_mod(((y as int) % 0x1_0000) as nat, m as nat);
}

/// `p[0] * s[0] + ... + p[n - 1] * s[n - 1]`.
pub open spec fn dot(p: Seq<u32>, s: Seq<int>, n: int) -> int
    decreases n,
{
    if n <= 0 {
        0
    } else {
        dot(p, s, n - 1) + p[n - 1] * s[n - 1]
    }
}

/// Phase `b - <a, s>` of the level-0 ciphertext with elements `c` under the key `s`.
pub open spec fn phase_lv0(c: Seq<u32>, s: Seq<int>) -> int {
    c[params::tlwe_lv0::N as int] - dot(c, s, params::tlwe_lv0::N as int)
}

/// Phase `b - <a, s>` of the level-1 ciphertext with elements `c` under the key `s`.
pub open spec fn phase_lv1(c: Seq<u32>, s: Seq<int>) -> int {
    c[params::tlwe_lv1::N as int] - dot(c, s, params::tlwe_lv1::N as int)
}

/// `s[0] * (a[0] - ks_weighted(a[0], IKS_T)) + ... ` over the first `m` mask
/// elements: how far rounding every mask element to its digits moves the phase.
pub open spec fn ks_rounding(a: Seq<u32>, s: Seq<int>, m: int) -> int
    decreases m,
{
    if m <= 0 {
        0
    } else {
        ks_rounding(a, s, m - 1) + s[m - 1] * (a[m - 1] - ks_weighted(a[m - 1], IKS_T as int))
    }
}

/// Entry `BASE * IKS_T * i + BASE * j + k` of a key-switching key: the one
/// meant to encrypt `k * s1[i] / BASE^(j + 1)`.
pub open spec fn ks_entry(ksk: Seq<TLWELv0>, i: int, j: int, k: int) -> TLWELv0 {
    ksk[BASE * IKS_T * i + BASE * j + k]
}

/// Contribution of digit position `t` to coefficient `x` in `ks_sum`.
spec fn ks_coeff(a: Seq<u32>, ksk: Seq<TLWELv0>, x: int, t: int) -> int {
    let k = ks_digit(a[t / IKS_T as int], t % IKS_T as int);
    if k != 0 {
        ksk[ks_index(t / IKS_T as int, t % IKS_T as int, k as int)].p[x] as int
    } else {
        0
    }
}

/// `ks_sum(.., x, t) * s[x]` summed over `x < n`.
spec fn ks_lin(a: Seq<u32>, ksk: Seq<TLWELv0>, s: Seq<int>, t: int, n: int) -> int
    decreases n,
{
    if n <= 0 {
        0
    } else {
        ks_lin(a, ksk, s, t, n - 1) + ks_sum(a, ksk, n - 1, t) * s[n - 1]
    }
}

/// `ks_coeff(.., x, t) * s[x]` summed over `x < n`.
spec fn coeff_lin(a: Seq<u32>, ksk: Seq<TLWELv0>, s: Seq<int>, t: int, n: int) -> int
    decreases n,
{
    if n <= 0 {
        0
    } else {
        coeff_lin(a, ksk, s, t, n - 1) + ks_coeff(a, ksk, n - 1, t) * s[n - 1]
    }
}

/// Sum of the phases of the key entries selected by the first `t` digit positions.
spec fn ks_phase_sum(a: Seq<u32>, ksk: Seq<TLWELv0>, s0: Seq<int>, t: int) -> int
    decreases t,
{
    if t <= 0 {
        0
    } else {
        let i = (t - 1) / IKS_T as int;
        let j = (t - 1) % IKS_T as int;
        let k = ks_digit(a[i], j);
        ks_phase_sum(a, ksk, s0, t - 1) + if k != 0 {
            phase_lv0(ksk[ks_index(i, j, k as int)].p@, s0)
        } else {
            0
        }
    }
}

/// What the selected entries stand for, over the first `t` digit positions:
/// the sum of `digit * s1[i] * 2^(32 - (j + 1) * BASEBIT)`.
spec fn ks_ideal_sum(a: Seq<u32>, s1: Seq<int>, t: int) -> int
    decreases t,
{
    if t <= 0 {
        0
    } else {
        let i = (t - 1) / IKS_T as int;
        let j = (t - 1) % IKS_T as int;
        ks_ideal_sum(a, s1, t - 1) + ks_digit(a[i], j) * s1[i] * pow2((32 - (j + 1) * BASEBIT) as nat)
    }
}

/// `s1[i] * ks_weighted(a[i], IKS_T)` summed over `i < m`.
spec fn ks_total(a: Seq<u32>, s1: Seq<int>, m: int) -> int
    decreases m,
{
    if m <= 0 {
        0
    } else {
        ks_total(a, s1, m - 1) + s1[m - 1] * ks_weighted(a[m - 1], IKS_T as int)
    }
}

proof fn lemma_ks_lin_step(a: Seq<u32>, ksk: Seq<TLWELv0>, s: Seq<int>, t: int, n: int)
    requires
        t >= 0,
    ensures
        ks_lin(a, ksk, s, t + 1, n) == ks_lin(a, ksk, s, t, n) + coeff_lin(a, ksk, s, t, n),
    decreases n,
{
    if n > 0 {
        lemma_ks_lin_step(a, ksk, s, t, n - 1);
        assert(ks_sum(a, ksk, n - 1, t + 1) == ks_sum(a, ksk, n - 1, t) + ks_coeff(a, ksk, n - 1, t));
        vstd::arithmetic::mul::lemma_mul_is_distributive_add_other_way(
            s[n - 1],
            ks_sum(a, ksk, n - 1, t),
            ks_coeff(a, ksk, n - 1, t),
        );
    }
}

proof fn lemma_ks_lin_zero(a: Seq<u32>, ksk: Seq<TLWELv0>, s: Seq<int>, n: int)
    ensures
        ks_lin(a, ksk, s, 0, n) == 0,
    decreases n,
{
    if n > 0 {
        lemma_ks_lin_zero(a, ksk, s, n - 1);
    }
}

proof fn lemma_coeff_lin(a: Seq<u32>, ksk: Seq<TLWELv0>, s: Seq<int>, t: int, n: int)
    ensures
        coeff_lin(a, ksk, s, t, n) == {
            let k = ks_digit(a[t / IKS_T as int], t % IKS_T as int);
            if k != 0 {
                dot(ksk[ks_index(t / IKS_T as int, t % IKS_T as int, k as int)].p@, s, n)
            } else {
                0
            }
        },
    decreases n,
{
    if n > 0 {
        lemma_coeff_lin(a, ksk, s, t, n - 1);
    }
}

proof fn lemma_ks_phase_sum(a: Seq<u32>, ksk: Seq<TLWELv0>, s0: Seq<int>, t: int)
    requires
        t >= 0,
    ensures
        ks_sum(a, ksk, params::tlwe_lv0::N as int, t) - ks_lin(a, ksk, s0, t, params::tlwe_lv0::N as int)
            == ks_phase_sum(a, ksk, s0, t),
    decreases t,
{
    let n0 = params::tlwe_lv0::N as int;
    if t == 0 {
        lemma_ks_lin_zero(a, ksk, s0, n0);
    } else {
        lemma_ks_phase_sum(a, ksk, s0, t - 1);
        lemma_ks_lin_step(a, ksk, s0, t - 1, n0);
        lemma_coeff_lin(a, ksk, s0, t - 1, n0);
        let i = (t - 1) / IKS_T as int;
        let j = (t - 1) % IKS_T as int;
        let k = ks_digit(a[i], j);
        assert(ks_sum(a, ksk, n0, t) == ks_sum(a, ksk, n0, t - 1) + ks_coeff(a, ksk, n0, t - 1));
        assert(ks_lin(a, ksk, s0, t, n0) == ks_lin(a, ksk, s0, t - 1, n0) + coeff_lin(a, ksk, s0, t - 1, n0));
        if k != 0 {
            let e = ksk[ks_index(i, j, k as int)];
            assert(coeff_lin(a, ksk, s0, t - 1, n0) == dot(e.p@, s0, n0));
            assert(ks_coeff(a, ksk, n0, t - 1) == e.p@[n0]);
            assert(ks_phase_sum(a, ksk, s0, t) == ks_phase_sum(a, ksk, s0, t - 1) + (e.p@[n0] - dot(e.p@, s0, n0)));
        } else {
            assert(ks_coeff(a, ksk, n0, t - 1) == 0);
            assert(ks_phase_sum(a, ksk, s0, t) == ks_phase_sum(a, ksk, s0, t - 1));
        }
    }
}

proof fn lemma_ks_digit_bound(v: u32)
    by (bit_vector)
    ensures
        v & 3u32 <= 3u32,
{
}

/// With a key whose entries encrypt what they should, the selected entries'
/// phases add up, on the torus, to what the digits stand for.
proof fn lemma_ks_phase_ideal(a: Seq<u32>, ksk: Seq<TLWELv0>, s0: Seq<int>, s1: Seq<int>, t: int)
    requires
        0 <= t <= N * IKS_T,
        forall|i: int, j: int, k: int|
            0 <= i < N && 0 <= j < IKS_T && 0 < k < BASE ==> torus(
                phase_lv0(#[trigger] ks_entry(ksk, i, j, k).p@, s0),
            ) == torus(k * s1[i] * pow2((32 - (j + 1) * BASEBIT) as nat)),
    ensures
        torus(ks_phase_sum(a, ksk, s0, t)) == torus(ks_ideal_sum(a, s1, t)),
    decreases t,
{
    if t > 0 {
        lemma_ks_phase_ideal(a, ksk, s0, s1, t - 1);
        let i = (t - 1) / IKS_T as int;
        let j = (t - 1) % IKS_T as int;
        let k = ks_digit(a[i], j);
        let w = pow2((32 - (j + 1) * BASEBIT) as nat);
        let p_prev = ks_phase_sum(a, ksk, s0, t - 1);
        let g_prev = ks_ideal_sum(a, s1, t - 1);
        if k != 0 {
            lemma_ks_digit_bound(torus(a[i] + PREC_OFFSET) >> ((32 - (j + 1) * BASEBIT) as u32));
            let e = ks_entry(ksk, i, j, k as int);
            assert(e == ksk[ks_index(i, j, k as int)]);
            let ph = phase_lv0(e.p@, s0);
            assert(torus(ph) == torus(k * s1[i] * w));
            // torus(p_prev + ph) == torus(g_prev + ph) == torus(g_prev + k * s1[i] * w)
            lemma_torus_congruent(p_prev, g_prev, ph);
            lemma_torus_congruent(ph, k * s1[i] * w, g_prev);
            assert(ph + g_prev == g_prev + ph);
        } else {
            let kk = k as int;
            let si = s1[i];
            assert(kk * si * w == 0) by (nonlinear_arith)
                requires
                    kk == 0,
            ;
        }
    }
}

proof fn lemma_ks_ideal_total(a: Seq<u32>, s1: Seq<int>, m: int, j: int)
    requires
        0 <= m,
        0 <= j <= IKS_T,
    ensures
        ks_ideal_sum(a, s1, m * IKS_T + j) == ks_total(a, s1, m) + s1[m] * ks_weighted(a[m], j),
    decreases m, j,
{
    assert(m * IKS_T == 8 * m);
    if j > 0 {
        lemma_ks_ideal_total(a, s1, m, j - 1);
        let t = m * IKS_T + j;
        assert((t - 1) / IKS_T as int == m && (t - 1) % IKS_T as int == j - 1);
        let d = ks_digit(a[m], j - 1) as int;
        let w = pow2((32 - j * BASEBIT) as nat) as int;
        assert((32 - ((j - 1) + 1) * BASEBIT) == 32 - j * BASEBIT);
        assert(ks_weighted(a[m], j) == ks_weighted(a[m], j - 1) + d * w);
        let sm = s1[m];
        let prev = ks_weighted(a[m], j - 1);
        assert(sm * (prev + d * w) == sm * prev + d * sm * w) by (nonlinear_arith);
    } else if m > 0 {
        lemma_ks_ideal_total(a, s1, m - 1, IKS_T as int);
        assert((m - 1) * IKS_T + IKS_T == m * IKS_T);
        assert(ks_weighted(a[m], 0) == 0);
        assert(s1[m] * 0 == 0);
    } else {
        assert(ks_weighted(a[m], 0) == 0);
        assert(s1[m] * 0 == 0);
    }
}

proof fn lemma_ks_rounding(a: Seq<u32>, s: Seq<int>, m: int)
    ensures
        ks_rounding(a, s, m) == dot(a, s, m) - ks_total(a, s, m),
    decreases m,
{
    if m > 0 {
        lemma_ks_rounding(a, s, m - 1);
        let x = a[m - 1] as int;
        let w = ks_weighted(a[m - 1], IKS_T as int);
        let y = s[m - 1];
        assert(y * (x - w) == x * y - y * w) by (nonlinear_arith);
    }
}

/// The mask part of the key-switched ciphertext, on the torus: minus the
/// key-weighted sums of the subtracted entries.
proof fn lemma_ks_result_dot(src: TLWELv1, ksk: Seq<TLWELv0>, s0: Seq<int>, n: int)
    requires
        0 <= n <= params::tlwe_lv0::N,
    ensures
        torus(dot(Seq::new(LV0_LEN as nat, |x: int| key_switched(src, ksk, x)), s0, n)) == torus(
            -ks_lin(src.p@, ksk, s0, (N * IKS_T) as int, n),
        ),
    decreases n,
{
    let r = Seq::new(LV0_LEN as nat, |x: int| key_switched(src, ksk, x));
    let t = (N * IKS_T) as int;
    if n > 0 {
        lemma_ks_result_dot(src, ksk, s0, n - 1);
        let kx = ks_sum(src.p@, ksk, n - 1, t);
        let sx = s0[n - 1];
        assert(r[n - 1] == torus(0 - kx));
        lemma_torus_mul(-kx, sx);
        let prev = dot(r, s0, n - 1);
        let lin_prev = ks_lin(src.p@, ksk, s0, t, n - 1);
        // torus(prev + r[n-1] * sx) == torus(-lin_prev + r[n-1] * sx) == torus(-lin_prev + (-kx) * sx)
        lemma_torus_congruent(prev, -lin_prev, r[n - 1] * sx);
        lemma_torus_congruent(r[n - 1] * sx, (-kx) * sx, -lin_prev);
        assert((-kx) * sx == -(kx * sx)) by (nonlinear_arith);
        assert(r[n - 1] * sx + -lin_prev == -lin_prev + r[n - 1] * sx);
    }
}

/// Key switching keeps the phase up to rounding: if every key entry
/// `BASE * IKS_T * i + BASE * j + k` has phase `k * s1[i] / BASE^(j + 1)`
/// under `s0`, the key-switched ciphertext has, under `s0`, the phase that
/// `src` has under `s1`, moved only by `sum s1[i] * (a[i] - ks_weighted(a[i], IKS_T))`,
/// the rounding of every mask element to its digits.
pub proof fn lemma_key_switching_phase(src: TLWELv1, ksk: Seq<TLWELv0>, s0: Seq<int>, s1: Seq<int>)
    requires
        forall|i: int, j: int, k: int|
            0 <= i < N && 0 <= j < IKS_T && 0 < k < BASE ==> torus(
                phase_lv0(#[trigger] ks_entry(ksk, i, j, k).p@, s0),
            ) == torus(k * s1[i] * pow2((32 - (j + 1) * BASEBIT) as nat)),
    ensures
        torus(phase_lv0(Seq::new(LV0_LEN as nat, |x: int| key_switched(src, ksk, x)), s0)) == torus(
            phase_lv1(src.p@, s1) + ks_rounding(src.p@, s1, N as int),
        ),
{
    let a = src.p@;
    let n0 = params::tlwe_lv0::N as int;
    let t = (N * IKS_T) as int;
    let r = Seq::new(LV0_LEN as nat, |x: int| key_switched(src, ksk, x));
    let b = src.p[params::tlwe_lv1::N as int] as int;
    let k_body = ks_sum(a, ksk, n0, t);
    let lin = ks_lin(a, ksk, s0, t, n0);
    lemma_ks_result_dot(src, ksk, s0, n0);
    lemma_ks_phase_sum(a, ksk, s0, t);
    lemma_ks_phase_ideal(a, ksk, s0, s1, t);
    lemma_ks_ideal_total(a, s1, N as int, 0);
    assert(N as int * IKS_T + 0 == t);
    assert(ks_weighted(a[N as int], 0) == 0);
    assert(s1[N as int] * 0 == 0);
    lemma_ks_rounding(a, s1, N as int);
    let total = ks_total(a, s1, N as int);
    let ph_sum = ks_phase_sum(a, ksk, s0, t);
    // phase = r[n0] - dot(r); r[n0] stands for b - k_body, dot(r) for -lin.
    assert(r[n0] == torus(b - k_body));
    let d = dot(r, s0, n0);
    lemma_torus_torus(b - k_body);
    lemma_torus_congruent(r[n0] as int, b - k_body, -d);
    lemma_torus_congruent(d, -lin, b - k_body);
    assert(b - k_body - (-lin) == b - ph_sum);
    lemma_torus_congruent(ph_sum, ks_ideal_sum(a, s1, t), b);
    assert(phase_lv1(a, s1) + ks_rounding(a, s1, N as int) == b - total);
}

} // verus!
