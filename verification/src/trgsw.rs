use crate::gadget::{
    centring, decomposition_entry, digits_of, gadget, lemma_recompose, recompose, DIGIT_MASK, HALF_BG,
};
use crate::key::{CloudKey, KeySwitchingKey};
use crate::keyswitch::{key_switched, ks_digit, ks_index, ks_sum, BASE, BASE_MASK, PREC_OFFSET};
use crate::params;
use crate::params::trgsw_lv1::{BASEBIT, BGBIT, IKS_T, L, N, NBIT};
use crate::rotation::{a_tilda, b_tilda, lemma_mod_2n, rotate, rotate_coeff};
use crate::tlwe::{TLWELv0, TLWELv1, LV0_LEN};
use crate::torus::{
    lemma_torus_add, lemma_torus_congruent, lemma_torus_id, lemma_torus_sub, lemma_torus_torus, modulus,
    torus,
};
use crate::trlwe::{lemma_poly_select, poly_add, poly_sub, poly_zero, TRLWELv1};
use vstd::arithmetic::power2::pow2;
use vstd::prelude::*;

verus! {

/// Number of rows of a TRGSW ciphertext: `L` rows for `a` and `L` for `b`.
pub const ROWS: usize = L * 2;

/// Multiplies `a` by the monomial `X^k` in `T[X] / (X^N + 1)`, for `k <= 2N`.
pub fn poly_mul_with_x_k(a: &[u32; N], k: usize) -> (res: [u32; N])
    requires
        k <= 2 * N,
    ensures
        res@ == rotate(a@, k as int),
        k < N ==> forall|m: int| k <= m < N ==> #[trigger] res[m] == a[m - k],
        k < N ==> forall|m: int| 0 <= m < k ==> #[trigger] res[m] == (u32::MAX - a[m - k + N]) as u32,
        k >= N ==> forall|m: int| k - N <= m < N ==> #[trigger] res[m] == (u32::MAX - a[m - k + N]) as u32,
        k >= N ==> forall|m: int| 0 <= m < k - N ==> #[trigger] res[m] == a[m - k + 2 * N],
{
    let mut res: [u32; N] = [0; N];
    if k < N {
        for i in 0..(N - k)
            invariant
                k < N,
                res@.len() == N,
                forall|m: int| k <= m < i + k ==> res@[m] == rotate_coeff(a@, k as int, m),
        {
            res[i + k] = a[i];
        }
        for i in (N - k)..N
            invariant
                k < N,
                res@.len() == N,
                forall|m: int| k <= m < N ==> res@[m] == rotate_coeff(a@, k as int, m),
                forall|m: int| 0 <= m < i + k - N ==> res@[m] == rotate_coeff(a@, k as int, m),
        {
            res[i + k - N] = u32::MAX - a[i];
        }
    } else {
        for i in 0..2 * N - k
            invariant
                N <= k <= 2 * N,
                res@.len() == N,
                forall|m: int| k - N <= m < i + k - N ==> res@[m] == rotate_coeff(a@, k as int, m),
        {
            proof {
                lemma_mod_2n(i - N);
            }
            res[i + k - N] = u32::MAX - a[i];
        }
        for i in (2 * N - k)..N
            invariant
                N <= k <= 2 * N,
                res@.len() == N,
                forall|m: int| k - N <= m < N ==> res@[m] == rotate_coeff(a@, k as int, m),
                forall|m: int| 0 <= m < i - (2 * N - k) ==> res@[m] == rotate_coeff(a@, k as int, m),
        {
            proof {
                lemma_mod_2n(i - (2 * N - k) - k);
            }
            res[i - (2 * N - k)] = a[i];
        }
    }
    assert(res@ =~= rotate(a@, k as int));
    assert forall|m: int| 0 <= m < N implies {
        &&& (k <= m ==> #[trigger] res[m] == a[m - k])
        &&& (m < k && k < N ==> res[m] == (u32::MAX - a[m - k + N]) as u32)
        &&& (N <= k && k - N <= m ==> res[m] == (u32::MAX - a[m - k + N]) as u32)
        &&& (m < k - N ==> res[m] == a[m - k + 2 * N])
    } by {
        assert(res[m] == rotate_coeff(a@, k as int, m));
        lemma_mod_2n(m - k);
    }
    res
}

/// Gadget decomposition of both polynomials of `trlwe`: row `i < L` holds
/// the signed digit `i` of every coefficient of `a`, row `L + i` that of `b`.
pub fn decomposition(trlwe: &TRLWELv1, cloud_key: &CloudKey) -> (res: [[u32; N]; ROWS])
    ensures
        forall|r: int, j: int|
            0 <= r < ROWS && 0 <= j < N ==> #[trigger] res[r][j] == decomposition_entry(
                *trlwe,
                cloud_key.decomposition_offset,
                r,
                j,
            ),
        forall|j: int|
            0 <= j < N ==> recompose(Seq::new(L as nat, |i: int| res[i][j])) == torus(
                #[trigger] trlwe.a[j] + cloud_key.decomposition_offset - (torus(
                    trlwe.a[j] + cloud_key.decomposition_offset,
                ) as int) % gadget(L - 1) - centring(),
            ),
        forall|j: int|
            0 <= j < N ==> recompose(Seq::new(L as nat, |i: int| res[i + L][j])) == torus(
                #[trigger] trlwe.b[j] + cloud_key.decomposition_offset - (torus(
                    trlwe.b[j] + cloud_key.decomposition_offset,
                ) as int) % gadget(L - 1) - centring(),
            ),
{
    let mut res: [[u32; N]; ROWS] = [[0u32; N]; ROWS];
    let offset: u32 = cloud_key.decomposition_offset;
    for j in 0..N
        invariant
            offset == cloud_key.decomposition_offset,
            forall|r: int| 0 <= r < ROWS ==> #[trigger] res[r]@.len() == N,
            forall|r: int, jj: int|
                0 <= r < ROWS && 0 <= jj < j ==> #[trigger] res[r][jj] == decomposition_entry(
                    *trlwe,
                    offset,
                    r,
                    jj,
                ),
    {
        let tmp0: u32 = trlwe.a[j].wrapping_add(offset);
        let tmp1: u32 = trlwe.b[j].wrapping_add(offset);
        for i in 0..L
            invariant
                j < N,
                tmp0 == torus(trlwe.a[j as int] + offset),
                forall|r: int| 0 <= r < ROWS ==> #[trigger] res[r]@.len() == N,
                forall|r: int, jj: int|
                    0 <= r < ROWS && 0 <= jj < j ==> #[trigger] res[r][jj] == decomposition_entry(
                        *trlwe,
                        offset,
                        r,
                        jj,
                    ),
                forall|r: int|
                    0 <= r < i ==> #[trigger] res[r][j as int] == decomposition_entry(
                        *trlwe,
                        offset,
                        r,
                        j as int,
                    ),
        {
            res[i][j] = ((tmp0 >> (32 - ((i as u32) + 1) * BGBIT)) & DIGIT_MASK).wrapping_sub(
                HALF_BG,
            );
        }
        for i in 0..L
            invariant
                j < N,
                tmp1 == torus(trlwe.b[j as int] + offset),
                forall|r: int| 0 <= r < ROWS ==> #[trigger] res[r]@.len() == N,
                forall|r: int, jj: int|
                    0 <= r < ROWS && 0 <= jj < j ==> #[trigger] res[r][jj] == decomposition_entry(
                        *trlwe,
                        offset,
                        r,
                        jj,
                    ),
                forall|r: int|
                    0 <= r < L + i ==> #[trigger] res[r][j as int] == decomposition_entry(
                        *trlwe,
                        offset,
                        r,
                        j as int,
                    ),
        {
            res[i + L][j] = ((tmp1 >> (32 - ((i as u32) + 1) * BGBIT)) & DIGIT_MASK).wrapping_sub(
                HALF_BG,
            );
        }
    }
    let ghost off = cloud_key.decomposition_offset;
    assert forall|j: int| 0 <= j < N implies recompose(Seq::new(L as nat, |i: int| res[i][j])) == torus(
        #[trigger] trlwe.a[j] + off - (torus(trlwe.a[j] + off) as int) % gadget(L - 1) - centring(),
    ) by {
        assert(Seq::new(L as nat, |i: int| res[i][j]) =~= digits_of(trlwe.a[j], off));
        lemma_recompose(trlwe.a[j], off);
    }
    assert forall|j: int| 0 <= j < N implies recompose(Seq::new(L as nat, |i: int| res[i + L][j])) == torus(
        #[trigger] trlwe.b[j] + off - (torus(trlwe.b[j] + off) as int) % gadget(L - 1) - centring(),
    ) by {
        assert(Seq::new(L as nat, |i: int| res[i + L][j]) =~= digits_of(trlwe.b[j], off));
        lemma_recompose(trlwe.b[j], off);
    }
    res
}

/// Adding `q` back to `p - q` on the torus gives `p`.
proof fn lemma_undo_sub(p: u32, q: u32)
    ensures
        torus(q + torus(p - q)) == p,
{
    lemma_torus_torus(p - q);
    lemma_torus_congruent(torus(p - q) as int, p - q, q as int);
    assert(torus(p - q) + q == q + torus(p - q));
    lemma_torus_id(p);
}

/// Taking `q` away from `p + q` on the torus gives `p`.
proof fn lemma_undo_add(p: u32, q: u32)
    ensures
        torus(torus(p + q) - q) == p,
{
    lemma_torus_torus(p + q);
    lemma_torus_congruent(torus(p + q) as int, p + q, -q);
    assert(torus(p + q) - q == torus(p + q) as int + -q);
    lemma_torus_id(p);
}

/// The input of a CMux's external product: `in2 - in1`, coefficient-wise.
pub fn cmux_input(in1: &TRLWELv1, in2: &TRLWELv1) -> (tmp: TRLWELv1)
    ensures
        tmp.a@ == poly_sub(in2.a@, in1.a@),
        tmp.b@ == poly_sub(in2.b@, in1.b@),
        forall|i: int| 0 <= i < N ==> torus(in1.a[i] + #[trigger] tmp.a[i]) == in2.a[i],
        forall|i: int| 0 <= i < N ==> torus(in1.b[i] + #[trigger] tmp.b[i]) == in2.b[i],
{
    let mut tmp = TRLWELv1::new();
    for i in 0..N
        invariant
            forall|k: int| 0 <= k < i ==> #[trigger] tmp.a[k] == torus(in2.a[k] - in1.a[k]),
            forall|k: int| 0 <= k < i ==> #[trigger] tmp.b[k] == torus(in2.b[k] - in1.b[k]),
    {
        proof {
            lemma_torus_id(in2.a[i as int]);
            lemma_torus_id(in1.a[i as int]);
            lemma_torus_id(in2.b[i as int]);
            lemma_torus_id(in1.b[i as int]);
            lemma_torus_sub(in2.a[i as int], in1.a[i as int], in2.a[i as int] as int, in1.a[i as int] as int);
            lemma_torus_sub(in2.b[i as int], in1.b[i as int], in2.b[i as int] as int, in1.b[i as int] as int);
        }
        tmp.a[i] = in2.a[i].wrapping_sub(in1.a[i]);
        tmp.b[i] = in2.b[i].wrapping_sub(in1.b[i]);
    }
    assert(tmp.a@ =~= poly_sub(in2.a@, in1.a@));
    assert(tmp.b@ =~= poly_sub(in2.b@, in1.b@));
    assert forall|i: int| 0 <= i < N implies torus(in1.a[i] + #[trigger] tmp.a[i]) == in2.a[i] by {
        lemma_undo_sub(in2.a[i], in1.a[i]);
    }
    assert forall|i: int| 0 <= i < N implies torus(in1.b[i] + #[trigger] tmp.b[i]) == in2.b[i] by {
        lemma_undo_sub(in2.b[i], in1.b[i]);
    }
    tmp
}

/// Completes a CMux: adds `in1` back to `product`, the external product of
/// the condition with `cmux_input(in1, in2)`. If the condition encrypts 0 the
/// result encrypts what `in1` does, else what `in2` does.
pub fn cmux(in1: &TRLWELv1, product: &TRLWELv1) -> (res: TRLWELv1)
    ensures
        res.a@ == poly_add(product.a@, in1.a@),
        res.b@ == poly_add(product.b@, in1.b@),
        forall|i: int| 0 <= i < N ==> torus(#[trigger] res.a[i] - in1.a[i]) == product.a[i],
        forall|i: int| 0 <= i < N ==> torus(#[trigger] res.b[i] - in1.b[i]) == product.b[i],
{
    let mut res = TRLWELv1::new();
    for i in 0..N
        invariant
            forall|k: int| 0 <= k < i ==> #[trigger] res.a[k] == torus(product.a[k] + in1.a[k]),
            forall|k: int| 0 <= k < i ==> #[trigger] res.b[k] == torus(product.b[k] + in1.b[k]),
    {
        proof {
            lemma_torus_id(product.a[i as int]);
            lemma_torus_id(in1.a[i as int]);
            lemma_torus_id(product.b[i as int]);
            lemma_torus_id(in1.b[i as int]);
            lemma_torus_add(product.a[i as int], in1.a[i as int], product.a[i as int] as int, in1.a[i as int] as int);
            lemma_torus_add(product.b[i as int], in1.b[i as int], product.b[i as int] as int, in1.b[i as int] as int);
        }
        res.a[i] = product.a[i].wrapping_add(in1.a[i]);
        res.b[i] = product.b[i].wrapping_add(in1.b[i]);
    }
    assert(res.a@ =~= poly_add(product.a@, in1.a@));
    assert(res.b@ =~= poly_add(product.b@, in1.b@));
    assert forall|i: int| 0 <= i < N implies torus(#[trigger] res.a[i] - in1.a[i]) == product.a[i] by {
        lemma_undo_add(product.a[i], in1.a[i]);
    }
    assert forall|i: int| 0 <= i < N implies torus(#[trigger] res.b[i] - in1.b[i]) == product.b[i] by {
        lemma_undo_add(product.b[i], in1.b[i]);
    }
    res
}

/// CMux selects: completing a CMux on the product that hands its input back
/// (a condition that encrypts 1) gives `in2`, and on a zero product (a
/// condition that encrypts 0) gives `in1`.
pub proof fn lemma_cmux_selects(in1: TRLWELv1, in2: TRLWELv1)
    ensures
        poly_add(poly_sub(in2.a@, in1.a@), in1.a@) == in2.a@,
        poly_add(poly_sub(in2.b@, in1.b@), in1.b@) == in2.b@,
        poly_add(poly_zero(), in1.a@) == in1.a@,
        poly_add(poly_zero(), in1.b@) == in1.b@,
{
    lemma_poly_select(in1.a@, in2.a@);
    lemma_poly_select(in1.b@, in2.b@);
}

/// Progress of the blind rotation of one level-0 ciphertext: the
/// accumulator, and how many mask elements have been folded into it.
#[derive(Debug, Clone, Copy)]
pub struct BlindRotation {
    pub acc: TRLWELv1,
    pub round: usize,
}

proof fn lemma_shr21_u64(x: u64)
    by (bit_vector)
    ensures
        x >> 21u64 == x / 0x20_0000,
        1u64 << 20u64 == 0x10_0000u64,
{
}

proof fn lemma_shr21_u32(x: u32)
    by (bit_vector)
    ensures
        x >> 21u32 == x / 0x20_0000,
        1u32 << 20u32 == 0x10_0000u32,
{
}

/// Starts the blind rotation of `src`: the accumulator is the test vector
/// multiplied by `X^b_tilda(b)`, and no mask element is folded in yet.
/// Each round then takes `next_input`, has the caller compute the external
/// product of bootstrapping key `round` with it, and hands that to `advance`.
pub fn blind_rotate(src: &TLWELv0, cloud_key: &CloudKey) -> (r: BlindRotation)
    ensures
        r.round == 0,
        r.acc.a@ == rotate(cloud_key.blind_rotate_testvec.a@, b_tilda(src.p[params::tlwe_lv0::N as int])),
        r.acc.b@ == rotate(cloud_key.blind_rotate_testvec.b@, b_tilda(src.p[params::tlwe_lv0::N as int])),
{
    let b: u32 = src.b();
    proof {
        lemma_shr21_u64(((b as u64) + 0x10_0000) as u64);
    }
    let rounded: usize = (((b as u64) + (1 << (31 - NBIT - 1))) >> (32 - NBIT - 1)) as usize;
    let b_tilda: usize = 2 * N - rounded;
    let acc = TRLWELv1 {
        a: poly_mul_with_x_k(&cloud_key.blind_rotate_testvec.a, b_tilda),
        b: poly_mul_with_x_k(&cloud_key.blind_rotate_testvec.b, b_tilda),
    };
    BlindRotation { acc, round: 0 }
}

impl BlindRotation {
    /// Whether every mask element of the input has been folded in.
    pub fn is_done(&self) -> (r: bool)
        ensures
            r == (self.round >= params::tlwe_lv0::N),
    {
        self.round >= params::tlwe_lv0::N
    }

    /// The input of this round's CMux external product: the accumulator
    /// times `X^a_tilda(a[round])`, minus the accumulator.
    pub fn next_input(&self, src: &TLWELv0) -> (r: TRLWELv1)
        requires
            self.round < params::tlwe_lv0::N,
        ensures
            r.a@ == poly_sub(rotate(self.acc.a@, a_tilda(src.p[self.round as int])), self.acc.a@),
            r.b@ == poly_sub(rotate(self.acc.b@, a_tilda(src.p[self.round as int])), self.acc.b@),
    {
        let x: u32 = src.p[self.round].wrapping_add(1 << (31 - NBIT - 1));
        proof {
            lemma_shr21_u32(x);
        }
        let a_tilda: usize = (x >> (32 - NBIT - 1)) as usize;
        let res2 = TRLWELv1 {
            a: poly_mul_with_x_k(&self.acc.a, a_tilda),
            b: poly_mul_with_x_k(&self.acc.b, a_tilda),
        };
        cmux_input(&self.acc, &res2)
    }

    /// Completes this round's CMux with `product`, the external product of
    /// bootstrapping key `round` with `next_input`, and moves to the next round.
    pub fn advance(&mut self, product: &TRLWELv1)
        requires
            old(self).round < params::tlwe_lv0::N,
        ensures
            final(self).round == old(self).round + 1,
            final(self).acc.a@ == poly_add(product.a@, old(self).acc.a@),
            final(self).acc.b@ == poly_add(product.b@, old(self).acc.b@),
    {
        self.acc = cmux(&self.acc, product);
        self.round = self.round + 1;
    }

    /// The accumulator: once every round is done, the blind-rotated test vector.
    pub fn result(&self) -> (r: TRLWELv1)
        ensures
            r == self.acc,
    {
        self.acc
    }
}

/// A level-1 TRGSW ciphertext: `L` rows that carry the message on `a` and
/// `L` rows that carry it on `b`, each a TRLWE ciphertext.
#[derive(Debug, Clone, Copy)]
pub struct TRGSWLv1 {
    pub trlwe: [TRLWELv1; ROWS],
}

/// Row `r`, coefficient `j`, of the `a` polynomials of `rows` after adding `p`
/// times the gadget: digit weight `gadget(r)` on the constant coefficient of row `r < L`.
pub open spec fn gadget_row_a(rows: Seq<TRLWELv1>, p: u32, r: int, j: int) -> u32 {
    if r < L && j == 0 {
        torus(rows[r].a[0] + p * gadget(r))
    } else {
        rows[r].a[j]
    }
}

/// Row `r`, coefficient `j`, of the `b` polynomials of `rows` after adding `p`
/// times the gadget: digit weight `gadget(r - L)` on the constant coefficient of row `r >= L`.
pub open spec fn gadget_row_b(rows: Seq<TRLWELv1>, p: u32, r: int, j: int) -> u32 {
    if r >= L && j == 0 {
        torus(rows[r].b[0] + p * gadget(r - L))
    } else {
        rows[r].b[j]
    }
}

/// The rows that `from_zero_rows` builds differ from the rows it is given by
/// exactly `p` times the gadget matrix: `p * 2^(32 - (r + 1) * BGBIT)` on the
/// constant coefficient of `a` in row `r < L`, `p * 2^(32 - (r - L + 1) * BGBIT)`
/// on the constant coefficient of `b` in row `r >= L`, and nothing anywhere else,
/// whatever the given rows hold.
pub proof fn lemma_from_zero_rows_adds_gadget(rows: Seq<TRLWELv1>, p: u32, r: int, j: int)
    ensures
        torus(gadget_row_a(rows, p, r, j) - rows[r].a[j]) == torus(
            if r < L && j == 0 {
                p * pow2((32 - (r + 1) * BGBIT) as nat)
            } else {
                0
            },
        ),
        torus(gadget_row_b(rows, p, r, j) - rows[r].b[j]) == torus(
            if r >= L && j == 0 {
                p * pow2((32 - (r - L + 1) * BGBIT) as nat)
            } else {
                0
            },
        ),
{
    let xa = rows[r].a[j] as int;
    let xb = rows[r].b[j] as int;
    if r < L && j == 0 {
        let w = p * pow2((32 - (r + 1) * BGBIT) as nat);
        lemma_torus_torus(xa + w);
        lemma_torus_congruent(torus(xa + w) as int, xa + w, -xa);
        assert(torus(xa + w) - xa == torus(xa + w) as int + -xa);
        assert(xa + w + -xa == w);
    } else {
        assert(xa - xa == 0);
    }
    if r >= L && j == 0 {
        let w = p * pow2((32 - (r - L + 1) * BGBIT) as nat);
        lemma_torus_torus(xb + w);
        lemma_torus_congruent(torus(xb + w) as int, xb + w, -xb);
        assert(torus(xb + w) - xb == torus(xb + w) as int + -xb);
        assert(xb + w + -xb == w);
    } else {
        assert(xb - xb == 0);
    }
}

impl TRGSWLv1 {
    /// The all-zero TRGSW ciphertext.
    pub fn new() -> (r: TRGSWLv1)
        ensures
            forall|row: int, j: int| 0 <= row < ROWS && 0 <= j < N ==> #[trigger] r.trlwe[row].a[j] == 0,
            forall|row: int, j: int| 0 <= row < ROWS && 0 <= j < N ==> #[trigger] r.trlwe[row].b[j] == 0,
    {
        TRGSWLv1 { trlwe: [TRLWELv1::new(); ROWS] }
    }

    /// The TRGSW ciphertext of the integer `p` built on `rows`, `ROWS`
    /// encryptions of zero: `p * BG^-(i + 1)` is added to the constant
    /// coefficient of `a` in row `i` and of `b` in row `L + i`, for `i < L`.
    pub fn from_zero_rows(rows: [TRLWELv1; ROWS], p: u32) -> (r: TRGSWLv1)
        requires
            p * gadget(0) <= u32::MAX,
        ensures
            forall|row: int, j: int|
                0 <= row < ROWS && 0 <= j < N ==> #[trigger] r.trlwe[row].a[j] == gadget_row_a(
                    rows@,
                    p,
                    row,
                    j,
                ),
            forall|row: int, j: int|
                0 <= row < ROWS && 0 <= j < N ==> #[trigger] r.trlwe[row].b[j] == gadget_row_b(
                    rows@,
                    p,
                    row,
                    j,
                ),
            forall|row: int, j: int|
                0 <= row < ROWS && 0 <= j < N ==> torus(#[trigger] r.trlwe[row].a[j] - rows@[row].a[j])
                    == torus(
                    if row < L && j == 0 {
                        p * pow2((32 - (row + 1) * BGBIT) as nat)
                    } else {
                        0
                    },
                ),
            forall|row: int, j: int|
                0 <= row < ROWS && 0 <= j < N ==> torus(#[trigger] r.trlwe[row].b[j] - rows@[row].b[j])
                    == torus(
                    if row >= L && j == 0 {
                        p * pow2((32 - (row - L + 1) * BGBIT) as nat)
                    } else {
                        0
                    },
                ),
    {
        proof {
            assert forall|row: int, j: int| 0 <= row < ROWS && 0 <= j < N implies {
                &&& torus(gadget_row_a(rows@, p, row, j) - rows@[row].a[j]) == torus(
                    if row < L && j == 0 {
                        p * pow2((32 - (row + 1) * BGBIT) as nat)
                    } else {
                        0
                    },
                )
                &&& torus(gadget_row_b(rows@, p, row, j) - rows@[row].b[j]) == torus(
                    if row >= L && j == 0 {
                        p * pow2((32 - (row - L + 1) * BGBIT) as nat)
                    } else {
                        0
                    },
                )
            } by {
                lemma_from_zero_rows_adds_gadget(rows@, p, row, j);
            }
        }
        let mut trgsw = TRGSWLv1 { trlwe: rows };
        proof {
            vstd::arithmetic::power2::lemma2_to64();
        }
        for i in 0..L
            invariant
                p * gadget(0) <= u32::MAX,
                forall|row: int, j: int|
                    0 <= row < ROWS && 0 <= j < N ==> #[trigger] trgsw.trlwe[row].a[j] == if row
                        < i {
                        gadget_row_a(rows@, p, row, j)
                    } else {
                        rows@[row].a[j]
                    },
                forall|row: int, j: int|
                    0 <= row < ROWS && 0 <= j < N ==> #[trigger] trgsw.trlwe[row].b[j] == if L
                        <= row < L + i {
                        gadget_row_b(rows@, p, row, j)
                    } else {
                        rows@[row].b[j]
                    },
        {
            let shift: u32 = 32 - ((i as u32) + 1) * BGBIT;
            proof {
                vstd::bits::lemma_u32_pow2_no_overflow(shift as nat);
                vstd::bits::lemma_u32_shl_is_mul(1, shift);
                vstd::arithmetic::power2::lemma2_to64();
                assert(gadget(i as int) == pow2(shift as nat));
                if i == 0 {
                    assert(gadget(i as int) == 0x400_0000);
                } else if i == 1 {
                    assert(gadget(i as int) == 0x10_0000);
                } else {
                    assert(gadget(i as int) == 0x4000);
                }
                assert(gadget(0) == 0x400_0000);
            }
            let p_torus: u32 = 1u32 << shift;
            assert(p * p_torus <= p * gadget(0)) by (nonlinear_arith)
                requires
                    p_torus <= gadget(0),
            ;
            let weighted: u32 = p * p_torus;
            let mut row_a = trgsw.trlwe[i];
            let mut row_b = trgsw.trlwe[i + L];
            proof {
                lemma_torus_id(weighted);
                lemma_torus_id(row_a.a[0]);
                lemma_torus_id(row_b.b[0]);
                lemma_torus_add(row_a.a[0], weighted, row_a.a[0] as int, weighted as int);
                lemma_torus_add(row_b.b[0], weighted, row_b.b[0] as int, weighted as int);
            }
            row_a.a[0] = row_a.a[0].wrapping_add(weighted);
            row_b.b[0] = row_b.b[0].wrapping_add(weighted);
            assert(row_a.a[0] == gadget_row_a(rows@, p, i as int, 0));
            assert(row_b.b[0] == gadget_row_b(rows@, p, i + L, 0));
            trgsw.trlwe[i] = row_a;
            trgsw.trlwe[i + L] = row_b;
        }
        trgsw
    }
}

proof fn lemma_mask_bound(v: u32)
    by (bit_vector)
    ensures
        v & 3u32 <= 3u32,
{
}

/// Switches a level-1 TLWE ciphertext to level 0 with the key-switching key:
/// the body is kept, and every non-zero digit of every mask element
/// subtracts the key entry it selects.
pub fn identity_key_switching(src: &TLWELv1, key_switching_key: &KeySwitchingKey) -> (res: TLWELv0)
    requires
        key_switching_key@.len() >= BASE * IKS_T * N,
    ensures
        forall|x: int|
            0 <= x < LV0_LEN ==> #[trigger] res.p[x] == key_switched(*src, key_switching_key@, x),
{
    let mut res = TLWELv0::new();
    res.p[params::tlwe_lv0::N] = src.p[src.p.len() - 1];
    assert forall|x: int| 0 <= x < LV0_LEN implies #[trigger] res.p[x] == torus(
        (if x == params::tlwe_lv0::N { src.p[params::tlwe_lv1::N as int] as int } else { 0 })
            - ks_sum(src.p@, key_switching_key@, x, 0),
    ) by {
        vstd::arithmetic::div_mod::lemma_small_mod(res.p[x] as nat, modulus() as nat);
    }
    for i in 0..N
        invariant
            key_switching_key@.len() >= BASE * IKS_T * N,
            forall|x: int|
                0 <= x < LV0_LEN ==> #[trigger] res.p[x] == torus(
                    (if x == params::tlwe_lv0::N { src.p[params::tlwe_lv1::N as int] as int } else { 0 })
                        - ks_sum(src.p@, key_switching_key@, x, i * IKS_T),
                ),
    {
        let a_bar: u32 = src.p[i].wrapping_add(PREC_OFFSET);
        for j in 0..IKS_T
            invariant
                i < N,
                a_bar == torus(src.p[i as int] + PREC_OFFSET),
                key_switching_key@.len() >= BASE * IKS_T * N,
                forall|x: int|
                    0 <= x < LV0_LEN ==> #[trigger] res.p[x] == torus(
                        (if x == params::tlwe_lv0::N { src.p[params::tlwe_lv1::N as int] as int } else { 0 })
                            - ks_sum(src.p@, key_switching_key@, x, i * IKS_T + j),
                    ),
        {
            let k: u32 = (a_bar >> (32 - (j + 1) * BASEBIT)) & BASE_MASK;
            let ghost t = i * IKS_T + j;
            proof {
                lemma_mask_bound(a_bar >> (32 - (j + 1) * BASEBIT));
                assert(BASE * IKS_T * i == 32 * i && BASE * j == 4 * j);
            }
            assert(k == ks_digit(src.p[i as int], j as int));
            assert((t + 1 - 1) / IKS_T as int == i && (t + 1 - 1) % IKS_T as int == j);
            if k != 0 {
                let idx: usize = (BASE * IKS_T * i) + (BASE * j) + k as usize;
                let ghost entry = key_switching_key@[idx as int];
                for x in 0..LV0_LEN
                    invariant
                        i < N,
                        j < IKS_T,
                        t == i * IKS_T + j,
                        idx == ks_index(i as int, j as int, k as int),
                        k == ks_digit(src.p[i as int], j as int),
                        k != 0,
                        idx < key_switching_key@.len(),
                        entry == key_switching_key@[idx as int],
                        (t + 1 - 1) / IKS_T as int == i && (t + 1 - 1) % IKS_T as int == j,
                        forall|y: int|
                            0 <= y < LV0_LEN ==> #[trigger] res.p[y] == torus(
                                (if y == params::tlwe_lv0::N { src.p[params::tlwe_lv1::N as int] as int } else { 0 })
                                    - ks_sum(src.p@, key_switching_key@, y, if y < x { t + 1 } else { t }),
                            ),
                {
                    proof {
                        lemma_torus_id(entry.p[x as int]);
                        lemma_torus_sub(
                            res.p[x as int],
                            entry.p[x as int],
                            (if x == params::tlwe_lv0::N { src.p[params::tlwe_lv1::N as int] as int } else { 0 })
                                - ks_sum(src.p@, key_switching_key@, x as int, t),
                            entry.p[x as int] as int,
                        );
                    }
                    res.p[x] = res.p[x].wrapping_sub(key_switching_key[idx].p[x]);
                }
            }
        }
    }
    res
}

} // verus!
