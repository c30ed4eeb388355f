use crate::params::trgsw_lv1::N;
use crate::torus::{lemma_torus_id, lemma_torus_shift, modulus, torus};
use vstd::prelude::*;

verus! {

/// A level-1 TRLWE ciphertext `(a, b)`: two polynomials of `T[X] / (X^N + 1)`.
#[derive(Debug, Clone, Copy)]
pub struct TRLWELv1 {
    pub a: [u32; N],
    pub b: [u32; N],
}

impl TRLWELv1 {
    /// The all-zero ciphertext.
    pub fn new() -> (r: TRLWELv1)
        ensures
            forall|i: int| 0 <= i < N ==> r.a[i] == 0 && r.b[i] == 0,
    {
        TRLWELv1 { a: [0u32; N], b: [0u32; N] }
    }
}

/// Coefficient-wise sum of two polynomials on the torus.
pub open spec fn poly_add(p: Seq<u32>, q: Seq<u32>) -> Seq<u32> {
    Seq::new(N as nat, |i: int| torus(p[i] + q[i]))
}

/// Coefficient-wise difference of two polynomials on the torus.
pub open spec fn poly_sub(p: Seq<u32>, q: Seq<u32>) -> Seq<u32> {
    Seq::new(N as nat, |i: int| torus(p[i] - q[i]))
}

/// The zero polynomial.
pub open spec fn poly_zero() -> Seq<u32> {
    Seq::new(N as nat, |i: int| 0u32)
}

/// Adding `p` back to `q - p` gives `q`; adding it to zero gives `p`.
pub proof fn lemma_poly_select(p: Seq<u32>, q: Seq<u32>)
    requires
        p.len() == N,
        q.len() == N,
    ensures
        poly_add(poly_sub(q, p), p) == q,
        poly_add(poly_zero(), p) == p,
{
    assert forall|i: int| 0 <= i < N implies #[trigger] poly_add(poly_sub(q, p), p)[i] == q[i] by {
        let m = modulus();
        vstd::arithmetic::div_mod::lemma_fundamental_div_mod(q[i] - p[i], m);
        lemma_torus_shift(q[i] as int, -((q[i] - p[i]) / m));
        lemma_torus_id(q[i]);
    }
    assert forall|i: int| 0 <= i < N implies #[trigger] poly_add(poly_zero(), p)[i] == p[i] by {
        lemma_torus_id(p[i]);
    }
    assert(poly_add(poly_sub(q, p), p) =~= q);
    assert(poly_add(poly_zero(), p) =~= p);
}

} // verus!
