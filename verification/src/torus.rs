use vstd::prelude::*;

verus! {

/// Number of points of the discretised torus: a `u32` `x` stands for `x / 2^32`.
pub open spec fn modulus() -> int {
    0x1_0000_0000
}

/// The torus element that an integer stands for.
pub open spec fn torus(x: int) -> u32 {
    (x % modulus()) as u32
}

/// A `u32` is its own torus element.
pub proof fn lemma_torus_id(x: u32)
    ensures
        torus(x as int) == x,
{
    vstd::arithmetic::div_mod::lemma_small_mod(x as nat, modulus() as nat);
}

/// Integers that differ by a multiple of `2^32` stand for the same torus element.
pub proof fn lemma_torus_shift(x: int, q: int)
    ensures
        torus(x + modulus() * q) == torus(x),
{
    vstd::arithmetic::div_mod::lemma_mod_multiples_vanish(q, x, modulus());
}

/// Integers that stand for the same torus element still do after adding
/// the same integer, or after both being subtracted from the same integer.
pub proof fn lemma_torus_congruent(x: int, y: int, z: int)
    requires
        torus(x) == torus(y),
    ensures
        torus(x + z) == torus(y + z),
        torus(z - x) == torus(z - y),
{
    let m = modulus();
    vstd::arithmetic::div_mod::lemma_mod_bound(x, m);
    vstd::arithmetic::div_mod::lemma_mod_bound(y, m);
    assert(x % m == y % m);
    vstd::arithmetic::div_mod::lemma_add_mod_noop(x, z, m);
    vstd::arithmetic::div_mod::lemma_add_mod_noop(y, z, m);
    vstd::arithmetic::div_mod::lemma_sub_mod_noop(z, x, m);
    vstd::arithmetic::div_mod::lemma_sub_mod_noop(z, y, m);
}

/// A torus element read back as an integer stands for itself.
pub proof fn lemma_torus_torus(x: int)
    ensures
        torus(torus(x) as int) == torus(x),
{
    lemma_torus_id(torus(x));
}

/// Multiplying by an integer respects the torus: `torus(torus(x) * s) == torus(x * s)`.
pub proof fn lemma_torus_mul(x: int, s: int)
    ensures
        torus(torus(x) * s) == torus(x * s),
{
    let m = modulus();
    vstd::arithmetic::div_mod::lemma_mod_bound(x, m);
    vstd::arithmetic::div_mod::lemma_mul_mod_noop_left(x, s, m);
}

/// `wrapping_add` on `u32` is addition on the torus, also after earlier reductions.
pub proof fn lemma_torus_add(u: u32, v: u32, s: int, t: int)
    requires
        u == torus(s),
        v == torus(t),
    ensures
        torus(s + t) == (if u + v > u32::MAX { u + v - modulus() } else { u + v }),
{
    let m = modulus();
    vstd::arithmetic::div_mod::lemma_add_mod_noop(s, t, m);
    if u + v > u32::MAX {
        vstd::arithmetic::div_mod::lemma_mod_sub_multiples_vanish(u + v, m);
        vstd::arithmetic::div_mod::lemma_small_mod((u + v - m) as nat, m as nat);
    } else {
        vstd::arithmetic::div_mod::lemma_small_mod((u + v) as nat, m as nat);
    }
}

/// `wrapping_sub` on `u32` is subtraction on the torus, also after earlier reductions.
pub proof fn lemma_torus_sub(u: u32, v: u32, s: int, t: int)
    requires
        u == torus(s),
        v == torus(t),
    ensures
        torus(s - t) == (if u - v < 0 { u - v + modulus() } else { u - v }),
{
    let m = modulus();
    vstd::arithmetic::div_mod::lemma_sub_mod_noop(s, t, m);
    if u - v < 0 {
        vstd::arithmetic::div_mod::lemma_mod_add_multiples_vanish(u - v, m);
        vstd::arithmetic::div_mod::lemma_small_mod((u - v + m) as nat, m as nat);
    } else {
        vstd::arithmetic::div_mod::lemma_small_mod((u - v) as nat, m as nat);
    }
}

} // verus!
