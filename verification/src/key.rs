use crate::params::trgsw_lv1::{BGBIT, L};
use crate::tlwe::TLWELv0;
use crate::gadget::{gadget, rounding_offset, weighted_sum, HALF_BG};
use crate::trlwe::TRLWELv1;
use vstd::prelude::*;

verus! {

/// Key-switching key from level 1 to level 0: entry
/// `BASE * IKS_T * i + BASE * j + k` encrypts `k * s1[i] / BASE^(j+1)`.
pub type KeySwitchingKey = Vec<TLWELv0>;

/// The public evaluation material that the integer operations read.
pub struct CloudKey {
    /// Added to every torus element before gadget decomposition.
    pub decomposition_offset: u32,
    /// Test polynomial that blind rotation starts from.
    pub blind_rotate_testvec: TRLWELv1,
    /// Key-switching key from level 1 to level 0.
    pub key_switching_key: KeySwitchingKey,
}

/// The decomposition offset that cloud keys carry: `HALF_BG` times the
/// weight of every digit, which centres the digits, plus half the weight of
/// the last digit, which makes decomposition round to nearest.
pub fn gen_decomposition_offset() -> (offset: u32)
    ensures
        offset == rounding_offset(),
{
    let ghost ones = Seq::new(L as nat, |k: int| 1u32);
    let mut offset: u32 = 0;
    proof {
        vstd::arithmetic::power2::lemma2_to64();
        reveal_with_fuel(weighted_sum, 4);
        assert(gadget(0) == 0x400_0000 && gadget(1) == 0x10_0000 && gadget(2) == 0x4000);
    }
    for i in 0..L
        invariant
            ones == Seq::new(L as nat, |k: int| 1u32),
            gadget(0) == 0x400_0000 && gadget(1) == 0x10_0000 && gadget(2) == 0x4000,
            offset == HALF_BG * weighted_sum(ones, i as int),
            offset <= HALF_BG * weighted_sum(ones, L as int),
            weighted_sum(ones, L as int) == 0x400_0000 + 0x10_0000 + 0x4000,
    {
        let shift: u32 = 32 - ((i as u32) + 1) * BGBIT;
        proof {
            vstd::arithmetic::power2::lemma2_to64();
            vstd::bits::lemma_u32_pow2_no_overflow(shift as nat);
            vstd::bits::lemma_u32_shl_is_mul(1, shift);
            assert(gadget(i as int) == vstd::arithmetic::power2::pow2(shift as nat));
            reveal_with_fuel(weighted_sum, 4);
        }
        offset = offset + HALF_BG * (1u32 << shift);
    }
    let shift: u32 = 32 - (L as u32) * BGBIT - 1;
    proof {
        vstd::arithmetic::power2::lemma2_to64();
        vstd::bits::lemma_u32_shl_is_mul(1, shift);
    }
    offset + (1u32 << shift)
}

} // verus!
