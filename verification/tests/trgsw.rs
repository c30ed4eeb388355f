use rs_tfhe::key::{gen_decomposition_offset, CloudKey, KeySwitchingKey};
use rs_tfhe::params;
use rs_tfhe::tlwe::{TLWELv0, TLWELv1};
use rs_tfhe::trgsw::{
    blind_rotate, cmux, cmux_input, decomposition, identity_key_switching, poly_mul_with_x_k,
    TRGSWLv1, ROWS,
};
use rs_tfhe::trlwe::TRLWELv1;

const N: usize = params::trgsw_lv1::N;
const L: usize = params::trgsw_lv1::L;

/// Deterministic generator for test data (a 64-bit LCG).
struct Lcg(u64);

impl Lcg {
    fn next_u32(&mut self) -> u32 {
        self.0 = self.0.wrapping_mul(6364136223846793005).wrapping_add(1442695040888963407);
        (self.0 >> 32) as u32
    }
    fn next_bool(&mut self) -> bool {
        self.next_u32() & 1 == 1
    }
    /// Small noise in [-2^k, 2^k).
    fn noise(&mut self, k: u32) -> u32 {
        (self.next_u32() >> (31 - k)).wrapping_sub(1 << k)
    }
}

fn encode_bool(b: bool) -> u32 {
    if b {
        1u32 << 29
    } else {
        (1u32 << 29).wrapping_neg()
    }
}

fn decode(x: u32) -> bool {
    (x as i32) > 0
}

/// `a * s` in Z_2^32[X] / (X^N + 1), coefficient by coefficient.
fn poly_mul(a: &[u32; N], s: &[u32; N]) -> [u32; N] {
    let mut res = [0u32; N];
    for i in 0..N {
        if a[i] == 0 {
            continue;
        }
        for j in 0..N {
            if s[j] == 0 {
                continue;
            }
            let p = a[i].wrapping_mul(s[j]);
            if i + j < N {
                res[i + j] = res[i + j].wrapping_add(p);
            } else {
                res[i + j - N] = res[i + j - N].wrapping_sub(p);
            }
        }
    }
    res
}

fn encrypt_trlwe(rng: &mut Lcg, plain: &[bool], key: &[u32; N]) -> TRLWELv1 {
    let mut c = TRLWELv1::new();
    for i in 0..N {
        c.a[i] = rng.next_u32();
    }
    let as_ = poly_mul(&c.a, key);
    for i in 0..N {
        c.b[i] = as_[i].wrapping_add(encode_bool(plain[i])).wrapping_add(rng.noise(10));
    }
    c
}

fn decrypt_trlwe(c: &TRLWELv1, key: &[u32; N]) -> Vec<bool> {
    let as_ = poly_mul(&c.a, key);
    (0..N).map(|i| decode(c.b[i].wrapping_sub(as_[i]))).collect()
}

fn binary_key(rng: &mut Lcg) -> [u32; N] {
    let mut k = [0u32; N];
    for i in 0..N {
        k[i] = rng.next_u32() & 1;
    }
    k
}

fn cloud_key(ksk: KeySwitchingKey) -> CloudKey {
    let mut testvec = TRLWELv1::new();
    for i in 0..N {
        testvec.b[i] = 1u32 << 29;
    }
    CloudKey {
        decomposition_offset: gen_decomposition_offset(),
        blind_rotate_testvec: testvec,
        key_switching_key: ksk,
    }
}

/// The gadget weights `BG^-(i + 1)` on the torus.
fn gadget() -> [u32; L] {
    [1 << 26, 1 << 20, 1 << 14]
}

/// Exact external product of a TRGSW ciphertext with `input`, the sum over
/// the rows of the decomposition times the row, skipping zero coefficients.
fn external_product(trgsw: &TRGSWLv1, input: &TRLWELv1, ck: &CloudKey) -> TRLWELv1 {
    let dec = decomposition(input, ck);
    let mut out = TRLWELv1::new();
    for r in 0..ROWS {
        let pa = poly_mul(&trgsw.trlwe[r].a, &dec[r]);
        let pb = poly_mul(&trgsw.trlwe[r].b, &dec[r]);
        for i in 0..N {
            out.a[i] = out.a[i].wrapping_add(pa[i]);
            out.b[i] = out.b[i].wrapping_add(pb[i]);
        }
    }
    out
}

fn trivial_trgsw(p: u32) -> TRGSWLv1 {
    TRGSWLv1::from_zero_rows([TRLWELv1::new(); ROWS], p)
}

fn torus_distance(x: u32, y: u32) -> u32 {
    let d = x.wrapping_sub(y);
    d.min(d.wrapping_neg())
}

#[test]
fn test_decomposition() {
    let mut rng = Lcg(1);
    let cloud_key = cloud_key(Vec::new());
    let key = binary_key(&mut rng);
    let h = gadget();
    let try_num = 1000;
    for _i in 0..try_num {
        let plain_text: Vec<bool> = (0..N).map(|_| rng.next_bool()).collect();
        let c = encrypt_trlwe(&mut rng, &plain_text, &key);
        let c_decomp = decomposition(&c, &cloud_key);
        let mut res = TRLWELv1::new();
        for j in 0..N {
            let mut tmp0: u32 = 0;
            let mut tmp1: u32 = 0;
            for k in 0..L {
                tmp0 = tmp0.wrapping_add(c_decomp[k][j].wrapping_mul(h[k]));
                tmp1 = tmp1.wrapping_add(c_decomp[k + L][j].wrapping_mul(h[k]));
            }
            res.a[j] = tmp0;
            res.b[j] = tmp1;
            assert!(torus_distance(res.a[j], c.a[j]) <= 1 << 13);
            assert!(torus_distance(res.b[j], c.b[j]) <= 1 << 13);
        }
        let dec = decrypt_trlwe(&res, &key);
        for j in 0..N {
            assert_eq!(plain_text[j], dec[j]);
        }
    }
}

#[test]
fn test_cmux() {
    let mut rng = Lcg(2);
    let key = binary_key(&mut rng);
    let cloud_key = cloud_key(Vec::new());
    let trgsw_true = trivial_trgsw(1);
    let trgsw_false = trivial_trgsw(0);
    let try_num = 100;
    for _i in 0..try_num {
        let plain_text_1: Vec<bool> = (0..N).map(|_| rng.next_bool()).collect();
        let plain_text_2: Vec<bool> = (0..N).map(|_| rng.next_bool()).collect();
        let c1 = encrypt_trlwe(&mut rng, &plain_text_1, &key);
        let c2 = encrypt_trlwe(&mut rng, &plain_text_2, &key);
        let input = cmux_input(&c1, &c2);
        let enc_1 = cmux(&c1, &external_product(&trgsw_false, &input, &cloud_key));
        let enc_2 = cmux(&c1, &external_product(&trgsw_true, &input, &cloud_key));
        let dec_1 = decrypt_trlwe(&enc_1, &key);
        let dec_2 = decrypt_trlwe(&enc_2, &key);
        for j in 0..N {
            assert_eq!(plain_text_1[j], dec_1[j]);
            assert_eq!(plain_text_2[j], dec_2[j]);
        }
    }
}

fn encrypt_tlwe_lv0(rng: &mut Lcg, plain: bool, key: &[u32]) -> TLWELv0 {
    let n = params::tlwe_lv0::N;
    let mut c = TLWELv0::new();
    let mut b = encode_bool(plain).wrapping_add(rng.noise(12));
    for i in 0..n {
        c.p[i] = rng.next_u32();
        b = b.wrapping_add(c.p[i].wrapping_mul(key[i]));
    }
    c.p[n] = b;
    c
}

fn decrypt_tlwe_lv0(c: &TLWELv0, key: &[u32]) -> bool {
    let n = params::tlwe_lv0::N;
    let mut b = c.p[n];
    for i in 0..n {
        b = b.wrapping_sub(c.p[i].wrapping_mul(key[i]));
    }
    decode(b)
}

#[test]
fn test_blind_rotate() {
    let mut rng = Lcg(3);
    let n0 = params::tlwe_lv0::N;
    let key_lv0: Vec<u32> = (0..n0).map(|_| rng.next_u32() & 1).collect();
    let bootstrapping_key: Vec<TRGSWLv1> = key_lv0.iter().map(|s| trivial_trgsw(*s)).collect();
    let cloud_key = cloud_key(Vec::new());
    let try_num = 10;
    for _i in 0..try_num {
        let plain_text = rng.next_bool();
        let tlwe = encrypt_tlwe_lv0(&mut rng, plain_text, &key_lv0);
        let mut rotation = blind_rotate(&tlwe, &cloud_key);
        while !rotation.is_done() {
            let input = rotation.next_input(&tlwe);
            let product = external_product(&bootstrapping_key[rotation.round], &input, &cloud_key);
            rotation.advance(&product);
        }
        let trlwe = rotation.result();
        // The trivial keys leave `a` at zero, so coefficient 0 of `b` is the
        // body of the sample extracted at index 0.
        assert_eq!(plain_text, decode(trlwe.b[0]));
    }
}

#[test]
fn test_identity_key_switching() {
    let mut rng = Lcg(4);
    let n0 = params::tlwe_lv0::N;
    let n1 = params::tlwe_lv1::N;
    let key_lv0: Vec<u32> = (0..n0).map(|_| rng.next_u32() & 1).collect();
    let key_lv1: Vec<u32> = (0..n1).map(|_| rng.next_u32() & 1).collect();
    let base = 4u32;
    let t = params::trgsw_lv1::IKS_T;
    let mut ksk: KeySwitchingKey = Vec::with_capacity(n1 * t * base as usize);
    for i in 0..n1 {
        for j in 0..t {
            for k in 0..base {
                // Encrypts k * s1[i] / BASE^(j + 1).
                let shift = 32 - 2 * (j as u32 + 1);
                let msg = (k * key_lv1[i]).wrapping_shl(shift);
                let mut c = TLWELv0::new();
                let mut b = msg.wrapping_add(rng.noise(4));
                for x in 0..n0 {
                    c.p[x] = rng.next_u32();
                    b = b.wrapping_add(c.p[x].wrapping_mul(key_lv0[x]));
                }
                c.p[n0] = b;
                ksk.push(c);
            }
        }
    }
    let cloud_key = cloud_key(ksk);
    let try_num = 100;
    for _i in 0..try_num {
        let plain_text = rng.next_bool();
        let mut tlwe_lv1 = TLWELv1::new();
        let mut b = encode_bool(plain_text).wrapping_add(rng.noise(12));
        for i in 0..n1 {
            tlwe_lv1.p[i] = rng.next_u32();
            b = b.wrapping_add(tlwe_lv1.p[i].wrapping_mul(key_lv1[i]));
        }
        tlwe_lv1.p[n1] = b;
        let tlwe_lv0 = identity_key_switching(&tlwe_lv1, &cloud_key.key_switching_key);
        let dec = decrypt_tlwe_lv0(&tlwe_lv0, &key_lv0);
        assert_eq!(plain_text, dec);
    }
}
