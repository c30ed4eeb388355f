use rs_tfhe::key::{gen_decomposition_offset, CloudKey};
use rs_tfhe::params;
use rs_tfhe::tlwe::{TLWELv0, TLWELv1};
use rs_tfhe::trgsw::{
    blind_rotate, cmux, cmux_input, decomposition, identity_key_switching, poly_mul_with_x_k,
    TRGSWLv1, ROWS,
};
use rs_tfhe::trlwe::TRLWELv1;

const N: usize = params::trgsw_lv1::N;

fn ramp() -> [u32; N] {
    let mut a = [0u32; N];
    for i in 0..N {
        a[i] = (i as u32 + 1).wrapping_mul(0x9e37_79b9);
    }
    a
}

fn key_with_offset(offset: u32) -> CloudKey {
    let mut testvec = TRLWELv1::new();
    for i in 0..N {
        testvec.b[i] = 1u32 << 29;
    }
    CloudKey { decomposition_offset: offset, blind_rotate_testvec: testvec, key_switching_key: Vec::new() }
}

#[test]
fn poly_mul_with_x_k_by_one_shifts_and_negates_the_top() {
    let a = ramp();
    let r = poly_mul_with_x_k(&a, 1);
    assert_eq!(r[0], u32::MAX - a[N - 1]);
    for m in 1..N {
        assert_eq!(r[m], a[m - 1]);
    }
}

#[test]
fn poly_mul_with_x_k_by_n_negates_and_by_2n_is_identity() {
    let a = ramp();
    assert_eq!(poly_mul_with_x_k(&a, 0), a);
    assert_eq!(poly_mul_with_x_k(&a, 2 * N), a);
    let r = poly_mul_with_x_k(&a, N);
    for m in 0..N {
        assert_eq!(r[m], u32::MAX - a[m]);
    }
    let r = poly_mul_with_x_k(&a, N + 1);
    assert_eq!(r[0], a[N - 1]);
    for m in 1..N {
        assert_eq!(r[m], u32::MAX - a[m - 1]);
    }
}

#[test]
fn poly_mul_with_x_k_composes() {
    let a = ramp();
    assert_eq!(poly_mul_with_x_k(&poly_mul_with_x_k(&a, 700), 900), poly_mul_with_x_k(&a, 1600));
    assert_eq!(poly_mul_with_x_k(&poly_mul_with_x_k(&a, 1500), 1000), poly_mul_with_x_k(&a, 452));
    assert_eq!(poly_mul_with_x_k(&poly_mul_with_x_k(&a, 1024), 1024), a);
}

#[test]
fn decomposition_offset_value() {
    assert_eq!(gen_decomposition_offset(), 0x8208_2000);
}

#[test]
fn decomposition_digits_of_one_coefficient() {
    let ck = key_with_offset(gen_decomposition_offset());
    let mut c = TRLWELv1::new();
    c.a[0] = 0x1234_5678;
    c.b[5] = 0x1234_5678;
    let d = decomposition(&c, &ck);
    // 0x1234_5678 + 0x8208_2000 = 0x943c_7678: digits 37, 3, 49, centred.
    assert_eq!([d[0][0], d[1][0], d[2][0]], [5, 3u32.wrapping_sub(32), 17]);
    assert_eq!([d[3][5], d[4][5], d[5][5]], [5, 3u32.wrapping_sub(32), 17]);
    // Zero coefficients decompose into zero digits.
    for r in 0..ROWS {
        assert_eq!(d[r][1], 0);
    }
    let rec = d[0][0]
        .wrapping_mul(1 << 26)
        .wrapping_add(d[1][0].wrapping_mul(1 << 20))
        .wrapping_add(d[2][0].wrapping_mul(1 << 14));
    assert_eq!(rec, 0x1234_4000);
    assert_eq!(0x1234_5678u32.wrapping_sub(rec), 0x1678);
}

#[test]
fn decomposition_with_zero_offset_truncates() {
    let ck = key_with_offset(0);
    let a = ramp();
    let mut c = TRLWELv1::new();
    c.a = a;
    let d = decomposition(&c, &ck);
    let centring: u32 = 32 * ((1 << 26) + (1 << 20) + (1 << 14));
    for j in 0..N {
        let rec = d[0][j]
            .wrapping_mul(1 << 26)
            .wrapping_add(d[1][j].wrapping_mul(1 << 20))
            .wrapping_add(d[2][j].wrapping_mul(1 << 14));
        assert_eq!(rec, (a[j] - a[j] % (1 << 14)).wrapping_sub(centring));
        for r in 0..3 {
            assert!(d[r][j].wrapping_add(32) < 64);
        }
    }
}

#[test]
fn cmux_selects_between_its_inputs() {
    let mut in1 = TRLWELv1::new();
    let mut in2 = TRLWELv1::new();
    let a = ramp();
    for i in 0..N {
        in1.a[i] = a[i];
        in1.b[i] = a[N - 1 - i];
        in2.a[i] = a[i].rotate_left(7);
        in2.b[i] = 17 * i as u32;
    }
    let input = cmux_input(&in1, &in2);
    assert_eq!(input.a[3], in2.a[3].wrapping_sub(in1.a[3]));
    let chose_2 = cmux(&in1, &input);
    assert_eq!(chose_2.a, in2.a);
    assert_eq!(chose_2.b, in2.b);
    let chose_1 = cmux(&in1, &TRLWELv1::new());
    assert_eq!(chose_1.a, in1.a);
    assert_eq!(chose_1.b, in1.b);
}

#[test]
fn trgsw_new_is_zero_and_from_zero_rows_adds_the_gadget() {
    let z = TRGSWLv1::new();
    for r in 0..ROWS {
        assert_eq!(z.trlwe[r].a, [0u32; N]);
        assert_eq!(z.trlwe[r].b, [0u32; N]);
    }
    let mut rows = [TRLWELv1::new(); ROWS];
    rows[0].a[0] = u32::MAX;
    rows[4].b[3] = 9;
    let g = TRGSWLv1::from_zero_rows(rows, 3);
    assert_eq!(g.trlwe[0].a[0], (3u32 << 26).wrapping_add(u32::MAX));
    assert_eq!(g.trlwe[1].a[0], 3 << 20);
    assert_eq!(g.trlwe[2].a[0], 3 << 14);
    assert_eq!(g.trlwe[3].b[0], 3 << 26);
    assert_eq!(g.trlwe[4].b[0], 3 << 20);
    assert_eq!(g.trlwe[5].b[0], 3 << 14);
    assert_eq!(g.trlwe[4].b[3], 9);
    assert_eq!(g.trlwe[0].b[0], 0);
    assert_eq!(g.trlwe[3].a[0], 0);
    let g = TRGSWLv1::from_zero_rows([TRLWELv1::new(); ROWS], 63);
    assert_eq!(g.trlwe[0].a[0], 63 << 26);
}

#[test]
fn blind_rotate_starts_from_the_rotated_test_vector() {
    let ck = key_with_offset(gen_decomposition_offset());
    let mut src = TLWELv0::new();
    let start = blind_rotate(&src, &ck);
    assert_eq!(start.round, 0);
    assert_eq!(start.acc.b, ck.blind_rotate_testvec.b);
    src.p[params::tlwe_lv0::N] = 1 << 31;
    assert_eq!(src.b(), 1 << 31);
    let start = blind_rotate(&src, &ck);
    for m in 0..N {
        assert_eq!(start.acc.b[m], u32::MAX - (1 << 29));
        assert_eq!(start.acc.a[m], u32::MAX);
    }
    src.p[params::tlwe_lv0::N] = u32::MAX;
    let start = blind_rotate(&src, &ck);
    assert_eq!(start.acc.b, ck.blind_rotate_testvec.b);
}

#[test]
fn blind_rotation_rounds_rotate_when_the_product_is_the_input() {
    let ck = key_with_offset(gen_decomposition_offset());
    let mut src = TLWELv0::new();
    src.p[0] = 1 << 21;
    src.p[1] = 3 << 21;
    let mut rotation = blind_rotate(&src, &ck);
    assert!(!rotation.is_done());
    let before = rotation.acc;
    let input = rotation.next_input(&src);
    rotation.advance(&input);
    assert_eq!(rotation.round, 1);
    assert_eq!(rotation.acc.b, poly_mul_with_x_k(&before.b, 1));
    let before = rotation.acc;
    let _input = rotation.next_input(&src);
    rotation.advance(&TRLWELv1::new());
    assert_eq!(rotation.round, 2);
    assert_eq!(rotation.result().b, before.b);
    while !rotation.is_done() {
        rotation.advance(&TRLWELv1::new());
    }
    assert_eq!(rotation.round, params::tlwe_lv0::N);
}

#[test]
fn identity_key_switching_keeps_the_body_and_subtracts_selected_entries() {
    let entries = 4 * params::trgsw_lv1::IKS_T * params::tlwe_lv1::N;
    let mut ksk = vec![TLWELv0::new(); entries];
    let mut src = TLWELv1::new();
    src.p[params::tlwe_lv1::N] = 1234;
    assert_eq!(src.b(), 1234);
    let res = identity_key_switching(&src, &ksk);
    for x in 0..params::tlwe_lv0::N {
        assert_eq!(res.p[x], 0);
    }
    assert_eq!(res.b(), 1234);
    // Mask element 0 has digit 1 in position 0 and zeros elsewhere: entry 1 is subtracted.
    src.p[0] = 0x4000_0000;
    for x in 0..=params::tlwe_lv0::N {
        ksk[1].p[x] = 5;
    }
    ksk[2].p[0] = 77;
    let res = identity_key_switching(&src, &ksk);
    assert_eq!(res.p[0], 5u32.wrapping_neg());
    assert_eq!(res.p[params::tlwe_lv0::N], 1234 - 5);
}
