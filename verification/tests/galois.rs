use reed_solomon_erasure::galois_8;
use solana_turbine_simd::galois::{
    gen_exp_table, gen_log_table, gen_mul_table, gen_nibble_tables, gf_add, gf_div, gf_exp,
    gf_inv, gf_mul, gf_sub, scalar_mul_slice, scalar_mul_slice_xor,
};

#[test]
fn test_galois_tables_parity() {
    for a in 0..256 {
        for b in 0..256 {
            let our_mul = gf_mul(a as u8, b as u8);
            let ref_mul = galois_8::mul(a as u8, b as u8);
            assert_eq!(
                our_mul, ref_mul,
                "Multiplication mismatch for a={}, b={}",
                a, b
            );
        }
        if a > 0 {
            let our_inv = gf_inv(a as u8);
            let ref_div = galois_8::div(1, a as u8);
            assert_eq!(our_inv, ref_div, "Inverse mismatch for a={}", a);
        }
    }
}

#[test]
fn test_nibble_decomposition() {
    let log = gen_log_table();
    let exp = gen_exp_table(&log);
    let mul = gen_mul_table(&log, &exp);
    let (table_lo, table_hi) = gen_nibble_tables(&mul);
    for c in 0..256 {
        for x in 0..256 {
            let x_u8 = x as u8;
            let lo = (x_u8 & 0x0F) as usize;
            let hi = (x_u8 >> 4) as usize;

            let prod_lo = table_lo[c][lo];
            let prod_hi = table_hi[c][hi];
            let combined = prod_lo ^ prod_hi;

            let expected = gf_mul(c as u8, x_u8);
            assert_eq!(
                combined, expected,
                "Nibble decomposition failed for c={}, x={}",
                c, x
            );
        }
    }
}

#[test]
fn test_tables_agree_with_field_operations() {
    let log = gen_log_table();
    let exp = gen_exp_table(&log);
    let mul = gen_mul_table(&log, &exp);
    assert_eq!(log[0], 0);
    assert_eq!(log[1], 0);
    assert_eq!(log[2], 1);
    assert_eq!(exp[0], 1);
    assert_eq!(exp[1], 2);
    assert_eq!(exp[8], 29);
    assert_eq!(exp[255], 1);
    assert_eq!(exp[509], exp[254]);
    for a in 0..256usize {
        for b in 0..256usize {
            assert_eq!(mul[a][b], gf_mul(a as u8, b as u8));
        }
        if a > 0 {
            assert_eq!(exp[log[a] as usize], a as u8);
        }
    }
}

#[test]
fn test_field_values() {
    assert_eq!(gf_mul(2, 0x80), 0x1D);
    assert_eq!(gf_mul(3, 7), 9);
    assert_eq!(gf_mul(0, 200), 0);
    assert_eq!(gf_mul(1, 200), 200);
    assert_eq!(gf_add(0x53, 0xCA), 0x99);
    assert_eq!(gf_sub(0x53, 0xCA), 0x99);
    assert_eq!(gf_inv(1), 1);
    assert_eq!(gf_mul(0x53, gf_inv(0x53)), 1);
    assert_eq!(gf_div(0, 0), 0);
    assert_eq!(gf_div(0, 7), 0);
    assert_eq!(gf_mul(gf_div(100, 7), 7), 100);
    assert_eq!(gf_exp(0, 0), 1);
    assert_eq!(gf_exp(0, 5), 0);
    assert_eq!(gf_exp(2, 8), 29);
    assert_eq!(gf_exp(2, 255), 1);
    assert_eq!(gf_exp(7, 1000), gf_exp(7, 1000 % 255));
    for a in 0..256usize {
        for n in 0..20usize {
            assert_eq!(gf_exp(a as u8, n), galois_8::exp(a as u8, n));
        }
        for b in 1..256usize {
            assert_eq!(gf_div(a as u8, b as u8), galois_8::div(a as u8, b as u8));
        }
    }
}

#[test]
fn test_field_laws_on_values() {
    for a in [0u8, 1, 2, 3, 0x53, 0x80, 0xCA, 0xFF] {
        for b in [0u8, 1, 7, 0x1D, 0x8E, 0xFE] {
            assert_eq!(gf_mul(a, b), gf_mul(b, a));
            for c in [0u8, 5, 0x40, 0xF0] {
                assert_eq!(gf_mul(gf_mul(a, b), c), gf_mul(a, gf_mul(b, c)));
                assert_eq!(gf_mul(a, b ^ c), gf_mul(a, b) ^ gf_mul(a, c));
            }
            if b != 0 {
                assert_eq!(gf_mul(gf_div(a, b), b), a);
            }
        }
    }
}

#[test]
fn test_scalar_slices() {
    let input: Vec<u8> = (0..40u32).map(|i| (i * 37 + 11) as u8).collect();
    for c in [0u8, 1, 2, 0x8E, 0xFF] {
        let mut out = vec![0xAAu8; input.len()];
        scalar_mul_slice(c, &input, &mut out);
        for i in 0..input.len() {
            assert_eq!(out[i], gf_mul(c, input[i]));
        }
        let mut acc: Vec<u8> = (0..40u32).map(|i| (i * 5) as u8).collect();
        let before = acc.clone();
        scalar_mul_slice_xor(c, &input, &mut acc);
        for i in 0..input.len() {
            assert_eq!(acc[i], before[i] ^ gf_mul(c, input[i]));
        }
    }
}
