use solana_turbine_simd::avx2::{avx2_mul_slice, avx2_mul_slice_xor};
use solana_turbine_simd::galois::gf_mul;
use solana_turbine_simd::neon::{
    neon_encode_parity_shred, neon_mul_slice, neon_mul_slice_xor, neon_slice_xor,
};

fn sample(len: usize, seed: u32) -> Vec<u8> {
    (0..len as u32).map(|i| (i.wrapping_mul(131).wrapping_add(seed * 17)) as u8).collect()
}

#[test]
fn test_vector_kernels_match_products() {
    for len in [0usize, 1, 15, 16, 17, 63, 64, 65, 130] {
        let input = sample(len, 3);
        for c in [0u8, 1, 2, 0x1D, 0xB7, 0xFF] {
            let mut out = vec![0x55u8; len];
            neon_mul_slice(c, &input, &mut out);
            let mut out2 = vec![0x66u8; len];
            avx2_mul_slice(c, &input, &mut out2);
            for i in 0..len {
                assert_eq!(out[i], gf_mul(c, input[i]));
                assert_eq!(out2[i], gf_mul(c, input[i]));
            }
            let base = sample(len, 9);
            let mut acc = base.clone();
            neon_mul_slice_xor(c, &input, &mut acc);
            let mut acc2 = base.clone();
            avx2_mul_slice_xor(c, &input, &mut acc2);
            for i in 0..len {
                assert_eq!(acc[i], base[i] ^ gf_mul(c, input[i]));
                assert_eq!(acc2[i], base[i] ^ gf_mul(c, input[i]));
            }
        }
        let base = sample(len, 4);
        let mut x = base.clone();
        neon_slice_xor(&input, &mut x);
        for i in 0..len {
            assert_eq!(x[i], base[i] ^ input[i]);
        }
    }
}

#[test]
fn test_encode_parity_shred() {
    let data: Vec<Vec<u8>> = (0..5).map(|d| sample(70, d)).collect();
    let refs: Vec<&[u8]> = data.iter().map(|v| v.as_slice()).collect();
    let row = [3u8, 0, 1, 0x8E, 0xFF];
    let mut out = vec![0xEEu8; 70];
    neon_encode_parity_shred(&row, &refs, &mut out);
    for b in 0..70 {
        let mut expected = 0u8;
        for d in 0..5 {
            expected ^= gf_mul(row[d], data[d][b]);
        }
        assert_eq!(out[b], expected);
    }
    // No coefficients: the output is left alone.
    let mut untouched = vec![9u8; 4];
    neon_encode_parity_shred(&[], &[], &mut untouched);
    assert_eq!(untouched, vec![9u8; 4]);
}
