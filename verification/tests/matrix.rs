use reed_solomon_erasure::galois_8::ReedSolomon;
use solana_turbine_simd::galois::gf_mul;
use solana_turbine_simd::matrix::Matrix;

#[test]
fn test_matrix_inversion() {
    let mut m = Matrix::new(3, 3);
    m.set(0, 0, 1); m.set(0, 1, 2); m.set(0, 2, 3);
    m.set(1, 0, 4); m.set(1, 1, 5); m.set(1, 2, 6);
    m.set(2, 0, 7); m.set(2, 1, 8); m.set(2, 2, 10);

    let inv = m.invert().expect("Should invert");
    let prod = m.multiply(&inv);
    let id = Matrix::identity(3);
    assert_eq!(prod, id);
}

#[test]
fn test_coding_matrix_matches_reed_solomon_erasure() {
    for &(data, parity) in &[(4, 2), (16, 16), (32, 32), (64, 64)] {
        let our_mat = Matrix::build_coding_matrix(data, parity).unwrap();
        let ref_rs = ReedSolomon::new(data, parity).unwrap();

        // Check that identity is at the top
        for r in 0..data {
            for c in 0..data {
                let expected = if r == c { 1 } else { 0 };
                assert_eq!(our_mat.get(r, c), expected);
            }
        }

        // Encode a dummy vector of 1 byte per shard to compare parity outputs
        let data_bytes: Vec<Vec<u8>> = (0..data).map(|i| vec![(i * 7 + 3) as u8]).collect();
        let mut ref_parity: Vec<Vec<u8>> = vec![vec![0u8; 1]; parity];

        let d_slices: Vec<&[u8]> = data_bytes.iter().map(|v| v.as_slice()).collect();
        let mut p_slices: Vec<&mut [u8]> = ref_parity.iter_mut().map(|v| v.as_mut_slice()).collect();
        ref_rs.encode_sep(&d_slices, &mut p_slices).unwrap();

        for (p, ref_p_shard) in ref_parity.iter().enumerate().take(parity) {
            let mut our_p = 0u8;
            for (d, data_byte) in data_bytes.iter().enumerate().take(data) {
                let coeff = our_mat.get(data + p, d);
                our_p ^= gf_mul(coeff, data_byte[0]);
            }
            assert_eq!(
                our_p, ref_p_shard[0],
                "Mismatch for configuration ({}, {}) at parity shard {}",
                data, parity, p
            );
        }
    }
}

#[test]
fn test_matrix_basics() {
    let z = Matrix::new(2, 3);
    assert_eq!(z.data, vec![0u8; 6]);
    let id = Matrix::identity(2);
    assert_eq!(id.data, vec![1, 0, 0, 1]);
    let v = Matrix::vandermonde(4, 3);
    // V[r][c] = r^c
    assert_eq!(v.data, vec![1, 0, 0, 1, 1, 1, 1, 2, 4, 1, 3, 5]);
    let s = v.sub_matrix(1, 1, 3, 3);
    assert_eq!((s.rows, s.cols), (2, 2));
    assert_eq!(s.data, vec![1, 1, 2, 4]);
    let p = v.multiply(&Matrix::identity(3));
    assert_eq!(p, v);
    let mut a = Matrix::new(2, 2);
    a.set(0, 1, 3);
    a.set(1, 0, 5);
    let b = a.multiply(&a);
    assert_eq!(b.data, vec![gf_mul(3, 5), 0, 0, gf_mul(5, 3)]);
}

#[test]
fn test_matrix_inversion_errors() {
    assert_eq!(Matrix::new(2, 3).invert(), Err("Matrix is not square"));
    let mut m = Matrix::new(2, 2);
    m.set(0, 0, 1);
    m.set(0, 1, 2);
    m.set(1, 0, 1);
    m.set(1, 1, 2);
    assert_eq!(m.invert(), Err("Singular matrix"));
    assert_eq!(Matrix::new(3, 3).invert(), Err("Singular matrix"));
    // Inverse from both sides, and a pivot that needs a row swap.
    let mut a = Matrix::new(2, 2);
    a.set(0, 1, 7);
    a.set(1, 0, 9);
    let inv = a.invert().unwrap();
    assert_eq!(a.multiply(&inv), Matrix::identity(2));
    assert_eq!(inv.multiply(&a), Matrix::identity(2));
    assert_eq!(Matrix::new(0, 0).invert(), Ok(Matrix::new(0, 0)));
}

#[test]
fn test_matrix_flat_index_access() {
    let mut m = Matrix::new(2, 3);
    // Column 4 of row 0 is the flat entry 4, which is row 1, column 1.
    m.set(0, 4, 9);
    assert_eq!(m.get(1, 1), 9);
    assert_eq!(m.data[4], 9);
    m.set(1, 2, 7);
    assert_eq!(m.get(0, 5), 7);
}
