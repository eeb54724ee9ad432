use solana_turbine_simd::galois::gf_mul;
use solana_turbine_simd::matrix::Matrix;
use solana_turbine_simd::{Error, SimdReedSolomon};

fn shards(k: usize, len: usize, seed: usize) -> Vec<Vec<u8>> {
    (0..k).map(|i| (0..len).map(|b| (i * 31 + b * 7 + seed) as u8).collect()).collect()
}

#[test]
fn test_new_errors() {
    assert_eq!(SimdReedSolomon::new(0, 4).unwrap_err(), Error::TooFewDataShards);
    assert_eq!(SimdReedSolomon::new(4, 0).unwrap_err(), Error::TooFewParityShards);
    assert_eq!(SimdReedSolomon::new(200, 57).unwrap_err(), Error::TooManyShards);
    let rs = SimdReedSolomon::new(200, 56).unwrap();
    assert_eq!(rs.total_shard_count(), 256);
    let rs = SimdReedSolomon::new(4, 2).unwrap();
    assert_eq!(rs.data_shard_count(), 4);
    assert_eq!(rs.parity_shard_count(), 2);
    assert_eq!(rs.total_shard_count(), 6);
    let coding = Matrix::build_coding_matrix(4, 2).unwrap();
    let rows = rs.parity_rows();
    assert_eq!(rows.len(), 2);
    for p in 0..2 {
        for d in 0..4 {
            assert_eq!(rows[p][d], coding.get(4 + p, d));
        }
    }
}

#[test]
fn test_encode_errors() {
    let rs = SimdReedSolomon::new(3, 2).unwrap();
    let data = shards(3, 5, 1);
    let mut parity = vec![vec![7u8; 5]; 2];
    assert_eq!(rs.encode_sep(&data[..2], &mut parity), Err(Error::TooFewDataShards));
    assert_eq!(rs.encode_sep(&data, &mut parity[..1]), Err(Error::TooFewParityShards));
    let empty = vec![Vec::new(), vec![1u8], vec![2u8]];
    assert_eq!(rs.encode_sep(&empty, &mut parity), Err(Error::EmptyShard));
    let ragged = vec![vec![1u8; 5], vec![2u8; 4], vec![3u8; 5]];
    assert_eq!(rs.encode_sep(&ragged, &mut parity), Err(Error::IncorrectShardSize));
    let mut short_parity = vec![vec![0u8; 5], vec![0u8; 6]];
    assert_eq!(rs.encode_sep_scalar(&data, &mut short_parity), Err(Error::IncorrectShardSize));
    // Failed calls leave the parity buffers alone.
    assert_eq!(parity, vec![vec![7u8; 5]; 2]);
}

#[test]
fn test_all_encoders_agree_with_coding_matrix() {
    let (k, m, len) = (6usize, 3usize, 33usize);
    let rs = SimdReedSolomon::new(k, m).unwrap();
    let coding = Matrix::build_coding_matrix(k, m).unwrap();
    let data = shards(k, len, 5);
    let mut expected = vec![vec![0u8; len]; m];
    for p in 0..m {
        for b in 0..len {
            let mut acc = 0u8;
            for d in 0..k {
                acc ^= gf_mul(coding.get(k + p, d), data[d][b]);
            }
            expected[p][b] = acc;
        }
    }
    let mut p1 = vec![vec![0xFFu8; len]; m];
    let mut p2 = vec![vec![0u8; len]; m];
    let mut p3 = vec![vec![1u8; len]; m];
    let mut p4 = vec![vec![2u8; len]; m];
    let mut p5 = vec![vec![3u8; len]; m];
    rs.encode_sep(&data, &mut p1).unwrap();
    rs.encode_sep_scalar(&data, &mut p2).unwrap();
    rs.encode_sep_neon(&data, &mut p3).unwrap();
    rs.encode_sep_neon_slice_by_slice(&data, &mut p4).unwrap();
    rs.encode_sep_avx2(&data, &mut p5).unwrap();
    assert_eq!(p1, expected);
    assert_eq!(p2, expected);
    assert_eq!(p3, expected);
    assert_eq!(p4, expected);
    assert_eq!(p5, expected);
}

#[test]
fn test_reconstruct_cases() {
    let (k, m, len) = (4usize, 3usize, 9usize);
    let rs = SimdReedSolomon::new(k, m).unwrap();
    let data = shards(k, len, 2);
    let mut parity = vec![vec![0u8; len]; m];
    rs.encode_sep(&data, &mut parity).unwrap();
    let mut all: Vec<Vec<u8>> = data.iter().cloned().chain(parity.iter().cloned()).collect();

    // Wrong counts and lengths.
    assert_eq!(rs.reconstruct_data(&mut all[..6], &[true; 6]), Err(Error::IncorrectShardSize));
    assert_eq!(rs.reconstruct_data(&mut all, &[true; 6]), Err(Error::IncorrectShardSize));
    let mut empty = vec![Vec::new(); 7];
    assert_eq!(rs.reconstruct_data(&mut empty, &[true; 7]), Err(Error::EmptyShard));
    let mut ragged = all.clone();
    ragged[5].pop();
    assert_eq!(rs.reconstruct_data(&mut ragged, &[true; 7]), Err(Error::IncorrectShardSize));

    // Nothing missing among the data shards: nothing changes, even parity.
    let mut same = all.clone();
    same[5] = vec![0xAB; len];
    let present = [true, true, true, true, false, true, false];
    assert_eq!(rs.reconstruct_data(&mut same, &present), Ok(()));
    assert_eq!(same[5], vec![0xAB; len]);

    // Too few shards present.
    let mut lost = all.clone();
    let present = [false, true, false, true, false, true, false];
    assert_eq!(rs.reconstruct_data(&mut lost, &present), Err(Error::TooFewShardsPresent));
    assert_eq!(lost, all);

    // Exactly k present: the data comes back, the rest stays as it was.
    let mut lost = all.clone();
    lost[0] = vec![0xFF; len];
    lost[2] = vec![0x11; len];
    lost[6] = vec![0x22; len];
    let present = [false, true, false, true, true, true, false];
    assert_eq!(rs.reconstruct_data(&mut lost, &present), Ok(()));
    for i in 0..k {
        assert_eq!(lost[i], data[i]);
    }
    assert_eq!(lost[6], vec![0x22; len]);
}

#[test]
fn test_reconstruct_from_parity_only() {
    let (k, m, len) = (3usize, 3usize, 17usize);
    let rs = SimdReedSolomon::new(k, m).unwrap();
    let data = shards(k, len, 9);
    let mut parity = vec![vec![0u8; len]; m];
    rs.encode_sep(&data, &mut parity).unwrap();
    let mut lost: Vec<Vec<u8>> = vec![vec![0u8; len]; k];
    lost.extend(parity.iter().cloned());
    let present = [false, false, false, true, true, true];
    assert_eq!(rs.reconstruct_data(&mut lost, &present), Ok(()));
    assert_eq!(&lost[..k], &data[..]);
    assert_eq!(&lost[k..], &parity[..]);
}

#[test]
fn test_results_written_into_callers_buffers() {
    let (k, m, len) = (4usize, 3usize, 21usize);
    let rs = SimdReedSolomon::new(k, m).unwrap();
    let data = shards(k, len, 4);
    let mut parity: Vec<Vec<u8>> = (0..m).map(|_| Vec::with_capacity(4 * len)).collect();
    for p in parity.iter_mut() {
        p.resize(len, 0);
    }
    rs.encode_sep_scalar(&data, &mut parity).unwrap();
    for p in 0..m {
        assert!(parity[p].capacity() >= 4 * len);
    }
    let mut all: Vec<Vec<u8>> = data.iter().cloned().chain(parity.iter().cloned()).collect();
    all[1] = Vec::with_capacity(3 * len);
    all[1].resize(len, 0);
    let present = [true, false, true, true, true, false, false];
    assert_eq!(rs.reconstruct_data(&mut all, &present), Ok(()));
    assert_eq!(all[1], data[1]);
    assert!(all[1].capacity() >= 3 * len);
}
