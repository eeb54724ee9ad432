//! Laws of the erasure code as a whole: what encoding produces, and what
//! reconstruction gives back.
use vstd::prelude::*;
use crate::engine::{
    count_present, lemma_decode_rows_invertible, lemma_first_present, lemma_first_present_len,
    encode_spec, first_present, has_missing_data, parity_block, reconstruct_check,
    reconstruct_spec, recovered, decode_rows, SimdReedSolomon,
};
use crate::field::{gmul, lemma_gmul_units};
use crate::linalg::{
    dot_terms, inverse_of, is_inverse, is_mat, lemma_mat_mul_assoc,
    lemma_mul_identity_left, lemma_select_rows_mul, lemma_xsum_single, mat_mul, select_rows,
};
use crate::matrix::{lemma_coding_matrix_systematic, vandermonde_spec};
use crate::engine::{new_outcome, shard_check, Error};

verus! {

/// The data shards followed by the parity shards that encoding them
/// produces.
pub open spec fn codeword(c: Seq<Seq<u8>>, k: nat, m: nat, data: Seq<Seq<u8>>) -> Seq<Seq<u8>> {
    data + encode_spec(c, k, m, data)
}

/// Encoding is multiplication by the coding matrix: the data shards followed
/// by their parity shards are the coding matrix times the data.
pub proof fn lemma_codeword_is_product(rs: SimdReedSolomon, data: Seq<Seq<u8>>, len: nat)
    requires
        rs.wf(),
        is_mat(data, rs.data_count(), len),
    ensures
        codeword(rs.coding(), rs.data_count(), rs.parity_count(), data) == mat_mul(
            rs.coding(),
            data,
            rs.data_count(),
            len,
        ),
{
    let k = rs.data_count();
    let m = rs.parity_count();
    let c = rs.coding();
    lemma_coding_matrix_systematic(k, m);
    assert(data[0].len() == len);
    let cw = codeword(c, k, m, data);
    let prod = mat_mul(c, data, k, len);
    assert forall|i: int, b: int| 0 <= i < k + m && 0 <= b < len implies cw[i][b] == prod[i][b] by {
        if i < k {
            let f = dot_terms(c[i], data, b);
            assert forall|t: int| 0 <= t < k && t != i implies #[trigger] f(t) == 0 by {
                lemma_gmul_units(data[t][b]);
            }
            lemma_xsum_single(f, k, i);
            lemma_gmul_units(data[i][b]);
        } else {
            assert(parity_block(c, k, m)[i - k] == c[i]);
        }
    }
    assert forall|i: int| 0 <= i < k + m implies cw[i] =~= prod[i] by {}
    assert(cw =~= prod);
}

/// Reconstruction recovers the data: if all shards have the same nonzero
/// length, at least `k` of them are marked present, and those agree with the
/// codeword of some data, then reconstruction succeeds, the first `k` shards
/// afterwards are exactly the data shards, and no other shard changes.
pub proof fn lemma_reconstruct_recovers(
    rs: SimdReedSolomon,
    data: Seq<Seq<u8>>,
    shards: Seq<Seq<u8>>,
    present: Seq<bool>,
    len: nat,
)
    requires
        rs.wf(),
        len > 0,
        is_mat(data, rs.data_count(), len),
        is_mat(shards, rs.data_count() + rs.parity_count(), len),
        present.len() == rs.data_count() + rs.parity_count(),
        forall|i: int|
            0 <= i < present.len() && #[trigger] present[i] ==> shards[i] == codeword(
                rs.coding(),
                rs.data_count(),
                rs.parity_count(),
                data,
            )[i],
        count_present(present, present.len()) >= rs.data_count(),
    ensures
        reconstruct_check(rs.coding(), shards, present, rs.data_count()) is Ok,
        forall|i: int|
            0 <= i < rs.data_count() ==> #[trigger] reconstruct_spec(
                rs.coding(),
                shards,
                present,
                rs.data_count(),
            )[i] == data[i],
        forall|i: int|
            rs.data_count() <= i < shards.len() ==> #[trigger] reconstruct_spec(
                rs.coding(),
                shards,
                present,
                rs.data_count(),
            )[i] == shards[i],
{
    let k = rs.data_count();
    let m = rs.parity_count();
    let c = rs.coding();
    let total = k + m;
    lemma_codeword_is_product(rs, data, len);
    let cw = mat_mul(c, data, k, len);
    let out = reconstruct_spec(c, shards, present, k);
    lemma_first_present_len(present, k, total);
    assert(shards[0].len() == len);
    if has_missing_data(present, k) {
        let fp = first_present(present, k, total);
        lemma_first_present(present, k, total);
        let sub = decode_rows(c, present, k);
        let e = inverse_of(sub, k);
        lemma_decode_rows_invertible(k, m, present);
        assert(is_inverse(e, sub, k));
        // the shards used for decoding are rows of the codeword
        let avail = select_rows(shards, fp);
        assert(avail =~= select_rows(cw, fp)) by {
            assert forall|j: int| 0 <= j < fp.len() implies avail[j] == select_rows(cw, fp)[j] by {
                assert(present[fp[j]]);
            }
        }
        lemma_select_rows_mul(c, data, fp, total, k, len);
        assert(is_mat(sub, k, k));
        lemma_mat_mul_assoc(e, sub, data, k, k, k, len);
        lemma_mul_identity_left(data, k, len);
        assert(shards[0].len() == len);
        assert(recovered(c, shards, present, k) == data);
    }
    assert forall|i: int| 0 <= i < k implies #[trigger] out[i] == data[i] by {
        if present[i] {
            assert(shards[i] == cw[i]);
        }
    }
}

/// A codec can be made exactly for at least one data shard, at least one
/// parity shard, and at most 256 shards in all; the errors name the first
/// count that is wrong.
pub proof fn lemma_new_succeeds_iff(d: nat, p: nat)
    ensures
        new_outcome(d, p) is Ok <==> (1 <= d && 1 <= p && d + p <= 256),
        d == 0 ==> new_outcome(d, p) == Err::<(), Error>(Error::TooFewDataShards),
        d >= 1 && p == 0 ==> new_outcome(d, p) == Err::<(), Error>(Error::TooFewParityShards),
        d >= 1 && p >= 1 && d + p > 256 ==> new_outcome(d, p) == Err::<(), Error>(
            Error::TooManyShards,
        ),
{
}

/// Encoding buffers pass the checks exactly when there are `k` data and `m`
/// parity buffers and all of them have one common nonzero length, which is
/// then the shard length.
pub proof fn lemma_shard_check_succeeds_iff(
    rs: SimdReedSolomon,
    data: Seq<Seq<u8>>,
    parity: Seq<Seq<u8>>,
)
    requires
        rs.wf(),
    ensures
        shard_check(rs.data_count(), rs.parity_count(), data, parity) is Ok <==> {
            &&& data.len() == rs.data_count()
            &&& parity.len() == rs.parity_count()
            &&& data[0].len() > 0
            &&& forall|i: int| 0 <= i < data.len() ==> #[trigger] data[i].len() == data[0].len()
            &&& forall|j: int| 0 <= j < parity.len() ==> #[trigger] parity[j].len() == data[0].len()
        },
        shard_check(rs.data_count(), rs.parity_count(), data, parity) is Ok ==> shard_check(
            rs.data_count(),
            rs.parity_count(),
            data,
            parity,
        ) == Ok::<nat, Error>(data[0].len()),
{
    let k = rs.data_count();
    let m = rs.parity_count();
    if data.len() == k && parity.len() == m && data[0].len() > 0 {
        if (exists|i: int| 0 <= i < k && #[trigger] data[i].len() != data[0].len()) {
            let i = choose|i: int| 0 <= i < k && #[trigger] data[i].len() != data[0].len();
            assert(data[i].len() != data[0].len());
        }
        if (exists|j: int| 0 <= j < m && #[trigger] parity[j].len() != data[0].len()) {
            let j = choose|j: int| 0 <= j < m && #[trigger] parity[j].len() != data[0].len();
            assert(parity[j].len() != data[0].len());
        }
    }
}

/// The number of present shards among the first `n` is the size of the set
/// of their indices.
pub proof fn lemma_count_present_is_card(present: Seq<bool>, n: nat)
    requires
        n <= present.len(),
    ensures
        Set::new(|i: int| 0 <= i < n && present[i]).finite(),
        Set::new(|i: int| 0 <= i < n && present[i]).len() == count_present(present, n),
    decreases n,
{
    let s = Set::new(|i: int| 0 <= i < n && present[i]);
    if n == 0 {
        assert(s =~= Set::empty());
    } else {
        let n1 = (n - 1) as nat;
        lemma_count_present_is_card(present, n1);
        let s1 = Set::new(|i: int| 0 <= i < n1 && present[i]);
        if present[n - 1] {
            assert(s =~= s1.insert(n - 1));
            assert(!s1.contains(n - 1));
        } else {
            assert(s =~= s1);
        }
    }
}

/// Reconstruction from any `k` shards: if at least `k` of the `k + m`
/// shards are marked present (counted as the set of present indices), all
/// shards have one nonzero length, and the present ones agree with the
/// codeword of some data, then reconstruction succeeds, the data shards
/// afterwards are exactly that data, and the other shards are unchanged.
pub proof fn lemma_recovery_from_any_k(
    rs: SimdReedSolomon,
    data: Seq<Seq<u8>>,
    shards: Seq<Seq<u8>>,
    present: Seq<bool>,
    len: nat,
)
    requires
        rs.wf(),
        len > 0,
        is_mat(data, rs.data_count(), len),
        is_mat(shards, rs.data_count() + rs.parity_count(), len),
        present.len() == rs.data_count() + rs.parity_count(),
        Set::new(|i: int| 0 <= i < present.len() && present[i]).len() >= rs.data_count(),
        forall|i: int|
            0 <= i < present.len() && #[trigger] present[i] ==> shards[i] == codeword(
                rs.coding(),
                rs.data_count(),
                rs.parity_count(),
                data,
            )[i],
    ensures
        reconstruct_check(rs.coding(), shards, present, rs.data_count()) is Ok,
        forall|i: int|
            0 <= i < rs.data_count() ==> #[trigger] reconstruct_spec(
                rs.coding(),
                shards,
                present,
                rs.data_count(),
            )[i] == data[i],
        forall|i: int|
            rs.data_count() <= i < shards.len() ==> #[trigger] reconstruct_spec(
                rs.coding(),
                shards,
                present,
                rs.data_count(),
            )[i] == shards[i],
{
    lemma_count_present_is_card(present, present.len());
    lemma_reconstruct_recovers(rs, data, shards, present, len);
}

/// Row `r` of the Vandermonde matrix holds the powers of the byte `r`: it
/// starts at 1, its next entry is `r`, and each entry is the one before
/// times `r`.
pub proof fn lemma_vandermonde_powers(rows: nat, cols: nat, r: int, c: int)
    requires
        0 <= r < rows,
        r < 256,
        0 <= c,
        c + 1 < cols,
    ensures
        vandermonde_spec(rows, cols)[r][0] == 1,
        vandermonde_spec(rows, cols)[r][1] == r,
        vandermonde_spec(rows, cols)[r][c + 1] == gmul(vandermonde_spec(rows, cols)[r][c], r as u8),
{
    let v = vandermonde_spec(rows, cols);
    assert(v[r][0] == 1);
    lemma_gmul_units(r as u8);
    assert(v[r][1] == gmul(1, r as u8));
    assert(v[r][c + 1] == gmul(v[r][c], r as u8));
}

} // verus!
