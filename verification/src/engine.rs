//! The Reed-Solomon erasure engine: parity encoding over separate data and
//! parity buffers, and reconstruction of lost data shards.
use vstd::prelude::*;
use crate::avx2::{avx2_mul_slice, avx2_mul_slice_xor};
use crate::field::{gmul, lemma_xor};
use crate::galois::{mul_bytes, scalar_mul_slice, scalar_mul_slice_xor, xor_bytes};
use crate::linalg::{
    dot_terms, inverse_of, invertible, is_inverse, is_mat, lemma_inverse_of, mat_mul,
    select_rows, xsum,
};
use crate::matrix::{
    coding_matrix_exists, coding_matrix_spec, lemma_coding_matrix_exists, sub_block,
    vandermonde_spec, Matrix,
};
use crate::poly::{lemma_product_invertible, lemma_vandermonde_invertible, vander_rows};
use crate::linalg::lemma_select_rows_mul;
use crate::neon::{
    combine, neon_encode_parity_shred, neon_mul_slice, neon_mul_slice_xor, slices_view,
};

verus! {

broadcast use crate::layout::lemma_entry_in_bounds;

#[derive(Debug, Clone, PartialEq, Eq, Structural)]
pub enum Error {
    TooFewDataShards,
    TooFewParityShards,
    TooManyShards,
    EmptyShard,
    IncorrectShardSize,
    TooFewShardsPresent,
    SingularMatrix,
    InvalidIndex,
}

/// A Reed-Solomon codec for a fixed number of data and parity shards.
#[derive(Debug)]
pub struct SimdReedSolomon {
    data_shards: usize,
    parity_shards: usize,
    total_shards: usize,
    coding_matrix: Matrix,
    parity_rows: Vec<Vec<u8>>,
}

impl Clone for SimdReedSolomon {
    /// A codec for the same counts, with the same coding matrix and rows.
    fn clone(&self) -> (r: Self)
        ensures
            r.data_count() == self.data_count(),
            r.parity_count() == self.parity_count(),
            r.coding() == self.coding(),
            r.rows_view() == self.rows_view(),
    {
        proof {
            use_type_invariant(self);
        }
        let coding_matrix = Matrix {
            rows: self.coding_matrix.rows,
            cols: self.coding_matrix.cols,
            data: self.coding_matrix.data.clone(),
        };
        let parity_rows = self.parity_rows.clone();
        proof {
            assert(coding_matrix.data@ =~= self.coding_matrix.data@);
            assert(coding_matrix@ =~= self.coding_matrix@);
            assert forall|i: int| 0 <= i < parity_rows@.len() implies #[trigger] parity_rows@[i]@
                == self.parity_rows@[i]@ by {
                assert(cloned::<Vec<u8>>(self.parity_rows[i], parity_rows[i]));
                assert(parity_rows@[i]@ =~= self.parity_rows@[i]@);
            }
            assert(shards_view(parity_rows@) =~= shards_view(self.parity_rows@));
        }
        Self {
            data_shards: self.data_shards,
            parity_shards: self.parity_shards,
            total_shards: self.total_shards,
            coding_matrix,
            parity_rows,
        }
    }
}

/// The contents of a list of shard buffers.
pub open spec fn shards_view(s: Seq<Vec<u8>>) -> Seq<Seq<u8>> {
    Seq::new(s.len(), |i: int| s[i]@)
}

/// Rows `k..k+m` of a coding matrix: the coefficients of the parity shards.
pub open spec fn parity_block(c: Seq<Seq<u8>>, k: nat, m: nat) -> Seq<Seq<u8>> {
    Seq::new(m, |i: int| c[k + i])
}

/// What creating a codec for `d` data and `p` parity shards gives: the
/// first problem with the counts, or success.
pub open spec fn new_outcome(d: nat, p: nat) -> Result<(), Error> {
    if d == 0 {
        Err(Error::TooFewDataShards)
    } else if p == 0 {
        Err(Error::TooFewParityShards)
    } else if d + p > 256 {
        Err(Error::TooManyShards)
    } else {
        Ok(())
    }
}

/// The outcome of checking `k` data and `m` parity buffers: the common
/// shard length, or the first problem found.
pub open spec fn shard_check(k: nat, m: nat, data: Seq<Seq<u8>>, parity: Seq<Seq<u8>>) -> Result<
    nat,
    Error,
> {
    if data.len() != k {
        Err(Error::TooFewDataShards)
    } else if parity.len() != m {
        Err(Error::TooFewParityShards)
    } else if data[0].len() == 0 {
        Err(Error::EmptyShard)
    } else if (exists|i: int| 0 <= i < k && #[trigger] data[i].len() != data[0].len()) || (exists|
        j: int,
    | 0 <= j < m && #[trigger] parity[j].len() != data[0].len()) {
        Err(Error::IncorrectShardSize)
    } else {
        Ok(data[0].len())
    }
}

/// The parity shards that encoding `data` produces with the coding matrix `c`.
pub open spec fn encode_spec(c: Seq<Seq<u8>>, k: nat, m: nat, data: Seq<Seq<u8>>) -> Seq<Seq<u8>> {
    mat_mul(parity_block(c, k, m), data, k, data[0].len())
}

/// The first (at most `k`) indices among `0..n` whose shard is present.
pub open spec fn first_present(present: Seq<bool>, k: nat, n: nat) -> Seq<int>
    decreases n,
{
    if n == 0 {
        Seq::empty()
    } else {
        let s = first_present(present, k, (n - 1) as nat);
        if present[n - 1] && s.len() < k {
            s.push(n - 1)
        } else {
            s
        }
    }
}

/// How many of the first `n` shards are present.
pub open spec fn count_present(present: Seq<bool>, n: nat) -> nat
    decreases n,
{
    if n == 0 {
        0
    } else {
        count_present(present, (n - 1) as nat) + if present[n - 1] {
            1nat
        } else {
            0nat
        }
    }
}

/// Some data shard (an index below `k`) is missing.
pub open spec fn has_missing_data(present: Seq<bool>, k: nat) -> bool {
    exists|i: int| 0 <= i < k && !#[trigger] present[i]
}

/// The rows of the coding matrix that belong to the shards used for decoding.
pub open spec fn decode_rows(c: Seq<Seq<u8>>, present: Seq<bool>, k: nat) -> Seq<Seq<u8>> {
    select_rows(c, first_present(present, k, c.len()))
}

/// The data shards recovered from the present shards: the inverse of the
/// decoding rows times the shards at those positions.
pub open spec fn recovered(
    c: Seq<Seq<u8>>,
    shards: Seq<Seq<u8>>,
    present: Seq<bool>,
    k: nat,
) -> Seq<Seq<u8>> {
    mat_mul(
        inverse_of(decode_rows(c, present, k), k),
        select_rows(shards, first_present(present, k, c.len())),
        k,
        shards[0].len(),
    )
}

/// The shards after a successful reconstruction: each missing data shard is
/// replaced by its recovered contents, everything else stays.
pub open spec fn reconstruct_spec(
    c: Seq<Seq<u8>>,
    shards: Seq<Seq<u8>>,
    present: Seq<bool>,
    k: nat,
) -> Seq<Seq<u8>> {
    Seq::new(
        shards.len(),
        |i: int|
            if i < k && !present[i] {
                recovered(c, shards, present, k)[i]
            } else {
                shards[i]
            },
    )
}

/// The outcome of a reconstruction with coding matrix `c` (`k` data shards).
pub open spec fn reconstruct_check(
    c: Seq<Seq<u8>>,
    shards: Seq<Seq<u8>>,
    present: Seq<bool>,
    k: nat,
) -> Result<(), Error> {
    if shards.len() != c.len() || present.len() != c.len() {
        Err(Error::IncorrectShardSize)
    } else if shards[0].len() == 0 {
        Err(Error::EmptyShard)
    } else if exists|i: int| 0 <= i < c.len() && #[trigger] shards[i].len() != shards[0].len() {
        Err(Error::IncorrectShardSize)
    } else if !has_missing_data(present, k) {
        Ok(())
    } else if count_present(present, c.len()) < k {
        Err(Error::TooFewShardsPresent)
    } else {
        Ok(())
    }
}

/// Which byte kernel computes a linear combination of shards.
#[derive(Clone, Copy)]
enum Kernel {
    Scalar,
    NeonSlices,
    NeonDirect,
    Avx2,
}

/// `out = c * input` with the chosen kernel.
fn kernel_mul(kernel: Kernel, c: u8, input: &[u8], out: &mut [u8])
    requires
        input@.len() == old(out)@.len(),
    ensures
        final(out)@ == mul_bytes(c, input@),
{
    match kernel {
        Kernel::Avx2 => avx2_mul_slice(c, input, out),
        Kernel::Scalar => scalar_mul_slice(c, input, out),
        _ => neon_mul_slice(c, input, out),
    }
}

/// `out ^= c * input` with the chosen kernel.
fn kernel_mul_xor(kernel: Kernel, c: u8, input: &[u8], out: &mut [u8])
    requires
        input@.len() == old(out)@.len(),
    ensures
        final(out)@ == xor_bytes(old(out)@, mul_bytes(c, input@)),
{
    match kernel {
        Kernel::Avx2 => avx2_mul_slice_xor(c, input, out),
        Kernel::Scalar => scalar_mul_slice_xor(c, input, out),
        _ => neon_mul_slice_xor(c, input, out),
    }
}

/// Writes the linear combination `sum_d row[d] * shards[d]`, byte by byte,
/// into `out`, whose length is that of the shards.
fn combine_into(kernel: Kernel, row: &[u8], shards: &[Vec<u8>], out: &mut [u8])
    requires
        row@.len() == shards@.len(),
        row@.len() >= 1,
        forall|i: int| 0 <= i < shards@.len() ==> #[trigger] shards@[i]@.len() == old(out)@.len(),
    ensures
        final(out)@ == combine(row@, shards_view(shards@), old(out)@.len()),
{
    let ghost sv = shards_view(shards@);
    let k = row.len();
    let len = out.len();
    if let Kernel::NeonDirect = kernel {
        let mut refs: Vec<&[u8]> = Vec::with_capacity(k);
        let mut i: usize = 0;
        while i < k
            invariant
                k == row@.len(),
                k == shards@.len(),
                i <= k,
                refs@.len() == i,
                forall|j: int| 0 <= j < i ==> #[trigger] refs@[j]@ == shards@[j]@,
            decreases k - i,
        {
            refs.push(shards[i].as_slice());
            i += 1;
        }
        assert(slices_view(refs@) =~= sv);
        neon_encode_parity_shred(row, refs.as_slice(), out);
        return ;
    }
    kernel_mul(kernel, row[0], shards[0].as_slice(), out);
    proof {
        assert forall|b: int| 0 <= b < len implies out@[b] == xsum(dot_terms(row@, sv, b), 1) by {
            let f = dot_terms(row@, sv, b);
            lemma_xor(gmul(row@[0], sv[0][b]), 0, 0);
            assert(xsum(f, 0) == 0);
            assert(xsum(f, 1) == xsum(f, 0) ^ f(0));
            assert(f(0) == gmul(row@[0], sv[0][b]));
            assert(sv[0] == shards@[0]@);
        }
    }
    let mut d: usize = 1;
    while d < k
        invariant
            k == row@.len(),
            k == shards@.len(),
            sv == shards_view(shards@),
            forall|i: int| 0 <= i < shards@.len() ==> #[trigger] shards@[i]@.len() == len,
            1 <= d <= k,
            out@.len() == len,
            forall|b: int| 0 <= b < len ==> out@[b] == xsum(dot_terms(row@, sv, b), d as nat),
        decreases k - d,
    {
        kernel_mul_xor(kernel, row[d], shards[d].as_slice(), out);
        d += 1;
    }
    assert(out@ =~= combine(row@, sv, len as nat));
}

/// Writes into `shards[target]` the linear combination
/// `sum_j row[j] * shards[idx[j]]` of other shards, read in place.
fn combine_in_place(row: &[u8], idx: &[usize], shards: &mut [Vec<u8>], target: usize)
    requires
        row@.len() == idx@.len(),
        row@.len() >= 1,
        target < old(shards)@.len(),
        forall|j: int|
            0 <= j < idx@.len() ==> #[trigger] idx@[j] < old(shards)@.len() && idx@[j] != target,
        forall|x: int|
            0 <= x < old(shards)@.len() ==> #[trigger] old(shards)@[x]@.len() == old(
                shards,
            )@[target as int]@.len(),
    ensures
        final(shards)@.len() == old(shards)@.len(),
        forall|x: int|
            0 <= x < old(shards)@.len() && x != target ==> #[trigger] final(shards)@[x] == old(
                shards,
            )@[x],
        final(shards)@[target as int]@ == combine(
            row@,
            Seq::new(idx@.len(), |j: int| old(shards)@[idx@[j] as int]@),
            old(shards)@[target as int]@.len(),
        ),
{
    let ghost before = shards@;
    let ghost inputs = Seq::new(idx@.len(), |j: int| before[idx@[j] as int]@);
    let k = idx.len();
    let (left, right) = shards.split_at_mut(target);
    let (mid, rest) = right.split_at_mut(1);
    let left_ro: &[Vec<u8>] = left;
    let rest_ro: &[Vec<u8>] = rest;
    let mut refs: Vec<&[u8]> = Vec::with_capacity(k);
    let mut j: usize = 0;
    while j < k
        invariant
            k == idx@.len(),
            inputs == Seq::new(idx@.len(), |q: int| before[idx@[q] as int]@),
            target < before.len(),
            left_ro@ == before.subrange(0, target as int),
            rest_ro@ == before.subrange(target as int + 1, before.len() as int),
            forall|q: int| 0 <= q < k ==> #[trigger] idx@[q] < before.len() && idx@[q] != target,
            j <= k,
            refs@.len() == j,
            forall|q: int| 0 <= q < j ==> #[trigger] refs@[q]@ == inputs[q],
        decreases k - j,
    {
        let i = idx[j];
        if i < target {
            refs.push(left_ro[i].as_slice());
        } else {
            refs.push(rest_ro[i - target - 1].as_slice());
        }
        j += 1;
    }
    proof {
        assert(slices_view(refs@) =~= inputs);
    }
    neon_encode_parity_shred(row, refs.as_slice(), mid[0].as_mut_slice());
}

/// The indices chosen for decoding are present shards, at most `k` of them.
pub proof fn lemma_first_present(present: Seq<bool>, k: nat, n: nat)
    requires
        n <= present.len(),
    ensures
        first_present(present, k, n).len() <= k,
        forall|j: int|
            0 <= j < first_present(present, k, n).len() ==> 0 <= #[trigger] first_present(
                present,
                k,
                n,
            )[j] < n && present[first_present(present, k, n)[j]],
    decreases n,
{
    if n > 0 {
        lemma_first_present(present, k, (n - 1) as nat);
    }
}

/// As many shards are chosen for decoding as are present, up to `k`.
pub proof fn lemma_first_present_len(present: Seq<bool>, k: nat, n: nat)
    requires
        n <= present.len(),
    ensures
        first_present(present, k, n).len() == if count_present(present, n) < k {
            count_present(present, n)
        } else {
            k
        },
    decreases n,
{
    if n > 0 {
        lemma_first_present_len(present, k, (n - 1) as nat);
    }
}

/// The indices chosen for decoding are increasing.
pub proof fn lemma_first_present_increasing(present: Seq<bool>, k: nat, n: nat)
    requires
        n <= present.len(),
    ensures
        forall|i: int, j: int|
            0 <= i < j < first_present(present, k, n).len() ==> #[trigger] first_present(
                present,
                k,
                n,
            )[i] < #[trigger] first_present(present, k, n)[j],
    decreases n,
{
    if n > 0 {
        lemma_first_present_increasing(present, k, (n - 1) as nat);
        lemma_first_present(present, k, (n - 1) as nat);
    }
}

/// Any `d` rows of the coding matrix for at most 256 shards can be inverted:
/// they are `d` rows of a Vandermonde matrix over distinct points, times the
/// inverse of its top square.
pub proof fn lemma_decode_rows_invertible(d: nat, p: nat, present: Seq<bool>)
    requires
        d + p <= 256,
        present.len() == d + p,
        first_present(present, d, d + p).len() == d,
    ensures
        invertible(decode_rows(coding_matrix_spec(d, p), present, d), d),
{
    let v = vandermonde_spec(d + p, d);
    let top = sub_block(v, 0, 0, d as int, d as int);
    let t = inverse_of(top, d);
    lemma_coding_matrix_exists(d, p);
    assert(is_inverse(t, top, d));
    let c = coding_matrix_spec(d, p);
    let fp = first_present(present, d, d + p);
    lemma_first_present(present, d, d + p);
    lemma_first_present_increasing(present, d, d + p);
    lemma_select_rows_mul(v, t, fp, d + p, d, d);
    let nodes = Seq::new(d, |j: int| fp[j] as u8);
    assert forall|i: int, j: int| 0 <= i < j < nodes.len() implies #[trigger] nodes[i]
        != #[trigger] nodes[j] by {
        assert(fp[i] < fp[j]);
    }
    let sv = select_rows(v, fp);
    assert forall|i: int| 0 <= i < d implies sv[i] =~= vander_rows(nodes, d)[i] by {}
    assert(sv =~= vander_rows(nodes, d));
    lemma_vandermonde_invertible(nodes);
    assert(is_inverse(top, t, d));
    assert(is_mat(t, d, d));
    lemma_product_invertible(sv, t, d);
}

proof fn lemma_first_present_full(present: Seq<bool>, k: nat, n: nat, n2: nat)
    requires
        n <= n2 <= present.len(),
        first_present(present, k, n).len() == k,
    ensures
        first_present(present, k, n2) == first_present(present, k, n),
    decreases n2,
{
    if n2 > n {
        lemma_first_present_full(present, k, n, (n2 - 1) as nat);
    }
}

impl SimdReedSolomon {
    pub closed spec fn data_count(&self) -> nat {
        self.data_shards as nat
    }

    pub closed spec fn parity_count(&self) -> nat {
        self.parity_shards as nat
    }

    /// The coding matrix: `data + parity` rows of `data` coefficients.
    pub closed spec fn coding(&self) -> Seq<Seq<u8>> {
        self.coding_matrix@
    }

    /// The stored parity rows.
    pub closed spec fn rows_view(&self) -> Seq<Seq<u8>> {
        shards_view(self.parity_rows@)
    }

    /// The stored counts agree, and the coding matrix is stored in full.
    pub closed spec fn fields_wf(&self) -> bool {
        &&& self.total_shards == self.data_shards + self.parity_shards
        &&& self.coding_matrix.wf()
        &&& self.coding_matrix.rows == self.total_shards
        &&& self.coding_matrix.cols == self.data_shards
    }

    /// Every codec keeps `wf()`: only `new` builds one, and nothing changes it.
    #[verifier::type_invariant]
    pub(crate) open spec fn inv(self) -> bool {
        self.wf()
    }

    /// The codec was built for `data_count()` data and `parity_count()` parity
    /// shards, and holds the canonical coding matrix and its parity rows.
    pub open spec fn wf(&self) -> bool {
        &&& self.fields_wf()
        &&& 1 <= self.data_count()
        &&& 1 <= self.parity_count()
        &&& self.data_count() + self.parity_count() <= 256
        &&& coding_matrix_exists(self.data_count(), self.parity_count())
        &&& self.coding() == coding_matrix_spec(self.data_count(), self.parity_count())
        &&& is_mat(self.coding(), self.data_count() + self.parity_count(), self.data_count())
        &&& self.rows_view() == parity_block(self.coding(), self.data_count(), self.parity_count())
    }

    /// Creates a new Reed-Solomon instance.
    pub fn new(data_shards: usize, parity_shards: usize) -> (res: Result<Self, Error>)
        ensures
            new_outcome(data_shards as nat, parity_shards as nat) is Err ==> res == Err::<Self, Error>(
                new_outcome(data_shards as nat, parity_shards as nat)->Err_0,
            ),
            new_outcome(data_shards as nat, parity_shards as nat) is Ok ==> res is Ok,
            res is Ok <==> (1 <= data_shards && 1 <= parity_shards && data_shards + parity_shards
                <= 256),
            res matches Ok(rs) ==> rs.wf() && rs.data_count() == data_shards && rs.parity_count()
                == parity_shards,
    {
        if data_shards == 0 {
            return Err(Error::TooFewDataShards);
        }
        if parity_shards == 0 {
            return Err(Error::TooFewParityShards);
        }
        if data_shards > 256 || parity_shards > 256 || data_shards + parity_shards > 256 {
            return Err(Error::TooManyShards);
        }
        let total_shards = data_shards + parity_shards;
        proof {
            assert(total_shards * data_shards <= 256 * 256) by (nonlinear_arith)
                requires
                    total_shards <= 256,
                    data_shards <= 256,
            ;
            assert(data_shards * data_shards * 2 <= 256 * 256 * 2) by (nonlinear_arith)
                requires
                    data_shards <= 256,
            ;
        }
        proof {
            lemma_coding_matrix_exists(data_shards as nat, parity_shards as nat);
        }
        let coding_matrix = match Matrix::build_coding_matrix(data_shards, parity_shards) {
            Ok(m) => m,
            Err(_) => {
                return Err(Error::SingularMatrix);
            },
        };
        let mut parity_rows: Vec<Vec<u8>> = Vec::with_capacity(parity_shards);
        let mut p: usize = 0;
        while p < parity_shards
            invariant
                total_shards == data_shards + parity_shards,
                coding_matrix.wf(),
                coding_matrix.rows == total_shards,
                coding_matrix.cols == data_shards,
                p <= parity_shards,
                parity_rows@.len() == p,
                forall|q: int| 0 <= q < p ==> #[trigger] parity_rows@[q]@ == coding_matrix@[data_shards + q],
            decreases parity_shards - p,
        {
            let row_idx = data_shards + p;
            let mut row: Vec<u8> = Vec::with_capacity(data_shards);
            let mut d: usize = 0;
            while d < data_shards
                invariant
                    total_shards == data_shards + parity_shards,
                    coding_matrix.wf(),
                    coding_matrix.rows == total_shards,
                    coding_matrix.cols == data_shards,
                    row_idx == data_shards + p,
                    p < parity_shards,
                    d <= data_shards,
                    row@.len() == d,
                    forall|c: int| 0 <= c < d ==> #[trigger] row@[c] == coding_matrix@[row_idx as int][c],
                decreases data_shards - d,
            {
                row.push(coding_matrix.get(row_idx, d));
                d += 1;
            }
            assert(row@ =~= coding_matrix@[row_idx as int]);
            parity_rows.push(row);
            p += 1;
        }
        assert(shards_view(parity_rows@) =~= parity_block(
            coding_matrix@,
            data_shards as nat,
            parity_shards as nat,
        ));
        let rs = Self { data_shards, parity_shards, total_shards, coding_matrix, parity_rows };
        Ok(rs)
    }

    pub fn data_shard_count(&self) -> (n: usize)
        ensures
            n == self.data_count(),
    {
        self.data_shards
    }

    pub fn parity_shard_count(&self) -> (n: usize)
        ensures
            n == self.parity_count(),
    {
        self.parity_shards
    }

    pub fn total_shard_count(&self) -> (n: usize)
        ensures
            n == self.data_count() + self.parity_count(),
    {
        proof {
            use_type_invariant(self);
        }
        self.total_shards
    }

    /// The coefficients of each parity shard over the data shards.
    pub fn parity_rows(&self) -> (rows: &[Vec<u8>])
        ensures
            shards_view(rows@) == self.rows_view(),
    {
        let rows = self.parity_rows.as_slice();
        assert(shards_view(rows@) =~= self.rows_view());
        rows
    }

    fn validate_shards(&self, data: &[Vec<u8>], parity: &[Vec<u8>]) -> (res: Result<usize, Error>)
        requires
            self.wf(),
        ensures
            res is Ok <==> shard_check(
                self.data_count(),
                self.parity_count(),
                shards_view(data@),
                shards_view(parity@),
            ) is Ok,
            res matches Ok(len) ==> shard_check(
                self.data_count(),
                self.parity_count(),
                shards_view(data@),
                shards_view(parity@),
            ) == Ok::<nat, Error>(len as nat),
            res matches Err(e) ==> shard_check(
                self.data_count(),
                self.parity_count(),
                shards_view(data@),
                shards_view(parity@),
            ) == Err::<nat, Error>(e),
    {
        let ghost dv = shards_view(data@);
        let ghost pv = shards_view(parity@);
        if data.len() != self.data_shards {
            return Err(Error::TooFewDataShards);
        }
        if parity.len() != self.parity_shards {
            return Err(Error::TooFewParityShards);
        }
        let shard_len = data[0].len();
        if shard_len == 0 {
            return Err(Error::EmptyShard);
        }
        let mut i: usize = 0;
        while i < data.len()
            invariant
                dv == shards_view(data@),
                pv == shards_view(parity@),
                self.wf(),
                data@.len() == self.data_count(),
                parity@.len() == self.parity_count(),
                shard_len == dv[0].len(),
                shard_len > 0,
                i <= data@.len(),
                forall|j: int| 0 <= j < i ==> #[trigger] dv[j].len() == shard_len,
            decreases data@.len() - i,
        {
            if data[i].len() != shard_len {
                assert(dv[i as int].len() != dv[0].len());
                assert(exists|q: int| 0 <= q < self.data_count() && #[trigger] dv[q].len() != dv[0].len());

                return Err(Error::IncorrectShardSize);
            }
            i += 1;
        }
        let mut j: usize = 0;
        while j < parity.len()
            invariant
                dv == shards_view(data@),
                pv == shards_view(parity@),
                self.wf(),
                data@.len() == self.data_count(),
                parity@.len() == self.parity_count(),
                shard_len == dv[0].len(),
                shard_len > 0,
                forall|q: int| 0 <= q < data@.len() ==> #[trigger] dv[q].len() == shard_len,
                j <= parity@.len(),
                forall|q: int| 0 <= q < j ==> #[trigger] pv[q].len() == shard_len,
            decreases parity@.len() - j,
        {
            if parity[j].len() != shard_len {
                assert(pv[j as int].len() != shard_len);
                assert(exists|q: int| 0 <= q < self.parity_count() && #[trigger] pv[q].len() != dv[0].len());
                return Err(Error::IncorrectShardSize);
            }
            j += 1;
        }
        Ok(shard_len)
    }

    /// Validates the buffers, then writes every parity shard with `kernel`.
    fn encode_parity(&self, data: &[Vec<u8>], parity: &mut [Vec<u8>], kernel: Kernel) -> (res: Result<
        (),
        Error,
    >)
        requires
            self.wf(),
        ensures
            ({
                let chk = shard_check(
                    self.data_count(),
                    self.parity_count(),
                    shards_view(data@),
                    shards_view(old(parity)@),
                );
                &&& chk is Err ==> res == Err::<(), Error>(chk->Err_0) && final(parity)@ == old(
                    parity,
                )@
                &&& chk is Ok ==> res is Ok && shards_view(final(parity)@) == encode_spec(
                    self.coding(),
                    self.data_count(),
                    self.parity_count(),
                    shards_view(data@),
                )
            }),
    {
        let len = match self.validate_shards(data, parity) {
            Ok(l) => l,
            Err(e) => {
                return Err(e);
            },
        };
        let ghost dv = shards_view(data@);
        let ghost target = encode_spec(self.coding(), self.data_count(), self.parity_count(), dv);
        proof {
            assert forall|i: int| 0 <= i < data@.len() implies #[trigger] data@[i]@.len() == len by {
                assert(dv[i].len() == data@[i]@.len());
            }
            let pv = shards_view(parity@);
            assert forall|q: int| 0 <= q < parity@.len() implies #[trigger] parity@[q]@.len() == len by {
                assert(pv[q].len() == parity@[q]@.len());
            }
        }
        let mut p_idx: usize = 0;
        while p_idx < self.parity_shards
            invariant
                self.wf(),
                dv == shards_view(data@),
                target == encode_spec(self.coding(), self.data_count(), self.parity_count(), dv),
                data@.len() == self.data_count(),
                parity@.len() == self.parity_count(),
                len == dv[0].len(),
                forall|i: int| 0 <= i < data@.len() ==> #[trigger] data@[i]@.len() == len,
                p_idx <= self.parity_count(),
                forall|q: int| 0 <= q < p_idx ==> #[trigger] parity@[q]@ == target[q],
                forall|q: int| p_idx <= q < parity@.len() ==> #[trigger] parity@[q]@.len() == len,
            decreases self.parity_count() - p_idx,
        {
            let row = self.parity_rows[p_idx].as_slice();
            assert(row@ == self.rows_view()[p_idx as int]);
            combine_into(kernel, row, data, parity[p_idx].as_mut_slice());
            p_idx += 1;
        }
        proof {
            let pv = shards_view(parity@);
            assert forall|q: int| 0 <= q < self.parity_count() implies pv[q] =~= target[q] by {}
            assert(pv =~= target);
        }
        Ok(())
    }

    /// Encodes the parity shards with the byte-sliced table kernel.
    pub fn encode_sep(&self, data: &[Vec<u8>], parity: &mut [Vec<u8>]) -> (res: Result<(), Error>)
        ensures
            ({
                let chk = shard_check(
                    self.data_count(),
                    self.parity_count(),
                    shards_view(data@),
                    shards_view(old(parity)@),
                );
                &&& chk is Err ==> res == Err::<(), Error>(chk->Err_0) && final(parity)@ == old(
                    parity,
                )@
                &&& chk is Ok ==> res is Ok && shards_view(final(parity)@) == encode_spec(
                    self.coding(),
                    self.data_count(),
                    self.parity_count(),
                    shards_view(data@),
                )
            }),
    {
        proof {
            use_type_invariant(self);
        }
        match self.validate_shards(data, parity) {
            Ok(_) => {},
            Err(e) => {
                return Err(e);
            },
        }
        self.encode_sep_neon_slice_by_slice(data, parity)
    }

    /// Pure scalar encoder (portable reference).
    pub fn encode_sep_scalar(&self, data: &[Vec<u8>], parity: &mut [Vec<u8>]) -> (res: Result<
        (),
        Error,
    >)
        ensures
            ({
                let chk = shard_check(
                    self.data_count(),
                    self.parity_count(),
                    shards_view(data@),
                    shards_view(old(parity)@),
                );
                &&& chk is Err ==> res == Err::<(), Error>(chk->Err_0) && final(parity)@ == old(
                    parity,
                )@
                &&& chk is Ok ==> res is Ok && shards_view(final(parity)@) == encode_spec(
                    self.coding(),
                    self.data_count(),
                    self.parity_count(),
                    shards_view(data@),
                )
            }),
    {
        proof {
            use_type_invariant(self);
        }
        self.encode_parity(data, parity, Kernel::Scalar)
    }

    /// Encoder that accumulates each parity byte over all data shards at once.
    pub fn encode_sep_neon(&self, data: &[Vec<u8>], parity: &mut [Vec<u8>]) -> (res: Result<
        (),
        Error,
    >)
        ensures
            ({
                let chk = shard_check(
                    self.data_count(),
                    self.parity_count(),
                    shards_view(data@),
                    shards_view(old(parity)@),
                );
                &&& chk is Err ==> res == Err::<(), Error>(chk->Err_0) && final(parity)@ == old(
                    parity,
                )@
                &&& chk is Ok ==> res is Ok && shards_view(final(parity)@) == encode_spec(
                    self.coding(),
                    self.data_count(),
                    self.parity_count(),
                    shards_view(data@),
                )
            }),
    {
        proof {
            use_type_invariant(self);
        }
        self.encode_parity(data, parity, Kernel::NeonDirect)
    }

    /// Slice-by-slice encoder with the 128-bit table kernel.
    pub fn encode_sep_neon_slice_by_slice(&self, data: &[Vec<u8>], parity: &mut [Vec<u8>]) -> (res:
        Result<(), Error>)
        ensures
            ({
                let chk = shard_check(
                    self.data_count(),
                    self.parity_count(),
                    shards_view(data@),
                    shards_view(old(parity)@),
                );
                &&& chk is Err ==> res == Err::<(), Error>(chk->Err_0) && final(parity)@ == old(
                    parity,
                )@
                &&& chk is Ok ==> res is Ok && shards_view(final(parity)@) == encode_spec(
                    self.coding(),
                    self.data_count(),
                    self.parity_count(),
                    shards_view(data@),
                )
            }),
    {
        proof {
            use_type_invariant(self);
        }
        self.encode_parity(data, parity, Kernel::NeonSlices)
    }

    /// Slice-by-slice encoder with the 256-bit table kernel.
    pub fn encode_sep_avx2(&self, data: &[Vec<u8>], parity: &mut [Vec<u8>]) -> (res: Result<
        (),
        Error,
    >)
        ensures
            ({
                let chk = shard_check(
                    self.data_count(),
                    self.parity_count(),
                    shards_view(data@),
                    shards_view(old(parity)@),
                );
                &&& chk is Err ==> res == Err::<(), Error>(chk->Err_0) && final(parity)@ == old(
                    parity,
                )@
                &&& chk is Ok ==> res is Ok && shards_view(final(parity)@) == encode_spec(
                    self.coding(),
                    self.data_count(),
                    self.parity_count(),
                    shards_view(data@),
                )
            }),
    {
        proof {
            use_type_invariant(self);
        }
        self.encode_parity(data, parity, Kernel::Avx2)
    }

    /// Reconstructs missing data shards in-place from available data and parity shards.
    pub fn reconstruct_data(&self, shards: &mut [Vec<u8>], shard_present: &[bool]) -> (res: Result<
        (),
        Error,
    >)
        ensures
            res == reconstruct_check(
                self.coding(),
                shards_view(old(shards)@),
                shard_present@,
                self.data_count(),
            ),
            res is Err ==> final(shards)@ == old(shards)@,
            res is Ok ==> shards_view(final(shards)@) == reconstruct_spec(
                self.coding(),
                shards_view(old(shards)@),
                shard_present@,
                self.data_count(),
            ),
    {
        proof {
            use_type_invariant(self);
        }
        let ghost orig = shards_view(shards@);
        let ghost present = shard_present@;
        let ghost kk = self.data_count();
        let ghost coding = self.coding();
        let total = self.total_shards;
        let k = self.data_shards;
        if shards.len() != total || shard_present.len() != total {
            return Err(Error::IncorrectShardSize);
        }
        let shard_len = shards[0].len();
        if shard_len == 0 {
            return Err(Error::EmptyShard);
        }
        let mut i: usize = 0;
        while i < total
            invariant
                self.wf(),
                total == coding.len(),
                orig == shards_view(shards@),
                shards@.len() == total,
                shard_len == orig[0].len(),
                shard_len > 0,
                i <= total,
                forall|j: int| 0 <= j < i ==> #[trigger] orig[j].len() == shard_len,
            decreases total - i,
        {
            if shards[i].len() != shard_len {
                assert(orig[i as int].len() != orig[0].len());
                return Err(Error::IncorrectShardSize);
            }
            i += 1;
        }
        // The missing data shards
        let mut missing_data: Vec<usize> = Vec::new();
        let mut i: usize = 0;
        while i < k
            invariant
                self.wf(),
                k == kk,
                total == coding.len(),
                present == shard_present@,
                present.len() == total,
                k <= total,
                i <= k,
                forall|j: int|
                    0 <= j < missing_data@.len() ==> #[trigger] missing_data@[j] < k && !present[missing_data@[j] as int],
                forall|j: int| 0 <= j < i && !#[trigger] present[j] ==> missing_data@.contains(j as usize),
            decreases k - i,
        {
            let ghost prev_missing = missing_data@;
            if !shard_present[i] {
                missing_data.push(i);
            }
            proof {
                assert forall|j: int| 0 <= j <= i && !#[trigger] present[j] implies missing_data@.contains(j as usize) by {
                    if j == i {
                        assert(missing_data@[missing_data@.len() - 1] == j as usize);
                    } else {
                        assert(prev_missing.contains(j as usize));
                        let w = choose|w: int| 0 <= w < prev_missing.len() && prev_missing[w] == j as usize;
                        assert(missing_data@[w] == j as usize);
                    }
                }
            }
            i += 1;
        }
        if missing_data.len() == 0 {
            proof {
                assert(!has_missing_data(present, kk)) by {
                    if has_missing_data(present, kk) {
                        let j = choose|j: int| 0 <= j < kk && !#[trigger] present[j];
                        assert(missing_data@.contains(j as usize));
                    }
                }
                assert(shards_view(shards@) =~= reconstruct_spec(coding, orig, present, kk));
            }
            return Ok(());
        }
        proof {
            assert(has_missing_data(present, kk)) by {
                let j = missing_data@[0] as int;
                assert(!present[j]);
            }
        }
        // The first `k` available shards
        let mut available_indices: Vec<usize> = Vec::new();
        let mut i: usize = 0;
        while i < total && available_indices.len() < k
            invariant
                self.wf(),
                k == kk,
                total == coding.len(),
                present == shard_present@,
                present.len() == total,
                i <= total,
                available_indices@.len() == first_present(present, kk, i as nat).len(),
                forall|j: int|
                    0 <= j < available_indices@.len() ==> #[trigger] available_indices@[j] as int
                        == first_present(present, kk, i as nat)[j],
            decreases total - i,
        {
            if shard_present[i] {
                available_indices.push(i);
            }
            i += 1;
        }
        let ghost fp = first_present(present, kk, total as nat);
        proof {
            lemma_first_present(present, kk, i as nat);
            if i < total {
                lemma_first_present_full(present, kk, i as nat, total as nat);
            }
            lemma_first_present(present, kk, total as nat);
            lemma_first_present_len(present, kk, total as nat);
        }
        if available_indices.len() < k {
            return Err(Error::TooFewShardsPresent);
        }
        // Build decode matrix from the available rows of the coding matrix
        proof {
            assert(k * k <= 256 * 256) by (nonlinear_arith)
                requires
                    k <= 256,
            ;
        }
        let mut sub_mat = Matrix::new(k, k);
        let ghost sub = decode_rows(coding, present, kk);
        let mut r: usize = 0;
        while r < k
            invariant
                self.wf(),
                k == kk,
                total == coding.len(),
                coding == self.coding(),
                self.coding_matrix.cols == k,
                self.coding_matrix.rows == total,
                self.coding_matrix.wf(),
                sub == select_rows(coding, fp),
                fp.len() == k,
                forall|j: int| 0 <= j < k ==> 0 <= #[trigger] fp[j] < total,
                available_indices@.len() == k,
                forall|j: int| 0 <= j < k ==> #[trigger] available_indices@[j] as int == fp[j],
                r <= k,
                sub_mat.wf(),
                sub_mat.rows == k,
                sub_mat.cols == k,
                forall|x: int, y: int|
                    0 <= x < k && 0 <= y < k ==> #[trigger] sub_mat@[x][y] == if x < r {
                        sub[x][y]
                    } else {
                        0u8
                    },
            decreases k - r,
        {
            let src_row = available_indices[r];
            let mut c: usize = 0;
            while c < k
                invariant
                    self.wf(),
                    k == kk,
                    total == coding.len(),
                    coding == self.coding(),
                    self.coding_matrix.cols == k,
                    self.coding_matrix.rows == total,
                    self.coding_matrix.wf(),
                    sub == select_rows(coding, fp),
                    fp.len() == k,
                    forall|j: int| 0 <= j < k ==> 0 <= #[trigger] fp[j] < total,
                    available_indices@.len() == k,
                    forall|j: int| 0 <= j < k ==> #[trigger] available_indices@[j] as int == fp[j],
                    r < k,
                    src_row == available_indices@[r as int],
                    c <= k,
                    sub_mat.wf(),
                    sub_mat.rows == k,
                    sub_mat.cols == k,
                    forall|x: int, y: int|
                        0 <= x < k && 0 <= y < k ==> #[trigger] sub_mat@[x][y] == if x < r || (x
                            == r && y < c) {
                            sub[x][y]
                        } else {
                            0u8
                        },
                decreases k - c,
            {
                sub_mat.set(r, c, self.coding_matrix.get(src_row, c));
                c += 1;
            }
            r += 1;
        }
        proof {
            assert forall|x: int| 0 <= x < k implies sub_mat@[x] =~= sub[x] by {}
            assert(sub_mat@ =~= sub);
            assert(k * k * 2 <= 256 * 256 * 2) by (nonlinear_arith)
                requires
                    k <= 256,
            ;
        }
        proof {
            lemma_decode_rows_invertible(kk, self.parity_count(), present);
        }
        let inv_decode_mat = match sub_mat.invert() {
            Ok(m) => m,
            Err(_) => {
                return Err(Error::SingularMatrix);
            },
        };
        proof {
            lemma_inverse_of(inv_decode_mat@, sub, kk);
        }
        // Recompute each missing data shard from the available shards, read in place
        let ghost avail_view = select_rows(orig, fp);
        let ghost rec = recovered(coding, orig, present, kk);
        let mut t: usize = 0;
        while t < missing_data.len()
            invariant
                self.wf(),
                k == kk,
                total == coding.len(),
                coding == self.coding(),
                present == shard_present@,
                present.len() == total,
                shards@.len() == total,
                orig.len() == total,
                shard_len == orig[0].len(),
                forall|j: int| 0 <= j < total ==> #[trigger] orig[j].len() == shard_len,
                rec == recovered(coding, orig, present, kk),
                rec == mat_mul(inv_decode_mat@, avail_view, kk, shard_len as nat),
                avail_view == select_rows(orig, fp),
                fp.len() == k,
                k <= total,
                forall|j: int| 0 <= j < k ==> 0 <= #[trigger] fp[j] < total,
                inv_decode_mat.wf(),
                inv_decode_mat.rows == k,
                inv_decode_mat.cols == k,
                available_indices@.len() == k,
                forall|j: int| 0 <= j < k ==> #[trigger] available_indices@[j] as int == fp[j],
                forall|j: int| 0 <= j < k ==> #[trigger] present[fp[j]],
                forall|j: int|
                    0 <= j < missing_data@.len() ==> #[trigger] missing_data@[j] < k && !present[missing_data@[j] as int],
                t <= missing_data@.len(),
                forall|x: int|
                    0 <= x < total ==> #[trigger] shards@[x]@ == if missing_data@.subrange(
                        0,
                        t as int,
                    ).contains(x as usize) {
                        rec[x]
                    } else {
                        orig[x]
                    },
            decreases missing_data@.len() - t,
        {
            let missing_idx = missing_data[t];
            let mut row: Vec<u8> = Vec::with_capacity(k);
            let mut c: usize = 0;
            while c < k
                invariant
                    k == kk,
                    missing_idx < k,
                    inv_decode_mat.wf(),
                    inv_decode_mat.rows == k,
                    inv_decode_mat.cols == k,
                    c <= k,
                    row@.len() == c,
                    forall|y: int| 0 <= y < c ==> #[trigger] row@[y] == inv_decode_mat@[missing_idx as int][y],
                decreases k - c,
            {
                row.push(inv_decode_mat.get(missing_idx, c));
                c += 1;
            }
            let ghost before = shards@;
            proof {
                assert(row@ =~= inv_decode_mat@[missing_idx as int]);
                assert forall|x: int| 0 <= x < total implies #[trigger] before[x]@.len() == shard_len by {
                    if missing_data@.subrange(0, t as int).contains(x as usize) {
                        assert(rec[x].len() == shard_len);
                    }
                }
                assert forall|j: int| 0 <= j < k implies #[trigger] before[fp[j]]@ == orig[fp[j]] by {
                    let x = fp[j];
                    if missing_data@.subrange(0, t as int).contains(x as usize) {
                        let w = choose|w: int|
                            0 <= w < t && missing_data@.subrange(0, t as int)[w] == x as usize;
                        assert(missing_data@[w] == x as usize);
                        assert(!present[x]);
                    }
                }
                assert forall|j: int| 0 <= j < k implies #[trigger] available_indices@[j]
                    != missing_idx by {
                    assert(present[fp[j]]);
                }
            }
            combine_in_place(row.as_slice(), available_indices.as_slice(), shards, missing_idx);
            proof {
                let inputs = Seq::new(k as nat, |j: int| before[available_indices@[j] as int]@);
                assert(inputs =~= avail_view);
                assert(shards@[missing_idx as int]@ =~= rec[missing_idx as int]);
            }
            proof {
                let done = missing_data@.subrange(0, t as int + 1);
                let prev = missing_data@.subrange(0, t as int);
                assert forall|x: int| 0 <= x < total implies #[trigger] shards@[x]@ == if done.contains(x as usize) {
                    rec[x]
                } else {
                    orig[x]
                } by {
                    if x == missing_idx as int {
                        assert(done[t as int] == missing_idx);
                    } else {
                        assert(shards@[x] == before[x]);
                        if done.contains(x as usize) {
                            let w = choose|w: int| 0 <= w < done.len() && done[w] == x as usize;
                            assert(prev[w] == x as usize);
                        }
                        if prev.contains(x as usize) {
                            let w = choose|w: int| 0 <= w < prev.len() && prev[w] == x as usize;
                            assert(done[w] == x as usize);
                        }
                    }
                }
            }
            t += 1;
        }
        proof {
            let target = reconstruct_spec(coding, orig, present, kk);
            assert(missing_data@.subrange(0, missing_data@.len() as int) =~= missing_data@);
            assert forall|x: int| 0 <= x < total implies #[trigger] shards_view(shards@)[x] == target[x] by {
                if missing_data@.contains(x as usize) {
                    let w = choose|w: int| 0 <= w < missing_data@.len() && missing_data@[w] == x as usize;
                    assert(missing_data@[w] < k && !present[missing_data@[w] as int]);
                }
                if x < kk && !present[x] {
                    assert(missing_data@.contains(x as usize));
                }
            }
            assert(shards_view(shards@) =~= target);
        }
        Ok(())
    }
}

} // verus!
