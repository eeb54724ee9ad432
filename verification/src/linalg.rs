//! Linear algebra over GF(2^8) in specification form: matrices as sequences
//! of rows, sums, products, identities, inverses, elementary row operations,
//! and the laws relating them.
use vstd::prelude::*;
use crate::field::{
    ginv, gmul, lemma_ginv, lemma_gmul_assoc, lemma_gmul_comm, lemma_gmul_units,
    lemma_gmul_xor_right, lemma_xor, };

verus! {

/// `f(0) ^ f(1) ^ ... ^ f(n-1)`: a sum in the field.
pub open spec fn xsum(f: spec_fn(int) -> u8, n: nat) -> u8
    decreases n,
{
    if n == 0 {
        0
    } else {
        xsum(f, (n - 1) as nat) ^ f(n - 1)
    }
}

/// A matrix with `r` rows of `c` entries each.
pub open spec fn is_mat(a: Seq<Seq<u8>>, r: nat, c: nat) -> bool {
    &&& a.len() == r
    &&& forall|i: int| 0 <= i < r ==> #[trigger] a[i].len() == c
}

/// The terms of the dot product of `row` with column `j` of `b`.
pub open spec fn dot_terms(row: Seq<u8>, b: Seq<Seq<u8>>, j: int) -> spec_fn(int) -> u8 {
    |k: int| gmul(row[k], b[k][j])
}

/// The dot product of `row` (length `n`) with column `j` of `b`.
pub open spec fn dot(row: Seq<u8>, b: Seq<Seq<u8>>, j: int, n: nat) -> u8 {
    xsum(dot_terms(row, b, j), n)
}

/// The product of `a` (with `n` columns) and `b` (`n` rows of `p` entries).
pub open spec fn mat_mul(a: Seq<Seq<u8>>, b: Seq<Seq<u8>>, n: nat, p: nat) -> Seq<Seq<u8>> {
    Seq::new(a.len(), |i: int| Seq::new(p, |j: int| dot(a[i], b, j, n)))
}

/// The `n` by `n` identity matrix.
pub open spec fn identity(n: nat) -> Seq<Seq<u8>> {
    Seq::new(n, |i: int| Seq::new(n, |j: int| if i == j { 1u8 } else { 0u8 }))
}

/// The `r` by `c` zero matrix.
pub open spec fn zeros(r: nat, c: nat) -> Seq<Seq<u8>> {
    Seq::new(r, |i: int| Seq::new(c, |j: int| 0u8))
}

/// `t` is a two-sided inverse of the `n` by `n` matrix `a`.
pub open spec fn is_inverse(t: Seq<Seq<u8>>, a: Seq<Seq<u8>>, n: nat) -> bool {
    &&& is_mat(t, n, n)
    &&& mat_mul(t, a, n, n) == identity(n)
    &&& mat_mul(a, t, n, n) == identity(n)
}

/// The `n` by `n` matrix `a` has an inverse.
pub open spec fn invertible(a: Seq<Seq<u8>>, n: nat) -> bool {
    exists|t: Seq<Seq<u8>>| is_inverse(t, a, n)
}

/// The inverse of an invertible matrix.
pub open spec fn inverse_of(a: Seq<Seq<u8>>, n: nat) -> Seq<Seq<u8>> {
    choose|t: Seq<Seq<u8>>| is_inverse(t, a, n)
}

/// The rows of `a` listed in `idx`, in that order.
pub open spec fn select_rows(a: Seq<Seq<u8>>, idx: Seq<int>) -> Seq<Seq<u8>> {
    Seq::new(idx.len(), |i: int| a[idx[i]])
}

/// Columns `0..n` of each row.
pub open spec fn left_block(a: Seq<Seq<u8>>, n: nat) -> Seq<Seq<u8>> {
    Seq::new(a.len(), |i: int| a[i].subrange(0, n as int))
}

/// Columns `n..2n` of each row.
pub open spec fn right_block(a: Seq<Seq<u8>>, n: nat) -> Seq<Seq<u8>> {
    Seq::new(a.len(), |i: int| a[i].subrange(n as int, 2 * n as int))
}

/// Each row of `a` followed by the same row of `b`.
pub open spec fn hcat(a: Seq<Seq<u8>>, b: Seq<Seq<u8>>) -> Seq<Seq<u8>> {
    Seq::new(a.len(), |i: int| a[i] + b[i])
}

// ---------------------------------------------------------------------------
// Sums
// ---------------------------------------------------------------------------

pub proof fn lemma_xsum_ext(f: spec_fn(int) -> u8, g: spec_fn(int) -> u8, n: nat)
    requires
        forall|k: int| 0 <= k < n ==> #[trigger] f(k) == g(k),
    ensures
        xsum(f, n) == xsum(g, n),
    decreases n,
{
    if n > 0 {
        lemma_xsum_ext(f, g, (n - 1) as nat);
    }
}

pub proof fn lemma_xsum_zero(f: spec_fn(int) -> u8, n: nat)
    requires
        forall|k: int| 0 <= k < n ==> #[trigger] f(k) == 0,
    ensures
        xsum(f, n) == 0,
    decreases n,
{
    if n > 0 {
        lemma_xsum_zero(f, (n - 1) as nat);
        lemma_xor(0, 0, 0);
    }
}

proof fn lemma_xor4(a: u8, b: u8, c: u8, d: u8)
    ensures
        (a ^ b) ^ (c ^ d) == (a ^ c) ^ (b ^ d),
{
    assert((a ^ b) ^ (c ^ d) == (a ^ c) ^ (b ^ d)) by (bit_vector);
}

pub open spec fn xor_fn(f: spec_fn(int) -> u8, g: spec_fn(int) -> u8) -> spec_fn(int) -> u8 {
    |k: int| f(k) ^ g(k)
}

pub proof fn lemma_xsum_xor(f: spec_fn(int) -> u8, g: spec_fn(int) -> u8, n: nat)
    ensures
        xsum(xor_fn(f, g), n) == xsum(f, n) ^ xsum(g, n),
    decreases n,
{
    if n == 0 {
        lemma_xor(0, 0, 0);
    } else {
        let n1 = (n - 1) as nat;
        lemma_xsum_xor(f, g, n1);
        lemma_xor4(xsum(f, n1), xsum(g, n1), f(n1 as int), g(n1 as int));
    }
}

pub open spec fn scale_fn(q: u8, f: spec_fn(int) -> u8) -> spec_fn(int) -> u8 {
    |k: int| gmul(q, f(k))
}

pub proof fn lemma_xsum_scale(q: u8, f: spec_fn(int) -> u8, n: nat)
    ensures
        xsum(scale_fn(q, f), n) == gmul(q, xsum(f, n)),
    decreases n,
{
    if n == 0 {
        lemma_gmul_units(q);
    } else {
        let n1 = (n - 1) as nat;
        lemma_xsum_scale(q, f, n1);
        lemma_gmul_xor_right(q, xsum(f, n1), f(n1 as int));
    }
}

pub proof fn lemma_xsum_single(f: spec_fn(int) -> u8, n: nat, t: int)
    requires
        0 <= t < n,
        forall|k: int| 0 <= k < n && k != t ==> #[trigger] f(k) == 0,
    ensures
        xsum(f, n) == f(t),
    decreases n,
{
    let n1 = (n - 1) as nat;
    if t == n1 {
        lemma_xsum_zero(f, n1);
        lemma_xor(f(t), 0, 0);
    } else {
        lemma_xsum_single(f, n1, t);
        lemma_xor(f(t), 0, 0);
    }
}

pub proof fn lemma_xsum_pair(f: spec_fn(int) -> u8, n: nat, t1: int, t2: int)
    requires
        0 <= t1 < n,
        0 <= t2 < n,
        t1 != t2,
        forall|k: int| 0 <= k < n && k != t1 && k != t2 ==> #[trigger] f(k) == 0,
    ensures
        xsum(f, n) == f(t1) ^ f(t2),
{
    let g1 = |k: int| if k == t1 { f(k) } else { 0u8 };
    let g2 = |k: int| if k == t2 { f(k) } else { 0u8 };
    assert forall|k: int| 0 <= k < n implies #[trigger] f(k) == xor_fn(g1, g2)(k) by {
        lemma_xor(f(k), 0, 0);
    }
    lemma_xsum_ext(f, xor_fn(g1, g2), n);
    lemma_xsum_xor(g1, g2, n);
    lemma_xsum_single(g1, n, t1);
    lemma_xsum_single(g2, n, t2);
}

pub open spec fn row_sums(h: spec_fn(int, int) -> u8, m: nat) -> spec_fn(int) -> u8 {
    |i: int| xsum(|j: int| h(i, j), m)
}

pub open spec fn col_sums(h: spec_fn(int, int) -> u8, n: nat) -> spec_fn(int) -> u8 {
    |j: int| xsum(|i: int| h(i, j), n)
}

/// Exchanging the order of a double sum.
pub proof fn lemma_xsum_swap(h: spec_fn(int, int) -> u8, n: nat, m: nat)
    ensures
        xsum(row_sums(h, m), n) == xsum(col_sums(h, n), m),
    decreases n,
{
    if n == 0 {
        assert forall|j: int| 0 <= j < m implies #[trigger] col_sums(h, n)(j) == 0 by {}
        lemma_xsum_zero(col_sums(h, n), m);
    } else {
        let n1 = (n - 1) as nat;
        lemma_xsum_swap(h, n1, m);
        let last = |j: int| h(n1 as int, j);
        lemma_xsum_xor(col_sums(h, n1), last, m);
        assert forall|j: int| 0 <= j < m implies #[trigger] col_sums(h, n)(j) == xor_fn(
            col_sums(h, n1),
            last,
        )(j) by {}
        lemma_xsum_ext(col_sums(h, n), xor_fn(col_sums(h, n1), last), m);
        assert(row_sums(h, m)(n1 as int) == xsum(last, m));
    }
}

// ---------------------------------------------------------------------------
// Products
// ---------------------------------------------------------------------------

/// `I * a == a`.
pub proof fn lemma_mul_identity_left(a: Seq<Seq<u8>>, n: nat, p: nat)
    requires
        is_mat(a, n, p),
    ensures
        mat_mul(identity(n), a, n, p) == a,
{
    let m = mat_mul(identity(n), a, n, p);
    assert forall|i: int, j: int| 0 <= i < n && 0 <= j < p implies m[i][j] == a[i][j] by {
        let f = dot_terms(identity(n)[i], a, j);
        assert forall|k: int| 0 <= k < n && k != i implies #[trigger] f(k) == 0 by {
            lemma_gmul_units(a[k][j]);
        }
        lemma_xsum_single(f, n, i);
        lemma_gmul_units(a[i][j]);
    }
    assert forall|i: int| 0 <= i < n implies m[i] =~= a[i] by {}
    assert(m =~= a);
}

/// `a * I == a`.
pub proof fn lemma_mul_identity_right(a: Seq<Seq<u8>>, r: nat, n: nat)
    requires
        is_mat(a, r, n),
    ensures
        mat_mul(a, identity(n), n, n) == a,
{
    let m = mat_mul(a, identity(n), n, n);
    assert forall|i: int, j: int| 0 <= i < r && 0 <= j < n implies m[i][j] == a[i][j] by {
        let f = dot_terms(a[i], identity(n), j);
        assert forall|k: int| 0 <= k < n && k != j implies #[trigger] f(k) == 0 by {
            lemma_gmul_units(a[i][k]);
        }
        lemma_xsum_single(f, n, j);
        lemma_gmul_units(a[i][j]);
    }
    assert forall|i: int| 0 <= i < r implies m[i] =~= a[i] by {}
    assert(m =~= a);
}

/// `0 * a == 0`... and `a * 0 == 0`.
pub proof fn lemma_mul_zeros_right(a: Seq<Seq<u8>>, r: nat, n: nat, p: nat)
    requires
        is_mat(a, r, n),
    ensures
        mat_mul(a, zeros(n, p), n, p) == zeros(r, p),
{
    let m = mat_mul(a, zeros(n, p), n, p);
    assert forall|i: int, j: int| 0 <= i < r && 0 <= j < p implies m[i][j] == 0u8 by {
        let f = dot_terms(a[i], zeros(n, p), j);
        assert forall|k: int| 0 <= k < n implies #[trigger] f(k) == 0 by {
            lemma_gmul_units(a[i][k]);
        }
        lemma_xsum_zero(f, n);
    }
    assert forall|i: int| 0 <= i < r implies m[i] =~= zeros(r, p)[i] by {}
    assert(m =~= zeros(r, p));
}

pub open spec fn assoc_terms(
    a: Seq<Seq<u8>>,
    b: Seq<Seq<u8>>,
    c: Seq<Seq<u8>>,
    i: int,
    l: int,
) -> spec_fn(int, int) -> u8 {
    |k: int, j: int| gmul(a[i][k], gmul(b[k][j], c[j][l]))
}

proof fn lemma_assoc_entry(
    a: Seq<Seq<u8>>,
    b: Seq<Seq<u8>>,
    c: Seq<Seq<u8>>,
    n: nat,
    p: nat,
    q: nat,
    i: int,
    l: int,
)
    requires
        is_mat(b, n, p),
        is_mat(c, p, q),
        0 <= i < a.len(),
        a[i].len() == n,
        0 <= l < q,
    ensures
        dot(mat_mul(a, b, n, p)[i], c, l, p) == dot(a[i], mat_mul(b, c, p, q), l, n),
{
    let h = assoc_terms(a, b, c, i, l);
    let ab = mat_mul(a, b, n, p);
    let bc = mat_mul(b, c, p, q);
    // left side: sum over j of (sum over k of a_ik b_kj) c_jl
    assert forall|j: int| 0 <= j < p implies #[trigger] dot_terms(ab[i], c, l)(j) == col_sums(
        h,
        n,
    )(j) by {
        let f = dot_terms(a[i], b, j);
        lemma_gmul_comm(xsum(f, n), c[j][l]);
        lemma_xsum_scale(c[j][l], f, n);
        assert forall|k: int| 0 <= k < n implies #[trigger] scale_fn(c[j][l], f)(k) == (|k: int| h(k, j))(
            k,
        ) by {
            lemma_gmul_comm(c[j][l], gmul(a[i][k], b[k][j]));
            lemma_gmul_assoc(a[i][k], b[k][j], c[j][l]);
        }
        lemma_xsum_ext(scale_fn(c[j][l], f), |k: int| h(k, j), n);
    }
    lemma_xsum_ext(dot_terms(ab[i], c, l), col_sums(h, n), p);
    // right side: sum over k of a_ik (sum over j of b_kj c_jl)
    assert forall|k: int| 0 <= k < n implies #[trigger] dot_terms(a[i], bc, l)(k) == row_sums(
        h,
        p,
    )(k) by {
        let g = dot_terms(b[k], c, l);
        lemma_xsum_scale(a[i][k], g, p);
        lemma_xsum_ext(scale_fn(a[i][k], g), |j: int| h(k, j), p);
    }
    lemma_xsum_ext(dot_terms(a[i], bc, l), row_sums(h, p), n);
    lemma_xsum_swap(h, n, p);
}

/// The matrix product is associative.
pub proof fn lemma_mat_mul_assoc(
    a: Seq<Seq<u8>>,
    b: Seq<Seq<u8>>,
    c: Seq<Seq<u8>>,
    m: nat,
    n: nat,
    p: nat,
    q: nat,
)
    requires
        is_mat(a, m, n),
        is_mat(b, n, p),
        is_mat(c, p, q),
    ensures
        mat_mul(mat_mul(a, b, n, p), c, p, q) == mat_mul(a, mat_mul(b, c, p, q), n, q),
{
    let lhs = mat_mul(mat_mul(a, b, n, p), c, p, q);
    let rhs = mat_mul(a, mat_mul(b, c, p, q), n, q);
    assert forall|i: int, l: int| 0 <= i < m && 0 <= l < q implies lhs[i][l] == rhs[i][l] by {
        lemma_assoc_entry(a, b, c, n, p, q, i, l);
    }
    assert forall|i: int| 0 <= i < m implies lhs[i] =~= rhs[i] by {}
    assert(lhs =~= rhs);
}

// ---------------------------------------------------------------------------
// Inverses
// ---------------------------------------------------------------------------

/// A matrix has at most one inverse.
pub proof fn lemma_inverse_unique(t1: Seq<Seq<u8>>, t2: Seq<Seq<u8>>, a: Seq<Seq<u8>>, n: nat)
    requires
        is_mat(a, n, n),
        is_inverse(t1, a, n),
        is_inverse(t2, a, n),
    ensures
        t1 == t2,
{
    lemma_mat_mul_assoc(t1, a, t2, n, n, n, n);
    lemma_mul_identity_right(t1, n, n);
    lemma_mul_identity_left(t2, n, n);
}

/// An invertible matrix's inverse is the one that `inverse_of` names.
pub proof fn lemma_inverse_of(t: Seq<Seq<u8>>, a: Seq<Seq<u8>>, n: nat)
    requires
        is_mat(a, n, n),
        is_inverse(t, a, n),
    ensures
        invertible(a, n),
        inverse_of(a, n) == t,
{
    lemma_inverse_unique(t, inverse_of(a, n), a, n);
}

// ---------------------------------------------------------------------------
// Elementary row operations
// ---------------------------------------------------------------------------

/// Rows `r` and `p` exchanged.
pub open spec fn swap_rows(x: Seq<Seq<u8>>, r: int, p: int) -> Seq<Seq<u8>> {
    x.update(r, x[p]).update(p, x[r])
}

/// Row `r` multiplied by `q`.
pub open spec fn scale_row(x: Seq<Seq<u8>>, r: int, q: u8) -> Seq<Seq<u8>> {
    x.update(r, Seq::new(x[r].len(), |c: int| gmul(x[r][c], q)))
}

/// `f` times row `r` added to row `o`.
pub open spec fn add_row(x: Seq<Seq<u8>>, o: int, r: int, f: u8) -> Seq<Seq<u8>> {
    x.update(o, Seq::new(x[o].len(), |c: int| x[o][c] ^ gmul(f, x[r][c])))
}

pub open spec fn swap_index(i: int, r: int, p: int) -> int {
    if i == r {
        p
    } else if i == p {
        r
    } else {
        i
    }
}

pub open spec fn swap_mat(n: nat, r: int, p: int) -> Seq<Seq<u8>> {
    Seq::new(n, |i: int| Seq::new(n, |j: int| if j == swap_index(i, r, p) { 1u8 } else { 0u8 }))
}

pub open spec fn scale_mat(n: nat, r: int, q: u8) -> Seq<Seq<u8>> {
    Seq::new(
        n,
        |i: int|
            Seq::new(
                n,
                |j: int|
                    if i == j {
                        if i == r {
                            q
                        } else {
                            1u8
                        }
                    } else {
                        0u8
                    },
            ),
    )
}

pub open spec fn add_mat(n: nat, o: int, r: int, f: u8) -> Seq<Seq<u8>> {
    Seq::new(
        n,
        |i: int|
            Seq::new(
                n,
                |j: int|
                    if i == j {
                        1u8
                    } else if i == o && j == r {
                        f
                    } else {
                        0u8
                    },
            ),
    )
}

pub proof fn lemma_swap_is_product(x: Seq<Seq<u8>>, n: nat, w: nat, r: int, p: int)
    requires
        is_mat(x, n, w),
        0 <= r < n,
        0 <= p < n,
    ensures
        mat_mul(swap_mat(n, r, p), x, n, w) == swap_rows(x, r, p),
        is_mat(swap_rows(x, r, p), n, w),
{
    let m = mat_mul(swap_mat(n, r, p), x, n, w);
    let s = swap_rows(x, r, p);
    assert forall|i: int, j: int| 0 <= i < n && 0 <= j < w implies m[i][j] == s[i][j] by {
        let t = swap_index(i, r, p);
        let f = dot_terms(swap_mat(n, r, p)[i], x, j);
        assert forall|k: int| 0 <= k < n && k != t implies #[trigger] f(k) == 0 by {
            lemma_gmul_units(x[k][j]);
        }
        lemma_xsum_single(f, n, t);
        lemma_gmul_units(x[t][j]);
    }
    assert forall|i: int| 0 <= i < n implies m[i] =~= s[i] by {}
    assert(m =~= s);
}

pub proof fn lemma_scale_is_product(x: Seq<Seq<u8>>, n: nat, w: nat, r: int, q: u8)
    requires
        is_mat(x, n, w),
        0 <= r < n,
    ensures
        mat_mul(scale_mat(n, r, q), x, n, w) == scale_row(x, r, q),
        is_mat(scale_row(x, r, q), n, w),
{
    let m = mat_mul(scale_mat(n, r, q), x, n, w);
    let s = scale_row(x, r, q);
    assert forall|i: int, j: int| 0 <= i < n && 0 <= j < w implies m[i][j] == s[i][j] by {
        let f = dot_terms(scale_mat(n, r, q)[i], x, j);
        assert forall|k: int| 0 <= k < n && k != i implies #[trigger] f(k) == 0 by {
            lemma_gmul_units(x[k][j]);
        }
        lemma_xsum_single(f, n, i);
        lemma_gmul_units(x[i][j]);
        lemma_gmul_comm(q, x[i][j]);
    }
    assert forall|i: int| 0 <= i < n implies m[i] =~= s[i] by {}
    assert(m =~= s);
}

pub proof fn lemma_add_is_product(x: Seq<Seq<u8>>, n: nat, w: nat, o: int, r: int, f: u8)
    requires
        is_mat(x, n, w),
        0 <= o < n,
        0 <= r < n,
        o != r,
    ensures
        mat_mul(add_mat(n, o, r, f), x, n, w) == add_row(x, o, r, f),
        is_mat(add_row(x, o, r, f), n, w),
{
    let m = mat_mul(add_mat(n, o, r, f), x, n, w);
    let s = add_row(x, o, r, f);
    assert forall|i: int, j: int| 0 <= i < n && 0 <= j < w implies m[i][j] == s[i][j] by {
        let g = dot_terms(add_mat(n, o, r, f)[i], x, j);
        lemma_gmul_units(x[i][j]);
        if i == o {
            assert forall|k: int| 0 <= k < n && k != i && k != r implies #[trigger] g(k) == 0 by {
                lemma_gmul_units(x[k][j]);
            }
            lemma_xsum_pair(g, n, i, r);
        } else {
            assert forall|k: int| 0 <= k < n && k != i implies #[trigger] g(k) == 0 by {
                lemma_gmul_units(x[k][j]);
            }
            lemma_xsum_single(g, n, i);
        }
    }
    assert forall|i: int| 0 <= i < n implies m[i] =~= s[i] by {}
    assert(m =~= s);
}

pub proof fn lemma_swap_inverse(n: nat, r: int, p: int)
    requires
        0 <= r < n,
        0 <= p < n,
    ensures
        mat_mul(swap_mat(n, r, p), swap_mat(n, r, p), n, n) == identity(n),
        is_mat(swap_mat(n, r, p), n, n),
{
    let sm = swap_mat(n, r, p);
    lemma_swap_is_product(sm, n, n, r, p);
    let s = swap_rows(sm, r, p);
    assert forall|i: int| 0 <= i < n implies s[i] =~= identity(n)[i] by {}
    assert(s =~= identity(n));
}

pub proof fn lemma_scale_inverse(n: nat, r: int, q: u8, pv: u8)
    requires
        0 <= r < n,
        gmul(q, pv) == 1,
    ensures
        mat_mul(scale_mat(n, r, pv), scale_mat(n, r, q), n, n) == identity(n),
        is_mat(scale_mat(n, r, q), n, n),
        is_mat(scale_mat(n, r, pv), n, n),
{
    let sm = scale_mat(n, r, q);
    lemma_scale_is_product(sm, n, n, r, pv);
    let s = scale_row(sm, r, pv);
    assert forall|i: int, j: int| 0 <= i < n && 0 <= j < n implies s[i][j] == identity(n)[i][j] by {
        lemma_gmul_units(pv);
    }
    assert forall|i: int| 0 <= i < n implies s[i] =~= identity(n)[i] by {}
    assert(s =~= identity(n));
}

pub proof fn lemma_add_inverse(n: nat, o: int, r: int, f: u8)
    requires
        0 <= o < n,
        0 <= r < n,
        o != r,
    ensures
        mat_mul(add_mat(n, o, r, f), add_mat(n, o, r, f), n, n) == identity(n),
        is_mat(add_mat(n, o, r, f), n, n),
{
    let am = add_mat(n, o, r, f);
    lemma_add_is_product(am, n, n, o, r, f);
    let s = add_row(am, o, r, f);
    assert forall|i: int, j: int| 0 <= i < n && 0 <= j < n implies s[i][j] == identity(n)[i][j] by {
        lemma_gmul_units(f);
        lemma_xor(f, f, 0);
        lemma_xor(1, 0, 0);
        lemma_xor(0, 0, 0);
    }
    assert forall|i: int| 0 <= i < n implies s[i] =~= identity(n)[i] by {}
    assert(s =~= identity(n));
}

// ---------------------------------------------------------------------------
// Gauss-Jordan elimination on [A | I]
// ---------------------------------------------------------------------------

/// The state of an elimination of `aug0 = [A | I]`: the current matrix is
/// `pacc * aug0`, and `rinv` undoes the operations done so far.
pub open spec fn elim_state(
    pacc: Seq<Seq<u8>>,
    rinv: Seq<Seq<u8>>,
    aug: Seq<Seq<u8>>,
    aug0: Seq<Seq<u8>>,
    n: nat,
) -> bool {
    &&& is_mat(pacc, n, n)
    &&& is_mat(rinv, n, n)
    &&& is_mat(aug, n, 2 * n)
    &&& is_mat(aug0, n, 2 * n)
    &&& mat_mul(pacc, aug0, n, 2 * n) == aug
    &&& mat_mul(rinv, aug, n, 2 * n) == aug0
}

pub proof fn lemma_elim_start(aug0: Seq<Seq<u8>>, n: nat)
    requires
        is_mat(aug0, n, 2 * n),
    ensures
        elim_state(identity(n), identity(n), aug0, aug0, n),
{
    lemma_mul_identity_left(aug0, n, 2 * n);
}

/// Applying an invertible operation `pm` (undone by `pinv`) keeps the state.
pub proof fn lemma_elim_step(
    pacc: Seq<Seq<u8>>,
    rinv: Seq<Seq<u8>>,
    aug: Seq<Seq<u8>>,
    aug0: Seq<Seq<u8>>,
    n: nat,
    pm: Seq<Seq<u8>>,
    pinv: Seq<Seq<u8>>,
)
    requires
        elim_state(pacc, rinv, aug, aug0, n),
        is_mat(pm, n, n),
        is_mat(pinv, n, n),
        mat_mul(pinv, pm, n, n) == identity(n),
    ensures
        elim_state(
            mat_mul(pm, pacc, n, n),
            mat_mul(rinv, pinv, n, n),
            mat_mul(pm, aug, n, 2 * n),
            aug0,
            n,
        ),
{
    let w = 2 * n;
    lemma_mat_mul_assoc(pm, pacc, aug0, n, n, n, w);
    lemma_mat_mul_assoc(rinv, pinv, mat_mul(pm, aug, n, w), n, n, n, w);
    lemma_mat_mul_assoc(pinv, pm, aug, n, n, n, w);
    lemma_mul_identity_left(aug, n, w);
}

pub proof fn lemma_left_block_mul(p: Seq<Seq<u8>>, x: Seq<Seq<u8>>, n: nat)
    requires
        is_mat(p, n, n),
        is_mat(x, n, 2 * n),
    ensures
        left_block(mat_mul(p, x, n, 2 * n), n) == mat_mul(p, left_block(x, n), n, n),
        right_block(mat_mul(p, x, n, 2 * n), n) == mat_mul(p, right_block(x, n), n, n),
        is_mat(left_block(x, n), n, n),
        is_mat(right_block(x, n), n, n),
{
    let m = mat_mul(p, x, n, 2 * n);
    let lx = left_block(x, n);
    let rx = right_block(x, n);
    let ml = mat_mul(p, lx, n, n);
    let mr = mat_mul(p, rx, n, n);
    assert forall|i: int, j: int| 0 <= i < n && 0 <= j < n implies left_block(m, n)[i][j] == ml[i][j]
        && right_block(m, n)[i][j] == mr[i][j] by {
        lemma_xsum_ext(dot_terms(p[i], x, j), dot_terms(p[i], lx, j), n);
        lemma_xsum_ext(dot_terms(p[i], x, j + n), dot_terms(p[i], rx, j), n);
    }
    assert forall|i: int| 0 <= i < n implies left_block(m, n)[i] =~= ml[i] && right_block(m, n)[i]
        =~= mr[i] by {}
    assert(left_block(m, n) =~= ml);
    assert(right_block(m, n) =~= mr);
}

/// When the left half has become the identity, the right half is the
/// two-sided inverse of `A`.
pub proof fn lemma_elim_done(
    pacc: Seq<Seq<u8>>,
    rinv: Seq<Seq<u8>>,
    aug: Seq<Seq<u8>>,
    a: Seq<Seq<u8>>,
    n: nat,
)
    requires
        is_mat(a, n, n),
        elim_state(pacc, rinv, aug, hcat(a, identity(n)), n),
        left_block(aug, n) == identity(n),
    ensures
        is_inverse(right_block(aug, n), a, n),
{
    let aug0 = hcat(a, identity(n));
    assert(left_block(aug0, n) =~= a) by {
        assert forall|i: int| 0 <= i < n implies left_block(aug0, n)[i] =~= a[i] by {}
    }
    assert(right_block(aug0, n) =~= identity(n)) by {
        assert forall|i: int| 0 <= i < n implies right_block(aug0, n)[i] =~= identity(n)[i] by {}
    }
    lemma_left_block_mul(pacc, aug0, n);
    lemma_left_block_mul(rinv, aug, n);
    lemma_mul_identity_right(pacc, n, n);
    lemma_mul_identity_right(rinv, n, n);
}

/// `x` is a nonzero column vector of length `n` that `a` sends to zero.
pub open spec fn is_kernel_vector(x: Seq<Seq<u8>>, a: Seq<Seq<u8>>, n: nat) -> bool {
    &&& is_mat(x, n, 1)
    &&& exists|c: int| 0 <= c < n && #[trigger] x[c][0] != 0
    &&& mat_mul(a, x, n, 1) == zeros(n, 1)
}

/// Some nonzero vector is sent to zero by `a`.
pub open spec fn has_kernel(a: Seq<Seq<u8>>, n: nat) -> bool {
    exists|x: Seq<Seq<u8>>| is_kernel_vector(x, a, n)
}

/// A matrix that sends a nonzero vector to zero has no inverse.
pub proof fn lemma_kernel_not_invertible(a: Seq<Seq<u8>>, x: Seq<Seq<u8>>, n: nat)
    requires
        is_mat(a, n, n),
        is_kernel_vector(x, a, n),
    ensures
        !invertible(a, n),
{
    if invertible(a, n) {
        let t = inverse_of(a, n);
        lemma_mat_mul_assoc(t, a, x, n, n, n, 1);
        lemma_mul_identity_left(x, n, 1);
        lemma_mul_zeros_right(t, n, n, 1);
        let c = choose|c: int| 0 <= c < n && #[trigger] x[c][0] != 0;
        assert(zeros(n, 1)[c][0] == 0u8);
    }
}

/// The columns before `r` of the current matrix are unit columns.
pub open spec fn cols_reduced(aug: Seq<Seq<u8>>, n: nat, r: int) -> bool {
    forall|i: int, c: int| 0 <= i < n && 0 <= c < r ==> #[trigger] aug[i][c] == if i == c {
        1u8
    } else {
        0u8
    }
}

/// When elimination finds no pivot in column `r`, `A` sends a nonzero
/// vector to zero, so it has no inverse.
pub proof fn lemma_elim_singular(
    pacc: Seq<Seq<u8>>,
    rinv: Seq<Seq<u8>>,
    aug: Seq<Seq<u8>>,
    a: Seq<Seq<u8>>,
    n: nat,
    r: int,
)
    requires
        is_mat(a, n, n),
        elim_state(pacc, rinv, aug, hcat(a, identity(n)), n),
        0 <= r < n,
        cols_reduced(aug, n, r),
        forall|i: int| r <= i < n ==> #[trigger] aug[i][r] == 0,
    ensures
        has_kernel(a, n),
        !invertible(a, n),
{
    let aug0 = hcat(a, identity(n));
    let l = left_block(aug, n);
    let x = Seq::new(
        n,
        |c: int|
            seq![
                if c < r {
                    aug[c][r]
                } else if c == r {
                    1u8
                } else {
                    0u8
                },
            ],
    );
    assert(is_mat(x, n, 1));
    let lx = mat_mul(l, x, n, 1);
    assert forall|i: int, j: int| 0 <= i < n && 0 <= j < 1 implies lx[i][j] == zeros(n, 1)[i][j] by {
        let g = dot_terms(l[i], x, 0);
        if i < r {
            assert forall|k: int| 0 <= k < n && k != i && k != r implies #[trigger] g(k) == 0 by {
                lemma_gmul_units(l[i][k]);
                lemma_gmul_units(x[k][0]);
            }
            lemma_xsum_pair(g, n, i, r);
            lemma_gmul_units(aug[i][r]);
            lemma_xor(aug[i][r], aug[i][r], 0);
        } else {
            assert forall|k: int| 0 <= k < n implies #[trigger] g(k) == 0 by {
                lemma_gmul_units(l[i][k]);
                lemma_gmul_units(x[k][0]);
            }
            lemma_xsum_zero(g, n);
        }
    }
    assert forall|i: int| 0 <= i < n implies lx[i] =~= zeros(n, 1)[i] by {}
    assert(lx =~= zeros(n, 1));
    assert(left_block(aug0, n) =~= a) by {
        assert forall|i: int| 0 <= i < n implies left_block(aug0, n)[i] =~= a[i] by {}
    }
    lemma_left_block_mul(rinv, aug, n);
    // a == rinv * l, so a * x == rinv * (l * x) == 0
    lemma_mat_mul_assoc(rinv, l, x, n, n, n, 1);
    lemma_mul_zeros_right(rinv, n, n, 1);
    assert(x[r][0] != 0);
    assert(is_kernel_vector(x, a, n));
    lemma_kernel_not_invertible(a, x, n);
}

/// Clearing column `r` in rows `o..n` (all but row `r`, whose pivot is 1).
proof fn lemma_elim_clear_column(
    pacc: Seq<Seq<u8>>,
    rinv: Seq<Seq<u8>>,
    aug: Seq<Seq<u8>>,
    a: Seq<Seq<u8>>,
    n: nat,
    r: int,
    o: int,
) -> (res: (Seq<Seq<u8>>, Seq<Seq<u8>>, Seq<Seq<u8>>))
    requires
        is_mat(a, n, n),
        elim_state(pacc, rinv, aug, hcat(a, identity(n)), n),
        0 <= r < n,
        0 <= o <= n,
        cols_reduced(aug, n, r),
        aug[r][r] == 1,
        forall|i: int| 0 <= i < o && i != r ==> #[trigger] aug[i][r] == 0,
    ensures
        elim_state(res.0, res.1, res.2, hcat(a, identity(n)), n),
        cols_reduced(res.2, n, r + 1),
    decreases n - o,
{
    let aug0 = hcat(a, identity(n));
    if o == n {
        (pacc, rinv, aug)
    } else if o == r || aug[o][r] == 0 {
        lemma_elim_clear_column(pacc, rinv, aug, a, n, r, o + 1)
    } else {
        let f = aug[o][r];
        let pm = add_mat(n, o, r, f);
        lemma_add_is_product(aug, n, 2 * n, o, r, f);
        lemma_add_inverse(n, o, r, f);
        lemma_elim_step(pacc, rinv, aug, aug0, n, pm, pm);
        let aug2 = add_row(aug, o, r, f);
        lemma_gmul_units(f);
        lemma_xor(f, f, 0);
        assert forall|c: int| 0 <= c < r implies aug2[o][c] == aug[o][c] by {
            lemma_xor(aug[o][c], 0, 0);
        }
        lemma_elim_clear_column(
            mat_mul(pm, pacc, n, n),
            mat_mul(rinv, pm, n, n),
            aug2,
            a,
            n,
            r,
            o + 1,
        )
    }
}

/// Elimination from column `r` on ends with an inverse or a kernel vector.
proof fn lemma_elim_from(
    pacc: Seq<Seq<u8>>,
    rinv: Seq<Seq<u8>>,
    aug: Seq<Seq<u8>>,
    a: Seq<Seq<u8>>,
    n: nat,
    r: int,
)
    requires
        is_mat(a, n, n),
        elim_state(pacc, rinv, aug, hcat(a, identity(n)), n),
        0 <= r <= n,
        cols_reduced(aug, n, r),
    ensures
        invertible(a, n) || has_kernel(a, n),
    decreases n - r,
{
    let aug0 = hcat(a, identity(n));
    if r == n {
        let lb = left_block(aug, n);
        assert forall|x: int| 0 <= x < n implies lb[x] =~= identity(n)[x] by {}
        assert(lb =~= identity(n));
        lemma_elim_done(pacc, rinv, aug, a, n);
        lemma_inverse_of(right_block(aug, n), a, n);
    } else if forall|i: int| r <= i < n ==> #[trigger] aug[i][r] == 0 {
        lemma_elim_singular(pacc, rinv, aug, a, n, r);
    } else {
        let p = choose|i: int| r <= i < n && #[trigger] aug[i][r] != 0;
        let pm = swap_mat(n, r, p);
        lemma_swap_is_product(aug, n, 2 * n, r, p);
        lemma_swap_inverse(n, r, p);
        lemma_elim_step(pacc, rinv, aug, aug0, n, pm, pm);
        let pacc1 = mat_mul(pm, pacc, n, n);
        let rinv1 = mat_mul(rinv, pm, n, n);
        let aug1 = swap_rows(aug, r, p);
        let pv = aug1[r][r];
        let q = ginv(pv);
        lemma_ginv(pv);
        lemma_gmul_units(q);
        let sm = scale_mat(n, r, q);
        let sinv = scale_mat(n, r, pv);
        lemma_scale_is_product(aug1, n, 2 * n, r, q);
        lemma_scale_inverse(n, r, q, pv);
        lemma_elim_step(pacc1, rinv1, aug1, aug0, n, sm, sinv);
        let aug2 = scale_row(aug1, r, q);
        let res = lemma_elim_clear_column(
            mat_mul(sm, pacc1, n, n),
            mat_mul(rinv1, sinv, n, n),
            aug2,
            a,
            n,
            r,
            0,
        );
        lemma_elim_from(res.0, res.1, res.2, a, n, r + 1);
    }
}

/// A square matrix has an inverse exactly when it sends no nonzero vector
/// to zero.
pub proof fn lemma_invertible_iff_no_kernel(a: Seq<Seq<u8>>, n: nat)
    requires
        is_mat(a, n, n),
    ensures
        invertible(a, n) <==> !has_kernel(a, n),
{
    let aug0 = hcat(a, identity(n));
    assert forall|i: int| 0 <= i < n implies #[trigger] aug0[i].len() == 2 * n by {}
    lemma_elim_start(aug0, n);
    lemma_elim_from(identity(n), identity(n), aug0, a, n, 0);
    if has_kernel(a, n) {
        let x = choose|x: Seq<Seq<u8>>| is_kernel_vector(x, a, n);
        lemma_kernel_not_invertible(a, x, n);
    }
}

/// Selecting rows of a product is the product of the selected rows.
pub proof fn lemma_select_rows_mul(
    a: Seq<Seq<u8>>,
    b: Seq<Seq<u8>>,
    idx: Seq<int>,
    r: nat,
    n: nat,
    p: nat,
)
    requires
        is_mat(a, r, n),
        forall|j: int| 0 <= j < idx.len() ==> 0 <= #[trigger] idx[j] < r,
    ensures
        select_rows(mat_mul(a, b, n, p), idx) == mat_mul(select_rows(a, idx), b, n, p),
{
    let lhs = select_rows(mat_mul(a, b, n, p), idx);
    let rhs = mat_mul(select_rows(a, idx), b, n, p);
    assert forall|j: int| 0 <= j < idx.len() implies lhs[j] =~= rhs[j] by {}
    assert(lhs =~= rhs);
}

} // verus!
