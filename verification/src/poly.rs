//! Polynomials over GF(2^8) and Vandermonde matrices: a polynomial with
//! fewer coefficients than distinct roots is zero, so a square Vandermonde
//! matrix over distinct points has an inverse.
use vstd::prelude::*;
use crate::field::{
    gfpow, gmul, lemma_gmul_assoc, lemma_gmul_comm, lemma_gmul_nonzero, lemma_gmul_units,
    lemma_gmul_xor_left, lemma_gmul_xor_right, lemma_xor,
};
use crate::linalg::{
    dot_terms, has_kernel, inverse_of, invertible, is_inverse, is_kernel_vector, is_mat,
    lemma_invertible_iff_no_kernel, lemma_mat_mul_assoc, lemma_mul_identity_left,
    lemma_xsum_ext, lemma_xsum_scale, mat_mul, scale_fn, xsum, zeros,
};

verus! {

/// The value at `t` of the polynomial with coefficients `x` (lowest first),
/// by Horner's rule.
pub open spec fn peval(x: Seq<u8>, t: u8) -> u8
    decreases x.len(),
{
    if x.len() == 0 {
        0
    } else {
        x[0] ^ gmul(t, peval(x.drop_first(), t))
    }
}

/// The quotient of the polynomial `x` divided by `X - a`.
pub open spec fn pquot(x: Seq<u8>, a: u8) -> Seq<u8>
    decreases x.len(),
{
    if x.len() <= 1 {
        Seq::empty()
    } else {
        seq![peval(x.drop_first(), a)] + pquot(x.drop_first(), a)
    }
}

/// The Vandermonde matrix with one row per point: row `j` holds the first
/// `k` powers of `nodes[j]`.
pub open spec fn vander_rows(nodes: Seq<u8>, k: nat) -> Seq<Seq<u8>> {
    Seq::new(nodes.len(), |j: int| Seq::new(k, |c: int| gfpow(nodes[j], c as nat)))
}

/// No point occurs twice.
pub open spec fn distinct_nodes(nodes: Seq<u8>) -> bool {
    forall|i: int, j: int| 0 <= i < j < nodes.len() ==> #[trigger] nodes[i] != #[trigger] nodes[j]
}

proof fn lemma_xor_regroup(x0: u8, tr: u8, ar: u8, tq: u8)
    ensures
        ((tr ^ ar) ^ tq) ^ (x0 ^ ar) == x0 ^ (tq ^ tr),
{
    assert(((tr ^ ar) ^ tq) ^ (x0 ^ ar) == x0 ^ (tq ^ tr)) by (bit_vector);
}

proof fn lemma_xor_nonzero(a: u8, b: u8)
    requires
        a != b,
    ensures
        a ^ b != 0,
{
    assert(a != b ==> a ^ b != 0) by (bit_vector);
}

pub proof fn lemma_pquot_len(x: Seq<u8>, a: u8)
    requires
        x.len() >= 1,
    ensures
        pquot(x, a).len() == x.len() - 1,
    decreases x.len(),
{
    if x.len() > 1 {
        lemma_pquot_len(x.drop_first(), a);
    }
}

/// Division by `X - a`: `p(t) == (t - a) * q(t) + p(a)`.
pub proof fn lemma_pquot_division(x: Seq<u8>, a: u8, t: u8)
    ensures
        peval(x, t) == gmul(t ^ a, peval(pquot(x, a), t)) ^ peval(x, a),
    decreases x.len(),
{
    let s = t ^ a;
    if x.len() == 0 {
        lemma_gmul_units(s);
        lemma_xor(0, 0, 0);
    } else if x.len() == 1 {
        let r = x.drop_first();
        assert(peval(r, t) == 0);
        assert(peval(r, a) == 0);
        lemma_gmul_units(t);
        lemma_gmul_units(a);
        lemma_gmul_units(s);
        lemma_xor(x[0], 0, 0);
        lemma_xor(peval(x, a), 0, 0);
    } else {
        let r = x.drop_first();
        let qr = pquot(r, a);
        let q = pquot(x, a);
        let ra = peval(r, a);
        let hq = peval(qr, t);
        lemma_pquot_division(r, a, t);
        assert(q.drop_first() =~= qr);
        assert(q[0] == ra);
        assert(peval(q, t) == ra ^ gmul(t, hq));
        // peval(x, t) == x0 ^ t * (s * hq ^ ra)
        lemma_gmul_xor_right(t, gmul(s, hq), ra);
        // s * (ra ^ t * hq) == s * ra ^ s * (t * hq)
        lemma_gmul_xor_right(s, ra, gmul(t, hq));
        lemma_gmul_xor_left(t, a, ra);
        // s * (t * hq) == t * (s * hq)
        lemma_gmul_assoc(s, t, hq);
        lemma_gmul_comm(s, t);
        lemma_gmul_assoc(t, s, hq);
        lemma_xor_regroup(x[0], gmul(t, ra), gmul(a, ra), gmul(t, gmul(s, hq)));
    }
}

proof fn lemma_pquot_zero(y: Seq<u8>, a: u8)
    requires
        y.len() >= 1,
        forall|c: int| 0 <= c < pquot(y, a).len() ==> #[trigger] pquot(y, a)[c] == 0,
        peval(y, a) == 0,
    ensures
        forall|c: int| 0 <= c < y.len() ==> #[trigger] y[c] == 0,
    decreases y.len(),
{
    let r = y.drop_first();
    if y.len() == 1 {
        assert(peval(r, a) == 0);
        lemma_gmul_units(a);
        lemma_xor(y[0], 0, 0);
    } else {
        let q = pquot(y, a);
        assert(q[0] == peval(r, a));
        assert forall|c: int| 0 <= c < pquot(r, a).len() implies #[trigger] pquot(r, a)[c] == 0 by {
            assert(q[c + 1] == pquot(r, a)[c]);
        }
        lemma_gmul_units(a);
        lemma_xor(y[0], 0, 0);
        lemma_pquot_zero(r, a);
        assert forall|c: int| 0 <= c < y.len() implies #[trigger] y[c] == 0 by {
            if c > 0 {
                assert(y[c] == r[c - 1]);
            }
        }
    }
}

/// A polynomial with `n` coefficients and `n` distinct roots is zero.
pub proof fn lemma_poly_roots(x: Seq<u8>, nodes: Seq<u8>)
    requires
        nodes.len() == x.len(),
        distinct_nodes(nodes),
        forall|j: int| 0 <= j < nodes.len() ==> #[trigger] peval(x, nodes[j]) == 0,
    ensures
        forall|c: int| 0 <= c < x.len() ==> #[trigger] x[c] == 0,
    decreases x.len(),
{
    if x.len() > 0 {
        let a = nodes[0];
        let q = pquot(x, a);
        lemma_pquot_len(x, a);
        let rest = nodes.drop_first();
        assert forall|j: int| 0 <= j < rest.len() implies #[trigger] peval(q, rest[j]) == 0 by {
            let b = rest[j];
            assert(b == nodes[j + 1]);
            assert(peval(x, b) == 0);
            lemma_pquot_division(x, a, b);
            lemma_xor(gmul(b ^ a, peval(q, b)), 0, 0);
            lemma_xor_nonzero(b, a);
            if peval(q, b) != 0 {
                lemma_gmul_nonzero(b ^ a, peval(q, b));
            }
        }
        lemma_poly_roots(q, rest);
        lemma_pquot_zero(x, a);
    }
}

/// The terms `t^c * x[c]` of a polynomial in power form.
pub open spec fn power_terms(x: Seq<u8>, t: u8) -> spec_fn(int) -> u8 {
    |c: int| gmul(gfpow(t, c as nat), x[c])
}

pub open spec fn shift_fn(f: spec_fn(int) -> u8) -> spec_fn(int) -> u8 {
    |c: int| f(c + 1)
}

proof fn lemma_xsum_shift(f: spec_fn(int) -> u8, n: nat)
    ensures
        xsum(f, n + 1) == f(0) ^ xsum(shift_fn(f), n),
    decreases n,
{
    let g = shift_fn(f);
    if n == 0 {
        lemma_xor(f(0), 0, 0);
        assert(xsum(f, 1) == xsum(f, 0) ^ f(0));
        assert(xsum(g, 0) == 0);
    } else {
        let n1 = (n - 1) as nat;
        lemma_xsum_shift(f, n1);
        lemma_xor(f(0), xsum(g, n1), g(n1 as int));
        assert(xsum(f, n + 1) == xsum(f, n) ^ f(n as int));
        assert(xsum(g, n) == xsum(g, n1) ^ g(n1 as int));
        assert(g(n1 as int) == f(n as int));
        assert(n1 + 1 == n);
    }
}

/// Horner's rule agrees with the sum of powers.
pub proof fn lemma_peval_power_form(x: Seq<u8>, t: u8)
    ensures
        peval(x, t) == xsum(power_terms(x, t), x.len()),
    decreases x.len(),
{
    if x.len() > 0 {
        let n1 = (x.len() - 1) as nat;
        let y = x.drop_first();
        let f = power_terms(x, t);
        lemma_peval_power_form(y, t);
        lemma_xsum_shift(f, n1);
        let g = power_terms(y, t);
        assert forall|c: int| 0 <= c < n1 implies #[trigger] shift_fn(f)(c) == scale_fn(
            t,
            g,
        )(c) by {
            assert(x[c + 1] == y[c]);
            lemma_gmul_comm(gfpow(t, c as nat), t);
            lemma_gmul_assoc(t, gfpow(t, c as nat), y[c]);
            assert(gfpow(t, (c + 1) as nat) == gmul(gfpow(t, c as nat), t));
        }
        lemma_xsum_ext(shift_fn(f), scale_fn(t, g), n1);
        lemma_xsum_scale(t, g, n1);
        lemma_gmul_units(x[0]);
        assert(f(0) == gmul(1, x[0]));
    }
}

/// A square Vandermonde matrix over distinct points has an inverse.
pub proof fn lemma_vandermonde_invertible(nodes: Seq<u8>)
    requires
        distinct_nodes(nodes),
    ensures
        invertible(vander_rows(nodes, nodes.len()), nodes.len()),
{
    let k = nodes.len();
    let v = vander_rows(nodes, k);
    lemma_invertible_iff_no_kernel(v, k);
    if has_kernel(v, k) {
        let x = choose|x: Seq<Seq<u8>>| is_kernel_vector(x, v, k);
        let xs = Seq::new(k, |c: int| x[c][0]);
        assert forall|j: int| 0 <= j < k implies #[trigger] peval(xs, nodes[j]) == 0 by {
            lemma_peval_power_form(xs, nodes[j]);
            assert forall|c: int| 0 <= c < k implies #[trigger] dot_terms(v[j], x, 0)(c)
                == power_terms(xs, nodes[j])(c) by {}
            lemma_xsum_ext(dot_terms(v[j], x, 0), power_terms(xs, nodes[j]), k);
            assert(mat_mul(v, x, k, 1)[j][0] == zeros(k, 1)[j][0]);
        }
        lemma_poly_roots(xs, nodes);
        let c = choose|c: int| 0 <= c < k && #[trigger] x[c][0] != 0;
        assert(xs[c] == 0);
    }
}

/// A product of invertible matrices is invertible.
pub proof fn lemma_product_invertible(a: Seq<Seq<u8>>, b: Seq<Seq<u8>>, n: nat)
    requires
        is_mat(a, n, n),
        is_mat(b, n, n),
        invertible(a, n),
        invertible(b, n),
    ensures
        invertible(mat_mul(a, b, n, n), n),
{
    let ta = inverse_of(a, n);
    let tb = inverse_of(b, n);
    let ab = mat_mul(a, b, n, n);
    let t = mat_mul(tb, ta, n, n);
    // (tb ta)(a b) == tb (ta a) b == tb b == I
    lemma_mat_mul_assoc(tb, ta, ab, n, n, n, n);
    lemma_mat_mul_assoc(ta, a, b, n, n, n, n);
    lemma_mul_identity_left(b, n, n);
    // (a b)(tb ta) == a (b tb) ta == a ta == I
    lemma_mat_mul_assoc(a, b, t, n, n, n, n);
    lemma_mat_mul_assoc(b, tb, ta, n, n, n, n);
    lemma_mul_identity_left(ta, n, n);
    assert(is_inverse(t, ab, n));
}

} // verus!
