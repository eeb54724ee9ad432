//! The mathematical model of GF(2^8) with the reduction polynomial
//! x^8 + x^4 + x^3 + x^2 + 1 (0x11D), and the algebraic facts about it:
//! the field laws of the product, the generator 2 and its powers, the
//! discrete logarithm, inverses and powers of arbitrary elements.
use vstd::prelude::*;

verus! {

/// Multiplication by the generator `x` (the byte 2), reduced by 0x11D.
pub open spec fn xtime(a: u8) -> u8 {
    if a & 0x80u8 == 0 {
        a << 1u8
    } else {
        (a << 1u8) ^ 0x1Du8
    }
}

/// Picks `v` when bit `i` of `b` is set, else 0.
pub open spec fn bit_sel(b: u8, i: u8, v: u8) -> u8 {
    if (b >> i) & 1u8 == 1u8 {
        v
    } else {
        0u8
    }
}

/// The product in GF(2^8): the carry-less product of `a` and `b`,
/// reduced modulo 0x11D (shift-and-add over the bits of `b`).
pub open spec fn gmul(a: u8, b: u8) -> u8 {
    let a1 = xtime(a);
    let a2 = xtime(a1);
    let a3 = xtime(a2);
    let a4 = xtime(a3);
    let a5 = xtime(a4);
    let a6 = xtime(a5);
    let a7 = xtime(a6);
    bit_sel(b, 0, a) ^ bit_sel(b, 1, a1) ^ bit_sel(b, 2, a2) ^ bit_sel(b, 3, a3) ^ bit_sel(b, 4, a4)
        ^ bit_sel(b, 5, a5) ^ bit_sel(b, 6, a6) ^ bit_sel(b, 7, a7)
}

/// `2^i`: the `i`-th power of the generator.
pub open spec fn gpow(i: nat) -> u8
    decreases i,
{
    if i == 0 {
        1
    } else {
        xtime(gpow((i - 1) as nat))
    }
}

/// The discrete logarithm of a nonzero element: the `i < 255` with `2^i == x`.
pub open spec fn glog(x: u8) -> nat {
    choose|i: nat| i < 255 && gpow(i) == x
}

/// The multiplicative inverse of a nonzero element.
pub open spec fn ginv(a: u8) -> u8 {
    gpow((255 - glog(a)) as nat)
}

/// Division `a / b`; zero divided by anything is zero.
pub open spec fn gdiv(a: u8, b: u8) -> u8 {
    if a == 0 {
        0
    } else {
        gmul(a, ginv(b))
    }
}

/// `a^n`, with `a^0 == 1` (also for `a == 0`).
pub open spec fn gfpow(a: u8, n: nat) -> u8
    decreases n,
{
    if n == 0 {
        1
    } else {
        gmul(gfpow(a, (n - 1) as nat), a)
    }
}

/// Whether `x` occurs among `b, xtime(b), ..., xtime^(n-1)(b)`.
pub open spec fn orbit_has(x: u8, b: u8, n: u16) -> bool
    decreases n,
{
    if n == 0 {
        false
    } else {
        b == x || orbit_has(x, xtime(b), (n - 1) as u16)
    }
}

/// Whether 1 does not occur among `b, xtime(b), ..., xtime^(n-1)(b)`.
pub open spec fn orbit_avoids_one(b: u8, n: u16) -> bool
    decreases n,
{
    if n == 0 {
        true
    } else {
        b != 1 && orbit_avoids_one(xtime(b), (n - 1) as u16)
    }
}

// ---------------------------------------------------------------------------
// Bytes under XOR
// ---------------------------------------------------------------------------

/// XOR is the addition of the field: commutative, associative, with
/// identity 0, and every element is its own negative.
pub proof fn lemma_xor(a: u8, b: u8, c: u8)
    ensures
        a ^ b == b ^ a,
        (a ^ b) ^ c == a ^ (b ^ c),
        a ^ 0 == a,
        0 ^ a == a,
        a ^ a == 0,
{
    assert(a ^ b == b ^ a && (a ^ b) ^ c == a ^ (b ^ c) && a ^ 0 == a && 0 ^ a == a && a ^ a == 0)
        by (bit_vector);
}

/// Cancellation: `(a ^ b) ^ b == a`.
pub proof fn lemma_xor_cancel(a: u8, b: u8)
    ensures
        (a ^ b) ^ b == a,
        b ^ (b ^ a) == a,
{
    lemma_xor(a, b, b);
    lemma_xor(b, b, a);
}

/// Multiplication by the generator is additive, injective, and keeps
/// nonzero elements nonzero.
pub proof fn lemma_xtime(a: u8, b: u8)
    ensures
        xtime(a ^ b) == xtime(a) ^ xtime(b),
        xtime(0) == 0,
        a != 0 ==> xtime(a) != 0,
        xtime(a) == xtime(b) ==> a == b,
{
    assert(xtime(a ^ b) == xtime(a) ^ xtime(b) && xtime(0) == 0 && (a != 0 ==> xtime(a) != 0) && (
    xtime(a) == xtime(b) ==> a == b)) by (bit_vector);
}

// ---------------------------------------------------------------------------
// The product
// ---------------------------------------------------------------------------

/// 0 absorbs, 1 is neutral, and multiplying by 2 is `xtime`.
pub proof fn lemma_gmul_small(a: u8)
    ensures
        gmul(a, 0) == 0,
        gmul(a, 1) == a,
        gmul(a, 2) == xtime(a),
{
    assert(gmul(a, 0) == 0 && gmul(a, 1) == a && gmul(a, 2) == xtime(a)) by (bit_vector);
}

#[verifier::rlimit(100)]
pub proof fn lemma_gmul_comm(a: u8, b: u8)
    ensures
        gmul(a, b) == gmul(b, a),
{
    assert(gmul(a, b) == gmul(b, a)) by (bit_vector);
}

pub proof fn lemma_gmul_xor_right(a: u8, b: u8, c: u8)
    ensures
        gmul(a, b ^ c) == gmul(a, b) ^ gmul(a, c),
{
    assert(gmul(a, b ^ c) == gmul(a, b) ^ gmul(a, c)) by (bit_vector);
}

#[verifier::rlimit(100)]
pub proof fn lemma_gmul_xtime(a: u8, b: u8)
    ensures
        gmul(xtime(a), b) == xtime(gmul(a, b)),
{
    assert(gmul(xtime(a), b) == xtime(gmul(a, b))) by (bit_vector);
}

/// 0 and 1 on either side.
pub proof fn lemma_gmul_units(a: u8)
    ensures
        gmul(a, 0) == 0,
        gmul(0, a) == 0,
        gmul(a, 1) == a,
        gmul(1, a) == a,
{
    lemma_gmul_small(a);
    lemma_gmul_comm(a, 0);
    lemma_gmul_comm(a, 1);
}

/// The product distributes over XOR on the left too.
pub proof fn lemma_gmul_xor_left(a: u8, b: u8, c: u8)
    ensures
        gmul(a ^ b, c) == gmul(a, c) ^ gmul(b, c),
{
    lemma_gmul_comm(a ^ b, c);
    lemma_gmul_xor_right(c, a, b);
    lemma_gmul_comm(a, c);
    lemma_gmul_comm(b, c);
}

proof fn lemma_gmul_sel(c: u8, b: u8, i: u8, y: u8)
    ensures
        gmul(c, bit_sel(b, i, y)) == bit_sel(b, i, gmul(c, y)),
{
    lemma_gmul_units(c);
}

proof fn lemma_gmul_swap(a: u8, b: u8, c: u8)
    ensures
        gmul(gmul(a, b), c) == gmul(gmul(a, c), b),
{
    let a1 = xtime(a);
    let a2 = xtime(a1);
    let a3 = xtime(a2);
    let a4 = xtime(a3);
    let a5 = xtime(a4);
    let a6 = xtime(a5);
    let a7 = xtime(a6);
    let s0 = bit_sel(b, 0, a);
    let s1 = bit_sel(b, 1, a1);
    let s2 = bit_sel(b, 2, a2);
    let s3 = bit_sel(b, 3, a3);
    let s4 = bit_sel(b, 4, a4);
    let s5 = bit_sel(b, 5, a5);
    let s6 = bit_sel(b, 6, a6);
    let s7 = bit_sel(b, 7, a7);
    let x1 = s0 ^ s1;
    let x2 = x1 ^ s2;
    let x3 = x2 ^ s3;
    let x4 = x3 ^ s4;
    let x5 = x4 ^ s5;
    let x6 = x5 ^ s6;
    assert(gmul(a, b) == x6 ^ s7);
    lemma_gmul_comm(gmul(a, b), c);
    lemma_gmul_xor_right(c, x6, s7);
    lemma_gmul_xor_right(c, x5, s6);
    lemma_gmul_xor_right(c, x4, s5);
    lemma_gmul_xor_right(c, x3, s4);
    lemma_gmul_xor_right(c, x2, s3);
    lemma_gmul_xor_right(c, x1, s2);
    lemma_gmul_xor_right(c, s0, s1);
    lemma_gmul_sel(c, b, 0, a);
    lemma_gmul_sel(c, b, 1, a1);
    lemma_gmul_sel(c, b, 2, a2);
    lemma_gmul_sel(c, b, 3, a3);
    lemma_gmul_sel(c, b, 4, a4);
    lemma_gmul_sel(c, b, 5, a5);
    lemma_gmul_sel(c, b, 6, a6);
    lemma_gmul_sel(c, b, 7, a7);
    lemma_gmul_comm(c, a);
    lemma_gmul_comm(c, a1);
    lemma_gmul_comm(c, a2);
    lemma_gmul_comm(c, a3);
    lemma_gmul_comm(c, a4);
    lemma_gmul_comm(c, a5);
    lemma_gmul_comm(c, a6);
    lemma_gmul_comm(c, a7);
    lemma_gmul_xtime(a, c);
    lemma_gmul_xtime(a1, c);
    lemma_gmul_xtime(a2, c);
    lemma_gmul_xtime(a3, c);
    lemma_gmul_xtime(a4, c);
    lemma_gmul_xtime(a5, c);
    lemma_gmul_xtime(a6, c);
}

/// The product is associative.
pub proof fn lemma_gmul_assoc(a: u8, b: u8, c: u8)
    ensures
        gmul(gmul(a, b), c) == gmul(a, gmul(b, c)),
{
    lemma_gmul_swap(a, b, c);
    lemma_gmul_comm(a, gmul(b, c));
    lemma_gmul_swap(b, c, a);
    lemma_gmul_comm(b, a);
    lemma_gmul_swap(a, c, b);
}

/// No zero divisors.
pub proof fn lemma_gmul_nonzero(a: u8, b: u8)
    requires
        a != 0,
        b != 0,
    ensures
        gmul(a, b) != 0,
{
    lemma_glog(a);
    lemma_glog(b);
    lemma_gpow_add(glog(a), glog(b));
    lemma_gpow_nonzero(glog(a) + glog(b));
}

// ---------------------------------------------------------------------------
// The powers of the generator
// ---------------------------------------------------------------------------

pub proof fn lemma_gpow_nonzero(i: nat)
    ensures
        gpow(i) != 0,
    decreases i,
{
    if i > 0 {
        lemma_gpow_nonzero((i - 1) as nat);
        lemma_xtime(gpow((i - 1) as nat), 0);
    }
}

proof fn lemma_orbit_has(x: u8, k: nat, n: u16)
    requires
        orbit_has(x, gpow(k), n),
    ensures
        exists|i: nat| k <= i < k + n && gpow(i) == x,
    decreases n,
{
    if gpow(k) == x {
        assert(k <= k < k + n && gpow(k) == x);
    } else {
        assert(gpow(k + 1) == xtime(gpow(k)));
        lemma_orbit_has(x, k + 1, (n - 1) as u16);
    }
}

proof fn lemma_orbit_avoids(k: nat, n: u16, i: nat)
    requires
        orbit_avoids_one(gpow(k), n),
        k <= i < k + n,
    ensures
        gpow(i) != 1,
    decreases n,
{
    if i > k {
        assert(gpow(k + 1) == xtime(gpow(k)));
        lemma_orbit_avoids(k + 1, (n - 1) as u16, i);
    }
}

/// The generator property of 2, checked over the whole field: every nonzero
/// byte is a power `2^i` with `i < 255`, and `2^i != 1` for `0 < i < 255`.
proof fn lemma_generator_facts(x: u8)
    ensures
        x != 0 ==> orbit_has(x, 1, 255),
        orbit_avoids_one(2, 254),
{
    assert(x != 0 ==> orbit_has(x, 1, 255)) by (bit_vector);
    assert(orbit_avoids_one(2, 254)) by (bit_vector);
}

proof fn lemma_gpow_cancel(i: nat, j: nat, m: nat)
    requires
        gpow(i + m) == gpow(j + m),
    ensures
        gpow(i) == gpow(j),
    decreases m,
{
    if m > 0 {
        assert(gpow(i + m) == xtime(gpow((i + m - 1) as nat)));
        assert(gpow(j + m) == xtime(gpow((j + m - 1) as nat)));
        lemma_xtime(gpow((i + m - 1) as nat), gpow((j + m - 1) as nat));
        assert((i + m - 1) as nat == i + (m - 1) as nat);
        assert((j + m - 1) as nat == j + (m - 1) as nat);
        lemma_gpow_cancel(i, j, (m - 1) as nat);
    }
}

/// `2^d != 1` for `0 < d < 255`.
proof fn lemma_gpow_not_one(d: nat)
    requires
        0 < d < 255,
    ensures
        gpow(d) != 1,
{
    lemma_generator_facts(0);
    assert(gpow(1) == 2) by {
        assert(gpow(0) == 1);
        assert(xtime(1) == 2) by (bit_vector);
    }
    lemma_orbit_avoids(1, 254, d);
}

/// The powers `2^0, ..., 2^254` are pairwise distinct.
pub proof fn lemma_gpow_injective(i: nat, j: nat)
    requires
        i < 255,
        j < 255,
        gpow(i) == gpow(j),
    ensures
        i == j,
{
    if i < j {
        lemma_gpow_cancel(0, (j - i) as nat, i);
        lemma_gpow_not_one((j - i) as nat);
    } else if j < i {
        lemma_gpow_cancel(0, (i - j) as nat, j);
        lemma_gpow_not_one((i - j) as nat);
    }
}

/// Every nonzero byte is a power of the generator.
pub proof fn lemma_gpow_surjective(x: u8)
    requires
        x != 0,
    ensures
        exists|i: nat| i < 255 && gpow(i) == x,
{
    lemma_generator_facts(x);
    lemma_orbit_has(x, 0, 255);
}

/// The logarithm is well defined, and it is the only exponent below 255.
pub proof fn lemma_glog(x: u8)
    requires
        x != 0,
    ensures
        glog(x) < 255,
        gpow(glog(x)) == x,
        forall|i: nat| i < 255 && gpow(i) == x ==> i == glog(x),
{
    lemma_gpow_surjective(x);
    let l = glog(x);
    assert forall|i: nat| i < 255 && gpow(i) == x implies i == l by {
        lemma_gpow_injective(i, l);
    }
}

/// `2^i * 2^j == 2^(i + j)`.
pub proof fn lemma_gpow_add(i: nat, j: nat)
    ensures
        gmul(gpow(i), gpow(j)) == gpow(i + j),
    decreases i,
{
    if i == 0 {
        lemma_gmul_units(gpow(j));
    } else {
        let i1 = (i - 1) as nat;
        lemma_gpow_add(i1, j);
        lemma_gmul_xtime(gpow(i1), gpow(j));
        assert(i1 + j + 1 == i + j);
    }
}

/// `2^255 == 1`.
pub proof fn lemma_gpow_period()
    ensures
        gpow(255) == 1,
{
    lemma_gpow_nonzero(255);
    lemma_glog(gpow(255));
    let l = glog(gpow(255));
    if l > 0 {
        assert(gpow(l + 0) == gpow((255 - l) as nat + l));
        lemma_gpow_cancel(0, (255 - l) as nat, l);
        lemma_gpow_not_one((255 - l) as nat);
    }
}

/// The powers of the generator repeat with period 255.
pub proof fn lemma_gpow_mod(i: nat)
    ensures
        gpow(i) == gpow(i % 255),
    decreases i,
{
    if i >= 255 {
        let j = (i - 255) as nat;
        lemma_gpow_add(j, 255);
        lemma_gpow_period();
        lemma_gmul_units(gpow(j));
        lemma_gpow_mod(j);
        assert(i % 255 == j % 255);
    }
}

// ---------------------------------------------------------------------------
// Inverses, division and powers
// ---------------------------------------------------------------------------

/// Every nonzero element has an inverse, and it is the only one.
pub proof fn lemma_ginv(a: u8)
    requires
        a != 0,
    ensures
        gmul(a, ginv(a)) == 1,
        gmul(ginv(a), a) == 1,
        ginv(a) != 0,
        forall|b: u8| gmul(a, b) == 1 ==> b == ginv(a),
{
    lemma_glog(a);
    let l = glog(a);
    lemma_gpow_add(l, (255 - l) as nat);
    lemma_gpow_period();
    lemma_gmul_comm(a, ginv(a));
    lemma_gpow_nonzero((255 - l) as nat);
    assert forall|b: u8| gmul(a, b) == 1 implies b == ginv(a) by {
        lemma_gmul_assoc(ginv(a), a, b);
        lemma_gmul_units(b);
        lemma_gmul_units(ginv(a));
    }
}

/// Division undoes multiplication: `(a / b) * b == a` for `b != 0`.
pub proof fn lemma_gdiv(a: u8, b: u8)
    requires
        b != 0,
    ensures
        gmul(gdiv(a, b), b) == a,
        gdiv(a, b) == gmul(a, ginv(b)),
{
    lemma_ginv(b);
    lemma_gmul_assoc(a, ginv(b), b);
    lemma_gmul_units(a);
    lemma_gmul_units(ginv(b));
    lemma_gmul_units(b);
}

/// The power of a nonzero element in terms of its logarithm.
pub proof fn lemma_gfpow_log(a: u8, n: nat)
    requires
        a != 0,
    ensures
        gfpow(a, n) == gpow(glog(a) * n),
    decreases n,
{
    lemma_glog(a);
    if n == 0 {
        assert(glog(a) * 0 == 0);
    } else {
        let n1 = (n - 1) as nat;
        lemma_gfpow_log(a, n1);
        lemma_gpow_add(glog(a) * n1, glog(a));
        assert(glog(a) * n1 + glog(a) == glog(a) * n) by (nonlinear_arith)
            requires
                n1 + 1 == n,
        ;
    }
}

/// Zero to a positive power is zero.
pub proof fn lemma_gfpow_zero(n: nat)
    requires
        n > 0,
    ensures
        gfpow(0, n) == 0,
{
    lemma_gmul_units(gfpow(0, (n - 1) as nat));
}

} // verus!
