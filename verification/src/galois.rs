//! GF(2^8) arithmetic (polynomial 0x11D, generator 2): the log, exp,
//! product and nibble tables, the scalar operations, and the scalar
//! slice kernels.
use vstd::prelude::*;
use crate::field::{
    bit_sel, gdiv, gfpow, ginv, glog, gmul, gpow, lemma_gdiv, lemma_gfpow_log, lemma_gfpow_zero,
    lemma_ginv, lemma_glog, lemma_gmul_units, lemma_gmul_xor_right, lemma_gpow_add,
    lemma_gpow_injective, lemma_gpow_mod, lemma_gpow_nonzero, lemma_xor, lemma_xor_cancel, xtime,
};

verus! {

pub const FIELD_SIZE: usize = 256;

pub const GENERATING_POLYNOMIAL: usize = 29;

pub const EXP_TABLE_SIZE: usize = FIELD_SIZE * 2 - 2;

// ---------------------------------------------------------------------------
// Specifications of the tables
// ---------------------------------------------------------------------------

/// The discrete-log table of the field: entry 0 is 0, every other entry is
/// the logarithm of its index.
pub open spec fn is_log_table(log: Seq<u8>) -> bool {
    &&& log.len() == 256
    &&& log[0] == 0
    &&& forall|x: int| 0 < x < 256 ==> log[x] as nat == glog(x as u8)
}

/// The anti-log table of the field: entry `k` is `2^k`.
pub open spec fn is_exp_table(exp: Seq<u8>) -> bool {
    &&& exp.len() == 510
    &&& forall|k: int| 0 <= k < 510 ==> exp[k] == gpow(k as nat)
}

/// The last index `i` in `1..n` whose log entry places it at position `k`
/// of the anti-log table (`log[i] == k` or `log[i] + 255 == k`), or 0 if
/// there is none.
pub open spec fn exp_writer(log: Seq<u8>, k: int, n: int) -> int
    decreases n,
{
    if n <= 1 {
        0
    } else if log[n - 1] as int == k || log[n - 1] as int + 255 == k {
        n - 1
    } else {
        exp_writer(log, k, n - 1)
    }
}

/// `c * s[i]` for every byte of `s`.
pub open spec fn mul_bytes(c: u8, s: Seq<u8>) -> Seq<u8> {
    Seq::new(s.len(), |i: int| gmul(c, s[i]))
}

/// The bytewise XOR of two sequences of the same length.
pub open spec fn xor_bytes(a: Seq<u8>, b: Seq<u8>) -> Seq<u8> {
    Seq::new(a.len(), |i: int| a[i] ^ b[i])
}

// ---------------------------------------------------------------------------
// Small helpers
// ---------------------------------------------------------------------------

/// Multiplication by the generator.
pub fn xtime_byte(a: u8) -> (r: u8)
    ensures
        r == xtime(a),
{
    if a & 0x80 == 0 {
        a << 1u8
    } else {
        (a << 1u8) ^ (GENERATING_POLYNOMIAL as u8)
    }
}

fn sel(b: u8, i: u8, v: u8) -> (r: u8)
    requires
        i < 8,
    ensures
        r == bit_sel(b, i, v),
{
    if (b >> i) & 1 == 1 {
        v
    } else {
        0
    }
}

/// The discrete logarithm of a nonzero element, by walking the powers of 2.
fn gf_log(a: u8) -> (r: u8)
    requires
        a != 0,
    ensures
        r as nat == glog(a),
        r < 255,
{
    proof {
        lemma_glog(a);
    }
    let mut b: u8 = 1;
    let mut i: u8 = 0;
    while b != a
        invariant
            a != 0,
            glog(a) < 255,
            gpow(glog(a)) == a,
            forall|j: nat| j < 255 && gpow(j) == a ==> j == glog(a),
            b == gpow(i as nat),
            i <= glog(a),
        decreases glog(a) - i,
    {
        b = xtime_byte(b);
        i = i + 1;
    }
    i
}

/// `2^e`, by stepping the generator `e` times.
fn gf_pow2(e: u8) -> (r: u8)
    ensures
        r == gpow(e as nat),
{
    let mut b: u8 = 1;
    let mut i: u8 = 0;
    while i < e
        invariant
            i <= e,
            b == gpow(i as nat),
        decreases e - i,
    {
        b = xtime_byte(b);
        i = i + 1;
    }
    b
}

// ---------------------------------------------------------------------------
// Table generation
// ---------------------------------------------------------------------------

/// Computes the discrete logarithm table for GF(2^8).
pub fn gen_log_table() -> (log: [u8; FIELD_SIZE])
    ensures
        is_log_table(log@),
        forall|i: nat| i < 255 ==> log@[gpow(i) as int] as nat == i,
{
    let mut log = [0u8; FIELD_SIZE];
    let mut b: u8 = 1;
    let mut i: usize = 0;
    while i < FIELD_SIZE - 1
        invariant
            i <= 255,
            b == gpow(i as nat),
            log@.len() == 256,
            log@[0] == 0,
            forall|j: nat| j < i ==> log@[gpow(j) as int] as nat == j,
        decreases 255 - i,
    {
        proof {
            lemma_gpow_nonzero(i as nat);
            assert forall|j: nat| j < i implies gpow(j) != gpow(i as nat) by {
                if gpow(j) == gpow(i as nat) {
                    lemma_gpow_injective(j, i as nat);
                }
            }
        }
        log[b as usize] = i as u8;
        b = xtime_byte(b);
        i += 1;
    }
    proof {
        assert forall|x: int| 0 < x < 256 implies log@[x] as nat == glog(x as u8) by {
            lemma_glog(x as u8);
        }
    }
    log
}

proof fn lemma_exp_writer_unique(log: Seq<u8>, k: int, t: int, n: int)
    requires
        log.len() == 256,
        1 <= t < 256,
        n <= 256,
        log[t] as int == k || log[t] as int + 255 == k,
        forall|i: int|
            1 <= i < 256 && i != t ==> !(log[i] as int == k || log[i] as int + 255 == k),
    ensures
        exp_writer(log, k, n) == if t < n {
            t
        } else {
            0
        },
    decreases n,
{
    if n > 1 {
        lemma_exp_writer_unique(log, k, t, n - 1);
    }
}

/// Computes the exponential (anti-log) table for GF(2^8).
pub fn gen_exp_table(log_table: &[u8; FIELD_SIZE]) -> (exp: [u8; EXP_TABLE_SIZE])
    requires
        forall|i: int| 1 <= i < 256 ==> log_table@[i] < 255,
    ensures
        forall|k: int| 0 <= k < 510 ==> exp@[k] as int == exp_writer(log_table@, k, 256),
        is_log_table(log_table@) ==> is_exp_table(exp@),
{
    let mut exp = [0u8; EXP_TABLE_SIZE];
    let mut i: usize = 1;
    while i < FIELD_SIZE
        invariant
            1 <= i <= 256,
            exp@.len() == 510,
            forall|j: int| 1 <= j < 256 ==> log_table@[j] < 255,
            forall|k: int| 0 <= k < 510 ==> exp@[k] as int == exp_writer(log_table@, k, i as int),
        decreases 256 - i,
    {
        let log = log_table[i] as usize;
        exp[log] = i as u8;
        exp[log + FIELD_SIZE - 1] = i as u8;
        i += 1;
    }
    proof {
        if is_log_table(log_table@) {
            let log = log_table@;
            assert forall|k: int| 0 <= k < 510 implies exp@[k] == gpow(k as nat) by {
                let k0 = if k < 255 {
                    k
                } else {
                    k - 255
                };
                let t = gpow(k0 as nat) as int;
                lemma_gpow_nonzero(k0 as nat);
                lemma_glog(t as u8);
                assert forall|j: int|
                    1 <= j < 256 && j != t implies !(log[j] as int == k || log[j] as int + 255
                    == k) by {
                    lemma_glog(j as u8);
                    if log[j] as int == k0 {
                        assert(gpow(glog(j as u8)) == j as u8);
                    }
                }
                lemma_exp_writer_unique(log, k, t, 256);
                lemma_gpow_mod(k as nat);
                lemma_gpow_mod(k0 as nat);
            }
        }
    }
    exp
}

/// Computes the full 256x256 multiplication table for GF(2^8).
pub fn gen_mul_table(log_table: &[u8; FIELD_SIZE], exp_table: &[u8; EXP_TABLE_SIZE]) -> (mul: [[u8;
    FIELD_SIZE]; FIELD_SIZE])
    requires
        forall|i: int| 1 <= i < 256 ==> log_table@[i] < 255,
    ensures
        forall|a: int, b: int|
            0 <= a < 256 && 0 <= b < 256 ==> mul@[a]@[b] == if a == 0 || b == 0 {
                0
            } else {
                exp_table@[log_table@[a] + log_table@[b]]
            },
        is_log_table(log_table@) && is_exp_table(exp_table@) ==> forall|a: int, b: int|
            0 <= a < 256 && 0 <= b < 256 ==> mul@[a]@[b] == gmul(a as u8, b as u8),
{
    let mut mul = [[0u8; FIELD_SIZE]; FIELD_SIZE];
    let mut a: usize = 0;
    while a < FIELD_SIZE
        invariant
            a <= 256,
            mul@.len() == 256,
            forall|i: int| 1 <= i < 256 ==> log_table@[i] < 255,
            forall|x: int, y: int|
                0 <= x < a && 0 <= y < 256 ==> mul@[x]@[y] == if x == 0 || y == 0 {
                    0
                } else {
                    exp_table@[log_table@[x] + log_table@[y]]
                },
        decreases 256 - a,
    {
        let mut row = [0u8; FIELD_SIZE];
        let mut b: usize = 0;
        while b < FIELD_SIZE
            invariant
                a < 256,
                b <= 256,
                row@.len() == 256,
                forall|i: int| 1 <= i < 256 ==> log_table@[i] < 255,
                forall|y: int|
                    0 <= y < b ==> row@[y] == if a == 0 || y == 0 {
                        0
                    } else {
                        exp_table@[log_table@[a as int] + log_table@[y]]
                    },
            decreases 256 - b,
        {
            if a == 0 || b == 0 {
                row[b] = 0;
            } else {
                let log_a = log_table[a] as usize;
                let log_b = log_table[b] as usize;
                row[b] = exp_table[log_a + log_b];
            }
            b += 1;
        }
        mul[a] = row;
        a += 1;
    }
    proof {
        if is_log_table(log_table@) && is_exp_table(exp_table@) {
            assert forall|x: int, y: int|
                0 <= x < 256 && 0 <= y < 256 implies mul@[x]@[y] == gmul(x as u8, y as u8) by {
                if x == 0 || y == 0 {
                    lemma_gmul_units(x as u8);
                    lemma_gmul_units(y as u8);
                } else {
                    lemma_glog(x as u8);
                    lemma_glog(y as u8);
                    lemma_gpow_add(glog(x as u8), glog(y as u8));
                }
            }
        }
    }
    mul
}

pub proof fn lemma_nibble_split(c: u8, x: u8)
    ensures
        gmul(c, x) == gmul(c, x & 15) ^ gmul(c, ((x >> 4u8) << 4u8) as u8),
        x & 15 < 16,
        x >> 4u8 < 16,
{
    assert(x == (x & 15) ^ ((x >> 4u8) << 4u8) && x & 15 < 16 && x >> 4u8 < 16) by (bit_vector);
    lemma_gmul_xor_right(c, x & 15, ((x >> 4u8) << 4u8) as u8);
}

/// Generates the 16-byte low and high nibble tables used by the vector kernels:
/// `low[c][n] = c * n` and `high[c][n] = c * (n << 4)`.
pub fn gen_nibble_tables(mul_table: &[[u8; FIELD_SIZE]; FIELD_SIZE]) -> (res: (
    [[u8; 16]; FIELD_SIZE],
    [[u8; 16]; FIELD_SIZE],
))
    ensures
        forall|c: int, n: int|
            0 <= c < 256 && 0 <= n < 16 ==> res.0@[c]@[n] == mul_table@[c]@[n] && res.1@[c]@[n]
                == mul_table@[c]@[n * 16],
        (forall|a: int, b: int|
            0 <= a < 256 && 0 <= b < 256 ==> mul_table@[a]@[b] == gmul(a as u8, b as u8))
            ==> forall|c: u8, x: u8|
            res.0@[c as int]@[(x & 15) as int] ^ res.1@[c as int]@[(x >> 4u8) as int] == gmul(
                c,
                x,
            ),
{
    let mut low = [[0u8; 16]; FIELD_SIZE];
    let mut high = [[0u8; 16]; FIELD_SIZE];
    let mut c: usize = 0;
    while c < FIELD_SIZE
        invariant
            c <= 256,
            low@.len() == 256,
            high@.len() == 256,
            forall|x: int, n: int|
                0 <= x < c && 0 <= n < 16 ==> low@[x]@[n] == mul_table@[x]@[n] && high@[x]@[n]
                    == mul_table@[x]@[n * 16],
        decreases 256 - c,
    {
        let mut lo_row = [0u8; 16];
        let mut hi_row = [0u8; 16];
        let mut nibble: usize = 0;
        while nibble < 16
            invariant
                c < 256,
                nibble <= 16,
                lo_row@.len() == 16,
                hi_row@.len() == 16,
                forall|n: int|
                    0 <= n < nibble ==> lo_row@[n] == mul_table@[c as int]@[n] && hi_row@[n]
                        == mul_table@[c as int]@[n * 16],
            decreases 16 - nibble,
        {
            lo_row[nibble] = mul_table[c][nibble];
            assert(nibble << 4usize == nibble * 16) by (bit_vector)
                requires
                    nibble < 16,
            ;
            hi_row[nibble] = mul_table[c][nibble << 4];
            nibble += 1;
        }
        low[c] = lo_row;
        high[c] = hi_row;
        c += 1;
    }
    proof {
        if forall|a: int, b: int|
            0 <= a < 256 && 0 <= b < 256 ==> mul_table@[a]@[b] == gmul(a as u8, b as u8) {
            assert forall|cc: u8, x: u8|
                low@[cc as int]@[(x & 15) as int] ^ high@[cc as int]@[(x >> 4u8) as int] == gmul(
                    cc,
                    x,
                ) by {
                lemma_nibble_split(cc, x);
                let h = x >> 4u8;
                assert(((h << 4u8) as u8) as int == h * 16) by (bit_vector)
                    requires
                        h < 16,
                ;
            }
        }
    }
    (low, high)
}

// ---------------------------------------------------------------------------
// Scalar operations
// ---------------------------------------------------------------------------

/// Multiply two elements in GF(2^8).
pub fn gf_mul(a: u8, b: u8) -> (r: u8)
    ensures
        r == gmul(a, b),
{
    let a1 = xtime_byte(a);
    let a2 = xtime_byte(a1);
    let a3 = xtime_byte(a2);
    let a4 = xtime_byte(a3);
    let a5 = xtime_byte(a4);
    let a6 = xtime_byte(a5);
    let a7 = xtime_byte(a6);
    sel(b, 0, a) ^ sel(b, 1, a1) ^ sel(b, 2, a2) ^ sel(b, 3, a3) ^ sel(b, 4, a4) ^ sel(b, 5, a5)
        ^ sel(b, 6, a6) ^ sel(b, 7, a7)
}

/// Add two elements in GF(2^8).
pub fn gf_add(a: u8, b: u8) -> (r: u8)
    ensures
        r == a ^ b,
{
    a ^ b
}

/// Subtract two elements in GF(2^8) (the same as adding).
pub fn gf_sub(a: u8, b: u8) -> (r: u8)
    ensures
        r == a ^ b,
        r ^ b == a,
{
    proof {
        lemma_xor_cancel(a, b);
    }
    a ^ b
}

/// Divide two elements in GF(2^8). Zero divided by anything is zero;
/// a nonzero element cannot be divided by zero.
pub fn gf_div(a: u8, b: u8) -> (r: u8)
    requires
        a == 0 || b != 0,
    ensures
        r == gdiv(a, b),
        b != 0 ==> gmul(r, b) == a,
{
    if a == 0 {
        proof {
            if b != 0 {
                lemma_gmul_units(b);
            }
        }
        0
    } else {
        let log_a = gf_log(a);
        let log_b = gf_log(b);
        let diff: u8 = if log_a >= log_b {
            log_a - log_b
        } else {
            log_a + (255 - log_b)
        };
        let r = gf_pow2(diff);
        proof {
            lemma_glog(a);
            lemma_glog(b);
            lemma_gpow_add(glog(a), (255 - glog(b)) as nat);
            lemma_gpow_mod(glog(a) + (255 - glog(b)) as nat);
            assert((glog(a) + (255 - glog(b)) as nat) % 255 == diff as nat);
            lemma_gdiv(a, b);
        }
        r
    }
}

/// Exponentiation in GF(2^8): a^n.
pub fn gf_exp(a: u8, n: usize) -> (r: u8)
    ensures
        r == gfpow(a, n as nat),
{
    if n == 0 {
        1
    } else if a == 0 {
        proof {
            lemma_gfpow_zero(n as nat);
        }
        0
    } else {
        let log_a = gf_log(a) as usize;
        let n_red = n % 255;
        assert(log_a * n_red < 255 * 255) by (nonlinear_arith)
            requires
                log_a < 255,
                n_red < 255,
        ;
        let log_res = (log_a * (n % 255)) % 255;
        proof {
            lemma_gfpow_log(a, n as nat);
            lemma_gpow_mod(glog(a) * n as nat);
            vstd::arithmetic::div_mod::lemma_mul_mod_noop_right(log_a as int, n as int, 255);
        }
        gf_pow2(log_res as u8)
    }
}

/// Invert a nonzero element in GF(2^8).
pub fn gf_inv(a: u8) -> (r: u8)
    requires
        a != 0,
    ensures
        r == ginv(a),
        gmul(a, r) == 1,
{
    let log_a = gf_log(a);
    proof {
        lemma_ginv(a);
    }
    gf_pow2(255 - log_a)
}

// ---------------------------------------------------------------------------
// Slice kernels
// ---------------------------------------------------------------------------

/// The products `c * x` for every byte `x`.
fn mul_row(c: u8) -> (row: Vec<u8>)
    ensures
        row@.len() == 256,
        forall|x: int| 0 <= x < 256 ==> row@[x] == gmul(c, x as u8),
{
    let mut row: Vec<u8> = Vec::with_capacity(FIELD_SIZE);
    let mut x: usize = 0;
    while x < FIELD_SIZE
        invariant
            x <= 256,
            row@.len() == x,
            forall|y: int| 0 <= y < x ==> row@[y] == gmul(c, y as u8),
        decreases 256 - x,
    {
        row.push(gf_mul(c, x as u8));
        x += 1;
    }
    row
}

/// Scalar multiplication of a slice: out = c * input
pub fn scalar_mul_slice(c: u8, input: &[u8], out: &mut [u8])
    requires
        input@.len() == old(out)@.len(),
    ensures
        final(out)@ == mul_bytes(c, input@),
{
    let len = input.len();
    if c == 0 {
        let mut i: usize = 0;
        while i < len
            invariant
                len == input@.len(),
                out@.len() == len,
                c == 0,
                forall|j: int| 0 <= j < i ==> out@[j] == gmul(c, input@[j]),
            decreases len - i,
        {
            proof {
                lemma_gmul_units(input@[i as int]);
            }
            out[i] = 0;
            i += 1;
        }
        assert(out@ =~= mul_bytes(c, input@));
        return ;
    }
    if c == 1 {
        let mut i: usize = 0;
        while i < len
            invariant
                len == input@.len(),
                out@.len() == len,
                c == 1,
                forall|j: int| 0 <= j < i ==> out@[j] == gmul(c, input@[j]),
            decreases len - i,
        {
            proof {
                lemma_gmul_units(input@[i as int]);
            }
            out[i] = input[i];
            i += 1;
        }
        assert(out@ =~= mul_bytes(c, input@));
        return ;
    }
    let mt = mul_row(c);
    let mut i: usize = 0;
    while i < len
        invariant
            len == input@.len(),
            out@.len() == len,
            mt@.len() == 256,
            forall|x: int| 0 <= x < 256 ==> mt@[x] == gmul(c, x as u8),
            forall|j: int| 0 <= j < i ==> out@[j] == gmul(c, input@[j]),
        decreases len - i,
    {
        out[i] = mt[input[i] as usize];
        i += 1;
    }
    assert(out@ =~= mul_bytes(c, input@));
}

/// Scalar multiplication and XOR: out ^= c * input
pub fn scalar_mul_slice_xor(c: u8, input: &[u8], out: &mut [u8])
    requires
        input@.len() == old(out)@.len(),
    ensures
        final(out)@ == xor_bytes(old(out)@, mul_bytes(c, input@)),
{
    let len = input.len();
    let ghost orig = out@;
    if c == 0 {
        proof {
            assert forall|j: int| 0 <= j < len implies orig[j] ^ gmul(c, input@[j]) == orig[j] by {
                lemma_gmul_units(input@[j]);
                lemma_xor(orig[j], 0, 0);
            }
        }
        assert(out@ =~= xor_bytes(orig, mul_bytes(c, input@)));
        return ;
    }
    if c == 1 {
        let mut i: usize = 0;
        while i < len
            invariant
                len == input@.len(),
                out@.len() == len,
                orig.len() == len,
                c == 1,
                forall|j: int| 0 <= j < i ==> out@[j] == orig[j] ^ gmul(c, input@[j]),
                forall|j: int| i <= j < len ==> out@[j] == orig[j],
            decreases len - i,
        {
            proof {
                lemma_gmul_units(input@[i as int]);
            }
            out[i] = out[i] ^ input[i];
            i += 1;
        }
        assert(out@ =~= xor_bytes(orig, mul_bytes(c, input@)));
        return ;
    }
    let mt = mul_row(c);
    let mut i: usize = 0;
    while i < len
        invariant
            len == input@.len(),
            out@.len() == len,
            orig.len() == len,
            mt@.len() == 256,
            forall|x: int| 0 <= x < 256 ==> mt@[x] == gmul(c, x as u8),
            forall|j: int| 0 <= j < i ==> out@[j] == orig[j] ^ gmul(c, input@[j]),
            forall|j: int| i <= j < len ==> out@[j] == orig[j],
        decreases len - i,
    {
        out[i] = out[i] ^ mt[input[i] as usize];
        i += 1;
    }
    assert(out@ =~= xor_bytes(orig, mul_bytes(c, input@)));
}

/// The 16-entry low and high nibble product tables of one coefficient:
/// `c * n` and `c * (n << 4)` for `n < 16`.
pub(crate) fn nibble_row(c: u8) -> (t: ([u8; 16], [u8; 16]))
    ensures
        forall|n: int| 0 <= n < 16 ==> t.0@[n] == gmul(c, n as u8),
        forall|n: int| 0 <= n < 16 ==> t.1@[n] == gmul(c, (n * 16) as u8),
{
    let mut lo = [0u8; 16];
    let mut hi = [0u8; 16];
    let mut n: u8 = 0;
    while n < 16
        invariant
            n <= 16,
            lo@.len() == 16,
            hi@.len() == 16,
            forall|j: int| 0 <= j < n ==> lo@[j] == gmul(c, j as u8),
            forall|j: int| 0 <= j < n ==> hi@[j] == gmul(c, (j * 16) as u8),
        decreases 16 - n,
    {
        lo[n as usize] = gf_mul(c, n);
        hi[n as usize] = gf_mul(c, n << 4u8);
        assert((n << 4u8) as int == n * 16) by (bit_vector)
            requires
                n < 16,
        ;
        n += 1;
    }
    (lo, hi)
}

/// The product `c * x` from the nibble tables of `c`.
pub proof fn lemma_nibble_lookup(c: u8, x: u8, lo: Seq<u8>, hi: Seq<u8>)
    requires
        lo.len() == 16,
        hi.len() == 16,
        forall|n: int| 0 <= n < 16 ==> lo[n] == gmul(c, n as u8),
        forall|n: int| 0 <= n < 16 ==> hi[n] == gmul(c, (n * 16) as u8),
    ensures
        x & 15 < 16,
        x >> 4u8 < 16,
        lo[(x & 15) as int] ^ hi[(x >> 4u8) as int] == gmul(c, x),
{
    lemma_nibble_split(c, x);
    let h = x >> 4u8;
    assert(((h << 4u8) as u8) as int == h * 16) by (bit_vector)
        requires
            h < 16,
    ;
}

/// `out = c * input`, one byte at a time through the nibble tables.
pub(crate) fn nibble_mul_into(c: u8, input: &[u8], out: &mut [u8])
    requires
        input@.len() == old(out)@.len(),
    ensures
        final(out)@ == mul_bytes(c, input@),
{
    let (lo, hi) = nibble_row(c);
    let len = input.len();
    let mut i: usize = 0;
    while i < len
        invariant
            len == input@.len(),
            out@.len() == len,
            lo@.len() == 16,
            hi@.len() == 16,
            forall|n: int| 0 <= n < 16 ==> lo@[n] == gmul(c, n as u8),
            forall|n: int| 0 <= n < 16 ==> hi@[n] == gmul(c, (n * 16) as u8),
            forall|j: int| 0 <= j < i ==> out@[j] == gmul(c, input@[j]),
        decreases len - i,
    {
        let x = input[i];
        proof {
            lemma_nibble_lookup(c, x, lo@, hi@);
        }
        out[i] = lo[(x & 15) as usize] ^ hi[(x >> 4) as usize];
        i += 1;
    }
    assert(out@ =~= mul_bytes(c, input@));
}

/// `out ^= c * input`, one byte at a time through the nibble tables.
pub(crate) fn nibble_mul_xor_into(c: u8, input: &[u8], out: &mut [u8])
    requires
        input@.len() == old(out)@.len(),
    ensures
        final(out)@ == xor_bytes(old(out)@, mul_bytes(c, input@)),
{
    let ghost orig = out@;
    let (lo, hi) = nibble_row(c);
    let len = input.len();
    let mut i: usize = 0;
    while i < len
        invariant
            len == input@.len(),
            out@.len() == len,
            orig.len() == len,
            lo@.len() == 16,
            hi@.len() == 16,
            forall|n: int| 0 <= n < 16 ==> lo@[n] == gmul(c, n as u8),
            forall|n: int| 0 <= n < 16 ==> hi@[n] == gmul(c, (n * 16) as u8),
            forall|j: int| 0 <= j < i ==> out@[j] == orig[j] ^ gmul(c, input@[j]),
            forall|j: int| i <= j < len ==> out@[j] == orig[j],
        decreases len - i,
    {
        let x = input[i];
        proof {
            lemma_nibble_lookup(c, x, lo@, hi@);
        }
        out[i] = out[i] ^ (lo[(x & 15) as usize] ^ hi[(x >> 4) as usize]);
        i += 1;
    }
    assert(out@ =~= xor_bytes(orig, mul_bytes(c, input@)));
}

/// `out ^= input`.
pub(crate) fn xor_into(input: &[u8], out: &mut [u8])
    requires
        input@.len() == old(out)@.len(),
    ensures
        final(out)@ == xor_bytes(old(out)@, input@),
{
    let ghost orig = out@;
    let len = input.len();
    let mut i: usize = 0;
    while i < len
        invariant
            len == input@.len(),
            out@.len() == len,
            orig.len() == len,
            forall|j: int| 0 <= j < i ==> out@[j] == orig[j] ^ input@[j],
            forall|j: int| i <= j < len ==> out@[j] == orig[j],
        decreases len - i,
    {
        out[i] = out[i] ^ input[i];
        i += 1;
    }
    assert(out@ =~= xor_bytes(orig, input@));
}

/// `out = 0`.
pub(crate) fn fill_zero(out: &mut [u8])
    ensures
        final(out)@.len() == old(out)@.len(),
        forall|j: int| 0 <= j < final(out)@.len() ==> final(out)@[j] == 0,
{
    let len = out.len();
    let mut i: usize = 0;
    while i < len
        invariant
            out@.len() == len,
            forall|j: int| 0 <= j < i ==> out@[j] == 0,
        decreases len - i,
    {
        out[i] = 0;
        i += 1;
    }
}

/// `out = input`.
pub(crate) fn copy_into(input: &[u8], out: &mut [u8])
    requires
        input@.len() == old(out)@.len(),
    ensures
        final(out)@ == input@,
{
    let len = input.len();
    let mut i: usize = 0;
    while i < len
        invariant
            len == input@.len(),
            out@.len() == len,
            forall|j: int| 0 <= j < i ==> out@[j] == input@[j],
        decreases len - i,
    {
        out[i] = input[i];
        i += 1;
    }
    assert(out@ =~= input@);
}

/// Multiplying by 0 gives zeros, by 1 gives the input back.
pub proof fn lemma_mul_bytes_units(s: Seq<u8>, out: Seq<u8>)
    ensures
        (out.len() == s.len() && forall|j: int| 0 <= j < out.len() ==> out[j] == 0) ==> out
            == mul_bytes(0, s),
        mul_bytes(1, s) == s,
        out.len() == s.len() ==> xor_bytes(out, mul_bytes(0, s)) == out,
        out.len() == s.len() ==> xor_bytes(out, mul_bytes(1, s)) == xor_bytes(out, s),
{
    assert forall|j: int| 0 <= j < s.len() implies gmul(0, s[j]) == 0 && gmul(1, s[j]) == s[j] by {
        lemma_gmul_units(s[j]);
    }
    assert forall|j: int| 0 <= j < out.len() implies out[j] ^ 0 == out[j] by {
        lemma_xor(out[j], 0, 0);
    }
    assert(mul_bytes(1, s) =~= s);
    if out.len() == s.len() {
        assert(xor_bytes(out, mul_bytes(0, s)) =~= out);
        assert(xor_bytes(out, mul_bytes(1, s)) =~= xor_bytes(out, s));
        if forall|j: int| 0 <= j < out.len() ==> out[j] == 0 {
            assert(out =~= mul_bytes(0, s));
        }
    }
}

} // verus!
