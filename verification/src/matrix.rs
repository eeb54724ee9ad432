//! Galois field matrix arithmetic and Vandermonde matrix generation for
//! Reed-Solomon coding.
use vstd::prelude::*;
use crate::field::{gfpow, ginv, gmul, lemma_ginv, lemma_gmul_units, lemma_xor};
use crate::galois::{gf_add, gf_div, gf_exp, gf_mul};
use crate::layout::{lemma_entry_in_bounds, lemma_index};
use crate::poly::{lemma_vandermonde_invertible, vander_rows};
use crate::linalg::{
    add_mat, add_row, dot_terms, elim_state, hcat, identity, inverse_of, invertible, is_inverse,
    is_mat, lemma_add_inverse, lemma_add_is_product, lemma_elim_done, lemma_elim_singular,
    lemma_elim_start, lemma_elim_step, lemma_inverse_of, lemma_scale_inverse, lemma_scale_is_product,
    lemma_swap_inverse, lemma_swap_is_product, left_block, mat_mul, right_block, scale_mat, scale_row,
    swap_mat, swap_rows, xsum, zeros,
};

verus! {

/// A dense matrix over GF(2^8), stored row by row.
#[derive(Debug, Clone, PartialEq, Eq)]
pub struct Matrix {
    pub rows: usize,
    pub cols: usize,
    pub data: Vec<u8>,
}

impl View for Matrix {
    type V = Seq<Seq<u8>>;

    /// The matrix as a sequence of rows.
    open spec fn view(&self) -> Seq<Seq<u8>> {
        Seq::new(
            self.rows as nat,
            |r: int| Seq::new(self.cols as nat, |c: int| self.data@[r * self.cols + c]),
        )
    }
}

/// The Vandermonde matrix `V[r][c] = r^c` (with `r` taken as a byte).
pub open spec fn vandermonde_spec(rows: nat, cols: nat) -> Seq<Seq<u8>> {
    Seq::new(rows, |r: int| Seq::new(cols, |c: int| gfpow(r as u8, c as nat)))
}

/// The block of `m` with rows `rmin..rmax` and columns `cmin..cmax`.
pub open spec fn sub_block(m: Seq<Seq<u8>>, rmin: int, cmin: int, rmax: int, cmax: int) -> Seq<
    Seq<u8>,
> {
    Seq::new((rmax - rmin) as nat, |r: int| Seq::new((cmax - cmin) as nat, |c: int| m[rmin + r][cmin + c]))
}

/// The canonical Reed-Solomon coding matrix for `d` data and `p` parity
/// shards: the Vandermonde matrix times the inverse of its top square.
pub open spec fn coding_matrix_spec(d: nat, p: nat) -> Seq<Seq<u8>> {
    let v = vandermonde_spec(d + p, d);
    mat_mul(v, inverse_of(sub_block(v, 0, 0, d as int, d as int), d), d, d)
}

/// The top square of the Vandermonde matrix has an inverse.
pub open spec fn coding_matrix_exists(d: nat, p: nat) -> bool {
    invertible(sub_block(vandermonde_spec(d + p, d), 0, 0, d as int, d as int), d)
}

proof fn lemma_index_unique(r: int, c: int, r2: int, c2: int, cols: int)
    requires
        0 <= r,
        0 <= r2,
        0 <= c < cols,
        0 <= c2 < cols,
        r * cols + c == r2 * cols + c2,
    ensures
        r == r2,
        c == c2,
{
    assert(r == r2) by (nonlinear_arith)
        requires
            0 <= r,
            0 <= r2,
            0 <= c < cols,
            0 <= c2 < cols,
            r * cols + c == r2 * cols + c2,
    ;
}

/// For at most 256 data shards the top square of the Vandermonde matrix
/// (points `0, 1, ..., d-1`) has an inverse, so the coding matrix exists.
pub proof fn lemma_coding_matrix_exists(d: nat, p: nat)
    requires
        d <= 256,
    ensures
        coding_matrix_exists(d, p),
{
    let v = vandermonde_spec(d + p, d);
    let top = sub_block(v, 0, 0, d as int, d as int);
    let nodes = Seq::new(d, |j: int| j as u8);
    assert forall|i: int, j: int| 0 <= i < j < nodes.len() implies #[trigger] nodes[i]
        != #[trigger] nodes[j] by {
        assert(nodes[i] as int == i);
        assert(nodes[j] as int == j);
    }
    assert forall|i: int| 0 <= i < d implies top[i] =~= vander_rows(nodes, d)[i] by {}
    assert(top =~= vander_rows(nodes, d));
    lemma_vandermonde_invertible(nodes);
}

/// The coding matrix is systematic: its top square is the identity, so the
/// first shards of a codeword are the data itself.
pub proof fn lemma_coding_matrix_systematic(d: nat, p: nat)
    requires
        coding_matrix_exists(d, p),
    ensures
        is_mat(coding_matrix_spec(d, p), d + p, d),
        forall|i: int, j: int|
            0 <= i < d && 0 <= j < d ==> #[trigger] coding_matrix_spec(d, p)[i][j] == if i == j {
                1u8
            } else {
                0u8
            },
{
    let v = vandermonde_spec(d + p, d);
    let top = sub_block(v, 0, 0, d as int, d as int);
    let t = inverse_of(top, d);
    assert(is_inverse(t, top, d));
    assert forall|i: int, j: int| 0 <= i < d && 0 <= j < d implies #[trigger] coding_matrix_spec(
        d,
        p,
    )[i][j] == if i == j {
        1u8
    } else {
        0u8
    } by {
        assert(top[i] =~= v[i]);
        assert(mat_mul(top, t, d, d)[i][j] == identity(d)[i][j]);
    }
}

broadcast use lemma_entry_in_bounds;

impl Matrix {
    /// A `rows` by `cols` matrix of zeros.
    pub fn new(rows: usize, cols: usize) -> (m: Self)
        requires
            rows * cols <= usize::MAX,
        ensures
            m.wf(),
            m.rows == rows,
            m.cols == cols,
            m@ == zeros(rows as nat, cols as nat),
    {
        let m = Self { rows, cols, data: vec![0u8; rows * cols] };
        proof {
            assert forall|r: int, c: int| 0 <= r < rows && 0 <= c < cols implies m@[r][c] == 0u8 by {
                lemma_index(r, c, rows as int, cols as int);
            }
            assert forall|r: int| 0 <= r < rows implies m@[r] =~= zeros(rows as nat, cols as nat)[r] by {}
            assert(m@ =~= zeros(rows as nat, cols as nat));
        }
        m
    }

    /// The entry at flat index `r * cols + c`: in a well-formed matrix, the
    /// entry in row `r`, column `c`.
    pub fn get(&self, r: usize, c: usize) -> (v: u8)
        requires
            self.in_bounds(r as int, c as int),
        ensures
            v == self.data@[r * self.cols + c],
            self.wf() && r < self.rows && c < self.cols ==> v == self@[r as int][c as int],
    {
        proof {
            vstd::arithmetic::mul::lemma_mul_nonnegative(r as int, self.cols as int);
            assert(self.data.len() == self.data@.len());
        }
        self.data[r * self.cols + c]
    }

    /// Sets the entry at flat index `r * cols + c`: in a well-formed matrix,
    /// the entry in row `r`, column `c`.
    pub fn set(&mut self, r: usize, c: usize, val: u8)
        requires
            old(self).in_bounds(r as int, c as int),
        ensures
            final(self).rows == old(self).rows,
            final(self).cols == old(self).cols,
            final(self).data@ == old(self).data@.update(r * old(self).cols + c, val),
            old(self).wf() ==> final(self).wf(),
            old(self).wf() && r < old(self).rows && c < old(self).cols ==> final(self)@ == old(
                self,
            )@.update(r as int, old(self)@[r as int].update(c as int, val)),
    {
        let ghost before = self@;
        let ghost was_entry = self.wf() && r < self.rows && c < self.cols;
        proof {
            vstd::arithmetic::mul::lemma_mul_nonnegative(r as int, self.cols as int);
            assert(self.data.len() == self.data@.len());
        }
        let idx = r * self.cols + c;
        self.data.set(idx, val);
        proof {
            if was_entry {
                let after = before.update(r as int, before[r as int].update(c as int, val));
                assert forall|i: int, j: int|
                    0 <= i < self.rows && 0 <= j < self.cols implies self@[i][j] == after[i][j] by {
                    lemma_index(i, j, self.rows as int, self.cols as int);
                    if i * self.cols + j == idx as int {
                        lemma_index_unique(i, j, r as int, c as int, self.cols as int);
                    }
                }
                assert forall|i: int| 0 <= i < self.rows implies self@[i] =~= after[i] by {}
                assert(self@ =~= after);
            }
        }
    }

    /// The `size` by `size` identity matrix.
    pub fn identity(size: usize) -> (m: Self)
        requires
            size * size <= usize::MAX,
        ensures
            m.wf(),
            m.rows == size,
            m.cols == size,
            m@ == identity(size as nat),
    {
        let mut m = Self::new(size, size);
        let mut i: usize = 0;
        while i < size
            invariant
                i <= size,
                m.wf(),
                m.rows == size,
                m.cols == size,
                forall|r: int, c: int|
                    0 <= r < size && 0 <= c < size ==> #[trigger] m@[r][c] == if r == c && r < i {
                        1u8
                    } else {
                        0u8
                    },
            decreases size - i,
        {
            m.set(i, i, 1);
            i += 1;
        }
        proof {
            assert forall|r: int| 0 <= r < size implies m@[r] =~= identity(size as nat)[r] by {}
            assert(m@ =~= identity(size as nat));
        }
        m
    }

    /// The block with rows `rmin..rmax` and columns `cmin..cmax`.
    pub fn sub_matrix(&self, rmin: usize, cmin: usize, rmax: usize, cmax: usize) -> (m: Self)
        requires
            self.wf(),
            rmin <= rmax <= self.rows,
            cmin <= cmax <= self.cols,
        ensures
            m.wf(),
            m.rows == rmax - rmin,
            m.cols == cmax - cmin,
            m@ == sub_block(self@, rmin as int, cmin as int, rmax as int, cmax as int),
    {
        let rows = rmax - rmin;
        let cols = cmax - cmin;
        proof {
            assert(self.data.len() == self.data@.len());
            assert(rows * cols <= self.rows * self.cols) by (nonlinear_arith)
                requires
                    rows <= self.rows,
                    cols <= self.cols,
            ;
        }
        let mut res = Self::new(rows, cols);
        let ghost target = sub_block(self@, rmin as int, cmin as int, rmax as int, cmax as int);
        let mut r: usize = 0;
        while r < rows
            invariant
                self.wf(),
                rmin <= rmax <= self.rows,
                cmin <= cmax <= self.cols,
                rows == rmax - rmin,
                cols == cmax - cmin,
                target == sub_block(self@, rmin as int, cmin as int, rmax as int, cmax as int),
                r <= rows,
                res.wf(),
                res.rows == rows,
                res.cols == cols,
                forall|i: int, j: int|
                    0 <= i < rows && 0 <= j < cols ==> #[trigger] res@[i][j] == if i < r {
                        target[i][j]
                    } else {
                        0u8
                    },
            decreases rows - r,
        {
            let mut c: usize = 0;
            while c < cols
                invariant
                    self.wf(),
                    rmin <= rmax <= self.rows,
                    cmin <= cmax <= self.cols,
                    rows == rmax - rmin,
                    cols == cmax - cmin,
                    target == sub_block(self@, rmin as int, cmin as int, rmax as int, cmax as int),
                    r < rows,
                    c <= cols,
                    res.wf(),
                    res.rows == rows,
                    res.cols == cols,
                    forall|i: int, j: int|
                        0 <= i < rows && 0 <= j < cols ==> #[trigger] res@[i][j] == if i < r || (i
                            == r && j < c) {
                            target[i][j]
                        } else {
                            0u8
                        },
                decreases cols - c,
            {
                let v = self.get(rmin + r, cmin + c);
                res.set(r, c, v);
                c += 1;
            }
            r += 1;
        }
        proof {
            assert forall|i: int| 0 <= i < rows implies res@[i] =~= target[i] by {}
            assert(res@ =~= target);
        }
        res
    }

    /// The matrix product `self * rhs`.
    pub fn multiply(&self, rhs: &Matrix) -> (m: Self)
        requires
            self.wf(),
            rhs.wf(),
            self.cols == rhs.rows,
            self.rows * rhs.cols <= usize::MAX,
        ensures
            m.wf(),
            m.rows == self.rows,
            m.cols == rhs.cols,
            m@ == mat_mul(self@, rhs@, self.cols as nat, rhs.cols as nat),
    {
        let mut res = Self::new(self.rows, rhs.cols);
        let ghost target = mat_mul(self@, rhs@, self.cols as nat, rhs.cols as nat);
        let mut r: usize = 0;
        while r < self.rows
            invariant
                self.wf(),
                rhs.wf(),
                self.cols == rhs.rows,
                target == mat_mul(self@, rhs@, self.cols as nat, rhs.cols as nat),
                r <= self.rows,
                res.wf(),
                res.rows == self.rows,
                res.cols == rhs.cols,
                forall|i: int, j: int|
                    0 <= i < self.rows && 0 <= j < rhs.cols ==> #[trigger] res@[i][j] == if i < r {
                        target[i][j]
                    } else {
                        0u8
                    },
            decreases self.rows - r,
        {
            let mut c: usize = 0;
            while c < rhs.cols
                invariant
                    self.wf(),
                    rhs.wf(),
                    self.cols == rhs.rows,
                    target == mat_mul(self@, rhs@, self.cols as nat, rhs.cols as nat),
                    r < self.rows,
                    c <= rhs.cols,
                    res.wf(),
                    res.rows == self.rows,
                    res.cols == rhs.cols,
                    forall|i: int, j: int|
                        0 <= i < self.rows && 0 <= j < rhs.cols ==> #[trigger] res@[i][j] == if i
                            < r || (i == r && j < c) {
                            target[i][j]
                        } else {
                            0u8
                        },
                decreases rhs.cols - c,
            {
                let mut acc: u8 = 0;
                let mut k: usize = 0;
                while k < self.cols
                    invariant
                        self.wf(),
                        rhs.wf(),
                        self.cols == rhs.rows,
                        r < self.rows,
                        c < rhs.cols,
                        k <= self.cols,
                        acc == xsum(dot_terms(self@[r as int], rhs@, c as int), k as nat),
                    decreases self.cols - k,
                {
                    acc = gf_add(acc, gf_mul(self.get(r, k), rhs.get(k, c)));
                    k += 1;
                }
                res.set(r, c, acc);
                c += 1;
            }
            r += 1;
        }
        proof {
            assert forall|i: int| 0 <= i < self.rows implies res@[i] =~= target[i] by {}
            assert(res@ =~= target);
        }
        res
    }

    /// Generates a Vandermonde matrix in GF(2^8) where V[r, c] = r^c.
    pub fn vandermonde(rows: usize, cols: usize) -> (m: Self)
        requires
            rows * cols <= usize::MAX,
        ensures
            m.wf(),
            m.rows == rows,
            m.cols == cols,
            m@ == vandermonde_spec(rows as nat, cols as nat),
    {
        let mut m = Self::new(rows, cols);
        let ghost target = vandermonde_spec(rows as nat, cols as nat);
        let mut r: usize = 0;
        while r < rows
            invariant
                r <= rows,
                target == vandermonde_spec(rows as nat, cols as nat),
                m.wf(),
                m.rows == rows,
                m.cols == cols,
                forall|i: int, j: int|
                    0 <= i < rows && 0 <= j < cols ==> #[trigger] m@[i][j] == if i < r {
                        target[i][j]
                    } else {
                        0u8
                    },
            decreases rows - r,
        {
            let r_u8 = r as u8;
            let mut c: usize = 0;
            while c < cols
                invariant
                    r < rows,
                    c <= cols,
                    r_u8 == r as u8,
                    target == vandermonde_spec(rows as nat, cols as nat),
                    m.wf(),
                    m.rows == rows,
                    m.cols == cols,
                    forall|i: int, j: int|
                        0 <= i < rows && 0 <= j < cols ==> #[trigger] m@[i][j] == if i < r || (i
                            == r && j < c) {
                            target[i][j]
                        } else {
                            0u8
                        },
                decreases cols - c,
            {
                m.set(r, c, gf_exp(r_u8, c));
                c += 1;
            }
            r += 1;
        }
        proof {
            assert forall|i: int| 0 <= i < rows implies m@[i] =~= target[i] by {}
            assert(m@ =~= target);
        }
        m
    }

    /// Exchanges rows `a` and `b`.
    fn swap_rows_in_place(&mut self, a: usize, b: usize)
        requires
            old(self).wf(),
            a < old(self).rows,
            b < old(self).rows,
        ensures
            final(self).wf(),
            final(self).rows == old(self).rows,
            final(self).cols == old(self).cols,
            final(self)@ == swap_rows(old(self)@, a as int, b as int),
    {
        let ghost before = self@;
        let ghost target = swap_rows(before, a as int, b as int);
        let ghost rows = self.rows;
        let ghost cols = self.cols;
        let mut c: usize = 0;
        while c < self.cols
            invariant
                self.wf(),
                self.rows == rows,
                self.cols == cols,
                a < rows,
                b < rows,
                before.len() == rows,
                target == swap_rows(before, a as int, b as int),
                forall|i: int| 0 <= i < rows ==> #[trigger] before[i].len() == cols,
                c <= cols,
                forall|i: int, j: int|
                    0 <= i < rows && 0 <= j < cols ==> #[trigger] self@[i][j] == if j < c {
                        target[i][j]
                    } else {
                        before[i][j]
                    },
            decreases cols - c,
        {
            let tmp = self.get(a, c);
            let v = self.get(b, c);
            self.set(a, c, v);
            self.set(b, c, tmp);
            c += 1;
        }
        proof {
            assert forall|i: int| 0 <= i < rows implies self@[i] =~= target[i] by {}
            assert(self@ =~= target);
        }
    }

    /// Divides row `r` by the nonzero `pv`, entry by entry.
    fn scale_row_in_place(&mut self, r: usize, pv: u8)
        requires
            old(self).wf(),
            r < old(self).rows,
            pv != 0,
        ensures
            final(self).wf(),
            final(self).rows == old(self).rows,
            final(self).cols == old(self).cols,
            final(self)@ == scale_row(old(self)@, r as int, ginv(pv)),
    {
        let ghost before = self@;
        let ghost target = scale_row(before, r as int, ginv(pv));
        let ghost rows = self.rows;
        let ghost cols = self.cols;
        proof {
            lemma_gmul_units(ginv(pv));
        }
        let mut c: usize = 0;
        while c < self.cols
            invariant
                self.wf(),
                self.rows == rows,
                self.cols == cols,
                r < rows,
                pv != 0,
                gmul(0, ginv(pv)) == 0,
                before.len() == rows,
                target == scale_row(before, r as int, ginv(pv)),
                forall|i: int| 0 <= i < rows ==> #[trigger] before[i].len() == cols,
                c <= cols,
                forall|i: int, j: int|
                    0 <= i < rows && 0 <= j < cols ==> #[trigger] self@[i][j] == if j < c {
                        target[i][j]
                    } else {
                        before[i][j]
                    },
            decreases cols - c,
        {
            let v = self.get(r, c);
            self.set(r, c, gf_div(v, pv));
            c += 1;
        }
        proof {
            assert forall|i: int| 0 <= i < rows implies self@[i] =~= target[i] by {}
            assert(self@ =~= target);
        }
    }

    /// Adds `f` times row `r` to row `o`.
    fn add_row_in_place(&mut self, o: usize, r: usize, f: u8)
        requires
            old(self).wf(),
            o < old(self).rows,
            r < old(self).rows,
            o != r,
        ensures
            final(self).wf(),
            final(self).rows == old(self).rows,
            final(self).cols == old(self).cols,
            final(self)@ == add_row(old(self)@, o as int, r as int, f),
    {
        let ghost before = self@;
        let ghost target = add_row(before, o as int, r as int, f);
        let ghost rows = self.rows;
        let ghost cols = self.cols;
        let mut c: usize = 0;
        while c < self.cols
            invariant
                self.wf(),
                self.rows == rows,
                self.cols == cols,
                o < rows,
                r < rows,
                o != r,
                before.len() == rows,
                target == add_row(before, o as int, r as int, f),
                forall|i: int| 0 <= i < rows ==> #[trigger] before[i].len() == cols,
                c <= cols,
                forall|i: int, j: int|
                    0 <= i < rows && 0 <= j < cols ==> #[trigger] self@[i][j] == if j < c {
                        target[i][j]
                    } else {
                        before[i][j]
                    },
            decreases cols - c,
        {
            let sub = gf_mul(f, self.get(r, c));
            let old_v = self.get(o, c);
            self.set(o, c, gf_add(old_v, sub));
            c += 1;
        }
        proof {
            assert forall|i: int| 0 <= i < rows implies self@[i] =~= target[i] by {}
            assert(self@ =~= target);
        }
    }

    /// Inverts a square matrix using Gaussian elimination over GF(2^8).
    pub fn invert(&self) -> (res: Result<Self, &'static str>)
        requires
            self.wf(),
            self.rows == self.cols ==> self.rows * self.rows * 2 <= usize::MAX,
        ensures
            self.rows != self.cols ==> (res matches Err(e) && e == "Matrix is not square"),
            self.rows == self.cols ==> (res is Ok <==> invertible(self@, self.rows as nat)),
            self.rows == self.cols && res is Err ==> (res matches Err(e) && e == "Singular matrix"),
            res matches Ok(inv) ==> inv.wf() && inv.rows == self.rows && inv.cols == self.rows
                && is_inverse(inv@, self@, self.rows as nat),
    {
        if self.rows != self.cols {
            return Err("Matrix is not square");
        }
        let n = self.rows;
        let ghost nn = n as nat;
        let ghost a = self@;
        let ghost aug0 = hcat(a, identity(nn));
        proof {
            assert(n * (2 * n) == n * n * 2) by (nonlinear_arith);
            assert(n == 0 || 2 * n <= n * n * 2) by (nonlinear_arith);
        }
        // Augmented matrix [A | I]
        let mut aug = Matrix::new(n, 2 * n);
        let mut r: usize = 0;
        while r < n
            invariant
                n == self.rows,
                n == self.cols,
                self.wf(),
                a == self@,
                aug0 == hcat(a, identity(nn)),
                nn == n,
                r <= n,
                aug.wf(),
                aug.rows == n,
                aug.cols == 2 * n,
                forall|i: int, j: int|
                    0 <= i < n && 0 <= j < 2 * n ==> #[trigger] aug@[i][j] == if i < r {
                        aug0[i][j]
                    } else {
                        0u8
                    },
            decreases n - r,
        {
            let mut c: usize = 0;
            while c < n
                invariant
                    n == self.rows,
                    n == self.cols,
                    self.wf(),
                    a == self@,
                    aug0 == hcat(a, identity(nn)),
                    nn == n,
                    r < n,
                    c <= n,
                    aug.wf(),
                    aug.rows == n,
                    aug.cols == 2 * n,
                    forall|i: int, j: int|
                        0 <= i < n && 0 <= j < 2 * n ==> #[trigger] aug@[i][j] == if i < r || (i
                            == r && j < c) {
                            aug0[i][j]
                        } else {
                            0u8
                        },
                decreases n - c,
            {
                aug.set(r, c, self.get(r, c));
                c += 1;
            }
            aug.set(r, n + r, 1);
            r += 1;
        }
        proof {
            assert forall|i: int| 0 <= i < n implies #[trigger] aug0[i].len() == 2 * n by {}
            assert forall|i: int| 0 <= i < n implies aug@[i] =~= aug0[i] by {}
            assert(aug@ =~= aug0);
            lemma_elim_start(aug0, nn);
        }
        let ghost mut pacc = identity(nn);
        let ghost mut rinv = identity(nn);
        // Forward elimination
        let mut r: usize = 0;
        while r < n
            invariant
                n == self.rows,
                n == self.cols,
                self.wf(),
                a == self@,
                is_mat(a, nn, nn),
                aug0 == hcat(a, identity(nn)),
                nn == n,
                r <= n,
                aug.wf(),
                aug.rows == n,
                aug.cols == 2 * n,
                elim_state(pacc, rinv, aug@, aug0, nn),
                forall|i: int, c: int|
                    0 <= i < n && 0 <= c < r ==> #[trigger] aug@[i][c] == if i == c {
                        1u8
                    } else {
                        0u8
                    },
            decreases n - r,
        {
            // Find pivot
            let mut pivot = r;
            while pivot < n && aug.get(pivot, r) == 0
                invariant
                    r < n,
                    r <= pivot <= n,
                    aug.wf(),
                    aug.rows == n,
                    aug.cols == 2 * n,
                    forall|i: int| r <= i < pivot ==> #[trigger] aug@[i][r as int] == 0,
                decreases n - pivot,
            {
                pivot += 1;
            }
            if pivot == n {
                proof {
                    lemma_elim_singular(pacc, rinv, aug@, a, nn, r as int);
                }
                return Err("Singular matrix");
            }
            // Swap rows if needed
            if pivot != r {
                let ghost before = aug@;
                aug.swap_rows_in_place(r, pivot);
                proof {
                    let pm = swap_mat(nn, r as int, pivot as int);
                    lemma_swap_is_product(before, nn, 2 * nn, r as int, pivot as int);
                    lemma_swap_inverse(nn, r as int, pivot as int);
                    lemma_elim_step(pacc, rinv, before, aug0, nn, pm, pm);
                    pacc = mat_mul(pm, pacc, nn, nn);
                    rinv = mat_mul(rinv, pm, nn, nn);
                }
            }
            // Scale pivot row so aug[r, r] == 1
            let pivot_val = aug.get(r, r);
            if pivot_val != 1 {
                let ghost before = aug@;
                aug.scale_row_in_place(r, pivot_val);
                proof {
                    let q = ginv(pivot_val);
                    lemma_ginv(pivot_val);
                    lemma_gmul_units(q);
                    let pm = scale_mat(nn, r as int, q);
                    let pinv = scale_mat(nn, r as int, pivot_val);
                    lemma_scale_is_product(before, nn, 2 * nn, r as int, q);
                    lemma_scale_inverse(nn, r as int, q, pivot_val);
                    lemma_elim_step(pacc, rinv, before, aug0, nn, pm, pinv);
                    pacc = mat_mul(pm, pacc, nn, nn);
                    rinv = mat_mul(rinv, pinv, nn, nn);
                }
            }
            // Eliminate column r in other rows
            let mut other: usize = 0;
            while other < n
                invariant
                    n == self.rows,
                    n == self.cols,
                    self.wf(),
                    a == self@,
                    is_mat(a, nn, nn),
                    aug0 == hcat(a, identity(nn)),
                    nn == n,
                    r < n,
                    other <= n,
                    aug.wf(),
                    aug.rows == n,
                    aug.cols == 2 * n,
                    elim_state(pacc, rinv, aug@, aug0, nn),
                    aug@[r as int][r as int] == 1,
                    forall|i: int, c: int|
                        0 <= i < n && 0 <= c < r ==> #[trigger] aug@[i][c] == if i == c {
                            1u8
                        } else {
                            0u8
                        },
                    forall|i: int| 0 <= i < other && i != r ==> #[trigger] aug@[i][r as int] == 0,
                decreases n - other,
            {
                if other != r {
                    let factor = aug.get(other, r);
                    if factor != 0 {
                        let ghost before = aug@;
                        aug.add_row_in_place(other, r, factor);
                        proof {
                            let pm = add_mat(nn, other as int, r as int, factor);
                            lemma_add_is_product(before, nn, 2 * nn, other as int, r as int, factor);
                            lemma_add_inverse(nn, other as int, r as int, factor);
                            lemma_elim_step(pacc, rinv, before, aug0, nn, pm, pm);
                            pacc = mat_mul(pm, pacc, nn, nn);
                            rinv = mat_mul(rinv, pm, nn, nn);
                            lemma_gmul_units(factor);
                            lemma_xor(factor, factor, 0);
                            assert forall|c: int| 0 <= c < r implies aug@[other as int][c] == before[
                                other as int][c] by {
                                lemma_xor(before[other as int][c], 0, 0);
                            }
                        }
                    }
                }
                other += 1;
            }
            r += 1;
        }
        // Extract right half of augmented matrix
        let mut inv = Matrix::new(n, n);
        let ghost rb = right_block(aug@, nn);
        let mut i: usize = 0;
        while i < n
            invariant
                nn == n,
                i <= n,
                aug.wf(),
                aug.rows == n,
                aug.cols == 2 * n,
                rb == right_block(aug@, nn),
                inv.wf(),
                inv.rows == n,
                inv.cols == n,
                forall|x: int, y: int|
                    0 <= x < n && 0 <= y < n ==> #[trigger] inv@[x][y] == if x < i {
                        rb[x][y]
                    } else {
                        0u8
                    },
            decreases n - i,
        {
            let mut j: usize = 0;
            while j < n
                invariant
                    nn == n,
                    i < n,
                    j <= n,
                    aug.wf(),
                    aug.rows == n,
                    aug.cols == 2 * n,
                    rb == right_block(aug@, nn),
                    inv.wf(),
                    inv.rows == n,
                    inv.cols == n,
                    forall|x: int, y: int|
                        0 <= x < n && 0 <= y < n ==> #[trigger] inv@[x][y] == if x < i || (x == i
                            && y < j) {
                            rb[x][y]
                        } else {
                            0u8
                        },
                decreases n - j,
            {
                inv.set(i, j, aug.get(i, n + j));
                j += 1;
            }
            i += 1;
        }
        proof {
            assert forall|x: int| 0 <= x < n implies inv@[x] =~= rb[x] by {}
            assert(inv@ =~= rb);
            let lb = left_block(aug@, nn);
            assert forall|x: int| 0 <= x < n implies lb[x] =~= identity(nn)[x] by {}
            assert(lb =~= identity(nn));
            lemma_elim_done(pacc, rinv, aug@, a, nn);
            lemma_inverse_of(inv@, a, nn);
        }
        Ok(inv)
    }

    /// Builds the canonical Reed-Solomon coding matrix:
    /// Vandermonde(data + parity, data) * (Vandermonde_top)^-1
    pub fn build_coding_matrix(data_shards: usize, parity_shards: usize) -> (res: Result<
        Self,
        &'static str,
    >)
        requires
            data_shards + parity_shards <= usize::MAX,
            (data_shards + parity_shards) * data_shards <= usize::MAX,
            data_shards * data_shards * 2 <= usize::MAX,
        ensures
            res is Ok <==> coding_matrix_exists(data_shards as nat, parity_shards as nat),
            data_shards <= 256 ==> res is Ok,
            res matches Err(e) ==> e == "Singular matrix",
            res matches Ok(m) ==> m.wf() && m.rows == data_shards + parity_shards && m.cols
                == data_shards && m@ == coding_matrix_spec(data_shards as nat, parity_shards as nat),
            res matches Ok(m) ==> forall|i: int, j: int|
                0 <= i < data_shards && 0 <= j < data_shards ==> #[trigger] m@[i][j] == if i == j {
                    1u8
                } else {
                    0u8
                },
    {
        let total_shards = data_shards + parity_shards;
        let v = Self::vandermonde(total_shards, data_shards);
        proof {
            assert(data_shards * data_shards <= total_shards * data_shards) by (nonlinear_arith)
                requires
                    data_shards <= total_shards,
            ;
        }
        let top = v.sub_matrix(0, 0, data_shards, data_shards);
        proof {
            if data_shards <= 256 {
                lemma_coding_matrix_exists(data_shards as nat, parity_shards as nat);
            }
        }
        let top_inv = match top.invert() {
            Ok(t) => t,
            Err(e) => {
                return Err(e);
            },
        };
        let m = v.multiply(&top_inv);
        proof {
            lemma_inverse_of(top_inv@, top@, data_shards as nat);
            lemma_coding_matrix_systematic(data_shards as nat, parity_shards as nat);
        }
        Ok(m)
    }
}

} // verus!
