//! Where the entries of a matrix sit in its row-by-row storage.
use vstd::prelude::*;
use crate::matrix::Matrix;

verus! {

impl Matrix {
    /// The storage holds exactly `rows * cols` entries.
    pub open spec fn wf(&self) -> bool {
        self.data@.len() == self.rows * self.cols
    }

    /// Entry `(r, c)` lies inside the storage: its flat index
    /// `r * cols + c` is below the storage length.
    pub open spec fn in_bounds(&self, r: int, c: int) -> bool {
        r * self.cols + c < self.data@.len()
    }
}

/// Entry `(r, c)` of a `rows` by `cols` matrix has a flat index inside the
/// storage, and the whole of row `r` ends within it.
pub proof fn lemma_index(r: int, c: int, rows: int, cols: int)
    requires
        0 <= r < rows,
        0 <= c < cols,
    ensures
        0 <= r * cols + c < rows * cols,
        r * cols + cols <= rows * cols,
{
    vstd::arithmetic::mul::lemma_mul_inequality(r + 1, rows, cols);
    vstd::arithmetic::mul::lemma_mul_is_distributive_add_other_way(cols, r, 1);
    vstd::arithmetic::mul::lemma_mul_nonnegative(r, cols);
}

/// Row `r`, column `c` of a well-formed matrix lies inside its storage.
pub broadcast proof fn lemma_entry_in_bounds(m: Matrix, r: int, c: int)
    requires
        m.wf(),
        0 <= r < m.rows,
        0 <= c < m.cols,
    ensures
        #[trigger] m.in_bounds(r, c),
{
    lemma_index(r, c, m.rows as int, m.cols as int);
}

} // verus!
