//! Construction, access, and the structural and element-wise operations.

use vstd::prelude::*;

use crate::kernel::WORD_ONE;
use crate::kernel::WORD_ZERO;
use crate::kernel::dot_links;
use crate::kernel::lemma_dot_links_base;
use crate::kernel::lemma_dot_links_push;
use crate::kernel::elementwise_links;
use crate::kernel::map_links;
use crate::kernel::total2;
use crate::kernel::total1;
use crate::structures::Matrix;
use crate::structures::MatrixData;
use crate::structures::MatrixError;
use crate::structures::spec_initialize;

verus! {

/// Row `i` of a row-major buffer with `cols` columns, as a sequence.
pub open spec fn row_of(s: Seq<u64>, cols: int, i: int) -> Seq<u64> {
    Seq::new(cols as nat, |k: int| s[i * cols + k])
}

/// Column `j` of a row-major `rows x cols` buffer, as a sequence.
pub open spec fn col_of(s: Seq<u64>, cols: int, j: int, rows: int) -> Seq<u64> {
    Seq::new(rows as nat, |k: int| s[k * cols + j])
}

/// The error reported when the shapes of two operands had to agree (or, for
/// a product, be compatible) and did not.
pub open spec fn shape_mismatch(a: Matrix, b: Matrix) -> MatrixError {
    MatrixError::DimensionMismatch {
        expected_rows: a.rows,
        expected_cols: a.cols,
        found_rows: b.rows,
        found_cols: b.cols,
    }
}

/// A cell (r, c) of a grid with `cols` columns lies inside the flat buffer.
pub proof fn lemma_flat_index_bound(r: int, c: int, rows: int, cols: int)
    requires
        0 <= r < rows,
        0 <= c < cols,
    ensures
        0 <= r * cols + c < rows * cols,
{
    assert(0 <= r * cols + c) by (nonlinear_arith)
        requires 0 <= r, 0 <= c, 0 < cols;
    assert(r * cols + c < rows * cols) by (nonlinear_arith)
        requires 0 <= r < rows, 0 <= c < cols;
}

/// Distinct cells of a grid have distinct flat offsets.
pub proof fn lemma_flat_index_unique(r1: int, c1: int, r2: int, c2: int, cols: int)
    requires
        0 <= c1 < cols,
        0 <= c2 < cols,
        0 <= r1,
        0 <= r2,
        r1 * cols + c1 == r2 * cols + c2,
    ensures
        r1 == r2,
        c1 == c2,
{
    assert(r1 == r2 && c1 == c2) by (nonlinear_arith)
        requires
            0 <= c1 < cols,
            0 <= c2 < cols,
            0 <= r1,
            0 <= r2,
            r1 * cols + c1 == r2 * cols + c2;
}

/// Every flat offset of a `rows x cols` grid is the offset of exactly the
/// cell `(i / cols, i % cols)`.
pub proof fn lemma_flat_decompose(i: int, rows: int, cols: int)
    requires
        0 <= i < rows * cols,
        0 <= rows,
        0 <= cols,
    ensures
        0 < cols,
        0 <= i / cols < rows,
        0 <= i % cols < cols,
        i == (i / cols) * cols + (i % cols),
{
    assert(0 < cols) by (nonlinear_arith)
        requires 0 <= i < rows * cols, 0 <= cols;
    vstd::arithmetic::div_mod::lemma_fundamental_div_mod(i, cols);
    assert(i == (i / cols) * cols + (i % cols)) by (nonlinear_arith)
        requires i == cols * (i / cols) + (i % cols);
    assert(0 <= i % cols < cols) by (nonlinear_arith)
        requires 0 < cols, 0 <= i;
    assert(0 <= i / cols < rows) by (nonlinear_arith)
        requires
            0 < cols,
            0 <= i < rows * cols,
            i == cols * (i / cols) + (i % cols),
            0 <= i % cols < cols;
}

/// The flat buffer of the transpose: cell (c, r) of the result is cell
/// (r, c) of a `rows x cols` source.
pub open spec fn transpose_seq(rows: int, cols: int, s: Seq<u64>) -> Seq<u64> {
    Seq::new((rows * cols) as nat, |i: int| s[(i % rows) * cols + i / rows])
}

/// The flat buffer of the `n x n` identity: one on the diagonal, zero
/// elsewhere.
pub open spec fn identity_seq(n: int) -> Seq<u64> {
    Seq::new((n * n) as nat, |i: int| if i / n == i % n { WORD_ONE } else { WORD_ZERO })
}

impl Matrix {
    /// Build a `rows x cols` matrix from the given source, refusing a source
    /// that cannot fill that shape (see [`spec_initialize`]).
    pub fn new(rows: usize, cols: usize, source: MatrixData) -> (r: Result<Matrix, MatrixError>)
        requires
            rows * cols <= usize::MAX,
            source matches MatrixData::Matrix(m) ==> m.wf(),
        ensures
            match r {
                Ok(m) => m.rows == rows && m.cols == cols && m.wf()
                    && spec_initialize(source, rows as int, cols as int) == Ok::<Seq<u64>, MatrixError>(m@),
                Err(e) => spec_initialize(source, rows as int, cols as int) == Err::<Seq<u64>, MatrixError>(e),
            },
    {
        match source.initialize(rows, cols) {
            Ok(data) => Ok(Matrix { rows, cols, data }),
            Err(e) => Err(e),
        }
    }

    /// The word at cell `(r, c)`, read at row-major offset `r * cols + c`.
    pub fn get(&self, r: usize, c: usize) -> (w: u64)
        requires
            self.wf(),
            r < self.rows,
            c < self.cols,
        ensures
            w == self@[r * self.cols + c],
    {
        let _len: usize = self.data.len();
        proof {
            lemma_flat_index_bound(r as int, c as int, self.rows as int, self.cols as int);
        }
        self.data[r * self.cols + c]
    }

    /// The `size x size` matrix with one on the main diagonal and zero
    /// everywhere else.
    pub fn identity(size: usize) -> (r: Matrix)
        requires
            size * size <= usize::MAX,
        ensures
            r.rows == size,
            r.cols == size,
            r.wf(),
            r@ == identity_seq(size as int),
    {
        let n: usize = size * size;
        let mut data: Vec<u64> = Vec::new();
        let mut k: usize = 0;
        while k < n
            invariant
                k <= n,
                data@.len() == k,
                forall|t: int| 0 <= t < k ==> data@[t] == WORD_ZERO,
            decreases n - k,
        {
            data.push(WORD_ZERO);
            k += 1;
        }
        let mut i: usize = 0;
        while i < size
            invariant
                i <= size,
                n == size * size,
                data@.len() == n,
                forall|t: int| 0 <= t < n ==> #[trigger] data@[t]
                    == (if t / (size as int) == t % (size as int) && t / (size as int) < i { WORD_ONE } else { WORD_ZERO }),
            decreases size - i,
        {
            proof {
                lemma_flat_index_bound(i as int, i as int, size as int, size as int);
            }
            data.set(i * size + i, WORD_ONE);
            proof {
                vstd::arithmetic::div_mod::lemma_fundamental_div_mod_converse(
                    i * size + i, size as int, i as int, i as int);
                assert forall|t: int| 0 <= t < n
                    implies #[trigger] data@[t]
                        == (if t / (size as int) == t % (size as int) && t / (size as int) < i + 1 { WORD_ONE } else { WORD_ZERO }) by {
                    if t != i * size + i && t / (size as int) == t % (size as int)
                        && t / (size as int) == i {
                        vstd::arithmetic::div_mod::lemma_fundamental_div_mod(t, size as int);
                        assert(size as int * i == i * size) by (nonlinear_arith);
                        assert(false);
                    }
                }
            }
            i += 1;
        }
        let r = Matrix { rows: size, cols: size, data };
        proof {
            assert forall|t: int| 0 <= t < size * size
                implies r@[t] == identity_seq(size as int)[t] by {
                lemma_flat_decompose(t, size as int, size as int);
            }
            assert(r@ =~= identity_seq(size as int));
        }
        r
    }

    /// The `cols x rows` matrix whose cell (c, r) is this matrix's cell
    /// (r, c).
    pub fn transpose(&self) -> (r: Matrix)
        requires
            self.wf(),
        ensures
            r.rows == self.cols,
            r.cols == self.rows,
            r.wf(),
            r@ == transpose_seq(self.rows as int, self.cols as int, self@),
    {
        let rows = self.rows;
        let cols = self.cols;
        let n: usize = self.data.len();
        proof {
            assert(cols * rows == rows * cols) by (nonlinear_arith);
        }
        let mut data: Vec<u64> = Vec::new();
        let mut k: usize = 0;
        while k < n
            invariant
                k <= n,
                data@.len() == k,
            decreases n - k,
        {
            data.push(WORD_ZERO);
            k += 1;
        }
        let mut row: usize = 0;
        while row < rows
            invariant
                row <= rows,
                self.wf(),
                rows == self.rows,
                cols == self.cols,
                data@.len() == n,
                n == rows * cols,
                forall|r0: int, c0: int| #![trigger data@[c0 * rows + r0]]
                    0 <= r0 < row && 0 <= c0 < cols
                    ==> data@[c0 * rows + r0] == self@[r0 * cols + c0],
            decreases rows - row,
        {
            let mut col: usize = 0;
            while col < cols
                invariant
                    col <= cols,
                    row < rows,
                    self.wf(),
                    rows == self.rows,
                    cols == self.cols,
                    data@.len() == n,
                    n == rows * cols,
                    forall|r0: int, c0: int| #![trigger data@[c0 * rows + r0]]
                        0 <= r0 < row && 0 <= c0 < cols
                        ==> data@[c0 * rows + r0] == self@[r0 * cols + c0],
                    forall|c0: int| #![trigger data@[c0 * rows + row]]
                        0 <= c0 < col
                        ==> data@[c0 * rows + row] == self@[row * cols + c0],
                decreases cols - col,
            {
                proof {
                    lemma_flat_index_bound(row as int, col as int, rows as int, cols as int);
                    lemma_flat_index_bound(col as int, row as int, cols as int, rows as int);
                    assert(cols * rows == rows * cols) by (nonlinear_arith);
                }
                let w = self.data[row * cols + col];
                data.set(col * rows + row, w);
                proof {
                    assert forall|r0: int, c0: int| #![trigger data@[c0 * rows + r0]]
                        0 <= r0 < row && 0 <= c0 < cols
                        implies data@[c0 * rows + r0] == self@[r0 * cols + c0] by {
                        lemma_flat_index_bound(c0, r0, cols as int, rows as int);
                        if c0 * rows + r0 == col * rows + row {
                            lemma_flat_index_unique(c0, r0, col as int, row as int, rows as int);
                        }
                    }
                    assert forall|c0: int| #![trigger data@[c0 * rows + row]]
                        0 <= c0 < col + 1
                        implies data@[c0 * rows + row] == self@[row * cols + c0] by {
                        lemma_flat_index_bound(c0, row as int, cols as int, rows as int);
                        if c0 * rows + row == col * rows + row {
                            lemma_flat_index_unique(c0, row as int, col as int, row as int, rows as int);
                        }
                    }
                }
                col += 1;
            }
            row += 1;
        }
        let r = Matrix { rows: cols, cols: rows, data };
        proof {
            assert(cols * rows == rows * cols) by (nonlinear_arith);
            assert(r@ =~= transpose_seq(rows as int, cols as int, self@)) by {
                assert forall|t: int| 0 <= t < rows * cols
                    implies r@[t] == self@[(t % rows as int) * cols + t / rows as int] by {
                    lemma_flat_decompose(t, cols as int, rows as int);
                    assert(r@[(t / rows as int) * rows + (t % rows as int)]
                        == self@[(t % rows as int) * cols + t / rows as int]);
                }
            }
        }
        r
    }

    /// Reinterpret the same flat buffer under a new shape of equal element
    /// count; the buffer itself is unchanged.
    pub fn reshape(self, rows: usize, cols: usize) -> (r: Result<Matrix, MatrixError>)
        requires
            self.wf(),
        ensures
            match r {
                Ok(m) => self.rows * self.cols == rows * cols && m.rows == rows && m.cols == cols
                    && m.wf() && m@ == self@,
                Err(e) => self.rows * self.cols != rows * cols
                    && e == (MatrixError::DimensionMismatch {
                        expected_rows: self.rows,
                        expected_cols: self.cols,
                        found_rows: rows,
                        found_cols: cols,
                    }),
            },
    {
        let len = self.data.len();
        let ok = match rows.checked_mul(cols) {
            Some(n) => n == len,
            None => false,
        };
        if !ok {
            Err(MatrixError::DimensionMismatch {
                expected_rows: self.rows,
                expected_cols: self.cols,
                found_rows: rows,
                found_cols: cols,
            })
        } else {
            Ok(Matrix { rows, cols, data: self.data })
        }
    }
}

impl Matrix {
    /// Combine two equal-shaped matrices cell by cell with the kernel `f`.
    fn zip_cells<F: Fn(u64, u64) -> u64>(self, other: Matrix, f: F) -> (r: Result<Matrix, MatrixError>)
        requires
            self.wf(),
            other.wf(),
            total2(f),
        ensures
            match r {
                Ok(m) => self.rows == other.rows && self.cols == other.cols
                    && m.rows == self.rows && m.cols == self.cols && m.wf()
                    && elementwise_links(f, self@, other@, m@),
                Err(e) => (self.rows != other.rows || self.cols != other.cols)
                    && e == shape_mismatch(self, other),
            },
    {
        if self.rows != other.rows || self.cols != other.cols {
            return Err(MatrixError::DimensionMismatch {
                expected_rows: self.rows,
                expected_cols: self.cols,
                found_rows: other.rows,
                found_cols: other.cols,
            });
        }
        let n: usize = self.data.len();
        let mut data: Vec<u64> = Vec::new();
        let mut i: usize = 0;
        while i < n
            invariant
                i <= n,
                n == self@.len(),
                other@.len() == n,
                data@.len() == i,
                total2(f),
                forall|k: int| 0 <= k < i
                    ==> call_ensures(f, (self@[k], other@[k]), #[trigger] data@[k]),
            decreases n - i,
        {
            let w = f(self.data[i], other.data[i]);
            data.push(w);
            i += 1;
        }
        Ok(Matrix { rows: self.rows, cols: self.cols, data })
    }

    /// Element-wise sum: cell `k` of the result is `f(self[k], other[k])`,
    /// with `f` the caller's scalar addition.  Fails exactly when the shapes
    /// differ.
    pub fn add<F: Fn(u64, u64) -> u64>(self, other: Matrix, f: F) -> (r: Result<Matrix, MatrixError>)
        requires
            self.wf(),
            other.wf(),
            total2(f),
        ensures
            match r {
                Ok(m) => self.rows == other.rows && self.cols == other.cols
                    && m.rows == self.rows && m.cols == self.cols && m.wf()
                    && elementwise_links(f, self@, other@, m@),
                Err(e) => (self.rows != other.rows || self.cols != other.cols)
                    && e == shape_mismatch(self, other),
            },
    {
        self.zip_cells(other, f)
    }

    /// Element-wise difference: cell `k` of the result is
    /// `f(self[k], other[k])`, with `f` the caller's scalar subtraction.
    /// Fails exactly when the shapes differ.
    pub fn sub<F: Fn(u64, u64) -> u64>(self, other: Matrix, f: F) -> (r: Result<Matrix, MatrixError>)
        requires
            self.wf(),
            other.wf(),
            total2(f),
        ensures
            match r {
                Ok(m) => self.rows == other.rows && self.cols == other.cols
                    && m.rows == self.rows && m.cols == self.cols && m.wf()
                    && elementwise_links(f, self@, other@, m@),
                Err(e) => (self.rows != other.rows || self.cols != other.cols)
                    && e == shape_mismatch(self, other),
            },
    {
        self.zip_cells(other, f)
    }

    /// Apply the kernel `f` to every cell independently; the shape is kept.
    pub fn map<F: Fn(u64) -> u64>(&self, f: F) -> (r: Matrix)
        requires
            self.wf(),
            total1(f),
        ensures
            r.rows == self.rows,
            r.cols == self.cols,
            r.wf(),
            map_links(f, self@, r@),
    {
        let n: usize = self.data.len();
        let mut data: Vec<u64> = Vec::new();
        let mut i: usize = 0;
        while i < n
            invariant
                i <= n,
                n == self@.len(),
                data@.len() == i,
                total1(f),
                forall|k: int| 0 <= k < i ==> call_ensures(f, (self@[k],), #[trigger] data@[k]),
            decreases n - i,
        {
            let w = f(self.data[i]);
            data.push(w);
            i += 1;
        }
        Matrix { rows: self.rows, cols: self.cols, data }
    }

    /// Pair every cell with the fixed word `scalar` under the kernel `f`:
    /// cell `k` of the result is `f(self[k], scalar)`.
    fn with_scalar<F: Fn(u64, u64) -> u64>(self, scalar: u64, f: F) -> (r: Matrix)
        requires
            self.wf(),
            total2(f),
        ensures
            r.rows == self.rows,
            r.cols == self.cols,
            r.wf(),
            r@.len() == self@.len(),
            forall|k: int| 0 <= k < self@.len()
                ==> call_ensures(f, (self@[k], scalar), #[trigger] r@[k]),
    {
        let n: usize = self.data.len();
        let mut data: Vec<u64> = Vec::new();
        let mut i: usize = 0;
        while i < n
            invariant
                i <= n,
                n == self@.len(),
                data@.len() == i,
                total2(f),
                forall|k: int| 0 <= k < i ==> call_ensures(f, (self@[k], scalar), #[trigger] data@[k]),
            decreases n - i,
        {
            let w = f(self.data[i], scalar);
            data.push(w);
            i += 1;
        }
        Matrix { rows: self.rows, cols: self.cols, data }
    }

    /// Scale every cell by `scalar`: cell `k` of the result is
    /// `f(self[k], scalar)`, with `f` the caller's scalar multiplication.
    pub fn mul_scalar<F: Fn(u64, u64) -> u64>(self, scalar: u64, f: F) -> (r: Matrix)
        requires
            self.wf(),
            total2(f),
        ensures
            r.rows == self.rows,
            r.cols == self.cols,
            r.wf(),
            r@.len() == self@.len(),
            forall|k: int| 0 <= k < self@.len()
                ==> call_ensures(f, (self@[k], scalar), #[trigger] r@[k]),
    {
        self.with_scalar(scalar, f)
    }

    /// Divide every cell by `scalar`: cell `k` of the result is
    /// `f(self[k], scalar)`, with `f` the caller's scalar division.  A zero
    /// divisor is not special-cased: whatever the kernel returns is stored.
    pub fn div_scalar<F: Fn(u64, u64) -> u64>(self, scalar: u64, f: F) -> (r: Matrix)
        requires
            self.wf(),
            total2(f),
        ensures
            r.rows == self.rows,
            r.cols == self.cols,
            r.wf(),
            r@.len() == self@.len(),
            forall|k: int| 0 <= k < self@.len()
                ==> call_ensures(f, (self@[k], scalar), #[trigger] r@[k]),
    {
        self.with_scalar(scalar, f)
    }

    /// The matrix product.  Cell (i, j) of the result is a multiply-
    /// accumulate over `k` of `self[i, k]` and `other[k, j]`, starting from
    /// the zero word, with `fa` the caller's scalar addition and `fm` the
    /// caller's scalar multiplication.  Fails exactly when the inner
    /// dimensions (`self.cols` and `other.rows`) disagree.
    pub fn mul<FA: Fn(u64, u64) -> u64, FM: Fn(u64, u64) -> u64>(
        self,
        other: Matrix,
        fa: FA,
        fm: FM,
    ) -> (r: Result<Matrix, MatrixError>)
        requires
            self.wf(),
            other.wf(),
            total2(fa),
            total2(fm),
            self.rows * other.cols <= usize::MAX,
        ensures
            match r {
                Ok(m) => self.cols == other.rows && m.rows == self.rows && m.cols == other.cols
                    && m.wf()
                    && forall|i: int, j: int| 0 <= i < self.rows && 0 <= j < other.cols
                        ==> #[trigger] dot_links(
                            fa,
                            fm,
                            row_of(self@, self.cols as int, i),
                            col_of(other@, other.cols as int, j, other.rows as int),
                            WORD_ZERO,
                            m@[i * other.cols + j],
                        ),
                Err(e) => self.cols != other.rows && e == shape_mismatch(self, other),
            },
    {
        if self.cols != other.rows {
            return Err(MatrixError::DimensionMismatch {
                expected_rows: self.rows,
                expected_cols: self.cols,
                found_rows: other.rows,
                found_cols: other.cols,
            });
        }
        let rows = self.rows;
        let inner = self.cols;
        let cols = other.cols;
        let self_len = self.data.len();
        let other_len = other.data.len();
        let mut data: Vec<u64> = Vec::new();
        let mut i: usize = 0;
        while i < rows
            invariant
                i <= rows,
                rows == self.rows,
                inner == self.cols,
                cols == other.cols,
                other.rows == inner,
                self.wf(),
                other.wf(),
                total2(fa),
                total2(fm),
                rows * cols <= usize::MAX,
                self_len == self@.len(),
                other_len == other@.len(),
                data@.len() == i * cols,
                forall|i0: int, j0: int| 0 <= i0 < i && 0 <= j0 < cols
                    ==> #[trigger] dot_links(
                        fa,
                        fm,
                        row_of(self@, inner as int, i0),
                        col_of(other@, cols as int, j0, inner as int),
                        WORD_ZERO,
                        data@[i0 * cols + j0],
                    ),
            decreases rows - i,
        {
            proof {
                assert(i * cols + cols == (i + 1) * cols) by (nonlinear_arith);
                assert((i + 1) * cols <= rows * cols) by (nonlinear_arith)
                    requires i + 1 <= rows, 0 <= cols;
            }
            let mut j: usize = 0;
            while j < cols
                invariant
                    j <= cols,
                    i < rows,
                    rows == self.rows,
                    inner == self.cols,
                    cols == other.cols,
                    other.rows == inner,
                    self.wf(),
                    other.wf(),
                    total2(fa),
                    total2(fm),
                    rows * cols <= usize::MAX,
                    self_len == self@.len(),
                    other_len == other@.len(),
                    i * cols + cols <= rows * cols,
                    data@.len() == i * cols + j,
                    forall|i0: int, j0: int| 0 <= i0 < i && 0 <= j0 < cols
                        ==> #[trigger] dot_links(
                            fa,
                            fm,
                            row_of(self@, inner as int, i0),
                            col_of(other@, cols as int, j0, inner as int),
                            WORD_ZERO,
                            data@[i0 * cols + j0],
                        ),
                    forall|j0: int| 0 <= j0 < j
                        ==> #[trigger] dot_links(
                            fa,
                            fm,
                            row_of(self@, inner as int, i as int),
                            col_of(other@, cols as int, j0, inner as int),
                            WORD_ZERO,
                            data@[i * cols + j0],
                        ),
                decreases cols - j,
            {
                let ghost the_row = row_of(self@, inner as int, i as int);
                let ghost the_col = col_of(other@, cols as int, j as int, inner as int);
                let mut acc: u64 = WORD_ZERO;
                proof {
                    lemma_dot_links_base(fa, fm, WORD_ZERO);
                    assert(the_row.take(0) =~= Seq::<u64>::empty());
                    assert(the_col.take(0) =~= Seq::<u64>::empty());
                }
                let mut k: usize = 0;
                while k < inner
                    invariant
                        k <= inner,
                        i < rows,
                        j < cols,
                        rows == self.rows,
                        inner == self.cols,
                        cols == other.cols,
                        other.rows == inner,
                        self.wf(),
                        other.wf(),
                        total2(fa),
                        total2(fm),
                        the_row == row_of(self@, inner as int, i as int),
                        the_col == col_of(other@, cols as int, j as int, inner as int),
                        self_len == self@.len(),
                        other_len == other@.len(),
                        dot_links(fa, fm, the_row.take(k as int), the_col.take(k as int), WORD_ZERO, acc),
                    decreases inner - k,
                {
                    proof {
                        lemma_flat_index_bound(i as int, k as int, rows as int, inner as int);
                        lemma_flat_index_bound(k as int, j as int, inner as int, cols as int);
                    }
                    let x = self.data[i * inner + k];
                    let y = other.data[k * cols + j];
                    let p = fm(x, y);
                    let next = fa(acc, p);
                    proof {
                        lemma_dot_links_push(
                            fa, fm,
                            the_row.take(k as int), the_col.take(k as int),
                            WORD_ZERO, acc, x, y, p, next,
                        );
                        assert(the_row.take(k as int).push(x) =~= the_row.take(k + 1));
                        assert(the_col.take(k as int).push(y) =~= the_col.take(k + 1));
                    }
                    acc = next;
                    k += 1;
                }
                proof {
                    assert(the_row.take(inner as int) =~= the_row);
                    assert(the_col.take(inner as int) =~= the_col);
                    assert(i * cols + j < rows * cols) by (nonlinear_arith)
                        requires 0 <= i, i * cols + cols <= rows * cols, 0 <= j < cols;
                }
                data.push(acc);
                proof {
                    assert forall|i0: int, j0: int| 0 <= i0 < i && 0 <= j0 < cols
                        implies #[trigger] dot_links(
                            fa,
                            fm,
                            row_of(self@, inner as int, i0),
                            col_of(other@, cols as int, j0, inner as int),
                            WORD_ZERO,
                            data@[i0 * cols + j0],
                        ) by {
                        assert(i0 * cols + j0 < i * cols) by (nonlinear_arith)
                            requires 0 <= i0 < i, 0 <= j0 < cols;
                    }
                }
                j += 1;
            }
            i += 1;
        }
        Ok(Matrix { rows, cols, data })
    }
}

} // verus!
