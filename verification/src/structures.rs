//! The matrix value type, its construction sources, and the error taxonomy.

use vstd::prelude::*;

verus! {

/// A rectangular array of 64-bit scalar words in row-major order.
///
/// The logical cell `(r, c)` of an `r0 x c0` matrix is stored at flat offset
/// `r * c0 + c`.  A well-formed matrix always holds exactly `rows * cols`
/// words.
#[derive(Debug)]
pub struct Matrix {
    pub rows: usize,
    pub cols: usize,
    pub data: Vec<u64>,
}

impl View for Matrix {
    type V = Seq<u64>;

    open spec fn view(&self) -> Seq<u64> {
        self.data@
    }
}

impl Matrix {
    /// The storage invariant: the flat buffer holds one word per cell.
    pub open spec fn wf(self) -> bool {
        self.data@.len() == self.rows * self.cols
    }
}

impl Clone for Matrix {
    fn clone(&self) -> (res: Matrix)
        ensures
            res.rows == self.rows,
            res.cols == self.cols,
            res@ == self@,
    {
        let mut data: Vec<u64> = Vec::new();
        let mut i: usize = 0;
        while i < self.data.len()
            invariant
                i <= self.data@.len(),
                data@ == self.data@.subrange(0, i as int),
            decreases self.data@.len() - i,
        {
            data.push(self.data[i]);
            i += 1;
        }
        assert(data@ =~= self.data@);
        Matrix { rows: self.rows, cols: self.cols, data }
    }
}

/// Why an operation refused its operands.
///
/// Every error is raised at the point of violation and carries the offending
/// quantities; scalar words are never inspected, so no error depends on the
/// numeric contents of a matrix.
#[derive(Clone, Copy, Debug, PartialEq, Eq, Structural)]
pub enum MatrixError {
    /// Two shapes had to agree (or be compatible) and did not.
    DimensionMismatch { expected_rows: usize, expected_cols: usize, found_rows: usize, found_cols: usize },
    /// A flat element sequence had the wrong length for the requested shape.
    ElementCountMismatch { expected: usize, found: usize },
    /// The operation needs a vector (a single row or a single column).
    ShapeError { rows: usize, cols: usize },
    /// A percentile level outside `[0, 1]`; carries the rejected word.
    RangeError { level: u64 },
    /// An aggregate over a collection was given no matrices.
    EmptyInput,
}

/// A source for a new matrix's buffer: an explicit row-major sequence, a
/// scalar word broadcast to every cell, or an existing matrix to copy.
pub enum MatrixData {
    Vector(Vec<u64>),
    Scalar(u64),
    Matrix(Matrix),
}

/// How a percentile level selects from a sorted sequence of `n` words:
/// rejected as out of range, an exact index, or the average of two indices.
#[derive(Clone, Copy, Debug, PartialEq, Eq, Structural)]
pub enum PercentileRank {
    OutOfRange,
    Exact(usize),
    Between(usize, usize),
}

/// The buffer that `MatrixData::initialize` must produce for a `rows x cols`
/// request, or the error it must report.
pub open spec fn spec_initialize(source: MatrixData, rows: int, cols: int) -> Result<Seq<u64>, MatrixError> {
    match source {
        MatrixData::Vector(v) => if v@.len() == rows * cols {
            Ok(v@)
        } else {
            Err(MatrixError::ElementCountMismatch {
                expected: (rows * cols) as usize,
                found: v@.len() as usize,
            })
        },
        MatrixData::Scalar(w) => Ok(Seq::new((rows * cols) as nat, |i: int| w)),
        MatrixData::Matrix(m) => if m.rows == rows && m.cols == cols {
            Ok(m@)
        } else {
            Err(MatrixError::DimensionMismatch {
                expected_rows: rows as usize,
                expected_cols: cols as usize,
                found_rows: m.rows,
                found_cols: m.cols,
            })
        },
    }
}

impl MatrixData {
    /// Normalize a construction source into a flat buffer of exactly
    /// `rows * cols` words, or report why it cannot fill that shape.
    pub fn initialize(self, rows: usize, cols: usize) -> (r: Result<Vec<u64>, MatrixError>)
        requires
            rows * cols <= usize::MAX,
            self matches MatrixData::Matrix(m) ==> m.wf(),
        ensures
            match r {
                Ok(d) => spec_initialize(self, rows as int, cols as int) == Ok::<Seq<u64>, MatrixError>(d@)
                    && d@.len() == rows * cols,
                Err(e) => spec_initialize(self, rows as int, cols as int) == Err::<Seq<u64>, MatrixError>(e),
            },
    {
        let n: usize = rows * cols;
        match self {
            MatrixData::Vector(v) => {
                if v.len() != n {
                    Err(MatrixError::ElementCountMismatch { expected: n, found: v.len() })
                } else {
                    Ok(v)
                }
            },
            MatrixData::Scalar(w) => {
                let mut d: Vec<u64> = Vec::new();
                let mut i: usize = 0;
                while i < n
                    invariant
                        i <= n,
                        d@.len() == i,
                        forall|k: int| 0 <= k < i ==> d@[k] == w,
                    decreases n - i,
                {
                    d.push(w);
                    i += 1;
                }
                assert(d@ =~= Seq::new((rows * cols) as nat, |i: int| w));
                Ok(d)
            },
            MatrixData::Matrix(m) => {
                if m.rows != rows || m.cols != cols {
                    Err(MatrixError::DimensionMismatch {
                        expected_rows: rows,
                        expected_cols: cols,
                        found_rows: m.rows,
                        found_cols: m.cols,
                    })
                } else {
                    Ok(m.data)
                }
            },
        }
    }
}

} // verus!
