//! Aggregates over several matrices: dot product, mean, distance.

use vstd::prelude::*;

use crate::kernel::WORD_ZERO;
use crate::kernel::dot_links;
use crate::kernel::elementwise_links;
use crate::kernel::fold_links;
use crate::kernel::lemma_dot_links_base;
use crate::kernel::lemma_dot_links_push;
use crate::kernel::lemma_fold_links_base;
use crate::kernel::lemma_fold_links_push;
use crate::kernel::total1;
use crate::kernel::total2;
use crate::matrix::shape_mismatch;
use crate::stats::magnitude_links;
use crate::structures::Matrix;
use crate::structures::MatrixError;

verus! {

/// Cell `j` of every matrix in `ms`, in collection order.
pub open spec fn cell_across(ms: Seq<Matrix>, j: int) -> Seq<u64> {
    Seq::new(ms.len(), |i: int| ms[i]@[j])
}

/// Cell `j` of a mean result: some fold `s` of cell `j` across the
/// collection is handed with the collection size to `divn`, giving `w`.
pub open spec fn mean_cell_links<FA: Fn(u64, u64) -> u64, FD: Fn(u64, usize) -> u64>(
    fa: FA,
    divn: FD,
    ms: Seq<Matrix>,
    j: int,
    w: u64,
) -> bool {
    exists|s: u64|
        #[trigger] fold_links(fa, cell_across(ms, j), WORD_ZERO, s)
            && call_ensures(divn, (s, ms.len() as usize), w)
}

/// The scalar product of two equal-shaped matrices: a multiply-accumulate
/// over all cell pairs in flat order, starting from the zero word, with `fa`
/// the caller's scalar addition and `fm` the caller's scalar multiplication.
/// Fails exactly when the shapes differ.
pub fn dot<FA: Fn(u64, u64) -> u64, FM: Fn(u64, u64) -> u64>(
    a: Matrix,
    b: Matrix,
    fa: FA,
    fm: FM,
) -> (r: Result<u64, MatrixError>)
    requires
        a.wf(),
        b.wf(),
        total2(fa),
        total2(fm),
    ensures
        match r {
            Ok(w) => a.rows == b.rows && a.cols == b.cols
                && dot_links(fa, fm, a@, b@, WORD_ZERO, w),
            Err(e) => (a.rows != b.rows || a.cols != b.cols) && e == shape_mismatch(a, b),
        },
{
    if a.rows != b.rows || a.cols != b.cols {
        return Err(MatrixError::DimensionMismatch {
            expected_rows: a.rows,
            expected_cols: a.cols,
            found_rows: b.rows,
            found_cols: b.cols,
        });
    }
    let n = a.data.len();
    let mut acc: u64 = WORD_ZERO;
    proof {
        lemma_dot_links_base(fa, fm, WORD_ZERO);
        assert(a@.take(0) =~= Seq::<u64>::empty());
        assert(b@.take(0) =~= Seq::<u64>::empty());
    }
    let mut i: usize = 0;
    while i < n
        invariant
            i <= n,
            n == a@.len(),
            b@.len() == n,
            total2(fa),
            total2(fm),
            dot_links(fa, fm, a@.take(i as int), b@.take(i as int), WORD_ZERO, acc),
        decreases n - i,
    {
        let x = a.data[i];
        let y = b.data[i];
        let p = fm(x, y);
        let next = fa(acc, p);
        proof {
            lemma_dot_links_push(fa, fm, a@.take(i as int), b@.take(i as int), WORD_ZERO, acc, x, y, p, next);
            assert(a@.take(i as int).push(x) =~= a@.take(i + 1));
            assert(b@.take(i as int).push(y) =~= b@.take(i + 1));
        }
        acc = next;
        i += 1;
    }
    proof {
        assert(a@.take(n as int) =~= a@);
        assert(b@.take(n as int) =~= b@);
    }
    Ok(acc)
}

/// The element-wise mean of a collection of equal-shaped matrices.
///
/// An empty collection is refused; a one-matrix collection returns a copy of
/// that matrix with no arithmetic; otherwise cell `j` of the result is the
/// fold (by `fa`, the caller's scalar addition) of cell `j` of every matrix,
/// handed with the collection size to `divn` (the caller's divide-by-count).
/// A shape disagreement reports the first matrix that differs from the
/// first.
pub fn mean<FA: Fn(u64, u64) -> u64, FD: Fn(u64, usize) -> u64>(
    arr: &Vec<Matrix>,
    fa: FA,
    divn: FD,
) -> (r: Result<Matrix, MatrixError>)
    requires
        total2(fa),
        forall|x: u64, k: usize| #[trigger] call_requires(divn, (x, k)),
        forall|i: int| 0 <= i < arr@.len() ==> (#[trigger] arr@[i]).wf(),
    ensures
        match r {
            Ok(m) => arr@.len() > 0
                && (forall|i: int| 0 <= i < arr@.len()
                    ==> (#[trigger] arr@[i]).rows == arr@[0].rows && arr@[i].cols == arr@[0].cols)
                && m.rows == arr@[0].rows && m.cols == arr@[0].cols && m.wf()
                && (arr@.len() == 1 ==> m@ == arr@[0]@)
                && (arr@.len() > 1 ==> forall|j: int| #![trigger m@[j]] 0 <= j < m@.len()
                    ==> mean_cell_links(fa, divn, arr@, j, m@[j])),
            Err(e) => (arr@.len() == 0 && e == MatrixError::EmptyInput)
                || (exists|i: int| 1 <= i < arr@.len()
                    && ((#[trigger] arr@[i]).rows != arr@[0].rows || arr@[i].cols != arr@[0].cols)
                    && (forall|k: int| 1 <= k < i
                        ==> (#[trigger] arr@[k]).rows == arr@[0].rows && arr@[k].cols == arr@[0].cols)
                    && e == shape_mismatch(arr@[0], arr@[i])),
        },
{
    if arr.len() == 0 {
        return Err(MatrixError::EmptyInput);
    }
    if arr.len() == 1 {
        let first = &arr[0];
        return Ok(first.clone());
    }
    let count = arr.len();
    let first_rows = arr[0].rows;
    let first_cols = arr[0].cols;
    let mut i: usize = 1;
    while i < count
        invariant
            1 <= i <= count,
            count == arr@.len(),
            first_rows == arr@[0].rows,
            first_cols == arr@[0].cols,
            forall|k: int| 1 <= k < i
                ==> (#[trigger] arr@[k]).rows == first_rows && arr@[k].cols == first_cols,
        decreases count - i,
    {
        let mi = &arr[i];
        if mi.rows != first_rows || mi.cols != first_cols {
            return Err(MatrixError::DimensionMismatch {
                expected_rows: first_rows,
                expected_cols: first_cols,
                found_rows: mi.rows,
                found_cols: mi.cols,
            });
        }
        i += 1;
    }
    let n = arr[0].data.len();
    let mut data: Vec<u64> = Vec::new();
    let mut j: usize = 0;
    while j < n
        invariant
            j <= n,
            count == arr@.len(),
            count >= 2,
            first_rows == arr@[0].rows,
            first_cols == arr@[0].cols,
            n == arr@[0]@.len(),
            total2(fa),
            forall|x: u64, k: usize| #[trigger] call_requires(divn, (x, k)),
            forall|k: int| 0 <= k < count ==> (#[trigger] arr@[k]).wf(),
            forall|k: int| 0 <= k < count
                ==> (#[trigger] arr@[k]).rows == first_rows && arr@[k].cols == first_cols,
            data@.len() == j,
            forall|j0: int| #![trigger data@[j0]] 0 <= j0 < j
                ==> mean_cell_links(fa, divn, arr@, j0, data@[j0]),
        decreases n - j,
    {
        let ghost cells = cell_across(arr@, j as int);
        let mut acc: u64 = WORD_ZERO;
        proof {
            lemma_fold_links_base(fa, WORD_ZERO);
            assert(cells.take(0) =~= Seq::<u64>::empty());
        }
        let mut i2: usize = 0;
        while i2 < count
            invariant
                i2 <= count,
                count == arr@.len(),
                j < n,
                n == arr@[0]@.len(),
                total2(fa),
                forall|k: int| 0 <= k < count ==> (#[trigger] arr@[k]).wf(),
                forall|k: int| 0 <= k < count
                    ==> (#[trigger] arr@[k]).rows == first_rows && arr@[k].cols == first_cols,
                first_rows == arr@[0].rows,
                first_cols == arr@[0].cols,
                cells == cell_across(arr@, j as int),
                fold_links(fa, cells.take(i2 as int), WORD_ZERO, acc),
            decreases count - i2,
        {
            let mi = &arr[i2];
            proof {
                assert(arr@[i2 as int].wf());
                assert(arr@[0].wf());
                assert(arr@[i2 as int]@.len() == arr@[0]@.len());
            }
            let x = mi.data[j];
            let next = fa(acc, x);
            proof {
                assert(cells[i2 as int] == x);
                lemma_fold_links_push(fa, cells.take(i2 as int), WORD_ZERO, acc, x, next);
                assert(cells.take(i2 as int).push(x) =~= cells.take(i2 as int + 1));
            }
            acc = next;
            i2 += 1;
        }
        proof {
            assert(cells.take(count as int) =~= cells);
        }
        let w = divn(acc, count);
        let ghost old_data = data@;
        data.push(w);
        proof {
            assert(fold_links(fa, cell_across(arr@, j as int), WORD_ZERO, acc));
            assert(call_ensures(divn, (acc, arr@.len() as usize), w));
            assert(mean_cell_links(fa, divn, arr@, j as int, w));
            assert forall|j0: int| #![trigger data@[j0]] 0 <= j0 < j + 1
                implies mean_cell_links(fa, divn, arr@, j0, data@[j0]) by {
                if j0 < j {
                    assert(data@[j0] == old_data[j0]);
                    assert(mean_cell_links(fa, divn, arr@, j0, old_data[j0]));
                } else {
                    assert(data@[j0] == w);
                }
            }
        }
        j += 1;
    }
    Ok(Matrix { rows: first_rows, cols: first_cols, data })
}

/// The Euclidean distance between two equal-shaped vectors: the magnitude
/// (under `square`, `fa`, `root`) of their element-wise difference (under
/// `fs`, the caller's scalar subtraction).  A shape disagreement is reported
/// first; a non-vector shape is then reported by the magnitude step.
pub fn distance<
    FS: Fn(u64, u64) -> u64,
    FQ: Fn(u64) -> u64,
    FA: Fn(u64, u64) -> u64,
    FR: Fn(u64) -> u64,
>(
    a: Matrix,
    b: Matrix,
    fs: FS,
    square: FQ,
    fa: FA,
    root: FR,
) -> (r: Result<u64, MatrixError>)
    requires
        a.wf(),
        b.wf(),
        total2(fs),
        total1(square),
        total2(fa),
        total1(root),
    ensures
        match r {
            Ok(w) => a.rows == b.rows && a.cols == b.cols && (a.rows == 1 || a.cols == 1)
                && exists|d: Seq<u64>|
                    #[trigger] elementwise_links(fs, a@, b@, d)
                        && magnitude_links(square, fa, root, d, w),
            Err(e) => ((a.rows != b.rows || a.cols != b.cols) && e == shape_mismatch(a, b))
                || (a.rows == b.rows && a.cols == b.cols && a.rows != 1 && a.cols != 1
                    && e == (MatrixError::ShapeError { rows: a.rows, cols: a.cols })),
        },
{
    let ghost a0 = a;
    let diff = match a.sub(b, fs) {
        Ok(d) => d,
        Err(e) => {
            return Err(e);
        },
    };
    match diff.magnitude(square, fa, root) {
        Ok(w) => {
            proof {
                assert(elementwise_links(fs, a0@, b@, diff@));
            }
            Ok(w)
        },
        Err(e) => Err(e),
    }
}

} // verus!
