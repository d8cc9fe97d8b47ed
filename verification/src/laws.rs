//! Laws the operations obey, stated over the same spec functions the
//! operations' contracts use.

use vstd::prelude::*;

use crate::kernel::WORD_ONE;
use crate::kernel::WORD_ZERO;
use crate::kernel::deterministic1;
use crate::kernel::deterministic2;
use crate::kernel::dot_links;
use crate::kernel::dot_trace;
use crate::kernel::elementwise_links;
use crate::kernel::fold_links;
use crate::kernel::fold_trace;
use crate::kernel::lemma_fold_links_deterministic;
use crate::kernel::map_links;
use crate::stats::magnitude_links;
use crate::matrix::col_of;
use crate::matrix::identity_seq;
use crate::matrix::lemma_flat_decompose;
use crate::matrix::lemma_flat_index_bound;
use crate::matrix::row_of;
use crate::matrix::transpose_seq;
use crate::structures::Matrix;
use crate::structures::MatrixData;
use crate::structures::MatrixError;
use crate::structures::spec_initialize;

verus! {

/// Construction from an explicit sequence of exactly `rows * cols` words
/// always succeeds and stores that sequence unchanged; by `get`'s contract,
/// cell (r, c) of the new matrix recovers `d[r * cols + c]`.
pub proof fn lemma_new_from_sequence(rows: usize, cols: usize, d: Vec<u64>)
    requires
        d@.len() == rows * cols,
    ensures
        spec_initialize(MatrixData::Vector(d), rows as int, cols as int)
            == Ok::<Seq<u64>, MatrixError>(d@),
{
}

/// Transposing twice gives back the original buffer: the transpose of the
/// transpose of a `rows x cols` buffer is that buffer.
pub proof fn lemma_transpose_involution(rows: int, cols: int, s: Seq<u64>)
    requires
        0 <= rows,
        0 <= cols,
        s.len() == rows * cols,
    ensures
        transpose_seq(cols, rows, transpose_seq(rows, cols, s)) == s,
{
    let t = transpose_seq(rows, cols, s);
    let u = transpose_seq(cols, rows, t);
    assert(rows * cols == cols * rows) by (nonlinear_arith);
    assert forall|i: int| 0 <= i < rows * cols implies u[i] == s[i] by {
        lemma_flat_decompose(i, rows, cols);
        let r0 = i / cols;
        let c0 = i % cols;
        lemma_flat_index_bound(c0, r0, cols, rows);
        assert(u[i] == t[c0 * rows + r0]);
        vstd::arithmetic::div_mod::lemma_fundamental_div_mod_converse(
            c0 * rows + r0, rows, c0, r0);
        assert(t[c0 * rows + r0] == s[r0 * cols + c0]);
    }
    assert(u =~= s);
}

/// `fm` sends any word multiplied by the one word (on the right) back to
/// that word.
pub open spec fn mul_one_right<FM: Fn(u64, u64) -> u64>(fm: FM) -> bool {
    forall|x: u64, z: u64| #[trigger] call_ensures(fm, (x, WORD_ONE), z) ==> z == x
}

/// `fm` sends any word multiplied by the zero word (on the right) to the
/// zero word.
pub open spec fn mul_zero_right<FM: Fn(u64, u64) -> u64>(fm: FM) -> bool {
    forall|x: u64, z: u64| #[trigger] call_ensures(fm, (x, WORD_ZERO), z) ==> z == WORD_ZERO
}

/// `fm` sends the one word times any word back to that word.
pub open spec fn mul_one_left<FM: Fn(u64, u64) -> u64>(fm: FM) -> bool {
    forall|x: u64, z: u64| #[trigger] call_ensures(fm, (WORD_ONE, x), z) ==> z == x
}

/// `fm` sends the zero word times any word to the zero word.
pub open spec fn mul_zero_left<FM: Fn(u64, u64) -> u64>(fm: FM) -> bool {
    forall|x: u64, z: u64| #[trigger] call_ensures(fm, (WORD_ZERO, x), z) ==> z == WORD_ZERO
}

/// `fa` leaves any word unchanged when the zero word is added on the right.
pub open spec fn add_zero_right<FA: Fn(u64, u64) -> u64>(fa: FA) -> bool {
    forall|x: u64, z: u64| #[trigger] call_ensures(fa, (x, WORD_ZERO), z) ==> z == x
}

/// `fa` returns the added word when the accumulator is the zero word.
pub open spec fn add_zero_left<FA: Fn(u64, u64) -> u64>(fa: FA) -> bool {
    forall|x: u64, z: u64| #[trigger] call_ensures(fa, (WORD_ZERO, x), z) ==> z == x
}

/// Element-wise sums commute: when the kernel computes one result per
/// argument pair and does not care about argument order, combining `a` with
/// `b` and `b` with `a` give the same cells.  (The IEEE addition kernel
/// satisfies both premises on every pair of words that are not two distinct
/// not-a-number encodings.)
pub proof fn lemma_add_commutative<F: Fn(u64, u64) -> u64>(
    f: F,
    a: Matrix,
    b: Matrix,
    ab: Matrix,
    ba: Matrix,
)
    requires
        deterministic2(f),
        forall|x: u64, y: u64, z: u64| #[trigger] call_ensures(f, (x, y), z)
            ==> call_ensures(f, (y, x), z),
        elementwise_links(f, a@, b@, ab@),
        elementwise_links(f, b@, a@, ba@),
    ensures
        ab@ == ba@,
{
    assert forall|i: int| 0 <= i < ab@.len() implies ab@[i] == ba@[i] by {
        assert(call_ensures(f, (a@[i], b@[i]), ab@[i]));
        assert(call_ensures(f, (b@[i], a@[i]), ba@[i]));
        assert(call_ensures(f, (a@[i], b@[i]), ba@[i]));
    }
    assert(ab@ =~= ba@);
}

/// Element-wise sums associate: when the kernel satisfies the associativity
/// law as a relation, summing `a + b` then `c` gives the same cells as
/// summing `a` then `b + c`.  (The IEEE addition kernel satisfies the
/// premise only up to rounding — adding the largest finite double to itself
/// and then its negation overflows one way but not the other — so for
/// doubles this law holds exactly only where no rounding or overflow
/// differs, and approximately elsewhere.)
pub proof fn lemma_add_associative<F: Fn(u64, u64) -> u64>(
    f: F,
    a: Matrix,
    b: Matrix,
    c: Matrix,
    ab: Matrix,
    bc: Matrix,
    ab_c: Matrix,
    a_bc: Matrix,
)
    requires
        forall|x: u64, y: u64, z: u64, xy: u64, yz: u64, r1: u64, r2: u64|
            #![trigger call_ensures(f, (x, y), xy), call_ensures(f, (xy, z), r1),
                call_ensures(f, (y, z), yz), call_ensures(f, (x, yz), r2)]
            call_ensures(f, (x, y), xy) && call_ensures(f, (xy, z), r1)
                && call_ensures(f, (y, z), yz) && call_ensures(f, (x, yz), r2)
            ==> r1 == r2,
        elementwise_links(f, a@, b@, ab@),
        elementwise_links(f, ab@, c@, ab_c@),
        elementwise_links(f, b@, c@, bc@),
        elementwise_links(f, a@, bc@, a_bc@),
    ensures
        ab_c@ == a_bc@,
{
    assert forall|i: int| 0 <= i < ab_c@.len() implies ab_c@[i] == a_bc@[i] by {
        assert(call_ensures(f, (a@[i], b@[i]), ab@[i]));
        assert(call_ensures(f, (ab@[i], c@[i]), ab_c@[i]));
        assert(call_ensures(f, (b@[i], c@[i]), bc@[i]));
        assert(call_ensures(f, (a@[i], bc@[i]), a_bc@[i]));
    }
    assert(ab_c@ =~= a_bc@);
}

/// In an accumulator run whose products are the zero word everywhere but at
/// position `j`, the accumulator stays zero up to `j` and afterwards holds
/// the one product `v`.
proof fn lemma_absorb_trace<FA: Fn(u64, u64) -> u64>(
    fa: FA,
    ps: Seq<u64>,
    tr: Seq<u64>,
    j: int,
    v: u64,
    k: int,
)
    requires
        0 <= j < ps.len(),
        tr.len() == ps.len() + 1,
        tr[0] == WORD_ZERO,
        forall|t: int| 0 <= t < ps.len() && t != j ==> #[trigger] ps[t] == WORD_ZERO,
        ps[j] == v,
        forall|t: int| 0 <= t < ps.len() ==> call_ensures(fa, (tr[t], ps[t]), #[trigger] tr[t + 1]),
        add_zero_left(fa),
        add_zero_right(fa),
        0 <= k <= ps.len(),
    ensures
        tr[k] == (if k <= j { WORD_ZERO } else { v }),
    decreases k,
{
    if k > 0 {
        lemma_absorb_trace(fa, ps, tr, j, v, k - 1);
        let t = k - 1;
        assert(call_ensures(fa, (tr[t], ps[t]), tr[t + 1]));
        assert(tr[t + 1] == tr[k]);
    }
}

/// The cell value forced by a multiply-accumulate against a unit column:
/// if the products vanish everywhere but at `j`, the run ends in `xs[j]`.
proof fn lemma_unit_dot<FA: Fn(u64, u64) -> u64, FM: Fn(u64, u64) -> u64>(
    fa: FA,
    fm: FM,
    xs: Seq<u64>,
    es: Seq<u64>,
    j: int,
    r: u64,
    flip: bool,
)
    requires
        0 <= j < xs.len(),
        es.len() == xs.len(),
        forall|t: int| 0 <= t < es.len()
            ==> #[trigger] es[t] == (if t == j { WORD_ONE } else { WORD_ZERO }),
        !flip ==> mul_one_right(fm) && mul_zero_right(fm)
            && dot_links(fa, fm, xs, es, WORD_ZERO, r),
        flip ==> mul_one_left(fm) && mul_zero_left(fm)
            && dot_links(fa, fm, es, xs, WORD_ZERO, r),
        add_zero_left(fa),
        add_zero_right(fa),
    ensures
        r == xs[j],
{
    if !flip {
        let (ps, tr) = choose|ps: Seq<u64>, tr: Seq<u64>|
            #[trigger] dot_trace(fa, fm, xs, es, ps, tr) && tr[0] == WORD_ZERO && tr.last() == r;
        assert forall|t: int| 0 <= t < ps.len() && t != j implies #[trigger] ps[t] == WORD_ZERO by {
            assert(call_ensures(fm, (xs[t], es[t]), ps[t]));
        }
        assert(call_ensures(fm, (xs[j], es[j]), ps[j]));
        assert(ps[j] == xs[j]);
        lemma_absorb_trace(fa, ps, tr, j, xs[j], ps.len() as int);
    } else {
        let (ps, tr) = choose|ps: Seq<u64>, tr: Seq<u64>|
            #[trigger] dot_trace(fa, fm, es, xs, ps, tr) && tr[0] == WORD_ZERO && tr.last() == r;
        assert forall|t: int| 0 <= t < ps.len() && t != j implies #[trigger] ps[t] == WORD_ZERO by {
            assert(call_ensures(fm, (es[t], xs[t]), ps[t]));
        }
        assert(call_ensures(fm, (es[j], xs[j]), ps[j]));
        assert(ps[j] == xs[j]);
        lemma_absorb_trace(fa, ps, tr, j, xs[j], ps.len() as int);
    }
}

/// Column `j` of the `n x n` identity is the unit column at `j`.
proof fn lemma_identity_col(n: int, j: int)
    requires
        0 <= j < n,
    ensures
        forall|t: int| 0 <= t < n
            ==> #[trigger] col_of(identity_seq(n), n, j, n)[t]
                == (if t == j { WORD_ONE } else { WORD_ZERO }),
{
    assert forall|t: int| 0 <= t < n
        implies #[trigger] col_of(identity_seq(n), n, j, n)[t]
            == (if t == j { WORD_ONE } else { WORD_ZERO }) by {
        lemma_flat_index_bound(t, j, n, n);
        vstd::arithmetic::div_mod::lemma_fundamental_div_mod_converse(t * n + j, n, t, j);
        assert(identity_seq(n)[t * n + j] == (if t == j { WORD_ONE } else { WORD_ZERO }));
    }
}

/// Row `i` of the `n x n` identity is the unit row at `i`.
proof fn lemma_identity_row(n: int, i: int)
    requires
        0 <= i < n,
    ensures
        forall|t: int| 0 <= t < n
            ==> #[trigger] row_of(identity_seq(n), n, i)[t]
                == (if t == i { WORD_ONE } else { WORD_ZERO }),
{
    assert forall|t: int| 0 <= t < n
        implies #[trigger] row_of(identity_seq(n), n, i)[t]
            == (if t == i { WORD_ONE } else { WORD_ZERO }) by {
        lemma_flat_index_bound(i, t, n, n);
        vstd::arithmetic::div_mod::lemma_fundamental_div_mod_converse(i * n + t, n, i, t);
        assert(identity_seq(n)[i * n + t] == (if t == i { WORD_ONE } else { WORD_ZERO }));
    }
}

/// A matrix standing in `mul`'s result relation to a square matrix `a` and
/// the identity on `a`'s right is `a` itself, whenever the kernels treat the
/// zero and one words as scalar addition and multiplication must: adding
/// zero changes nothing, multiplying by one changes nothing, multiplying by
/// zero gives zero.  (IEEE kernels satisfy these laws on every word except
/// the negative-zero and non-finite encodings.)
pub proof fn lemma_mul_identity_right<FA: Fn(u64, u64) -> u64, FM: Fn(u64, u64) -> u64>(
    fa: FA,
    fm: FM,
    a: Matrix,
    m: Matrix,
)
    requires
        a.wf(),
        a.rows == a.cols,
        m.wf(),
        m.rows == a.rows,
        m.cols == a.cols,
        mul_one_right(fm),
        mul_zero_right(fm),
        add_zero_left(fa),
        add_zero_right(fa),
        forall|i: int, j: int| 0 <= i < a.rows && 0 <= j < a.cols
            ==> #[trigger] dot_links(
                fa,
                fm,
                row_of(a@, a.cols as int, i),
                col_of(identity_seq(a.cols as int), a.cols as int, j, a.rows as int),
                WORD_ZERO,
                m@[i * a.cols + j],
            ),
    ensures
        m@ == a@,
{
    let n = a.cols as int;
    assert forall|i: int, j: int| #![trigger m@[i * n + j]] 0 <= i < n && 0 <= j < n
        implies m@[i * n + j] == a@[i * n + j] by {
        lemma_flat_index_bound(i, j, n, n);
        lemma_identity_col(n, j);
        let xs = row_of(a@, n, i);
        let es = col_of(identity_seq(n), n, j, n);
        lemma_unit_dot(fa, fm, xs, es, j, m@[i * n + j], false);
        assert(xs[j] == a@[i * n + j]);
    }
    assert forall|t: int| 0 <= t < m@.len() implies m@[t] == a@[t] by {
        lemma_flat_decompose(t, n, n);
        assert(m@[(t / n) * n + (t % n)] == a@[(t / n) * n + (t % n)]);
    }
    assert(m@ =~= a@);
}

/// A matrix standing in `mul`'s result relation to the identity on the left
/// of a square matrix `a` is `a` itself, under the mirrored kernel laws.
pub proof fn lemma_mul_identity_left<FA: Fn(u64, u64) -> u64, FM: Fn(u64, u64) -> u64>(
    fa: FA,
    fm: FM,
    a: Matrix,
    m: Matrix,
)
    requires
        a.wf(),
        a.rows == a.cols,
        m.wf(),
        m.rows == a.rows,
        m.cols == a.cols,
        mul_one_left(fm),
        mul_zero_left(fm),
        add_zero_left(fa),
        add_zero_right(fa),
        forall|i: int, j: int| 0 <= i < a.rows && 0 <= j < a.cols
            ==> #[trigger] dot_links(
                fa,
                fm,
                row_of(identity_seq(a.rows as int), a.rows as int, i),
                col_of(a@, a.cols as int, j, a.rows as int),
                WORD_ZERO,
                m@[i * a.cols + j],
            ),
    ensures
        m@ == a@,
{
    let n = a.cols as int;
    assert forall|i: int, j: int| #![trigger m@[i * n + j]] 0 <= i < n && 0 <= j < n
        implies m@[i * n + j] == a@[i * n + j] by {
        lemma_flat_index_bound(i, j, n, n);
        lemma_identity_row(n, i);
        let xs = col_of(a@, n, j, n);
        let es = row_of(identity_seq(n), n, i);
        assert forall|t: int| 0 <= t < es.len()
            implies #[trigger] es[t] == (if t == i { WORD_ONE } else { WORD_ZERO }) by {
        }
        lemma_unit_dot(fa, fm, xs, es, i, m@[i * n + j], true);
        assert(xs[i] == a@[i * n + j]);
    }
    assert forall|t: int| 0 <= t < m@.len() implies m@[t] == a@[t] by {
        lemma_flat_decompose(t, n, n);
        assert(m@[(t / n) * n + (t % n)] == a@[(t / n) * n + (t % n)]);
    }
    assert(m@ =~= a@);
}

/// An accumulator run over zero words only, started at zero, stays zero.
proof fn lemma_zero_run<FA: Fn(u64, u64) -> u64>(fa: FA, s: Seq<u64>, tr: Seq<u64>, k: int)
    requires
        tr.len() == s.len() + 1,
        tr[0] == WORD_ZERO,
        forall|t: int| 0 <= t < s.len() ==> #[trigger] s[t] == WORD_ZERO,
        forall|t: int| 0 <= t < s.len() ==> call_ensures(fa, (tr[t], s[t]), #[trigger] tr[t + 1]),
        forall|z: u64| #[trigger] call_ensures(fa, (WORD_ZERO, WORD_ZERO), z) ==> z == WORD_ZERO,
        0 <= k <= s.len(),
    ensures
        tr[k] == WORD_ZERO,
    decreases k,
{
    if k > 0 {
        lemma_zero_run(fa, s, tr, k - 1);
        let t = k - 1;
        assert(call_ensures(fa, (tr[t], s[t]), tr[t + 1]));
        assert(tr[t + 1] == tr[k]);
    }
}

/// The distance from a matrix to itself is the zero word, for kernels that
/// behave as real arithmetic does there: subtracting a cell from itself
/// gives zero, and squaring, accumulating and rooting zero give zero.
/// (IEEE kernels satisfy all four premises whenever every cell is finite.)
pub proof fn lemma_distance_self_zero<
    FS: Fn(u64, u64) -> u64,
    FQ: Fn(u64) -> u64,
    FA: Fn(u64, u64) -> u64,
    FR: Fn(u64) -> u64,
>(
    fs: FS,
    square: FQ,
    fa: FA,
    root: FR,
    a: Matrix,
    r: u64,
)
    requires
        forall|t: int, z: u64| 0 <= t < a@.len()
            ==> (#[trigger] call_ensures(fs, (a@[t], a@[t]), z) ==> z == WORD_ZERO),
        forall|z: u64| #[trigger] call_ensures(square, (WORD_ZERO,), z) ==> z == WORD_ZERO,
        forall|z: u64| #[trigger] call_ensures(fa, (WORD_ZERO, WORD_ZERO), z) ==> z == WORD_ZERO,
        forall|z: u64| #[trigger] call_ensures(root, (WORD_ZERO,), z) ==> z == WORD_ZERO,
        exists|d: Seq<u64>|
            #[trigger] elementwise_links(fs, a@, a@, d)
                && magnitude_links(square, fa, root, d, r),
    ensures
        r == WORD_ZERO,
{
    let d = choose|d: Seq<u64>|
        #[trigger] elementwise_links(fs, a@, a@, d) && magnitude_links(square, fa, root, d, r);
    assert forall|t: int| 0 <= t < d.len() implies #[trigger] d[t] == WORD_ZERO by {
        assert(call_ensures(fs, (a@[t], a@[t]), d[t]));
    }
    let (sq, m) = choose|sq: Seq<u64>, m: u64|
        #![trigger fold_links(fa, sq, WORD_ZERO, m)]
        map_links(square, d, sq) && fold_links(fa, sq, WORD_ZERO, m) && call_ensures(root, (m,), r);
    assert forall|t: int| 0 <= t < sq.len() implies #[trigger] sq[t] == WORD_ZERO by {
        assert(call_ensures(square, (d[t],), sq[t]));
    }
    let tr = choose|tr: Seq<u64>|
        #[trigger] fold_trace(fa, sq, tr) && tr[0] == WORD_ZERO && tr.last() == m;
    lemma_zero_run(fa, sq, tr, sq.len() as int);
    assert(m == WORD_ZERO);
}

/// Distance does not depend on the order of its two operands: for kernels
/// where the square of a difference does not see which way the subtraction
/// ran, and whose accumulation and root compute functions, the two
/// magnitudes agree.  (IEEE kernels satisfy the premises: negating a double
/// leaves its square bit-for-bit unchanged.)
pub proof fn lemma_distance_symmetric<
    FS: Fn(u64, u64) -> u64,
    FQ: Fn(u64) -> u64,
    FA: Fn(u64, u64) -> u64,
    FR: Fn(u64) -> u64,
>(
    fs: FS,
    square: FQ,
    fa: FA,
    root: FR,
    a: Matrix,
    b: Matrix,
    r1: u64,
    r2: u64,
)
    requires
        a@.len() == b@.len(),
        deterministic2(fa),
        deterministic1(root),
        forall|x: u64, y: u64, u: u64, v: u64, s1: u64, s2: u64|
            #![trigger call_ensures(fs, (x, y), u), call_ensures(fs, (y, x), v),
                call_ensures(square, (u,), s1), call_ensures(square, (v,), s2)]
            call_ensures(fs, (x, y), u) && call_ensures(fs, (y, x), v)
                && call_ensures(square, (u,), s1) && call_ensures(square, (v,), s2)
            ==> s1 == s2,
        exists|d: Seq<u64>|
            #[trigger] elementwise_links(fs, a@, b@, d)
                && magnitude_links(square, fa, root, d, r1),
        exists|d: Seq<u64>|
            #[trigger] elementwise_links(fs, b@, a@, d)
                && magnitude_links(square, fa, root, d, r2),
    ensures
        r1 == r2,
{
    let dab = choose|d: Seq<u64>|
        #[trigger] elementwise_links(fs, a@, b@, d) && magnitude_links(square, fa, root, d, r1);
    let dba = choose|d: Seq<u64>|
        #[trigger] elementwise_links(fs, b@, a@, d) && magnitude_links(square, fa, root, d, r2);
    let (sq1, m1) = choose|sq: Seq<u64>, m: u64|
        #![trigger fold_links(fa, sq, WORD_ZERO, m)]
        map_links(square, dab, sq) && fold_links(fa, sq, WORD_ZERO, m)
            && call_ensures(root, (m,), r1);
    let (sq2, m2) = choose|sq: Seq<u64>, m: u64|
        #![trigger fold_links(fa, sq, WORD_ZERO, m)]
        map_links(square, dba, sq) && fold_links(fa, sq, WORD_ZERO, m)
            && call_ensures(root, (m,), r2);
    assert forall|i: int| 0 <= i < sq1.len() implies sq1[i] == sq2[i] by {
        assert(call_ensures(fs, (a@[i], b@[i]), dab[i]));
        assert(call_ensures(fs, (b@[i], a@[i]), dba[i]));
        assert(call_ensures(square, (dab[i],), sq1[i]));
        assert(call_ensures(square, (dba[i],), sq2[i]));
    }
    assert(sq1 =~= sq2);
    lemma_fold_links_deterministic(fa, sq1, WORD_ZERO, m1, m2);
    assert(call_ensures(root, (m1,), r2));
}

} // verus!
