//! Relating matrix results to caller-supplied scalar kernels.
//!
//! A kernel is a closure over scalar words.  The library never fixes what a
//! kernel computes; each operation's contract only promises that every result
//! cell is related to the right operand cells by the kernel's own `ensures`,
//! through the predicates below.  An accumulation (a sum, a dot product) is
//! described by a *trace*: the sequence of partial accumulators the loop ran
//! through, each linked to the next by the kernel.

use vstd::prelude::*;

verus! {

/// The word every accumulation starts from.  In the IEEE-754 reading this is
/// the encoding of positive zero.
pub const WORD_ZERO: u64 = 0;

/// The IEEE-754 double-precision encoding of one.  Only `identity` places
/// this word; the library never computes with it.
pub const WORD_ONE: u64 = 0x3FF0_0000_0000_0000;

/// A binary kernel that may be applied to any pair of words.
pub open spec fn total2<F: Fn(u64, u64) -> u64>(f: F) -> bool {
    forall|x: u64, y: u64| #[trigger] call_requires(f, (x, y))
}

/// A unary kernel that may be applied to any word.
pub open spec fn total1<F: Fn(u64) -> u64>(f: F) -> bool {
    forall|x: u64| #[trigger] call_requires(f, (x,))
}

/// A binary kernel that computes a function: equal arguments give equal
/// results.
pub open spec fn deterministic2<F: Fn(u64, u64) -> u64>(f: F) -> bool {
    forall|x: u64, y: u64, z1: u64, z2: u64|
        #![trigger call_ensures(f, (x, y), z1), call_ensures(f, (x, y), z2)]
        call_ensures(f, (x, y), z1) && call_ensures(f, (x, y), z2) ==> z1 == z2
}

/// A unary kernel that computes a function: equal arguments give equal
/// results.
pub open spec fn deterministic1<F: Fn(u64) -> u64>(f: F) -> bool {
    forall|x: u64, z1: u64, z2: u64|
        #![trigger call_ensures(f, (x,), z1), call_ensures(f, (x,), z2)]
        call_ensures(f, (x,), z1) && call_ensures(f, (x,), z2) ==> z1 == z2
}

/// `out` is a possible result of combining `a` and `b` cell by cell with `f`.
pub open spec fn elementwise_links<F: Fn(u64, u64) -> u64>(
    f: F,
    a: Seq<u64>,
    b: Seq<u64>,
    out: Seq<u64>,
) -> bool {
    &&& out.len() == a.len()
    &&& b.len() == a.len()
    &&& forall|i: int| 0 <= i < a.len() ==> call_ensures(f, (a[i], b[i]), #[trigger] out[i])
}

/// `out` is a possible result of applying `f` to every cell of `a`.
pub open spec fn map_links<F: Fn(u64) -> u64>(f: F, a: Seq<u64>, out: Seq<u64>) -> bool {
    &&& out.len() == a.len()
    &&& forall|i: int| 0 <= i < a.len() ==> call_ensures(f, (a[i],), #[trigger] out[i])
}

/// `tr` is a run of partial accumulators for folding `f` over `s`: it is one
/// longer than `s`, and step `k` turns `tr[k]` into `tr[k + 1]` by combining
/// in `s[k]`.
pub open spec fn fold_trace<F: Fn(u64, u64) -> u64>(f: F, s: Seq<u64>, tr: Seq<u64>) -> bool {
    &&& tr.len() == s.len() + 1
    &&& forall|k: int| 0 <= k < s.len() ==> call_ensures(f, (tr[k], s[k]), #[trigger] tr[k + 1])
}

/// `r` is a possible result of folding `f` over `s` from the left, starting
/// at `acc`: some run of partial accumulators starts at `acc` and ends at
/// `r`.
pub open spec fn fold_links<F: Fn(u64, u64) -> u64>(f: F, s: Seq<u64>, acc: u64, r: u64) -> bool {
    exists|tr: Seq<u64>| #[trigger] fold_trace(f, s, tr) && tr[0] == acc && tr.last() == r
}

/// Folding over no words leaves the accumulator.
pub proof fn lemma_fold_links_base<F: Fn(u64, u64) -> u64>(f: F, acc: u64)
    ensures
        fold_links(f, Seq::<u64>::empty(), acc, acc),
{
    let tr = seq![acc];
    assert(fold_trace(f, Seq::<u64>::empty(), tr));
}

/// One more fold step extends a fold run.
pub proof fn lemma_fold_links_push<F: Fn(u64, u64) -> u64>(
    f: F,
    s: Seq<u64>,
    acc: u64,
    m: u64,
    x: u64,
    r: u64,
)
    requires
        fold_links(f, s, acc, m),
        call_ensures(f, (m, x), r),
    ensures
        fold_links(f, s.push(x), acc, r),
{
    let tr = choose|tr: Seq<u64>| #[trigger] fold_trace(f, s, tr) && tr[0] == acc && tr.last() == m;
    let tr1 = tr.push(r);
    assert forall|k: int| 0 <= k < s.push(x).len()
        implies call_ensures(f, (tr1[k], s.push(x)[k]), #[trigger] tr1[k + 1]) by {
        if k < s.len() {
            assert(call_ensures(f, (tr[k], s[k]), tr[k + 1]));
        }
    }
    assert(fold_trace(f, s.push(x), tr1));
    assert(tr1[0] == acc && tr1.last() == r);
}

/// Two runs of a fold over the same words from the same start agree at
/// every step, when the kernel computes a function.
proof fn lemma_fold_trace_agree<F: Fn(u64, u64) -> u64>(
    f: F,
    s: Seq<u64>,
    tr1: Seq<u64>,
    tr2: Seq<u64>,
    k: int,
)
    requires
        deterministic2(f),
        fold_trace(f, s, tr1),
        fold_trace(f, s, tr2),
        tr1[0] == tr2[0],
        0 <= k <= s.len(),
    ensures
        tr1[k] == tr2[k],
    decreases k,
{
    if k > 0 {
        lemma_fold_trace_agree(f, s, tr1, tr2, k - 1);
        let t = k - 1;
        assert(call_ensures(f, (tr1[t], s[t]), tr1[t + 1]));
        assert(call_ensures(f, (tr2[t], s[t]), tr2[t + 1]));
        assert(tr1[t + 1] == tr2[t + 1]);
    }
}

/// With a kernel that computes a function, a fold has only one result: the
/// relational contract of `sum` then pins one word.
pub proof fn lemma_fold_links_deterministic<F: Fn(u64, u64) -> u64>(
    f: F,
    s: Seq<u64>,
    acc: u64,
    r1: u64,
    r2: u64,
)
    requires
        deterministic2(f),
        fold_links(f, s, acc, r1),
        fold_links(f, s, acc, r2),
    ensures
        r1 == r2,
{
    let tr1 = choose|tr: Seq<u64>| #[trigger] fold_trace(f, s, tr) && tr[0] == acc && tr.last() == r1;
    let tr2 = choose|tr: Seq<u64>| #[trigger] fold_trace(f, s, tr) && tr[0] == acc && tr.last() == r2;
    lemma_fold_trace_agree(f, s, tr1, tr2, s.len() as int);
}

/// `ps` and `tr` are runs for a multiply-accumulate over the equal-length
/// sequences `a` and `b`: `ps[k]` is a product of `a[k]` and `b[k]` under
/// `fm`, and step `k` folds `ps[k]` into the accumulator under `fa`.
pub open spec fn dot_trace<FA: Fn(u64, u64) -> u64, FM: Fn(u64, u64) -> u64>(
    fa: FA,
    fm: FM,
    a: Seq<u64>,
    b: Seq<u64>,
    ps: Seq<u64>,
    tr: Seq<u64>,
) -> bool {
    &&& a.len() == b.len()
    &&& ps.len() == a.len()
    &&& tr.len() == a.len() + 1
    &&& forall|k: int| 0 <= k < a.len() ==> call_ensures(fm, (a[k], b[k]), #[trigger] ps[k])
    &&& forall|k: int| 0 <= k < a.len() ==> call_ensures(fa, (tr[k], ps[k]), #[trigger] tr[k + 1])
}

/// `r` is a possible multiply-accumulate of `a` and `b` starting from `acc`:
/// some run of products and partial accumulators starts at `acc` and ends at
/// `r`.
pub open spec fn dot_links<FA: Fn(u64, u64) -> u64, FM: Fn(u64, u64) -> u64>(
    fa: FA,
    fm: FM,
    a: Seq<u64>,
    b: Seq<u64>,
    acc: u64,
    r: u64,
) -> bool {
    exists|ps: Seq<u64>, tr: Seq<u64>|
        #[trigger] dot_trace(fa, fm, a, b, ps, tr) && tr[0] == acc && tr.last() == r
}

/// A multiply-accumulate over no words leaves the accumulator.
pub proof fn lemma_dot_links_base<FA: Fn(u64, u64) -> u64, FM: Fn(u64, u64) -> u64>(
    fa: FA,
    fm: FM,
    acc: u64,
)
    ensures
        dot_links(fa, fm, Seq::<u64>::empty(), Seq::<u64>::empty(), acc, acc),
{
    let ps = Seq::<u64>::empty();
    let tr = seq![acc];
    assert(dot_trace(fa, fm, Seq::<u64>::empty(), Seq::<u64>::empty(), ps, tr));
}

/// One more multiply-accumulate step extends a run.
pub proof fn lemma_dot_links_push<FA: Fn(u64, u64) -> u64, FM: Fn(u64, u64) -> u64>(
    fa: FA,
    fm: FM,
    a: Seq<u64>,
    b: Seq<u64>,
    acc: u64,
    m: u64,
    x: u64,
    y: u64,
    p: u64,
    r: u64,
)
    requires
        dot_links(fa, fm, a, b, acc, m),
        call_ensures(fm, (x, y), p),
        call_ensures(fa, (m, p), r),
    ensures
        dot_links(fa, fm, a.push(x), b.push(y), acc, r),
{
    let (ps, tr) = choose|ps: Seq<u64>, tr: Seq<u64>|
        #[trigger] dot_trace(fa, fm, a, b, ps, tr) && tr[0] == acc && tr.last() == m;
    let ps1 = ps.push(p);
    let tr1 = tr.push(r);
    assert forall|k: int| 0 <= k < a.push(x).len()
        implies call_ensures(fm, (a.push(x)[k], b.push(y)[k]), #[trigger] ps1[k]) by {
        if k < a.len() {
            assert(call_ensures(fm, (a[k], b[k]), ps[k]));
        }
    }
    assert forall|k: int| 0 <= k < a.push(x).len()
        implies call_ensures(fa, (tr1[k], ps1[k]), #[trigger] tr1[k + 1]) by {
        if k < a.len() {
            assert(call_ensures(fa, (tr[k], ps[k]), tr[k + 1]));
        }
    }
    assert(dot_trace(fa, fm, a.push(x), b.push(y), ps1, tr1));
    assert(tr1[0] == acc && tr1.last() == r);
}

} // verus!
