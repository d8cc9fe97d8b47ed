//! Aggregate statistics over a single matrix's cells.

use vstd::prelude::*;

use crate::kernel::WORD_ZERO;
use crate::kernel::fold_links;
use crate::kernel::lemma_fold_links_base;
use crate::kernel::lemma_fold_links_push;
use crate::kernel::map_links;
use crate::kernel::total1;
use crate::kernel::total2;
use crate::order::is_sort_of;
use crate::order::sorted_copy;
use crate::structures::Matrix;
use crate::structures::MatrixError;
use crate::structures::PercentileRank;

verus! {

/// How often the word `v` occurs among the cells `s`.
pub open spec fn occurrences(s: Seq<u64>, v: u64) -> nat {
    s.to_multiset().count(v)
}

/// `mx` is the highest occurrence count among the cells `s`: some cell
/// reaches it and none exceeds it.
pub open spec fn is_max_occurrence(s: Seq<u64>, mx: nat) -> bool {
    &&& exists|v: u64| s.contains(v) && #[trigger] occurrences(s, v) == mx
    &&& forall|v: u64| #[trigger] occurrences(s, v) <= mx
}

/// `r` is a possible Euclidean norm of the cells `s`: every cell is squared
/// by `square`, the squares are folded by `fa` from the zero word, and
/// `root` is applied to the total.
pub open spec fn magnitude_links<FS: Fn(u64) -> u64, FA: Fn(u64, u64) -> u64, FR: Fn(u64) -> u64>(
    square: FS,
    fa: FA,
    root: FR,
    s: Seq<u64>,
    r: u64,
) -> bool {
    exists|sq: Seq<u64>, m: u64|
        #![trigger fold_links(fa, sq, WORD_ZERO, m)]
        map_links(square, s, sq) && fold_links(fa, sq, WORD_ZERO, m) && call_ensures(root, (m,), r)
}

/// A rank handed back for `n` sorted cells may only name indices below `n`.
pub open spec fn rank_valid(rk: PercentileRank, n: int) -> bool {
    match rk {
        PercentileRank::OutOfRange => true,
        PercentileRank::Exact(ix) => ix < n,
        PercentileRank::Between(lo, hi) => lo < n && hi < n,
    }
}

impl Matrix {
    /// Fold all cells with the kernel `f` (the caller's scalar addition),
    /// starting from the zero word, in flat storage order.
    pub fn sum<F: Fn(u64, u64) -> u64>(&self, f: F) -> (r: u64)
        requires
            total2(f),
        ensures
            fold_links(f, self@, WORD_ZERO, r),
    {
        let n = self.data.len();
        let mut acc: u64 = WORD_ZERO;
        proof {
            lemma_fold_links_base(f, WORD_ZERO);
            assert(self@.take(0) =~= Seq::<u64>::empty());
        }
        let mut i: usize = 0;
        while i < n
            invariant
                i <= n,
                n == self@.len(),
                total2(f),
                fold_links(f, self@.take(i as int), WORD_ZERO, acc),
            decreases n - i,
        {
            let x = self.data[i];
            let next = f(acc, x);
            proof {
                lemma_fold_links_push(f, self@.take(i as int), WORD_ZERO, acc, x, next);
                assert(self@.take(i as int).push(x) =~= self@.take(i + 1));
            }
            acc = next;
            i += 1;
        }
        proof {
            assert(self@.take(n as int) =~= self@);
        }
        acc
    }

    /// The Euclidean norm of a vector: square every cell, fold the squares,
    /// take the root.  Fails exactly when the matrix is not a vector (no
    /// single row and no single column).
    pub fn magnitude<FS: Fn(u64) -> u64, FA: Fn(u64, u64) -> u64, FR: Fn(u64) -> u64>(
        &self,
        square: FS,
        fa: FA,
        root: FR,
    ) -> (r: Result<u64, MatrixError>)
        requires
            self.wf(),
            total1(square),
            total2(fa),
            total1(root),
        ensures
            match r {
                Ok(w) => (self.rows == 1 || self.cols == 1)
                    && magnitude_links(square, fa, root, self@, w),
                Err(e) => self.rows != 1 && self.cols != 1
                    && e == (MatrixError::ShapeError { rows: self.rows, cols: self.cols }),
            },
    {
        if self.rows != 1 && self.cols != 1 {
            return Err(MatrixError::ShapeError { rows: self.rows, cols: self.cols });
        }
        let squared = self.map(square);
        let total = squared.sum(fa);
        let w = root(total);
        Ok(w)
    }

    /// The median of the cells: sort ascending; an odd count takes the
    /// middle cell, an even count hands the two cells around the midpoint to
    /// `avg` (the caller's two-value average).
    pub fn median<F: Fn(u64, u64) -> u64>(&self, avg: F) -> (r: u64)
        requires
            self@.len() > 0,
            total2(avg),
        ensures
            exists|srt: Seq<u64>| #[trigger] is_sort_of(self@, srt)
                && (if self@.len() % 2 == 1 {
                    r == srt[self@.len() as int / 2]
                } else {
                    call_ensures(avg, (srt[self@.len() as int / 2 - 1], srt[self@.len() as int / 2]), r)
                }),
    {
        let arr = sorted_copy(&self.data);
        let n = arr.len();
        if n % 2 == 0 {
            let lo = arr[n / 2 - 1];
            let hi = arr[n / 2];
            avg(lo, hi)
        } else {
            arr[n / 2]
        }
    }

    /// The percentile of the cells at `level`.  The caller's `rank` kernel
    /// turns the level and the cell count into a selection from the sorted
    /// cells: a rejection (the level is outside the unit range), one exact
    /// index, or two indices whose cells are handed to `avg`.
    pub fn percentile<FK: Fn(u64, usize) -> PercentileRank, FA: Fn(u64, u64) -> u64>(
        &self,
        level: u64,
        rank: FK,
        avg: FA,
    ) -> (r: Result<u64, MatrixError>)
        requires
            self@.len() > 0,
            total2(avg),
            forall|p: u64, n: usize| #[trigger] call_requires(rank, (p, n)),
            forall|p: u64, n: usize, rk: PercentileRank|
                #[trigger] call_ensures(rank, (p, n), rk) ==> rank_valid(rk, n as int),
        ensures
            match r {
                Ok(w) => exists|rk: PercentileRank, srt: Seq<u64>|
                    #![trigger call_ensures(rank, (level, self@.len() as usize), rk), is_sort_of(self@, srt)]
                    call_ensures(rank, (level, self@.len() as usize), rk)
                        && is_sort_of(self@, srt)
                        && (match rk {
                            PercentileRank::OutOfRange => false,
                            PercentileRank::Exact(ix) => w == srt[ix as int],
                            PercentileRank::Between(lo, hi) => call_ensures(avg, (srt[lo as int], srt[hi as int]), w),
                        }),
                Err(e) => e == (MatrixError::RangeError { level })
                    && exists|rk: PercentileRank|
                        #[trigger] call_ensures(rank, (level, self@.len() as usize), rk)
                            && rk == PercentileRank::OutOfRange,
            },
    {
        let n = self.data.len();
        let rk = rank(level, n);
        match rk {
            PercentileRank::OutOfRange => Err(MatrixError::RangeError { level }),
            PercentileRank::Exact(ix) => {
                let arr = sorted_copy(&self.data);
                Ok(arr[ix])
            },
            PercentileRank::Between(lo, hi) => {
                let arr = sorted_copy(&self.data);
                let w = avg(arr[lo], arr[hi]);
                Ok(w)
            },
        }
    }

    /// Every word that occurs as often as any word does: each is listed
    /// once, in no promised order.  An empty matrix has no modes.
    pub fn mode(&self) -> (r: Vec<u64>)
        ensures
            r@.no_duplicates(),
            self@.len() == 0 ==> r@.len() == 0,
            self@.len() > 0 ==> exists|mx: nat| #[trigger] is_max_occurrence(self@, mx)
                && (forall|v: u64| r@.contains(v) <==> occurrences(self@, v) == mx),
    {
        broadcast use vstd::seq_lib::group_to_multiset_ensures;
        broadcast use vstd::multiset::group_multiset_axioms;

        let n = self.data.len();
        if n == 0 {
            let empty: Vec<u64> = Vec::new();
            return empty;
        }
        let mut vals: Vec<u64> = Vec::new();
        let mut counts: Vec<usize> = Vec::new();
        let mut idx: usize = 0;
        while idx < n
            invariant
                idx <= n,
                n == self@.len(),
                vals@.len() == counts@.len(),
                vals@.no_duplicates(),
                forall|v: u64|
                    #![trigger self@.take(idx as int).contains(v)]
                    #![trigger vals@.contains(v)]
                    self@.take(idx as int).contains(v) <==> vals@.contains(v),
                forall|q: int| 0 <= q < vals@.len()
                    ==> #[trigger] counts@[q] == occurrences(self@.take(idx as int), vals@[q]),
                forall|q: int| 0 <= q < counts@.len() ==> #[trigger] counts@[q] <= idx,
            decreases n - idx,
        {
            let w = self.data[idx];
            let ghost prefix = self@.take(idx as int);
            let ghost prefix1 = self@.take(idx as int + 1);
            proof {
                assert(prefix.push(w) =~= prefix1);
                assert(prefix1.to_multiset() == prefix.to_multiset().insert(w)) by {
                    vstd::seq_lib::to_multiset_build(prefix, w);
                }
                assert forall|v: u64| prefix1.contains(v) implies v == w || prefix.contains(v) by {
                    let q = choose|q: int| 0 <= q < prefix1.len() && prefix1[q] == v;
                    if q < prefix.len() {
                        assert(prefix[q] == v);
                    }
                }
            }
            let mut t: usize = 0;
            while t < vals.len() && vals[t] != w
                invariant
                    t <= vals@.len(),
                    forall|q: int| 0 <= q < t ==> vals@[q] != w,
                decreases vals@.len() - t,
            {
                t += 1;
            }
            if t < vals.len() {
                let c = counts[t];
                counts.set(t, c + 1);
                proof {
                    assert(vals@[t as int] == w);
                    assert forall|q: int| 0 <= q < vals@.len()
                        implies #[trigger] counts@[q] == occurrences(prefix1, vals@[q]) by {
                        if q != t {
                            assert(vals@[q] != w);
                        }
                    }
                    assert forall|v: u64| prefix1.contains(v) implies vals@.contains(v) by {
                        if v == w {
                            assert(vals@[t as int] == w);
                        } else {
                            assert(prefix.contains(v));
                        }
                    }
                    assert forall|v: u64| vals@.contains(v) implies prefix1.contains(v) by {
                        assert(prefix.contains(v));
                        let q = choose|q: int| 0 <= q < prefix.len() && prefix[q] == v;
                        assert(prefix1[q] == v);
                    }
                }
            } else {
                let ghost old_vals = vals@;
                vals.push(w);
                counts.push(1);
                proof {
                    assert(!prefix.contains(w)) by {
                        if prefix.contains(w) {
                            assert(old_vals.contains(w));
                            let q = choose|q: int| 0 <= q < old_vals.len() && old_vals[q] == w;
                        }
                    }
                    assert(occurrences(prefix, w) == 0) by {
                        prefix.to_multiset_ensures();
                    }
                    assert forall|q: int| 0 <= q < vals@.len()
                        implies #[trigger] counts@[q] == occurrences(prefix1, vals@[q]) by {
                        if q < vals@.len() - 1 {
                            assert(vals@[q] == old_vals[q]);
                            assert(vals@[q] != w);
                        }
                    }
                    assert forall|x: int, y: int| 0 <= x < vals@.len() && 0 <= y < vals@.len() && x != y
                        implies vals@[x] != vals@[y] by {
                        if x < old_vals.len() && y < old_vals.len() {
                            assert(old_vals[x] == vals@[x] && old_vals[y] == vals@[y]);
                        } else if y == old_vals.len() {
                            assert(vals@[x] == old_vals[x] && vals@[y] == w);
                        } else {
                            assert(vals@[y] == old_vals[y] && vals@[x] == w);
                        }
                    }
                    assert(vals@.no_duplicates());
                    assert forall|v: u64| prefix1.contains(v) implies vals@.contains(v) by {
                        if v == w {
                            assert(vals@[vals@.len() - 1] == w);
                        } else {
                            assert(prefix.contains(v));
                            assert(old_vals.contains(v));
                            let q = choose|q: int| 0 <= q < old_vals.len() && old_vals[q] == v;
                            assert(vals@[q] == v);
                        }
                    }
                    assert forall|v: u64| vals@.contains(v) implies prefix1.contains(v) by {
                        let q = choose|q: int| 0 <= q < vals@.len() && vals@[q] == v;
                        if q < old_vals.len() {
                            assert(old_vals[q] == v);
                            assert(prefix.contains(v));
                            let q2 = choose|q2: int| 0 <= q2 < prefix.len() && prefix[q2] == v;
                            assert(prefix1[q2] == v);
                        } else {
                            assert(v == w);
                            assert(prefix1[prefix1.len() - 1] == w);
                        }
                    }
                }
            }
            idx += 1;
        }
        proof {
            assert(self@.take(n as int) =~= self@);
            assert(self@.contains(self@[0]));
            assert(vals@.contains(self@[0]));
            let q0 = choose|q: int| 0 <= q < vals@.len() && vals@[q] == self@[0];
            assert(vals@.len() > 0);
        }
        let m = vals.len();
        let mut best: usize = counts[0];
        let mut t: usize = 1;
        while t < m
            invariant
                1 <= t <= m,
                m == counts@.len(),
                exists|q: int| 0 <= q < t && #[trigger] counts@[q] == best,
                forall|q: int| 0 <= q < t ==> #[trigger] counts@[q] <= best,
            decreases m - t,
        {
            let c = counts[t];
            if c > best {
                best = c;
            }
            t += 1;
        }
        let mut modes: Vec<u64> = Vec::new();
        let mut t: usize = 0;
        while t < m
            invariant
                t <= m,
                m == counts@.len(),
                vals@.len() == m,
                vals@.no_duplicates(),
                modes@.no_duplicates(),
                forall|v: u64| #[trigger] modes@.contains(v)
                    <==> exists|q: int| 0 <= q < t && vals@[q] == v && #[trigger] counts@[q] == best,
            decreases m - t,
        {
            if counts[t] == best {
                let ghost old_modes = modes@;
                modes.push(vals[t]);
                proof {
                    let last = vals@[t as int];
                    assert(!old_modes.contains(last)) by {
                        if old_modes.contains(last) {
                            let q = choose|q: int| 0 <= q < t && vals@[q] == last && #[trigger] counts@[q] == best;
                        }
                    }
                    assert forall|x: int, y: int| 0 <= x < modes@.len() && 0 <= y < modes@.len() && x != y
                        implies modes@[x] != modes@[y] by {
                        if x < old_modes.len() && y < old_modes.len() {
                            assert(old_modes[x] == modes@[x] && old_modes[y] == modes@[y]);
                        } else if y == old_modes.len() {
                            assert(modes@[y] == last);
                            if modes@[x] == last {
                                assert(old_modes[x] == last);
                            }
                        } else {
                            assert(modes@[x] == last);
                            if modes@[y] == last {
                                assert(old_modes[y] == last);
                            }
                        }
                    }
                    assert(modes@.no_duplicates());
                    assert forall|v: u64| #[trigger] modes@.contains(v)
                        implies exists|q: int| 0 <= q < t + 1 && vals@[q] == v && #[trigger] counts@[q] == best by {
                        let qm = choose|qm: int| 0 <= qm < modes@.len() && modes@[qm] == v;
                        if qm < old_modes.len() {
                            assert(old_modes[qm] == v);
                            assert(old_modes.contains(v));
                        } else {
                            assert(v == last);
                            assert(0 <= t < t + 1 && vals@[t as int] == v && counts@[t as int] == best);
                        }
                    }
                    assert forall|v: u64|
                        (exists|q: int| 0 <= q < t + 1 && vals@[q] == v && #[trigger] counts@[q] == best)
                        implies #[trigger] modes@.contains(v) by {
                        let q = choose|q: int| 0 <= q < t + 1 && vals@[q] == v && counts@[q] == best;
                        if q < t {
                            assert(old_modes.contains(v));
                            let q2 = choose|q2: int| 0 <= q2 < old_modes.len() && old_modes[q2] == v;
                            assert(modes@[q2] == v);
                        } else {
                            assert(modes@[modes@.len() - 1] == last);
                        }
                    }
                }
            } else {
                proof {
                    assert forall|v: u64| #[trigger] modes@.contains(v)
                        implies exists|q: int| 0 <= q < t + 1 && vals@[q] == v && #[trigger] counts@[q] == best by {
                        let q = choose|q: int| 0 <= q < t && vals@[q] == v && #[trigger] counts@[q] == best;
                        assert(0 <= q < t + 1 && vals@[q] == v && counts@[q] == best);
                    }
                    assert forall|v: u64|
                        (exists|q: int| 0 <= q < t + 1 && vals@[q] == v && #[trigger] counts@[q] == best)
                        implies #[trigger] modes@.contains(v) by {
                        let q = choose|q: int| 0 <= q < t + 1 && vals@[q] == v && counts@[q] == best;
                        assert(q != t);
                        assert(exists|q2: int| 0 <= q2 < t && vals@[q2] == v && #[trigger] counts@[q2] == best);
                    }
                }
            }
            t += 1;
        }
        proof {
            let ghost mx = best as nat;
            let q0 = choose|q: int| 0 <= q < m && #[trigger] counts@[q] == best;
            let v0 = vals@[q0];
            assert(vals@.contains(v0));
            assert(self@.take(n as int).contains(v0));
            assert(self@.contains(v0));
            assert(counts@[q0] == occurrences(self@.take(n as int), vals@[q0]));
            assert(self@.take(n as int) == self@);
            assert(occurrences(self@, v0) == mx);
            assert forall|v: u64| #[trigger] occurrences(self@, v) <= mx by {
                if self@.contains(v) {
                    assert(self@.take(n as int).contains(v));
                    assert(vals@.contains(v));
                    let q = choose|q: int| 0 <= q < vals@.len() && vals@[q] == v;
                    assert(counts@[q] == occurrences(self@.take(n as int), vals@[q]));
                    assert(counts@[q] <= best);
                } else {
                    assert(occurrences(self@, v) == 0) by {
                        self@.to_multiset_ensures();
                    }
                }
            }
            assert(is_max_occurrence(self@, mx));
            assert forall|v: u64| modes@.contains(v) <==> #[trigger] occurrences(self@, v) == mx by {
                if modes@.contains(v) {
                    let q = choose|q: int| 0 <= q < m && vals@[q] == v && #[trigger] counts@[q] == best;
                    assert(counts@[q] == occurrences(self@.take(n as int), vals@[q]));
                    assert(occurrences(self@, v) == counts@[q]);
                }
                if occurrences(self@, v) == mx {
                    assert(self@.to_multiset().count(v) > 0) by {
                        self@.to_multiset_ensures();
                    }
                    assert(self@.contains(v)) by {
                        self@.to_multiset_ensures();
                    }
                    assert(self@.take(n as int).contains(v));
                    assert(vals@.contains(v));
                    let q = choose|q: int| 0 <= q < vals@.len() && vals@[q] == v;
                    assert(counts@[q] == occurrences(self@.take(n as int), vals@[q]));
                    assert(counts@[q] == best);
                    assert(exists|q2: int| 0 <= q2 < m && vals@[q2] == v && #[trigger] counts@[q2] == best);
                }
            }
        }
        modes
    }
}

} // verus!
