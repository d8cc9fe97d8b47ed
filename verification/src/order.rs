//! A total order on scalar words, and sorting under it.
//!
//! Words are ordered by the IEEE-754 total-order key: the sign bit of a
//! positive encoding is flipped, a negative encoding is complemented.  On
//! encodings of doubles this places every negative number below every
//! non-negative one and agrees with numeric order wherever numeric order is
//! defined; the order is total, so sorting never has to interpret a word
//! numerically.

use vstd::prelude::*;

verus! {

/// The sign bit of a 64-bit scalar encoding.
pub const SIGN_BIT: u64 = 0x8000_0000_0000_0000;

/// All 64 bits set; complementing with it reverses unsigned order.
pub const ALL_BITS: u64 = 0xFFFF_FFFF_FFFF_FFFF;

/// The IEEE-754 total-order key of a word: unsigned comparison of keys is
/// the total order on the words themselves.
pub open spec fn key_of(w: u64) -> u64 {
    if w < SIGN_BIT {
        w ^ SIGN_BIT
    } else {
        w ^ ALL_BITS
    }
}

/// `a` comes no later than `b` in the total order.
pub open spec fn word_le(a: u64, b: u64) -> bool {
    key_of(a) <= key_of(b)
}

/// The sequence is ascending in the total order.
pub open spec fn sorted_words(s: Seq<u64>) -> bool {
    forall|i: int, j: int| 0 <= i < j < s.len() ==> word_le(s[i], s[j])
}

/// `t` is the ascending rearrangement of `s`.
pub open spec fn is_sort_of(s: Seq<u64>, t: Seq<u64>) -> bool {
    t.to_multiset() == s.to_multiset() && sorted_words(t)
}

/// Compute the total-order key of a word.
pub fn word_key(w: u64) -> (k: u64)
    ensures
        k == key_of(w),
{
    if w < SIGN_BIT {
        w ^ SIGN_BIT
    } else {
        w ^ ALL_BITS
    }
}

/// The total-order key is one-to-one: distinct words have distinct keys.
pub proof fn lemma_key_injective(a: u64, b: u64)
    requires
        key_of(a) == key_of(b),
    ensures
        a == b,
{
    if a < SIGN_BIT && b < SIGN_BIT {
        assert(a ^ 0x8000_0000_0000_0000 == b ^ 0x8000_0000_0000_0000 ==> a == b) by (bit_vector);
    } else if a >= SIGN_BIT && b >= SIGN_BIT {
        assert(a ^ 0xFFFF_FFFF_FFFF_FFFF == b ^ 0xFFFF_FFFF_FFFF_FFFF ==> a == b) by (bit_vector);
    } else if a < SIGN_BIT {
        assert(a < 0x8000_0000_0000_0000 && b >= 0x8000_0000_0000_0000
            ==> a ^ 0x8000_0000_0000_0000 != b ^ 0xFFFF_FFFF_FFFF_FFFF) by (bit_vector);
    } else {
        assert(b < 0x8000_0000_0000_0000 && a >= 0x8000_0000_0000_0000
            ==> b ^ 0x8000_0000_0000_0000 != a ^ 0xFFFF_FFFF_FFFF_FFFF) by (bit_vector);
    }
}

/// The ascending rearrangement of a sequence is unique: the contracts that
/// speak of *some* sorted rearrangement (median, percentile) pin exactly one
/// sequence.
pub proof fn lemma_sort_of_unique(s: Seq<u64>, t1: Seq<u64>, t2: Seq<u64>)
    requires
        is_sort_of(s, t1),
        is_sort_of(s, t2),
    ensures
        t1 == t2,
{
    let leq = |a: u64, b: u64| word_le(a, b);
    assert(vstd::relations::antisymmetric(leq)) by {
        assert forall|x: u64, y: u64| #[trigger] leq(x, y) && #[trigger] leq(y, x)
            implies x == y by {
            lemma_key_injective(x, y);
        }
    }
    assert(vstd::relations::total_ordering(leq));
    assert(vstd::relations::sorted_by(t1, leq));
    assert(vstd::relations::sorted_by(t2, leq));
    vstd::seq_lib::lemma_sorted_unique(t1, t2, leq);
    assert(t1 =~= t2);
}

/// Exchanging two cells of a sequence keeps its multiset of words.
proof fn lemma_swap_preserves_multiset(s: Seq<u64>, i: int, j: int)
    requires
        0 <= i < s.len(),
        0 <= j < s.len(),
        i != j,
    ensures
        s.update(i, s[j]).update(j, s[i]).to_multiset() == s.to_multiset(),
{
    broadcast use vstd::seq_lib::group_to_multiset_ensures;
    broadcast use vstd::multiset::group_multiset_axioms;

    let x = s[i];
    let y = s[j];
    let s1 = s.update(i, y);
    assert(s.contains(x) && s.contains(y));
    assert(s.to_multiset().count(x) > 0 && s.to_multiset().count(y) > 0);
    assert(s1.to_multiset() == s.to_multiset().insert(y).remove(x));
    assert(s1[j] == y);
    assert(s1.update(j, x).to_multiset() == s1.to_multiset().insert(x).remove(y));
    assert(s.to_multiset().insert(y).remove(x).insert(x).remove(y) =~= s.to_multiset());
}

/// A sorted copy of the words of `v`; `v` itself is left as it is.
pub fn sorted_copy(v: &Vec<u64>) -> (r: Vec<u64>)
    ensures
        is_sort_of(v@, r@),
        r@.len() == v@.len(),
{
    let mut c: Vec<u64> = Vec::new();
    let mut i: usize = 0;
    while i < v.len()
        invariant
            i <= v@.len(),
            c@ == v@.subrange(0, i as int),
        decreases v@.len() - i,
    {
        c.push(v[i]);
        i += 1;
    }
    assert(c@ =~= v@);
    sort_words(c)
}

/// Sort the words of `v` ascending in the total order.
pub fn sort_words(v: Vec<u64>) -> (r: Vec<u64>)
    ensures
        is_sort_of(v@, r@),
        r@.len() == v@.len(),
{
    let mut a = v;
    let ghost orig = a@;
    let mut i: usize = 1;
    while i < a.len()
        invariant
            a@.len() == orig.len(),
            a@.to_multiset() == orig.to_multiset(),
            forall|p: int, q: int| 0 <= p < q < i && q < a@.len() ==> word_le(a@[p], a@[q]),
        decreases a@.len() - i,
    {
        let mut j: usize = i;
        while j > 0 && word_key(a[j - 1]) > word_key(a[j])
            invariant
                j <= i < a@.len(),
                a@.len() == orig.len(),
                a@.to_multiset() == orig.to_multiset(),
                forall|p: int, q: int| 0 <= p < q <= i && q != j ==> word_le(a@[p], a@[q]),
            decreases j,
        {
            let ghost before = a@;
            let x = a[j - 1];
            let y = a[j];
            a.set(j - 1, y);
            a.set(j, x);
            proof {
                assert(a@ == before.update(j - 1, y).update(j as int, x));
                lemma_swap_preserves_multiset(before, j - 1, j as int);
            }
            j -= 1;
        }
        proof {
            assert forall|p: int, q: int| 0 <= p < q < i + 1 && q < a@.len()
                implies word_le(a@[p], a@[q]) by {
                if q == j && j > 0 {
                    assert(word_le(a@[j - 1], a@[j as int]));
                    if p < j - 1 {
                        assert(word_le(a@[p], a@[j - 1]));
                    }
                }
            }
        }
        i += 1;
    }
    a
}

} // verus!
