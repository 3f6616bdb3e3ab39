//! Lexicographic order on keys.
//!
//! A key is a finite sequence of integers, one per radix unit of an item. Every
//! sort in this crate orders its items by the lexicographic order of their keys:
//! a key comes first if it is a prefix of the other, or if it holds the smaller
//! unit at the first position where the two differ.

use vstd::prelude::*;

verus! {

/// The first `n` units of `a` and `b` exist and are equal.
pub open spec fn agree(a: Seq<int>, b: Seq<int>, n: int) -> bool {
    &&& 0 <= n <= a.len()
    &&& n <= b.len()
    &&& forall|j: int| 0 <= j < n ==> a[j] == b[j]
}

/// `p` is a prefix of `a`.
pub open spec fn has_prefix(a: Seq<int>, p: Seq<int>) -> bool {
    agree(a, p, p.len() as int)
}

/// `a` and `b` agree before position `k`, where `a` holds the smaller unit.
pub open spec fn splits_at(a: Seq<int>, b: Seq<int>, k: int) -> bool {
    &&& agree(a, b, k)
    &&& k < a.len()
    &&& k < b.len()
    &&& a[k] < b[k]
}

/// `a` comes strictly before `b`.
pub open spec fn lex_lt(a: Seq<int>, b: Seq<int>) -> bool {
    ||| (a.len() < b.len() && has_prefix(b, a))
    ||| exists|k: int| splits_at(a, b, k)
}

/// `a` comes before `b`, or equals it.
pub open spec fn lex_le(a: Seq<int>, b: Seq<int>) -> bool {
    ||| has_prefix(b, a)
    ||| exists|k: int| splits_at(a, b, k)
}

/// Every key in `keys` comes before all the keys that follow it.
pub open spec fn sorted(keys: Seq<Seq<int>>) -> bool {
    forall|i: int, j: int| 0 <= i < j < keys.len() ==> lex_le(keys[i], keys[j])
}

/// Every key comes before or equals itself.
pub proof fn lemma_le_reflexive(a: Seq<int>)
    ensures
        lex_le(a, a),
{
}

/// A key comes before or equals another just when it comes strictly before
/// it or is the same key.
pub proof fn lemma_le_is_lt_or_equal(a: Seq<int>, b: Seq<int>)
    ensures
        lex_le(a, b) <==> (lex_lt(a, b) || a == b),
{
    if has_prefix(b, a) && a.len() == b.len() {
        assert(a =~= b);
    }
}

/// Two keys that split at `k` agree nowhere beyond it: any other split point is `k`.
proof fn lemma_split_unique(a: Seq<int>, b: Seq<int>, k: int, m: int)
    requires
        splits_at(a, b, k),
        splits_at(b, a, m) || splits_at(a, b, m) || agree(a, b, m),
    ensures
        splits_at(b, a, m) ==> false,
        splits_at(a, b, m) ==> m == k,
        agree(a, b, m) ==> m <= k,
{
}

/// A key that comes strictly before another is a different key, and the other
/// does not come before it.
pub proof fn lemma_lt_irreflexive(a: Seq<int>, b: Seq<int>)
    requires
        lex_lt(a, b),
    ensures
        a != b,
        !lex_le(b, a),
{
    if exists|k: int| splits_at(a, b, k) {
        let k = choose|k: int| splits_at(a, b, k);
        if exists|m: int| splits_at(b, a, m) {
            let m = choose|m: int| splits_at(b, a, m);
            lemma_split_unique(a, b, k, m);
        }
    } else {
        if exists|m: int| splits_at(b, a, m) {
            let m = choose|m: int| splits_at(b, a, m);
        }
    }
}

/// Two keys that each come before or equal the other are the same key.
pub proof fn lemma_le_antisymmetric(a: Seq<int>, b: Seq<int>)
    requires
        lex_le(a, b),
        lex_le(b, a),
    ensures
        a == b,
{
    lemma_le_is_lt_or_equal(a, b);
    if lex_lt(a, b) {
        lemma_lt_irreflexive(a, b);
    }
}

/// The first position at which `a` and `b` differ, or the length of the shorter
/// one if it is a prefix of the other.
pub open spec fn first_difference(a: Seq<int>, b: Seq<int>) -> int
    decreases a.len(),
{
    if a.len() == 0 || b.len() == 0 || a[0] != b[0] {
        0
    } else {
        1 + first_difference(a.skip(1), b.skip(1))
    }
}

proof fn lemma_first_difference(a: Seq<int>, b: Seq<int>)
    ensures
        agree(a, b, first_difference(a, b)),
        first_difference(a, b) < a.len() && first_difference(a, b) < b.len() ==> a[first_difference(
            a,
            b,
        )] != b[first_difference(a, b)],
    decreases a.len(),
{
    if a.len() == 0 || b.len() == 0 || a[0] != b[0] {
    } else {
        lemma_first_difference(a.skip(1), b.skip(1));
        let d = first_difference(a.skip(1), b.skip(1));
        assert forall|j: int| 0 <= j < d + 1 implies a[j] == b[j] by {
            if j > 0 {
                assert(a.skip(1)[j - 1] == b.skip(1)[j - 1]);
            }
        }
        if d + 1 < a.len() && d + 1 < b.len() {
            assert(a.skip(1)[d] == a[d + 1]);
            assert(b.skip(1)[d] == b[d + 1]);
        }
    }
}

/// Of two keys one comes before or equals the other.
pub proof fn lemma_le_total(a: Seq<int>, b: Seq<int>)
    ensures
        lex_le(a, b) || lex_le(b, a),
{
    lemma_first_difference(a, b);
    let d = first_difference(a, b);
    if d < a.len() && d < b.len() {
        if a[d] < b[d] {
            assert(splits_at(a, b, d));
        } else {
            assert forall|j: int| 0 <= j < d implies b[j] == a[j] by {}
            assert(splits_at(b, a, d));
        }
    } else if d == a.len() {
        assert(has_prefix(b, a));
    } else {
        assert(has_prefix(a, b));
    }
}

/// A key that comes before a second, which comes before a third, comes before
/// the third.
pub proof fn lemma_le_transitive(a: Seq<int>, b: Seq<int>, c: Seq<int>)
    requires
        lex_le(a, b),
        lex_le(b, c),
    ensures
        lex_le(a, c),
{
    if has_prefix(b, a) {
        if has_prefix(c, b) {
            assert(has_prefix(c, a));
        } else {
            let m = choose|m: int| splits_at(b, c, m);
            if m < a.len() {
                assert(splits_at(a, c, m));
            } else {
                assert(has_prefix(c, a));
            }
        }
    } else {
        let k = choose|k: int| splits_at(a, b, k);
        if has_prefix(c, b) {
            assert(splits_at(a, c, k));
        } else {
            let m = choose|m: int| splits_at(b, c, m);
            if m <= k {
                assert(splits_at(a, c, m));
            } else {
                assert(splits_at(a, c, k));
            }
        }
    }
}

/// A key that equals the common prefix comes before every key that has the prefix.
pub proof fn lemma_prefix_comes_first(p: Seq<int>, a: Seq<int>)
    requires
        has_prefix(a, p),
    ensures
        lex_le(p, a),
{
}

/// Of two keys with a common prefix, the one with the smaller next unit comes first.
pub proof fn lemma_smaller_branch_comes_first(a: Seq<int>, b: Seq<int>, p: Seq<int>)
    requires
        has_prefix(a, p),
        has_prefix(b, p),
        p.len() < a.len(),
        p.len() < b.len(),
        a[p.len() as int] < b[p.len() as int],
    ensures
        lex_le(a, b),
        lex_lt(a, b),
{
    assert(splits_at(a, b, p.len() as int));
}

/// Keys that agree on their first `n` units are ordered as their remainders are.
pub proof fn lemma_order_by_remainder(a: Seq<int>, b: Seq<int>, n: int)
    requires
        agree(a, b, n),
    ensures
        lex_le(a, b) <==> lex_le(a.skip(n), b.skip(n)),
{
    let ra = a.skip(n);
    let rb = b.skip(n);
    if lex_le(a, b) {
        if has_prefix(b, a) {
            assert(has_prefix(rb, ra)) by {
                assert forall|j: int| 0 <= j < ra.len() implies rb[j] == ra[j] by {
                    assert(b[j + n] == a[j + n]);
                }
            }
        } else {
            let k = choose|k: int| splits_at(a, b, k);
            assert(k >= n);
            assert(splits_at(ra, rb, k - n)) by {
                assert forall|j: int| 0 <= j < k - n implies ra[j] == rb[j] by {
                    assert(a[j + n] == b[j + n]);
                }
            }
        }
    }
    if lex_le(ra, rb) {
        if has_prefix(rb, ra) {
            assert(has_prefix(b, a)) by {
                assert forall|j: int| 0 <= j < a.len() implies b[j] == a[j] by {
                    if j >= n {
                        assert(rb[j - n] == ra[j - n]);
                    }
                }
            }
        } else {
            let k = choose|k: int| splits_at(ra, rb, k);
            assert(splits_at(a, b, k + n)) by {
                assert forall|j: int| 0 <= j < k + n implies a[j] == b[j] by {
                    if j >= n {
                        assert(ra[j - n] == rb[j - n]);
                    }
                }
            }
        }
    }
}

/// A sorted sequence of keys is determined by the keys it holds.
pub proof fn lemma_sorted_unique(x: Seq<Seq<int>>, y: Seq<Seq<int>>)
    requires
        sorted(x),
        sorted(y),
        x.to_multiset() == y.to_multiset(),
    ensures
        x == y,
    decreases x.len(),
{
    broadcast use vstd::seq_lib::group_to_multiset_ensures;

    assert(x.len() == x.to_multiset().len());
    assert(y.len() == y.to_multiset().len());
    if x.len() > 0 {
        let n = x.len() - 1;
        assert(y.to_multiset().count(x[n]) > 0);
        assert(x.to_multiset().count(y[n]) > 0);
        let i = choose|i: int| 0 <= i < y.len() && y[i] == x[n];
        let j = choose|j: int| 0 <= j < x.len() && x[j] == y[n];
        assert(lex_le(x[n], y[n])) by {
            if i < n {
                assert(lex_le(y[i], y[n]));
            }
        }
        assert(lex_le(y[n], x[n])) by {
            if j < n {
                assert(lex_le(x[j], x[n]));
            }
        }
        lemma_le_antisymmetric(x[n], y[n]);
        assert(x.remove(n) =~= x.drop_last());
        assert(y.remove(n) =~= y.drop_last());
        lemma_sorted_unique(x.drop_last(), y.drop_last());
        assert(x =~= x.drop_last().push(x[n]));
        assert(y =~= y.drop_last().push(y[n]));
    }
}

} // verus!
