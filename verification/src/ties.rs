//! Keeping ties: what it is for a rearrangement to leave items with equal keys
//! in the order they had.
//!
//! A rearrangement keeps ties if, for every key, the items with that key are
//! the same, one after the other, before and after.

use vstd::prelude::*;
use crate::item::{Item, remainder};
use crate::order::has_prefix;

verus! {

/// The test whether an item has the key `k`.
pub open spec fn has_key<T: Item>(k: Seq<int>) -> spec_fn(T) -> bool {
    |x: T| x.key() == k
}

/// The test whether the key of an item goes on with `r` after its first
/// `from` units.
pub open spec fn has_remainder<T: Item>(r: Seq<int>, from: usize) -> spec_fn(T) -> bool {
    |x: T| remainder(x, from) == r
}

/// `output` holds the items of `input` that are equal from `from` on in the
/// order they have in `input`: whatever the remainder, the items with that
/// remainder are the same, one after the other, in both.
pub open spec fn keeps_ties<T: Item>(output: Seq<T>, input: Seq<T>, from: usize) -> bool {
    forall|r: Seq<int>|
        #[trigger] output.filter(has_remainder(r, from)) == input.filter(has_remainder(r, from))
}

/// `output` holds the items of `input` that have equal keys in the order they
/// have in `input`: whatever the key, the items with that key are the same,
/// one after the other, in both.
pub open spec fn keeps_order<T: Item>(output: Seq<T>, input: Seq<T>) -> bool {
    forall|k: Seq<int>| #[trigger] output.filter(has_key(k)) == input.filter(has_key(k))
}

/// Where no item passes a test, nothing is left of the items.
pub proof fn lemma_filter_none<A>(s: Seq<A>, pred: spec_fn(A) -> bool)
    requires
        forall|i: int| 0 <= i < s.len() ==> !pred(#[trigger] s[i]),
    ensures
        s.filter(pred) == Seq::<A>::empty(),
    decreases s.len(),
{
    reveal(Seq::filter);
    if s.len() > 0 {
        lemma_filter_none(s.drop_last(), pred);
    } else {
        assert(s =~= Seq::<A>::empty());
    }
}

/// Tests that agree on every item leave the same items.
pub proof fn lemma_filter_agree<A>(s: Seq<A>, p: spec_fn(A) -> bool, q: spec_fn(A) -> bool)
    requires
        forall|i: int| 0 <= i < s.len() ==> p(#[trigger] s[i]) == q(s[i]),
    ensures
        s.filter(p) == s.filter(q),
    decreases s.len(),
{
    reveal(Seq::filter);
    if s.len() > 0 {
        lemma_filter_agree(s.drop_last(), p, q);
    }
}

/// Every arrangement keeps its own order.
pub proof fn lemma_order_reflexive<T: Item>(a: Seq<T>)
    ensures
        keeps_order(a, a),
{
}

/// Keeping the order goes on from one rearrangement to the next.
pub proof fn lemma_order_transitive<T: Item>(a: Seq<T>, b: Seq<T>, c: Seq<T>)
    requires
        keeps_order(a, b),
        keeps_order(b, c),
    ensures
        keeps_order(a, c),
{
    assert forall|k: Seq<int>| #[trigger] a.filter(has_key(k)) == c.filter(has_key(k)) by {
        assert(a.filter(has_key(k)) == b.filter(has_key(k)));
        assert(b.filter(has_key(k)) == c.filter(has_key(k)));
    }
}

/// An item added at the end of both leaves the order kept.
pub proof fn lemma_order_push<T: Item>(a: Seq<T>, b: Seq<T>, item: T)
    requires
        keeps_order(a, b),
    ensures
        keeps_order(a.push(item), b.push(item)),
{
    assert forall|k: Seq<int>| #[trigger]
        a.push(item).filter(has_key(k)) == b.push(item).filter(has_key(k)) by {
        assert(a.filter(has_key(k)) == b.filter(has_key(k)));
        a.lemma_filter_push(item, has_key(k));
        b.lemma_filter_push(item, has_key(k));
    }
}

/// Two pairs that keep the order, one after the other, keep the order.
pub proof fn lemma_order_concat<T: Item>(a: Seq<T>, b: Seq<T>, c: Seq<T>, d: Seq<T>)
    requires
        keeps_order(a, b),
        keeps_order(c, d),
    ensures
        keeps_order(a + c, b + d),
{
    assert forall|k: Seq<int>| #[trigger] (a + c).filter(has_key(k)) == (b + d).filter(
        has_key(k),
    ) by {
        assert(a.filter(has_key(k)) == b.filter(has_key(k)));
        assert(c.filter(has_key(k)) == d.filter(has_key(k)));
        Seq::filter_distributes_over_add(a, c, has_key(k));
        Seq::filter_distributes_over_add(b, d, has_key(k));
    }
}

/// An item that joins the middle one of three runs at its end stands, among
/// the items with its key, where it stands if it joins the last run, as long
/// as the last run holds no item with its key.
pub proof fn lemma_order_joins_run<T: Item>(l: Seq<T>, x: Seq<T>, grown: Seq<T>, r: Seq<T>, item: T)
    requires
        keeps_order(grown, x.push(item)),
        forall|i: int| 0 <= i < r.len() ==> (#[trigger] r[i]).key() != item.key(),
    ensures
        keeps_order(l + grown + r, (l + x + r).push(item)),
{
    assert forall|k: Seq<int>| #[trigger] (l + grown + r).filter(has_key(k)) == (l + x
        + r).push(item).filter(has_key(k)) by {
        let f = has_key::<T>(k);
        assert(grown.filter(f) == x.push(item).filter(f));
        Seq::filter_distributes_over_add(l + grown, r, f);
        Seq::filter_distributes_over_add(l, grown, f);
        Seq::filter_distributes_over_add(l + x, r, f);
        Seq::filter_distributes_over_add(l, x, f);
        x.lemma_filter_push(item, f);
        (l + x + r).lemma_filter_push(item, f);
        if f(item) {
            assert forall|i: int| 0 <= i < r.len() implies !f(#[trigger] r[i]) by {}
            lemma_filter_none(r, f);
            assert(l.filter(f) + x.filter(f).push(item) + Seq::<T>::empty() =~= (l.filter(f)
                + x.filter(f) + Seq::<T>::empty()).push(item));
        }
    }
}

/// Items that begin alike and keep their ties from where they first can
/// differ keep the order of equal keys.
pub proof fn lemma_ties_keep_order<T: Item>(
    output: Seq<T>,
    input: Seq<T>,
    from: usize,
    path: Seq<int>,
)
    requires
        keeps_ties(output, input, from),
        from == path.len(),
        forall|i: int| 0 <= i < output.len() ==> has_prefix((#[trigger] output[i]).key(), path),
        forall|i: int| 0 <= i < input.len() ==> has_prefix((#[trigger] input[i]).key(), path),
    ensures
        keeps_order(output, input),
{
    assert forall|k: Seq<int>| #[trigger] output.filter(has_key(k)) == input.filter(
        has_key(k),
    ) by {
        let by_key = has_key::<T>(k);
        if has_prefix(k, path) {
            let r = k.skip(from as int);
            let by_rest = has_remainder::<T>(r, from);
            assert(output.filter(by_rest) == input.filter(by_rest));
            assert forall|x: T| has_prefix(x.key(), path) implies by_key(x) == by_rest(x) by {
                if remainder(x, from) == r {
                    assert(x.key() =~= k) by {
                        assert(remainder(x, from).len() == x.key().len() - from);
                        assert(r.len() == k.len() - from);
                        assert forall|j: int| 0 <= j < k.len() implies x.key()[j] == k[j] by {
                            if j >= from {
                                assert(remainder(x, from)[j - from] == r[j - from]);
                            }
                        }
                    }
                }
            }
            lemma_filter_agree(output, by_key, by_rest);
            lemma_filter_agree(input, by_key, by_rest);
        } else {
            lemma_filter_none(output, by_key);
            lemma_filter_none(input, by_key);
        }
    }
}

} // verus!
