//! What can be sorted: values that expose a key, one radix unit at a time.

use vstd::prelude::*;
use crate::order::{lex_le, sorted, splits_at, has_prefix, agree};
use crate::order::lemma_lt_irreflexive;

verus! {

/// A value with a key: a finite sequence of radix units, read one at a time.
///
/// The engines never change an item; they read its units to route it through
/// the trie and to order it inside a bucket.
pub trait Item: Sized {
    /// The units of the item, first to last.
    spec fn key(&self) -> Seq<int>;

    /// The number of units.
    fn unit_count(&self) -> (count: usize)
        ensures
            count == self.key().len(),
    ;

    /// The unit at position `at`.
    fn unit_at(&self, at: usize) -> (unit: usize)
        requires
            at < self.key().len(),
        ensures
            unit == self.key()[at as int],
    ;
}

/// The bytes of `bytes` as units.
pub open spec fn byte_units(bytes: Seq<u8>) -> Seq<int> {
    Seq::new(bytes.len(), |i: int| bytes[i] as int)
}

/// A string is keyed by the bytes of its UTF-8 encoding.
impl Item for String {
    open spec fn key(&self) -> Seq<int> {
        byte_units(vstd::utf8::encode_utf8(self@))
    }

    fn unit_count(&self) -> (count: usize) {
        self.as_str().as_bytes().len()
    }

    fn unit_at(&self, at: usize) -> (unit: usize) {
        self.as_str().as_bytes()[at] as usize
    }
}

/// A string slice is keyed by the bytes of its UTF-8 encoding.
impl<'a> Item for &'a str {
    open spec fn key(&self) -> Seq<int> {
        byte_units(vstd::utf8::encode_utf8(self@))
    }

    fn unit_count(&self) -> (count: usize) {
        self.as_bytes().len()
    }

    fn unit_at(&self, at: usize) -> (unit: usize) {
        self.as_bytes()[at] as usize
    }
}

/// A byte vector is keyed by its bytes.
impl Item for Vec<u8> {
    open spec fn key(&self) -> Seq<int> {
        byte_units(self@)
    }

    fn unit_count(&self) -> (count: usize) {
        self.len()
    }

    fn unit_at(&self, at: usize) -> (unit: usize) {
        self[at] as usize
    }
}

/// A vector of 16-bit numbers is keyed by its numbers.
impl Item for Vec<u16> {
    open spec fn key(&self) -> Seq<int> {
        Seq::new(self@.len(), |i: int| self@[i] as int)
    }

    fn unit_count(&self) -> (count: usize) {
        self.len()
    }

    fn unit_at(&self, at: usize) -> (unit: usize) {
        self[at] as usize
    }
}

/// A vector of 32-bit numbers is keyed by its numbers.
impl Item for Vec<u32> {
    open spec fn key(&self) -> Seq<int> {
        Seq::new(self@.len(), |i: int| self@[i] as int)
    }

    fn unit_count(&self) -> (count: usize) {
        self.len()
    }

    fn unit_at(&self, at: usize) -> (unit: usize) {
        self[at] as usize
    }
}

/// A vector of indices is keyed by its indices.
impl Item for Vec<usize> {
    open spec fn key(&self) -> Seq<int> {
        Seq::new(self@.len(), |i: int| self@[i] as int)
    }

    fn unit_count(&self) -> (count: usize) {
        self.len()
    }

    fn unit_at(&self, at: usize) -> (unit: usize) {
        self[at]
    }
}

/// Every unit of `key` is the value of a byte.
pub open spec fn units_are_bytes(key: Seq<int>) -> bool {
    forall|i: int| 0 <= i < key.len() ==> 0 <= #[trigger] key[i] < 256
}

/// An item whose units are bytes.
pub trait ByteItem: Item {
    /// No unit of the item is beyond the values of a byte.
    proof fn lemma_units_are_bytes(&self)
        ensures
            units_are_bytes(self.key()),
    ;
}

impl ByteItem for String {
    proof fn lemma_units_are_bytes(&self) {
    }
}

impl<'a> ByteItem for &'a str {
    proof fn lemma_units_are_bytes(&self) {
    }
}

impl ByteItem for Vec<u8> {
    proof fn lemma_units_are_bytes(&self) {
    }
}

/// An item that is a text: a string of characters, keyed by the bytes of its
/// UTF-8 encoding.
pub trait Text: ByteItem {
    /// The characters of the text.
    spec fn text(&self) -> Seq<char>;

    /// The text as a string slice.
    fn as_text(&self) -> (text: &str)
        ensures
            text@ == self.text(),
    ;

    /// The key of the text holds the bytes of its encoding.
    proof fn lemma_key_is_encoding(&self)
        ensures
            self.key() == byte_units(vstd::utf8::encode_utf8(self.text())),
    ;
}

impl Text for String {
    open spec fn text(&self) -> Seq<char> {
        self@
    }

    fn as_text(&self) -> (text: &str) {
        self.as_str()
    }

    proof fn lemma_key_is_encoding(&self) {
    }
}

impl<'a> Text for &'a str {
    open spec fn text(&self) -> Seq<char> {
        self@
    }

    fn as_text(&self) -> (text: &str) {
        self
    }

    proof fn lemma_key_is_encoding(&self) {
    }
}

/// The keys of `items`, in the order of the items.
pub open spec fn keys_of<T: Item>(items: Seq<T>) -> Seq<Seq<int>> {
    Seq::new(items.len(), |i: int| items[i].key())
}

/// Every item of `items` comes before all the items that follow it.
pub open spec fn in_order<T: Item>(items: Seq<T>) -> bool {
    forall|i: int, j: int| 0 <= i < j < items.len() ==> lex_le(items[i].key(), items[j].key())
}

/// `output` holds the items of `input`, each as often as `input` does, in order.
pub open spec fn is_sorting_of<T: Item>(output: Seq<T>, input: Seq<T>) -> bool {
    &&& output.to_multiset() == input.to_multiset()
    &&& in_order(output)
}

/// What is left of the key of `item` after its first `from` units.
pub open spec fn remainder<T: Item>(item: T, from: usize) -> Seq<int> {
    item.key().skip(from as int)
}

/// Every item of `items` has at least `from` units.
pub open spec fn all_reach<T: Item>(items: Seq<T>, from: usize) -> bool {
    forall|i: int| 0 <= i < items.len() ==> from <= (#[trigger] items[i]).key().len()
}

/// The items of `items` are in the order of their remainders after `from` units.
pub open spec fn in_order_from<T: Item>(items: Seq<T>, from: usize) -> bool {
    forall|i: int, j: int|
        0 <= i < j < items.len() ==> lex_le(remainder(items[i], from), remainder(items[j], from))
}

/// Items are in order just when their keys are sorted.
pub proof fn lemma_in_order_is_sorted<T: Item>(items: Seq<T>)
    ensures
        in_order(items) <==> sorted(keys_of(items)),
{
    let keys = keys_of(items);
    if in_order(items) {
        assert forall|i: int, j: int| 0 <= i < j < keys.len() implies lex_le(keys[i], keys[j]) by {
            assert(lex_le(items[i].key(), items[j].key()));
        }
    }
    if sorted(keys) {
        assert forall|i: int, j: int| 0 <= i < j < items.len() implies lex_le(
            items[i].key(),
            items[j].key(),
        ) by {
            assert(lex_le(keys[i], keys[j]));
        }
    }
}

/// A sequence without items holds nothing.
pub proof fn lemma_nothing_in_empty<A>(s: Seq<A>)
    requires
        s.len() == 0,
    ensures
        s.to_multiset() == vstd::multiset::Multiset::<A>::empty(),
{
    broadcast use vstd::seq_lib::group_to_multiset_ensures;

    assert forall|a: A| s.to_multiset().count(a) == 0 by {
        assert(!s.contains(a));
    }
    assert(s.to_multiset() =~= vstd::multiset::Multiset::<A>::empty());
}

/// Sequences that hold the same items hold the same images of their items
/// under `f`.
pub proof fn lemma_same_items_same_images<A, B>(a: Seq<A>, b: Seq<A>, f: spec_fn(A) -> B)
    requires
        a.to_multiset() == b.to_multiset(),
    ensures
        a.map_values(f).to_multiset() == b.map_values(f).to_multiset(),
    decreases a.len(),
{
    broadcast use vstd::seq_lib::group_to_multiset_ensures;

    assert(a.len() == a.to_multiset().len());
    assert(b.len() == b.to_multiset().len());
    if a.len() == 0 {
        assert(a.map_values(f) =~= b.map_values(f));
    } else {
        let n = a.len() - 1;
        let x = a[n];
        assert(b.to_multiset().count(x) > 0);
        let j = choose|j: int| 0 <= j < b.len() && b[j] == x;
        let a1 = a.remove(n);
        let b1 = b.remove(j);
        lemma_same_items_same_images(a1, b1, f);
        assert(a.map_values(f) =~= a1.map_values(f).insert(n, f(x)));
        assert(b.map_values(f) =~= b1.map_values(f).insert(j, f(x)));
    }
}

/// Sequences that hold the same items hold the same keys.
pub proof fn lemma_same_items_same_keys<T: Item>(a: Seq<T>, b: Seq<T>)
    requires
        a.to_multiset() == b.to_multiset(),
    ensures
        keys_of(a).to_multiset() == keys_of(b).to_multiset(),
{
    let key = |t: T| t.key();
    lemma_same_items_same_images(a, b, key);
    assert(keys_of(a) =~= a.map_values(key));
    assert(keys_of(b) =~= b.map_values(key));
}

/// `after` is `before` with the items of `bag` appended in order.
pub open spec fn extends_in_order<T: Item>(
    before: Seq<T>,
    after: Seq<T>,
    bag: vstd::multiset::Multiset<T>,
) -> bool {
    &&& before.len() <= after.len()
    &&& after.take(before.len() as int) == before
    &&& after.skip(before.len() as int).to_multiset() == bag
    &&& in_order(after.skip(before.len() as int))
}

/// `run` begins with the items of `first`, as they stand in it.
pub open spec fn begins_with<A>(run: Seq<A>, first: Seq<A>) -> bool {
    first.len() <= run.len() && run.take(first.len() as int) == first
}

/// `after` is `before` with the items of `bag` appended, in the order of
/// their remainders after `from` units.
pub open spec fn extends_in_order_from<T: Item>(
    before: Seq<T>,
    after: Seq<T>,
    bag: vstd::multiset::Multiset<T>,
    from: usize,
) -> bool {
    &&& before.len() <= after.len()
    &&& after.take(before.len() as int) == before
    &&& after.skip(before.len() as int).to_multiset() == bag
    &&& in_order_from(after.skip(before.len() as int), from)
}

/// An item of one sequence occurs in every sequence that holds the same items.
pub proof fn lemma_member_of_permutation<A>(a: Seq<A>, b: Seq<A>, i: int) -> (j: int)
    requires
        a.to_multiset() == b.to_multiset(),
        0 <= i < a.len(),
    ensures
        0 <= j < b.len(),
        b[j] == a[i],
{
    broadcast use vstd::seq_lib::group_to_multiset_ensures;

    assert(a.contains(a[i]));
    assert(b.to_multiset().count(a[i]) > 0);
    assert(b.contains(a[i]));
    choose|j: int| 0 <= j < b.len() && b[j] == a[i]
}

/// Two runs in order, the first wholly before the second, make one run in order.
pub proof fn lemma_in_order_concat<T: Item>(x: Seq<T>, y: Seq<T>)
    requires
        in_order(x),
        in_order(y),
        forall|i: int, j: int|
            0 <= i < x.len() && 0 <= j < y.len() ==> lex_le(
                (#[trigger] x[i]).key(),
                (#[trigger] y[j]).key(),
            ),
    ensures
        in_order(x + y),
{
    let z = x + y;
    assert forall|i: int, j: int| 0 <= i < j < z.len() implies lex_le(z[i].key(), z[j].key()) by {
        if j < x.len() {
        } else if i < x.len() {
            assert(lex_le(x[i].key(), y[j - x.len()].key()));
        } else {
            assert(lex_le(y[i - x.len()].key(), y[j - x.len()].key()));
        }
    }
}

/// A target that grew twice has its first part as it was, and what came after
/// it is what came first followed by what came second.
pub proof fn lemma_run_joins<A>(start: Seq<A>, before: Seq<A>, after: Seq<A>)
    requires
        start.len() <= before.len() <= after.len(),
        before.take(start.len() as int) == start,
        after.take(before.len() as int) == before,
    ensures
        after.take(start.len() as int) == start,
        after.skip(start.len() as int) == before.skip(start.len() as int) + after.skip(
            before.len() as int,
        ),
{
    let n = start.len() as int;
    let m = before.len() as int;
    assert forall|k: int| 0 <= k < m implies after[k] == before[k] by {
        assert(after.take(m)[k] == before[k]);
    }
    assert forall|k: int| 0 <= k < n implies before[k] == start[k] by {
        assert(before.take(n)[k] == start[k]);
    }
    assert(after.take(n) =~= start);
    assert(after.skip(n) =~= before.skip(n) + after.skip(m));
}

/// Every item of `run` begins with `path`, and ends there or goes on with a
/// unit below `unit`.
pub open spec fn below_branch<T: Item>(run: Seq<T>, path: Seq<int>, unit: int) -> bool {
    forall|i: int|
        0 <= i < run.len() ==> {
            &&& has_prefix((#[trigger] run[i]).key(), path)
            &&& (run[i].key().len() == path.len() || run[i].key()[path.len() as int] < unit)
        }
}

/// A run in order that lies below a branch, followed by a run in order of
/// that branch, is a run in order that lies below the next branch.
pub proof fn lemma_branch_joins<T: Item>(
    done: Seq<T>,
    tail: Seq<T>,
    path: Seq<int>,
    unit: int,
    next: int,
)
    requires
        in_order(done),
        in_order(tail),
        below_branch(done, path, unit),
        forall|j: int| 0 <= j < tail.len() ==> has_prefix((#[trigger] tail[j]).key(), path.push(unit)),
        unit < next,
    ensures
        in_order(done + tail),
        below_branch(done + tail, path, next),
{
    let level = path.len() as int;
    assert forall|i: int, j: int| 0 <= i < done.len() && 0 <= j < tail.len() implies lex_le(
        (#[trigger] done[i]).key(),
        (#[trigger] tail[j]).key(),
    ) by {
        let a = done[i].key();
        let b = tail[j].key();
        assert(has_prefix(b, path.push(unit)));
        assert(b[level] == path.push(unit)[level]);
        if a.len() == level {
            assert(a =~= path);
            crate::order::lemma_prefix_comes_first(path, b);
        } else {
            crate::order::lemma_smaller_branch_comes_first(a, b, path);
        }
    }
    lemma_in_order_concat(done, tail);
    assert forall|i: int| 0 <= i < (done + tail).len() implies {
        &&& has_prefix((#[trigger] (done + tail)[i]).key(), path)
        &&& ((done + tail)[i].key().len() == path.len() || (done + tail)[i].key()[level] < next)
    } by {
        if i >= done.len() {
            let b = tail[i - done.len()].key();
            assert(has_prefix(b, path.push(unit)));
            assert(b[level] == path.push(unit)[level]);
        }
    }
}

/// Items that share their first units are in order once their remainders are.
pub proof fn lemma_in_order_by_remainder<T: Item>(items: Seq<T>, from: usize, path: Seq<int>)
    requires
        in_order_from(items, from),
        from <= path.len(),
        forall|i: int| 0 <= i < items.len() ==> has_prefix((#[trigger] items[i]).key(), path),
    ensures
        in_order(items),
{
    assert forall|i: int, j: int| 0 <= i < j < items.len() implies lex_le(
        items[i].key(),
        items[j].key(),
    ) by {
        assert(has_prefix(items[i].key(), path));
        assert(has_prefix(items[j].key(), path));
        assert(lex_le(remainder(items[i], from), remainder(items[j], from)));
        crate::order::lemma_order_by_remainder(items[i].key(), items[j].key(), from as int);
    }
}

/// The larger of two lengths.
pub open spec fn larger(a: nat, b: nat) -> nat {
    if a >= b {
        a
    } else {
        b
    }
}

/// The length of the longest key in `items`.
pub open spec fn longest<T: Item>(items: Seq<T>) -> nat
    decreases items.len(),
{
    if items.len() == 0 {
        0
    } else {
        larger(longest(items.drop_last()), items.last().key().len())
    }
}

/// The longest key of some items and one more.
pub proof fn lemma_longest_push<T: Item>(items: Seq<T>, item: T)
    ensures
        longest(items.push(item)) == larger(longest(items), item.key().len()),
{
    assert(items.push(item).drop_last() =~= items);
}

/// No key is longer than the longest.
pub proof fn lemma_longest_bounds<T: Item>(items: Seq<T>, i: int)
    requires
        0 <= i < items.len(),
    ensures
        items[i].key().len() <= longest(items),
    decreases items.len(),
{
    if i < items.len() - 1 {
        lemma_longest_bounds(items.drop_last(), i);
    }
}

/// How one key stands to another.
#[derive(Clone, Copy, PartialEq, Eq, Structural, Debug)]
pub enum Rank {
    /// It comes strictly before the other.
    Before,
    /// The two are equal.
    Same,
    /// It comes strictly after the other.
    After,
}

/// How `a` stands to `b` in lexicographic order.
pub open spec fn rank_of(a: Seq<int>, b: Seq<int>) -> Rank {
    if a == b {
        Rank::Same
    } else if lex_le(a, b) {
        Rank::Before
    } else {
        Rank::After
    }
}

/// Ranks `l` against `r`, looking only at what follows their first `from` units.
pub fn rank_from<T: Item>(l: &T, r: &T, from: usize) -> (rank: Rank)
    requires
        from <= l.key().len(),
        from <= r.key().len(),
    ensures
        rank == rank_of(remainder(*l, from), remainder(*r, from)),
{
    let ghost a = remainder(*l, from);
    let ghost b = remainder(*r, from);
    let l_count = l.unit_count();
    let r_count = r.unit_count();
    let mut at: usize = from;
    while at < l_count && at < r_count
        invariant
            from <= at <= l_count,
            at <= r_count,
            l_count == l.key().len(),
            r_count == r.key().len(),
            a == remainder(*l, from),
            b == remainder(*r, from),
            agree(a, b, at - from),
        decreases l_count - at,
    {
        let l_unit = l.unit_at(at);
        let r_unit = r.unit_at(at);
        if l_unit < r_unit {
            proof {
                assert(splits_at(a, b, at - from));
                lemma_lt_irreflexive(a, b);
            }
            return Rank::Before;
        }
        if l_unit > r_unit {
            proof {
                assert(agree(b, a, at - from));
                assert(splits_at(b, a, at - from));
                lemma_lt_irreflexive(b, a);
            }
            return Rank::After;
        }
        at += 1;
    }
    if l_count < r_count {
        proof {
            assert(has_prefix(b, a));
            lemma_lt_irreflexive(a, b);
        }
        Rank::Before
    } else if l_count > r_count {
        proof {
            assert(agree(b, a, at - from));
            assert(has_prefix(a, b));
            lemma_lt_irreflexive(b, a);
        }
        Rank::After
    } else {
        proof {
            assert(a =~= b);
        }
        Rank::Same
    }
}

} // verus!
