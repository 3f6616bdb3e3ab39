//! Insertion sort, for any items that `>` orders.

use vstd::prelude::*;
use vstd::std_specs::cmp::PartialOrdSpec;
use core::cmp::Ordering;

verus! {

/// `a` is greater than `b`, as `>` finds it.
pub open spec fn exceeds<T: PartialOrd>(a: T, b: T) -> bool {
    a.partial_cmp_spec(&b) == Some(Ordering::Greater)
}

/// `>` is known on `T`, and orders `T` as a strict weak order does: of two
/// items at most one is the greater, and where the first of three is not
/// greater than the second, nor the second than the third, the first is not
/// greater than the third.
pub open spec fn orders_weakly<T: PartialOrd>() -> bool {
    &&& T::obeys_partial_cmp_spec()
    &&& forall|a: T, b: T| #[trigger] exceeds(a, b) ==> !exceeds(b, a)
    &&& forall|a: T, b: T, c: T|
        !#[trigger] exceeds(a, b) && !#[trigger] exceeds(b, c) ==> !exceeds(a, c)
}

/// No item of `items` is greater than an item that follows it.
pub open spec fn ascending<T: PartialOrd>(items: Seq<T>) -> bool {
    forall|i: int, j: int| 0 <= i < j < items.len() ==> !exceeds(items[i], items[j])
}

/// The test whether `>` finds an item neither greater nor smaller than `x`.
pub open spec fn ranks_with<T: PartialOrd>(x: T) -> spec_fn(T) -> bool {
    |y: T| !exceeds(y, x) && !exceeds(x, y)
}

/// `output` holds the items of `input` that `>` finds equal in the order they
/// have in `input`: whatever the item, the items that rank with it are the
/// same, one after the other, in both.
pub open spec fn keeps_equals<T: PartialOrd>(output: Seq<T>, input: Seq<T>) -> bool {
    forall|x: T| #[trigger] output.filter(ranks_with(x)) == input.filter(ranks_with(x))
}

/// Two neighbours of which at most one passes a test can change places, and
/// the items that pass the test stay the same, one after the other.
proof fn lemma_swap_keeps_filter<A>(s: Seq<A>, j: int, pred: spec_fn(A) -> bool)
    requires
        0 < j < s.len(),
        !(pred(s[j - 1]) && pred(s[j])),
    ensures
        s.update(j, s[j - 1]).update(j - 1, s[j]).filter(pred) == s.filter(pred),
{
    let swapped = s.update(j, s[j - 1]).update(j - 1, s[j]);
    let front = s.take(j - 1);
    let back = s.skip(j + 1);
    let none = Seq::<A>::empty();
    let pair = none.push(s[j - 1]).push(s[j]);
    let turned = none.push(s[j]).push(s[j - 1]);
    assert(s =~= front + pair + back);
    assert(swapped =~= front + turned + back);
    Seq::filter_distributes_over_add(front + pair, back, pred);
    Seq::filter_distributes_over_add(front, pair, pred);
    Seq::filter_distributes_over_add(front + turned, back, pred);
    Seq::filter_distributes_over_add(front, turned, pred);
    crate::ties::lemma_filter_none(none, pred);
    none.lemma_filter_push(s[j - 1], pred);
    none.push(s[j - 1]).lemma_filter_push(s[j], pred);
    none.lemma_filter_push(s[j], pred);
    none.push(s[j]).lemma_filter_push(s[j - 1], pred);
}

/// `>` orders the 64-bit integers weakly.
pub proof fn lemma_i64_orders_weakly()
    ensures
        orders_weakly::<i64>(),
{
}

/// The first `upto` items of `items` but the one at `hole` are in ascending
/// order, and the one at `hole` is greater than none of those that follow it.
spec fn ascending_around<T: PartialOrd>(items: Seq<T>, hole: int, upto: int) -> bool {
    &&& forall|a: int, b: int|
        0 <= a < b < upto && a != hole && b != hole ==> !exceeds(items[a], items[b])
    &&& forall|b: int| hole < b < upto ==> !exceeds(items[hole], items[b])
}

/// Calls `swap` of the standard library on `data`.
///
/// Not proved: that the call exchanges the items at `a` and `b` and leaves the
/// others where they are.
#[verifier::external_body]
fn swap_items<T>(data: &mut [T], a: usize, b: usize)
    requires
        a < old(data)@.len(),
        b < old(data)@.len(),
    ensures
        final(data)@ == old(data)@.update(a as int, old(data)@[b as int]).update(
            b as int,
            old(data)@[a as int],
        ),
{
    data.swap(a, b);
}

/// Sorts `data` by insertion: each item in turn is moved down past the items
/// that are greater than it.
///
/// The items are rearranged, whatever `>` does. Where `>` orders them weakly
/// they end in ascending order, and those that `>` finds equal keep the order
/// they had.
pub fn insertion_sort<T: PartialOrd>(data: &mut [T])
    ensures
        final(data)@.to_multiset() == old(data)@.to_multiset(),
        orders_weakly::<T>() ==> ascending(final(data)@),
        orders_weakly::<T>() ==> keeps_equals(final(data)@, old(data)@),
{
    let n = data.len();
    let mut i: usize = 1;
    while i < n
        invariant
            n == data@.len(),
            1 <= i,
            data@.to_multiset() == old(data)@.to_multiset(),
            orders_weakly::<T>() ==> keeps_equals(data@, old(data)@),
            orders_weakly::<T>() ==> forall|a: int, b: int|
                0 <= a < b < i && b < n ==> !exceeds(data@[a], data@[b]),
        decreases n - i,
    {
        let mut j = i;
        let mut moving = data[j - 1] > data[j];
        while moving
            invariant
                n == data@.len(),
                j <= i < n,
                data@.to_multiset() == old(data)@.to_multiset(),
                orders_weakly::<T>() ==> keeps_equals(data@, old(data)@),
                moving ==> j > 0,
                orders_weakly::<T>() ==> ascending_around(data@, j as int, i + 1),
                orders_weakly::<T>() && j > 0 ==> (moving <==> exceeds(
                    data@[j - 1],
                    data@[j as int],
                )),
            decreases j,
        {
            let ghost before = data@;
            swap_items(data, j, j - 1);
            proof {
                broadcast use vstd::seq_lib::group_to_multiset_ensures;

                if orders_weakly::<T>() {
                    assert(data@ =~= before.update(j as int, before[j - 1]).update(
                        j - 1,
                        before[j as int],
                    ));
                    assert forall|x: T| #[trigger]
                        data@.filter(ranks_with(x)) == old(data)@.filter(ranks_with(x)) by {
                        assert(before.filter(ranks_with(x)) == old(data)@.filter(ranks_with(x)));
                        if ranks_with(x)(before[j - 1]) && ranks_with(x)(before[j as int]) {
                            assert(!exceeds(before[j - 1], x));
                            assert(!exceeds(x, before[j as int]));
                        }
                        lemma_swap_keeps_filter(before, j as int, ranks_with(x));
                    }
                    assert forall|a: int, b: int|
                        0 <= a < b < i + 1 && a != j - 1 && b != j - 1 implies !exceeds(
                        data@[a],
                        data@[b],
                    ) by {
                        if a == j {
                            assert(!exceeds(before[j - 1], before[b]));
                        } else if b == j {
                            assert(!exceeds(before[a], before[j - 1]));
                        } else {
                            assert(!exceeds(before[a], before[b]));
                        }
                    }
                    assert forall|b: int| j - 1 < b < i + 1 implies !exceeds(
                        data@[j - 1],
                        #[trigger] data@[b],
                    ) by {
                        if b == j {
                            assert(exceeds(before[j - 1], before[j as int]));
                        } else {
                            assert(!exceeds(before[j as int], before[b]));
                        }
                    }
                }
            }
            j -= 1;
            moving = j > 0 && data[j - 1] > data[j];
        }
        proof {
            if orders_weakly::<T>() {
                assert forall|a: int, b: int| 0 <= a < b < i + 1 implies !exceeds(
                    data@[a],
                    data@[b],
                ) by {
                    if b == j {
                        if a < j - 1 {
                            assert(!exceeds(data@[a], data@[j - 1]));
                            assert(!exceeds(data@[j - 1], data@[j as int]));
                        }
                    }
                }
            }
        }
        i += 1;
    }
}

} // verus!
