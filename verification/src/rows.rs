//! What the nodes of a row hold together, and how far they reach together,
//! from what each of them holds and reaches. The tries state what their
//! children hold over these.

use vstd::prelude::*;
use vstd::multiset::Multiset;
use crate::item::larger;

verus! {

/// The bags of `bags` together.
pub open spec fn sum_of<A>(bags: Seq<Multiset<A>>) -> Multiset<A>
    decreases bags.len(),
{
    if bags.len() == 0 {
        Multiset::empty()
    } else {
        sum_of(bags.drop_last()).add(bags.last())
    }
}

/// The largest of `lengths`.
pub open spec fn most_of(lengths: Seq<nat>) -> nat
    decreases lengths.len(),
{
    if lengths.len() == 0 {
        0
    } else {
        larger(most_of(lengths.drop_last()), lengths.last())
    }
}

/// What is in the sum is in one of the bags.
pub proof fn lemma_sum_member<A>(bags: Seq<Multiset<A>>, item: A) -> (c: int)
    requires
        sum_of(bags).count(item) > 0,
    ensures
        0 <= c < bags.len(),
        bags[c].count(item) > 0,
    decreases bags.len(),
{
    if bags.last().count(item) > 0 {
        bags.len() - 1
    } else {
        lemma_sum_member(bags.drop_last(), item)
    }
}

/// Empty bags sum to nothing.
pub proof fn lemma_sum_nothing<A>(bags: Seq<Multiset<A>>)
    requires
        forall|c: int| 0 <= c < bags.len() ==> #[trigger] bags[c] == Multiset::<A>::empty(),
    ensures
        sum_of(bags) == Multiset::<A>::empty(),
    decreases bags.len(),
{
    if bags.len() > 0 {
        lemma_sum_nothing(bags.drop_last());
        assert(sum_of(bags) =~= Multiset::<A>::empty());
    }
}

/// Bags of which one is replaced sum to what they did, less what the old bag
/// held and more what the new one holds.
pub proof fn lemma_sum_replace<A>(bags: Seq<Multiset<A>>, c: int, bag: Multiset<A>)
    requires
        0 <= c < bags.len(),
    ensures
        forall|item: A|
            #[trigger] sum_of(bags.update(c, bag)).count(item) == sum_of(bags).count(item)
                - bags[c].count(item) + bag.count(item),
        forall|item: A| #[trigger] sum_of(bags).count(item) >= bags[c].count(item),
    decreases bags.len(),
{
    let updated = bags.update(c, bag);
    if c < bags.len() - 1 {
        lemma_sum_replace(bags.drop_last(), c, bag);
        assert(updated.drop_last() =~= bags.drop_last().update(c, bag));
        assert(updated.last() == bags.last());
        assert(bags.drop_last()[c] == bags[c]);
    } else {
        assert(updated.drop_last() =~= bags.drop_last());
        assert(updated.last() == bag);
    }
    assert forall|item: A| #[trigger]
        sum_of(updated).count(item) == sum_of(bags).count(item) - bags[c].count(item)
            + bag.count(item) by {
        if c < bags.len() - 1 {
            assert(sum_of(updated.drop_last()).count(item) == sum_of(bags.drop_last()).count(item)
                - bags[c].count(item) + bag.count(item));
        }
    }
    assert forall|item: A| #[trigger] sum_of(bags).count(item) >= bags[c].count(item) by {
        if c < bags.len() - 1 {
            assert(sum_of(bags.drop_last()).count(item) >= bags[c].count(item));
        }
    }
}

/// Bags of which one has taken an item sum to that item more.
pub proof fn lemma_sum_update<A>(bags: Seq<Multiset<A>>, c: int, bag: Multiset<A>, item: A)
    requires
        0 <= c < bags.len(),
        bag == bags[c].insert(item),
    ensures
        sum_of(bags.update(c, bag)) == sum_of(bags).insert(item),
{
    lemma_sum_replace(bags, c, bag);
    assert forall|other: A|
        sum_of(bags.update(c, bag)).count(other) == #[trigger] sum_of(bags).insert(item).count(
            other,
        ) by {
        assert(sum_of(bags.update(c, bag)).count(other) == sum_of(bags).count(other)
            - bags[c].count(other) + bag.count(other));
    }
    assert(sum_of(bags.update(c, bag)) =~= sum_of(bags).insert(item));
}

/// Bags with one more bag among them sum to what that bag holds more.
pub proof fn lemma_sum_insert<A>(bags: Seq<Multiset<A>>, at: int, bag: Multiset<A>)
    requires
        0 <= at <= bags.len(),
    ensures
        sum_of(bags.insert(at, bag)) == sum_of(bags).add(bag),
    decreases bags.len(),
{
    let grown = bags.insert(at, bag);
    if at < bags.len() {
        lemma_sum_insert(bags.drop_last(), at, bag);
        assert(grown.drop_last() =~= bags.drop_last().insert(at, bag));
        assert(grown.last() == bags.last());
    } else {
        assert(grown.drop_last() =~= bags);
    }
    assert(sum_of(grown) =~= sum_of(bags).add(bag));
}

/// Lengths that are all zero have zero as their largest.
pub proof fn lemma_most_nothing(lengths: Seq<nat>)
    requires
        forall|c: int| 0 <= c < lengths.len() ==> #[trigger] lengths[c] == 0,
    ensures
        most_of(lengths) == 0,
    decreases lengths.len(),
{
    if lengths.len() > 0 {
        lemma_most_nothing(lengths.drop_last());
    }
}

/// None of the lengths is larger than the largest.
pub proof fn lemma_most_bounds(lengths: Seq<nat>, c: int)
    requires
        0 <= c < lengths.len(),
    ensures
        lengths[c] <= most_of(lengths),
    decreases lengths.len(),
{
    if c < lengths.len() - 1 {
        lemma_most_bounds(lengths.drop_last(), c);
    }
}

/// Lengths of which one is replaced are no larger than before, or than the
/// new one.
pub proof fn lemma_most_update(lengths: Seq<nat>, c: int, length: nat)
    requires
        0 <= c < lengths.len(),
    ensures
        most_of(lengths.update(c, length)) <= larger(most_of(lengths), length),
    decreases lengths.len(),
{
    let updated = lengths.update(c, length);
    if c < lengths.len() - 1 {
        lemma_most_update(lengths.drop_last(), c, length);
        assert(updated.drop_last() =~= lengths.drop_last().update(c, length));
    } else {
        assert(updated.drop_last() =~= lengths.drop_last());
    }
}

/// Lengths with one more among them have the larger of the largest before
/// and the new one as their largest.
pub proof fn lemma_most_insert(lengths: Seq<nat>, at: int, length: nat)
    requires
        0 <= at <= lengths.len(),
    ensures
        most_of(lengths.insert(at, length)) == larger(most_of(lengths), length),
    decreases lengths.len(),
{
    let grown = lengths.insert(at, length);
    if at < lengths.len() {
        lemma_most_insert(lengths.drop_last(), at, length);
        assert(grown.drop_last() =~= lengths.drop_last().insert(at, length));
        assert(grown.last() == lengths.last());
    } else {
        assert(grown.drop_last() =~= lengths);
    }
}

} // verus!
