//! Bucket sort: the items are dealt into buckets by a key, laid out bucket
//! after bucket, and put in their final order by an insertion sort.

use vstd::prelude::*;
use crate::insertion::{insertion_sort, orders_weakly, ascending};

verus! {

/// Why a bucket sort failed.
#[derive(Debug)]
pub struct BucketError<T> {
    /// What went wrong.
    pub kind: BucketErrorKind<T>,
}

/// The kinds of failure of a bucket sort.
#[derive(Debug)]
pub enum BucketErrorKind<T> {
    /// The key of this item is no bucket.
    OutOfRange(T),
}

impl<T> BucketError<T> {
    /// What the error says, as a line of text.
    ///
    /// Calls `format` of the standard library, which writes the item as its
    /// `Display` does. Nothing is proved of the text.
    #[verifier::external_body]
    pub fn message(&self) -> (text: String) where T: core::fmt::Display {
        match &self.kind {
            BucketErrorKind::OutOfRange(item) => {
                format!("Bucketing error: {} is out of range!\n", item)
            },
        }
    }
}

/// `copy` holds a clone of each item of `source`, at the place of the item.
pub open spec fn clones_of<T: Clone>(copy: Seq<T>, source: Seq<T>) -> bool {
    &&& copy.len() == source.len()
    &&& forall|i: int| 0 <= i < source.len() ==> cloned(source[i], #[trigger] copy[i])
}

/// `output` holds a clone of each item of `input`, in some order.
pub open spec fn rearranges_clones<T: Clone>(output: Seq<T>, input: Seq<T>) -> bool {
    exists|copy: Seq<T>| clones_of(copy, input) && output.to_multiset() == copy.to_multiset()
}

/// `key` can give a bucket below `num_buckets` for `item`.
pub open spec fn has_bucket<T, F: Fn(&T) -> usize>(item: T, key: F, num_buckets: usize) -> bool {
    exists|k: usize| k < num_buckets && call_ensures(key, (&item,), k)
}

/// `key` can give a number that is no bucket for `item`.
pub open spec fn lacks_bucket<T, F: Fn(&T) -> usize>(item: T, key: F, num_buckets: usize) -> bool {
    exists|k: usize| k >= num_buckets && call_ensures(key, (&item,), k)
}

/// The item at `at` is the first of `items` for which `key` gave no bucket.
pub open spec fn first_out_of_range<T, F: Fn(&T) -> usize>(
    items: Seq<T>,
    key: F,
    num_buckets: usize,
    at: int,
) -> bool {
    &&& 0 <= at < items.len()
    &&& lacks_bucket(items[at], key, num_buckets)
    &&& forall|j: int| 0 <= j < at ==> has_bucket(#[trigger] items[j], key, num_buckets)
}

/// The items of `buckets`, bucket after bucket.
pub open spec fn flat<T>(buckets: Seq<Vec<T>>) -> Seq<T>
    decreases buckets.len(),
{
    if buckets.len() == 0 {
        Seq::empty()
    } else {
        flat(buckets.drop_last()) + buckets.last()@
    }
}

/// The items of some buckets and one more bucket.
proof fn lemma_flat_push<T>(buckets: Seq<Vec<T>>, bucket: Vec<T>)
    ensures
        flat(buckets.push(bucket)) == flat(buckets) + bucket@,
{
    assert(buckets.push(bucket).drop_last() =~= buckets);
}

/// Buckets of which one has taken an item hold that item more.
proof fn lemma_flat_grows<T>(buckets: Seq<Vec<T>>, k: int, grown: Vec<T>, item: T)
    requires
        0 <= k < buckets.len(),
        grown@ == buckets[k]@.push(item),
    ensures
        flat(buckets.update(k, grown)).to_multiset() == flat(buckets).to_multiset().insert(item),
        flat(buckets.update(k, grown)).len() == flat(buckets).len() + 1,
    decreases buckets.len(),
{
    broadcast use vstd::seq_lib::group_to_multiset_ensures;

    let updated = buckets.update(k, grown);
    if k < buckets.len() - 1 {
        lemma_flat_grows(buckets.drop_last(), k, grown, item);
        assert(updated.drop_last() =~= buckets.drop_last().update(k, grown));
        vstd::seq_lib::lemma_multiset_commutative(flat(updated.drop_last()), updated.last()@);
        vstd::seq_lib::lemma_multiset_commutative(flat(buckets.drop_last()), buckets.last()@);
        assert(flat(updated).to_multiset() =~= flat(buckets).to_multiset().insert(item));
    } else {
        assert(updated.drop_last() =~= buckets.drop_last());
        assert(flat(updated) =~= flat(buckets).push(item));
    }
}

/// Deals a clone of each item of `data` into the bucket that `key` gives for
/// it.
fn make_buckets<T, F>(data: &[T], key: &F, num_buckets: usize) -> (result: Result<
    Vec<Vec<T>>,
    BucketError<T>,
>) where T: Clone, F: Fn(&T) -> usize
    requires
        forall|i: int| 0 <= i < data@.len() ==> call_requires(*key, (&#[trigger] data@[i],)),
    ensures
        match result {
            Ok(buckets) => {
                &&& buckets@.len() == num_buckets
                &&& flat(buckets@).len() == data@.len()
                &&& rearranges_clones(flat(buckets@), data@)
                &&& forall|i: int|
                    0 <= i < data@.len() ==> has_bucket(#[trigger] data@[i], *key, num_buckets)
            },
            Err(error) => exists|at: int|
                #[trigger] first_out_of_range(data@, *key, num_buckets, at) && cloned(
                    data@[at],
                    error.kind->OutOfRange_0,
                ),
        },
{
    let mut buckets: Vec<Vec<T>> = Vec::new();
    let mut made: usize = 0;
    while made < num_buckets
        invariant
            made <= num_buckets,
            buckets@.len() == made,
            flat(buckets@).len() == 0,
        decreases num_buckets - made,
    {
        let bucket: Vec<T> = Vec::new();
        proof {
            lemma_flat_push(buckets@, bucket);
        }
        buckets.push(bucket);
        made += 1;
    }
    let ghost mut copy: Seq<T> = Seq::empty();
    proof {
        assert(flat(buckets@) =~= copy);
    }
    let mut i: usize = 0;
    while i < data.len()
        invariant
            i <= data@.len(),
            forall|i: int| 0 <= i < data@.len() ==> call_requires(*key, (&#[trigger] data@[i],)),
            buckets@.len() == num_buckets,
            clones_of(copy, data@.take(i as int)),
            flat(buckets@).len() == i,
            flat(buckets@).to_multiset() == copy.to_multiset(),
            forall|j: int| 0 <= j < i ==> has_bucket(#[trigger] data@[j], *key, num_buckets),
        decreases data@.len() - i,
    {
        let x = &data[i];
        let k = key(x);
        if k >= num_buckets {
            let culprit = x.clone();
            proof {
                assert(lacks_bucket(data@[i as int], *key, num_buckets));
                assert(first_out_of_range(data@, *key, num_buckets, i as int));
            }
            return Err(BucketError { kind: BucketErrorKind::OutOfRange(culprit) });
        }
        let item = x.clone();
        let ghost before = buckets@;
        buckets[k].push(item);
        proof {
            assert(buckets@ =~= before.update(k as int, buckets@[k as int]));
            lemma_flat_grows(before, k as int, buckets@[k as int], item);
            vstd::seq_lib::to_multiset_build(copy, item);
            let grown = copy.push(item);
            assert forall|j: int| 0 <= j < i + 1 implies cloned(
                data@.take(i + 1)[j],
                #[trigger] grown[j],
            ) by {
                if j < i {
                    assert(cloned(data@.take(i as int)[j], copy[j]));
                }
            }
            copy = grown;
            assert(has_bucket(data@[i as int], *key, num_buckets));
        }
        i += 1;
    }
    proof {
        assert(data@.take(data@.len() as int) =~= data@);
    }
    Ok(buckets)
}

/// Lays the items of `buckets` out in `data`, bucket after bucket.
fn dump_buckets<T>(data: &mut [T], buckets: Vec<Vec<T>>)
    requires
        flat(buckets@).len() == old(data)@.len(),
    ensures
        final(data)@ == flat(buckets@),
{
    let ghost all = buckets@;
    let ghost target = flat(all);
    let mut start: usize = 0;
    proof {
        assert(flat(all.take(0)) =~= Seq::<T>::empty());
    }
    for bucket in outer: buckets
        invariant
            outer.seq() == all,
            target == flat(all),
            data@.len() == target.len(),
            start == flat(all.take(outer.index() as int)).len(),
            start <= target.len(),
            data@.take(start as int) == flat(all.take(outer.index() as int)),
            target.take(start as int) == flat(all.take(outer.index() as int)),
    {
        let ghost at = outer.index() as int;
        let ghost items = bucket@;
        let ghost base = start as int;
        proof {
            assert(all.take(at + 1).drop_last() =~= all.take(at));
            assert(all.take(at + 1).last() == all[at]);
            lemma_flat_prefix(all, at + 1);
        }
        for item in inner: bucket
            invariant
                inner.seq() == items,
                data@.len() == target.len(),
                base + items.len() <= target.len(),
                start == base + inner.index(),
                data@.take(start as int) == flat(all.take(at)) + items.take(inner.index() as int),
        {
            let ghost done = data@.take(start as int);
            data[start] = item;
            proof {
                assert(data@.take(start + 1) =~= done.push(item));
                assert(items.take(inner.index() + 1) =~= items.take(inner.index() as int).push(
                    item,
                ));
            }
            start += 1;
        }
        proof {
            assert(items.take(items.len() as int) =~= items);
            assert(flat(all.take(at + 1)) == flat(all.take(at)) + items);
            assert(target.take(start as int) =~= flat(all.take(at + 1)));
        }
    }
    proof {
        assert(all.take(all.len() as int) =~= all);
        assert(data@.take(data@.len() as int) =~= data@);
    }
}

/// The items of the first buckets are the first items of all the buckets.
proof fn lemma_flat_prefix<T>(buckets: Seq<Vec<T>>, n: int)
    requires
        0 <= n <= buckets.len(),
    ensures
        flat(buckets.take(n)).len() <= flat(buckets).len(),
        flat(buckets).take(flat(buckets.take(n)).len() as int) == flat(buckets.take(n)),
    decreases buckets.len(),
{
    if n == buckets.len() {
        assert(buckets.take(n) =~= buckets);
        assert(flat(buckets).take(flat(buckets).len() as int) =~= flat(buckets));
    } else {
        lemma_flat_prefix(buckets.drop_last(), n);
        assert(buckets.drop_last().take(n) =~= buckets.take(n));
        let shorter = flat(buckets.drop_last());
        let m = flat(buckets.take(n)).len() as int;
        assert(flat(buckets).take(m) =~= shorter.take(m));
    }
}

/// Sorts `data`: deals its items into `num_buckets` buckets by `key`, lays them
/// out bucket after bucket, and sorts that by insertion.
///
/// The sort fails, and leaves `data` as it was, if `key` gives for some item a
/// number that is no bucket; the error holds a clone of the first such item.
/// Else `data` comes to hold a clone of each item it held. They end in
/// ascending order where `>` orders them weakly.
pub fn bucket_sort<T, F>(data: &mut [T], key: F, num_buckets: usize) -> (result: Result<
    (),
    BucketError<T>,
>) where T: PartialOrd + Clone, F: Fn(&T) -> usize
    requires
        forall|i: int|
            0 <= i < old(data)@.len() ==> call_requires(key, (&#[trigger] old(data)@[i],)),
    ensures
        match result {
            Ok(()) => {
                &&& forall|i: int|
                    0 <= i < old(data)@.len() ==> has_bucket(
                        #[trigger] old(data)@[i],
                        key,
                        num_buckets,
                    )
                &&& rearranges_clones(final(data)@, old(data)@)
                &&& orders_weakly::<T>() ==> ascending(final(data)@)
            },
            Err(error) => {
                &&& final(data)@ == old(data)@
                &&& exists|at: int|
                    #[trigger] first_out_of_range(old(data)@, key, num_buckets, at) && cloned(
                        old(data)@[at],
                        error.kind->OutOfRange_0,
                    )
            },
        },
{
    match make_buckets(data, &key, num_buckets) {
        Ok(buckets) => {
            let ghost dealt = flat(buckets@);
            dump_buckets(data, buckets);
            insertion_sort(data);
            proof {
                let copy = choose|copy: Seq<T>|
                    clones_of(copy, old(data)@) && dealt.to_multiset() == copy.to_multiset();
                assert(clones_of(copy, old(data)@) && data@.to_multiset() == copy.to_multiset());
            }
            Ok(())
        },
        Err(error) => Err(error),
    }
}

} // verus!
