//! Sorting by burst tries.
//!
//! A burst trie is a radix trie whose nodes start as flat buckets and burst
//! into tables of children once they hold more than a chosen number of items.
//! Sorting drains the input into a trie, one item at a time, and then walks the
//! trie in the order of the radix classes, sorting each remaining bucket with a
//! flat comparison sort.
//!
//! - [`trie`] holds the trie that is tuned by a [`BurstConfig`]; [`burstsort`]
//!   and [`par_burstsort`] sort with it.
//! - [`byte`], [`unicode`] and [`alphanumeric`] hold tries with a fixed burst
//!   limit: one with a child for each byte, one with a child for each
//!   character that occurs, one with a child for each ASCII digit and letter.
//!   [`sorts`] and [`string`] sort with them.
//! - [`item`] says what can be sorted, [`order`] in which order, and [`leaf`]
//!   how a bucket is sorted, [`ties`] what it is to keep items with equal keys
//!   in their order, and [`rows`] what the children of a node hold together.
//!   [`laws`] states what follows for every sort, and [`encoding`] that the
//!   bytes of UTF-8 keep the order of the code points.
//! - [`bucket`] and [`insertion`] hold two simple sorts, and [`corpus`] makes
//!   material to sort.

use vstd::prelude::*;

pub mod alphanumeric;
pub mod bucket;
pub mod byte;
pub mod corpus;
pub mod encoding;
pub mod insertion;
pub mod item;
pub mod laws;
pub mod leaf;
pub mod order;
pub mod rows;
pub mod sorts;
pub mod string;
pub mod ties;
pub mod trie;
pub mod unicode;

pub use crate::item::Item;
pub use crate::sorts::{alphanumeric_sort, alphanumeric_unchecked_sort};
pub use crate::sorts::{byte_sort, byte_sort_unstable, unicode_sort_unstable};
pub use crate::trie::BurstConfig;
use crate::item::is_sorting_of;
pub use crate::trie::find_unfit;
use crate::trie::{TrieNode, fits, first_unfit};

verus! {

/// Every unit of every item of `items` is below `classes`.
pub open spec fn all_fit<T: Item>(items: Seq<T>, classes: usize) -> bool {
    forall|i: int| 0 <= i < items.len() ==> fits((#[trigger] items[i]).key(), classes)
}

/// The item at `at` is the first of `items` with a unit that is no class below
/// `classes`, and `unit` is the first such unit in it.
pub open spec fn first_unclassifiable<T: Item>(
    items: Seq<T>,
    classes: usize,
    at: int,
    unit: int,
) -> bool {
    &&& 0 <= at < items.len()
    &&& forall|j: int| 0 <= j < at ==> fits((#[trigger] items[j]).key(), classes)
    &&& exists|k: int| #[trigger] first_unfit(items[at].key(), classes, k) && items[at].key()[k] == unit
}

/// The first unit, of the first item of `data` that has one, that is no class
/// below `classes`. There is none where a trie with that many classes can hold
/// all of `data`.
pub fn find_unclassifiable<T: Item>(data: &Vec<T>, classes: usize) -> (found: Option<usize>)
    ensures
        match found {
            None => all_fit(data@, classes),
            Some(unit) => exists|at: int|
                #[trigger] first_unclassifiable(data@, classes, at, unit as int),
        },
{
    let mut at: usize = 0;
    while at < data.len()
        invariant
            at <= data@.len(),
            forall|j: int| 0 <= j < at ==> fits((#[trigger] data@[j]).key(), classes),
        decreases data@.len() - at,
    {
        match find_unfit(&data[at], classes) {
            Some(unit) => {
                proof {
                    assert(first_unclassifiable(data@, classes, at as int, unit as int));
                }
                return Some(unit);
            },
            None => {},
        }
        at += 1;
    }
    None
}

/// Drains `data` into a trie with the tuning of `config`.
fn build<'a, T: Item>(data: &mut Vec<T>, config: &'a BurstConfig) -> (root: TrieNode<'a, T>)
    requires
        all_fit(old(data)@, config.classes),
    ensures
        final(data)@.len() == 0,
        root.wf(),
        root.config() == *config,
        root.items() == old(data)@.to_multiset(),
{
    let mut root = TrieNode::root(config);
    let mut items: Vec<T> = Vec::new();
    core::mem::swap(data, &mut items);
    let ghost all = items@;
    proof {
        crate::item::lemma_nothing_in_empty(all.take(0));
    }
    for item in it: items
        invariant
            it.seq() == all,
            all_fit(all, config.classes),
            root.wf(),
            root.config() == *config,
            root.items() == all.take(it.index() as int).to_multiset(),
    {
        proof {
            let at = it.index() as int;
            assert(fits(all[at].key(), config.classes));
            assert(all.take(at + 1) =~= all.take(at).push(item));
            vstd::seq_lib::to_multiset_build(all.take(at), item);
        }
        root.insert(item);
    }
    proof {
        assert(all.take(all.len() as int) =~= all);
    }
    root
}

/// Sorts `data` by the keys of its items, with a burst trie tuned by `config`.
pub fn burstsort<T: Item>(data: &mut Vec<T>, config: &BurstConfig)
    requires
        all_fit(old(data)@, config.classes),
    ensures
        is_sorting_of(final(data)@, old(data)@),
{
    let mut root = build(data, config);
    root.merge(data);
    proof {
        assert(data@.skip(0) =~= data@);
    }
}

/// Sorts `data` as `burstsort` does, if every unit of every item is a class of
/// `config`. Else it leaves `data` as it is and returns the first unit that is
/// none.
pub fn checked_burstsort<T: Item>(data: &mut Vec<T>, config: &BurstConfig) -> (result: Result<
    (),
    usize,
>)
    ensures
        result is Ok ==> all_fit(old(data)@, config.classes) && is_sorting_of(
            final(data)@,
            old(data)@,
        ),
        result matches Err(unit) ==> {
            &&& final(data)@ == old(data)@
            &&& exists|at: int|
                #[trigger] first_unclassifiable(old(data)@, config.classes, at, unit as int)
        },
{
    if let Some(unit) = find_unclassifiable(data, config.classes) {
        let result: Result<(), usize> = Err(unit);
        proof {
            let at = choose|at: int|
                #[trigger] first_unclassifiable(data@, config.classes, at, unit as int);
            assert(first_unclassifiable(old(data)@, config.classes, at, result->Err_0 as int));
        }
        return result;
    }
    burstsort(data, config);
    Ok(())
}

/// Sorts `data` as `burstsort` does, sorting the buckets of the trie in
/// parallel.
pub fn par_burstsort<T: Item + Send>(data: &mut Vec<T>, config: &BurstConfig)
    requires
        all_fit(old(data)@, config.classes),
    ensures
        is_sorting_of(final(data)@, old(data)@),
{
    let mut root = build(data, config);
    root.par_merge(data);
    proof {
        assert(data@.skip(0) =~= data@);
    }
}

} // verus!
