//! Sorting one bucket: the flat comparison sorts that the tries fall back to.
//!
//! The tries route items by their leading units and leave the items of one
//! bucket unordered. At merge time each bucket is handed to one of the sorts of
//! the standard library, or to rayon's parallel sort, with a comparator that
//! looks only at the units that the trie has not consumed.

use vstd::prelude::*;
use crate::ties::keeps_ties;
use core::cmp::Ordering;
use rayon::slice::ParallelSliceMut;
use crate::item::{Item, Rank, rank_of, rank_from, remainder, all_reach, in_order_from};

verus! {

/// The standard library's name for a rank.
pub open spec fn ordering_of(rank: Rank) -> Ordering {
    match rank {
        Rank::Before => Ordering::Less,
        Rank::Same => Ordering::Equal,
        Rank::After => Ordering::Greater,
    }
}

/// Compares `l` with `r` by what follows their first `from` units.
pub fn compare_from<T: Item>(l: &T, r: &T, from: usize) -> (ordering: Ordering)
    requires
        from <= l.key().len(),
        from <= r.key().len(),
    ensures
        ordering == ordering_of(rank_of(remainder(*l, from), remainder(*r, from))),
{
    match rank_from(l, r, from) {
        Rank::Before => Ordering::Less,
        Rank::Same => Ordering::Equal,
        Rank::After => Ordering::Greater,
    }
}

/// Calls `sort_unstable_by` of the standard library on `list`, with
/// `compare_from` as the comparator.
///
/// Not proved: that the call leaves in `list` the items it held, each as often
/// as before, in the order of the comparator.
#[verifier::external_body]
pub(crate) fn sort_from<T: Item>(list: &mut Vec<T>, from: usize)
    requires
        all_reach(old(list)@, from),
    ensures
        final(list)@.to_multiset() == old(list)@.to_multiset(),
        in_order_from(final(list)@, from),
{
    list.sort_unstable_by(|l, r| compare_from(l, r, from));
}

/// Calls `sort_by` of the standard library on `list`, with `compare_from` as
/// the comparator.
///
/// Not proved: that the call leaves in `list` the items it held, each as often
/// as before, in the order of the comparator, and those that the comparator
/// finds equal in the order they had.
#[verifier::external_body]
pub(crate) fn stable_sort_from<T: Item>(list: &mut Vec<T>, from: usize)
    requires
        all_reach(old(list)@, from),
    ensures
        final(list)@.to_multiset() == old(list)@.to_multiset(),
        in_order_from(final(list)@, from),
        keeps_ties(final(list)@, old(list)@, from),
{
    list.sort_by(|l, r| compare_from(l, r, from));
}

/// Calls `par_sort_unstable_by` of rayon on `list`, with `compare_from` as the
/// comparator.
///
/// Not proved: that the call leaves in `list` the items it held, each as often
/// as before, in the order of the comparator.
#[verifier::external_body]
pub(crate) fn par_sort_from<T: Item + Send>(list: &mut Vec<T>, from: usize)
    requires
        all_reach(old(list)@, from),
    ensures
        final(list)@.to_multiset() == old(list)@.to_multiset(),
        in_order_from(final(list)@, from),
{
    list.par_sort_unstable_by(|l, r| compare_from(l, r, from));
}

} // verus!
