//! Ready-made sorts of strings, one for each kind of trie.

use vstd::prelude::*;
use crate::ties::{keeps_order, lemma_order_push, lemma_order_reflexive, lemma_order_transitive};
use crate::alphanumeric::{make_trie, AlphaNumericTrieNode};
use crate::alphanumeric::{classified_from, first_unclassified, keeps_classified};
use crate::alphanumeric::lemma_classified_are_kept;
use crate::item::{Item, ByteItem, Text, in_order, is_sorting_of, lemma_nothing_in_empty};
use crate::unicode::is_text_sorting_of;

verus! {

/// Every string of `items` holds only digits and letters.
pub open spec fn all_alphanumeric(items: Seq<String>) -> bool {
    forall|i: int| 0 <= i < items.len() ==> classified_from((#[trigger] items[i]).key(), 0)
}

/// The string at `at` is the last of `items` that holds a byte that is no
/// digit and no letter, and `c` is the first such byte in it.
pub open spec fn last_unclassified(items: Seq<String>, at: int, c: u8) -> bool {
    &&& 0 <= at < items.len()
    &&& forall|j: int| at < j < items.len() ==> classified_from((#[trigger] items[j]).key(), 0)
    &&& exists|k: int|
        #[trigger] first_unclassified(items[at].key(), 0, k) && items[at].key()[k] == c
}

/// What is left of `all` when its last string has been taken is `all` without
/// that string.
proof fn lemma_take_one_more<A>(all: Seq<A>, at: int)
    requires
        0 <= at < all.len(),
    ensures
        all.skip(at).to_multiset() == all.skip(at + 1).to_multiset().insert(all[at]),
{
    assert(all.skip(at) =~= all.skip(at + 1).insert(0, all[at]));
    vstd::seq_lib::to_multiset_insert(all.skip(at + 1), 0, all[at]);
}

/// Drains `data`, first to last, into a trie with 256 children at every burst
/// node.
fn fill_bytes<T: ByteItem>(data: &mut Vec<T>) -> (trie: crate::byte::TrieNode<T>)
    ensures
        final(data)@.len() == 0,
        trie.wf(),
        trie.items() == old(data)@.to_multiset(),
        keeps_order(trie.arrival(), old(data)@),
{
    let mut trie = crate::byte::TrieNode::<T>::new(0);
    let mut items: Vec<T> = Vec::new();
    core::mem::swap(data, &mut items);
    let ghost all = items@;
    let ghost root = Seq::<int>::empty();
    proof {
        lemma_nothing_in_empty(all.take(0));
        assert(trie.arrival() =~= all.take(0));
        lemma_order_reflexive(all.take(0));
    }
    for item in it: items
        invariant
            it.seq() == all,
            root.len() == 0,
            trie.wf_at(root),
            trie.items() == all.take(it.index() as int).to_multiset(),
            keeps_order(trie.arrival(), all.take(it.index() as int)),
    {
        let ghost at = it.index() as int;
        let ghost before = trie.arrival();
        proof {
            assert(all.take(at + 1) =~= all.take(at).push(item));
            vstd::seq_lib::to_multiset_build(all.take(at), item);
        }
        trie.insert(item);
        proof {
            lemma_order_push(before, all.take(at), item);
            lemma_order_transitive(trie.arrival(), before.push(item), all.take(at).push(item));
        }
    }
    proof {
        assert(all.take(all.len() as int) =~= all);
    }
    trie
}

/// Drains `data`, first to last, into a trie that keeps a child for each
/// character that occurs.
pub(crate) fn fill_texts<T: Text>(data: &mut Vec<T>) -> (trie: crate::unicode::TrieNode<T>)
    ensures
        final(data)@.len() == 0,
        trie.wf(),
        trie.offset == 0,
        trie.items() == old(data)@.to_multiset(),
        keeps_order(trie.arrival(), old(data)@),
{
    let mut trie = crate::unicode::TrieNode::<T>::new(0);
    let mut items: Vec<T> = Vec::new();
    core::mem::swap(data, &mut items);
    let ghost all = items@;
    let ghost root = Seq::<int>::empty();
    proof {
        lemma_nothing_in_empty(all.take(0));
        assert(trie.arrival() =~= all.take(0));
        lemma_order_reflexive(all.take(0));
    }
    for item in it: items
        invariant
            it.seq() == all,
            root.len() == 0,
            trie.wf_at(root),
            trie.items() == all.take(it.index() as int).to_multiset(),
            keeps_order(trie.arrival(), all.take(it.index() as int)),
    {
        let ghost at = it.index() as int;
        let ghost before = trie.arrival();
        proof {
            assert(all.take(at + 1) =~= all.take(at).push(item));
            vstd::seq_lib::to_multiset_build(all.take(at), item);
        }
        trie.insert(item);
        proof {
            lemma_order_push(before, all.take(at), item);
            lemma_order_transitive(trie.arrival(), before.push(item), all.take(at).push(item));
        }
    }
    proof {
        assert(all.take(all.len() as int) =~= all);
    }
    trie
}

/// Sorts `data` by the bytes of its items, with a burst trie that has 256
/// children at every burst node. Items with equal keys keep the order they
/// had in `data`.
pub fn byte_sort<T: ByteItem>(data: &mut Vec<T>)
    ensures
        is_sorting_of(final(data)@, old(data)@),
        keeps_order(final(data)@, old(data)@),
{
    let ghost all = data@;
    let mut trie = fill_bytes(data);
    let ghost arrived = trie.arrival();
    trie.merge(data);
    proof {
        assert(data@.skip(0) =~= data@);
        lemma_order_transitive(data@, arrived, all);
    }
}

/// Does what `byte_sort` does, but with a sort of the buckets that may
/// reorder items with equal keys.
pub fn byte_sort_unstable<T: ByteItem>(data: &mut Vec<T>)
    ensures
        is_sorting_of(final(data)@, old(data)@),
{
    let mut trie = fill_bytes(data);
    trie.merge_unstable(data);
    proof {
        assert(data@.skip(0) =~= data@);
    }
}

/// Sorts `data` by the code points of its texts, with a burst trie that
/// keeps a child for each character that occurs. That is the order of their
/// bytes too.
pub fn unicode_sort_unstable<T: Text>(data: &mut Vec<T>)
    ensures
        is_text_sorting_of(final(data)@, old(data)@),
        is_sorting_of(final(data)@, old(data)@),
{
    let ghost all = data@;
    let mut trie = fill_texts(data);
    trie.merge_unstable(data);
    proof {
        assert(data@.skip(0) =~= data@);
        crate::unicode::law_text_sorting_is_byte_sorting(data@, all);
    }
}

/// Sorts `data`, strings of digits and letters, by their bytes, with a burst
/// trie that has 62 children at every burst node.
///
/// The strings are taken from the end of `data`. The first that holds another
/// byte stops the sort: its first such byte is returned, and `data` is left
/// with the strings that came before it.
pub fn alphanumeric_sort(data: &mut Vec<String>) -> (result: Result<(), u8>)
    ensures
        match result {
            Ok(()) => all_alphanumeric(old(data)@) && is_sorting_of(final(data)@, old(data)@),
            Err(c) => exists|at: int|
                #[trigger] last_unclassified(old(data)@, at, c) && final(data)@ == old(data)@.take(
                    at,
                ),
        },
{
    let mut trie = make_trie();
    let ghost all = data@;
    let ghost root = Seq::<int>::empty();
    proof {
        assert(all.skip(all.len() as int) =~= Seq::<String>::empty());
        lemma_nothing_in_empty(all.skip(all.len() as int));
        assert(all.take(all.len() as int) =~= all);
    }
    while data.len() > 0
        invariant
            root.len() == 0,
            trie.wf_at(root),
            trie.depth() == 0,
            all == old(data)@,
            data@.len() <= all.len(),
            data@ == all.take(data@.len() as int),
            trie.items() == all.skip(data@.len() as int).to_multiset(),
            forall|j: int|
                data@.len() <= j < all.len() ==> classified_from((#[trigger] all[j]).key(), 0),
        decreases data@.len(),
    {
        let ghost at = data@.len() - 1;
        let ghost held = trie.items();
        let s = data.pop().unwrap();
        proof {
            lemma_take_one_more(all, at);
            assert(data@ =~= all.take(at));
        }
        match trie.insert(s) {
            Ok(()) => {
                proof {
                    broadcast use vstd::seq_lib::group_to_multiset_ensures;

                    let taken = all.skip(at);
                    assert forall|t: String| #[trigger]
                        held.insert(s).count(t) > 0 implies classified_from(t.key(), 0) by {
                        assert(taken.contains(t));
                        let j = choose|j: int| 0 <= j < taken.len() && taken[j] == t;
                        assert(taken[j] == all[j + at]);
                    }
                    lemma_classified_are_kept(held.insert(s), trie.items(), 0);
                }
            },
            Err(c) => {
                proof {
                    assert(last_unclassified(all, at, c));
                }
                return Err(c);
            },
        }
    }
    trie.merge(data);
    proof {
        assert(all.skip(0) =~= all);
        assert(data@.skip(0) =~= data@);
    }
    Ok(())
}

/// Sorts the strings of `data` by their bytes, as `alphanumeric_sort` does,
/// and drops a string when the trie meets in it a byte that is no digit and no
/// letter. Strings of digits and letters are never dropped.
pub fn alphanumeric_unchecked_sort(data: &mut Vec<String>)
    ensures
        in_order(final(data)@),
        keeps_classified(old(data)@.to_multiset(), final(data)@.to_multiset(), 0),
        all_alphanumeric(old(data)@) ==> is_sorting_of(final(data)@, old(data)@),
{
    let mut trie = make_trie();
    let ghost all = data@;
    let ghost root = Seq::<int>::empty();
    proof {
        assert(all.skip(all.len() as int) =~= Seq::<String>::empty());
        lemma_nothing_in_empty(all.skip(all.len() as int));
        assert(all.take(all.len() as int) =~= all);
    }
    while data.len() > 0
        invariant
            root.len() == 0,
            trie.wf_at(root),
            trie.depth() == 0,
            data@.len() <= all.len(),
            data@ == all.take(data@.len() as int),
            keeps_classified(all.skip(data@.len() as int).to_multiset(), trie.items(), 0),
        decreases data@.len(),
    {
        let ghost at = data@.len() - 1;
        let ghost held = trie.items();
        let s = data.pop().unwrap();
        proof {
            lemma_take_one_more(all, at);
            assert(data@ =~= all.take(at));
        }
        trie.insert_unchecked(s);
        proof {
            let before = all.skip(at + 1).to_multiset();
            let grown = all.skip(at).to_multiset();
            assert forall|t: String| #[trigger] trie.items().count(t) <= grown.count(t) by {
                assert(trie.items().count(t) <= held.insert(s).count(t));
                assert(held.count(t) <= before.count(t));
            }
            assert forall|t: String| classified_from(t.key(), 0) implies #[trigger] trie.items().count(
                t,
            ) == grown.count(t) by {
                assert(trie.items().count(t) == held.insert(s).count(t));
                assert(held.count(t) == before.count(t));
            }
        }
    }
    let ghost held = trie.items();
    trie.merge(data);
    proof {
        broadcast use vstd::seq_lib::group_to_multiset_ensures;

        assert(all.skip(0) =~= all);
        assert(data@.skip(0) =~= data@);
        if all_alphanumeric(all) {
            assert forall|t: String| #[trigger]
                all.to_multiset().count(t) > 0 implies classified_from(t.key(), 0) by {
                assert(all.contains(t));
            }
            lemma_classified_are_kept(all.to_multiset(), held, 0);
        }
    }
}

} // verus!
