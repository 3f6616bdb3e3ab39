//! Sorting a vector of strings.

use vstd::prelude::*;
use crate::item::is_sorting_of;
use crate::sorts::fill_texts;
use crate::ties::{keeps_order, lemma_order_transitive};
use crate::unicode::{is_text_sorting_of, law_text_sorting_is_byte_sorting};

verus! {

/// Sorts `data` by the code points of its strings, which is the order of
/// their bytes too, with a burst trie. Strings with equal keys keep the order
/// they had in `data`.
pub fn burst_sort(data: &mut Vec<String>)
    ensures
        is_text_sorting_of(final(data)@, old(data)@),
        is_sorting_of(final(data)@, old(data)@),
        keeps_order(final(data)@, old(data)@),
{
    let ghost all = data@;
    let mut trie = fill_texts(data);
    let ghost arrived = trie.arrival();
    trie.merge(data);
    proof {
        assert(data@.skip(0) =~= data@);
        law_text_sorting_is_byte_sorting(data@, all);
        lemma_order_transitive(data@, arrived, all);
    }
}

} // verus!
