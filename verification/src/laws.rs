//! What holds of every sort in this crate, whatever trie and tuning it uses.
//!
//! Each sort leaves its input as a sorting of what it held: the same items, in
//! the order of their keys. A stable sort keeps the items with equal keys in
//! the order of the input as well. The laws below follow from that alone.

use vstd::prelude::*;
use vstd::multiset::Multiset;
use crate::item::{Item, Text, keys_of, in_order, is_sorting_of, extends_in_order};
use crate::item::{lemma_in_order_is_sorted, lemma_same_items_same_keys, byte_units};
use crate::order::{lex_le, lemma_sorted_unique};
use crate::ties::{has_key, keeps_order};
use crate::trie::BurstConfig;

verus! {

/// Sequences that hold the same items in order hold the same keys at the same
/// places.
pub proof fn lemma_order_is_unique<T: Item>(a: Seq<T>, b: Seq<T>)
    requires
        a.to_multiset() == b.to_multiset(),
        in_order(a),
        in_order(b),
    ensures
        keys_of(a) == keys_of(b),
{
    lemma_in_order_is_sorted(a);
    lemma_in_order_is_sorted(b);
    lemma_same_items_same_keys(a, b);
    lemma_sorted_unique(keys_of(a), keys_of(b));
}

/// A sort agrees with every reference sort: whatever two sortings of one input
/// are taken, they hold the same keys at the same places. They can differ only
/// in the order of items with equal keys.
pub proof fn law_agrees_with_reference_sort<T: Item>(input: Seq<T>, output: Seq<T>, reference: Seq<T>)
    requires
        is_sorting_of(output, input),
        is_sorting_of(reference, input),
    ensures
        keys_of(output) == keys_of(reference),
{
    lemma_order_is_unique(output, reference);
}

/// Sorting what is in order already changes nothing: the output holds the keys
/// of the input at the same places.
pub proof fn law_sorting_is_idempotent<T: Item>(input: Seq<T>, output: Seq<T>)
    requires
        in_order(input),
        is_sorting_of(output, input),
    ensures
        keys_of(output) == keys_of(input),
{
    lemma_order_is_unique(output, input);
}

/// Sequences that hold the same items in order, those with equal keys in the
/// same order, are the same sequence.
pub proof fn lemma_stable_order_is_unique<T: Item>(a: Seq<T>, b: Seq<T>)
    requires
        a.to_multiset() == b.to_multiset(),
        in_order(a),
        in_order(b),
        keeps_order(a, b),
    ensures
        a == b,
    decreases a.len(),
{
    vstd::seq_lib::to_multiset_len(a);
    vstd::seq_lib::to_multiset_len(b);
    if a.len() == 0 {
        assert(a =~= b);
    } else {
        lemma_order_is_unique(a, b);
        let n = a.len() - 1;
        assert(keys_of(a)[n] == keys_of(b)[n]);
        let x = a.last();
        let y = b.last();
        let front = a.drop_last();
        let other = b.drop_last();
        assert(a =~= front.push(x));
        assert(b =~= other.push(y));
        assert forall|k: Seq<int>|
            {
                &&& #[trigger] front.filter(has_key(k)) == other.filter(has_key(k))
                &&& (k == x.key() ==> x == y)
            } by {
            front.lemma_filter_push(x, has_key(k));
            other.lemma_filter_push(y, has_key(k));
            assert(a.filter(has_key(k)) == b.filter(has_key(k)));
            if k == x.key() {
                let kept = front.filter(has_key(k));
                let held = other.filter(has_key(k));
                assert(kept.push(x).last() == held.push(y).last());
                assert(kept =~= kept.push(x).drop_last());
                assert(held =~= held.push(y).drop_last());
            }
        }
        assert(front.filter(has_key(x.key())) == other.filter(has_key(x.key())));
        vstd::seq_lib::to_multiset_build(front, x);
        vstd::seq_lib::to_multiset_build(other, y);
        assert(front.to_multiset() =~= a.to_multiset().remove(x));
        assert(other.to_multiset() =~= b.to_multiset().remove(y));
        assert(in_order(front)) by {
            assert forall|i: int, j: int| 0 <= i < j < front.len() implies lex_le(
                front[i].key(),
                front[j].key(),
            ) by {
                assert(lex_le(a[i].key(), a[j].key()));
            }
        }
        assert(in_order(other)) by {
            assert forall|i: int, j: int| 0 <= i < j < other.len() implies lex_le(
                other[i].key(),
                other[j].key(),
            ) by {
                assert(lex_le(b[i].key(), b[j].key()));
            }
        }
        lemma_stable_order_is_unique(front, other);
    }
}

/// A stable sort agrees with every stable reference sort, item for item: two
/// sortings of one input that both keep the items with equal keys in the
/// order of the input are the same sequence.
pub proof fn law_stable_sort_agrees_with_reference<T: Item>(
    input: Seq<T>,
    output: Seq<T>,
    reference: Seq<T>,
)
    requires
        is_sorting_of(output, input),
        keeps_order(output, input),
        is_sorting_of(reference, input),
        keeps_order(reference, input),
    ensures
        output == reference,
{
    assert forall|k: Seq<int>| #[trigger]
        output.filter(has_key(k)) == reference.filter(has_key(k)) by {
        assert(output.filter(has_key(k)) == input.filter(has_key(k)));
        assert(reference.filter(has_key(k)) == input.filter(has_key(k)));
    }
    lemma_stable_order_is_unique(output, reference);
}

/// A stable sort of what is in order already changes nothing: the output is
/// the input.
pub proof fn law_stable_sorting_is_idempotent<T: Item>(input: Seq<T>, output: Seq<T>)
    requires
        in_order(input),
        is_sorting_of(output, input),
        keeps_order(output, input),
    ensures
        output == input,
{
    lemma_stable_order_is_unique(output, input);
}

/// The tuning does not show in the result: sortings of one input made with
/// two tunings hold the same keys at the same places.
pub proof fn law_tuning_does_not_show<T: Item>(
    input: Seq<T>,
    first: BurstConfig,
    second: BurstConfig,
    first_output: Seq<T>,
    second_output: Seq<T>,
)
    requires
        crate::all_fit(input, first.classes),
        crate::all_fit(input, second.classes),
        is_sorting_of(first_output, input),
        is_sorting_of(second_output, input),
    ensures
        keys_of(first_output) == keys_of(second_output),
{
    lemma_order_is_unique(first_output, second_output);
}

/// The parallel merge gives what the sequential merge gives: two targets that
/// were extended in order by the items of one trie hold the same keys at the
/// same places.
pub proof fn law_parallel_merge_agrees<T: Item>(
    before: Seq<T>,
    bag: Multiset<T>,
    sequential: Seq<T>,
    parallel: Seq<T>,
)
    requires
        extends_in_order(before, sequential, bag),
        extends_in_order(before, parallel, bag),
    ensures
        keys_of(sequential) == keys_of(parallel),
{
    let n = before.len() as int;
    let a = sequential.skip(n);
    let b = parallel.skip(n);
    lemma_order_is_unique(a, b);
    assert(sequential =~= sequential.take(n) + a);
    assert(parallel =~= parallel.take(n) + b);
    assert(sequential.len() == parallel.len()) by {
        assert(keys_of(a).len() == keys_of(b).len());
    }
    assert forall|i: int| 0 <= i < sequential.len() implies keys_of(sequential)[i] == keys_of(
        parallel,
    )[i] by {
        if i < n {
            assert(sequential.take(n)[i] == parallel.take(n)[i]);
        } else {
            assert(keys_of(a)[i - n] == keys_of(b)[i - n]);
        }
    }
    assert(keys_of(sequential) =~= keys_of(parallel));
}

/// Texts with the same key are the same text.
pub proof fn lemma_key_determines_text<T: Text>(a: T, b: T)
    requires
        a.key() == b.key(),
    ensures
        a.text() == b.text(),
{
    a.lemma_key_is_encoding();
    b.lemma_key_is_encoding();
    let x = vstd::utf8::encode_utf8(a.text());
    let y = vstd::utf8::encode_utf8(b.text());
    assert(x =~= y) by {
        assert(byte_units(x).len() == byte_units(y).len());
        assert forall|i: int| 0 <= i < x.len() implies x[i] == y[i] by {
            assert(byte_units(x)[i] == byte_units(y)[i]);
        }
    }
    vstd::utf8::encode_utf8_decode_utf8(a.text());
    vstd::utf8::encode_utf8_decode_utf8(b.text());
}

/// Sorting texts that are in order already gives back the same texts at the
/// same places.
pub proof fn law_sorted_texts_stay<T: Text>(input: Seq<T>, output: Seq<T>)
    requires
        in_order(input),
        is_sorting_of(output, input),
    ensures
        output.len() == input.len(),
        forall|i: int| 0 <= i < output.len() ==> (#[trigger] output[i]).text() == input[i].text(),
{
    law_sorting_is_idempotent(input, output);
    assert(keys_of(output).len() == keys_of(input).len());
    assert forall|i: int| 0 <= i < output.len() implies (#[trigger] output[i]).text()
        == input[i].text() by {
        assert(keys_of(output)[i] == keys_of(input)[i]);
        lemma_key_determines_text(output[i], input[i]);
    }
}

/// Two sortings of the same texts are the same texts at the same places.
pub proof fn law_sortings_of_texts_agree<T: Text>(
    input: Seq<T>,
    output: Seq<T>,
    reference: Seq<T>,
)
    requires
        is_sorting_of(output, input),
        is_sorting_of(reference, input),
    ensures
        output.len() == reference.len(),
        forall|i: int|
            0 <= i < output.len() ==> (#[trigger] output[i]).text() == reference[i].text(),
{
    law_agrees_with_reference_sort(input, output, reference);
    assert(keys_of(output).len() == keys_of(reference).len());
    assert forall|i: int| 0 <= i < output.len() implies (#[trigger] output[i]).text()
        == reference[i].text() by {
        assert(keys_of(output)[i] == keys_of(reference)[i]);
        lemma_key_determines_text(output[i], reference[i]);
    }
}

} // verus!
