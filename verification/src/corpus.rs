//! Material to sort: the words of a text, and random strings of digits and
//! letters.

use vstd::prelude::*;
use rand::distributions::{Alphanumeric, Distribution, Uniform};
use unicode_segmentation::UnicodeSegmentation;
use crate::alphanumeric::{classified_from, find_unclassified};
use crate::item::Item;

verus! {

/// The words of `text`, in the order they stand in it. Words are what is left
/// of a text that is split at the word boundaries of Unicode when the pieces
/// without a letter or a number are taken out.
pub uninterp spec fn unicode_words_of(text: Seq<char>) -> Seq<Seq<char>>;

/// The texts of `items`, in the order of the strings.
pub open spec fn texts_of(items: Seq<String>) -> Seq<Seq<char>> {
    Seq::new(items.len(), |i: int| items[i]@)
}

/// `s` holds only ASCII digits and letters.
pub open spec fn is_alphanumeric_string(s: String) -> bool {
    classified_from(s.key(), 0)
}

/// Calls `unicode_words` of the crate unicode-segmentation on `text`, and
/// copies each word into a string of its own.
///
/// Not proved: that the strings returned are the words of `text`, as the
/// crate finds them, in their order.
#[verifier::external_body]
fn unicode_words(text: &str) -> (words: Vec<String>)
    ensures
        texts_of(words@) == unicode_words_of(text@),
{
    text.unicode_words().map(ToOwned::to_owned).collect()
}

/// Calls `Uniform::new_inclusive` and `sample` of the crate rand, with the
/// generator of the thread.
///
/// Not proved: that the number returned lies between `min` and `max`. Which
/// number it is depends on chance.
#[verifier::external_body]
fn random_length(min: usize, max: usize) -> (length: usize)
    requires
        min <= max,
    ensures
        min <= length <= max,
{
    Uniform::new_inclusive(min, max).sample(&mut rand::thread_rng())
}

/// Calls `sample_iter` of the distribution `Alphanumeric` of the crate rand,
/// with the generator of the thread, and collects `length` of its bytes as
/// characters.
///
/// Not proved: that the string returned holds `length` bytes, each an ASCII
/// digit or letter. Which they are depends on chance.
#[verifier::external_body]
fn random_alphanumeric(length: usize) -> (s: String)
    ensures
        s.key().len() == length,
        is_alphanumeric_string(s),
{
    Alphanumeric.sample_iter(rand::thread_rng()).take(length).map(char::from).collect()
}

/// The words of `text`.
pub fn words(text: &str) -> (words: Vec<String>)
    ensures
        texts_of(words@) == unicode_words_of(text@),
{
    unicode_words(text)
}

/// The strings of `words` that hold only ASCII digits and letters, in their
/// order.
pub fn keep_alphanumeric(words: Vec<String>) -> (kept: Vec<String>)
    ensures
        kept@ == words@.filter(|s: String| is_alphanumeric_string(s)),
{
    let ghost all = words@;
    let ghost wanted = |s: String| is_alphanumeric_string(s);
    let mut kept: Vec<String> = Vec::new();
    proof {
        assert(all.take(0).filter(wanted) =~= Seq::<String>::empty());
    }
    for word in it: words
        invariant
            it.seq() == all,
            wanted == (|s: String| is_alphanumeric_string(s)),
            kept@ == all.take(it.index() as int).filter(wanted),
    {
        proof {
            let at = it.index() as int;
            assert(all.take(at + 1) =~= all.take(at).push(word));
            all.take(at).lemma_filter_push(word, wanted);
        }
        if find_unclassified(&word, 0).is_none() {
            kept.push(word);
        }
    }
    proof {
        assert(all.take(all.len() as int) =~= all);
    }
    kept
}

/// The words of `text` that hold only ASCII digits and letters.
pub fn alphanumeric_words(text: &str) -> (kept: Vec<String>)
    ensures
        exists|all: Seq<String>|
            #[trigger] texts_of(all) == unicode_words_of(text@) && kept@ == all.filter(
                |s: String| is_alphanumeric_string(s),
            ),
{
    let all = unicode_words(text);
    proof {
        assert(texts_of(all@) == unicode_words_of(text@));
    }
    keep_alphanumeric(all)
}

/// `length` random strings of ASCII digits and letters, each of a random
/// length from `min_length` to `max_length`.
pub fn get_random_str(length: usize, min_length: usize, max_length: usize) -> (strings: Vec<String>)
    requires
        min_length <= max_length,
    ensures
        strings@.len() == length,
        forall|i: int|
            0 <= i < strings@.len() ==> {
                &&& min_length <= (#[trigger] strings@[i]).key().len() <= max_length
                &&& is_alphanumeric_string(strings@[i])
            },
{
    let mut strings: Vec<String> = Vec::with_capacity(length);
    let mut made: usize = 0;
    while made < length
        invariant
            min_length <= max_length,
            made <= length,
            strings@.len() == made,
            forall|i: int|
                0 <= i < strings@.len() ==> {
                    &&& min_length <= (#[trigger] strings@[i]).key().len() <= max_length
                    &&& is_alphanumeric_string(strings@[i])
                },
        decreases length - made,
    {
        let str_length = random_length(min_length, max_length);
        let item = random_alphanumeric(str_length);
        strings.push(item);
        made += 1;
    }
    strings
}

} // verus!
