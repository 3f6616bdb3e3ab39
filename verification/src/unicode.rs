//! A burst trie over the characters of texts. A burst node keeps its
//! children in a list ordered by character, so that it needs room only for the
//! characters that occur.

use vstd::prelude::*;
use vstd::multiset::Multiset;
use crate::encoding::{code_points, lemma_encoding_keeps_order};
use crate::item::{Item, Text, in_order, larger, lemma_in_order_by_remainder};
use crate::item::{lemma_nothing_in_empty, lemma_member_of_permutation};
use crate::leaf::{sort_from, stable_sort_from};
use crate::ties::{keeps_order, lemma_order_concat, lemma_order_reflexive, lemma_ties_keep_order};
use crate::ties::{lemma_order_joins_run, lemma_order_push, lemma_order_transitive};
use crate::order::{has_prefix, lex_le};
use crate::rows::{sum_of, most_of, lemma_sum_member, lemma_sum_nothing, lemma_sum_update};
use crate::rows::{lemma_sum_insert, lemma_most_bounds, lemma_most_update, lemma_most_insert};
use crate::order::{lemma_prefix_comes_first, lemma_smaller_branch_comes_first};

verus! {

/// A list that has come to hold more texts than this is burst.
pub const BURST_LIMIT: usize = 8192;

/// A node of the trie, `offset` characters below the root.
pub struct TrieNode<T> {
    /// The number of characters on the path from the root to the node.
    pub offset: usize,
    /// The texts that end at the node.
    pub matches: Vec<T>,
    /// The texts that go on: in a list, or below the children once the
    /// node has burst.
    pub kind: NodeKind<T>,
}

/// The two states of a node.
pub enum NodeKind<T> {
    /// A flat list of texts, in the order they came.
    Collapsed(Vec<T>),
    /// The children of a burst node, each with the character that leads to it,
    /// in the order of the characters.
    Burst(Vec<(char, TrieNode<T>)>),
}

/// The number of the code point of `c`.
pub open spec fn code(c: char) -> int {
    (c as u32) as int
}

/// The key of a text in this trie: its characters, each as the number of its
/// code point.
pub open spec fn text_key<T: Text>(s: T) -> Seq<int> {
    code_points(s.text())
}

/// Texts stand in the order of their code points just when they stand in
/// the order of their bytes.
pub proof fn law_orders_agree<T: Text>(a: T, b: T)
    ensures
        lex_le(text_key(a), text_key(b)) <==> lex_le(a.key(), b.key()),
{
    a.lemma_key_is_encoding();
    b.lemma_key_is_encoding();
    lemma_encoding_keeps_order(a.text(), b.text());
}

/// Texts are in the order of their code points just when they are in the
/// order of their bytes.
pub proof fn law_text_order_is_byte_order<T: Text>(items: Seq<T>)
    ensures
        texts_in_order(items) <==> in_order(items),
{
    if texts_in_order(items) {
        assert forall|i: int, j: int| 0 <= i < j < items.len() implies lex_le(
            items[i].key(),
            items[j].key(),
        ) by {
            assert(lex_le(text_key(items[i]), text_key(items[j])));
            law_orders_agree(items[i], items[j]);
        }
    }
    if in_order(items) {
        assert forall|i: int, j: int| 0 <= i < j < items.len() implies lex_le(
            text_key(items[i]),
            text_key(items[j]),
        ) by {
            assert(lex_le(items[i].key(), items[j].key()));
            law_orders_agree(items[i], items[j]);
        }
    }
}

/// Every text of `items` comes before all the texts that follow it, in the
/// order of their code points.
pub open spec fn texts_in_order<T: Text>(items: Seq<T>) -> bool {
    forall|i: int, j: int|
        0 <= i < j < items.len() ==> lex_le(text_key(items[i]), text_key(items[j]))
}

/// `output` holds the texts of `input`, each as often as `input` does, in
/// the order of their code points.
pub open spec fn is_text_sorting_of<T: Text>(output: Seq<T>, input: Seq<T>) -> bool {
    &&& output.to_multiset() == input.to_multiset()
    &&& texts_in_order(output)
}

/// Sorting texts by their code points and sorting them by their bytes is
/// the same.
pub proof fn law_text_sorting_is_byte_sorting<T: Text>(output: Seq<T>, input: Seq<T>)
    ensures
        is_text_sorting_of(output, input) <==> crate::item::is_sorting_of(output, input),
{
    law_text_order_is_byte_order(output);
}

/// `after` is `before` with the texts of `bag` appended in order.
pub open spec fn extends_texts_in_order<T: Text>(
    before: Seq<T>,
    after: Seq<T>,
    bag: Multiset<T>,
) -> bool {
    &&& before.len() <= after.len()
    &&& after.take(before.len() as int) == before
    &&& after.skip(before.len() as int).to_multiset() == bag
    &&& texts_in_order(after.skip(before.len() as int))
}

/// A sort agrees with every reference sort: two sortings of the same texts
/// by their code points are the same texts at the same places.
pub proof fn law_text_sortings_agree<T: Text>(input: Seq<T>, output: Seq<T>, reference: Seq<T>)
    requires
        is_text_sorting_of(output, input),
        is_text_sorting_of(reference, input),
    ensures
        output.len() == reference.len(),
        forall|i: int|
            0 <= i < output.len() ==> (#[trigger] output[i]).text() == reference[i].text(),
{
    law_text_sorting_is_byte_sorting(output, input);
    law_text_sorting_is_byte_sorting(reference, input);
    crate::laws::law_sortings_of_texts_agree(input, output, reference);
}

/// Sorting texts that are in the order of their code points already gives
/// back the same texts at the same places.
pub proof fn law_texts_in_order_stay<T: Text>(input: Seq<T>, output: Seq<T>)
    requires
        texts_in_order(input),
        is_text_sorting_of(output, input),
    ensures
        output.len() == input.len(),
        forall|i: int| 0 <= i < output.len() ==> (#[trigger] output[i]).text() == input[i].text(),
{
    law_text_sortings_agree(input, output, input);
}

/// The length of the longest text in `items`, in characters.
pub open spec fn longest_text<T: Text>(items: Seq<T>) -> nat
    decreases items.len(),
{
    if items.len() == 0 {
        0
    } else {
        larger(longest_text(items.drop_last()), items.last().text().len())
    }
}

/// The longest of some texts and one more.
proof fn lemma_longest_text_push<T: Text>(items: Seq<T>, item: T)
    ensures
        longest_text(items.push(item)) == larger(longest_text(items), item.text().len()),
{
    assert(items.push(item).drop_last() =~= items);
}

/// No text is longer than the longest.
proof fn lemma_longest_text_bounds<T: Text>(items: Seq<T>, i: int)
    requires
        0 <= i < items.len(),
    ensures
        items[i].text().len() <= longest_text(items),
    decreases items.len(),
{
    if i < items.len() - 1 {
        lemma_longest_text_bounds(items.drop_last(), i);
    }
}

/// Two runs in order, the first wholly before the second, make one run in order.
proof fn lemma_texts_concat<T: Text>(x: Seq<T>, y: Seq<T>)
    requires
        texts_in_order(x),
        texts_in_order(y),
        forall|i: int, j: int|
            0 <= i < x.len() && 0 <= j < y.len() ==> lex_le(
                text_key(#[trigger] x[i]),
                text_key(#[trigger] y[j]),
            ),
    ensures
        texts_in_order(x + y),
{
    let z = x + y;
    assert forall|i: int, j: int| 0 <= i < j < z.len() implies lex_le(
        text_key(z[i]),
        text_key(z[j]),
    ) by {
        if j < x.len() {
        } else if i < x.len() {
            assert(lex_le(text_key(x[i]), text_key(y[j - x.len()])));
        } else {
            assert(lex_le(text_key(y[i - x.len()]), text_key(y[j - x.len()])));
        }
    }
}

/// A text has at most as many characters as its encoding has bytes.
proof fn lemma_chars_within_bytes(chars: Seq<char>)
    ensures
        chars.len() <= vstd::utf8::encode_utf8(chars).len(),
    decreases chars.len(),
{
    if chars.len() > 0 {
        lemma_chars_within_bytes(chars.drop_first());
    }
}

/// The character of `s` at position `at`, if `s` is that long.
pub fn char_at(s: &str, at: usize) -> (found: Option<char>)
    ensures
        found == (if at < s@.len() {
            Some(s@[at as int])
        } else {
            None
        }),
{
    let mut seen: usize = 0;
    for c in it: s.chars()
        invariant
            seen == it.index(),
            seen <= at,
            it.seq() == s@,
    {
        if seen == at {
            return Some(c);
        }
        seen += 1;
    }
    None
}

/// The character of `s` that a node at `offset` routes it by, if `s` goes on
/// beyond the node.
fn classify<T: Text>(s: &T, offset: usize) -> (found: Option<char>)
    ensures
        found == (if offset < s.text().len() {
            Some(s.text()[offset as int])
        } else {
            None
        }),
        found is Some ==> offset < usize::MAX,
{
    let text = s.as_text();
    proof {
        lemma_chars_within_bytes(text@);
    }
    if offset < text.as_bytes().len() {
        char_at(text, offset)
    } else {
        None
    }
}

/// The characters of `children` are in strictly ascending order.
pub open spec fn ascending<T: Text>(children: Seq<(char, TrieNode<T>)>) -> bool {
    forall|i: int, j: int|
        0 <= i < j < children.len() ==> code((#[trigger] children[i]).0) < code(
            (#[trigger] children[j]).0,
        )
}

/// Calls `binary_search_by_key` of the standard library on `children`, with
/// the character of a child as its key.
///
/// Not proved: that for children in ascending order of their characters the
/// call returns `Ok` with the place of the child for `c`, if there is one, and
/// else `Err` with the place where that child belongs: after all children with
/// smaller characters and before all with greater ones.
#[verifier::external_body]
fn find_child<T: Text>(children: &Vec<(char, TrieNode<T>)>, c: char) -> (found: Result<
    usize,
    usize,
>)
    requires
        ascending(children@),
    ensures
        match found {
            Ok(at) => at < children@.len() && children@[at as int].0 == c,
            Err(at) => {
                &&& at <= children@.len()
                &&& forall|i: int| 0 <= i < at ==> code((#[trigger] children@[i]).0) < code(c)
                &&& forall|i: int|
                    at <= i < children@.len() ==> code(c) < code((#[trigger] children@[i]).0)
            },
        },
{
    children.binary_search_by_key(&c, |child| child.0)
}

impl<T: Text> TrieNode<T> {
    /// The node and the nodes below it are as they should be, for a node that
    /// is reached from the root by `path`: its matches are the texts that
    /// spell the path; a list holds no more than the burst limit, of texts
    /// that go on beyond the path; the children of a burst node are in the
    /// order of their characters, each reached by the path and its character.
    pub open spec fn wf_at(self, path: Seq<int>) -> bool
        decreases self,
    {
        &&& self.offset == path.len()
        &&& forall|i: int|
            0 <= i < self.matches@.len() ==> text_key(#[trigger] self.matches@[i]) == path
        &&& match self.kind {
            NodeKind::Collapsed(list) => {
                &&& list@.len() <= BURST_LIMIT
                &&& forall|i: int|
                    0 <= i < list@.len() ==> Self::listed_at(#[trigger] list@[i], path)
            },
            NodeKind::Burst(children) => Self::wf_children(children@, path),
        }
    }

    /// `s` belongs in the list of a node at `path`.
    pub open spec fn listed_at(s: T, path: Seq<int>) -> bool {
        &&& has_prefix(text_key(s), path)
        &&& s.text().len() > path.len()
    }

    /// `children` are as the children of a burst node at `path` should be.
    pub open spec fn wf_children(children: Seq<(char, TrieNode<T>)>, path: Seq<int>) -> bool
        decreases children,
    {
        &&& ascending(children)
        &&& forall|i: int|
            0 <= i < children.len() ==> (#[trigger] children[i]).1.wf_at(
                path.push(code(children[i].0)),
            )
    }

    /// `after` is the node `before` with `s` added: a text that ends at the
    /// node joins its matches; another goes below a node that has burst, or
    /// joins the list, which bursts if it then holds more than the burst
    /// limit.
    pub open spec fn follows_insert(after: TrieNode<T>, before: TrieNode<T>, s: T) -> bool
        decreases before,
    {
        if s.text().len() <= before.offset {
            &&& after.matches@ == before.matches@.push(s)
            &&& after.kind == before.kind
        } else {
            &&& after.matches@ == before.matches@
            &&& match before.kind {
                NodeKind::Burst(children) => {
                    &&& after.kind is Burst
                    &&& Self::children_follow(
                        after.kind->Burst_0@,
                        children@,
                        s,
                        s.text()[before.offset as int],
                        before.offset as int,
                    )
                },
                NodeKind::Collapsed(list) => {
                    let grown = list@.push(s);
                    if grown.len() > BURST_LIMIT {
                        after.kind is Burst
                    } else {
                        after.kind is Collapsed && after.kind->Collapsed_0@ == grown
                    }
                },
            }
        }
    }

    /// `after` are the children `before` with `s`, whose character at `offset`
    /// is `c`, added. If there is a child for `c`, it is that child with `s`
    /// added. Else a child for `c` that holds `s` and nothing else has come in
    /// at its place. The other children are as they were.
    pub open spec fn children_follow(
        after: Seq<(char, TrieNode<T>)>,
        before: Seq<(char, TrieNode<T>)>,
        s: T,
        c: char,
        offset: int,
    ) -> bool
        decreases before,
    {
        exists|at: int|
            #![trigger before[at]]
            #![trigger after[at]]
            {
                ||| {
                    &&& 0 <= at < before.len()
                    &&& before[at].0 == c
                    &&& after.len() == before.len()
                    &&& after == before.update(at, after[at])
                    &&& after[at].0 == c
                    &&& Self::follows_insert(after[at].1, before[at].1, s)
                }
                ||| {
                    &&& 0 <= at <= before.len()
                    &&& forall|i: int| 0 <= i < before.len() ==> (#[trigger] before[i]).0 != c
                    &&& after.len() == before.len() + 1
                    &&& after == before.insert(at, after[at])
                    &&& after[at].0 == c
                    &&& Self::holds_only(after[at].1, s, offset + 1)
                }
            }
    }

    /// `node` is a node at `offset` that holds `s` and nothing else.
    pub open spec fn holds_only(node: TrieNode<T>, s: T, offset: int) -> bool {
        &&& node.offset == offset
        &&& node.kind is Collapsed
        &&& if s.text().len() <= offset {
            node.matches@ == seq![s] && node.kind->Collapsed_0@.len() == 0
        } else {
            node.matches@.len() == 0 && node.kind->Collapsed_0@ == seq![s]
        }
    }

    /// Every character that leads to a child of `children` stands at `offset`
    /// in some text of `texts`.
    pub open spec fn keys_occur(children: Seq<(char, TrieNode<T>)>, texts: Seq<T>, offset: int) -> bool {
        forall|i: int|
            0 <= i < children.len() ==> Self::occurs(#[trigger] children[i].0, texts, offset)
    }

    /// `c` stands at `offset` in some text of `texts`.
    pub open spec fn occurs(c: char, texts: Seq<T>, offset: int) -> bool {
        exists|j: int|
            0 <= j < texts.len() && offset < (#[trigger] texts[j]).text().len()
                && texts[j].text()[offset] == c
    }

    /// The node is well-formed for some path.
    pub open spec fn wf(self) -> bool {
        exists|path: Seq<int>| self.wf_at(path)
    }

    /// The node is well-formed for a path that `s` begins with.
    pub open spec fn admits(self, s: T) -> bool {
        exists|path: Seq<int>| self.wf_at(path) && has_prefix(text_key(s), path)
    }

    /// The texts of the node, as a merge meets the lists that hold them: the
    /// matches, then the list or the texts of the children, child after
    /// child; each list in the order in which its texts stand in it.
    pub open spec fn arrival(self) -> Seq<T>
        decreases self,
    {
        self.matches@ + match self.kind {
            NodeKind::Collapsed(list) => list@,
            NodeKind::Burst(children) => Self::arrival_of(children@),
        }
    }

    /// The texts of `children`, child after child, each as `arrival` gives
    /// them.
    pub open spec fn arrival_of(children: Seq<(char, TrieNode<T>)>) -> Seq<T>
        decreases children,
    {
        if children.len() == 0 {
            Seq::empty()
        } else {
            Self::arrival_of(children.drop_last()) + children.last().1.arrival()
        }
    }

    /// Every text of a node begins with the node's path, and those that are
    /// no matches go on beyond it.
    proof fn lemma_arrival_under_path(self, path: Seq<int>, i: int)
        requires
            self.wf_at(path),
            0 <= i < self.arrival().len(),
        ensures
            has_prefix(text_key(self.arrival()[i]), path),
            i >= self.matches@.len() ==> self.arrival()[i].text().len() > path.len(),
        decreases self,
    {
        if i >= self.matches@.len() {
            match self.kind {
                NodeKind::Collapsed(list) => {
                    assert(Self::listed_at(list@[i - self.matches@.len()], path));
                },
                NodeKind::Burst(children) => {
                    let j = Self::lemma_arrival_of_under_path(
                        children@,
                        path,
                        i - self.matches@.len(),
                    );
                },
            }
        }
    }

    /// Every text of the children of a node at `path` begins with the path and
    /// the character of its child.
    proof fn lemma_arrival_of_under_path(
        children: Seq<(char, TrieNode<T>)>,
        path: Seq<int>,
        i: int,
    ) -> (j: int)
        requires
            forall|c: int|
                0 <= c < children.len() ==> (#[trigger] children[c]).1.wf_at(
                    path.push(code(children[c].0)),
                ),
            0 <= i < Self::arrival_of(children).len(),
        ensures
            0 <= j < children.len(),
            has_prefix(text_key(Self::arrival_of(children)[i]), path.push(code(children[j].0))),
        decreases children,
    {
        let front = Self::arrival_of(children.drop_last());
        if i < front.len() {
            Self::lemma_arrival_of_under_path(children.drop_last(), path, i)
        } else {
            children.last().1.lemma_arrival_under_path(
                path.push(code(children.last().0)),
                i - front.len(),
            );
            children.len() - 1
        }
    }

    /// The texts of children, one run after another, are the texts of the
    /// first run and then those of the second.
    proof fn lemma_arrival_of_concat(a: Seq<(char, TrieNode<T>)>, b: Seq<(char, TrieNode<T>)>)
        ensures
            Self::arrival_of(a + b) == Self::arrival_of(a) + Self::arrival_of(b),
        decreases b.len(),
    {
        if b.len() == 0 {
            assert(a + b =~= a);
            assert(Self::arrival_of(a) + Self::arrival_of(b) =~= Self::arrival_of(a));
        } else {
            Self::lemma_arrival_of_concat(a, b.drop_last());
            assert((a + b).drop_last() =~= a + b.drop_last());
            assert((a + b).last() == b.last());
            assert(Self::arrival_of(a + b) =~= Self::arrival_of(a) + Self::arrival_of(b));
        }
    }

    /// The texts of one child alone are the texts of its node.
    proof fn lemma_arrival_of_one(child: (char, TrieNode<T>))
        ensures
            Self::arrival_of(seq![child]) == child.1.arrival(),
    {
        let one = seq![child];
        assert(one.drop_last() =~= Seq::<(char, TrieNode<T>)>::empty());
        assert(Self::arrival_of(one.drop_last()) =~= Seq::<T>::empty());
        assert(one.last() == child);
        assert(Self::arrival_of(one) =~= child.1.arrival());
    }

    /// None of the texts of children whose characters all differ from the
    /// character of `s` at `offset` has the key of `s`.
    proof fn lemma_other_children_differ(
        children: Seq<(char, TrieNode<T>)>,
        path: Seq<int>,
        s: T,
        i: int,
    )
        requires
            forall|c: int|
                0 <= c < children.len() ==> (#[trigger] children[c]).1.wf_at(
                    path.push(code(children[c].0)),
                ),
            path.len() < s.text().len(),
            forall|c: int|
                0 <= c < children.len() ==> code((#[trigger] children[c]).0) != code(
                    s.text()[path.len() as int],
                ),
            0 <= i < Self::arrival_of(children).len(),
        ensures
            Self::arrival_of(children)[i].key() != s.key(),
    {
        let t = Self::arrival_of(children)[i];
        let j = Self::lemma_arrival_of_under_path(children, path, i);
        let at = path.len() as int;
        assert(text_key(t)[at] == path.push(code(children[j].0))[at]);
        if t.key() == s.key() {
            crate::laws::lemma_key_determines_text(t, s);
            assert(text_key(t)[at] == code(s.text()[at]));
        }
    }

    /// The texts held by the node and by the nodes below it.
    pub open spec fn items(self) -> Multiset<T>
        decreases self,
    {
        self.matches@.to_multiset().add(
            match self.kind {
                NodeKind::Collapsed(list) => list@.to_multiset(),
                NodeKind::Burst(children) => Self::items_of(children@),
            },
        )
    }

    /// The texts held under `children`.
    pub open spec fn items_of(children: Seq<(char, TrieNode<T>)>) -> Multiset<T>
        decreases children,
    {
        if children.len() == 0 {
            Multiset::empty()
        } else {
            Self::items_of(children.drop_last()).add(children.last().1.items())
        }
    }

    /// The length of the longest text in a list at or below the node.
    pub open spec fn reach(self) -> nat
        decreases self,
    {
        match self.kind {
            NodeKind::Collapsed(list) => longest_text(list@),
            NodeKind::Burst(children) => Self::reach_of(children@),
        }
    }

    /// The largest reach among `children`.
    pub open spec fn reach_of(children: Seq<(char, TrieNode<T>)>) -> nat
        decreases children,
    {
        if children.len() == 0 {
            0
        } else {
            larger(Self::reach_of(children.drop_last()), children.last().1.reach())
        }
    }

    /// What each of `children` holds.
    spec fn bags_of(children: Seq<(char, TrieNode<T>)>) -> Seq<Multiset<T>> {
        Seq::new(children.len(), |at: int| children[at].1.items())
    }

    /// How far each of `children` reaches.
    spec fn reaches_of(children: Seq<(char, TrieNode<T>)>) -> Seq<nat> {
        Seq::new(children.len(), |at: int| children[at].1.reach())
    }

    /// Children hold together what each of them holds, and reach as far as
    /// the one of them that reaches furthest.
    proof fn lemma_row(children: Seq<(char, TrieNode<T>)>)
        ensures
            Self::items_of(children) == sum_of(Self::bags_of(children)),
            Self::reach_of(children) == most_of(Self::reaches_of(children)),
        decreases children.len(),
    {
        if children.len() > 0 {
            Self::lemma_row(children.drop_last());
            assert(Self::bags_of(children).drop_last() =~= Self::bags_of(children.drop_last()));
            assert(Self::reaches_of(children).drop_last() =~= Self::reaches_of(
                children.drop_last(),
            ));
        }
    }

    /// Every text at or below a node begins with the node's path.
    proof fn lemma_items_under_path(self, path: Seq<int>, item: T)
        requires
            self.wf_at(path),
            self.items().count(item) > 0,
        ensures
            has_prefix(text_key(item), path),
        decreases self,
    {
        broadcast use vstd::seq_lib::group_to_multiset_ensures;

        if self.matches@.to_multiset().count(item) > 0 {
            assert(self.matches@.contains(item));
        } else {
            match self.kind {
                NodeKind::Collapsed(list) => {
                    assert(list@.contains(item));
                },
                NodeKind::Burst(children) => {
                    Self::lemma_row(children@);
                    let at = lemma_sum_member(Self::bags_of(children@), item);
                    children@[at].1.lemma_items_under_path(
                        path.push(code(children@[at].0)),
                        item,
                    );
                },
            }
        }
    }

    /// An empty node at `offset`.
    pub fn new(offset: usize) -> (node: TrieNode<T>)
        ensures
            node.offset == offset,
            node.matches@.len() == 0,
            node.kind is Collapsed,
            node.kind->Collapsed_0@.len() == 0,
            node.items() == Multiset::<T>::empty(),
            node.reach() == 0,
            forall|path: Seq<int>| path.len() == offset ==> #[trigger] node.wf_at(path),
    {
        let node = TrieNode { offset, matches: Vec::new(), kind: NodeKind::Collapsed(Vec::new()) };
        proof {
            lemma_nothing_in_empty(node.matches@);
            lemma_nothing_in_empty(node.kind->Collapsed_0@);
            assert(node.items() =~= Multiset::<T>::empty());
        }
        node
    }

    /// Adds `s` to the node.
    pub fn insert(&mut self, s: T)
        requires
            old(self).admits(s),
        ensures
            final(self).admits(s),
            final(self).offset == old(self).offset,
            final(self).items() == old(self).items().insert(s),
            Self::follows_insert(*final(self), *old(self), s),
            keeps_order(final(self).arrival(), old(self).arrival().push(s)),
            forall|path: Seq<int>|
                #[trigger] old(self).wf_at(path) && has_prefix(text_key(s), path)
                    ==> final(self).wf_at(path),
    {
        let ghost witness = choose|path: Seq<int>|
            self.wf_at(path) && has_prefix(text_key(s), path);
        self.insert_at(s, Ghost(witness));
        proof {
            assert forall|path: Seq<int>|
                #[trigger] old(self).wf_at(path) && has_prefix(
                    text_key(s),
                    path,
                ) implies self.wf_at(path) by {
                assert(path =~= witness);
            }
        }
    }

    /// Adds `s` to a node that is reached by `path`.
    fn insert_at(&mut self, s: T, Ghost(path): Ghost<Seq<int>>)
        requires
            old(self).wf_at(path),
            has_prefix(text_key(s), path),
        ensures
            final(self).wf_at(path),
            final(self).offset == old(self).offset,
            final(self).items() == old(self).items().insert(s),
            final(self).reach() <= larger(old(self).reach(), s.text().len()),
            Self::follows_insert(*final(self), *old(self), s),
            keeps_order(final(self).arrival(), old(self).arrival().push(s)),
        decreases larger(old(self).reach(), s.text().len()) - old(self).offset, 2int,
    {
        broadcast use vstd::seq_lib::group_to_multiset_ensures;

        let ghost whole = *self;
        match classify(&s, self.offset) {
            Some(c) => {
                match &mut self.kind {
                    NodeKind::Burst(children) => {
                        let ghost before = children@;
                        add_to_burst_node(children, s, c, self.offset, Ghost(path));
                        proof {
                            let m = whole.matches@;
                            lemma_order_reflexive(m);
                            lemma_order_concat(
                                m,
                                m,
                                Self::arrival_of(children@),
                                Self::arrival_of(before).push(s),
                            );
                            assert(m + Self::arrival_of(before).push(s) =~= (m + Self::arrival_of(
                                before,
                            )).push(s));
                        }
                    },
                    NodeKind::Collapsed(children) => {
                        proof {
                            lemma_longest_text_push(children@, s);
                        }
                        children.push(s);
                        proof {
                            let m = whole.matches@;
                            assert(m + children@ =~= whole.arrival().push(s));
                            lemma_order_reflexive(whole.arrival().push(s));
                        }
                        if children.len() > BURST_LIMIT {
                            let ghost grown = *self;
                            self.burst(Ghost(path));
                            proof {
                                lemma_order_transitive(
                                    self.arrival(),
                                    grown.arrival(),
                                    whole.arrival().push(s),
                                );
                            }
                        }
                    },
                }
            },
            None => {
                proof {
                    assert(text_key(s) =~= path);
                    let m = whole.matches@;
                    let rest = whole.arrival().skip(m.len() as int);
                    assert(whole.arrival() =~= m + rest);
                    assert forall|i: int| 0 <= i < rest.len() implies (#[trigger] rest[i]).key()
                        != s.key() by {
                        whole.lemma_arrival_under_path(path, m.len() + i);
                        assert(rest[i] == whole.arrival()[m.len() + i]);
                        if rest[i].key() == s.key() {
                            crate::laws::lemma_key_determines_text(rest[i], s);
                        }
                    }
                    let none = Seq::<T>::empty();
                    lemma_order_reflexive(m.push(s));
                    lemma_order_joins_run(none, m, m.push(s), rest, s);
                    assert(none + m.push(s) + rest =~= m.push(s) + rest);
                    assert(none + m + rest =~= m + rest);
                }
                self.matches.push(s);
                proof {
                    let rest = whole.arrival().skip(whole.matches@.len() as int);
                    assert(self.arrival() =~= whole.matches@.push(s) + rest);
                }
            },
        }
    }

    /// Turns a node with a list into a burst node with the same texts. The
    /// texts go to the children first to last, so that texts with equal keys
    /// keep their order.
    fn burst(&mut self, Ghost(path): Ghost<Seq<int>>)
        requires
            old(self).kind is Collapsed,
            old(self).offset == path.len(),
            old(self).offset < usize::MAX,
            forall|i: int|
                0 <= i < old(self).matches@.len() ==> text_key(#[trigger] old(self).matches@[i])
                    == path,
            forall|i: int|
                0 <= i < old(self).kind->Collapsed_0@.len() ==> Self::listed_at(
                    #[trigger] old(self).kind->Collapsed_0@[i],
                    path,
                ),
        ensures
            final(self).wf_at(path),
            final(self).offset == old(self).offset,
            final(self).matches@ == old(self).matches@,
            final(self).kind is Burst,
            Self::keys_occur(
                final(self).kind->Burst_0@,
                old(self).kind->Collapsed_0@,
                old(self).offset as int,
            ),
            final(self).items() == old(self).items(),
            final(self).reach() <= old(self).reach(),
            keeps_order(final(self).arrival(), old(self).arrival()),
        decreases longest_text(old(self).kind->Collapsed_0@) - old(self).offset, 1int,
    {
        broadcast use vstd::seq_lib::group_to_multiset_ensures;

        let offset = self.offset;
        let ghost all = self.kind->Collapsed_0@;
        let mut new_children: Vec<(char, TrieNode<T>)> = Vec::new();
        let mut pending: Vec<T> = Vec::new();
        match &mut self.kind {
            NodeKind::Collapsed(children) => {
                core::mem::swap(children, &mut pending);
            },
            NodeKind::Burst(_) => {},
        }
        proof {
            lemma_nothing_in_empty(all.take(0));
            assert(Self::arrival_of(new_children@) =~= all.take(0));
            lemma_order_reflexive(all.take(0));
        }
        for child in it: pending
            invariant
                it.seq() == all,
                all == old(self).kind->Collapsed_0@,
                offset == old(self).offset,
                offset == path.len(),
                offset < usize::MAX,
                self.offset == offset,
                self.matches@ == old(self).matches@,
                forall|i: int| 0 <= i < all.len() ==> Self::listed_at(#[trigger] all[i], path),
                Self::wf_children(new_children@, path),
                Self::items_of(new_children@) == all.take(it.index() as int).to_multiset(),
                Self::reach_of(new_children@) <= longest_text(all),
                Self::keys_occur(new_children@, all, offset as int),
                keeps_order(Self::arrival_of(new_children@), all.take(it.index() as int)),
        {
            let ghost at = it.index() as int;
            proof {
                assert(Self::listed_at(all[at], path));
                lemma_longest_text_bounds(all, at);
            }
            let k = classify(&child, offset).unwrap();
            let ghost made = new_children@;
            add_to_burst_node(&mut new_children, child, k, offset, Ghost(path));
            proof {
                assert(all.take(at + 1) =~= all.take(at).push(child));
                vstd::seq_lib::to_multiset_build(all.take(at), child);
                lemma_order_push(Self::arrival_of(made), all.take(at), child);
                lemma_order_transitive(
                    Self::arrival_of(new_children@),
                    Self::arrival_of(made).push(child),
                    all.take(at).push(child),
                );
                assert(Self::occurs(k, all, offset as int)) by {
                    assert(all[at].text()[offset as int] == k);
                }
                let grown = new_children@;
                let place = choose|place: int|
                    {
                        ||| (0 <= place < made.len() && grown == made.update(place, grown[place])
                            && grown[place].0 == k)
                        ||| (0 <= place <= made.len() && grown.len() == made.len() + 1 && grown
                            == made.insert(place, grown[place]) && grown[place].0 == k)
                    };
                assert forall|i: int| 0 <= i < grown.len() implies Self::occurs(
                    #[trigger] grown[i].0,
                    all,
                    offset as int,
                ) by {
                    if i != place {
                        if grown.len() == made.len() {
                            assert(grown[i] == made[i]);
                        } else if i < place {
                            assert(grown[i] == made[i]);
                        } else {
                            assert(grown[i] == made[i - 1]);
                        }
                    }
                }
            }
        }
        proof {
            assert(all.take(all.len() as int) =~= all);
            lemma_order_reflexive(self.matches@);
            lemma_order_concat(
                self.matches@,
                self.matches@,
                Self::arrival_of(new_children@),
                all,
            );
        }
        self.kind = NodeKind::Burst(new_children);
    }

    /// Appends the texts of the node to `target`, in order, and leaves the
    /// node empty. Texts with equal keys keep the order in which they stood in
    /// their list.
    pub fn merge(&mut self, target: &mut Vec<T>)
        requires
            old(self).wf(),
        ensures
            final(self).wf(),
            final(self).offset == old(self).offset,
            final(self).items() == Multiset::<T>::empty(),
            extends_texts_in_order(old(target)@, final(target)@, old(self).items()),
            keeps_order(final(target)@.skip(old(target)@.len() as int), old(self).arrival()),
    {
        let ghost path = choose|path: Seq<int>| self.wf_at(path);
        self.merge_with(target, true, Ghost(path));
    }

    /// Does what `merge` does, with a sort that may reorder equal texts.
    pub fn merge_unstable(&mut self, target: &mut Vec<T>)
        requires
            old(self).wf(),
        ensures
            final(self).wf(),
            final(self).offset == old(self).offset,
            final(self).items() == Multiset::<T>::empty(),
            extends_texts_in_order(old(target)@, final(target)@, old(self).items()),
    {
        let ghost path = choose|path: Seq<int>| self.wf_at(path);
        self.merge_with(target, false, Ghost(path));
    }

    /// Appends the texts of a node that is reached by `path` to `target`, in
    /// order, and leaves the node empty. The lists are sorted by a stable sort
    /// if `stable` is set.
    fn merge_with(&mut self, target: &mut Vec<T>, stable: bool, Ghost(path): Ghost<Seq<int>>)
        requires
            old(self).wf_at(path),
        ensures
            final(self).wf_at(path),
            final(self).offset == old(self).offset,
            final(self).items() == Multiset::<T>::empty(),
            extends_texts_in_order(old(target)@, final(target)@, old(self).items()),
            stable ==> keeps_order(
                final(target)@.skip(old(target)@.len() as int),
                old(self).arrival(),
            ),
        decreases *old(self),
    {
        broadcast use vstd::seq_lib::group_to_multiset_ensures;

        let ghost whole = *self;
        let ghost level = path.len() as int;
        let ghost start = target@;
        let ghost matched = self.matches@;
        target.append(&mut self.matches);
        proof {
            lemma_nothing_in_empty(self.matches@);
            assert(target@.skip(start.len() as int) =~= matched);
            assert(target@.take(start.len() as int) =~= start);
            assert forall|i: int, j: int| 0 <= i < j < matched.len() implies lex_le(
                text_key(matched[i]),
                text_key(matched[j]),
            ) by {
                crate::order::lemma_le_reflexive(path);
            }
        }
        match &mut self.kind {
            NodeKind::Collapsed(children) => {
                let ghost unsorted = children@;
                if stable {
                    stable_sort_from(children, 0);
                } else {
                    sort_from(children, 0);
                }
                let ghost sorted = children@;
                proof {
                    assert forall|i: int| 0 <= i < sorted.len() implies has_prefix(
                        (#[trigger] sorted[i]).key(),
                        Seq::<int>::empty(),
                    ) by {}
                    lemma_in_order_by_remainder(sorted, 0, Seq::<int>::empty());
                    law_text_order_is_byte_order(sorted);
                }
                target.append(children);
                proof {
                    lemma_nothing_in_empty(children@);
                    assert(target@.skip(start.len() as int) =~= matched + sorted);
                    assert(target@.take(start.len() as int) =~= start);
                    assert forall|i: int, j: int|
                        0 <= i < matched.len() && 0 <= j < sorted.len() implies lex_le(
                        text_key(#[trigger] matched[i]),
                        text_key(#[trigger] sorted[j]),
                    ) by {
                        let k = lemma_member_of_permutation(sorted, unsorted, j);
                        assert(Self::listed_at(unsorted[k], path));
                        lemma_prefix_comes_first(path, text_key(sorted[j]));
                    }
                    lemma_texts_concat(matched, sorted);
                    vstd::seq_lib::lemma_multiset_commutative(matched, sorted);
                    if stable {
                        assert forall|i: int| 0 <= i < unsorted.len() implies has_prefix(
                            (#[trigger] unsorted[i]).key(),
                            Seq::<int>::empty(),
                        ) by {}
                        lemma_ties_keep_order(sorted, unsorted, 0, Seq::<int>::empty());
                        lemma_order_reflexive(matched);
                        lemma_order_concat(matched, matched, sorted, unsorted);
                    }
                }
            },
            NodeKind::Burst(children) => {
                let ghost before_all = children@;
                proof {
                    lemma_nothing_in_empty(before_all.take(0));
                    assert(Self::items_of(before_all.take(0)) =~= Multiset::<T>::empty());
                    assert(matched + Self::arrival_of(before_all.take(0)) =~= matched);
                    lemma_order_reflexive(matched);
                }
                let mut at: usize = 0;
                while at < children.len()
                    invariant
                        whole == *old(self),
                        whole.kind is Burst,
                        whole.kind->Burst_0@ == before_all,
                        Self::wf_children(before_all, path),
                        at <= before_all.len(),
                        children@.len() == before_all.len(),
                        level == path.len(),
                        start.len() <= target@.len(),
                        target@.take(start.len() as int) == start,
                        target@.skip(start.len() as int).to_multiset() == matched.to_multiset().add(
                            Self::items_of(before_all.take(at as int)),
                        ),
                        texts_in_order(target@.skip(start.len() as int)),
                        stable ==> keeps_order(
                            target@.skip(start.len() as int),
                            matched + Self::arrival_of(before_all.take(at as int)),
                        ),
                        forall|k: int|
                            start.len() <= k < target@.len() ==> has_prefix(
                                text_key(#[trigger] target@[k]),
                                path,
                            ),
                        forall|k: int, c: int|
                            start.len() <= k < target@.len() && at <= c < before_all.len() ==> {
                                ||| (#[trigger] target@[k]).text().len() == level
                                ||| text_key(target@[k])[level] < code(
                                    (#[trigger] before_all[c]).0,
                                )
                            },
                        forall|c: int|
                            at <= c < before_all.len() ==> #[trigger] children@[c] == before_all[c],
                        forall|c: int|
                            0 <= c < at ==> {
                                &&& (#[trigger] children@[c]).0 == before_all[c].0
                                &&& children@[c].1.wf_at(path.push(code(before_all[c].0)))
                                &&& children@[c].1.items() == Multiset::<T>::empty()
                            },
                    decreases before_all.len() - at,
                {
                    let ghost before = target@;
                    let ghost done = before.skip(start.len() as int);
                    let ghost child = before_all[at as int].1;
                    let ghost child_path = path.push(code(before_all[at as int].0));
                    let ghost entries = children@;
                    assert(children@[at as int] == before_all[at as int]);
                    assert(child.wf_at(child_path));
                    children[at].1.merge_with(target, stable, Ghost(child_path));
                    proof {
                        let tail = target@.skip(before.len() as int);
                        let done_after = target@.skip(start.len() as int);
                        crate::item::lemma_run_joins(start, before, target@);
                        assert(before_all.take(at + 1).drop_last() =~= before_all.take(at as int));
                        assert(before_all.take(at + 1).last() == before_all[at as int]);
                        if stable {
                            let so_far = matched + Self::arrival_of(before_all.take(at as int));
                            lemma_order_concat(done, so_far, tail, child.arrival());
                            assert(so_far + child.arrival() =~= matched + Self::arrival_of(
                                before_all.take(at + 1),
                            ));
                        }
                        vstd::seq_lib::lemma_multiset_commutative(done, tail);
                        assert(done_after.to_multiset() =~= matched.to_multiset().add(
                            Self::items_of(before_all.take(at + 1)),
                        ));
                        assert forall|k: int| before.len() <= k < target@.len() implies has_prefix(
                            text_key(#[trigger] target@[k]),
                            child_path,
                        ) by {
                            assert(target@[k] == tail[k - before.len()]);
                            assert(tail.contains(tail[k - before.len()]));
                            vstd::seq_lib::to_multiset_contains(tail, target@[k]);
                            child.lemma_items_under_path(child_path, target@[k]);
                        }
                        assert forall|k: int| start.len() <= k < target@.len() implies has_prefix(
                            text_key(#[trigger] target@[k]),
                            path,
                        ) by {
                            if k < before.len() {
                                assert(target@.take(before.len() as int)[k] == before[k]);
                            } else {
                                assert(has_prefix(text_key(target@[k]), child_path));
                            }
                        }
                        assert forall|k: int, c: int|
                            start.len() <= k < target@.len() && at + 1 <= c
                                < before_all.len() implies {
                            ||| (#[trigger] target@[k]).text().len() == level
                            ||| text_key(target@[k])[level] < code((#[trigger] before_all[c]).0)
                        } by {
                            if k < before.len() {
                                assert(target@.take(before.len() as int)[k] == before[k]);
                            } else {
                                assert(has_prefix(text_key(target@[k]), child_path));
                                assert(text_key(target@[k])[level] == child_path[level]);
                                assert(code(before_all[at as int].0) < code(before_all[c].0));
                            }
                        }
                        assert forall|i: int, j: int|
                            0 <= i < done.len() && 0 <= j < tail.len() implies lex_le(
                            text_key(#[trigger] done[i]),
                            text_key(#[trigger] tail[j]),
                        ) by {
                            let a = text_key(done[i]);
                            let b = text_key(tail[j]);
                            assert(done[i] == before[i + start.len()]);
                            assert(tail[j] == target@[j + before.len()]);
                            assert(has_prefix(b, child_path));
                            assert(b[level] == child_path[level]);
                            assert(has_prefix(a, path));
                            if a.len() == level {
                                assert(a =~= path);
                                lemma_prefix_comes_first(path, b);
                            } else {
                                assert(a[level] < code(before_all[at as int].0));
                                lemma_smaller_branch_comes_first(a, b, path);
                            }
                        }
                        lemma_texts_concat(done, tail);
                        assert(children@ =~= entries.update(at as int, children@[at as int]));
                    }
                    at += 1;
                }
                proof {
                    assert(before_all.take(before_all.len() as int) =~= before_all);
                    Self::lemma_row(children@);
                    lemma_sum_nothing(Self::bags_of(children@));
                    assert(Self::wf_children(children@, path)) by {
                        assert forall|i: int, j: int| 0 <= i < j < children@.len() implies code(
                            (#[trigger] children@[i]).0,
                        ) < code((#[trigger] children@[j]).0) by {
                            assert(code(before_all[i].0) < code(before_all[j].0));
                        }
                    }
                }
            },
        }
        proof {
            assert(self.items() =~= Multiset::<T>::empty());
        }
    }
}

/// Adds `s`, whose character after `path` is `c`, to the child for `c`; makes
/// that child if there is none yet.
fn add_to_burst_node<T: Text>(
    children: &mut Vec<(char, TrieNode<T>)>,
    s: T,
    c: char,
    offset: usize,
    Ghost(path): Ghost<Seq<int>>,
)
    requires
        offset == path.len(),
        offset < usize::MAX,
        TrieNode::<T>::wf_children(old(children)@, path),
        has_prefix(text_key(s), path.push(code(c))),
    ensures
        TrieNode::<T>::wf_children(final(children)@, path),
        TrieNode::<T>::children_follow(final(children)@, old(children)@, s, c, offset as int),
        keeps_order(
            TrieNode::<T>::arrival_of(final(children)@),
            TrieNode::<T>::arrival_of(old(children)@).push(s),
        ),
        TrieNode::<T>::items_of(final(children)@) == TrieNode::<T>::items_of(old(children)@).insert(s),
        TrieNode::<T>::reach_of(final(children)@) <= larger(
            TrieNode::<T>::reach_of(old(children)@),
            s.text().len(),
        ),
    decreases larger(TrieNode::<T>::reach_of(old(children)@), s.text().len()) - offset, 0int,
{
    let ghost before = children@;
    let ghost child_path = path.push(code(c));
    match find_child(children, c) {
        Ok(idx) => {
            proof {
                TrieNode::<T>::lemma_row(before);
                lemma_most_bounds(TrieNode::<T>::reaches_of(before), idx as int);
                assert(before[idx as int].1.wf_at(child_path));
            }
            children[idx].1.insert_at(s, Ghost(child_path));
            proof {
                assert(children@ =~= before.update(
                    idx as int,
                    (before[idx as int].0, children@[idx as int].1),
                ));
                let after = children@;
                let at = idx as int;
                let bags = TrieNode::<T>::bags_of(before);
                let reaches = TrieNode::<T>::reaches_of(before);
                TrieNode::<T>::lemma_row(after);
                assert(TrieNode::<T>::bags_of(after) =~= bags.update(at, after[at].1.items()));
                assert(TrieNode::<T>::reaches_of(after) =~= reaches.update(at, after[at].1.reach()));
                lemma_sum_update(bags, at, after[at].1.items(), s);
                lemma_most_update(reaches, at, after[at].1.reach());
                assert(before[at].0 == c);
                assert(after =~= before.update(at, after[at]));
                assert(TrieNode::<T>::follows_insert(after[at].1, before[at].1, s));
                assert(TrieNode::<T>::children_follow(after, before, s, c, offset as int));
                let one = seq![before[at]];
                let other = seq![after[at]];
                assert(text_key(s)[offset as int] == child_path[offset as int]);
                let left = before.take(at);
                let right = before.skip(at + 1);
                assert(before =~= left + one + right);
                assert(after =~= left + other + right);
                TrieNode::<T>::lemma_arrival_of_concat(left + one, right);
                TrieNode::<T>::lemma_arrival_of_concat(left, one);
                TrieNode::<T>::lemma_arrival_of_concat(left + other, right);
                TrieNode::<T>::lemma_arrival_of_concat(left, other);
                TrieNode::<T>::lemma_arrival_of_one(before[at]);
                TrieNode::<T>::lemma_arrival_of_one(after[at]);
                let r = TrieNode::<T>::arrival_of(right);
                assert forall|i: int| 0 <= i < r.len() implies (#[trigger] r[i]).key()
                    != s.key() by {
                    assert forall|d: int| 0 <= d < right.len() implies code(
                        (#[trigger] right[d]).0,
                    ) != code(s.text()[path.len() as int]) by {
                        assert(right[d] == before[at + 1 + d]);
                        assert(code(before[at].0) < code(before[at + 1 + d].0));
                    }
                    assert forall|d: int| 0 <= d < right.len() implies (#[trigger] right[d]).1.wf_at(
                        path.push(code(right[d].0)),
                    ) by {
                        assert(right[d] == before[at + 1 + d]);
                    }
                    TrieNode::<T>::lemma_other_children_differ(right, path, s, i);
                }
                lemma_order_joins_run(
                    TrieNode::<T>::arrival_of(left),
                    before[at].1.arrival(),
                    after[at].1.arrival(),
                    r,
                    s,
                );
            }
        },
        Err(idx) => {
            let mut new_node = TrieNode::<T>::new(offset + 1);
            let ghost fresh = new_node;
            proof {
                assert(new_node.wf_at(child_path));
            }
            new_node.insert_at(s, Ghost(child_path));
            proof {
                assert(TrieNode::<T>::holds_only(new_node, s, offset + 1)) by {
                    assert(TrieNode::<T>::follows_insert(new_node, fresh, s));
                    assert(fresh.matches@.push(s) =~= seq![s]);
                    assert(fresh.kind->Collapsed_0@.push(s) =~= seq![s]);
                }
                let grown = before.insert(idx as int, (c, new_node));
                let bags = TrieNode::<T>::bags_of(before);
                let reaches = TrieNode::<T>::reaches_of(before);
                TrieNode::<T>::lemma_row(before);
                TrieNode::<T>::lemma_row(grown);
                assert(TrieNode::<T>::bags_of(grown) =~= bags.insert(idx as int, new_node.items()));
                assert(TrieNode::<T>::reaches_of(grown) =~= reaches.insert(
                    idx as int,
                    new_node.reach(),
                ));
                lemma_sum_insert(bags, idx as int, new_node.items());
                lemma_most_insert(reaches, idx as int, new_node.reach());
                assert(TrieNode::<T>::items_of(before).add(new_node.items()) =~= TrieNode::<T>::items_of(
                    before,
                ).insert(s));
            }
            children.insert(idx, (c, new_node));
            proof {
                let after = children@;
                assert forall|i: int, j: int| 0 <= i < j < after.len() implies code(
                    (#[trigger] after[i]).0,
                ) < code((#[trigger] after[j]).0) by {
                    if j < idx {
                        assert(code(before[i].0) < code(before[j].0));
                    } else if j == idx {
                        assert(code(before[i].0) < code(c));
                    } else if i < idx {
                        assert(code(before[i].0) < code(before[j - 1].0));
                    } else if i == idx {
                        assert(code(c) < code(before[j - 1].0));
                    } else {
                        assert(code(before[i - 1].0) < code(before[j - 1].0));
                    }
                }
                assert forall|i: int| 0 <= i < after.len() implies (#[trigger] after[i]).1.wf_at(
                    path.push(code(after[i].0)),
                ) by {
                    if i < idx {
                        assert(after[i] == before[i]);
                    } else if i > idx {
                        assert(after[i] == before[i - 1]);
                    }
                }
                let at = idx as int;
                assert forall|i: int| 0 <= i < before.len() implies (#[trigger] before[i]).0
                    != c by {
                    assert(code(before[i].0) != code(c));
                }
                assert(after =~= before.insert(at, after[at]));
                assert(after[at].0 == c);
                assert(TrieNode::<T>::holds_only(after[at].1, s, offset + 1));
                assert(TrieNode::<T>::children_follow(after, before, s, c, offset as int));
                let other = seq![after[at]];
                assert(text_key(s)[offset as int] == child_path[offset as int]);
                let left = before.take(at);
                let right = before.skip(at);
                assert(before =~= left + right);
                assert(after =~= left + other + right);
                TrieNode::<T>::lemma_arrival_of_concat(left, right);
                TrieNode::<T>::lemma_arrival_of_concat(left + other, right);
                TrieNode::<T>::lemma_arrival_of_concat(left, other);
                TrieNode::<T>::lemma_arrival_of_one(after[at]);
                let r = TrieNode::<T>::arrival_of(right);
                assert forall|i: int| 0 <= i < r.len() implies (#[trigger] r[i]).key()
                    != s.key() by {
                    assert forall|d: int| 0 <= d < right.len() implies code(
                        (#[trigger] right[d]).0,
                    ) != code(s.text()[path.len() as int]) by {
                        assert(right[d] == before[at + d]);
                        assert(code(c) < code(before[at + d].0));
                    }
                    assert forall|d: int| 0 <= d < right.len() implies (#[trigger] right[d]).1.wf_at(
                        path.push(code(right[d].0)),
                    ) by {
                        assert(right[d] == before[at + d]);
                    }
                    TrieNode::<T>::lemma_other_children_differ(right, path, s, i);
                }
                let none = Seq::<T>::empty();
                assert(fresh.arrival() =~= none);
                lemma_order_joins_run(
                    TrieNode::<T>::arrival_of(left),
                    none,
                    after[at].1.arrival(),
                    r,
                    s,
                );
                assert(TrieNode::<T>::arrival_of(left) + none + r =~= TrieNode::<T>::arrival_of(
                    left,
                ) + r);
            }
        },
    }
}

} // verus!
