//! A burst trie over strings of ASCII digits and letters, with a table of 62
//! children at every burst node.
//!
//! A string that holds another byte cannot be classified. The checked entry
//! point refuses such a string and names the byte; the unchecked one drops a
//! string when it meets such a byte.

use vstd::prelude::*;
use vstd::multiset::Multiset;
use crate::item::{Item, in_order, extends_in_order, larger, longest, below_branch};
use crate::item::{lemma_run_joins, lemma_branch_joins};
use crate::item::{lemma_nothing_in_empty, lemma_member_of_permutation, lemma_in_order_concat};
use crate::item::{lemma_in_order_by_remainder, lemma_longest_push, lemma_longest_bounds};
use crate::leaf::sort_from;
use crate::rows::{sum_of, most_of, lemma_sum_member, lemma_sum_nothing, lemma_sum_replace};
use crate::rows::{lemma_most_bounds, lemma_most_nothing, lemma_most_update};
use crate::order::{has_prefix, lex_le};
use crate::order::lemma_prefix_comes_first;
use self::alpha_table::{ALPHABET_SIZE, is_alphanumeric, alpha_index, alpha_byte, lookup_alpha_index};
use self::alpha_table::lemma_classes_follow_bytes;

pub mod alpha_table;

verus! {

/// A bucket that has come to hold more strings than this is burst.
pub const ALPHANUMERIC_BURST_LIMIT: usize = 8192;

/// Every unit of `key` from position `from` on is a digit or a letter.
pub open spec fn classified_from(key: Seq<int>, from: int) -> bool {
    forall|i: int| from <= i < key.len() ==> is_alphanumeric(#[trigger] key[i])
}

/// Position `at` holds the first unit of `key`, from position `from` on, that
/// is no digit and no letter.
pub open spec fn first_unclassified(key: Seq<int>, from: int, at: int) -> bool {
    &&& from <= at < key.len()
    &&& !is_alphanumeric(key[at])
    &&& forall|j: int| from <= j < at ==> is_alphanumeric(#[trigger] key[j])
}

/// `after` holds nothing but what `before` holds, and all that `before` holds
/// of strings that can be classified from position `depth` on.
pub open spec fn keeps_classified(
    before: Multiset<String>,
    after: Multiset<String>,
    depth: nat,
) -> bool {
    &&& forall|t: String| #[trigger] after.count(t) <= before.count(t)
    &&& forall|t: String|
        classified_from(t.key(), depth as int) ==> #[trigger] after.count(t) == before.count(t)
}

/// Every string of `items` can be classified from position `depth` on.
pub open spec fn all_classified(items: Multiset<String>, depth: nat) -> bool {
    forall|t: String| #[trigger] items.count(t) > 0 ==> classified_from(t.key(), depth as int)
}

/// A trie that holds only strings that can be classified loses none of them.
pub proof fn lemma_classified_are_kept(before: Multiset<String>, after: Multiset<String>, depth: nat)
    requires
        all_classified(before, depth),
        keeps_classified(before, after, depth),
    ensures
        after == before,
{
    assert forall|t: String| after.count(t) == before.count(t) by {
        if !classified_from(t.key(), depth as int) {
            assert(after.count(t) <= before.count(t));
        }
    }
    assert(after =~= before);
}

/// The first byte of `s`, from position `from` on, that is no digit and no
/// letter.
pub fn find_unclassified(s: &String, from: usize) -> (found: Option<u8>)
    ensures
        match found {
            None => classified_from(s.key(), from as int),
            Some(c) => exists|at: int|
                #[trigger] first_unclassified(s.key(), from as int, at) && s.key()[at] == c,
        },
{
    let bytes = s.as_str().as_bytes();
    let mut at: usize = from;
    while at < bytes.len()
        invariant
            from <= at,
            bytes@ == vstd::utf8::encode_utf8(s@),
            forall|j: int| from <= j < at && j < bytes@.len() ==> is_alphanumeric(#[trigger] s.key()[j]),
        decreases bytes.len() - at,
    {
        let c = bytes[at];
        if lookup_alpha_index(c) >= ALPHABET_SIZE {
            proof {
                assert(first_unclassified(s.key(), from as int, at as int));
            }
            return Some(c);
        }
        at += 1;
    }
    None
}

/// The class of the byte of `s` at `offset`: `None` where `s` ends before it,
/// `Some(None)` where the byte is no digit and no letter.
fn classify(s: &String, offset: usize) -> (class: Option<Option<usize>>)
    ensures
        match class {
            None => s.key().len() <= offset,
            Some(None) => offset < s.key().len() && !is_alphanumeric(s.key()[offset as int]),
            Some(Some(index)) => {
                &&& offset < s.key().len()
                &&& is_alphanumeric(s.key()[offset as int])
                &&& index == alpha_index(s.key()[offset as int])
                &&& index < ALPHABET_SIZE
            },
        },
        class is Some ==> offset < usize::MAX,
{
    let bytes = s.as_str().as_bytes();
    if offset < bytes.len() {
        let index = lookup_alpha_index(bytes[offset]);
        if index < ALPHABET_SIZE {
            Some(Some(index))
        } else {
            Some(None)
        }
    } else {
        None
    }
}

/// A node of the alphanumeric trie.
pub trait AlphaNumericTrieNode: Sized {
    /// The number of bytes that the node's path spells.
    spec fn depth(&self) -> nat;

    /// The node and the nodes below it are as they should be, for a node that
    /// is reached from the root by `path`.
    spec fn wf_at(&self, path: Seq<int>) -> bool;

    /// The strings held by the node and by the nodes below it.
    spec fn items(&self) -> Multiset<String>;

    /// Adds `s` to the node if all its bytes from the node's depth on are digits
    /// or letters. Else leaves the node as it is and returns the first byte that
    /// is not.
    fn insert(&mut self, s: String) -> (result: Result<(), u8>)
        requires
            exists|path: Seq<int>| #[trigger] old(self).wf_at(path) && has_prefix(s.key(), path),
        ensures
            final(self).depth() == old(self).depth(),
            forall|path: Seq<int>|
                #[trigger] old(self).wf_at(path) && has_prefix(s.key(), path) ==> final(self).wf_at(path),
            match result {
                Ok(()) => {
                    &&& classified_from(s.key(), old(self).depth() as int)
                    &&& keeps_classified(
                        old(self).items().insert(s),
                        final(self).items(),
                        old(self).depth(),
                    )
                },
                Err(c) => {
                    &&& exists|at: int|
                        #[trigger] first_unclassified(s.key(), old(self).depth() as int, at)
                            && s.key()[at] == c
                    &&& *final(self) == *old(self)
                },
            },
    ;

    /// Adds `s` to the node, or drops it where the byte that would route it is
    /// no digit and no letter. A string that is dropped is lost; so may be, at
    /// a later burst, a string that was added though it holds such a byte.
    fn insert_unchecked(&mut self, s: String)
        requires
            exists|path: Seq<int>| #[trigger] old(self).wf_at(path) && has_prefix(s.key(), path),
        ensures
            final(self).depth() == old(self).depth(),
            forall|path: Seq<int>|
                #[trigger] old(self).wf_at(path) && has_prefix(s.key(), path) ==> final(self).wf_at(path),
            keeps_classified(old(self).items().insert(s), final(self).items(), old(self).depth()),
            old(self).depth() < s.key().len() && !is_alphanumeric(s.key()[old(self).depth() as int])
                ==> final(self).items() == old(self).items(),
    ;

    /// Appends the strings of the node to `target`, in the order of their
    /// bytes, and leaves the node empty.
    fn merge(&mut self, target: &mut Vec<String>)
        requires
            exists|path: Seq<int>| #[trigger] old(self).wf_at(path),
        ensures
            final(self).depth() == old(self).depth(),
            forall|path: Seq<int>| #[trigger] old(self).wf_at(path) ==> final(self).wf_at(path),
            final(self).items() == Multiset::<String>::empty(),
            extends_in_order(old(target)@, final(target)@, old(self).items()),
    ;
}

/// A node that is a bucket or a table, as its load requires.
pub struct DynamicAlphaNumericNode {
    kind: AlphaNumericNodeKind,
}

/// The two states of a node.
enum AlphaNumericNodeKind {
    Burst(BurstAlphaNumericNode),
    Collapsed(CollapsedAlphaNumericNode),
}

/// A node that has not burst: the strings that end at it, and a bucket of
/// those that go on.
struct CollapsedAlphaNumericNode {
    offset: usize,
    matches: Vec<String>,
    bucket: Vec<String>,
}

/// A node that has burst: the strings that end at it, and one child for each
/// class.
struct BurstAlphaNumericNode {
    offset: usize,
    matches: Vec<String>,
    children: Vec<Box<DynamicAlphaNumericNode>>,
}

/// An empty trie.
pub fn make_trie() -> (trie: DynamicAlphaNumericNode)
    ensures
        trie.wf_at(Seq::empty()),
        trie.depth() == 0,
        trie.items() == Multiset::<String>::empty(),
        !trie.is_burst(),
{
    DynamicAlphaNumericNode::new(0)
}

/// A byte above those of the classes below `class`, and not above the byte
/// of `class` itself.
spec fn class_bound(class: int) -> int {
    if class < ALPHABET_SIZE {
        alpha_byte(class)
    } else {
        alpha_byte(ALPHABET_SIZE - 1) + 1
    }
}

/// `s` belongs in the bucket of a node at `path`.
spec fn bucketed_at(s: String, path: Seq<int>) -> bool {
    &&& has_prefix(s.key(), path)
    &&& s.key().len() > path.len()
    &&& is_alphanumeric(s.key()[path.len() as int])
}

impl CollapsedAlphaNumericNode {
    /// The node is as it should be, for a node that is reached by `path`: its
    /// matches spell the path, and the strings of its bucket go on beyond the
    /// path with a digit or a letter.
    spec fn placed_at(self, path: Seq<int>) -> bool {
        &&& self.offset == path.len()
        &&& forall|i: int| 0 <= i < self.matches@.len() ==> (#[trigger] self.matches@[i]).key() == path
        &&& forall|i: int| 0 <= i < self.bucket@.len() ==> bucketed_at(#[trigger] self.bucket@[i], path)
        &&& (self.bucket@.len() > 0 ==> self.offset < usize::MAX)
    }

    /// The strings held by the node.
    spec fn holds(self) -> Multiset<String> {
        self.matches@.to_multiset().add(self.bucket@.to_multiset())
    }

    /// An empty node at `offset`.
    fn new(offset: usize) -> (node: Self)
        ensures
            node.offset == offset,
            node.holds() == Multiset::<String>::empty(),
            node.matches@.len() == 0,
            node.bucket@.len() == 0,
            forall|path: Seq<int>| path.len() == offset ==> #[trigger] node.placed_at(path),
    {
        let node = CollapsedAlphaNumericNode { offset, matches: Vec::new(), bucket: Vec::new() };
        proof {
            lemma_nothing_in_empty(node.matches@);
            lemma_nothing_in_empty(node.bucket@);
            assert(node.holds() =~= Multiset::<String>::empty());
        }
        node
    }

    /// Adds `s` to the matches if it ends at the node, and to the bucket if it
    /// goes on with a digit or a letter; else drops it.
    fn insert_at(&mut self, s: String, Ghost(path): Ghost<Seq<int>>)
        requires
            old(self).placed_at(path),
            has_prefix(s.key(), path),
        ensures
            final(self).placed_at(path),
            final(self).offset == old(self).offset,
            final(self).bucket@.len() <= old(self).bucket@.len() + 1,
            longest(final(self).bucket@) <= larger(longest(old(self).bucket@), s.key().len()),
            keeps_classified(old(self).holds().insert(s), final(self).holds(), path.len()),
            path.len() < s.key().len() && !is_alphanumeric(s.key()[path.len() as int]) ==> {
                &&& final(self).holds() == old(self).holds()
                &&& final(self).bucket@ == old(self).bucket@
            },
    {
        broadcast use vstd::seq_lib::group_to_multiset_ensures;

        match classify(&s, self.offset) {
            Some(Some(_)) => {
                proof {
                    lemma_longest_push(self.bucket@, s);
                }
                self.bucket.push(s);
                proof {
                    assert(self.holds() =~= old(self).holds().insert(s));
                }
            },
            Some(None) => {
                proof {
                    assert(!classified_from(s.key(), path.len() as int));
                }
            },
            None => {
                proof {
                    assert(s.key() =~= path);
                }
                self.matches.push(s);
                proof {
                    assert(self.holds() =~= old(self).holds().insert(s));
                }
            },
        }
    }

    /// Whether the bucket has grown beyond the burst limit.
    fn should_burst(&self) -> (full: bool)
        ensures
            full == (self.bucket@.len() > ALPHANUMERIC_BURST_LIMIT),
    {
        self.bucket.len() > ALPHANUMERIC_BURST_LIMIT
    }

    /// Empties the node into a new burst node at the same place. A string
    /// whose byte after the path is followed by a byte that is no digit and no
    /// letter may be dropped on the way.
    fn burst(&mut self, Ghost(path): Ghost<Seq<int>>) -> (table: BurstAlphaNumericNode)
        requires
            old(self).placed_at(path),
            old(self).bucket@.len() > 0,
        ensures
            table.placed_at(path),
            table.offset == old(self).offset,
            keeps_classified(old(self).holds(), table.holds(), path.len()),
            table.reach() <= longest(old(self).bucket@),
        decreases longest(old(self).bucket@) - old(self).offset, 2int,
    {
        broadcast use vstd::seq_lib::group_to_multiset_ensures;

        let ghost all = self.bucket@;
        let ghost matched = self.matches@;
        let mut new_node = BurstAlphaNumericNode::new(self.offset, Ghost(path));
        core::mem::swap(&mut self.matches, &mut new_node.matches);
        proof {
            assert(all.skip(all.len() as int) =~= Seq::<String>::empty());
            lemma_nothing_in_empty(all.skip(all.len() as int));
            assert(new_node.holds() =~= matched.to_multiset());
        }
        while self.bucket.len() > 0
            invariant
                all == old(self).bucket@,
                self.offset == old(self).offset,
                self.offset == path.len(),
                forall|i: int| 0 <= i < all.len() ==> bucketed_at(#[trigger] all[i], path),
                self.bucket@ == all.take(self.bucket@.len() as int),
                self.bucket@.len() <= all.len(),
                new_node.placed_at(path),
                new_node.offset == self.offset,
                new_node.reach() <= longest(all),
                keeps_classified(
                    matched.to_multiset().add(all.skip(self.bucket@.len() as int).to_multiset()),
                    new_node.holds(),
                    path.len(),
                ),
            decreases self.bucket@.len(),
        {
            let ghost at = self.bucket@.len() - 1;
            let ghost held = new_node.holds();
            let item = self.bucket.pop().unwrap();
            proof {
                assert(item == all[at]);
                assert(bucketed_at(all[at], path));
                lemma_longest_bounds(all, at);
            }
            new_node.insert_at(item, Ghost(path));
            proof {
                assert(self.bucket@ =~= all.take(at));
                assert(all.skip(at) =~= all.skip(at + 1).insert(0, item));
                vstd::seq_lib::to_multiset_insert(all.skip(at + 1), 0, item);
                let before = matched.to_multiset().add(all.skip(at + 1).to_multiset());
                let grown = matched.to_multiset().add(all.skip(at).to_multiset());
                assert(grown =~= before.insert(item));
                assert forall|t: String| #[trigger] new_node.holds().count(t) <= grown.count(t) by {
                    assert(new_node.holds().count(t) <= held.insert(item).count(t));
                    assert(held.count(t) <= before.count(t));
                }
                assert forall|t: String|
                    classified_from(t.key(), path.len() as int) implies #[trigger] new_node.holds().count(
                    t,
                ) == grown.count(t) by {
                    assert(new_node.holds().count(t) == held.insert(item).count(t));
                    assert(held.count(t) == before.count(t));
                }
            }
        }
        proof {
            assert(all.skip(0) =~= all);
            assert(old(self).holds() =~= matched.to_multiset().add(all.to_multiset()));
        }
        new_node
    }

    /// Appends the matches and then the sorted bucket to `target`, and leaves
    /// the node empty.
    fn flatten(&mut self, target: &mut Vec<String>, Ghost(path): Ghost<Seq<int>>)
        requires
            old(self).placed_at(path),
        ensures
            final(self).offset == old(self).offset,
            final(self).matches@.len() == 0,
            final(self).bucket@.len() == 0,
            final(self).holds() == Multiset::<String>::empty(),
            extends_in_order(old(target)@, final(target)@, old(self).holds()),
    {
        broadcast use vstd::seq_lib::group_to_multiset_ensures;

        let ghost start = target@;
        let ghost matched = self.matches@;
        let ghost unsorted = self.bucket@;
        target.append(&mut self.matches);
        proof {
            assert forall|i: int| 0 <= i < unsorted.len() implies 0 <= (
            #[trigger] unsorted[i]).key().len() by {}
        }
        sort_from(&mut self.bucket, 0);
        let ghost sorted = self.bucket@;
        target.append(&mut self.bucket);
        proof {
            lemma_nothing_in_empty(self.matches@);
            lemma_nothing_in_empty(self.bucket@);
            assert(self.holds() =~= Multiset::<String>::empty());
            assert(target@.skip(start.len() as int) =~= matched + sorted);
            assert(target@.take(start.len() as int) =~= start);
            assert forall|i: int| 0 <= i < sorted.len() implies has_prefix(
                (#[trigger] sorted[i]).key(),
                Seq::<int>::empty(),
            ) by {}
            lemma_in_order_by_remainder(sorted, 0, Seq::<int>::empty());
            assert forall|i: int, j: int| 0 <= i < j < matched.len() implies lex_le(
                matched[i].key(),
                matched[j].key(),
            ) by {
                crate::order::lemma_le_reflexive(path);
            }
            assert forall|i: int, j: int|
                0 <= i < matched.len() && 0 <= j < sorted.len() implies lex_le(
                (#[trigger] matched[i]).key(),
                (#[trigger] sorted[j]).key(),
            ) by {
                let k = lemma_member_of_permutation(sorted, unsorted, j);
                assert(bucketed_at(unsorted[k], path));
                lemma_prefix_comes_first(path, sorted[j].key());
            }
            lemma_in_order_concat(matched, sorted);
            vstd::seq_lib::lemma_multiset_commutative(matched, sorted);
        }
    }
}

/// Calls `array_init` of the crate array-init, with `boxed` as the
/// initializer, and turns the array into a vector.
///
/// Not proved: that the call returns 62 nodes, each as `boxed` returns it for
/// `offset`.
#[verifier::external_body]
fn fresh_children(offset: usize) -> (children: Vec<Box<DynamicAlphaNumericNode>>)
    ensures
        children@.len() == ALPHABET_SIZE,
        forall|i: int| 0 <= i < children@.len() ==> (#[trigger] children@[i]).is_fresh(offset),
{
    let children: [Box<DynamicAlphaNumericNode>; 62] = array_init::array_init(
        |_| DynamicAlphaNumericNode::boxed(offset),
    );
    Vec::from(children)
}

impl BurstAlphaNumericNode {
    /// The node and the nodes below it are as they should be, for a node that
    /// is reached by `path`: its matches spell the path, and it has one child
    /// for each class, reached by the path and the byte of the class.
    spec fn placed_at(self, path: Seq<int>) -> bool
        decreases self,
    {
        &&& self.offset == path.len()
        &&& self.offset < usize::MAX
        &&& forall|i: int| 0 <= i < self.matches@.len() ==> (#[trigger] self.matches@[i]).key() == path
        &&& self.children@.len() == ALPHABET_SIZE
        &&& forall|i: int|
            0 <= i < self.children@.len() ==> (#[trigger] self.children@[i]).placed_at(
                path.push(alpha_byte(i)),
            )
    }

    /// The strings held by the node and by the nodes below it.
    spec fn holds(self) -> Multiset<String>
        decreases self,
    {
        self.matches@.to_multiset().add(DynamicAlphaNumericNode::items_of(self.children@))
    }

    /// The length of the longest key in a bucket below the node.
    spec fn reach(self) -> nat
        decreases self,
    {
        DynamicAlphaNumericNode::reach_of(self.children@)
    }

    /// A node without strings at `offset`, with an empty child for each class.
    fn new(offset: usize, Ghost(path): Ghost<Seq<int>>) -> (node: Self)
        requires
            offset == path.len(),
            offset < usize::MAX,
        ensures
            node.offset == offset,
            node.matches@.len() == 0,
            node.holds() == Multiset::<String>::empty(),
            DynamicAlphaNumericNode::items_of(node.children@) == Multiset::<String>::empty(),
            node.reach() == 0,
            node.placed_at(path),
    {
        let children = fresh_children(offset + 1);
        let node = BurstAlphaNumericNode { offset, matches: Vec::new(), children };
        proof {
            lemma_nothing_in_empty(node.matches@);
            DynamicAlphaNumericNode::lemma_fresh(node.children@, (offset + 1) as usize);
            assert(node.holds() =~= Multiset::<String>::empty());
            assert forall|i: int| 0 <= i < node.children@.len() implies (
            #[trigger] node.children@[i]).placed_at(path.push(alpha_byte(i))) by {
                assert(node.children@[i].is_fresh((offset + 1) as usize));
            }
        }
        node
    }

    /// Adds `s` to the matches if it ends at the node, and to the child for its
    /// next byte if that is a digit or a letter; else drops it.
    fn insert_at(&mut self, s: String, Ghost(path): Ghost<Seq<int>>)
        requires
            old(self).placed_at(path),
            has_prefix(s.key(), path),
        ensures
            final(self).placed_at(path),
            final(self).offset == old(self).offset,
            final(self).reach() <= larger(old(self).reach(), s.key().len()),
            keeps_classified(old(self).holds().insert(s), final(self).holds(), path.len()),
            path.len() < s.key().len() && !is_alphanumeric(s.key()[path.len() as int])
                ==> final(self).holds() == old(self).holds(),
        decreases larger(old(self).reach(), s.key().len()) - old(self).offset, 1int,
    {
        broadcast use vstd::seq_lib::group_to_multiset_ensures;

        match classify(&s, self.offset) {
            Some(Some(index)) => {
                let ghost before = self.children@;
                let ghost child_path = path.push(alpha_byte(index as int));
                proof {
                    lemma_classes_follow_bytes(s.key()[path.len() as int], 48);
                    DynamicAlphaNumericNode::lemma_row(before);
                    lemma_most_bounds(DynamicAlphaNumericNode::reaches_of(before), index as int);
                    assert(before[index as int].placed_at(child_path));
                    assert(has_prefix(s.key(), child_path));
                }
                self.children[index].insert_at(s, Ghost(child_path));
                proof {
                    let child = self.children@[index as int];
                    assert(self.children@ =~= before.update(index as int, child));
                    DynamicAlphaNumericNode::lemma_update(before, index as int, child);
                    broadcast use vstd::multiset::group_multiset_axioms;

                    let grown = old(self).holds().insert(s);
                    let below = before[index as int].holds().insert(s);
                    assert forall|t: String| #[trigger] self.holds().count(t) <= grown.count(t) by {
                        assert(child.holds().count(t) <= below.count(t));
                        assert(DynamicAlphaNumericNode::items_of(self.children@).count(t)
                            == DynamicAlphaNumericNode::items_of(before).count(t)
                            - before[index as int].holds().count(t) + child.holds().count(t));
                    }
                    assert forall|t: String|
                        classified_from(t.key(), path.len() as int) implies #[trigger] self.holds().count(
                        t,
                    ) == grown.count(t) by {
                        assert(classified_from(t.key(), child_path.len() as int));
                        assert(child.holds().count(t) == below.count(t));
                        assert(DynamicAlphaNumericNode::items_of(self.children@).count(t)
                            == DynamicAlphaNumericNode::items_of(before).count(t)
                            - before[index as int].holds().count(t) + child.holds().count(t));
                    }
                    if path.len() < s.key().len() && !is_alphanumeric(s.key()[path.len() as int]) {
                        assert(false);
                    }
                }
            },
            Some(None) => {
                proof {
                    assert(!classified_from(s.key(), path.len() as int));
                }
            },
            None => {
                proof {
                    assert(s.key() =~= path);
                }
                self.matches.push(s);
                proof {
                    assert(self.holds() =~= old(self).holds().insert(s));
                }
            },
        }
    }

    /// Appends the matches and then the strings of each child, in the order of
    /// the classes, to `target`, and leaves the node empty.
    fn flatten(&mut self, target: &mut Vec<String>)
        requires
            exists|path: Seq<int>| #[trigger] old(self).placed_at(path),
        ensures
            final(self).offset == old(self).offset,
            forall|path: Seq<int>| #[trigger] old(self).placed_at(path) ==> final(self).placed_at(path),
            final(self).holds() == Multiset::<String>::empty(),
            extends_in_order(old(target)@, final(target)@, old(self).holds()),
        decreases *old(self), 0int,
    {
        broadcast use vstd::seq_lib::group_to_multiset_ensures;

        let ghost whole = *self;
        let ghost path = choose|path: Seq<int>| whole.placed_at(path);
        let ghost level = path.len() as int;
        let ghost start = target@;
        let ghost matched = self.matches@;
        let ghost children = self.children@;
        target.append(&mut self.matches);
        proof {
            lemma_nothing_in_empty(self.matches@);
            lemma_nothing_in_empty(children.take(0));
            assert(target@.skip(start.len() as int) =~= matched);
            assert(target@.take(start.len() as int) =~= start);
            assert(DynamicAlphaNumericNode::items_of(children.take(0)) =~= Multiset::<
                String,
            >::empty());
            assert forall|i: int, j: int| 0 <= i < j < matched.len() implies lex_le(
                matched[i].key(),
                matched[j].key(),
            ) by {
                crate::order::lemma_le_reflexive(path);
            }
        }
        let mut class: usize = 0;
        while class < self.children.len()
            invariant
                whole == *old(self),
                whole.children@ == children,
                self.offset == whole.offset,
                class <= children.len(),
                children.len() == ALPHABET_SIZE,
                self.children@.len() == children.len(),
                self.matches@.len() == 0,
                level == path.len(),
                start.len() <= target@.len(),
                target@.take(start.len() as int) == start,
                target@.skip(start.len() as int).to_multiset() == matched.to_multiset().add(
                    DynamicAlphaNumericNode::items_of(children.take(class as int)),
                ),
                in_order(target@.skip(start.len() as int)),
                below_branch(target@.skip(start.len() as int), path, class_bound(class as int)),
                forall|c: int|
                    class <= c < children.len() ==> #[trigger] self.children@[c] == children[c],
                forall|c: int|
                    0 <= c < children.len() ==> (#[trigger] children[c]).placed_at(
                        path.push(alpha_byte(c)),
                    ),
                forall|c: int, p: Seq<int>|
                    0 <= c < class && #[trigger] children[c].placed_at(p)
                        ==> self.children@[c].placed_at(p),
                forall|c: int|
                    0 <= c < class ==> (#[trigger] self.children@[c]).holds() == Multiset::<
                        String,
                    >::empty(),
            decreases children.len() - class,
        {
            let ghost before = target@;
            let ghost done = before.skip(start.len() as int);
            let ghost child_path = path.push(alpha_byte(class as int));
            let ghost child = children[class as int];
            let ghost table_before = self.children@;
            assert(self.children@[class as int] == child);
            assert(child.placed_at(child_path));
            self.children[class].flatten(target);
            proof {
                let tail = target@.skip(before.len() as int);
                lemma_run_joins(start, before, target@);
                assert(children.take(class + 1).drop_last() =~= children.take(class as int));
                assert(children.take(class + 1).last() == child);
                vstd::seq_lib::lemma_multiset_commutative(done, tail);
                assert((done + tail).to_multiset() =~= matched.to_multiset().add(
                    DynamicAlphaNumericNode::items_of(children.take(class + 1)),
                ));
                assert forall|j: int| 0 <= j < tail.len() implies has_prefix(
                    (#[trigger] tail[j]).key(),
                    child_path,
                ) by {
                    assert(tail.contains(tail[j]));
                    vstd::seq_lib::to_multiset_contains(tail, tail[j]);
                    child.lemma_items_under_path(child_path, tail[j]);
                }
                lemma_branch_joins(
                    done,
                    tail,
                    path,
                    alpha_byte(class as int),
                    class_bound(class + 1),
                );
                assert(self.children@ =~= table_before.update(
                    class as int,
                    self.children@[class as int],
                ));
            }
            class += 1;
        }
        proof {
            assert(children.take(children.len() as int) =~= children);
            DynamicAlphaNumericNode::lemma_row(self.children@);
            lemma_sum_nothing(DynamicAlphaNumericNode::bags_of(self.children@));
            assert(self.holds() =~= Multiset::<String>::empty());
            assert forall|p: Seq<int>| #[trigger] whole.placed_at(p) implies self.placed_at(p) by {
                assert forall|c: int| 0 <= c < self.children@.len() implies (
                #[trigger] self.children@[c]).placed_at(p.push(alpha_byte(c))) by {
                    assert(children[c].placed_at(p.push(alpha_byte(c))));
                }
            }
        }
    }
}

impl DynamicAlphaNumericNode {
    /// The node has burst: it holds a table of children and no bucket.
    pub closed spec fn is_burst(self) -> bool {
        self.kind is Burst
    }

    /// The number of bytes that the node's path spells.
    spec fn offset(self) -> usize {
        match self.kind {
            AlphaNumericNodeKind::Burst(node) => node.offset,
            AlphaNumericNodeKind::Collapsed(node) => node.offset,
        }
    }

    /// The node and the nodes below it are as they should be, for a node that
    /// is reached by `path`. A bucket holds no more than the burst limit.
    spec fn placed_at(self, path: Seq<int>) -> bool
        decreases self,
    {
        match self.kind {
            AlphaNumericNodeKind::Burst(node) => node.placed_at(path),
            AlphaNumericNodeKind::Collapsed(node) => {
                &&& node.placed_at(path)
                &&& node.bucket@.len() <= ALPHANUMERIC_BURST_LIMIT
            },
        }
    }

    /// The strings held by the node and by the nodes below it.
    spec fn holds(self) -> Multiset<String>
        decreases self,
    {
        match self.kind {
            AlphaNumericNodeKind::Burst(node) => node.holds(),
            AlphaNumericNodeKind::Collapsed(node) => node.holds(),
        }
    }

    /// The strings held under the nodes of `nodes`.
    spec fn items_of(nodes: Seq<Box<DynamicAlphaNumericNode>>) -> Multiset<String>
        decreases nodes,
    {
        if nodes.len() == 0 {
            Multiset::empty()
        } else {
            Self::items_of(nodes.drop_last()).add(nodes.last().holds())
        }
    }

    /// The length of the longest key in a bucket at or below the node.
    spec fn reach(self) -> nat
        decreases self,
    {
        match self.kind {
            AlphaNumericNodeKind::Burst(node) => node.reach(),
            AlphaNumericNodeKind::Collapsed(node) => longest(node.bucket@),
        }
    }

    /// The largest reach among `nodes`.
    spec fn reach_of(nodes: Seq<Box<DynamicAlphaNumericNode>>) -> nat
        decreases nodes,
    {
        if nodes.len() == 0 {
            0
        } else {
            larger(Self::reach_of(nodes.drop_last()), nodes.last().reach())
        }
    }

    /// The node is an empty bucket at `offset`.
    spec fn is_fresh(self, offset: usize) -> bool {
        &&& self.kind is Collapsed
        &&& self.kind->Collapsed_0.offset == offset
        &&& self.kind->Collapsed_0.matches@.len() == 0
        &&& self.kind->Collapsed_0.bucket@.len() == 0
    }

    /// What each of `nodes` holds.
    spec fn bags_of(nodes: Seq<Box<DynamicAlphaNumericNode>>) -> Seq<Multiset<String>> {
        Seq::new(nodes.len(), |c: int| nodes[c].holds())
    }

    /// How far each of `nodes` reaches.
    spec fn reaches_of(nodes: Seq<Box<DynamicAlphaNumericNode>>) -> Seq<nat> {
        Seq::new(nodes.len(), |c: int| nodes[c].reach())
    }

    /// Nodes hold together what each of them holds, and reach as far as the
    /// one of them that reaches furthest.
    proof fn lemma_row(nodes: Seq<Box<DynamicAlphaNumericNode>>)
        ensures
            Self::items_of(nodes) == sum_of(Self::bags_of(nodes)),
            Self::reach_of(nodes) == most_of(Self::reaches_of(nodes)),
        decreases nodes.len(),
    {
        if nodes.len() > 0 {
            Self::lemma_row(nodes.drop_last());
            assert(Self::bags_of(nodes).drop_last() =~= Self::bags_of(nodes.drop_last()));
            assert(Self::reaches_of(nodes).drop_last() =~= Self::reaches_of(nodes.drop_last()));
        }
    }

    /// Fresh nodes hold nothing and reach nowhere.
    proof fn lemma_fresh(nodes: Seq<Box<DynamicAlphaNumericNode>>, offset: usize)
        requires
            forall|i: int| 0 <= i < nodes.len() ==> (#[trigger] nodes[i]).is_fresh(offset),
        ensures
            Self::items_of(nodes) == Multiset::<String>::empty(),
            Self::reach_of(nodes) == 0,
    {
        Self::lemma_row(nodes);
        assert forall|c: int| 0 <= c < nodes.len() implies {
            &&& #[trigger] Self::bags_of(nodes)[c] == Multiset::<String>::empty()
            &&& Self::reaches_of(nodes)[c] == 0
        } by {
            let node = nodes[c];
            assert(node.is_fresh(offset));
            lemma_nothing_in_empty(node.kind->Collapsed_0.matches@);
            lemma_nothing_in_empty(node.kind->Collapsed_0.bucket@);
            assert(node.holds() =~= Multiset::<String>::empty());
            assert(node.reach() == 0);
        }
        lemma_sum_nothing(Self::bags_of(nodes));
        lemma_most_nothing(Self::reaches_of(nodes));
    }

    /// What nodes hold and reach when one of them is replaced.
    proof fn lemma_update(
        nodes: Seq<Box<DynamicAlphaNumericNode>>,
        c: int,
        node: Box<DynamicAlphaNumericNode>,
    )
        requires
            0 <= c < nodes.len(),
        ensures
            Self::reach_of(nodes.update(c, node)) <= larger(Self::reach_of(nodes), node.reach()),
            forall|t: String|
                #[trigger] Self::items_of(nodes.update(c, node)).count(t) == Self::items_of(
                    nodes,
                ).count(t) - nodes[c].holds().count(t) + node.holds().count(t),
            forall|t: String| Self::items_of(nodes).count(t) >= nodes[c].holds().count(t),
    {
        let after = nodes.update(c, node);
        Self::lemma_row(nodes);
        Self::lemma_row(after);
        assert(Self::bags_of(after) =~= Self::bags_of(nodes).update(c, node.holds()));
        assert(Self::reaches_of(after) =~= Self::reaches_of(nodes).update(c, node.reach()));
        lemma_sum_replace(Self::bags_of(nodes), c, node.holds());
        lemma_most_update(Self::reaches_of(nodes), c, node.reach());
    }

    /// Every string at or below a node begins with the node's path.
    proof fn lemma_items_under_path(self, path: Seq<int>, item: String)
        requires
            self.placed_at(path),
            self.holds().count(item) > 0,
        ensures
            has_prefix(item.key(), path),
        decreases self,
    {
        broadcast use vstd::seq_lib::group_to_multiset_ensures;

        match self.kind {
            AlphaNumericNodeKind::Collapsed(node) => {
                if node.matches@.to_multiset().count(item) > 0 {
                    assert(node.matches@.contains(item));
                } else {
                    assert(node.bucket@.contains(item));
                }
            },
            AlphaNumericNodeKind::Burst(node) => {
                if node.matches@.to_multiset().count(item) > 0 {
                    assert(node.matches@.contains(item));
                } else {
                    Self::lemma_row(node.children@);
                    let c = lemma_sum_member(Self::bags_of(node.children@), item);
                    node.children@[c].lemma_items_under_path(path.push(alpha_byte(c)), item);
                }
            },
        }
    }

    /// An empty node at `offset`.
    fn new(offset: usize) -> (node: Self)
        ensures
            node.is_fresh(offset),
            node.offset() == offset,
            node.holds() == Multiset::<String>::empty(),
            forall|path: Seq<int>| path.len() == offset ==> #[trigger] node.placed_at(path),
    {
        DynamicAlphaNumericNode {
            kind: AlphaNumericNodeKind::Collapsed(CollapsedAlphaNumericNode::new(offset)),
        }
    }

    /// An empty node at `offset`, in a box.
    fn boxed(offset: usize) -> (node: Box<Self>)
        ensures
            node.is_fresh(offset),
    {
        Box::new(Self::new(offset))
    }

    /// Adds `s` to a node that is reached by `path`, and bursts the node if
    /// its bucket then holds more than the burst limit.
    fn insert_at(&mut self, s: String, Ghost(path): Ghost<Seq<int>>)
        requires
            old(self).placed_at(path),
            has_prefix(s.key(), path),
        ensures
            final(self).placed_at(path),
            final(self).offset() == old(self).offset(),
            final(self).reach() <= larger(old(self).reach(), s.key().len()),
            keeps_classified(old(self).holds().insert(s), final(self).holds(), path.len()),
            path.len() < s.key().len() && !is_alphanumeric(s.key()[path.len() as int])
                ==> final(self).holds() == old(self).holds(),
        decreases larger(old(self).reach(), s.key().len()) - old(self).offset(), 3int,
    {
        match &mut self.kind {
            AlphaNumericNodeKind::Burst(inner) => {
                inner.insert_at(s, Ghost(path));
            },
            AlphaNumericNodeKind::Collapsed(inner) => {
                let ghost held = inner.holds();
                inner.insert_at(s, Ghost(path));
                if inner.should_burst() {
                    let ghost grown = inner.holds();
                    let table = inner.burst(Ghost(path));
                    proof {
                        let full = held.insert(s);
                        assert forall|t: String| #[trigger] table.holds().count(t) <= full.count(
                            t,
                        ) by {
                            assert(grown.count(t) <= full.count(t));
                        }
                        assert forall|t: String|
                            classified_from(
                                t.key(),
                                path.len() as int,
                            ) implies #[trigger] table.holds().count(t) == full.count(t) by {
                            assert(grown.count(t) == full.count(t));
                        }
                        if path.len() < s.key().len() && !is_alphanumeric(
                            s.key()[path.len() as int],
                        ) {
                            assert(false);
                        }
                    }
                    self.kind = AlphaNumericNodeKind::Burst(table);
                }
            },
        }
    }

    /// Appends the strings of the node to `target`, in order, and leaves the
    /// node empty.
    fn flatten(&mut self, target: &mut Vec<String>)
        requires
            exists|path: Seq<int>| #[trigger] old(self).placed_at(path),
        ensures
            final(self).offset() == old(self).offset(),
            forall|path: Seq<int>| #[trigger] old(self).placed_at(path) ==> final(self).placed_at(path),
            final(self).holds() == Multiset::<String>::empty(),
            extends_in_order(old(target)@, final(target)@, old(self).holds()),
        decreases *old(self), 1int,
    {
        let ghost whole = *self;
        let ghost path = choose|path: Seq<int>| whole.placed_at(path);
        match &mut self.kind {
            AlphaNumericNodeKind::Burst(inner) => {
                let ghost full = *inner;
                proof {
                    assert(full.placed_at(path));
                }
                inner.flatten(target);
                proof {
                    assert forall|p: Seq<int>| #[trigger] whole.placed_at(p) implies inner.placed_at(
                        p,
                    ) by {
                        assert(full.placed_at(p));
                    }
                }
            },
            AlphaNumericNodeKind::Collapsed(inner) => {
                inner.flatten(target, Ghost(path));
            },
        }
    }
}

impl AlphaNumericTrieNode for DynamicAlphaNumericNode {
    closed spec fn depth(&self) -> nat {
        self.offset() as nat
    }

    closed spec fn wf_at(&self, path: Seq<int>) -> bool {
        self.placed_at(path)
    }

    closed spec fn items(&self) -> Multiset<String> {
        self.holds()
    }

    fn insert(&mut self, s: String) -> (result: Result<(), u8>) {
        let ghost witness = choose|path: Seq<int>|
            #[trigger] self.wf_at(path) && has_prefix(s.key(), path);
        proof {
            assert forall|path: Seq<int>|
                #[trigger] self.wf_at(path) && has_prefix(s.key(), path) implies path
                == witness by {
                assert(path =~= witness);
            }
        }
        let offset = self.offset_of(Ghost(witness));
        match find_unclassified(&s, offset) {
            Some(c) => {
                proof {
                    let at = choose|at: int|
                        #[trigger] first_unclassified(s.key(), offset as int, at) && s.key()[at]
                            == c;
                    assert(first_unclassified(s.key(), old(self).depth() as int, at));
                }
                Err(c)
            },
            None => {
                self.insert_at(s, Ghost(witness));
                Ok(())
            },
        }
    }

    fn insert_unchecked(&mut self, s: String) {
        let ghost witness = choose|path: Seq<int>|
            #[trigger] self.wf_at(path) && has_prefix(s.key(), path);
        proof {
            assert forall|path: Seq<int>|
                #[trigger] self.wf_at(path) && has_prefix(s.key(), path) implies path
                == witness by {
                assert(path =~= witness);
            }
        }
        self.insert_at(s, Ghost(witness));
    }

    fn merge(&mut self, target: &mut Vec<String>) {
        self.flatten(target);
    }
}

impl DynamicAlphaNumericNode {
    /// The number of bytes that the node's path spells.
    fn offset_of(&self, Ghost(path): Ghost<Seq<int>>) -> (offset: usize)
        requires
            self.placed_at(path),
        ensures
            offset == self.offset(),
            offset == path.len(),
    {
        match &self.kind {
            AlphaNumericNodeKind::Burst(node) => node.offset,
            AlphaNumericNodeKind::Collapsed(node) => node.offset,
        }
    }
}

} // verus!
