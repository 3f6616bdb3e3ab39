//! A burst trie over items keyed by bytes, with a table of 256 children at
//! every burst node and a fixed burst limit.

use vstd::prelude::*;
use crate::ties::{keeps_ties, keeps_order, lemma_order_reflexive, lemma_order_transitive};
use crate::ties::{lemma_order_push, lemma_order_concat, lemma_order_joins_run, lemma_ties_keep_order};
use vstd::multiset::Multiset;
use crate::item::{Item, ByteItem, in_order, all_reach, extends_in_order, extends_in_order_from};
use crate::item::{begins_with, below_branch, lemma_run_joins, lemma_branch_joins};
use crate::item::{larger, longest, lemma_longest_push, lemma_longest_bounds};
use crate::item::{lemma_nothing_in_empty, lemma_member_of_permutation};
use crate::item::lemma_in_order_by_remainder;
use crate::leaf::{sort_from, stable_sort_from};
use crate::order::{has_prefix, lex_le};
use crate::rows::{sum_of, most_of, lemma_sum_member, lemma_sum_nothing, lemma_sum_update};
use crate::rows::{lemma_most_bounds, lemma_most_update};

verus! {

/// A bucket that has come to hold more items than this is burst.
pub const BURST_LIMIT: usize = 8192;

/// The number of children of a table: one for each value of a byte.
pub const TABLE_SIZE: usize = 256;

/// A node of the trie, `offset` bytes below the root.
pub struct TrieNode<T> {
    /// The number of bytes on the path from the root to the node.
    pub offset: usize,
    /// What the node holds: a bucket, or a table once it has burst.
    pub data: NodeKind<T>,
}

/// The two states of a node.
pub enum NodeKind<T> {
    /// The node has not burst.
    Bucket(BucketNode<T>),
    /// The node has burst.
    Table(TableNode<T>),
}

/// A flat bucket of items, in the order they came.
pub struct BucketNode<T> {
    /// The items, each beginning with the path of the node.
    pub bucket: Vec<T>,
}

/// A burst node: the items that end at the node, and one child for each
/// value of the byte that follows.
pub struct TableNode<T> {
    /// The items that end at the node.
    pub matches: Vec<T>,
    /// The children, by the byte that leads to them.
    pub table: Vec<TrieNode<T>>,
}

impl<T: ByteItem> BucketNode<T> {
    /// Every item in the bucket begins with `path`.
    pub open spec fn wf_at(self, path: Seq<int>) -> bool {
        forall|i: int| 0 <= i < self.bucket@.len() ==> has_prefix((#[trigger] self.bucket@[i]).key(), path)
    }

    /// The items in the bucket.
    pub open spec fn items(self) -> Multiset<T> {
        self.bucket@.to_multiset()
    }

    /// Adds `s` to the bucket.
    pub fn insert(&mut self, s: T)
        ensures
            final(self).bucket@ == old(self).bucket@.push(s),
    {
        self.bucket.push(s);
    }

    /// Whether the bucket has grown beyond the burst limit.
    pub fn should_burst(&self) -> (full: bool)
        ensures
            full == (self.bucket@.len() > BURST_LIMIT),
    {
        self.bucket.len() > BURST_LIMIT
    }

    /// Empties the bucket into a new table for a node at offset `off`. The
    /// items go into the table first to last, so that items with equal keys
    /// keep their order.
    pub fn burst(&mut self, off: usize) -> (table: TableNode<T>)
        requires
            off < usize::MAX,
            exists|path: Seq<int>| path.len() == off && old(self).wf_at(path),
        ensures
            final(self).bucket@.len() == 0,
            table.items() == old(self).items(),
            table.reach() <= longest(old(self).bucket@),
            keeps_order(table.arrival(), old(self).bucket@),
            forall|path: Seq<int>|
                path.len() == off && #[trigger] old(self).wf_at(path) ==> table.wf_at(path),
        decreases longest(old(self).bucket@) - off, 1int,
    {
        broadcast use vstd::seq_lib::group_to_multiset_ensures;

        let ghost all = self.bucket@;
        let ghost witness = choose|path: Seq<int>| path.len() == off && self.wf_at(path);
        let mut table = TableNode::<T>::new(off);
        let mut pending: Vec<T> = Vec::new();
        core::mem::swap(&mut self.bucket, &mut pending);
        proof {
            assert(table.wf_at(witness));
            lemma_nothing_in_empty(all.take(0));
            assert(table.arrival() =~= all.take(0));
            lemma_order_reflexive(all.take(0));
        }
        for item in it: pending
            invariant
                it.seq() == all,
                all == old(self).bucket@,
                self.bucket@.len() == 0,
                off < usize::MAX,
                witness.len() == off,
                forall|i: int| 0 <= i < all.len() ==> has_prefix((#[trigger] all[i]).key(), witness),
                table.items() == all.take(it.index() as int).to_multiset(),
                table.reach() <= longest(all),
                keeps_order(table.arrival(), all.take(it.index() as int)),
                forall|path: Seq<int>|
                    path.len() == off && (forall|i: int|
                        0 <= i < all.len() ==> has_prefix((#[trigger] all[i]).key(), path))
                        ==> #[trigger] table.wf_at(path),
        {
            let ghost before = table;
            let ghost at = it.index() as int;
            proof {
                lemma_longest_bounds(all, at);
                assert(has_prefix(all[at].key(), witness));
                assert(before.wf_at(witness));
            }
            table.insert(item, off);
            proof {
                assert(all.take(at + 1) =~= all.take(at).push(item));
                vstd::seq_lib::to_multiset_build(all.take(at), item);
                lemma_order_push(before.arrival(), all.take(at), item);
                lemma_order_transitive(
                    table.arrival(),
                    before.arrival().push(item),
                    all.take(at).push(item),
                );
                assert forall|path: Seq<int>|
                    path.len() == off && (forall|i: int|
                        0 <= i < all.len() ==> has_prefix(
                            (#[trigger] all[i]).key(),
                            path,
                        )) implies #[trigger] table.wf_at(path) by {
                    assert(before.wf_at(path));
                    assert(has_prefix(all[at].key(), path));
                }
            }
        }
        proof {
            assert(all.take(all.len() as int) =~= all);
            assert forall|path: Seq<int>|
                path.len() == off && #[trigger] old(self).wf_at(path) implies table.wf_at(path) by {
                assert(forall|i: int|
                    0 <= i < all.len() ==> has_prefix((#[trigger] all[i]).key(), path));
            }
        }
        table
    }

    /// Appends the items of the bucket to `target`, in the order of what
    /// follows their first `offset` bytes, and leaves the bucket empty. Items
    /// that are equal from `offset` on keep the order they had in the bucket.
    pub fn merge(&mut self, target: &mut Vec<T>, offset: usize)
        requires
            all_reach(old(self).bucket@, offset),
        ensures
            final(self).bucket@.len() == 0,
            extends_in_order_from(old(target)@, final(target)@, old(self).items(), offset),
            keeps_ties(final(target)@.skip(old(target)@.len() as int), old(self).bucket@, offset),
    {
        stable_sort_from(&mut self.bucket, offset);
        let ghost start = target@;
        let ghost sorted = self.bucket@;
        target.append(&mut self.bucket);
        proof {
            assert(target@.take(start.len() as int) =~= start);
            assert(target@.skip(start.len() as int) =~= sorted);
        }
    }

    /// Does what `merge` does, with a sort that may reorder equal items.
    pub fn merge_unstable(&mut self, target: &mut Vec<T>, offset: usize)
        requires
            all_reach(old(self).bucket@, offset),
        ensures
            final(self).bucket@.len() == 0,
            extends_in_order_from(old(target)@, final(target)@, old(self).items(), offset),
    {
        sort_from(&mut self.bucket, offset);
        let ghost start = target@;
        let ghost sorted = self.bucket@;
        target.append(&mut self.bucket);
        proof {
            assert(target@.take(start.len() as int) =~= start);
            assert(target@.skip(start.len() as int) =~= sorted);
        }
    }
}

impl<T: ByteItem> TableNode<T> {
    /// The table is as it should be for a node that is reached by `path`: its
    /// matches are the items that spell the path, and it has one child for
    /// each byte, reached by the path and that byte.
    pub open spec fn wf_at(self, path: Seq<int>) -> bool
        decreases self,
    {
        &&& forall|i: int|
            0 <= i < self.matches@.len() ==> (#[trigger] self.matches@[i]).key() == path
        &&& self.table@.len() == TABLE_SIZE
        &&& forall|c: int|
            0 <= c < self.table@.len() ==> (#[trigger] self.table@[c]).wf_at(path.push(c))
    }

    /// The items held by the table and by the nodes below it.
    pub open spec fn items(self) -> Multiset<T>
        decreases self,
    {
        self.matches@.to_multiset().add(TrieNode::<T>::items_of(self.table@))
    }

    /// The length of the longest key in a bucket below the table.
    pub open spec fn reach(self) -> nat
        decreases self,
    {
        TrieNode::<T>::reach_of(self.table@)
    }

    /// The items of the table: its matches in the order they came, then the
    /// items of its children, child after child.
    pub open spec fn arrival(self) -> Seq<T>
        decreases self,
    {
        self.matches@ + TrieNode::<T>::arrival_of(self.table@)
    }

    /// `after` is the table `before`, for a node at `off`, with `s` added. An
    /// item that ends at the node joins the matches, and the children are as
    /// they were. Another leaves the matches as they were: the child for
    /// its next byte is that child with the item added, and the other
    /// children are as they were.
    pub open spec fn follows_insert(
        after: TableNode<T>,
        before: TableNode<T>,
        s: T,
        off: usize,
    ) -> bool
        decreases before,
    {
        if s.key().len() <= off {
            &&& after.matches@ == before.matches@.push(s)
            &&& after.table@ == before.table@
        } else {
            let index = s.key()[off as int];
            &&& after.matches@ == before.matches@
            &&& after.table@.len() == before.table@.len()
            &&& forall|c: int|
                0 <= c < before.table@.len() && c != index ==> #[trigger] after.table@[c]
                    == before.table@[c]
            &&& if 0 <= index < before.table@.len() {
                TrieNode::<T>::follows_insert(after.table@[index], before.table@[index], s)
            } else {
                true
            }
        }
    }

    /// A table without items, for a node at `offset`.
    pub fn new(offset: usize) -> (node: TableNode<T>)
        requires
            offset < usize::MAX,
        ensures
            node.items() == Multiset::<T>::empty(),
            node.reach() == 0,
            node.matches@.len() == 0,
            node.table@.len() == TABLE_SIZE,
            node.arrival().len() == 0,
            forall|c: int|
                0 <= c < node.table@.len() ==> (#[trigger] node.table@[c]).is_fresh(offset + 1),
            forall|path: Seq<int>| path.len() == offset ==> #[trigger] node.wf_at(path),
    {
        let mut table: Vec<TrieNode<T>> = Vec::new();
        let mut byte: usize = 0;
        while byte < TABLE_SIZE
            invariant
                offset < usize::MAX,
                byte <= TABLE_SIZE,
                table@.len() == byte,
                forall|c: int|
                    0 <= c < table@.len() ==> (#[trigger] table@[c]).is_fresh(offset + 1),
                TrieNode::<T>::items_of(table@) == Multiset::<T>::empty(),
                TrieNode::<T>::reach_of(table@) == 0,
                TrieNode::<T>::arrival_of(table@).len() == 0,
            decreases TABLE_SIZE - byte,
        {
            let child = TrieNode::<T>::new(offset + 1);
            proof {
                assert(table@.push(child).drop_last() =~= table@);
                lemma_nothing_in_empty(child.data->Bucket_0.bucket@);
                assert(TrieNode::<T>::items_of(table@).add(child.items()) =~= Multiset::<T>::empty());
            }
            table.push(child);
            byte += 1;
        }
        let node = TableNode { matches: Vec::new(), table };
        proof {
            lemma_nothing_in_empty(node.matches@);
            assert(node.items() =~= Multiset::<T>::empty());
            assert forall|path: Seq<int>| path.len() == offset implies #[trigger] node.wf_at(
                path,
            ) by {
                assert forall|c: int| 0 <= c < node.table@.len() implies (
                #[trigger] node.table@[c]).wf_at(path.push(c)) by {
                    assert(node.table@[c].is_fresh(offset + 1));
                }
            }
        }
        node
    }

    /// Adds `s` to a table for a node at offset `off`.
    pub fn insert(&mut self, s: T, off: usize)
        requires
            exists|path: Seq<int>|
                path.len() == off && old(self).wf_at(path) && has_prefix(s.key(), path),
        ensures
            final(self).items() == old(self).items().insert(s),
            final(self).reach() <= larger(old(self).reach(), s.key().len()),
            final(self).table@.len() == old(self).table@.len(),
            Self::follows_insert(*final(self), *old(self), s, off),
            keeps_order(final(self).arrival(), old(self).arrival().push(s)),
            forall|path: Seq<int>|
                path.len() == off && #[trigger] old(self).wf_at(path) && has_prefix(s.key(), path)
                    ==> final(self).wf_at(path),
        decreases larger(old(self).reach(), s.key().len()) - off, 0int,
    {
        broadcast use vstd::seq_lib::group_to_multiset_ensures;

        let ghost witness = choose|path: Seq<int>|
            path.len() == off && self.wf_at(path) && has_prefix(s.key(), path);
        if off == s.unit_count() {
            proof {
                assert forall|path: Seq<int>|
                    path.len() == off && has_prefix(s.key(), path) implies s.key() == path by {
                    assert(s.key() =~= path);
                }
                let rest = TrieNode::<T>::arrival_of(self.table@);
                assert forall|i: int| 0 <= i < rest.len() implies (#[trigger] rest[i]).key()
                    != s.key() by {
                    let j = TrieNode::<T>::lemma_arrival_of_under_path(self.table@, 0, witness, i);
                }
                let none = Seq::<T>::empty();
                lemma_order_reflexive(self.matches@.push(s));
                lemma_order_joins_run(none, self.matches@, self.matches@.push(s), rest, s);
                assert(none + self.matches@.push(s) + rest =~= self.matches@.push(s) + rest);
                assert(none + self.matches@ + rest =~= self.matches@ + rest);
            }
            self.matches.push(s);
        } else {
            let index = s.unit_at(off);
            let ghost before = self.table@;
            proof {
                s.lemma_units_are_bytes();
                TrieNode::<T>::lemma_row(before);
                lemma_most_bounds(TrieNode::<T>::reaches_of(before), index as int);
                assert(before[index as int].wf_at(witness.push(index as int)));
                assert(has_prefix(s.key(), witness.push(index as int)));
            }
            self.table[index].insert(s);
            proof {
                let child = self.table@[index as int];
                let after = self.table@;
                let c = index as int;
                assert(after =~= before.update(c, child));
                let bags = TrieNode::<T>::bags_of(before);
                let reaches = TrieNode::<T>::reaches_of(before);
                TrieNode::<T>::lemma_row(after);
                assert(TrieNode::<T>::bags_of(after) =~= bags.update(c, child.items()));
                assert(TrieNode::<T>::reaches_of(after) =~= reaches.update(c, child.reach()));
                lemma_sum_update(bags, c, child.items(), s);
                lemma_most_update(reaches, c, child.reach());
                TrieNode::<T>::lemma_arrival_of_split(before, c);
                TrieNode::<T>::lemma_arrival_of_split(after, c);
                assert(after.take(c) =~= before.take(c));
                assert(after.skip(c + 1) =~= before.skip(c + 1));
                let l = self.matches@ + TrieNode::<T>::arrival_of(before.take(c));
                let r = TrieNode::<T>::arrival_of(before.skip(c + 1));
                assert forall|i: int| 0 <= i < r.len() implies (#[trigger] r[i]).key()
                    != s.key() by {
                    assert forall|d: int| 0 <= d < before.skip(c + 1).len() implies (
                    #[trigger] before.skip(c + 1)[d]).wf_at(witness.push(c + 1 + d)) by {
                        assert(before[c + 1 + d].wf_at(witness.push(c + 1 + d)));
                    }
                    let j = TrieNode::<T>::lemma_arrival_of_under_path(
                        before.skip(c + 1),
                        c + 1,
                        witness,
                        i,
                    );
                    assert(r[i].key()[off as int] == c + 1 + j);
                }
                lemma_order_joins_run(l, before[c].arrival(), child.arrival(), r, s);
                assert(self.arrival() =~= l + child.arrival() + r);
                assert(old(self).arrival() =~= l + before[c].arrival() + r);
                assert forall|path: Seq<int>|
                    path.len() == off && #[trigger] old(self).wf_at(path) && has_prefix(
                        s.key(),
                        path,
                    ) implies self.wf_at(path) by {
                    assert(before[index as int].wf_at(path.push(index as int)));
                    assert(has_prefix(s.key(), path.push(index as int)));
                }
            }
        }
    }

    /// Appends the items of the table to `target`, in order, and leaves the
    /// table empty. The matches come first, as they stood. Items with equal
    /// keys keep the order in which they came.
    pub fn merge(&mut self, target: &mut Vec<T>)
        requires
            exists|path: Seq<int>| old(self).wf_at(path),
        ensures
            final(self).items() == Multiset::<T>::empty(),
            extends_in_order(old(target)@, final(target)@, old(self).items()),
            begins_with(final(target)@.skip(old(target)@.len() as int), old(self).matches@),
            keeps_order(final(target)@.skip(old(target)@.len() as int), old(self).arrival()),
            forall|path: Seq<int>| #[trigger] old(self).wf_at(path) ==> final(self).wf_at(path),
        decreases *old(self), 1int,
    {
        self.merge_with(target, true);
    }

    /// Does what `merge` does, but with a sort of the buckets that may
    /// reorder equal items.
    pub fn merge_unstable(&mut self, target: &mut Vec<T>)
        requires
            exists|path: Seq<int>| old(self).wf_at(path),
        ensures
            final(self).items() == Multiset::<T>::empty(),
            extends_in_order(old(target)@, final(target)@, old(self).items()),
            begins_with(final(target)@.skip(old(target)@.len() as int), old(self).matches@),
            forall|path: Seq<int>| #[trigger] old(self).wf_at(path) ==> final(self).wf_at(path),
        decreases *old(self), 1int,
    {
        self.merge_with(target, false);
    }

    /// Appends the items of the table to `target`, in order, and leaves the
    /// table empty. The buckets are sorted by a stable sort if `stable` is set.
    fn merge_with(&mut self, target: &mut Vec<T>, stable: bool)
        requires
            exists|path: Seq<int>| old(self).wf_at(path),
        ensures
            final(self).items() == Multiset::<T>::empty(),
            extends_in_order(old(target)@, final(target)@, old(self).items()),
            begins_with(final(target)@.skip(old(target)@.len() as int), old(self).matches@),
            stable ==> keeps_order(
                final(target)@.skip(old(target)@.len() as int),
                old(self).arrival(),
            ),
            forall|path: Seq<int>| #[trigger] old(self).wf_at(path) ==> final(self).wf_at(path),
        decreases *old(self), 0int,
    {
        broadcast use vstd::seq_lib::group_to_multiset_ensures;

        let ghost whole = *self;
        let ghost path = choose|path: Seq<int>| whole.wf_at(path);
        let ghost level = path.len() as int;
        let ghost start = target@;
        let ghost matched = self.matches@;
        let ghost children = self.table@;
        target.append(&mut self.matches);
        proof {
            lemma_nothing_in_empty(self.matches@);
            lemma_nothing_in_empty(children.take(0));
            assert(target@.skip(start.len() as int) =~= matched);
            assert(target@.take(start.len() as int) =~= start);
            assert(TrieNode::<T>::items_of(children.take(0)) =~= Multiset::<T>::empty());
            assert(matched + TrieNode::<T>::arrival_of(children.take(0)) =~= matched);
            lemma_order_reflexive(matched);
            assert(matched.take(matched.len() as int) =~= matched);
            assert forall|i: int, j: int| 0 <= i < j < matched.len() implies lex_le(
                matched[i].key(),
                matched[j].key(),
            ) by {
                crate::order::lemma_le_reflexive(path);
            }
        }
        let mut byte: usize = 0;
        while byte < self.table.len()
            invariant
                whole == *old(self),
                whole.table@ == children,
                byte <= children.len(),
                self.table@.len() == children.len(),
                self.matches@.len() == 0,
                level == path.len(),
                start.len() <= target@.len(),
                target@.take(start.len() as int) == start,
                target@.skip(start.len() as int).to_multiset() == matched.to_multiset().add(
                    TrieNode::<T>::items_of(children.take(byte as int)),
                ),
                in_order(target@.skip(start.len() as int)),
                begins_with(target@.skip(start.len() as int), matched),
                stable ==> keeps_order(
                    target@.skip(start.len() as int),
                    matched + TrieNode::<T>::arrival_of(children.take(byte as int)),
                ),
                below_branch(target@.skip(start.len() as int), path, byte as int),
                forall|c: int| byte <= c < children.len() ==> #[trigger] self.table@[c] == children[c],
                forall|c: int|
                    0 <= c < children.len() ==> (#[trigger] children[c]).wf_at(path.push(c)),
                forall|c: int, p: Seq<int>|
                    0 <= c < byte && #[trigger] children[c].wf_at(p) ==> self.table@[c].wf_at(p),
                forall|c: int|
                    0 <= c < byte ==> (#[trigger] self.table@[c]).items() == Multiset::<T>::empty(),
            decreases children.len() - byte,
        {
            let ghost before = target@;
            let ghost done = before.skip(start.len() as int);
            let ghost child_path = path.push(byte as int);
            let ghost child = children[byte as int];
            let ghost table_before = self.table@;
            assert(self.table@[byte as int] == child);
            assert(child.wf_at(child_path));
            if stable {
                self.table[byte].merge(target);
            } else {
                self.table[byte].merge_unstable(target);
            }
            proof {
                let tail = target@.skip(before.len() as int);
                lemma_run_joins(start, before, target@);
                assert(children.take(byte + 1).drop_last() =~= children.take(byte as int));
                assert(children.take(byte + 1).last() == child);
                vstd::seq_lib::lemma_multiset_commutative(done, tail);
                assert((done + tail).to_multiset() =~= matched.to_multiset().add(
                    TrieNode::<T>::items_of(children.take(byte + 1)),
                ));
                assert forall|j: int| 0 <= j < tail.len() implies has_prefix(
                    (#[trigger] tail[j]).key(),
                    child_path,
                ) by {
                    assert(tail.contains(tail[j]));
                    vstd::seq_lib::to_multiset_contains(tail, tail[j]);
                    child.lemma_items_under_path(child_path, tail[j]);
                }
                lemma_branch_joins(done, tail, path, byte as int, byte + 1);
                assert(self.table@ =~= table_before.update(byte as int, self.table@[byte as int]));
                assert((done + tail).take(matched.len() as int) =~= done.take(matched.len() as int));
                if stable {
                    let so_far = matched + TrieNode::<T>::arrival_of(children.take(byte as int));
                    lemma_order_concat(done, so_far, tail, child.arrival());
                    assert(so_far + child.arrival() =~= matched + TrieNode::<T>::arrival_of(
                        children.take(byte + 1),
                    ));
                }
            }
            byte += 1;
        }
        proof {
            assert(children.take(children.len() as int) =~= children);
            TrieNode::<T>::lemma_row(self.table@);
            lemma_sum_nothing(TrieNode::<T>::bags_of(self.table@));
            assert(self.items() =~= Multiset::<T>::empty());
            assert forall|p: Seq<int>| #[trigger] whole.wf_at(p) implies self.wf_at(p) by {
                assert forall|c: int| 0 <= c < self.table@.len() implies (
                #[trigger] self.table@[c]).wf_at(p.push(c)) by {
                    assert(children[c].wf_at(p.push(c)));
                }
            }
        }
    }
}

impl<T: ByteItem> TrieNode<T> {
    /// The node and the nodes below it are as they should be, for a node that
    /// is reached from the root by `path`: a bucket stays below the burst
    /// limit unless no key can go on beyond the node.
    pub open spec fn wf_at(self, path: Seq<int>) -> bool
        decreases self,
    {
        &&& self.offset == path.len()
        &&& match self.data {
            NodeKind::Bucket(node) => {
                &&& node.wf_at(path)
                &&& (node.bucket@.len() <= BURST_LIMIT || self.offset == usize::MAX)
            },
            NodeKind::Table(node) => node.wf_at(path),
        }
    }

    /// The node is a well-formed root.
    pub open spec fn wf(self) -> bool {
        self.wf_at(Seq::empty())
    }

    /// The items held by the node and by the nodes below it.
    pub open spec fn items(self) -> Multiset<T>
        decreases self,
    {
        match self.data {
            NodeKind::Bucket(node) => node.items(),
            NodeKind::Table(node) => node.items(),
        }
    }

    /// The items held under the nodes of `nodes`.
    pub open spec fn items_of(nodes: Seq<TrieNode<T>>) -> Multiset<T>
        decreases nodes,
    {
        if nodes.len() == 0 {
            Multiset::empty()
        } else {
            Self::items_of(nodes.drop_last()).add(nodes.last().items())
        }
    }

    /// The length of the longest key in a bucket at or below the node.
    pub open spec fn reach(self) -> nat
        decreases self,
    {
        match self.data {
            NodeKind::Bucket(node) => longest(node.bucket@),
            NodeKind::Table(node) => node.reach(),
        }
    }

    /// The largest reach among `nodes`.
    pub open spec fn reach_of(nodes: Seq<TrieNode<T>>) -> nat
        decreases nodes,
    {
        if nodes.len() == 0 {
            0
        } else {
            larger(Self::reach_of(nodes.drop_last()), nodes.last().reach())
        }
    }

    /// The items of the node, as a merge meets the buckets and matches that
    /// hold them, each bucket and each list of matches in the order in which
    /// its items came.
    pub open spec fn arrival(self) -> Seq<T>
        decreases self,
    {
        match self.data {
            NodeKind::Bucket(node) => node.bucket@,
            NodeKind::Table(node) => node.arrival(),
        }
    }

    /// The items of `nodes`, node after node, each as `arrival` gives them.
    pub open spec fn arrival_of(nodes: Seq<TrieNode<T>>) -> Seq<T>
        decreases nodes,
    {
        if nodes.len() == 0 {
            Seq::empty()
        } else {
            Self::arrival_of(nodes.drop_last()) + nodes.last().arrival()
        }
    }

    /// Every item of a node begins with the node's path.
    proof fn lemma_arrival_under_path(self, path: Seq<int>, i: int)
        requires
            self.wf_at(path),
            0 <= i < self.arrival().len(),
        ensures
            has_prefix(self.arrival()[i].key(), path),
        decreases self,
    {
        match self.data {
            NodeKind::Bucket(node) => {},
            NodeKind::Table(node) => {
                if i >= node.matches@.len() {
                    let j = Self::lemma_arrival_of_under_path(
                        node.table@,
                        0,
                        path,
                        i - node.matches@.len(),
                    );
                }
            },
        }
    }

    /// Every item of children that are reached by `path` and the bytes from
    /// `base` on begins with the path and the byte of its child.
    proof fn lemma_arrival_of_under_path(
        nodes: Seq<TrieNode<T>>,
        base: int,
        path: Seq<int>,
        i: int,
    ) -> (j: int)
        requires
            forall|c: int| 0 <= c < nodes.len() ==> (#[trigger] nodes[c]).wf_at(path.push(base + c)),
            0 <= i < Self::arrival_of(nodes).len(),
        ensures
            0 <= j < nodes.len(),
            has_prefix(Self::arrival_of(nodes)[i].key(), path.push(base + j)),
        decreases nodes,
    {
        let front = Self::arrival_of(nodes.drop_last());
        if i < front.len() {
            Self::lemma_arrival_of_under_path(nodes.drop_last(), base, path, i)
        } else {
            nodes.last().lemma_arrival_under_path(path.push(base + nodes.len() - 1), i - front.len());
            nodes.len() - 1
        }
    }

    /// The items of some nodes are those of the nodes before one of them, of
    /// that node, and of the nodes after it.
    proof fn lemma_arrival_of_split(nodes: Seq<TrieNode<T>>, c: int)
        requires
            0 <= c < nodes.len(),
        ensures
            Self::arrival_of(nodes) == Self::arrival_of(nodes.take(c)) + nodes[c].arrival()
                + Self::arrival_of(nodes.skip(c + 1)),
        decreases nodes.len(),
    {
        if c == nodes.len() - 1 {
            assert(nodes.take(c) =~= nodes.drop_last());
            assert(nodes.skip(c + 1) =~= Seq::<TrieNode<T>>::empty());
            assert(Self::arrival_of(nodes) =~= Self::arrival_of(nodes.take(c)) + nodes[c].arrival()
                + Seq::<T>::empty());
        } else {
            Self::lemma_arrival_of_split(nodes.drop_last(), c);
            assert(nodes.drop_last().take(c) =~= nodes.take(c));
            assert(nodes.drop_last().skip(c + 1) =~= nodes.skip(c + 1).drop_last());
            assert(nodes.skip(c + 1).last() == nodes.last());
            assert(Self::arrival_of(nodes) =~= Self::arrival_of(nodes.take(c)) + nodes[c].arrival()
                + Self::arrival_of(nodes.skip(c + 1)));
        }
    }

    /// `after` is the node `before` with `s` added. A table takes `s` as a
    /// table does. A bucket takes `s` at its end, and bursts into a table if
    /// it then holds more than the burst limit, unless no key can go on
    /// beyond the node.
    pub open spec fn follows_insert(after: TrieNode<T>, before: TrieNode<T>, s: T) -> bool
        decreases before,
    {
        match before.data {
            NodeKind::Table(node) => {
                &&& after.data is Table
                &&& TableNode::follows_insert(after.data->Table_0, node, s, before.offset)
            },
            NodeKind::Bucket(node) => {
                let grown = node.bucket@.push(s);
                if grown.len() > BURST_LIMIT && before.offset < usize::MAX {
                    after.data is Table
                } else {
                    after.data is Bucket && after.data->Bucket_0.bucket@ == grown
                }
            },
        }
    }

    /// The node is an empty bucket at `offset`.
    pub open spec fn is_fresh(self, offset: int) -> bool {
        &&& self.offset == offset
        &&& self.data is Bucket
        &&& self.data->Bucket_0.bucket@.len() == 0
    }

    /// What each of `nodes` holds.
    spec fn bags_of(nodes: Seq<TrieNode<T>>) -> Seq<Multiset<T>> {
        Seq::new(nodes.len(), |c: int| nodes[c].items())
    }

    /// How far each of `nodes` reaches.
    spec fn reaches_of(nodes: Seq<TrieNode<T>>) -> Seq<nat> {
        Seq::new(nodes.len(), |c: int| nodes[c].reach())
    }

    /// Nodes hold together what each of them holds, and reach as far as the
    /// one of them that reaches furthest.
    proof fn lemma_row(nodes: Seq<TrieNode<T>>)
        ensures
            Self::items_of(nodes) == sum_of(Self::bags_of(nodes)),
            Self::reach_of(nodes) == most_of(Self::reaches_of(nodes)),
        decreases nodes.len(),
    {
        if nodes.len() > 0 {
            Self::lemma_row(nodes.drop_last());
            assert(Self::bags_of(nodes).drop_last() =~= Self::bags_of(nodes.drop_last()));
            assert(Self::reaches_of(nodes).drop_last() =~= Self::reaches_of(nodes.drop_last()));
        }
    }

    /// Every item at or below a node begins with the node's path.
    proof fn lemma_items_under_path(self, path: Seq<int>, item: T)
        requires
            self.wf_at(path),
            self.items().count(item) > 0,
        ensures
            has_prefix(item.key(), path),
        decreases self,
    {
        broadcast use vstd::seq_lib::group_to_multiset_ensures;

        match self.data {
            NodeKind::Bucket(node) => {
                assert(node.bucket@.contains(item));
            },
            NodeKind::Table(node) => {
                if node.matches@.to_multiset().count(item) > 0 {
                    assert(node.matches@.contains(item));
                } else {
                    Self::lemma_row(node.table@);
                    let c = lemma_sum_member(Self::bags_of(node.table@), item);
                    node.table@[c].lemma_items_under_path(path.push(c), item);
                }
            },
        }
    }

    /// An empty node at `offset`.
    pub fn new(offset: usize) -> (node: TrieNode<T>)
        ensures
            node.is_fresh(offset as int),
            node.items() == Multiset::<T>::empty(),
            node.reach() == 0,
            node.arrival().len() == 0,
            forall|path: Seq<int>| path.len() == offset ==> #[trigger] node.wf_at(path),
    {
        let node = TrieNode { offset, data: NodeKind::Bucket(BucketNode { bucket: Vec::new() }) };
        proof {
            lemma_nothing_in_empty(node.data->Bucket_0.bucket@);
        }
        node
    }

    /// Adds `s` to the node.
    pub fn insert(&mut self, s: T)
        requires
            exists|path: Seq<int>| old(self).wf_at(path) && has_prefix(s.key(), path),
        ensures
            final(self).offset == old(self).offset,
            final(self).items() == old(self).items().insert(s),
            final(self).reach() <= larger(old(self).reach(), s.key().len()),
            Self::follows_insert(*final(self), *old(self), s),
            keeps_order(final(self).arrival(), old(self).arrival().push(s)),
            forall|path: Seq<int>|
                #[trigger] old(self).wf_at(path) && has_prefix(s.key(), path) ==> final(self).wf_at(
                    path,
                ),
        decreases larger(old(self).reach(), s.key().len()) - old(self).offset, 2int,
    {
        broadcast use vstd::seq_lib::group_to_multiset_ensures;

        let ghost witness = choose|path: Seq<int>| self.wf_at(path) && has_prefix(s.key(), path);
        match &mut self.data {
            NodeKind::Table(data) => {
                let ghost full = *data;
                proof {
                    assert(full.wf_at(witness));
                }
                data.insert(s, self.offset);
                proof {
                    assert forall|path: Seq<int>|
                        #[trigger] old(self).wf_at(path) && has_prefix(
                            s.key(),
                            path,
                        ) implies data.wf_at(path) by {
                        assert(full.wf_at(path));
                    }
                }
            },
            NodeKind::Bucket(data) => {
                proof {
                    lemma_longest_push(data.bucket@, s);
                }
                data.insert(s);
                let ghost grown = *data;
                proof {
                    lemma_order_reflexive(grown.bucket@);
                    assert forall|path: Seq<int>|
                        #[trigger] old(self).wf_at(path) && has_prefix(
                            s.key(),
                            path,
                        ) implies grown.wf_at(path) by {
                        assert(old(self).data->Bucket_0.wf_at(path));
                    }
                }
                if self.offset < usize::MAX && data.should_burst() {
                    proof {
                        assert(grown.wf_at(witness));
                    }
                    let table = data.burst(self.offset);
                    proof {
                        assert forall|path: Seq<int>|
                            #[trigger] old(self).wf_at(path) && has_prefix(
                                s.key(),
                                path,
                            ) implies table.wf_at(path) by {
                            assert(grown.wf_at(path));
                        }
                    }
                    self.data = NodeKind::Table(table);
                }
            },
        }
    }

    /// Appends the items of the node to `target`, in order, and leaves the
    /// node empty. Items with equal keys keep the order in which they came.
    pub fn merge(&mut self, target: &mut Vec<T>)
        requires
            exists|path: Seq<int>| old(self).wf_at(path),
        ensures
            final(self).items() == Multiset::<T>::empty(),
            extends_in_order(old(target)@, final(target)@, old(self).items()),
            keeps_order(final(target)@.skip(old(target)@.len() as int), old(self).arrival()),
            forall|path: Seq<int>| #[trigger] old(self).wf_at(path) ==> final(self).wf_at(path),
        decreases *old(self), 1int,
    {
        self.merge_with(target, true);
    }

    /// Does what `merge` does, with a sort that may reorder equal items.
    pub fn merge_unstable(&mut self, target: &mut Vec<T>)
        requires
            exists|path: Seq<int>| old(self).wf_at(path),
        ensures
            final(self).items() == Multiset::<T>::empty(),
            extends_in_order(old(target)@, final(target)@, old(self).items()),
            forall|path: Seq<int>| #[trigger] old(self).wf_at(path) ==> final(self).wf_at(path),
        decreases *old(self), 1int,
    {
        self.merge_with(target, false);
    }

    /// Appends the items of the node to `target`, in order, and leaves the
    /// node empty. The buckets are sorted by a stable sort if `stable` is set.
    fn merge_with(&mut self, target: &mut Vec<T>, stable: bool)
        requires
            exists|path: Seq<int>| old(self).wf_at(path),
        ensures
            final(self).items() == Multiset::<T>::empty(),
            extends_in_order(old(target)@, final(target)@, old(self).items()),
            stable ==> keeps_order(
                final(target)@.skip(old(target)@.len() as int),
                old(self).arrival(),
            ),
            forall|path: Seq<int>| #[trigger] old(self).wf_at(path) ==> final(self).wf_at(path),
        decreases *old(self), 0int,
    {
        broadcast use vstd::seq_lib::group_to_multiset_ensures;

        let ghost whole = *self;
        let ghost path = choose|path: Seq<int>| self.wf_at(path);
        let ghost start = target@;
        match &mut self.data {
            NodeKind::Bucket(bucket) => {
                let ghost unsorted = bucket.bucket@;
                proof {
                    assert(bucket.wf_at(path));
                }
                if stable {
                    bucket.merge(target, self.offset);
                } else {
                    bucket.merge_unstable(target, self.offset);
                }
                proof {
                    let tail = target@.skip(start.len() as int);
                    assert forall|i: int| 0 <= i < tail.len() implies has_prefix(
                        (#[trigger] tail[i]).key(),
                        path,
                    ) by {
                        let j = lemma_member_of_permutation(tail, unsorted, i);
                    }
                    lemma_in_order_by_remainder(tail, self.offset, path);
                    lemma_nothing_in_empty(bucket.bucket@);
                    if stable {
                        lemma_ties_keep_order(tail, unsorted, self.offset, path);
                    }
                }
            },
            NodeKind::Table(table) => {
                let ghost full = *table;
                proof {
                    assert(full.wf_at(path));
                }
                if stable {
                    table.merge(target);
                } else {
                    table.merge_unstable(target);
                }
                proof {
                    assert forall|p: Seq<int>| #[trigger] whole.wf_at(p) implies table.wf_at(p) by {
                        assert(full.wf_at(p));
                    }
                }
            },
        }
    }
}

} // verus!
