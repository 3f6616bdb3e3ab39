//! The burst trie: a radix trie whose nodes start as flat buckets and turn into
//! tables of children once a bucket grows past the burst limit.

use vstd::prelude::*;
use vstd::multiset::Multiset;
use rayon::iter::{IntoParallelRefMutIterator, ParallelIterator};
use crate::item::{Item, in_order, extends_in_order, larger, longest, below_branch};
use crate::item::{begins_with, lemma_run_joins, lemma_branch_joins};
use crate::item::{lemma_nothing_in_empty, lemma_member_of_permutation, lemma_in_order_concat};
use crate::item::{lemma_in_order_by_remainder, lemma_longest_push, lemma_longest_bounds};
use crate::leaf::{sort_from, par_sort_from};
use crate::rows::{sum_of, most_of, lemma_sum_member, lemma_sum_nothing, lemma_sum_update};
use crate::rows::{lemma_most_bounds, lemma_most_update};
use crate::order::{has_prefix, lex_le};
use crate::order::{lemma_prefix_comes_first, lemma_le_reflexive};

verus! {

/// Tuning of one sort. It is fixed when the root is made and shared by all nodes.
#[derive(Clone, Copy, Debug)]
pub struct BurstConfig {
    /// A bucket that holds more items than this is burst.
    pub burst_limit: usize,
    /// Room that a bucket gets when its first item arrives.
    pub initial_capacity: usize,
    /// Number of radix classes: every unit of every item is below it.
    pub classes: usize,
    /// Items may be long: buckets are sorted by the units the trie has not consumed.
    pub hint_long: bool,
}

/// The burst limit of the ready-made tunings.
pub const DEFAULT_BURST_LIMIT: usize = 16384;

/// The number of classes for keys of ASCII bytes.
pub const ASCII_CLASSES: usize = 127;

/// The number of classes for keys of arbitrary bytes.
pub const BYTE_CLASSES: usize = 256;

impl BurstConfig {
    /// Tuning for keys of ASCII bytes.
    pub fn ascii() -> (config: BurstConfig)
        ensures
            config == (BurstConfig {
                burst_limit: DEFAULT_BURST_LIMIT,
                initial_capacity: 0,
                classes: ASCII_CLASSES,
                hint_long: false,
            }),
    {
        BurstConfig {
            burst_limit: DEFAULT_BURST_LIMIT,
            initial_capacity: 0,
            classes: ASCII_CLASSES,
            hint_long: false,
        }
    }

    /// Tuning for keys of ASCII bytes that may be long.
    pub fn long_ascii() -> (config: BurstConfig)
        ensures
            config == (BurstConfig {
                burst_limit: DEFAULT_BURST_LIMIT,
                initial_capacity: 0,
                classes: ASCII_CLASSES,
                hint_long: true,
            }),
    {
        BurstConfig {
            burst_limit: DEFAULT_BURST_LIMIT,
            initial_capacity: 0,
            classes: ASCII_CLASSES,
            hint_long: true,
        }
    }

    /// Tuning for keys of arbitrary bytes, such as UTF-8 text.
    pub fn utf8() -> (config: BurstConfig)
        ensures
            config == (BurstConfig {
                burst_limit: DEFAULT_BURST_LIMIT,
                initial_capacity: 0,
                classes: BYTE_CLASSES,
                hint_long: false,
            }),
    {
        BurstConfig {
            burst_limit: DEFAULT_BURST_LIMIT,
            initial_capacity: 0,
            classes: BYTE_CLASSES,
            hint_long: false,
        }
    }
}

/// A node of the trie. It holds the items whose first `level` units spell the
/// path from the root to the node.
pub struct TrieNode<'a, T> {
    level: usize,
    config: &'a BurstConfig,
    matches: Vec<T>,
    inner: TrieNodeKind<'a, T>,
}

/// The two states of a node. A node starts as a list and may become a table;
/// a table never turns back into a list.
pub enum TrieNodeKind<'a, T> {
    /// A flat bucket of items, in the order they came.
    List(Vec<T>),
    /// One child for each radix class.
    Burst(Vec<TrieNode<'a, T>>),
}

/// Every unit of `key` is a radix class below `classes`.
pub open spec fn fits(key: Seq<int>, classes: usize) -> bool {
    forall|i: int| 0 <= i < key.len() ==> 0 <= #[trigger] key[i] < classes
}

/// Position `at` holds the first unit of `key` that is no class below `classes`.
pub open spec fn first_unfit(key: Seq<int>, classes: usize, at: int) -> bool {
    &&& 0 <= at < key.len()
    &&& !(0 <= key[at] < classes)
    &&& forall|j: int| 0 <= j < at ==> 0 <= #[trigger] key[j] < classes
}

/// The first unit of `item` that is no class below `classes`.
pub fn find_unfit<T: Item>(item: &T, classes: usize) -> (found: Option<usize>)
    ensures
        match found {
            None => fits(item.key(), classes),
            Some(unit) => exists|at: int|
                #[trigger] first_unfit(item.key(), classes, at) && item.key()[at] == unit,
        },
{
    let count = item.unit_count();
    let mut at: usize = 0;
    while at < count
        invariant
            at <= count,
            count == item.key().len(),
            forall|j: int| 0 <= j < at ==> 0 <= #[trigger] item.key()[j] < classes,
        decreases count - at,
    {
        let unit = item.unit_at(at);
        if unit >= classes {
            proof {
                assert(first_unfit(item.key(), classes, at as int));
            }
            return Some(unit);
        }
        at += 1;
    }
    None
}

/// `item` belongs in the bucket of a node at `path`: its key goes on beyond the
/// path, and all its units can be classified.
pub open spec fn buffered_at<T: Item>(item: T, path: Seq<int>, classes: usize) -> bool {
    &&& has_prefix(item.key(), path)
    &&& item.key().len() > path.len()
    &&& fits(item.key(), classes)
}

impl<'a, T: Item> TrieNode<'a, T> {
    /// The number of units that the node's path spells.
    pub closed spec fn level(self) -> nat {
        self.level as nat
    }

    /// The tuning that the node was made with.
    pub closed spec fn config(self) -> BurstConfig {
        *self.config
    }

    /// The node has burst: it holds a table of children and no list.
    pub closed spec fn is_burst(self) -> bool {
        self.inner is Burst
    }

    /// The items that end at the node, in the order they came.
    pub closed spec fn matched(self) -> Seq<T> {
        self.matches@
    }

    /// The items in the list of the node, in the order they came; none if the
    /// node has burst.
    pub closed spec fn buffered(self) -> Seq<T> {
        match self.inner {
            TrieNodeKind::List(list) => list@,
            TrieNodeKind::Burst(_) => Seq::empty(),
        }
    }

    /// The children of a node that has burst, one for each class; none if the
    /// node has not burst.
    pub closed spec fn table(self) -> Seq<Self> {
        match self.inner {
            TrieNodeKind::List(_) => Seq::empty(),
            TrieNodeKind::Burst(table) => table@,
        }
    }

    /// `after` is the node `before` with `item` added. An item that ends at the
    /// node joins its matches, and nothing else changes. Another goes below a
    /// node that has burst: the child for its next unit is that child with
    /// the item added, and the other children are as they were. Or it joins
    /// the list, which bursts if that makes it longer than the burst limit;
    /// what each child of the new table then holds is fixed by
    /// `law_items_lie_in_one_place` and `law_children_hold_their_classes`.
    pub open spec fn follows_insert(after: Self, before: Self, item: T) -> bool
        decreases before,
    {
        if item.key().len() <= before.level() {
            &&& after.matched() == before.matched().push(item)
            &&& after.buffered() == before.buffered()
            &&& after.is_burst() == before.is_burst()
            &&& after.table() == before.table()
        } else if before.is_burst() {
            let radix = item.key()[before.level() as int];
            &&& after.matched() == before.matched()
            &&& after.is_burst()
            &&& after.table().len() == before.table().len()
            &&& forall|c: int|
                0 <= c < before.table().len() && c != radix ==> #[trigger] after.table()[c]
                    == before.table()[c]
            &&& if 0 <= radix < before.table().len() {
                Self::follows_insert(after.table()[radix], before.table()[radix], item)
            } else {
                true
            }
        } else if before.buffered().len() + 1 > before.config().burst_limit {
            &&& after.matched() == before.matched()
            &&& after.is_burst()
            &&& after.table().len() == before.config().classes
        } else {
            &&& after.matched() == before.matched()
            &&& after.buffered() == before.buffered().push(item)
            &&& !after.is_burst()
        }
    }

    /// The items held by the node and by the nodes below it.
    pub closed spec fn items(self) -> Multiset<T>
        decreases self,
    {
        self.matches@.to_multiset().add(
            match self.inner {
                TrieNodeKind::List(list) => list@.to_multiset(),
                TrieNodeKind::Burst(table) => Self::items_of(table@),
            },
        )
    }

    /// The items held under the nodes of `nodes`.
    spec fn items_of(nodes: Seq<Self>) -> Multiset<T>
        decreases nodes,
    {
        if nodes.len() == 0 {
            Multiset::empty()
        } else {
            Self::items_of(nodes.drop_last()).add(nodes.last().items())
        }
    }

    /// The node and the nodes below it are as they should be, for a node that is
    /// reached from the root by `path`:
    /// its matches are the items whose key is the path; a list holds at most
    /// `burst_limit` items, whose keys go on beyond the path; a table has one
    /// child for each class, reached by the path and that class.
    pub closed spec fn wf_at(self, path: Seq<int>) -> bool
        decreases self,
    {
        &&& self.level == path.len()
        &&& forall|i: int|
            0 <= i < self.matches@.len() ==> (#[trigger] self.matches@[i]).key() == path
        &&& match self.inner {
            TrieNodeKind::List(list) => {
                &&& list@.len() <= self.config.burst_limit
                &&& forall|i: int|
                    0 <= i < list@.len() ==> buffered_at(
                        #[trigger] list@[i],
                        path,
                        self.config.classes,
                    )
            },
            TrieNodeKind::Burst(table) => {
                &&& table@.len() == self.config.classes
                &&& forall|c: int|
                    0 <= c < table@.len() ==> {
                        &&& (#[trigger] table@[c]).wf_at(path.push(c))
                        &&& table@[c].config == self.config
                    }
            },
        }
    }

    /// The node is a well-formed root.
    pub open spec fn wf(self) -> bool {
        self.wf_at(Seq::empty())
    }

    /// The length of the longest key that is still buffered in a list at or
    /// below the node.
    spec fn reach(self) -> nat
        decreases self,
    {
        match self.inner {
            TrieNodeKind::List(list) => longest(list@),
            TrieNodeKind::Burst(table) => Self::reach_of(table@),
        }
    }

    /// The largest reach among `nodes`.
    spec fn reach_of(nodes: Seq<Self>) -> nat
        decreases nodes,
    {
        if nodes.len() == 0 {
            0
        } else {
            larger(Self::reach_of(nodes.drop_last()), nodes.last().reach())
        }
    }

    /// What each of `nodes` holds.
    spec fn bags_of(nodes: Seq<Self>) -> Seq<Multiset<T>> {
        Seq::new(nodes.len(), |c: int| nodes[c].items())
    }

    /// How far each of `nodes` reaches.
    spec fn reaches_of(nodes: Seq<Self>) -> Seq<nat> {
        Seq::new(nodes.len(), |c: int| nodes[c].reach())
    }

    /// Nodes hold together what each of them holds, and reach as far as the
    /// one of them that reaches furthest.
    proof fn lemma_row(nodes: Seq<Self>)
        ensures
            Self::items_of(nodes) == sum_of(Self::bags_of(nodes)),
            Self::reach_of(nodes) == most_of(Self::reaches_of(nodes)),
        decreases nodes.len(),
    {
        if nodes.len() > 0 {
            Self::lemma_row(nodes.drop_last());
            assert(Self::bags_of(nodes).drop_last() =~= Self::bags_of(nodes.drop_last()));
            assert(Self::reaches_of(nodes).drop_last() =~= Self::reaches_of(nodes.drop_last()));
        }
    }

    /// Nodes of which one has taken an item hold that item more, and reach no
    /// further than before, or than that node.
    proof fn lemma_child_took(nodes: Seq<Self>, c: int, node: Self, item: T)
        requires
            0 <= c < nodes.len(),
            node.items() == nodes[c].items().insert(item),
        ensures
            Self::items_of(nodes.update(c, node)) == Self::items_of(nodes).insert(item),
            Self::reach_of(nodes.update(c, node)) <= larger(Self::reach_of(nodes), node.reach()),
    {
        let after = nodes.update(c, node);
        Self::lemma_row(nodes);
        Self::lemma_row(after);
        assert(Self::bags_of(after) =~= Self::bags_of(nodes).update(c, node.items()));
        assert(Self::reaches_of(after) =~= Self::reaches_of(nodes).update(c, node.reach()));
        lemma_sum_update(Self::bags_of(nodes), c, node.items(), item);
        lemma_most_update(Self::reaches_of(nodes), c, node.reach());
    }

    /// A node without items at `level`.
    fn leaf(level: usize, config: &'a BurstConfig, Ghost(path): Ghost<Seq<int>>) -> (node: Self)
        requires
            level == path.len(),
        ensures
            node.wf_at(path),
            node.config == config,
            node.level == level,
            node.items() == Multiset::<T>::empty(),
            node.reach() == 0,
    {
        let node = TrieNode {
            level,
            config,
            matches: Vec::new(),
            inner: TrieNodeKind::List(Vec::new()),
        };
        proof {
            lemma_nothing_in_empty(node.matches@);
            lemma_nothing_in_empty(node.inner->List_0@);
            assert(node.items() =~= Multiset::<T>::empty());
        }
        node
    }

    /// One empty child for each radix class, for a node at `level`.
    fn fresh_table(level: usize, config: &'a BurstConfig, Ghost(path): Ghost<Seq<int>>) -> (table:
        Vec<Self>)
        requires
            level == path.len(),
            level < usize::MAX,
        ensures
            table@.len() == config.classes,
            forall|c: int|
                0 <= c < table@.len() ==> {
                    &&& (#[trigger] table@[c]).wf_at(path.push(c))
                    &&& table@[c].config == config
                },
            Self::items_of(table@) == Multiset::<T>::empty(),
            Self::reach_of(table@) == 0,
    {
        let mut table: Vec<Self> = Vec::new();
        let mut class: usize = 0;
        while class < config.classes
            invariant
                level == path.len(),
                level < usize::MAX,
                class <= config.classes,
                table@.len() == class,
                forall|c: int|
                    0 <= c < table@.len() ==> {
                        &&& (#[trigger] table@[c]).wf_at(path.push(c))
                        &&& table@[c].config == config
                    },
                Self::items_of(table@) == Multiset::<T>::empty(),
                Self::reach_of(table@) == 0,
            decreases config.classes - class,
        {
            let child = Self::leaf(level + 1, config, Ghost(path.push(class as int)));
            proof {
                assert(table@.push(child).drop_last() =~= table@);
                assert(Self::items_of(table@).add(child.items()) =~= Multiset::<T>::empty());
            }
            table.push(child);
            class += 1;
        }
        table
    }

    /// Bursts a bucket: routes each of its items into the child for the unit
    /// that follows the path.
    fn burst(
        pending: Vec<T>,
        level: usize,
        config: &'a BurstConfig,
        Ghost(path): Ghost<Seq<int>>,
    ) -> (table: Vec<Self>)
        requires
            level == path.len(),
            level < usize::MAX,
            forall|i: int|
                0 <= i < pending@.len() ==> buffered_at(
                    #[trigger] pending@[i],
                    path,
                    config.classes,
                ),
        ensures
            table@.len() == config.classes,
            forall|c: int|
                0 <= c < table@.len() ==> {
                    &&& (#[trigger] table@[c]).wf_at(path.push(c))
                    &&& table@[c].config == config
                },
            Self::items_of(table@) == pending@.to_multiset(),
            Self::reach_of(table@) <= longest(pending@),
        decreases longest(pending@) - level, 0int,
    {
        let mut table = Self::fresh_table(level, config, Ghost(path));
        let ghost all = pending@;
        proof {
            lemma_nothing_in_empty(all.take(0));
        }
        for item in it: pending
            invariant
                level == path.len(),
                level < usize::MAX,
                it.seq() == all,
                forall|i: int|
                    0 <= i < all.len() ==> buffered_at(#[trigger] all[i], path, config.classes),
                table@.len() == config.classes,
                forall|c: int|
                    0 <= c < table@.len() ==> {
                        &&& (#[trigger] table@[c]).wf_at(path.push(c))
                        &&& table@[c].config == config
                    },
                Self::items_of(table@) == all.take(it.index() as int).to_multiset(),
                Self::reach_of(table@) <= longest(all),
        {
            let ghost at = it.index() as int;
            assert(buffered_at(all[at], path, config.classes));
            let radix = item.unit_at(level);
            let ghost before = table@;
            proof {
                lemma_longest_bounds(all, at);
                Self::lemma_row(before);
                lemma_most_bounds(Self::reaches_of(before), radix as int);
                assert(has_prefix(item.key(), path.push(radix as int)));
            }
            table[radix].insert_at(item, Ghost(path.push(radix as int)));
            proof {
                Self::lemma_child_took(before, radix as int, table@[radix as int], item);
                assert(all.take(at + 1) =~= all.take(at).push(item));
                broadcast use vstd::seq_lib::group_to_multiset_ensures;
            }
        }
        proof {
            assert(all.take(all.len() as int) =~= all);
        }
        table
    }

    /// Adds `item` to a node that is reached by `path`.
    fn insert_at(&mut self, item: T, Ghost(path): Ghost<Seq<int>>)
        requires
            old(self).wf_at(path),
            has_prefix(item.key(), path),
            fits(item.key(), old(self).config.classes),
        ensures
            final(self).wf_at(path),
            final(self).items() == old(self).items().insert(item),
            final(self).config == old(self).config,
            final(self).level == old(self).level,
            final(self).reach() <= larger(old(self).reach(), item.key().len()),
            Self::follows_insert(*final(self), *old(self), item),
        decreases larger(old(self).reach(), item.key().len()) - old(self).level, 1int,
    {
        broadcast use vstd::seq_lib::group_to_multiset_ensures;
        let capacity = self.config.initial_capacity;
        if self.level < item.unit_count() {
            let radix = item.unit_at(self.level);
            match &mut self.inner {
                TrieNodeKind::List(list) => {
                    if capacity > 0 && list.is_empty() {
                        list.reserve(capacity);
                    }
                    proof {
                        lemma_longest_push(list@, item);
                    }
                    list.push(item);
                    if list.len() > self.config.burst_limit {
                        let mut pending: Vec<T> = Vec::new();
                        core::mem::swap(list, &mut pending);
                        let table = Self::burst(pending, self.level, self.config, Ghost(path));
                        self.inner = TrieNodeKind::Burst(table);
                    }
                },
                TrieNodeKind::Burst(table) => {
                    let ghost before = table@;
                    proof {
                        Self::lemma_row(before);
                        lemma_most_bounds(Self::reaches_of(before), radix as int);
                        assert(has_prefix(item.key(), path.push(radix as int)));
                        assert(before[radix as int].wf_at(path.push(radix as int)));
                        assert(before[radix as int].level == path.len() + 1);
                        assert(old(self).reach() == Self::reach_of(before));
                    }
                    table[radix].insert_at(item, Ghost(path.push(radix as int)));
                    proof {
                        Self::lemma_child_took(before, radix as int, table@[radix as int], item);
                    }
                },
            }
        } else {
            if capacity > 0 && self.matches.is_empty() {
                self.matches.reserve(capacity);
            }
            proof {
                assert(item.key() =~= path);
            }
            self.matches.push(item);
        }
    }

    /// Adds `item` to the trie.
    pub fn insert(&mut self, item: T)
        requires
            old(self).wf(),
            fits(item.key(), old(self).config().classes),
        ensures
            final(self).wf(),
            final(self).items() == old(self).items().insert(item),
            final(self).config() == old(self).config(),
            final(self).level() == old(self).level(),
            Self::follows_insert(*final(self), *old(self), item),
    {
        self.insert_at(item, Ghost(Seq::empty()));
    }

    /// Adds `item` to the trie if every unit of it is a class of the trie. Else
    /// leaves the trie as it is and returns the first unit that is none.
    pub fn checked_insert(&mut self, item: T) -> (result: Result<(), usize>)
        requires
            old(self).wf(),
        ensures
            final(self).wf(),
            final(self).config() == old(self).config(),
            final(self).level() == old(self).level(),
            result is Ok ==> {
                &&& fits(item.key(), old(self).config().classes)
                &&& final(self).items() == old(self).items().insert(item)
                &&& Self::follows_insert(*final(self), *old(self), item)
            },
            result is Err ==> {
                &&& *final(self) == *old(self)
                &&& exists|at: int|
                    #[trigger] first_unfit(item.key(), old(self).config().classes, at)
                        && item.key()[at] == result->Err_0 as int
            },
    {
        if let Some(unit) = find_unfit(&item, self.config.classes) {
            let result: Result<(), usize> = Err(unit);
            proof {
                let at = choose|at: int|
                    #[trigger] first_unfit(item.key(), self.config.classes, at) && item.key()[at]
                        == unit;
                assert(first_unfit(item.key(), old(self).config().classes, at) && item.key()[at]
                    == result->Err_0 as int);
            }
            return result;
        }
        self.insert_at(item, Ghost(Seq::empty()));
        Ok(())
    }

    /// Adds `item` to the trie if every unit of it is a class of the trie, and
    /// else drops it and leaves the trie as it is.
    pub fn insert_unchecked(&mut self, item: T)
        requires
            old(self).wf(),
        ensures
            final(self).wf(),
            final(self).config() == old(self).config(),
            final(self).level() == old(self).level(),
            fits(item.key(), old(self).config().classes) ==> {
                &&& final(self).items() == old(self).items().insert(item)
                &&& Self::follows_insert(*final(self), *old(self), item)
            },
            !fits(item.key(), old(self).config().classes) ==> *final(self) == *old(self),
    {
        match find_unfit(&item, self.config.classes) {
            Some(_) => {},
            None => {
                self.insert_at(item, Ghost(Seq::empty()));
            },
        }
    }

    /// Every list at or below the node holds its items in order.
    spec fn lists_in_order(self) -> bool
        decreases self,
    {
        match self.inner {
            TrieNodeKind::List(list) => in_order(list@),
            TrieNodeKind::Burst(table) => forall|c: int|
                0 <= c < table@.len() ==> (#[trigger] table@[c]).lists_in_order(),
        }
    }

    /// `after` is `before` with every list put in order: it holds the same
    /// items at the same places in the trie.
    spec fn is_sorted_form_of(after: Self, before: Self) -> bool {
        &&& after.items() == before.items()
        &&& after.matches@ == before.matches@
        &&& after.lists_in_order()
        &&& after.config == before.config
        &&& after.level == before.level
        &&& after.is_burst() == before.is_burst()
        &&& forall|path: Seq<int>| #[trigger] before.wf_at(path) ==> after.wf_at(path)
    }

    /// Every item at or below a node has the node's path as a prefix of its key.
    proof fn lemma_items_under_path(self, path: Seq<int>, item: T)
        requires
            self.wf_at(path),
            self.items().count(item) > 0,
        ensures
            has_prefix(item.key(), path),
        decreases self,
    {
        broadcast use vstd::seq_lib::group_to_multiset_ensures;

        if self.matches@.to_multiset().count(item) > 0 {
            assert(self.matches@.contains(item));
        } else {
            match self.inner {
                TrieNodeKind::List(list) => {
                    assert(list@.contains(item));
                },
                TrieNodeKind::Burst(table) => {
                    Self::lemma_row(table@);
                    let c = lemma_sum_member(Self::bags_of(table@), item);
                    table@[c].lemma_items_under_path(path.push(c), item);
                },
            }
        }
    }

    /// What the children of the node hold, child by child.
    pub open spec fn held_below(self) -> Seq<Multiset<T>> {
        Seq::new(self.table().len(), |c: int| self.table()[c].items())
    }

    /// Every item lies in one place: a node holds its matches and, besides,
    /// the items of its list or, once it has burst, what its children hold.
    pub proof fn law_items_lie_in_one_place(self)
        ensures
            self.items() == self.matched().to_multiset().add(
                if self.is_burst() {
                    sum_of(self.held_below())
                } else {
                    self.buffered().to_multiset()
                },
            ),
    {
        match self.inner {
            TrieNodeKind::List(_) => {},
            TrieNodeKind::Burst(table) => {
                Self::lemma_row(table@);
                assert(self.held_below() =~= Self::bags_of(table@));
            },
        }
    }

    /// A node that has burst has one child for each class. Each child is
    /// well-formed one level down, has the node's tuning, and holds only
    /// items whose unit at the node's level is the child's class.
    pub proof fn law_children_hold_their_classes(self, path: Seq<int>, c: int)
        requires
            self.wf_at(path),
            self.is_burst(),
            0 <= c < self.table().len(),
        ensures
            self.table().len() == self.config().classes,
            self.table()[c].wf_at(path.push(c)),
            self.table()[c].level() == self.level() + 1,
            self.table()[c].config() == self.config(),
            forall|item: T|
                #[trigger] self.table()[c].items().count(item) > 0 ==> item.key().len()
                    > path.len() && item.key()[path.len() as int] == c,
    {
        let child = self.table()[c];
        assert(child.wf_at(path.push(c)));
        assert forall|item: T| #[trigger] child.items().count(item) > 0 implies item.key().len()
            > path.len() && item.key()[path.len() as int] == c by {
            child.lemma_items_under_path(path.push(c), item);
            assert(item.key()[path.len() as int] == path.push(c)[path.len() as int]);
        }
    }

    /// Appends the items of the node to `target`, in order, and leaves the node
    /// empty. With `sorting` each list is sorted on the way; without, the lists
    /// are taken to be in order already.
    fn flatten(&mut self, target: &mut Vec<T>, sorting: bool, Ghost(path): Ghost<Seq<int>>)
        requires
            old(self).wf_at(path),
            sorting || old(self).lists_in_order(),
        ensures
            final(self).wf_at(path),
            final(self).items() == Multiset::<T>::empty(),
            final(self).config == old(self).config,
            final(self).level == old(self).level,
            final(self).is_burst() == old(self).is_burst(),
            extends_in_order(old(target)@, final(target)@, old(self).items()),
            begins_with(final(target)@.skip(old(target)@.len() as int), old(self).matches@),
            forall|k: int|
                old(target)@.len() <= k < final(target)@.len() ==> has_prefix(
                    (#[trigger] final(target)@[k]).key(),
                    path,
                ),
        decreases *old(self),
    {
        broadcast use vstd::seq_lib::group_to_multiset_ensures;

        let ghost whole = *self;
        let ghost start = target@;
        let ghost matched = self.matches@;
        target.append(&mut self.matches);
        proof {
            lemma_nothing_in_empty(self.matches@);
            assert(target@.skip(start.len() as int) =~= matched);
            assert forall|i: int, j: int| 0 <= i < j < matched.len() implies lex_le(
                matched[i].key(),
                matched[j].key(),
            ) by {
                lemma_le_reflexive(path);
            }
        }
        match &mut self.inner {
            TrieNodeKind::List(list) => {
                let ghost unsorted = list@;
                if sorting {
                    let from = if self.config.hint_long {
                        self.level
                    } else {
                        0
                    };
                    sort_from(list, from);
                    proof {
                        assert forall|i: int| 0 <= i < list@.len() implies buffered_at(
                            #[trigger] list@[i],
                            path,
                            self.config.classes,
                        ) by {
                            let j = lemma_member_of_permutation(list@, unsorted, i);
                        }
                        lemma_in_order_by_remainder(list@, from, path.take(from as int));
                    }
                }
                let ghost sorted = list@;
                target.append(list);
                proof {
                    lemma_nothing_in_empty(list@);
                    assert(target@.skip(start.len() as int) =~= matched + sorted);
                    assert((matched + sorted).take(matched.len() as int) =~= matched);
                    assert forall|i: int, j: int|
                        0 <= i < matched.len() && 0 <= j < sorted.len() implies lex_le(
                        (#[trigger] matched[i]).key(),
                        (#[trigger] sorted[j]).key(),
                    ) by {
                        lemma_prefix_comes_first(path, sorted[j].key());
                    }
                    lemma_in_order_concat(matched, sorted);
                    vstd::seq_lib::lemma_multiset_commutative(matched, sorted);
                    assert(target@.take(start.len() as int) =~= start);
                }
            },
            TrieNodeKind::Burst(table) => {
                let ghost children = table@;
                let ghost level = self.level as int;
                let classes = table.len();
                let mut class: usize = 0;
                proof {
                    lemma_nothing_in_empty(children.take(0));
                    assert(target@.skip(start.len() as int) =~= matched);
                    assert(matched.take(matched.len() as int) =~= matched);
                    assert(Self::items_of(children.take(0)) =~= Multiset::<T>::empty());
                }
                while class < classes
                    invariant
                        whole == *old(self),
                        whole.inner is Burst,
                        whole.inner->Burst_0@ == children,
                        class <= classes,
                        classes == children.len(),
                        table@.len() == classes,
                        level == path.len(),
                        start.len() <= target@.len(),
                        target@.take(start.len() as int) == start,
                        target@.skip(start.len() as int).to_multiset() == matched.to_multiset().add(
                            Self::items_of(children.take(class as int)),
                        ),
                        in_order(target@.skip(start.len() as int)),
                        begins_with(target@.skip(start.len() as int), matched),
                        below_branch(target@.skip(start.len() as int), path, class as int),
                        forall|c: int|
                            class <= c < classes ==> #[trigger] table@[c] == children[c],
                        forall|c: int|
                            0 <= c < classes ==> {
                                &&& (#[trigger] children[c]).wf_at(path.push(c))
                                &&& (sorting || children[c].lists_in_order())
                            },
                        forall|c: int|
                            0 <= c < class ==> {
                                &&& (#[trigger] table@[c]).wf_at(path.push(c))
                                &&& table@[c].config == children[c].config
                                &&& table@[c].items() == Multiset::<T>::empty()
                            },
                    decreases classes - class,
                {
                    let ghost before = target@;
                    let ghost done = before.skip(start.len() as int);
                    let ghost child_path = path.push(class as int);
                    assert(table@[class as int] == children[class as int]);
                    table[class].flatten(target, sorting, Ghost(child_path));
                    proof {
                        let tail = target@.skip(before.len() as int);
                        lemma_run_joins(start, before, target@);
                        assert(children.take(class + 1).drop_last() =~= children.take(
                            class as int,
                        ));
                        assert(children.take(class + 1).last() == children[class as int]);
                        vstd::seq_lib::lemma_multiset_commutative(done, tail);
                        assert((done + tail).to_multiset() =~= matched.to_multiset().add(
                            Self::items_of(children.take(class + 1)),
                        ));
                        assert forall|j: int| 0 <= j < tail.len() implies has_prefix(
                            (#[trigger] tail[j]).key(),
                            child_path,
                        ) by {
                            assert(tail[j] == target@[j + before.len()]);
                        }
                        lemma_branch_joins(done, tail, path, class as int, class + 1);
                        assert((done + tail).take(matched.len() as int) =~= done.take(
                            matched.len() as int,
                        ));
                    }
                    class += 1;
                }
                proof {
                    assert(children.take(classes as int) =~= children);
                    Self::lemma_row(table@);
                    lemma_sum_nothing(Self::bags_of(table@));
                    let done = target@.skip(start.len() as int);
                    assert forall|k: int| start.len() <= k < target@.len() implies has_prefix(
                        (#[trigger] target@[k]).key(),
                        path,
                    ) by {
                        assert(target@[k] == done[k - start.len()]);
                    }
                }
            },
        }
        proof {
            assert(self.items() =~= Multiset::<T>::empty());
        }
    }

    /// Appends the items of the trie to `target`, in order, and leaves the trie
    /// empty. The items that end at the root come first, as they stood.
    pub fn merge(&mut self, target: &mut Vec<T>)
        requires
            old(self).wf(),
        ensures
            final(self).wf(),
            final(self).items() == Multiset::<T>::empty(),
            final(self).config() == old(self).config(),
            final(self).is_burst() == old(self).is_burst(),
            extends_in_order(old(target)@, final(target)@, old(self).items()),
            begins_with(final(target)@.skip(old(target)@.len() as int), old(self).matched()),
    {
        self.flatten(target, true, Ghost(Seq::empty()));
    }

    /// Appends the items of a trie whose lists are in order to `target`, in
    /// order, and leaves the trie empty.
    fn merge_sorted(&mut self, target: &mut Vec<T>)
        requires
            old(self).wf(),
            old(self).lists_in_order(),
        ensures
            final(self).wf(),
            final(self).items() == Multiset::<T>::empty(),
            final(self).config() == old(self).config(),
            final(self).is_burst() == old(self).is_burst(),
            extends_in_order(old(target)@, final(target)@, old(self).items()),
            begins_with(final(target)@.skip(old(target)@.len() as int), old(self).matched()),
    {
        self.flatten(target, false, Ghost(Seq::empty()));
    }

    /// The node is well-formed for some path.
    spec fn is_placed(self) -> bool {
        exists|path: Seq<int>| self.wf_at(path)
    }

    /// A root without items.
    pub fn root(config: &'a BurstConfig) -> (node: Self)
        ensures
            node.wf(),
            node.items() == Multiset::<T>::empty(),
            node.config() == *config,
            node.level() == 0,
            !node.is_burst(),
            node.matched().len() == 0,
            node.buffered().len() == 0,
    {
        let node = TrieNode {
            level: 0,
            matches: Vec::with_capacity(config.initial_capacity),
            inner: TrieNodeKind::List(Vec::with_capacity(config.initial_capacity)),
            config,
        };
        proof {
            lemma_nothing_in_empty(node.matches@);
            lemma_nothing_in_empty(node.inner->List_0@);
            assert(node.items() =~= Multiset::<T>::empty());
        }
        node
    }
}

impl<'a, T: Item + Send> TrieNode<'a, T> {
    /// Sorts every list at or below the node, the lists of different children
    /// at the same time.
    fn par_sort(&mut self)
        requires
            old(self).is_placed(),
        ensures
            Self::is_sorted_form_of(*final(self), *old(self)),
    {
        let ghost whole = *self;
        let ghost path = choose|path: Seq<int>| whole.wf_at(path);
        match &mut self.inner {
            TrieNodeKind::List(list) => {
                let ghost unsorted = list@;
                if !list.is_empty() {
                    let from = if self.config.hint_long {
                        self.level
                    } else {
                        0
                    };
                    par_sort_from(list, from);
                    proof {
                        assert forall|i: int| 0 <= i < list@.len() implies has_prefix(
                            (#[trigger] list@[i]).key(),
                            path.take(from as int),
                        ) by {
                            let j = lemma_member_of_permutation(list@, unsorted, i);
                            assert(buffered_at(unsorted[j], path, self.config.classes));
                        }
                        lemma_in_order_by_remainder(list@, from, path.take(from as int));
                    }
                }
                proof {
                    let sorted = list@;
                    vstd::seq_lib::to_multiset_len(sorted);
                    vstd::seq_lib::to_multiset_len(unsorted);
                    assert forall|p: Seq<int>| #[trigger] whole.wf_at(p) implies self.wf_at(p) by {
                        assert forall|i: int| 0 <= i < sorted.len() implies buffered_at(
                            #[trigger] sorted[i],
                            p,
                            self.config.classes,
                        ) by {
                            let j = lemma_member_of_permutation(sorted, unsorted, i);
                        }
                    }
                }
            },
            TrieNodeKind::Burst(table) => {
                let ghost children = table@;
                proof {
                    assert forall|c: int| 0 <= c < children.len() implies (
                    #[trigger] children[c]).is_placed() by {
                        assert(children[c].wf_at(path.push(c)));
                    }
                }
                Self::par_sort_children(table);
                proof {
                    Self::lemma_row(table@);
                    Self::lemma_row(children);
                    assert(Self::bags_of(table@) =~= Self::bags_of(children));
                    assert forall|p: Seq<int>| #[trigger] whole.wf_at(p) implies self.wf_at(p) by {
                        assert forall|c: int| 0 <= c < table@.len() implies {
                            &&& (#[trigger] table@[c]).wf_at(p.push(c))
                            &&& table@[c].config == self.config
                        } by {
                            assert(Self::is_sorted_form_of(table@[c], children[c]));
                            assert(children[c].wf_at(p.push(c)));
                        }
                    }
                }
            },
        }
    }

    /// Calls `par_iter_mut` and `for_each` of rayon, to run `par_sort` on each
    /// node of `table`.
    ///
    /// Not proved: that when the call returns `par_sort` has run to its end on
    /// each node of `table`, and on nothing else, so that each node is as the
    /// contract of `par_sort` says.
    #[verifier::external_body]
    fn par_sort_children(table: &mut Vec<Self>)
        requires
            forall|c: int| 0 <= c < old(table)@.len() ==> (#[trigger] old(table)@[c]).is_placed(),
        ensures
            final(table)@.len() == old(table)@.len(),
            forall|c: int|
                0 <= c < final(table)@.len() ==> Self::is_sorted_form_of(
                    #[trigger] final(table)@[c],
                    old(table)@[c],
                ),
    {
        table.par_iter_mut().for_each(|child| child.par_sort());
    }

    /// Appends the items of the trie to `target`, in order, and leaves the trie
    /// empty. The lists of the trie are sorted in parallel before they are
    /// appended one after the other. The items that end at the root come
    /// first, as they stood.
    pub fn par_merge(&mut self, target: &mut Vec<T>)
        requires
            old(self).wf(),
        ensures
            final(self).wf(),
            final(self).items() == Multiset::<T>::empty(),
            final(self).config() == old(self).config(),
            final(self).is_burst() == old(self).is_burst(),
            extends_in_order(old(target)@, final(target)@, old(self).items()),
            begins_with(final(target)@.skip(old(target)@.len() as int), old(self).matched()),
    {
        self.par_sort();
        self.merge_sorted(target);
    }
}

} // verus!
