//! The trie itself: its nodes, what makes a subtree valid, what a subtree
//! stores, and the recursive operations on subtrees.
use crate::key::{
    agree, cyclic_distance, get_abs_diff, get_index, key_eq, key_lt, key_value,
    lemma_agree_all_equal, lemma_byte_from_nibbles, lemma_nibble_decides, nibble,
};
use crate::InsertOrUpdateResult;
use vstd::prelude::*;

verus! {

/// The four children of an interior node, one for each value of a two-bit group.
#[derive(Debug)]
pub struct Quad<const N: usize, V> {
    pub c0: Node<N, V>,
    pub c1: Node<N, V>,
    pub c2: Node<N, V>,
    pub c3: Node<N, V>,
}

/// A node of the radix trie: nothing, one stored pair, or four children.
#[derive(Debug)]
pub enum Node<const N: usize, V> {
    Item(Box<([u8; N], V)>),
    List(Box<Quad<N, V>>),
    Empty,
}

/// The first two-bit groups of `key` are exactly `prefix`.
pub open spec fn has_prefix(key: Seq<u8>, prefix: Seq<int>) -> bool {
    forall|j: int| 0 <= j < prefix.len() ==> nibble(key, j) == prefix[j]
}

/// Extending a prefix by the next two-bit group of a key that has it.
pub proof fn lemma_prefix_push(key: Seq<u8>, prefix: Seq<int>)
    requires
        has_prefix(key, prefix),
    ensures
        has_prefix(key, prefix.push(nibble(key, prefix.len() as int))),
{
}

/// A key with an extended prefix has the shorter one and the added group.
pub proof fn lemma_prefix_pop(key: Seq<u8>, prefix: Seq<int>, last: int)
    requires
        has_prefix(key, prefix.push(last)),
    ensures
        has_prefix(key, prefix),
        nibble(key, prefix.len() as int) == last,
{
    let longer = prefix.push(last);
    assert forall|j: int| 0 <= j < prefix.len() implies nibble(key, j) == prefix[j] by {
        assert(longer[j] == prefix[j]);
    }
    assert(longer[prefix.len() as int] == last);
}

/// Two keys with one prefix agree as far as the prefix reaches.
pub proof fn lemma_prefix_agree(a: Seq<u8>, b: Seq<u8>, prefix: Seq<int>)
    requires
        has_prefix(a, prefix),
        has_prefix(b, prefix),
    ensures
        agree(a, b, prefix.len() as int),
{
}

/// Distinct keys of one length cannot share a prefix that spans the whole key.
pub proof fn lemma_distinct_keys_diverge(a: Seq<u8>, b: Seq<u8>, prefix: Seq<int>)
    requires
        a.len() == b.len(),
        a != b,
        has_prefix(a, prefix),
        has_prefix(b, prefix),
    ensures
        prefix.len() < 4 * a.len(),
{
    if prefix.len() >= 4 * a.len() {
        lemma_prefix_agree(a, b, prefix);
        lemma_agree_all_equal(a, b);
    }
}

impl<const N: usize, V> Quad<N, V> {
    /// The child in slot `i`.
    pub open spec fn at(self, i: int) -> Node<N, V> {
        if i == 0 {
            self.c0
        } else if i == 1 {
            self.c1
        } else if i == 2 {
            self.c2
        } else {
            self.c3
        }
    }

    /// Number of children that hold a single pair.
    pub open spec fn items(self) -> int {
        (if self.c0 is Item { 1int } else { 0int }) + (if self.c1 is Item { 1int } else { 0int })
            + (if self.c2 is Item { 1int } else { 0int }) + (if self.c3 is Item { 1int } else { 0int })
    }

    /// No child is an interior node and at most one holds a pair: such a group of
    /// children stands for at most one key and is replaced by that pair, or by nothing.
    pub open spec fn collapsible(self) -> bool {
        &&& !(self.c0 is List)
        &&& !(self.c1 is List)
        &&& !(self.c2 is List)
        &&& !(self.c3 is List)
        &&& self.items() <= 1
    }

    /// What a collapsible group of children is replaced by.
    pub open spec fn collapsed(self) -> Node<N, V> {
        if self.c0 is Item {
            self.c0
        } else if self.c1 is Item {
            self.c1
        } else if self.c2 is Item {
            self.c2
        } else if self.c3 is Item {
            self.c3
        } else {
            Node::Empty
        }
    }

    pub fn child(&self, i: usize) -> (node: &Node<N, V>)
        requires
            i < 4,
        ensures
            *node == self.at(i as int),
    {
        if i == 0 {
            &self.c0
        } else if i == 1 {
            &self.c1
        } else if i == 2 {
            &self.c2
        } else {
            &self.c3
        }
    }

    pub fn child_mut(&mut self, i: usize) -> (node: &mut Node<N, V>)
        requires
            i < 4,
        ensures
            *node == old(self).at(i as int),
            final(self).at(i as int) == *final(node),
            forall|j: int| 0 <= j < 4 && j != i ==> final(self).at(j) == old(self).at(j),
    {
        if i == 0 {
            &mut self.c0
        } else if i == 1 {
            &mut self.c1
        } else if i == 2 {
            &mut self.c2
        } else {
            &mut self.c3
        }
    }
}

impl<const N: usize, V> Node<N, V> {
    /// The value that a descent along `key`, `depth` groups into it, finds in this subtree.
    pub open spec fn lookup(self, key: Seq<u8>, depth: int) -> Option<V>
        decreases self,
    {
        match self {
            Node::Item(entry) => if entry.0@ == key {
                Some(entry.1)
            } else {
                None
            },
            Node::List(children) => {
                let index = nibble(key, depth);
                if index == 0 {
                    children.c0.lookup(key, depth + 1)
                } else if index == 1 {
                    children.c1.lookup(key, depth + 1)
                } else if index == 2 {
                    children.c2.lookup(key, depth + 1)
                } else {
                    children.c3.lookup(key, depth + 1)
                }
            },
            Node::Empty => None,
        }
    }

    /// The subtree is a valid trie below the path `prefix`: every stored key starts
    /// with the path that leads to it, the path is shorter than a key wherever it
    /// branches, and no interior node could be collapsed.
    pub open spec fn wf(self, prefix: Seq<int>) -> bool
        decreases self,
    {
        match self {
            Node::Item(entry) => has_prefix(entry.0@, prefix),
            Node::List(children) => {
                &&& prefix.len() < 4 * N
                &&& children.c0.wf(prefix.push(0))
                &&& children.c1.wf(prefix.push(1))
                &&& children.c2.wf(prefix.push(2))
                &&& children.c3.wf(prefix.push(3))
                &&& !children.collapsible()
            },
            Node::Empty => true,
        }
    }

    /// Number of pairs stored in the subtree.
    pub open spec fn count(self) -> nat
        decreases self,
    {
        match self {
            Node::Item(_) => 1,
            Node::List(children) => children.c0.count() + children.c1.count()
                + children.c2.count() + children.c3.count(),
            Node::Empty => 0,
        }
    }

    /// A descent through an interior node continues in the child that the key selects.
    pub proof fn lemma_lookup_list(self, key: Seq<u8>, depth: int)
        requires
            self is List,
            0 <= depth < 4 * key.len(),
        ensures
            0 <= nibble(key, depth) < 4,
            self.lookup(key, depth) == self->List_0.at(nibble(key, depth)).lookup(key, depth + 1),
    {
        lemma_byte_from_nibbles(key[depth / 4]);
    }

    /// The children of a valid interior node are valid below the extended path.
    pub proof fn lemma_wf_child(self, prefix: Seq<int>, i: int)
        requires
            self is List,
            self.wf(prefix),
            0 <= i < 4,
        ensures
            self->List_0.at(i).wf(prefix.push(i)),
    {
    }

    /// Whatever a valid subtree stores lies below its path.
    pub proof fn lemma_found_has_prefix(self, key: Seq<u8>, prefix: Seq<int>)
        requires
            self.wf(prefix),
            key.len() == N,
            self.lookup(key, prefix.len() as int) is Some,
        ensures
            has_prefix(key, prefix),
        decreases self,
    {
        match self {
            Node::Item(entry) => {},
            Node::List(children) => {
                let depth = prefix.len() as int;
                self.lemma_lookup_list(key, depth);
                let index = nibble(key, depth);
                self.lemma_wf_child(prefix, index);
                children.at(index).lemma_found_has_prefix(key, prefix.push(index));
                lemma_prefix_pop(key, prefix, index);
            },
            Node::Empty => {},
        }
    }
}

impl<const N: usize, V: Copy> Node<N, V> {
    /// Looks `key` up in the subtree that lies `depth` groups below the root.
    pub(crate) fn get_internal(&self, key: [u8; N], depth: usize, Ghost(prefix): Ghost<Seq<int>>) -> (found:
        Option<V>)
        requires
            self.wf(prefix),
            prefix.len() == depth,
            4 * N < usize::MAX,
        ensures
            found == self.lookup(key@, depth as int),
        decreases self,
    {
        match self {
            Node::Item(entry) => {
                if key_eq(&entry.0, &key) {
                    Some(entry.1)
                } else {
                    None
                }
            },
            Node::List(children) => {
                let index = get_index(key, depth);
                proof {
                    self.lemma_lookup_list(key@, depth as int);
                    self.lemma_wf_child(prefix, index as int);
                }
                children.child(index).get_internal(
                    key,
                    depth + 1,
                    Ghost(prefix.push(index as int)),
                )
            },
            Node::Empty => None,
        }
    }
}

impl<const N: usize, V: Copy> Quad<N, V> {
    /// Four empty children.
    pub fn empty() -> (children: Self)
        ensures
            forall|i: int| 0 <= i < 4 ==> children.at(i) is Empty,
    {
        Quad { c0: Node::Empty, c1: Node::Empty, c2: Node::Empty, c3: Node::Empty }
    }

    /// The node that replaces these children if they stand for at most one key.
    pub fn collapse(&self) -> (replacement: Option<Node<N, V>>)
        ensures
            replacement is Some <==> self.collapsible(),
            replacement is Some ==> replacement->Some_0 == self.collapsed(),
    {
        let mut found: Node<N, V> = Node::Empty;
        let mut seen: usize = 0;
        let mut i: usize = 0;
        while i < 4
            invariant
                i <= 4,
                seen <= i,
                forall|j: int| 0 <= j < i ==> !(self.at(j) is List),
                seen == 0 ==> found is Empty && forall|j: int| 0 <= j < i ==> self.at(j) is Empty,
                seen == 1 ==> exists|j: int|
                    0 <= j < i && self.at(j) is Item && found == self.at(j) && forall|m: int|
                        0 <= m < i && m != j ==> self.at(m) is Empty,
                seen >= 2 ==> exists|j: int, m: int|
                    0 <= j < m < i && self.at(j) is Item && self.at(m) is Item,
            decreases 4 - i,
        {
            match self.child(i) {
                Node::List(_) => {
                    return None;
                },
                Node::Item(entry) => {
                    if seen == 0 {
                        found = Node::Item(Box::new((entry.0, entry.1)));
                    }
                    proof {
                        if seen == 1 {
                            let j = choose|j: int|
                                0 <= j < i && self.at(j) is Item && found == self.at(j) && forall|
                                    m: int,
                                | 0 <= m < i && m != j ==> self.at(m) is Empty;
                            assert(0 <= j < i < i + 1 && self.at(j) is Item && self.at(i as int) is Item);
                        } else if seen >= 2 {
                            let (j, m) = choose|j: int, m: int|
                                0 <= j < m < i && self.at(j) is Item && self.at(m) is Item;
                            assert(0 <= j < m < i + 1 && self.at(j) is Item && self.at(m) is Item);
                        } else {
                            assert(self.at(i as int) is Item && found == self.at(i as int));
                        }
                    }
                    seen += 1;
                },
                Node::Empty => {
                    proof {
                        if seen == 1 {
                            let j = choose|j: int|
                                0 <= j < i && self.at(j) is Item && found == self.at(j) && forall|
                                    m: int,
                                | 0 <= m < i && m != j ==> self.at(m) is Empty;
                            assert(0 <= j < i + 1 && self.at(j) is Item && found == self.at(j)
                                && forall|m: int|
                                0 <= m < i + 1 && m != j ==> self.at(m) is Empty);
                        } else if seen >= 2 {
                            let (j, m) = choose|j: int, m: int|
                                0 <= j < m < i && self.at(j) is Item && self.at(m) is Item;
                            assert(0 <= j < m < i + 1 && self.at(j) is Item && self.at(m) is Item);
                        }
                    }
                },
            }
            i += 1;
        }
        proof {
            assert(self.at(0) == self.c0 && self.at(1) == self.c1 && self.at(2) == self.c2
                && self.at(3) == self.c3);
        }
        if seen <= 1 {
            Some(found)
        } else {
            None
        }
    }
}

impl<const N: usize, V: Copy> Node<N, V> {
    /// The interior node that holds two pairs whose keys differ, both below `prefix`.
    pub(crate) fn deepen_tree(
        item_1: ([u8; N], V),
        item_2: ([u8; N], V),
        depth: usize,
        Ghost(prefix): Ghost<Seq<int>>,
    ) -> (node: Self)
        requires
            item_1.0@ != item_2.0@,
            has_prefix(item_1.0@, prefix),
            has_prefix(item_2.0@, prefix),
            prefix.len() == depth,
            4 * N < usize::MAX,
        ensures
            node.wf(prefix),
            node is List,
            node.count() == 2,
            forall|k: Seq<u8>| #[trigger]
                node.lookup(k, depth as int) == (if k == item_1.0@ {
                    Some(item_1.1)
                } else if k == item_2.0@ {
                    Some(item_2.1)
                } else {
                    None
                }),
        decreases 4 * N - depth,
    {
        proof {
            lemma_distinct_keys_diverge(item_1.0@, item_2.0@, prefix);
            lemma_prefix_push(item_1.0@, prefix);
            lemma_prefix_push(item_2.0@, prefix);
            lemma_byte_from_nibbles(item_1.0@[depth as int / 4]);
        }
        let item_1_index = get_index(item_1.0, depth);
        let item_2_index = get_index(item_2.0, depth);
        let mut children = Quad::empty();
        if item_1_index == item_2_index {
            let below = Self::deepen_tree(
                item_1,
                item_2,
                depth + 1,
                Ghost(prefix.push(item_1_index as int)),
            );
            *children.child_mut(item_1_index) = below;
            assert(forall|j: int|
                0 <= j < 4 ==> #[trigger] children.at(j) == (if j == item_1_index {
                    below
                } else {
                    Node::Empty
                }));
        } else {
            *children.child_mut(item_1_index) = Node::Item(Box::new(item_1));
            assert(forall|j: int|
                0 <= j < 4 ==> #[trigger] children.at(j) == (if j == item_1_index {
                    Node::Item(Box::new(item_1))
                } else {
                    Node::Empty
                }));
            *children.child_mut(item_2_index) = Node::Item(Box::new(item_2));
            assert(forall|j: int|
                0 <= j < 4 ==> #[trigger] children.at(j) == (if j == item_1_index {
                    Node::Item(Box::new(item_1))
                } else if j == item_2_index {
                    Node::Item(Box::new(item_2))
                } else {
                    Node::Empty
                }));
        }
        let node = Node::List(Box::new(children));
        proof {
            assert(children.at(0) == children.c0 && children.at(1) == children.c1 && children.at(2)
                == children.c2 && children.at(3) == children.c3);
            assert(children.at(item_1_index as int).wf(prefix.push(item_1_index as int)));
            assert(children.at(item_2_index as int).wf(prefix.push(item_2_index as int)));
            assert(children.c0.wf(prefix.push(0)) && children.c1.wf(prefix.push(1))
                && children.c2.wf(prefix.push(2)) && children.c3.wf(prefix.push(3)));
            assert(children.c0.count() + children.c1.count() + children.c2.count()
                + children.c3.count() == 2);
            assert forall|k: Seq<u8>| #[trigger]
                node.lookup(k, depth as int) == (if k == item_1.0@ {
                    Some(item_1.1)
                } else if k == item_2.0@ {
                    Some(item_2.1)
                } else {
                    None
                }) by {
                let index = nibble(k, depth as int);
                assert(node.lookup(k, depth as int) == children.at(
                    if 0 <= index < 3 {
                        index
                    } else {
                        3
                    },
                ).lookup(k, depth + 1));
            }
        }
        node
    }

    /// Stores `value` under `key` in the subtree, unless the key is there and
    /// `should_update` declines to replace its value.
    pub(crate) fn insert_or_update_if_internal<F: Fn(&V, &V) -> bool>(
        &mut self,
        key: [u8; N],
        value: V,
        should_update: &F,
        depth: usize,
        Ghost(prefix): Ghost<Seq<int>>,
    ) -> (result: InsertOrUpdateResult)
        requires
            old(self).wf(prefix),
            prefix.len() == depth,
            has_prefix(key@, prefix),
            4 * N < usize::MAX,
            forall|a: &V, b: &V| should_update.requires((a, b)),
        ensures
            final(self).wf(prefix),
            match old(self).lookup(key@, depth as int) {
                None => result == InsertOrUpdateResult::Inserted && final(self).lookup(
                    key@,
                    depth as int,
                ) == Some(value) && final(self).count() == old(self).count() + 1,
                Some(prior) => final(self).count() == old(self).count() && ({
                    ||| (result == InsertOrUpdateResult::Updated && should_update.ensures(
                        (&prior, &value),
                        true,
                    ) && final(self).lookup(key@, depth as int) == Some(value))
                    ||| (result == InsertOrUpdateResult::Neither && should_update.ensures(
                        (&prior, &value),
                        false,
                    ) && *final(self) == *old(self))
                }),
            },
            forall|k: Seq<u8>|
                k != key@ ==> #[trigger] final(self).lookup(k, depth as int) == old(self).lookup(
                    k,
                    depth as int,
                ),
            *old(self) is List ==> *final(self) is List,
            !(*final(self) is Empty),
        decreases 4 * N - depth,
    {
        match self {
            Node::Item(entry) => {
                if key_eq(&entry.0, &key) {
                    if should_update(&entry.1, &value) {
                        entry.1 = value;
                        InsertOrUpdateResult::Updated
                    } else {
                        InsertOrUpdateResult::Neither
                    }
                } else {
                    let replacement = Self::deepen_tree(
                        (entry.0, entry.1),
                        (key, value),
                        depth,
                        Ghost(prefix),
                    );
                    *self = replacement;
                    InsertOrUpdateResult::Inserted
                }
            },
            Node::List(children) => {
                let index = get_index(key, depth);
                let ghost before = **children;
                proof {
                    old(self).lemma_lookup_list(key@, depth as int);
                    old(self).lemma_wf_child(prefix, index as int);
                    lemma_prefix_push(key@, prefix);
                }
                let result = children.child_mut(index).insert_or_update_if_internal(
                    key,
                    value,
                    should_update,
                    depth + 1,
                    Ghost(prefix.push(index as int)),
                );
                proof {
                    let after = **children;
                    assert(after.at(0) == after.c0 && after.at(1) == after.c1 && after.at(2)
                        == after.c2 && after.at(3) == after.c3);
                    assert(before.at(0) == before.c0 && before.at(1) == before.c1 && before.at(2)
                        == before.c2 && before.at(3) == before.c3);
                    assert forall|k: Seq<u8>| k != key@ implies #[trigger] Node::List(
                        *children,
                    ).lookup(k, depth as int) == old(self).lookup(k, depth as int) by {
                        let slot = nibble(k, depth as int);
                        let at = if 0 <= slot < 3 {
                            slot
                        } else {
                            3
                        };
                        assert(Node::List(*children).lookup(k, depth as int) == after.at(
                            at,
                        ).lookup(k, depth + 1));
                        assert(old(self).lookup(k, depth as int) == before.at(at).lookup(
                            k,
                            depth + 1,
                        ));
                    }
                    if result == InsertOrUpdateResult::Neither {
                        assert(after.at(index as int) == before.at(index as int));
                        assert(after == before);
                    }
                }
                result
            },
            Node::Empty => {
                *self = Node::Item(Box::new((key, value)));
                InsertOrUpdateResult::Inserted
            },
        }
    }
}

impl<const N: usize, V> Node<N, V> {
    /// Number of levels of the subtree: none for an empty one, one for a single pair.
    pub open spec fn height(self) -> nat
        decreases self,
    {
        match self {
            Node::Item(_) => 1,
            Node::List(children) => {
                let h0 = children.c0.height();
                let h1 = children.c1.height();
                let h2 = children.c2.height();
                let h3 = children.c3.height();
                let m01 = if h0 >= h1 {
                    h0
                } else {
                    h1
                };
                let m23 = if h2 >= h3 {
                    h2
                } else {
                    h3
                };
                1 + if m01 >= m23 {
                    m01
                } else {
                    m23
                }
            },
            Node::Empty => 0,
        }
    }

    /// A valid interior node stores at least two pairs.
    pub proof fn lemma_list_count(self, prefix: Seq<int>)
        requires
            self.wf(prefix),
            self is List,
        ensures
            self.count() >= 2,
        decreases self,
    {
        let children = self->List_0;
        if children.c0 is List {
            children.c0.lemma_list_count(prefix.push(0));
        }
        if children.c1 is List {
            children.c1.lemma_list_count(prefix.push(1));
        }
        if children.c2 is List {
            children.c2.lemma_list_count(prefix.push(2));
        }
        if children.c3 is List {
            children.c3.lemma_list_count(prefix.push(3));
        }
        assert(children.c0 is Item ==> children.c0.count() == 1);
        assert(children.c1 is Item ==> children.c1.count() == 1);
        assert(children.c2 is Item ==> children.c2.count() == 1);
        assert(children.c3 is Item ==> children.c3.count() == 1);
    }

    /// A valid subtree is no taller than the part of a key that lies below its path.
    pub proof fn lemma_height_bound(self, prefix: Seq<int>)
        requires
            self.wf(prefix),
            prefix.len() <= 4 * N,
        ensures
            self.height() <= 4 * N - prefix.len() as int + 1,
        decreases self,
    {
        match self {
            Node::List(children) => {
                children.c0.lemma_height_bound(prefix.push(0));
                children.c1.lemma_height_bound(prefix.push(1));
                children.c2.lemma_height_bound(prefix.push(2));
                children.c3.lemma_height_bound(prefix.push(3));
            },
            _ => {},
        }
    }

    /// Collapsing children that stand for at most one key keeps what the subtree holds.
    pub proof fn lemma_collapse(children: Quad<N, V>, prefix: Seq<int>)
        requires
            prefix.len() < 4 * N,
            children.c0.wf(prefix.push(0)),
            children.c1.wf(prefix.push(1)),
            children.c2.wf(prefix.push(2)),
            children.c3.wf(prefix.push(3)),
            children.collapsible(),
        ensures
            children.collapsed().wf(prefix),
            !(children.collapsed() is List),
            children.collapsed().count() == Node::List(Box::new(children)).count(),
            forall|k: Seq<u8>| #[trigger]
                children.collapsed().lookup(k, prefix.len() as int) == Node::List(
                    Box::new(children),
                ).lookup(k, prefix.len() as int),
    {
        let depth = prefix.len() as int;
        let whole = Node::List(Box::new(children));
        let single = children.collapsed();
        assert(children.c0.count() == if children.c0 is Item { 1nat } else { 0nat });
        assert(children.c1.count() == if children.c1 is Item { 1nat } else { 0nat });
        assert(children.c2.count() == if children.c2 is Item { 1nat } else { 0nat });
        assert(children.c3.count() == if children.c3 is Item { 1nat } else { 0nat });
        assert(single.count() == if single is Item { 1nat } else { 0nat });
        if children.c0 is Item {
            lemma_prefix_pop(children.c0->Item_0.0@, prefix, 0);
        }
        if children.c1 is Item {
            lemma_prefix_pop(children.c1->Item_0.0@, prefix, 1);
        }
        if children.c2 is Item {
            lemma_prefix_pop(children.c2->Item_0.0@, prefix, 2);
        }
        if children.c3 is Item {
            lemma_prefix_pop(children.c3->Item_0.0@, prefix, 3);
        }
        assert forall|k: Seq<u8>| #[trigger]
            single.lookup(k, depth) == whole.lookup(k, depth) by {
            let slot = nibble(k, depth);
            assert(children.c0.lookup(k, depth + 1) == if children.c0 is Item
                && children.c0->Item_0.0@ == k {
                Some(children.c0->Item_0.1)
            } else {
                None
            });
            assert(children.c1.lookup(k, depth + 1) == if children.c1 is Item
                && children.c1->Item_0.0@ == k {
                Some(children.c1->Item_0.1)
            } else {
                None
            });
            assert(children.c2.lookup(k, depth + 1) == if children.c2 is Item
                && children.c2->Item_0.0@ == k {
                Some(children.c2->Item_0.1)
            } else {
                None
            });
            assert(children.c3.lookup(k, depth + 1) == if children.c3 is Item
                && children.c3->Item_0.0@ == k {
                Some(children.c3->Item_0.1)
            } else {
                None
            });
            assert(single.lookup(k, depth) == if single is Item && single->Item_0.0@ == k {
                Some(single->Item_0.1)
            } else {
                None
            });
        }
    }
}

impl<const N: usize, V: Copy> Node<N, V> {
    /// Takes `key` out of the subtree if it is there and `should_remove` agrees,
    /// and collapses the interior nodes that are left with at most one key.
    pub(crate) fn remove_if_internal<F: Fn(&V) -> bool>(
        &mut self,
        key: [u8; N],
        should_remove: &F,
        depth: usize,
        Ghost(prefix): Ghost<Seq<int>>,
    ) -> (removed: bool)
        requires
            old(self).wf(prefix),
            prefix.len() == depth,
            4 * N < usize::MAX,
            forall|v: &V| should_remove.requires((v,)),
        ensures
            final(self).wf(prefix),
            match old(self).lookup(key@, depth as int) {
                None => !removed,
                Some(prior) => should_remove.ensures((&prior,), removed),
            },
            removed ==> final(self).lookup(key@, depth as int) is None && final(self).count() + 1
                == old(self).count(),
            !removed ==> *final(self) == *old(self),
            forall|k: Seq<u8>|
                k != key@ ==> #[trigger] final(self).lookup(k, depth as int) == old(self).lookup(
                    k,
                    depth as int,
                ),
        decreases 4 * N - depth,
    {
        match self {
            Node::Item(entry) => {
                if key_eq(&entry.0, &key) && should_remove(&entry.1) {
                    *self = Node::Empty;
                    true
                } else {
                    false
                }
            },
            Node::List(children) => {
                let index = get_index(key, depth);
                let ghost before = **children;
                proof {
                    old(self).lemma_lookup_list(key@, depth as int);
                    old(self).lemma_wf_child(prefix, index as int);
                }
                let removed = children.child_mut(index).remove_if_internal(
                    key,
                    should_remove,
                    depth + 1,
                    Ghost(prefix.push(index as int)),
                );
                let ghost after = **children;
                proof {
                    assert(after.at(0) == after.c0 && after.at(1) == after.c1 && after.at(2)
                        == after.c2 && after.at(3) == after.c3);
                    assert(before.at(0) == before.c0 && before.at(1) == before.c1 && before.at(2)
                        == before.c2 && before.at(3) == before.c3);
                    assert forall|k: Seq<u8>| k != key@ implies #[trigger] Node::List(
                        Box::new(after),
                    ).lookup(k, depth as int) == old(self).lookup(k, depth as int) by {
                        let slot = nibble(k, depth as int);
                        let at = if 0 <= slot < 3 {
                            slot
                        } else {
                            3
                        };
                        assert(Node::List(Box::new(after)).lookup(k, depth as int) == after.at(
                            at,
                        ).lookup(k, depth + 1));
                        assert(old(self).lookup(k, depth as int) == before.at(at).lookup(
                            k,
                            depth + 1,
                        ));
                    }
                    if !removed {
                        assert(after.at(index as int) == before.at(index as int));
                        assert(after == before);
                    } else {
                        assert(Node::List(Box::new(after)).lookup(key@, depth as int) is None);
                        assert(Node::List(Box::new(after)).count() + 1 == old(self).count());
                    }
                    assert(after.c0.wf(prefix.push(0)) && after.c1.wf(prefix.push(1))
                        && after.c2.wf(prefix.push(2)) && after.c3.wf(prefix.push(3)));
                }
                match children.collapse() {
                    Some(replacement) => {
                        proof {
                            Self::lemma_collapse(after, prefix);
                        }
                        *self = replacement;
                    },
                    None => {},
                }
                removed
            },
            Node::Empty => false,
        }
    }

    /// Number of pairs in the subtree.
    pub(crate) fn len_internal(&self) -> (n: usize)
        requires
            self.count() <= usize::MAX,
        ensures
            n == self.count(),
        decreases self,
    {
        match self {
            Node::Item(_) => 1,
            Node::List(children) => {
                let n0 = children.c0.len_internal();
                let n1 = children.c1.len_internal();
                let n2 = children.c2.len_internal();
                let n3 = children.c3.len_internal();
                n0 + n1 + n2 + n3
            },
            Node::Empty => 0,
        }
    }

    /// Whether the subtree stores nothing.
    pub(crate) fn is_empty_internal(&self) -> (empty: bool)
        ensures
            empty == (self.count() == 0),
        decreases self,
    {
        match self {
            Node::Item(_) => false,
            Node::List(children) => {
                children.c0.is_empty_internal() && children.c1.is_empty_internal()
                    && children.c2.is_empty_internal() && children.c3.is_empty_internal()
            },
            Node::Empty => true,
        }
    }

    /// Number of levels of the subtree.
    pub(crate) fn depth_internal(&self, Ghost(prefix): Ghost<Seq<int>>) -> (levels: usize)
        requires
            self.wf(prefix),
            prefix.len() <= 4 * N,
            4 * N < usize::MAX,
        ensures
            levels == self.height(),
        decreases self,
    {
        match self {
            Node::Item(_) => 1,
            Node::List(children) => {
                proof {
                    children.c0.lemma_height_bound(prefix.push(0));
                    children.c1.lemma_height_bound(prefix.push(1));
                    children.c2.lemma_height_bound(prefix.push(2));
                    children.c3.lemma_height_bound(prefix.push(3));
                }
                let h0 = children.c0.depth_internal(Ghost(prefix.push(0)));
                let h1 = children.c1.depth_internal(Ghost(prefix.push(1)));
                let h2 = children.c2.depth_internal(Ghost(prefix.push(2)));
                let h3 = children.c3.depth_internal(Ghost(prefix.push(3)));
                let m01 = if h0 >= h1 {
                    h0
                } else {
                    h1
                };
                let m23 = if h2 >= h3 {
                    h2
                } else {
                    h3
                };
                1 + if m01 >= m23 {
                    m01
                } else {
                    m23
                }
            },
            Node::Empty => 0,
        }
    }
}

impl<const N: usize, V> Node<N, V> {
    /// `key` is stored in the subtree that lies `depth` groups below the root.
    pub open spec fn holds(self, key: Seq<u8>, depth: int) -> bool {
        key.len() == N && self.lookup(key, depth) is Some
    }

    /// An empty child holds nothing.
    pub proof fn lemma_empty_holds_nothing(self, key: Seq<u8>, depth: int)
        requires
            self is Empty,
        ensures
            !self.holds(key, depth),
    {
    }

    /// Keys under a lower slot of an interior node are smaller than keys under a higher one.
    pub proof fn lemma_slots_ordered(
        self,
        prefix: Seq<int>,
        low: Seq<u8>,
        high: Seq<u8>,
    )
        requires
            self is List,
            self.wf(prefix),
            self.holds(low, prefix.len() as int),
            self.holds(high, prefix.len() as int),
            nibble(low, prefix.len() as int) < nibble(high, prefix.len() as int),
        ensures
            key_value(low) < key_value(high),
    {
        self.lemma_found_has_prefix(low, prefix);
        self.lemma_found_has_prefix(high, prefix);
        lemma_prefix_agree(low, high, prefix);
        lemma_nibble_decides(low, high, prefix.len() as int);
    }
}

impl<const N: usize, V: Copy> Node<N, V> {
    /// The pair with the smallest key in the subtree.
    pub(crate) fn get_min_internal(&self, Ghost(prefix): Ghost<Seq<int>>) -> (found: Option<([u8; N], V)>)
        requires
            self.wf(prefix),
        ensures
            found is None <==> self is Empty,
            found is Some ==> self.lookup(found->Some_0.0@, prefix.len() as int) == Some(
                found->Some_0.1,
            ),
            found is Some ==> forall|k: Seq<u8>| #[trigger]
                self.holds(k, prefix.len() as int) ==> key_value(found->Some_0.0@) <= key_value(k),
        decreases self,
    {
        match self {
            Node::Item(entry) => Some((entry.0, entry.1)),
            Node::List(children) => {
                let ghost depth = prefix.len() as int;
                let mut i: usize = 0;
                while i < 4
                    invariant
                        i <= 4,
                        *self == Node::List(*children),
                        self.wf(prefix),
                        depth == prefix.len(),
                        forall|j: int| 0 <= j < i ==> children.at(j) is Empty,
                    decreases 4 - i,
                {
                    proof {
                        self.lemma_wf_child(prefix, i as int);
                    }
                    match children.child(i).get_min_internal(Ghost(prefix.push(i as int))) {
                        Some(pair) => {
                            proof {
                                let child = children.at(i as int);
                                child.lemma_found_has_prefix(pair.0@, prefix.push(i as int));
                                lemma_prefix_pop(pair.0@, prefix, i as int);
                                self.lemma_lookup_list(pair.0@, depth);
                                assert forall|k: Seq<u8>| #[trigger]
                                    self.holds(k, depth) implies key_value(pair.0@) <= key_value(
                                    k,
                                ) by {
                                    self.lemma_lookup_list(k, depth);
                                    let slot = nibble(k, depth);
                                    if children.at(slot) is Empty {
                                        children.at(slot).lemma_empty_holds_nothing(k, depth + 1);
                                    }
                                    if slot == i {
                                        assert(child.holds(k, depth + 1));
                                    } else {
                                        self.lemma_slots_ordered(prefix, pair.0@, k);
                                    }
                                }
                            }
                            return Some(pair);
                        },
                        None => {},
                    }
                    i += 1;
                }
                proof {
                    assert(children.at(0) == children.c0 && children.at(1) == children.c1
                        && children.at(2) == children.c2 && children.at(3) == children.c3);
                    assert(children.collapsible());
                }
                None
            },
            Node::Empty => None,
        }
    }

    /// The pair with the largest key in the subtree.
    pub(crate) fn get_max_internal(&self, Ghost(prefix): Ghost<Seq<int>>) -> (found: Option<([u8; N], V)>)
        requires
            self.wf(prefix),
        ensures
            found is None <==> self is Empty,
            found is Some ==> self.lookup(found->Some_0.0@, prefix.len() as int) == Some(
                found->Some_0.1,
            ),
            found is Some ==> forall|k: Seq<u8>| #[trigger]
                self.holds(k, prefix.len() as int) ==> key_value(k) <= key_value(found->Some_0.0@),
        decreases self,
    {
        match self {
            Node::Item(entry) => Some((entry.0, entry.1)),
            Node::List(children) => {
                let ghost depth = prefix.len() as int;
                let mut i: usize = 4;
                while i > 0
                    invariant
                        i <= 4,
                        *self == Node::List(*children),
                        self.wf(prefix),
                        depth == prefix.len(),
                        forall|j: int| i <= j < 4 ==> children.at(j) is Empty,
                    decreases i,
                {
                    i -= 1;
                    proof {
                        self.lemma_wf_child(prefix, i as int);
                    }
                    match children.child(i).get_max_internal(Ghost(prefix.push(i as int))) {
                        Some(pair) => {
                            proof {
                                let child = children.at(i as int);
                                child.lemma_found_has_prefix(pair.0@, prefix.push(i as int));
                                lemma_prefix_pop(pair.0@, prefix, i as int);
                                self.lemma_lookup_list(pair.0@, depth);
                                assert forall|k: Seq<u8>| #[trigger]
                                    self.holds(k, depth) implies key_value(k) <= key_value(
                                    pair.0@,
                                ) by {
                                    self.lemma_lookup_list(k, depth);
                                    let slot = nibble(k, depth);
                                    if children.at(slot) is Empty {
                                        children.at(slot).lemma_empty_holds_nothing(k, depth + 1);
                                    }
                                    if slot == i {
                                        assert(child.holds(k, depth + 1));
                                    } else {
                                        self.lemma_slots_ordered(prefix, k, pair.0@);
                                    }
                                }
                            }
                            return Some(pair);
                        },
                        None => {},
                    }
                }
                proof {
                    assert(children.at(0) == children.c0 && children.at(1) == children.c1
                        && children.at(2) == children.c2 && children.at(3) == children.c3);
                    assert(children.collapsible());
                }
                None
            },
            Node::Empty => None,
        }
    }
}

impl<const N: usize, V> Node<N, V> {
    /// The keys stored in the subtree that lies `depth` groups below the root.
    pub open spec fn key_set(self, depth: int) -> Set<Seq<u8>> {
        Set::new(|k: Seq<u8>| self.holds(k, depth))
    }

    /// What the subtree stores, as a map from keys to values.
    pub open spec fn entries(self, depth: int) -> Map<Seq<u8>, V> {
        Map::new(|k: Seq<u8>| self.holds(k, depth), |k: Seq<u8>| self.lookup(k, depth)->Some_0)
    }

    /// A key stored under child `i` of a valid interior node selects slot `i`.
    pub proof fn lemma_child_slot(self, prefix: Seq<int>, i: int, key: Seq<u8>)
        requires
            self is List,
            self.wf(prefix),
            0 <= i < 4,
            self->List_0.at(i).holds(key, prefix.len() as int + 1),
        ensures
            nibble(key, prefix.len() as int) == i,
            self.lookup(key, prefix.len() as int) == self->List_0.at(i).lookup(
                key,
                prefix.len() as int + 1,
            ),
    {
        self.lemma_wf_child(prefix, i);
        self->List_0.at(i).lemma_found_has_prefix(key, prefix.push(i));
        lemma_prefix_pop(key, prefix, i);
        self.lemma_lookup_list(key, prefix.len() as int);
    }

    /// A valid subtree holds finitely many keys, as many as it has pairs.
    pub proof fn lemma_key_set_size(self, prefix: Seq<int>)
        requires
            self.wf(prefix),
        ensures
            self.key_set(prefix.len() as int).finite(),
            self.key_set(prefix.len() as int).len() == self.count(),
        decreases self,
    {
        let depth = prefix.len() as int;
        match self {
            Node::Item(entry) => {
                assert(self.key_set(depth) =~= Set::empty().insert(entry.0@));
            },
            Node::Empty => {
                assert(self.key_set(depth) =~= Set::empty());
            },
            Node::List(children) => {
                let s0 = children.c0.key_set(depth + 1);
                let s1 = children.c1.key_set(depth + 1);
                let s2 = children.c2.key_set(depth + 1);
                let s3 = children.c3.key_set(depth + 1);
                children.c0.lemma_key_set_size(prefix.push(0));
                children.c1.lemma_key_set_size(prefix.push(1));
                children.c2.lemma_key_set_size(prefix.push(2));
                children.c3.lemma_key_set_size(prefix.push(3));
                assert forall|k: Seq<u8>| s0.contains(k) implies nibble(k, depth) == 0
                    && self.holds(k, depth) by {
                    self.lemma_child_slot(prefix, 0, k);
                }
                assert forall|k: Seq<u8>| s1.contains(k) implies nibble(k, depth) == 1
                    && self.holds(k, depth) by {
                    self.lemma_child_slot(prefix, 1, k);
                }
                assert forall|k: Seq<u8>| s2.contains(k) implies nibble(k, depth) == 2
                    && self.holds(k, depth) by {
                    self.lemma_child_slot(prefix, 2, k);
                }
                assert forall|k: Seq<u8>| s3.contains(k) implies nibble(k, depth) == 3
                    && self.holds(k, depth) by {
                    self.lemma_child_slot(prefix, 3, k);
                }
                assert forall|k: Seq<u8>| self.holds(k, depth) implies (s0 + s1 + s2 + s3).contains(
                    k,
                ) by {
                    self.lemma_lookup_list(k, depth);
                }
                assert(self.key_set(depth) =~= s0 + s1 + s2 + s3);
                assert(s0.disjoint(s1));
                assert((s0 + s1).disjoint(s2));
                assert((s0 + s1 + s2).disjoint(s3));
                vstd::set_lib::lemma_set_disjoint_lens(s0, s1);
                vstd::set_lib::lemma_set_disjoint_lens(s0 + s1, s2);
                vstd::set_lib::lemma_set_disjoint_lens(s0 + s1 + s2, s3);
            },
        }
    }
}

/// Of a pair found so far and a rival, the one nearer to `key` on the circle of
/// keys; the pair found first where both are equally near.
pub fn closer<const N: usize, V: Copy>(
    key: [u8; N],
    current: Option<([u8; N], V)>,
    rival: ([u8; N], V),
) -> (best: ([u8; N], V))
    ensures
        current is None ==> best == rival,
        current is Some ==> best == (if cyclic_distance(key@, rival.0@) < cyclic_distance(
            key@,
            current->Some_0.0@,
        ) {
            rival
        } else {
            current->Some_0
        }),
{
    match current {
        None => rival,
        Some(pair) => {
            let rival_distance = get_abs_diff(key, rival.0);
            let pair_distance = get_abs_diff(key, pair.0);
            if key_lt(&rival_distance, &pair_distance) {
                rival
            } else {
                pair
            }
        },
    }
}

impl<const N: usize, V> Node<N, V> {
    /// The key of the pair at which a descent along `key` ends, if it ends at one.
    pub open spec fn path_key(self, key: Seq<u8>, depth: int) -> Option<Seq<u8>>
        decreases self,
    {
        match self {
            Node::Item(entry) => Some(entry.0@),
            Node::List(children) => {
                let index = nibble(key, depth);
                if index == 0 {
                    children.c0.path_key(key, depth + 1)
                } else if index == 1 {
                    children.c1.path_key(key, depth + 1)
                } else if index == 2 {
                    children.c2.path_key(key, depth + 1)
                } else {
                    children.c3.path_key(key, depth + 1)
                }
            },
            Node::Empty => None,
        }
    }

    /// `k` is stored in the subtree, but not where the descent along `key` ends.
    pub open spec fn off_path(self, key: Seq<u8>, depth: int, k: Seq<u8>) -> bool {
        self.holds(k, depth) && self.path_key(key, depth) != Some(k)
    }

    /// `k` is stored off the path of `key` and is smaller than `key`.
    pub open spec fn below(self, key: Seq<u8>, depth: int, k: Seq<u8>) -> bool {
        self.off_path(key, depth, k) && key_value(k) < key_value(key)
    }

    /// `k` is stored off the path of `key` and is greater than `key`.
    pub open spec fn above(self, key: Seq<u8>, depth: int, k: Seq<u8>) -> bool {
        self.off_path(key, depth, k) && key_value(k) > key_value(key)
    }

    /// `k` is the greatest of the keys off the path of `key` that are smaller than `key`.
    pub open spec fn best_below(self, key: Seq<u8>, depth: int, k: Seq<u8>) -> bool {
        &&& self.below(key, depth, k)
        &&& forall|o: Seq<u8>| #[trigger] self.below(key, depth, o) ==> key_value(o) <= key_value(k)
    }

    /// `k` is the least of the keys off the path of `key` that are greater than `key`.
    pub open spec fn best_above(self, key: Seq<u8>, depth: int, k: Seq<u8>) -> bool {
        &&& self.above(key, depth, k)
        &&& forall|o: Seq<u8>| #[trigger] self.above(key, depth, o) ==> key_value(k) <= key_value(o)
    }

    /// `k` is where the descent along `key` ends, and may be returned.
    pub open spec fn on_path(self, key: Seq<u8>, include_key: bool, depth: int, k: Seq<u8>) -> bool {
        self.path_key(key, depth) == Some(k) && (include_key || k != key)
    }

    /// `k` is one of the up to three keys that a search for the nearest key compares.
    pub open spec fn candidate(
        self,
        key: Seq<u8>,
        include_key: bool,
        depth: int,
        k: Seq<u8>,
    ) -> bool {
        ||| self.on_path(key, include_key, depth, k)
        ||| self.best_below(key, depth, k)
        ||| self.best_above(key, depth, k)
    }

    /// `found` is a candidate that no other candidate beats, or nothing where no
    /// candidate exists.
    pub open spec fn nearest(
        self,
        key: Seq<u8>,
        include_key: bool,
        depth: int,
        found: Option<([u8; N], V)>,
    ) -> bool {
        match found {
            None => forall|c: Seq<u8>| !#[trigger] self.candidate(key, include_key, depth, c),
            Some(pair) => {
                &&& self.candidate(key, include_key, depth, pair.0@)
                &&& self.lookup(pair.0@, depth) == Some(pair.1)
                &&& forall|c: Seq<u8>| #[trigger]
                    self.candidate(key, include_key, depth, c) ==> cyclic_distance(key, pair.0@)
                        <= cyclic_distance(key, c)
            },
        }
    }

    /// The descent through an interior node ends where the descent through the
    /// selected child ends.
    pub proof fn lemma_path_key_list(self, key: Seq<u8>, depth: int)
        requires
            self is List,
            0 <= depth < 4 * key.len(),
        ensures
            self.path_key(key, depth) == self->List_0.at(nibble(key, depth)).path_key(
                key,
                depth + 1,
            ),
    {
        lemma_byte_from_nibbles(key[depth / 4]);
    }

    /// The pair at which a descent ends is stored in the subtree, below its path.
    pub proof fn lemma_path_key_holds(self, key: Seq<u8>, prefix: Seq<int>)
        requires
            self.wf(prefix),
            key.len() == N,
            has_prefix(key, prefix),
            self.path_key(key, prefix.len() as int) is Some,
        ensures
            self.holds(self.path_key(key, prefix.len() as int)->Some_0, prefix.len() as int),
            has_prefix(self.path_key(key, prefix.len() as int)->Some_0, prefix),
        decreases self,
    {
        let depth = prefix.len() as int;
        match self {
            Node::List(children) => {
                let index = nibble(key, depth);
                self.lemma_lookup_list(key, depth);
                self.lemma_path_key_list(key, depth);
                self.lemma_wf_child(prefix, index);
                lemma_prefix_push(key, prefix);
                let child = children.at(index);
                child.lemma_path_key_holds(key, prefix.push(index));
                let end = child.path_key(key, depth + 1)->Some_0;
                self.lemma_child_slot(prefix, index, end);
                lemma_prefix_pop(end, prefix, index);
            },
            _ => {},
        }
    }

    /// How what an interior node stores relates to what the child on the path of
    /// `key` stores, and to what its siblings store.
    pub proof fn lemma_list_relations(self, key: Seq<u8>, prefix: Seq<int>, k: Seq<u8>)
        requires
            self is List,
            self.wf(prefix),
            key.len() == N,
            has_prefix(key, prefix),
            k.len() == N,
        ensures
            0 <= nibble(key, prefix.len() as int) < 4,
            0 <= nibble(k, prefix.len() as int) < 4,
            self.holds(k, prefix.len() as int) <==> self->List_0.at(
                nibble(k, prefix.len() as int),
            ).holds(k, prefix.len() as int + 1),
            forall|j: int|
                0 <= j < 4 && #[trigger] self->List_0.at(j).holds(k, prefix.len() as int + 1) ==> j
                    == nibble(k, prefix.len() as int),
            nibble(k, prefix.len() as int) == nibble(key, prefix.len() as int) ==> {
                let child = self->List_0.at(nibble(key, prefix.len() as int));
                &&& self.off_path(key, prefix.len() as int, k) <==> child.off_path(
                    key,
                    prefix.len() as int + 1,
                    k,
                )
                &&& self.below(key, prefix.len() as int, k) <==> child.below(
                    key,
                    prefix.len() as int + 1,
                    k,
                )
                &&& self.above(key, prefix.len() as int, k) <==> child.above(
                    key,
                    prefix.len() as int + 1,
                    k,
                )
            },
            self.holds(k, prefix.len() as int) && nibble(k, prefix.len() as int) < nibble(
                key,
                prefix.len() as int,
            ) ==> self.below(key, prefix.len() as int, k),
            self.holds(k, prefix.len() as int) && nibble(k, prefix.len() as int) > nibble(
                key,
                prefix.len() as int,
            ) ==> self.above(key, prefix.len() as int, k),
            self.below(key, prefix.len() as int, k) ==> nibble(k, prefix.len() as int) <= nibble(
                key,
                prefix.len() as int,
            ),
            self.above(key, prefix.len() as int, k) ==> nibble(k, prefix.len() as int) >= nibble(
                key,
                prefix.len() as int,
            ),
    {
        let depth = prefix.len() as int;
        let index = nibble(key, depth);
        let slot = nibble(k, depth);
        self.lemma_lookup_list(key, depth);
        self.lemma_lookup_list(k, depth);
        self.lemma_path_key_list(key, depth);
        assert forall|j: int| 0 <= j < 4 && #[trigger] self->List_0.at(j).holds(
            k,
            prefix.len() as int + 1,
        ) implies j == slot by {
            self.lemma_child_slot(prefix, j, k);
        }
        if self.holds(k, depth) {
            self.lemma_found_has_prefix(k, prefix);
            lemma_prefix_agree(k, key, prefix);
            lemma_prefix_agree(key, k, prefix);
            if slot < index {
                lemma_nibble_decides(k, key, depth);
            }
            if slot > index {
                lemma_nibble_decides(key, k, depth);
            }
            if slot != index && self.path_key(key, depth) is Some {
                self.lemma_wf_child(prefix, index);
                lemma_prefix_push(key, prefix);
                self->List_0.at(index).lemma_path_key_holds(key, prefix.push(index));
                lemma_prefix_pop(self.path_key(key, depth)->Some_0, prefix, index);
            }
        }
    }
}

impl<const N: usize, V: Copy> Quad<N, V> {
    /// The greatest pair under the nearest occupied slot before `index`.
    pub(crate) fn last_before(
        &self,
        index: usize,
        Ghost(prefix): Ghost<Seq<int>>,
        Ghost(deeper): Ghost<int>,
    ) -> (found: Option<([u8; N], V)>)
        requires
            index < 4,
            deeper == prefix.len() + 1,
            forall|j: int| 0 <= j < 4 ==> (#[trigger] self.at(j)).wf(prefix.push(j)),
        ensures
            found is None ==> forall|j: int| 0 <= j < index ==> self.at(j) is Empty,
            found is Some ==> exists|i: int|
                {
                    &&& 0 <= i < index
                    &&& (#[trigger] self.at(i)).lookup(found->Some_0.0@, deeper)
                        == Some(found->Some_0.1)
                    &&& forall|o: Seq<u8>| #[trigger]
                        self.at(i).holds(o, deeper) ==> key_value(o) <= key_value(
                            found->Some_0.0@,
                        )
                    &&& forall|j: int| i < j < index ==> self.at(j) is Empty
                },
    {
        let mut i: usize = index;
        while i > 0
            invariant
                i <= index < 4,
                deeper == prefix.len() + 1,
                forall|j: int| 0 <= j < 4 ==> (#[trigger] self.at(j)).wf(prefix.push(j)),
                forall|j: int| i <= j < index ==> self.at(j) is Empty,
            decreases i,
        {
            i -= 1;
            match self.child(i).get_max_internal(Ghost(prefix.push(i as int))) {
                Some(pair) => {
                    assert(self.at(i as int).lookup(pair.0@, deeper) == Some(
                        pair.1,
                    ));
                    return Some(pair);
                },
                None => {},
            }
        }
        None
    }

    /// The least pair under the nearest occupied slot after `index`.
    pub(crate) fn first_after(
        &self,
        index: usize,
        Ghost(prefix): Ghost<Seq<int>>,
        Ghost(deeper): Ghost<int>,
    ) -> (found: Option<([u8; N], V)>)
        requires
            index < 4,
            deeper == prefix.len() + 1,
            forall|j: int| 0 <= j < 4 ==> (#[trigger] self.at(j)).wf(prefix.push(j)),
        ensures
            found is None ==> forall|j: int| index < j < 4 ==> self.at(j) is Empty,
            found is Some ==> exists|i: int|
                {
                    &&& index < i < 4
                    &&& (#[trigger] self.at(i)).lookup(found->Some_0.0@, deeper)
                        == Some(found->Some_0.1)
                    &&& forall|o: Seq<u8>| #[trigger]
                        self.at(i).holds(o, deeper) ==> key_value(
                            found->Some_0.0@,
                        ) <= key_value(o)
                    &&& forall|j: int| index < j < i ==> self.at(j) is Empty
                },
    {
        let mut i: usize = index + 1;
        while i < 4
            invariant
                index < i <= 4,
                deeper == prefix.len() + 1,
                forall|j: int| 0 <= j < 4 ==> (#[trigger] self.at(j)).wf(prefix.push(j)),
                forall|j: int| index < j < i ==> self.at(j) is Empty,
            decreases 4 - i,
        {
            match self.child(i).get_min_internal(Ghost(prefix.push(i as int))) {
                Some(pair) => {
                    assert(self.at(i as int).lookup(pair.0@, deeper) == Some(
                        pair.1,
                    ));
                    return Some(pair);
                },
                None => {},
            }
            i += 1;
        }
        None
    }
}

impl<const N: usize, V> Node<N, V> {
    /// The greatest key of the nearest occupied sibling before the path of `key`
    /// is the best key below `key`, where the child on the path has none.
    pub proof fn lemma_sibling_below(
        self,
        key: Seq<u8>,
        prefix: Seq<int>,
        deeper: int,
        i: int,
        p: Seq<u8>,
    )
        requires
            deeper == prefix.len() + 1,
            self is List,
            self.wf(prefix),
            key.len() == N,
            has_prefix(key, prefix),
            0 <= i < nibble(key, prefix.len() as int),
            self->List_0.at(i).holds(p, deeper),
            forall|o: Seq<u8>| #[trigger]
                self->List_0.at(i).holds(o, deeper) ==> key_value(o) <= key_value(
                    p,
                ),
            forall|j: int| i < j < nibble(key, prefix.len() as int) ==> self->List_0.at(j) is Empty,
            forall|k: Seq<u8>|
                !self->List_0.at(nibble(key, prefix.len() as int)).below(
                    key,
                    deeper,
                    k,
                ),
        ensures
            self.best_below(key, prefix.len() as int, p),
            self.lookup(p, prefix.len() as int) == self->List_0.at(i).lookup(
                p,
                deeper,
            ),
    {
        let depth = prefix.len() as int;
        self.lemma_child_slot(prefix, i, p);
        self.lemma_list_relations(key, prefix, p);
        assert forall|o: Seq<u8>| #[trigger] self.below(key, depth, o) implies key_value(o)
            <= key_value(p) by {
            self.lemma_list_relations(key, prefix, o);
            let slot = nibble(o, depth);
            if slot < i {
                self.lemma_slots_ordered(prefix, o, p);
            } else if slot > i {
                assert(self->List_0.at(slot) is Empty);
            }
        }
    }

    /// The mirror image of `lemma_sibling_below`.
    pub proof fn lemma_sibling_above(
        self,
        key: Seq<u8>,
        prefix: Seq<int>,
        deeper: int,
        i: int,
        p: Seq<u8>,
    )
        requires
            deeper == prefix.len() + 1,
            self is List,
            self.wf(prefix),
            key.len() == N,
            has_prefix(key, prefix),
            nibble(key, prefix.len() as int) < i < 4,
            self->List_0.at(i).holds(p, deeper),
            forall|o: Seq<u8>| #[trigger]
                self->List_0.at(i).holds(o, deeper) ==> key_value(p) <= key_value(
                    o,
                ),
            forall|j: int| nibble(key, prefix.len() as int) < j < i ==> self->List_0.at(j) is Empty,
            forall|k: Seq<u8>|
                !self->List_0.at(nibble(key, prefix.len() as int)).above(
                    key,
                    deeper,
                    k,
                ),
        ensures
            self.best_above(key, prefix.len() as int, p),
            self.lookup(p, prefix.len() as int) == self->List_0.at(i).lookup(
                p,
                deeper,
            ),
    {
        let depth = prefix.len() as int;
        self.lemma_child_slot(prefix, i, p);
        self.lemma_list_relations(key, prefix, p);
        assert forall|o: Seq<u8>| #[trigger] self.above(key, depth, o) implies key_value(p)
            <= key_value(o) by {
            self.lemma_list_relations(key, prefix, o);
            let slot = nibble(o, depth);
            if slot > i {
                self.lemma_slots_ordered(prefix, p, o);
            } else if slot < i {
                assert(self->List_0.at(slot) is Empty);
            }
        }
    }

    /// The best key below `key` in the child on its path is the best in the whole
    /// node, and the node has no other of that magnitude.
    pub proof fn lemma_child_below(
        self,
        key: Seq<u8>,
        prefix: Seq<int>,
        deeper: int,
        best: Seq<u8>,
    )
        requires
            deeper == prefix.len() + 1,
            self is List,
            self.wf(prefix),
            key.len() == N,
            has_prefix(key, prefix),
            self->List_0.at(nibble(key, prefix.len() as int)).best_below(
                key,
                deeper,
                best,
            ),
        ensures
            self.best_below(key, prefix.len() as int, best),
            forall|c: Seq<u8>| #[trigger]
                self.best_below(key, prefix.len() as int, c) ==> key_value(c) == key_value(best),
    {
        let depth = prefix.len() as int;
        let index = nibble(key, depth);
        let child = self->List_0.at(index);
        self.lemma_list_relations(key, prefix, key);
        self.lemma_child_slot(prefix, index, best);
        self.lemma_list_relations(key, prefix, best);
        assert forall|o: Seq<u8>| #[trigger] self.below(key, depth, o) implies key_value(o)
            <= key_value(best) by {
            self.lemma_list_relations(key, prefix, o);
            if nibble(o, depth) < index {
                self.lemma_slots_ordered(prefix, o, best);
            } else {
                assert(child.below(key, deeper, o));
            }
        }
    }

    /// The mirror image of `lemma_child_below`.
    pub proof fn lemma_child_above(
        self,
        key: Seq<u8>,
        prefix: Seq<int>,
        deeper: int,
        best: Seq<u8>,
    )
        requires
            deeper == prefix.len() + 1,
            self is List,
            self.wf(prefix),
            key.len() == N,
            has_prefix(key, prefix),
            self->List_0.at(nibble(key, prefix.len() as int)).best_above(
                key,
                deeper,
                best,
            ),
        ensures
            self.best_above(key, prefix.len() as int, best),
            forall|c: Seq<u8>| #[trigger]
                self.best_above(key, prefix.len() as int, c) ==> key_value(c) == key_value(best),
    {
        let depth = prefix.len() as int;
        let index = nibble(key, depth);
        let child = self->List_0.at(index);
        self.lemma_list_relations(key, prefix, key);
        self.lemma_child_slot(prefix, index, best);
        self.lemma_list_relations(key, prefix, best);
        assert forall|o: Seq<u8>| #[trigger] self.above(key, depth, o) implies key_value(best)
            <= key_value(o) by {
            self.lemma_list_relations(key, prefix, o);
            if nibble(o, depth) > index {
                self.lemma_slots_ordered(prefix, best, o);
            } else {
                assert(child.above(key, deeper, o));
            }
        }
    }

    /// Where neither the child on the path nor a sibling before it holds a key
    /// below `key`, the node holds none.
    pub proof fn lemma_nothing_below(self, key: Seq<u8>, prefix: Seq<int>, deeper: int)
        requires
            deeper == prefix.len() + 1,
            self is List,
            self.wf(prefix),
            key.len() == N,
            has_prefix(key, prefix),
            forall|j: int| 0 <= j < nibble(key, prefix.len() as int) ==> self->List_0.at(j) is Empty,
            forall|k: Seq<u8>|
                !self->List_0.at(nibble(key, prefix.len() as int)).below(
                    key,
                    deeper,
                    k,
                ),
        ensures
            forall|k: Seq<u8>| !self.below(key, prefix.len() as int, k),
    {
        assert forall|k: Seq<u8>| !self.below(key, prefix.len() as int, k) by {
            if self.below(key, prefix.len() as int, k) {
                self.lemma_list_relations(key, prefix, k);
                let slot = nibble(k, prefix.len() as int);
                assert(self->List_0.at(slot).holds(k, deeper));
            }
        }
    }

    /// The mirror image of `lemma_nothing_below`.
    pub proof fn lemma_nothing_above(self, key: Seq<u8>, prefix: Seq<int>, deeper: int)
        requires
            deeper == prefix.len() + 1,
            self is List,
            self.wf(prefix),
            key.len() == N,
            has_prefix(key, prefix),
            forall|j: int| nibble(key, prefix.len() as int) < j < 4 ==> self->List_0.at(j) is Empty,
            forall|k: Seq<u8>|
                !self->List_0.at(nibble(key, prefix.len() as int)).above(
                    key,
                    deeper,
                    k,
                ),
        ensures
            forall|k: Seq<u8>| !self.above(key, prefix.len() as int, k),
    {
        assert forall|k: Seq<u8>| !self.above(key, prefix.len() as int, k) by {
            if self.above(key, prefix.len() as int, k) {
                self.lemma_list_relations(key, prefix, k);
                let slot = nibble(k, prefix.len() as int);
                assert(self->List_0.at(slot).holds(k, deeper));
            }
        }
    }
}

impl<const N: usize, V: Copy> Node<N, V> {
    /// Searches the subtree for the stored key nearest to `key`. Beside the pair
    /// at the end of the path of `key` it looks, at each interior node, at the
    /// nearest occupied sibling on either side, until one is found on that side.
    /// Returns the nearest pair and whether a key was found below and above `key`.
    pub(crate) fn get_or_closest_by_key_internal(
        &self,
        key: [u8; N],
        include_key: bool,
        depth: usize,
        Ghost(prefix): Ghost<Seq<int>>,
    ) -> (found: (Option<([u8; N], V)>, bool, bool))
        requires
            self.wf(prefix),
            prefix.len() == depth,
            has_prefix(key@, prefix),
            4 * N < usize::MAX,
        ensures
            found.1 == (exists|k: Seq<u8>| self.below(key@, depth as int, k)),
            found.2 == (exists|k: Seq<u8>| self.above(key@, depth as int, k)),
            found.1 ==> exists|k: Seq<u8>| self.best_below(key@, depth as int, k),
            found.2 ==> exists|k: Seq<u8>| self.best_above(key@, depth as int, k),
            self.nearest(key@, include_key, depth as int, found.0),
        decreases self,
    {
        match self {
            Node::Item(entry) => {
                let found = if !key_eq(&entry.0, &key) || include_key {
                    Some((entry.0, entry.1))
                } else {
                    None
                };
                (found, false, false)
            },
            Node::List(children) => {
                let index = get_index(key, depth);
                let ghost here = depth as int;
                let ghost deeper = (depth + 1) as int;
                let ghost longer = prefix.push(index as int);
                proof {
                    self.lemma_lookup_list(key@, here);
                    self.lemma_path_key_list(key@, here);
                    lemma_prefix_push(key@, prefix);
                    assert forall|j: int| 0 <= j < 4 implies (#[trigger] children.at(j)).wf(
                        prefix.push(j),
                    ) by {
                        self.lemma_wf_child(prefix, j);
                    }
                }
                let child = children.child(index);
                let (below_min, below_left, below_right) = child.get_or_closest_by_key_internal(
                    key,
                    include_key,
                    depth + 1,
                    Ghost(longer),
                );
                let mut min = below_min;
                let mut left = below_left;
                let mut right = below_right;
                let ghost mut left_pair: Option<([u8; N], V)> = None;
                let ghost mut right_pair: Option<([u8; N], V)> = None;
                if !left {
                    match children.last_before(index, Ghost(prefix), Ghost(deeper)) {
                        Some(pair) => {
                            proof {
                                left_pair = Some(pair);
                                let i = choose|i: int|
                                    {
                                        &&& 0 <= i < index
                                        &&& (#[trigger] children.at(i)).lookup(pair.0@, deeper)
                                            == Some(pair.1)
                                        &&& forall|o: Seq<u8>| #[trigger]
                                            children.at(i).holds(o, deeper) ==> key_value(o)
                                                <= key_value(pair.0@)
                                        &&& forall|j: int| i < j < index ==> children.at(j) is Empty
                                    };
                                self.lemma_sibling_below(key@, prefix, deeper, i, pair.0@);
                            }
                            left = true;
                            min = Some(closer(key, min, pair));
                        },
                        None => {
                            proof {
                                self.lemma_nothing_below(key@, prefix, deeper);
                            }
                        },
                    }
                } else {
                    proof {
                        let best = choose|k: Seq<u8>| child.best_below(key@, deeper, k);
                        self.lemma_child_below(key@, prefix, deeper, best);
                    }
                }
                let ghost middle = min;
                if !right {
                    match children.first_after(index, Ghost(prefix), Ghost(deeper)) {
                        Some(pair) => {
                            proof {
                                right_pair = Some(pair);
                                let i = choose|i: int|
                                    {
                                        &&& index < i < 4
                                        &&& (#[trigger] children.at(i)).lookup(pair.0@, deeper)
                                            == Some(pair.1)
                                        &&& forall|o: Seq<u8>| #[trigger]
                                            children.at(i).holds(o, deeper) ==> key_value(pair.0@)
                                                <= key_value(o)
                                        &&& forall|j: int| index < j < i ==> children.at(j) is Empty
                                    };
                                self.lemma_sibling_above(key@, prefix, deeper, i, pair.0@);
                            }
                            right = true;
                            min = Some(closer(key, min, pair));
                        },
                        None => {
                            proof {
                                self.lemma_nothing_above(key@, prefix, deeper);
                            }
                        },
                    }
                } else {
                    proof {
                        let best = choose|k: Seq<u8>| child.best_above(key@, deeper, k);
                        self.lemma_child_above(key@, prefix, deeper, best);
                    }
                }
                proof {
                    self.lemma_nearest_list(
                        key@,
                        include_key,
                        prefix,
                        deeper,
                        below_min,
                        left_pair,
                        right_pair,
                        min,
                    );
                }
                (min, left, right)
            },
            Node::Empty => (None, false, false),
        }
    }
}

impl<const N: usize, V> Node<N, V> {
    /// The nearer of a pair found so far and a rival, as `closer` computes it.
    pub open spec fn closer_of(
        key: Seq<u8>,
        current: Option<([u8; N], V)>,
        rival: Option<([u8; N], V)>,
    ) -> Option<([u8; N], V)> {
        match (current, rival) {
            (_, None) => current,
            (None, Some(_)) => rival,
            (Some(pair), Some(other)) => if cyclic_distance(key, other.0@) < cyclic_distance(
                key,
                pair.0@,
            ) {
                rival
            } else {
                current
            },
        }
    }

    /// What an interior node answers: the nearest of what the child on the path
    /// answered and of the best keys that the scan of its siblings found.
    pub proof fn lemma_nearest_list(
        self,
        key: Seq<u8>,
        include_key: bool,
        prefix: Seq<int>,
        deeper: int,
        inner: Option<([u8; N], V)>,
        left_pair: Option<([u8; N], V)>,
        right_pair: Option<([u8; N], V)>,
        found: Option<([u8; N], V)>,
    )
        requires
            self is List,
            self.wf(prefix),
            key.len() == N,
            has_prefix(key, prefix),
            deeper == prefix.len() + 1,
            self->List_0.at(nibble(key, prefix.len() as int)).nearest(
                key,
                include_key,
                deeper,
                inner,
            ),
            found == Self::closer_of(key, Self::closer_of(key, inner, left_pair), right_pair),
            left_pair is Some ==> self.best_below(key, prefix.len() as int, left_pair->Some_0.0@)
                && self.lookup(left_pair->Some_0.0@, prefix.len() as int) == Some(
                left_pair->Some_0.1,
            ),
            right_pair is Some ==> self.best_above(key, prefix.len() as int, right_pair->Some_0.0@)
                && self.lookup(right_pair->Some_0.0@, prefix.len() as int) == Some(
                right_pair->Some_0.1,
            ),
            left_pair is None ==> {
                ||| forall|k: Seq<u8>| !self.below(key, prefix.len() as int, k)
                ||| exists|best: Seq<u8>|
                    {
                        &&& #[trigger] self->List_0.at(nibble(key, prefix.len() as int)).best_below(
                            key,
                            deeper,
                            best,
                        )
                        &&& self.best_below(key, prefix.len() as int, best)
                        &&& forall|c: Seq<u8>| #[trigger]
                            self.best_below(key, prefix.len() as int, c) ==> key_value(c)
                                == key_value(best)
                    }
            },
            right_pair is None ==> {
                ||| forall|k: Seq<u8>| !self.above(key, prefix.len() as int, k)
                ||| exists|best: Seq<u8>|
                    {
                        &&& #[trigger] self->List_0.at(nibble(key, prefix.len() as int)).best_above(
                            key,
                            deeper,
                            best,
                        )
                        &&& self.best_above(key, prefix.len() as int, best)
                        &&& forall|c: Seq<u8>| #[trigger]
                            self.best_above(key, prefix.len() as int, c) ==> key_value(c)
                                == key_value(best)
                    }
            },
            left_pair is Some ==> forall|k: Seq<u8>|
                !self->List_0.at(nibble(key, prefix.len() as int)).below(key, deeper, k),
            right_pair is Some ==> forall|k: Seq<u8>|
                !self->List_0.at(nibble(key, prefix.len() as int)).above(key, deeper, k),
        ensures
            self.nearest(key, include_key, prefix.len() as int, found),
    {
        let depth = prefix.len() as int;
        let index = nibble(key, depth);
        let child = self->List_0.at(index);
        self.lemma_lookup_list(key, depth);
        self.lemma_path_key_list(key, depth);
        self.lemma_list_relations(key, prefix, key);
        // Every candidate of the node is matched by the child's answer or by a pair of the scan.
        assert forall|c: Seq<u8>| #[trigger]
            self.candidate(key, include_key, depth, c) implies found is Some && cyclic_distance(
            key,
            found->Some_0.0@,
        ) <= cyclic_distance(key, c) by {
            if self.on_path(key, include_key, depth, c) {
                assert(child.candidate(key, include_key, deeper, c));
            } else if self.best_below(key, depth, c) {
                if left_pair is Some {
                    assert(key_value(c) == key_value(left_pair->Some_0.0@));
                } else {
                    let best = choose|best: Seq<u8>|
                        {
                            &&& #[trigger] child.best_below(key, deeper, best)
                            &&& self.best_below(key, depth, best)
                            &&& forall|c: Seq<u8>| #[trigger]
                                self.best_below(key, depth, c) ==> key_value(c) == key_value(best)
                        };
                    assert(child.candidate(key, include_key, deeper, best));
                    assert(key_value(c) == key_value(best));
                }
            } else {
                if right_pair is Some {
                    assert(key_value(c) == key_value(right_pair->Some_0.0@));
                } else {
                    let best = choose|best: Seq<u8>|
                        {
                            &&& #[trigger] child.best_above(key, deeper, best)
                            &&& self.best_above(key, depth, best)
                            &&& forall|c: Seq<u8>| #[trigger]
                                self.best_above(key, depth, c) ==> key_value(c) == key_value(best)
                        };
                    assert(child.candidate(key, include_key, deeper, best));
                    assert(key_value(c) == key_value(best));
                }
            }
        }
        // The answer itself is a candidate of the node.
        if found is Some {
            let k = found->Some_0.0@;
            if right_pair is Some && found == right_pair {
            } else if left_pair is Some && found == left_pair {
            } else {
                assert(found == inner);
                assert(child.candidate(key, include_key, deeper, k));
                self.lemma_child_slot(prefix, index, k);
                self.lemma_list_relations(key, prefix, k);
                if child.best_below(key, deeper, k) {
                    self.lemma_child_below(key, prefix, deeper, k);
                } else if child.best_above(key, deeper, k) {
                    self.lemma_child_above(key, prefix, deeper, k);
                }
            }
        }
    }
}

impl<const N: usize, V> Node<N, V> {
    /// Bytes that the subtree takes: those of each node itself, and for each
    /// stored pair those of its key and its value.
    pub open spec fn memory_size(self) -> nat
        decreases self,
    {
        vstd::layout::size_of::<Node<N, V>>() + match self {
            Node::Item(_) => vstd::layout::size_of::<[u8; N]>() + vstd::layout::size_of::<V>(),
            Node::List(children) => children.c0.memory_size() + children.c1.memory_size()
                + children.c2.memory_size() + children.c3.memory_size(),
            Node::Empty => 0,
        }
    }
}

impl<const N: usize, V: Copy> Node<N, V> {
    /// Bytes that the subtree takes.
    pub fn get_memory_size(&self) -> (bytes: usize)
        requires
            self.memory_size() <= usize::MAX,
        ensures
            bytes == self.memory_size(),
        decreases self,
    {
        let own = core::mem::size_of::<Node<N, V>>();
        match self {
            Node::Item(_) => own + core::mem::size_of::<[u8; N]>() + core::mem::size_of::<V>(),
            Node::List(children) => {
                let m0 = children.c0.get_memory_size();
                let m1 = children.c1.get_memory_size();
                let m2 = children.c2.get_memory_size();
                let m3 = children.c3.get_memory_size();
                own + m0 + m1 + m2 + m3
            },
            Node::Empty => own,
        }
    }
}

impl<const N: usize, V> Node<N, V> {
    /// A subtree holds finitely many keys.
    pub proof fn lemma_key_set_finite(self, depth: int)
        ensures
            self.key_set(depth).finite(),
        decreases self,
    {
        let keys = self.key_set(depth);
        match self {
            Node::Item(entry) => {
                let one = Set::<Seq<u8>>::empty().insert(entry.0@);
                assert(keys.subset_of(one));
                vstd::set_lib::lemma_len_subset(keys, one);
            },
            Node::Empty => {
                assert(keys =~= Set::empty());
            },
            Node::List(children) => {
                children.c0.lemma_key_set_finite(depth + 1);
                children.c1.lemma_key_set_finite(depth + 1);
                children.c2.lemma_key_set_finite(depth + 1);
                children.c3.lemma_key_set_finite(depth + 1);
                let all = children.c0.key_set(depth + 1) + children.c1.key_set(depth + 1)
                    + children.c2.key_set(depth + 1) + children.c3.key_set(depth + 1);
                assert(keys.subset_of(all));
                vstd::set_lib::lemma_len_subset(keys, all);
            },
        }
    }
}

} // verus!
