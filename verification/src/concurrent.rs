//! The decisions of a traversal of a trie that threads share. The trie gives
//! each node a lock of its own; a traversal holds shared locks on its way down
//! and at most one exclusive lock at a time. Taking and releasing the locks is
//! left to the caller: each step here looks at what one node holds and says
//! what to do with it.
use crate::key::{agree, get_index, key_eq, nibble};
use crate::node::{has_prefix, lemma_prefix_agree, lemma_prefix_push, Node, Quad};
use crate::non_concurrent::{get_effect, insert_effect, remove_effect};
use crate::InsertOrUpdateResult;
use vstd::prelude::*;

verus! {

/// What a traversal sees of one node of a shared trie while it holds the lock
/// of that node: nothing, one pair, or the fact that the node has children.
pub enum Slot<const N: usize, V> {
    Empty,
    Item([u8; N], V),
    List,
}

/// What a traversal does next after it has looked at a node under a shared lock.
#[derive(Clone, Copy, PartialEq, Eq, Debug)]
pub enum Descent {
    /// Go on under a shared lock in the child with this index.
    Child(usize),
    /// The node is a leaf: let go of the shared lock and work on it under an exclusive one.
    Upgrade,
}

/// What an insert does to a node that it holds under an exclusive lock.
pub enum Exclusive<const N: usize, V> {
    /// The node got children in the meantime: let go and descend again.
    Retry,
    /// Replace what the node holds by this subtree and report the result.
    Write(Node<N, V>, InsertOrUpdateResult),
    /// Leave the node as it is: the update was declined.
    Keep,
}

/// The path that `key` takes through the first `depth` levels of a trie.
pub open spec fn path_of(key: Seq<u8>, depth: int) -> Seq<int> {
    Seq::new(depth as nat, |j: int| nibble(key, j))
}

impl<const N: usize, V> Slot<N, V> {
    /// The subtree that a leaf slot stands for.
    pub open spec fn leaf(self) -> Node<N, V> {
        match self {
            Slot::Item(key, value) => Node::Item(Box::new((key, value))),
            _ => Node::Empty,
        }
    }
}

/// Whether two keys agree on their first `depth` two-bit groups.
pub fn agree_to<const N: usize>(a: &[u8; N], b: &[u8; N], depth: usize) -> (same: bool)
    requires
        depth <= 4 * N,
    ensures
        same == agree(a@, b@, depth as int),
{
    let mut i: usize = 0;
    while i < depth
        invariant
            i <= depth <= 4 * N,
            agree(a@, b@, i as int),
        decreases depth - i,
    {
        if get_index(*a, i) != get_index(*b, i) {
            return false;
        }
        i += 1;
    }
    true
}

/// The step of a descent under a shared lock: at a node with children the
/// traversal goes on in the child that `key` selects at `depth`; at a leaf it stops.
pub fn shared_step<const N: usize, V>(slot: &Slot<N, V>, key: [u8; N], depth: usize) -> (step:
    Descent)
    requires
        *slot is List ==> depth / 4 < N,
    ensures
        *slot is List ==> step == Descent::Child(nibble(key@, depth as int) as usize) && nibble(
            key@,
            depth as int,
        ) < 4,
        !(*slot is List) ==> step == Descent::Upgrade,
{
    match slot {
        Slot::List => Descent::Child(get_index(key, depth)),
        _ => Descent::Upgrade,
    }
}

/// What a lookup returns at the leaf at which its descent ends.
pub fn get_step<const N: usize, V: Copy>(slot: &Slot<N, V>, key: [u8; N]) -> (found: Option<V>)
    requires
        !(*slot is List),
    ensures
        forall|depth: int| found == #[trigger] slot.leaf().lookup(key@, depth),
{
    match slot {
        Slot::Item(stored, value) => {
            if key_eq(stored, &key) {
                Some(*value)
            } else {
                None
            }
        },
        _ => None,
    }
}

/// The interior node that holds two pairs whose keys differ and agree on
/// their first `depth` two-bit groups.
pub fn deepen<const N: usize, V: Copy>(item_1: ([u8; N], V), item_2: ([u8; N], V), depth: usize) -> (node:
    Node<N, V>)
    requires
        item_1.0@ != item_2.0@,
        agree(item_1.0@, item_2.0@, depth as int),
        4 * N < usize::MAX,
    ensures
        node.wf(path_of(item_2.0@, depth as int)),
        node is List,
        node.count() == 2,
        forall|k: Seq<u8>| #[trigger]
            node.lookup(k, depth as int) == (if k == item_1.0@ {
                Some(item_1.1)
            } else if k == item_2.0@ {
                Some(item_2.1)
            } else {
                None
            }),
{
    let ghost path = path_of(item_2.0@, depth as int);
    proof {
        assert(has_prefix(item_2.0@, path));
        assert(has_prefix(item_1.0@, path));
    }
    Node::deepen_tree(item_1, item_2, depth, Ghost(path))
}

/// The step of an insert under an exclusive lock. An empty node takes the
/// pair; a node with the same key takes the value if `should_update` agrees;
/// a node with another key becomes an interior node over both pairs; a node
/// that got children in the meantime sends the traversal back.
pub fn insert_exclusive_step<const N: usize, V: Copy, F: Fn(&V, &V) -> bool>(
    slot: Slot<N, V>,
    key: [u8; N],
    value: V,
    should_update: &F,
    depth: usize,
) -> (step: Exclusive<N, V>)
    requires
        forall|a: &V, b: &V| should_update.requires((a, b)),
        slot is Item ==> agree(slot->Item_0@, key@, depth as int),
        4 * N < usize::MAX,
    ensures
        slot is List ==> step is Retry,
        slot is Empty ==> step == Exclusive::Write(
            Node::Item(Box::new((key, value))),
            InsertOrUpdateResult::Inserted,
        ),
        slot is Item && slot->Item_0@ == key@ ==> {
            ||| (step == Exclusive::Write(
                Node::Item(Box::new((key, value))),
                InsertOrUpdateResult::Updated,
            ) && should_update.ensures((&slot->Item_1, &value), true))
            ||| (step is Keep && should_update.ensures((&slot->Item_1, &value), false))
        },
        slot is Item && slot->Item_0@ != key@ ==> {
            &&& step is Write
            &&& step->Write_1 == InsertOrUpdateResult::Inserted
            &&& step->Write_0 is List
            &&& step->Write_0.wf(path_of(key@, depth as int))
            &&& forall|k: Seq<u8>| #[trigger]
                step->Write_0.lookup(k, depth as int) == (if k == key@ {
                    Some(value)
                } else {
                    slot.leaf().lookup(k, depth as int)
                })
        },
{
    match slot {
        Slot::List => Exclusive::Retry,
        Slot::Empty => Exclusive::Write(
            Node::Item(Box::new((key, value))),
            InsertOrUpdateResult::Inserted,
        ),
        Slot::Item(stored, prior) => {
            if key_eq(&stored, &key) {
                if should_update(&prior, &value) {
                    Exclusive::Write(
                        Node::Item(Box::new((key, value))),
                        InsertOrUpdateResult::Updated,
                    )
                } else {
                    Exclusive::Keep
                }
            } else {
                let node = deepen((stored, prior), (key, value), depth);
                Exclusive::Write(node, InsertOrUpdateResult::Inserted)
            }
        },
    }
}

/// The step of a removal at the leaf that it holds under an exclusive lock:
/// whether the leaf is to be emptied.
pub fn remove_exclusive_step<const N: usize, V: Copy, F: Fn(&V) -> bool>(
    slot: &Slot<N, V>,
    key: [u8; N],
    should_remove: &F,
) -> (clear: bool)
    requires
        forall|v: &V| should_remove.requires((v,)),
    ensures
        clear ==> *slot is Item && slot->Item_0@ == key@ && should_remove.ensures(
            (&slot->Item_1,),
            true,
        ),
        !clear && *slot is Item && slot->Item_0@ == key@ ==> should_remove.ensures(
            (&slot->Item_1,),
            false,
        ),
{
    match slot {
        Slot::Item(stored, value) => key_eq(stored, &key) && should_remove(value),
        _ => false,
    }
}

/// Number of slots among the first `upto` that hold a pair.
pub open spec fn items_in<const N: usize, V>(children: Seq<Slot<N, V>>, upto: int) -> int
    decreases upto,
{
    if upto <= 0 {
        0
    } else {
        items_in(children, upto - 1) + if children[upto - 1] is Item {
            1int
        } else {
            0int
        }
    }
}

/// None of the four children has children of its own and at most one holds a pair.
pub open spec fn prunable<const N: usize, V>(children: Seq<Slot<N, V>>) -> bool {
    &&& forall|i: int| 0 <= i < 4 ==> !(#[trigger] children[i] is List)
    &&& items_in(children, 4) <= 1
}

/// The step of a removal at an interior node on its way back up, under an
/// exclusive lock: if the four children stand for at most one key, the node
/// is replaced by the pair that is left, or by nothing.
pub fn prune_step<const N: usize, V: Copy>(children: &[Slot<N, V>; 4]) -> (replacement: Option<
    Slot<N, V>,
>)
    ensures
        replacement is Some <==> prunable(children@),
        replacement is Some ==> !(replacement->Some_0 is List),
        replacement is Some && replacement->Some_0 is Empty ==> forall|i: int|
            0 <= i < 4 ==> #[trigger] children@[i] is Empty,
        replacement is Some && replacement->Some_0 is Item ==> exists|i: int|
            0 <= i < 4 && #[trigger] children@[i] == replacement->Some_0,
{
    let mut found: Slot<N, V> = Slot::Empty;
    let mut seen: usize = 0;
    let mut i: usize = 0;
    while i < 4
        invariant
            i <= 4,
            seen <= i,
            seen == items_in(children@, i as int),
            forall|j: int| 0 <= j < i ==> !(#[trigger] children@[j] is List),
            seen == 0 ==> found is Empty && forall|j: int|
                0 <= j < i ==> #[trigger] children@[j] is Empty,
            seen >= 1 ==> found is Item && exists|j: int|
                0 <= j < i && #[trigger] children@[j] == found,
        decreases 4 - i,
    {
        match children[i] {
            Slot::List => {
                assert(!prunable(children@));
                return None;
            },
            Slot::Item(key, value) => {
                if seen == 0 {
                    found = Slot::Item(key, value);
                    assert(children@[i as int] == found);
                } else {
                    let ghost j = choose|j: int| 0 <= j < i && #[trigger] children@[j] == found;
                    assert(children@[j] == found);
                }
                seen += 1;
            },
            Slot::Empty => {
                if seen >= 1 {
                    let ghost j = choose|j: int| 0 <= j < i && #[trigger] children@[j] == found;
                    assert(children@[j] == found);
                }
            },
        }
        i += 1;
    }
    if seen <= 1 {
        Some(found)
    } else {
        None
    }
}

/// What a traversal sees of a node of a trie that no other thread works on.
pub fn slot_of<const N: usize, V: Copy>(node: &Node<N, V>) -> (slot: Slot<N, V>)
    ensures
        *node is List <==> slot is List,
        !(*node is List) ==> slot.leaf() == *node,
        *node is Empty <==> slot is Empty,
{
    match node {
        Node::Empty => Slot::Empty,
        Node::Item(pair) => Slot::Item(pair.0, pair.1),
        Node::List(_) => Slot::List,
    }
}

/// The slots of four children, as `prune_step` looks at them.
pub open spec fn slots_of<const N: usize, V>(children: Quad<N, V>, slots: Seq<Slot<N, V>>) -> bool {
    &&& slots.len() == 4
    &&& forall|i: int|
        0 <= i < 4 ==> {
            &&& (#[trigger] children.at(i)) is List <==> slots[i] is List
            &&& children.at(i) is Empty <==> slots[i] is Empty
            &&& !(children.at(i) is List) ==> slots[i].leaf() == children.at(i)
        }
}

/// Children whose slots can be pruned are collapsible, and the other way round.
pub proof fn lemma_prunable<const N: usize, V>(children: Quad<N, V>, slots: Seq<Slot<N, V>>)
    requires
        slots_of(children, slots),
    ensures
        prunable(slots) <==> children.collapsible(),
{
    assert(children.at(0) == children.c0 && children.at(1) == children.c1 && children.at(2)
        == children.c2 && children.at(3) == children.c3);
    assert(items_in(slots, 0) == 0);
    assert(items_in(slots, 1) == items_in(slots, 0) + if slots[0] is Item { 1int } else { 0int });
    assert(items_in(slots, 2) == items_in(slots, 1) + if slots[1] is Item { 1int } else { 0int });
    assert(items_in(slots, 3) == items_in(slots, 2) + if slots[2] is Item { 1int } else { 0int });
    assert(items_in(slots, 4) == items_in(slots, 3) + if slots[3] is Item { 1int } else { 0int });
    assert(slots[0] is Item <==> children.c0 is Item);
    assert(slots[1] is Item <==> children.c1 is Item);
    assert(slots[2] is Item <==> children.c2 is Item);
    assert(slots[3] is Item <==> children.c3 is Item);
}

impl<const N: usize, V: Copy> Node<N, V> {
    /// An insert as one thread carries it out when no other thread is at work:
    /// shared steps down to a leaf, and the exclusive step there.
    pub(crate) fn insert_by_steps<F: Fn(&V, &V) -> bool>(
        &mut self,
        key: [u8; N],
        value: V,
        should_update: &F,
        depth: usize,
        Ghost(prefix): Ghost<Seq<int>>,
    ) -> (result: InsertOrUpdateResult)
        requires
            old(self).wf(prefix),
            prefix.len() == depth,
            has_prefix(key@, prefix),
            4 * N < usize::MAX,
            forall|a: &V, b: &V| should_update.requires((a, b)),
        ensures
            final(self).wf(prefix),
            match old(self).lookup(key@, depth as int) {
                None => result == InsertOrUpdateResult::Inserted && final(self).lookup(
                    key@,
                    depth as int,
                ) == Some(value),
                Some(prior) => {
                    ||| (result == InsertOrUpdateResult::Updated && should_update.ensures(
                        (&prior, &value),
                        true,
                    ) && final(self).lookup(key@, depth as int) == Some(value))
                    ||| (result == InsertOrUpdateResult::Neither && should_update.ensures(
                        (&prior, &value),
                        false,
                    ) && *final(self) == *old(self))
                },
            },
            forall|k: Seq<u8>|
                k != key@ ==> #[trigger] final(self).lookup(k, depth as int) == old(self).lookup(
                    k,
                    depth as int,
                ),
            *old(self) is List ==> *final(self) is List,
            !(*final(self) is Empty),
        decreases 4 * N - depth,
    {
        let slot = slot_of(self);
        match shared_step(&slot, key, depth) {
            Descent::Child(index) => {
                match self {
                    Node::List(children) => {
                        let ghost before = **children;
                        proof {
                            old(self).lemma_lookup_list(key@, depth as int);
                            old(self).lemma_wf_child(prefix, index as int);
                            lemma_prefix_push(key@, prefix);
                        }
                        let result = children.child_mut(index).insert_by_steps(
                            key,
                            value,
                            should_update,
                            depth + 1,
                            Ghost(prefix.push(index as int)),
                        );
                        proof {
                            let after = **children;
                            assert(after.at(0) == after.c0 && after.at(1) == after.c1
                                && after.at(2) == after.c2 && after.at(3) == after.c3);
                            assert(before.at(0) == before.c0 && before.at(1) == before.c1
                                && before.at(2) == before.c2 && before.at(3) == before.c3);
                            assert forall|k: Seq<u8>| k != key@ implies #[trigger] Node::List(
                                *children,
                            ).lookup(k, depth as int) == old(self).lookup(k, depth as int) by {
                                let slot = nibble(k, depth as int);
                                let at = if 0 <= slot < 3 {
                                    slot
                                } else {
                                    3
                                };
                                assert(Node::List(*children).lookup(k, depth as int) == after.at(
                                    at,
                                ).lookup(k, depth + 1));
                                assert(old(self).lookup(k, depth as int) == before.at(at).lookup(
                                    k,
                                    depth + 1,
                                ));
                            }
                            if result == InsertOrUpdateResult::Neither {
                                assert(after.at(index as int) == before.at(index as int));
                                assert(after == before);
                            }
                        }
                        result
                    },
                    _ => vstd::pervasive::unreached(),
                }
            },
            Descent::Upgrade => {
                proof {
                    if slot is Item {
                        lemma_prefix_agree(slot->Item_0@, key@, prefix);
                    }
                    assert(path_of(key@, depth as int) =~= prefix);
                }
                match insert_exclusive_step(slot, key, value, should_update, depth) {
                    Exclusive::Write(subtree, result) => {
                        *self = subtree;
                        result
                    },
                    Exclusive::Keep => InsertOrUpdateResult::Neither,
                    Exclusive::Retry => vstd::pervasive::unreached(),
                }
            },
        }
    }

    /// A removal as one thread carries it out when no other thread is at work:
    /// shared steps down to a leaf, the exclusive step there, and a look at
    /// each interior node on the way back up to see whether it can be pruned.
    pub(crate) fn remove_by_steps<F: Fn(&V) -> bool>(
        &mut self,
        key: [u8; N],
        should_remove: &F,
        depth: usize,
        Ghost(prefix): Ghost<Seq<int>>,
    ) -> (removed: bool)
        requires
            old(self).wf(prefix),
            prefix.len() == depth,
            4 * N < usize::MAX,
            forall|v: &V| should_remove.requires((v,)),
        ensures
            final(self).wf(prefix),
            match old(self).lookup(key@, depth as int) {
                None => !removed,
                Some(prior) => should_remove.ensures((&prior,), removed),
            },
            removed ==> final(self).lookup(key@, depth as int) is None,
            !removed ==> *final(self) == *old(self),
            forall|k: Seq<u8>|
                k != key@ ==> #[trigger] final(self).lookup(k, depth as int) == old(self).lookup(
                    k,
                    depth as int,
                ),
        decreases 4 * N - depth,
    {
        let slot = slot_of(self);
        match shared_step(&slot, key, depth) {
            Descent::Child(index) => {
                match self {
                    Node::List(children) => {
                        let ghost before = **children;
                        proof {
                            old(self).lemma_lookup_list(key@, depth as int);
                            old(self).lemma_wf_child(prefix, index as int);
                        }
                        let removed = children.child_mut(index).remove_by_steps(
                            key,
                            should_remove,
                            depth + 1,
                            Ghost(prefix.push(index as int)),
                        );
                        let ghost after = **children;
                        let slots = [
                            slot_of(&children.c0),
                            slot_of(&children.c1),
                            slot_of(&children.c2),
                            slot_of(&children.c3),
                        ];
                        proof {
                            assert(after.at(0) == after.c0 && after.at(1) == after.c1
                                && after.at(2) == after.c2 && after.at(3) == after.c3);
                            assert(before.at(0) == before.c0 && before.at(1) == before.c1
                                && before.at(2) == before.c2 && before.at(3) == before.c3);
                            assert forall|k: Seq<u8>| k != key@ implies #[trigger] Node::List(
                                Box::new(after),
                            ).lookup(k, depth as int) == old(self).lookup(k, depth as int) by {
                                let slot = nibble(k, depth as int);
                                let at = if 0 <= slot < 3 {
                                    slot
                                } else {
                                    3
                                };
                                assert(Node::List(Box::new(after)).lookup(k, depth as int)
                                    == after.at(at).lookup(k, depth + 1));
                                assert(old(self).lookup(k, depth as int) == before.at(at).lookup(
                                    k,
                                    depth + 1,
                                ));
                            }
                            if !removed {
                                assert(after.at(index as int) == before.at(index as int));
                                assert(after == before);
                            } else {
                                assert(Node::List(Box::new(after)).lookup(key@, depth as int)
                                    is None);
                            }
                            assert(after.c0.wf(prefix.push(0)) && after.c1.wf(prefix.push(1))
                                && after.c2.wf(prefix.push(2)) && after.c3.wf(prefix.push(3)));
                            assert(slots_of(after, slots@));
                            lemma_prunable(after, slots@);
                        }
                        match prune_step(&slots) {
                            Some(replacement) => {
                                proof {
                                    Self::lemma_collapse(after, prefix);
                                    if replacement is Item {
                                        let i = choose|i: int|
                                            0 <= i < 4 && #[trigger] slots@[i] == replacement;
                                        assert(after.at(i) is Item);
                                        assert(after.collapsed() == after.at(i));
                                    } else {
                                        assert(after.at(0) is Empty && after.at(1) is Empty
                                            && after.at(2) is Empty && after.at(3) is Empty);
                                    }
                                }
                                match replacement {
                                    Slot::Item(stored, value) => {
                                        *self = Node::Item(Box::new((stored, value)));
                                    },
                                    _ => {
                                        *self = Node::Empty;
                                    },
                                }
                            },
                            None => {},
                        }
                        removed
                    },
                    _ => vstd::pervasive::unreached(),
                }
            },
            Descent::Upgrade => {
                if remove_exclusive_step(&slot, key, should_remove) {
                    *self = Node::Empty;
                    true
                } else {
                    false
                }
            },
        }
    }
}

/// Stores `value` under `key` in a trie that one thread has to itself, by the
/// steps of the shared trie. What it returns and what it leaves behind is what
/// the map for one owner returns and leaves behind.
pub fn insert_alone<const N: usize, V: Copy, F: Fn(&V, &V) -> bool>(
    root: &mut Node<N, V>,
    key: [u8; N],
    value: V,
    should_update: &F,
) -> (result: InsertOrUpdateResult)
    requires
        old(root).wf(Seq::empty()),
        4 * N < usize::MAX,
        forall|a: &V, b: &V| should_update.requires((a, b)),
    ensures
        final(root).wf(Seq::empty()),
        old(root).entries(0).contains_key(key@) ==> should_update.ensures(
            (&old(root).entries(0)[key@], &value),
            result != InsertOrUpdateResult::Neither,
        ),
        insert_effect(
            old(root).entries(0),
            key@,
            value,
            result != InsertOrUpdateResult::Neither,
            result,
            final(root).entries(0),
        ),
{
    let result = root.insert_by_steps(key, value, should_update, 0, Ghost(Seq::empty()));
    proof {
        if result == InsertOrUpdateResult::Neither {
            assert(root.entries(0) =~= old(root).entries(0));
        } else {
            assert(root.entries(0) =~= old(root).entries(0).insert(key@, value));
        }
    }
    result
}

/// Looks `key` up in a trie that one thread has to itself, by the steps of the
/// shared trie.
pub fn get_alone<const N: usize, V: Copy>(root: &Node<N, V>, key: [u8; N]) -> (found: Option<V>)
    requires
        root.wf(Seq::empty()),
        4 * N < usize::MAX,
    ensures
        found == get_effect(root.entries(0), key@),
{
    let mut node = root;
    let mut depth: usize = 0;
    let ghost mut prefix = Seq::<int>::empty();
    loop
        invariant
            node.wf(prefix),
            prefix.len() == depth,
            4 * N < usize::MAX,
            node.lookup(key@, depth as int) == root.lookup(key@, 0),
        decreases 4 * N - depth,
    {
        let slot = slot_of(node);
        match shared_step(&slot, key, depth) {
            Descent::Child(index) => {
                match node {
                    Node::List(children) => {
                        proof {
                            node.lemma_lookup_list(key@, depth as int);
                            node.lemma_wf_child(prefix, index as int);
                            prefix = prefix.push(index as int);
                        }
                        node = children.child(index);
                        depth = depth + 1;
                    },
                    _ => {
                        return vstd::pervasive::unreached();
                    },
                }
            },
            Descent::Upgrade => {
                return get_step(&slot, key);
            },
        }
    }
}

/// Takes `key` out of a trie that one thread has to itself, by the steps of
/// the shared trie.
pub fn remove_alone<const N: usize, V: Copy, F: Fn(&V) -> bool>(
    root: &mut Node<N, V>,
    key: [u8; N],
    should_remove: &F,
) -> (removed: bool)
    requires
        old(root).wf(Seq::empty()),
        4 * N < usize::MAX,
        forall|v: &V| should_remove.requires((v,)),
    ensures
        final(root).wf(Seq::empty()),
        !old(root).entries(0).contains_key(key@) ==> !removed,
        old(root).entries(0).contains_key(key@) ==> should_remove.ensures(
            (&old(root).entries(0)[key@],),
            removed,
        ),
        final(root).entries(0) == remove_effect(old(root).entries(0), key@, removed),
{
    let removed = root.remove_by_steps(key, should_remove, 0, Ghost(Seq::empty()));
    proof {
        if removed {
            assert(root.entries(0) =~= old(root).entries(0).remove(key@));
        } else {
            assert(root.entries(0) =~= old(root).entries(0));
        }
    }
    removed
}

} // verus!
