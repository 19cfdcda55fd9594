//! The depth of a trie as a function of the keys it stores.
use crate::key::{lemma_shared_exact, nibble, shared_prefix};
use crate::node::{lemma_prefix_agree, Node};
use vstd::prelude::*;

verus! {

/// `shared` is the greatest length of a prefix that two different keys of the
/// set have in common: the depth at which the last two keys of a trie part.
pub open spec fn deepest_fork(keys: Set<Seq<u8>>, shared: int) -> bool {
    &&& exists|a: Seq<u8>, b: Seq<u8>|
        keys.contains(a) && keys.contains(b) && a != b && #[trigger] shared_prefix(a, b) == shared
    &&& forall|a: Seq<u8>, b: Seq<u8>|
        keys.contains(a) && keys.contains(b) && a != b ==> #[trigger] shared_prefix(a, b) <= shared
}

impl<const N: usize, V> Node<N, V> {
    /// Two keys under different children of a valid interior node share exactly
    /// the path to that node.
    pub proof fn lemma_fork_here(self, prefix: Seq<int>, a: Seq<u8>, b: Seq<u8>)
        requires
            self is List,
            self.wf(prefix),
            self.holds(a, prefix.len() as int),
            self.holds(b, prefix.len() as int),
            nibble(a, prefix.len() as int) != nibble(b, prefix.len() as int),
        ensures
            shared_prefix(a, b) == prefix.len(),
    {
        self.lemma_found_has_prefix(a, prefix);
        self.lemma_found_has_prefix(b, prefix);
        lemma_prefix_agree(a, b, prefix);
        lemma_shared_exact(a, b, prefix.len() as int);
    }

    /// The height of a valid subtree follows from the keys it stores: none
    /// for no key, one for one key, and otherwise two more than the part of the
    /// deepest fork that lies below the path to the subtree.
    pub proof fn lemma_height(self, prefix: Seq<int>)
        requires
            self.wf(prefix),
        ensures
            self is Empty ==> self.height() == 0 && self.key_set(prefix.len() as int)
                == Set::<Seq<u8>>::empty(),
            self is Item ==> self.height() == 1 && self.key_set(prefix.len() as int)
                == Set::<Seq<u8>>::empty().insert(self->Item_0.0@),
            self is List ==> deepest_fork(
                self.key_set(prefix.len() as int),
                prefix.len() + self.height() - 2,
            ),
        decreases self,
    {
        let depth = prefix.len() as int;
        let keys = self.key_set(depth);
        match self {
            Node::Empty => {
                assert(keys =~= Set::<Seq<u8>>::empty());
            },
            Node::Item(entry) => {
                assert(keys =~= Set::<Seq<u8>>::empty().insert(entry.0@));
            },
            Node::List(children) => {
                let deeper = depth + 1;
                let top = depth + self.height() - 2;
                assert forall|i: int| 0 <= i < 4 implies {
                    let child = #[trigger] children.at(i);
                    &&& child.wf(prefix.push(i))
                    &&& child.height() <= self.height() - 1
                    &&& child is Empty ==> child.height() == 0 && child.key_set(deeper)
                        == Set::<Seq<u8>>::empty()
                    &&& child is Item ==> child.height() == 1 && child.key_set(deeper)
                        == Set::<Seq<u8>>::empty().insert(child->Item_0.0@)
                    &&& child is List ==> deepest_fork(child.key_set(deeper), deeper
                        + child.height() - 2)
                } by {
                    self.lemma_wf_child(prefix, i);
                    children.at(i).lemma_height(prefix.push(i));
                }
                // No two keys of the node share more than `top`.
                assert forall|a: Seq<u8>, b: Seq<u8>|
                    keys.contains(a) && keys.contains(b) && a != b implies #[trigger] shared_prefix(
                    a,
                    b,
                ) <= top by {
                    self.lemma_lookup_list(a, depth);
                    self.lemma_lookup_list(b, depth);
                    let i = nibble(a, depth);
                    let j = nibble(b, depth);
                    let child = children.at(i);
                    assert(child.holds(a, deeper));
                    assert(child.height() >= 1);
                    if i != j {
                        self.lemma_fork_here(prefix, a, b);
                    } else {
                        assert(child.key_set(deeper).contains(a));
                        assert(child.key_set(deeper).contains(b));
                    }
                }
                // Two keys of the node share `top`.
                let tallest = if children.c0.height() + 1 == self.height() {
                    0int
                } else if children.c1.height() + 1 == self.height() {
                    1int
                } else if children.c2.height() + 1 == self.height() {
                    2int
                } else {
                    3int
                };
                let child = children.at(tallest);
                assert(child.height() + 1 == self.height());
                if child is List {
                    let (a, b) = choose|a: Seq<u8>, b: Seq<u8>|
                        child.key_set(deeper).contains(a) && child.key_set(deeper).contains(b) && a
                            != b && #[trigger] shared_prefix(a, b) == top;
                    self.lemma_child_slot(prefix, tallest, a);
                    self.lemma_child_slot(prefix, tallest, b);
                    assert(keys.contains(a) && keys.contains(b));
                } else {
                    // Every child is a pair or empty, and two of them are pairs.
                    assert(self.height() <= 2);
                    assert(!(children.c0 is List) && !(children.c1 is List) && !(children.c2
                        is List) && !(children.c3 is List)) by {
                        assert(children.at(0) == children.c0 && children.at(1) == children.c1
                            && children.at(2) == children.c2 && children.at(3) == children.c3);
                        self.lemma_list_count(prefix);
                        if children.c0 is List {
                            children.c0.lemma_tall_list(prefix.push(0));
                        }
                        if children.c1 is List {
                            children.c1.lemma_tall_list(prefix.push(1));
                        }
                        if children.c2 is List {
                            children.c2.lemma_tall_list(prefix.push(2));
                        }
                        if children.c3 is List {
                            children.c3.lemma_tall_list(prefix.push(3));
                        }
                    }
                    let i = if children.c0 is Item {
                        0int
                    } else if children.c1 is Item {
                        1int
                    } else {
                        2int
                    };
                    let j = if children.c3 is Item {
                        3int
                    } else if children.c2 is Item {
                        2int
                    } else {
                        1int
                    };
                    assert(i != j && children.at(i) is Item && children.at(j) is Item);
                    let a = children.at(i)->Item_0.0@;
                    let b = children.at(j)->Item_0.0@;
                    assert(children.at(i).key_set(deeper).contains(a));
                    assert(children.at(j).key_set(deeper).contains(b));
                    self.lemma_child_slot(prefix, i, a);
                    self.lemma_child_slot(prefix, j, b);
                    self.lemma_fork_here(prefix, a, b);
                    assert(keys.contains(a) && keys.contains(b) && a != b);
                    assert(shared_prefix(a, b) == top);
                }
            },
        }
    }

    /// A valid interior node has a height of two or more.
    pub proof fn lemma_tall_list(self, prefix: Seq<int>)
        requires
            self is List,
            self.wf(prefix),
        ensures
            self.height() >= 2,
    {
        let children = self->List_0;
        assert(children.c0 is Item ==> children.c0.height() == 1);
        assert(children.c1 is Item ==> children.c1.height() == 1);
        assert(children.c2 is Item ==> children.c2.height() == 1);
        assert(children.c3 is Item ==> children.c3.height() == 1);
        assert(children.c0 is List ==> children.c0.height() >= 1);
        assert(children.c1 is List ==> children.c1.height() >= 1);
        assert(children.c2 is List ==> children.c2.height() >= 1);
        assert(children.c3 is List ==> children.c3.height() >= 1);
    }
}

} // verus!
