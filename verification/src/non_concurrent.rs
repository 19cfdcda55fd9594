//! The map for one owner, and what its operations do to the map they work on.
use crate::key::key_value;
use crate::nearest::{
    far_side_nearer, is_eligible, is_greatest, is_least, is_longest_match, is_nearest,
    is_nearest_of_all,
};
use crate::node::Node;
use crate::shape::deepest_fork;
use crate::InsertOrUpdateResult;
use vstd::prelude::*;

verus! {

/// A map from `N`-byte keys to values, kept as a four-way radix trie that is owned
/// and changed by one caller at a time.
#[derive(Debug)]
pub struct TrieMap<const N: usize, V> {
    root: Node<N, V>,
}

impl<const N: usize, V> View for TrieMap<N, V> {
    type V = Map<Seq<u8>, V>;

    closed spec fn view(&self) -> Map<Seq<u8>, V> {
        self.root.entries(0)
    }
}

impl<const N: usize, V> TrieMap<N, V> {
    #[verifier::type_invariant]
    spec fn valid(self) -> bool {
        &&& self.root.wf(Seq::empty())
        &&& 4 * N < usize::MAX
    }

    /// Bytes that the map takes in memory: those of each node of its trie, and
    /// for each stored pair those of its key and its value.
    pub closed spec fn memory_size(self) -> nat {
        self.root.memory_size()
    }

    /// Every key of the map has `N` bytes, and there are finitely many of them.
    pub proof fn lemma_view_keys(self)
        ensures
            forall|k: Seq<u8>| self@.contains_key(k) ==> k.len() == N,
            self@.dom().finite(),
    {
        self.root.lemma_key_set_finite(0);
        assert(self@.dom() =~= self.root.key_set(0));
    }
}

impl<const N: usize, V: Copy> TrieMap<N, V> {
    /// An empty map.
    pub fn new() -> (map: Self)
        requires
            4 * N < usize::MAX,
        ensures
            map@ == Map::<Seq<u8>, V>::empty(),
    {
        let map = TrieMap { root: Node::Empty };
        assert(map@ =~= Map::<Seq<u8>, V>::empty());
        map
    }

    /// Forgets every pair.
    pub fn clear(&mut self)
        ensures
            final(self)@ == Map::<Seq<u8>, V>::empty(),
    {
        proof {
            use_type_invariant(&*self);
        }
        self.root = Node::Empty;
        assert(self@ =~= Map::<Seq<u8>, V>::empty());
    }

    /// The value stored under `key`, if there is one.
    pub fn get(&self, key: [u8; N]) -> (found: Option<V>)
        ensures
            found == get_effect(self@, key@),
    {
        proof {
            use_type_invariant(self);
        }
        self.root.get_internal(key, 0, Ghost(Seq::empty()))
    }

    /// Stores `value` under `key`. A key that is already there keeps its old value
    /// if `should_update(old, new)` says no. A rule that panics leaves the map empty.
    pub fn insert_or_update_if(
        &mut self,
        key: [u8; N],
        value: V,
        should_update: &impl Fn(&V, &V) -> bool,
    ) -> (result: InsertOrUpdateResult)
        requires
            forall|a: &V, b: &V| should_update.requires((a, b)),
        ensures
            old(self)@.contains_key(key@) ==> should_update.ensures(
                (&old(self)@[key@], &value),
                result != InsertOrUpdateResult::Neither,
            ),
            insert_effect(
                old(self)@,
                key@,
                value,
                result != InsertOrUpdateResult::Neither,
                result,
                final(self)@,
            ),
    {
        proof {
            use_type_invariant(&*self);
        }
        let mut root = Node::Empty;
        core::mem::swap(&mut self.root, &mut root);
        let result = root.insert_or_update_if_internal(
            key,
            value,
            should_update,
            0,
            Ghost(Seq::empty()),
        );
        self.root = root;
        proof {
            if result == InsertOrUpdateResult::Neither {
                assert(self@ =~= old(self)@);
            } else {
                assert(self@ =~= old(self)@.insert(key@, value));
            }
        }
        result
    }

    /// Stores `value` under `key`, replacing any value that was there.
    pub fn insert_or_update(&mut self, key: [u8; N], value: V) -> (result: InsertOrUpdateResult)
        ensures
            insert_effect(old(self)@, key@, value, true, result, final(self)@),
    {
        let always = |_prior: &V, _next: &V| -> (yes: bool)
            ensures
                yes,
            { true };
        self.insert_or_update_if(key, value, &always)
    }

    /// Takes `key` out of the map if it is there and `should_remove` agrees to
    /// part with its value. Says whether a pair left the map. A rule that panics
    /// leaves the map empty.
    pub fn remove_if(&mut self, key: [u8; N], should_remove: &impl Fn(&V) -> bool) -> (removed: bool)
        requires
            forall|v: &V| should_remove.requires((v,)),
        ensures
            !old(self)@.contains_key(key@) ==> !removed,
            old(self)@.contains_key(key@) ==> should_remove.ensures((&old(self)@[key@],), removed),
            final(self)@ == remove_effect(old(self)@, key@, removed),
    {
        proof {
            use_type_invariant(&*self);
        }
        let mut root = Node::Empty;
        core::mem::swap(&mut self.root, &mut root);
        let removed = root.remove_if_internal(key, should_remove, 0, Ghost(Seq::empty()));
        self.root = root;
        proof {
            if removed {
                assert(self@ =~= old(self)@.remove(key@));
            } else {
                assert(self@ =~= old(self)@);
            }
        }
        removed
    }

    /// Takes `key` out of the map.
    pub fn remove(&mut self, key: [u8; N])
        ensures
            final(self)@ == remove_effect(old(self)@, key@, true),
    {
        let always = |_value: &V| -> (yes: bool)
            ensures
                yes,
            { true };
        let removed = self.remove_if(key, &always);
        proof {
            if !removed {
                assert(self@ =~= old(self)@.remove(key@));
            }
        }
    }

    /// Bytes that the map takes in memory.
    pub fn get_memory_size(&self) -> (bytes: usize)
        requires
            self.memory_size() <= usize::MAX,
        ensures
            bytes == self.memory_size(),
    {
        self.root.get_memory_size()
    }

    /// Number of pairs in the map.
    pub fn len(&self) -> (n: usize)
        requires
            self@.len() <= usize::MAX,
        ensures
            n == self@.len(),
            self@.dom().finite(),
    {
        proof {
            use_type_invariant(self);
            self.root.lemma_key_set_size(Seq::empty());
            assert(self@.dom() =~= self.root.key_set(0));
        }
        self.root.len_internal()
    }

    /// Whether the map holds no pair.
    pub fn is_empty(&self) -> (empty: bool)
        ensures
            empty == (self@ == Map::<Seq<u8>, V>::empty()),
    {
        proof {
            use_type_invariant(self);
            self.root.lemma_key_set_size(Seq::empty());
            assert(self@.dom() =~= self.root.key_set(0));
            if self.root.count() == 0 {
                assert(self@.dom().len() == 0);
                assert(self@.dom() =~= Set::empty());
                assert(self@ =~= Map::<Seq<u8>, V>::empty());
            }
        }
        self.root.is_empty_internal()
    }

    /// Number of levels of the trie: none for an empty map, one for a single
    /// pair, and otherwise two more than the longest prefix, counted in two-bit
    /// groups, that two different keys of the map share.
    pub fn depth(&self) -> (levels: usize)
        ensures
            self@.dom().finite(),
            depth_effect(self@.dom(), levels as int),
    {
        proof {
            use_type_invariant(self);
            let top = Seq::<int>::empty();
            self.root.lemma_key_set_size(top);
            assert(self@.dom() =~= self.root.key_set(0));
            self.root.lemma_height(top);
            if self.root is List {
                self.root.lemma_list_count(top);
            }
            assert(self.root is Item ==> self.root.count() == 1);
            assert(self.root is Empty ==> self.root.count() == 0);
        }
        self.root.depth_internal(Ghost(Seq::empty()))
    }

    /// The pair with the smallest key, read as a big-endian number.
    pub fn get_min(&self) -> (found: Option<([u8; N], V)>)
        ensures
            found is None <==> self@ == Map::<Seq<u8>, V>::empty(),
            found is Some ==> self@.contains_key(found->Some_0.0@) && self@[found->Some_0.0@]
                == found->Some_0.1,
            found is Some ==> is_least(self@.dom(), found->Some_0.0@),
    {
        proof {
            use_type_invariant(self);
        }
        let found = self.root.get_min_internal(Ghost(Seq::empty()));
        proof {
            if found is None {
                assert(self@ =~= Map::<Seq<u8>, V>::empty());
            } else {
                assert(self.root.holds(found->Some_0.0@, 0));
                assert(self@.contains_key(found->Some_0.0@));
            }
        }
        found
    }

    /// The pair with the largest key, read as a big-endian number.
    pub fn get_max(&self) -> (found: Option<([u8; N], V)>)
        ensures
            found is None <==> self@ == Map::<Seq<u8>, V>::empty(),
            found is Some ==> self@.contains_key(found->Some_0.0@) && self@[found->Some_0.0@]
                == found->Some_0.1,
            found is Some ==> is_greatest(self@.dom(), found->Some_0.0@),
    {
        proof {
            use_type_invariant(self);
        }
        let found = self.root.get_max_internal(Ghost(Seq::empty()));
        proof {
            if found is None {
                assert(self@ =~= Map::<Seq<u8>, V>::empty());
            } else {
                assert(self.root.holds(found->Some_0.0@, 0));
                assert(self@.contains_key(found->Some_0.0@));
            }
        }
        found
    }

    /// The stored pair whose key shares the longest prefix with `key`, counted in
    /// two-bit groups. With `include_key` a stored `key` is its own answer;
    /// without it `key` is passed over. Among keys that share equally much, the
    /// order in which the trie tries the sibling slots decides, and under one
    /// slot the greatest key.
    pub fn get_or_closest_by_key_leading_zeroes(&self, key: [u8; N], include_key: bool) -> (found:
        Option<([u8; N], V)>)
        ensures
            is_longest_match(self@, key@, include_key, found),
    {
        proof {
            use_type_invariant(self);
        }
        self.root.get_or_closest_by_key_leading_zeroes_internal(
            key,
            include_key,
            0,
            Ghost(Seq::empty()),
        )
    }

    /// The stored pair whose key is nearest to `key` on the circle of all keys.
    /// With `include_key` a stored `key` is its own answer; without it `key` is
    /// passed over. The search compares the key at the end of the path of `key`
    /// with the best key on either side of it; with `loop_around` it also looks
    /// at the far end of the map where one side of `key` is empty.
    pub fn get_or_closest_by_key(&self, key: [u8; N], include_key: bool, loop_around: bool) -> (found:
        Option<([u8; N], V)>)
        ensures
            is_nearest(self@, key@, include_key, loop_around, found),
            found is None <==> forall|k: Seq<u8>| !is_eligible(self@.dom(), key@, include_key, k),
            found is Some && (loop_around || !far_side_nearer(self@.dom(), key@, include_key))
                ==> is_nearest_of_all(self@.dom(), key@, include_key, found->Some_0.0@),
    {
        proof {
            use_type_invariant(self);
        }
        let found = self.root.get_or_closest_by_key(key, include_key, loop_around);
        assert(self@ == self.root.entries(0));
        found
    }
}

/// A set of `N`-byte keys: a map that stores nothing beside its keys.
pub type TrieSet<const N: usize> = TrieMap<N, ()>;

/// What a conditional insert does to a map: a new key is stored; a key that
/// is there takes the value if the rule accepts it, and else nothing changes.
pub open spec fn insert_effect<V>(
    before: Map<Seq<u8>, V>,
    key: Seq<u8>,
    value: V,
    accepts: bool,
    result: InsertOrUpdateResult,
    after: Map<Seq<u8>, V>,
) -> bool {
    if !before.contains_key(key) {
        result == InsertOrUpdateResult::Inserted && after == before.insert(key, value)
    } else if accepts {
        result == InsertOrUpdateResult::Updated && after == before.insert(key, value)
    } else {
        result == InsertOrUpdateResult::Neither && after == before
    }
}

/// What a removal leaves of a map.
pub open spec fn remove_effect<V>(before: Map<Seq<u8>, V>, key: Seq<u8>, removed: bool) -> Map<
    Seq<u8>,
    V,
> {
    if removed {
        before.remove(key)
    } else {
        before
    }
}

/// What a lookup finds in a map.
pub open spec fn get_effect<V>(map: Map<Seq<u8>, V>, key: Seq<u8>) -> Option<V> {
    if map.contains_key(key) {
        Some(map[key])
    } else {
        None
    }
}

/// The map after the pairs of `writes` were stored in it one after another.
pub open spec fn after_writes<V>(map: Map<Seq<u8>, V>, writes: Seq<(Seq<u8>, V)>) -> Map<Seq<u8>, V>
    decreases writes.len(),
{
    if writes.len() == 0 {
        map
    } else {
        after_writes(map, writes.drop_last()).insert(writes.last().0, writes.last().1)
    }
}

/// `levels` is the depth of the trie that holds `keys`: none for no key, one
/// for one key, and otherwise two more than the deepest fork.
pub open spec fn depth_effect(keys: Set<Seq<u8>>, levels: int) -> bool {
    &&& keys.len() == 0 ==> levels == 0
    &&& keys.len() == 1 ==> levels == 1
    &&& keys.len() >= 2 ==> deepest_fork(keys, levels - 2)
}

/// What a conditional insert returns and leaves behind follows from the map,
/// the pair and the answer of the rule alone: two tries that hold the same map,
/// however they came by it, answer alike.
pub proof fn lemma_insert_effect_unique<V>(
    before: Map<Seq<u8>, V>,
    key: Seq<u8>,
    value: V,
    accepts: bool,
    result_1: InsertOrUpdateResult,
    after_1: Map<Seq<u8>, V>,
    result_2: InsertOrUpdateResult,
    after_2: Map<Seq<u8>, V>,
)
    requires
        insert_effect(before, key, value, accepts, result_1, after_1),
        insert_effect(before, key, value, accepts, result_2, after_2),
    ensures
        result_1 == result_2,
        after_1 == after_2,
{
}

/// After any run of unconditional inserts a lookup finds the value that was
/// stored last under its key, and what the map held before where the run did
/// not touch the key.
pub proof fn lemma_get_after_writes<V>(
    map: Map<Seq<u8>, V>,
    writes: Seq<(Seq<u8>, V)>,
    key: Seq<u8>,
)
    ensures
        (forall|i: int| 0 <= i < writes.len() ==> writes[i].0 != key) ==> get_effect(
            after_writes(map, writes),
            key,
        ) == get_effect(map, key),
        forall|i: int|
            0 <= i < writes.len() && writes[i].0 == key && (forall|j: int|
                i < j < writes.len() ==> writes[j].0 != key) ==> get_effect(
                after_writes(map, writes),
                key,
            ) == Some(writes[i].1),
    decreases writes.len(),
{
    if writes.len() > 0 {
        let earlier = writes.drop_last();
        lemma_get_after_writes(map, earlier, key);
        assert forall|i: int|
            0 <= i < writes.len() && writes[i].0 == key && (forall|j: int|
                i < j < writes.len() ==> writes[j].0 != key) implies get_effect(
            after_writes(map, writes),
            key,
        ) == Some(writes[i].1) by {
            if i < writes.len() - 1 {
                assert(earlier[i] == writes[i]);
                assert forall|j: int| i < j < earlier.len() implies earlier[j].0 != key by {
                    assert(earlier[j] == writes[j]);
                }
            }
        }
        if forall|i: int| 0 <= i < writes.len() ==> writes[i].0 != key {
            assert forall|i: int| 0 <= i < earlier.len() implies earlier[i].0 != key by {
                assert(earlier[i] == writes[i]);
            }
        }
    }
}

/// Storing pairs with different keys, none of them in the map, one after
/// another: each key is new when its turn comes, so that each insert reports
/// an insertion, and the map grows by as many pairs as were stored.
pub proof fn lemma_distinct_writes<V>(map: Map<Seq<u8>, V>, writes: Seq<(Seq<u8>, V)>)
    requires
        map.dom().finite(),
        forall|i: int| 0 <= i < writes.len() ==> !map.contains_key(writes[i].0),
        forall|i: int, j: int| 0 <= i < j < writes.len() ==> writes[i].0 != writes[j].0,
    ensures
        after_writes(map, writes).dom().finite(),
        after_writes(map, writes).len() == map.len() + writes.len(),
        forall|k: Seq<u8>|
            after_writes(map, writes).contains_key(k) <==> map.contains_key(k) || exists|i: int|
                0 <= i < writes.len() && writes[i].0 == k,
        forall|i: int|
            0 <= i < writes.len() ==> !after_writes(map, #[trigger] writes.take(i)).contains_key(
                writes[i].0,
            ),
    decreases writes.len(),
{
    if writes.len() > 0 {
        let earlier = writes.drop_last();
        let last = writes.last();
        assert forall|i: int| 0 <= i < earlier.len() implies !map.contains_key(earlier[i].0) by {
            assert(earlier[i] == writes[i]);
        }
        assert forall|i: int, j: int| 0 <= i < j < earlier.len() implies earlier[i].0
            != earlier[j].0 by {
            assert(earlier[i] == writes[i] && earlier[j] == writes[j]);
        }
        lemma_distinct_writes(map, earlier);
        let before = after_writes(map, earlier);
        assert(!before.contains_key(last.0)) by {
            if before.contains_key(last.0) {
                let i = choose|i: int| 0 <= i < earlier.len() && earlier[i].0 == last.0;
                assert(earlier[i] == writes[i]);
            }
        }
        assert forall|k: Seq<u8>|
            after_writes(map, writes).contains_key(k) <==> map.contains_key(k) || exists|i: int|
                0 <= i < writes.len() && writes[i].0 == k by {
            if before.contains_key(k) && !map.contains_key(k) {
                let i = choose|i: int| 0 <= i < earlier.len() && earlier[i].0 == k;
                assert(earlier[i] == writes[i]);
            }
            if exists|i: int| 0 <= i < writes.len() && writes[i].0 == k {
                let i = choose|i: int| 0 <= i < writes.len() && writes[i].0 == k;
                if i < earlier.len() {
                    assert(earlier[i] == writes[i]);
                }
            }
        }
        assert forall|i: int| 0 <= i < writes.len() implies !after_writes(
            map,
            #[trigger] writes.take(i),
        ).contains_key(writes[i].0) by {
            if i < earlier.len() {
                assert(writes.take(i) =~= earlier.take(i));
                assert(earlier[i] == writes[i]);
            } else {
                assert(writes.take(i) =~= earlier);
            }
        }
    } else {
        assert(writes.take(0) =~= writes);
    }
}

/// Storing a pair again under a rule that always accepts reports an update
/// and leaves the map as it was.
pub proof fn lemma_same_pair_again<V>(
    map: Map<Seq<u8>, V>,
    key: Seq<u8>,
    value: V,
    first: InsertOrUpdateResult,
    between: Map<Seq<u8>, V>,
    second: InsertOrUpdateResult,
    after: Map<Seq<u8>, V>,
)
    requires
        insert_effect(map, key, value, true, first, between),
        insert_effect(between, key, value, true, second, after),
    ensures
        second == InsertOrUpdateResult::Updated,
        after == between,
        get_effect(after, key) == Some(value),
{
    assert(between.insert(key, value) =~= between);
}

/// Under a rule that never accepts, a new key is stored, and a second insert
/// under that key is declined and leaves the first value in place.
pub proof fn lemma_never_update<V>(
    map: Map<Seq<u8>, V>,
    key: Seq<u8>,
    value_1: V,
    value_2: V,
    first: InsertOrUpdateResult,
    between: Map<Seq<u8>, V>,
    second: InsertOrUpdateResult,
    after: Map<Seq<u8>, V>,
)
    requires
        !map.contains_key(key),
        insert_effect(map, key, value_1, false, first, between),
        insert_effect(between, key, value_2, false, second, after),
    ensures
        first == InsertOrUpdateResult::Inserted,
        second == InsertOrUpdateResult::Neither,
        get_effect(after, key) == Some(value_1),
{
}

/// A key that was stored and then removed is gone, and the map holds exactly
/// one pair fewer than before the removal.
pub proof fn lemma_remove_after_insert<V>(
    map: Map<Seq<u8>, V>,
    key: Seq<u8>,
    value: V,
    accepts: bool,
    result: InsertOrUpdateResult,
    between: Map<Seq<u8>, V>,
)
    requires
        map.dom().finite(),
        insert_effect(map, key, value, accepts, result, between),
    ensures
        get_effect(remove_effect(between, key, true), key) is None,
        remove_effect(between, key, true).len() + 1 == between.len(),
{
}

/// Whatever was stored and removed before, a map that is left with one key
/// has a trie of depth one: a single pair at the root.
pub proof fn lemma_single_key_depth<V>(
    map: Map<Seq<u8>, V>,
    key: Seq<u8>,
    rest: Map<Seq<u8>, V>,
    levels: int,
)
    requires
        map.dom().finite(),
        map.contains_key(key),
        rest == map.remove_keys(map.dom().remove(key)),
        depth_effect(rest.dom(), levels),
    ensures
        levels == 1,
{
    assert(rest.dom() =~= Set::<Seq<u8>>::empty().insert(key));
}

/// The smallest and the greatest key of a map bound every key of the map.
pub proof fn lemma_min_max_bound(keys: Set<Seq<u8>>, min: Seq<u8>, max: Seq<u8>, key: Seq<u8>)
    requires
        is_least(keys, min),
        is_greatest(keys, max),
        keys.contains(key),
    ensures
        key_value(min) <= key_value(key) <= key_value(max),
{
}

} // verus!
