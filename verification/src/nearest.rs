//! What a search for the nearest key answers, stated over the set of stored
//! keys, and why the answer is the nearest key on the circle.
use crate::key::{
    cyclic_distance, key_value, lemma_key_value_bound, lemma_shared_at_least, lemma_shared_exact,
    lemma_shared_prefix, lemma_value_injective, nibble, shared_prefix,
};
use crate::key::{get_index, key_eq};
use crate::node::{closer, has_prefix, lemma_prefix_agree, lemma_prefix_push, Node};
use vstd::prelude::*;

verus! {

/// `k` is the one stored key that shares a longer prefix with `key` than every
/// other stored key: the key at which a descent along `key` ends.
pub open spec fn is_anchor(keys: Set<Seq<u8>>, key: Seq<u8>, k: Seq<u8>) -> bool {
    &&& keys.contains(k)
    &&& forall|o: Seq<u8>|
        keys.contains(o) && o != k ==> shared_prefix(key, o) < shared_prefix(key, k)
}

/// `k` is stored, is not the anchor of `key`, and is smaller than `key`.
pub open spec fn is_below(keys: Set<Seq<u8>>, key: Seq<u8>, k: Seq<u8>) -> bool {
    keys.contains(k) && !is_anchor(keys, key, k) && key_value(k) < key_value(key)
}

/// `k` is stored, is not the anchor of `key`, and is greater than `key`.
pub open spec fn is_above(keys: Set<Seq<u8>>, key: Seq<u8>, k: Seq<u8>) -> bool {
    keys.contains(k) && !is_anchor(keys, key, k) && key_value(k) > key_value(key)
}

/// `k` is the greatest of the keys below `key`.
pub open spec fn is_best_below(keys: Set<Seq<u8>>, key: Seq<u8>, k: Seq<u8>) -> bool {
    &&& is_below(keys, key, k)
    &&& forall|o: Seq<u8>| #[trigger] is_below(keys, key, o) ==> key_value(o) <= key_value(k)
}

/// `k` is the least of the keys above `key`.
pub open spec fn is_best_above(keys: Set<Seq<u8>>, key: Seq<u8>, k: Seq<u8>) -> bool {
    &&& is_above(keys, key, k)
    &&& forall|o: Seq<u8>| #[trigger] is_above(keys, key, o) ==> key_value(k) <= key_value(o)
}

/// `k` is the smallest stored key.
pub open spec fn is_least(keys: Set<Seq<u8>>, k: Seq<u8>) -> bool {
    keys.contains(k) && forall|o: Seq<u8>| keys.contains(o) ==> key_value(k) <= key_value(o)
}

/// `k` is the greatest stored key.
pub open spec fn is_greatest(keys: Set<Seq<u8>>, k: Seq<u8>) -> bool {
    keys.contains(k) && forall|o: Seq<u8>| keys.contains(o) ==> key_value(o) <= key_value(k)
}

/// `k` is one of the keys that a search without wrap-around compares: the anchor
/// of `key`, unless it is `key` itself and `key` is not wanted, the best key
/// below `key` and the best key above it.
pub open spec fn is_near_candidate(
    keys: Set<Seq<u8>>,
    key: Seq<u8>,
    include_key: bool,
    k: Seq<u8>,
) -> bool {
    ||| is_anchor(keys, key, k) && (include_key || k != key)
    ||| is_best_below(keys, key, k)
    ||| is_best_above(keys, key, k)
}

/// `k` is the key at the far end that a search with wrap-around adds where one
/// side of `key` is empty: the greatest key where nothing lies below `key`, the
/// smallest where nothing lies above.
pub open spec fn is_wrap_candidate(keys: Set<Seq<u8>>, key: Seq<u8>, k: Seq<u8>) -> bool {
    ||| (forall|o: Seq<u8>| !is_below(keys, key, o)) && (exists|o: Seq<u8>|
        is_above(keys, key, o)) && is_greatest(keys, k)
    ||| (forall|o: Seq<u8>| !is_above(keys, key, o)) && (exists|o: Seq<u8>|
        is_below(keys, key, o)) && is_least(keys, k)
}

/// `k` is one of the keys that a search compares.
pub open spec fn is_candidate(
    keys: Set<Seq<u8>>,
    key: Seq<u8>,
    include_key: bool,
    loop_around: bool,
    k: Seq<u8>,
) -> bool {
    is_near_candidate(keys, key, include_key, k) || (loop_around && is_wrap_candidate(keys, key, k))
}

/// `k` may be the answer to a search for `key`: it is stored, and it is not
/// `key` itself unless that is wanted.
pub open spec fn is_eligible(keys: Set<Seq<u8>>, key: Seq<u8>, include_key: bool, k: Seq<u8>) -> bool {
    keys.contains(k) && (include_key || k != key)
}

/// `found` is a candidate that no other candidate beats in cyclic distance to
/// `key`, with its value; or nothing, where no candidate exists.
pub open spec fn is_nearest<const N: usize, V>(
    map: Map<Seq<u8>, V>,
    key: Seq<u8>,
    include_key: bool,
    loop_around: bool,
    found: Option<([u8; N], V)>,
) -> bool {
    match found {
        None => forall|c: Seq<u8>| !#[trigger] is_candidate(
            map.dom(),
            key,
            include_key,
            loop_around,
            c,
        ),
        Some(pair) => {
            &&& is_candidate(map.dom(), key, include_key, loop_around, pair.0@)
            &&& map[pair.0@] == pair.1
            &&& forall|c: Seq<u8>| #[trigger]
                is_candidate(map.dom(), key, include_key, loop_around, c) ==> cyclic_distance(
                    key,
                    pair.0@,
                ) <= cyclic_distance(key, c)
        },
    }
}

impl<const N: usize, V> Node<N, V> {
    /// The key at which a descent along `key` ends is the anchor of `key` among
    /// the keys of the subtree, and nothing else is.
    pub proof fn lemma_path_key_anchor(self, key: Seq<u8>, prefix: Seq<int>, k: Seq<u8>)
        requires
            self.wf(prefix),
            key.len() == N,
            has_prefix(key, prefix),
        ensures
            self.path_key(key, prefix.len() as int) == Some(k) <==> is_anchor(
                self.key_set(prefix.len() as int),
                key,
                k,
            ),
        decreases self,
    {
        let depth = prefix.len() as int;
        let keys = self.key_set(depth);
        match self {
            Node::Item(entry) => {
                if k == entry.0@ {
                    assert(keys.contains(k));
                }
            },
            Node::Empty => {},
            Node::List(children) => {
                let index = nibble(key, depth);
                let deeper = depth + 1;
                self.lemma_lookup_list(key, depth);
                self.lemma_path_key_list(key, depth);
                self.lemma_wf_child(prefix, index);
                lemma_prefix_push(key, prefix);
                let child = children.at(index);
                let inner = child.key_set(deeper);
                child.lemma_path_key_anchor(key, prefix.push(index), k);
                // How far each key of the node shares a prefix with `key`.
                assert forall|o: Seq<u8>| keys.contains(o) implies (if nibble(o, depth) == index {
                    inner.contains(o) && shared_prefix(key, o) >= deeper
                } else {
                    !inner.contains(o) && shared_prefix(key, o) == depth
                }) by {
                    self.lemma_list_relations(key, prefix, o);
                    self.lemma_found_has_prefix(o, prefix);
                    lemma_prefix_agree(key, o, prefix);
                    if nibble(o, depth) == index {
                        child.lemma_found_has_prefix(o, prefix.push(index));
                        lemma_prefix_agree(key, o, prefix.push(index));
                        lemma_shared_at_least(key, o, deeper);
                    } else {
                        lemma_shared_exact(key, o, depth);
                    }
                }
                assert forall|o: Seq<u8>| inner.contains(o) implies keys.contains(o) && nibble(
                    o,
                    depth,
                ) == index by {
                    self.lemma_child_slot(prefix, index, o);
                }
                if is_anchor(keys, key, k) {
                    if exists|o: Seq<u8>| inner.contains(o) {
                        let o = choose|o: Seq<u8>| inner.contains(o);
                        assert(keys.contains(o));
                        assert(inner.contains(k));
                        assert(is_anchor(inner, key, k));
                    } else {
                        self.lemma_list_count(prefix);
                        self.lemma_key_set_size(prefix);
                        let rest = keys.remove(k);
                        assert(rest.len() >= 1);
                        vstd::set_lib::lemma_set_empty_equivalency_len(rest);
                        let o = choose|o: Seq<u8>| rest.contains(o);
                        assert(keys.contains(o) && o != k);
                        assert(!inner.contains(o) && !inner.contains(k));
                        assert(false);
                    }
                }
                if is_anchor(inner, key, k) {
                    assert(is_anchor(keys, key, k));
                }
            },
        }
    }
}

impl<const N: usize, V> Node<N, V> {
    /// At the root, the keys that the descent sets apart are those that the
    /// definitions over the set of stored keys set apart.
    pub proof fn lemma_root_candidates(self, key: Seq<u8>, include_key: bool)
        requires
            self.wf(Seq::empty()),
            key.len() == N,
        ensures
            forall|k: Seq<u8>| #[trigger]
                self.below(key, 0, k) <==> is_below(self.key_set(0), key, k),
            forall|k: Seq<u8>| #[trigger]
                self.above(key, 0, k) <==> is_above(self.key_set(0), key, k),
            forall|k: Seq<u8>| #[trigger]
                self.best_below(key, 0, k) <==> is_best_below(self.key_set(0), key, k),
            forall|k: Seq<u8>| #[trigger]
                self.best_above(key, 0, k) <==> is_best_above(self.key_set(0), key, k),
            forall|k: Seq<u8>| #[trigger]
                self.candidate(key, include_key, 0, k) <==> is_near_candidate(
                    self.key_set(0),
                    key,
                    include_key,
                    k,
                ),
    {
        let keys = self.key_set(0);
        let top = Seq::<int>::empty();
        assert forall|k: Seq<u8>|
            (self.path_key(key, 0) == Some(k) <==> is_anchor(keys, key, k)) && (self.off_path(
                key,
                0,
                k,
            ) <==> keys.contains(k) && !is_anchor(keys, key, k)) by {
            self.lemma_path_key_anchor(key, top, k);
        }
        assert forall|k: Seq<u8>| #[trigger] self.below(key, 0, k) <==> is_below(keys, key, k) by {
            self.lemma_path_key_anchor(key, top, k);
        }
        assert forall|k: Seq<u8>| #[trigger] self.above(key, 0, k) <==> is_above(keys, key, k) by {
            self.lemma_path_key_anchor(key, top, k);
        }
        assert forall|k: Seq<u8>| #[trigger]
            self.best_below(key, 0, k) <==> is_best_below(keys, key, k) by {
            if self.best_below(key, 0, k) {
                assert forall|o: Seq<u8>| #[trigger] is_below(keys, key, o) implies key_value(o)
                    <= key_value(k) by {
                    assert(self.below(key, 0, o));
                }
            }
            if is_best_below(keys, key, k) {
                assert forall|o: Seq<u8>| #[trigger] self.below(key, 0, o) implies key_value(o)
                    <= key_value(k) by {
                    assert(is_below(keys, key, o));
                }
            }
        }
        assert forall|k: Seq<u8>| #[trigger]
            self.best_above(key, 0, k) <==> is_best_above(keys, key, k) by {
            if self.best_above(key, 0, k) {
                assert forall|o: Seq<u8>| #[trigger] is_above(keys, key, o) implies key_value(k)
                    <= key_value(o) by {
                    assert(self.above(key, 0, o));
                }
            }
            if is_best_above(keys, key, k) {
                assert forall|o: Seq<u8>| #[trigger] self.above(key, 0, o) implies key_value(k)
                    <= key_value(o) by {
                    assert(is_above(keys, key, o));
                }
            }
        }
        assert forall|k: Seq<u8>| #[trigger]
            self.candidate(key, include_key, 0, k) <==> is_near_candidate(
                keys,
                key,
                include_key,
                k,
            ) by {
            self.lemma_path_key_anchor(key, top, k);
        }
    }
}

/// A stored key equal to `key` is the anchor of `key`.
pub proof fn lemma_key_is_anchor(keys: Set<Seq<u8>>, key: Seq<u8>)
    requires
        keys.contains(key),
        forall|k: Seq<u8>| keys.contains(k) ==> k.len() == key.len(),
    ensures
        is_anchor(keys, key, key),
{
    assert forall|o: Seq<u8>| keys.contains(o) && o != key implies shared_prefix(key, o)
        < shared_prefix(key, key) by {
        lemma_shared_prefix(key, o);
        lemma_shared_prefix(key, key);
    }
}

/// Every candidate of a search may be its answer.
pub proof fn lemma_candidate_eligible(
    keys: Set<Seq<u8>>,
    key: Seq<u8>,
    include_key: bool,
    loop_around: bool,
    c: Seq<u8>,
)
    requires
        is_candidate(keys, key, include_key, loop_around, c),
    ensures
        is_eligible(keys, key, include_key, c),
{
    if loop_around && is_wrap_candidate(keys, key, c) {
        if exists|o: Seq<u8>| is_above(keys, key, o) {
            let o = choose|o: Seq<u8>| is_above(keys, key, o);
            if is_greatest(keys, c) {
                assert(key_value(o) <= key_value(c));
            }
        }
        if exists|o: Seq<u8>| is_below(keys, key, o) {
            let o = choose|o: Seq<u8>| is_below(keys, key, o);
            if is_least(keys, c) {
                assert(key_value(c) <= key_value(o));
            }
        }
    }
}

/// Where a key may be the answer, the search has a candidate, provided each
/// occupied side of `key` has a best key.
pub proof fn lemma_candidate_exists(
    keys: Set<Seq<u8>>,
    key: Seq<u8>,
    include_key: bool,
    e: Seq<u8>,
)
    requires
        forall|k: Seq<u8>| keys.contains(k) ==> k.len() == key.len(),
        is_eligible(keys, key, include_key, e),
        (exists|k: Seq<u8>| is_below(keys, key, k)) ==> exists|k: Seq<u8>|
            is_best_below(keys, key, k),
        (exists|k: Seq<u8>| is_above(keys, key, k)) ==> exists|k: Seq<u8>|
            is_best_above(keys, key, k),
    ensures
        exists|c: Seq<u8>| is_near_candidate(keys, key, include_key, c),
{
    if is_anchor(keys, key, e) {
        assert(is_near_candidate(keys, key, include_key, e));
    } else {
        if e == key {
            lemma_key_is_anchor(keys, key);
        }
        if key_value(e) == key_value(key) {
            lemma_value_injective(e, key);
        }
        if key_value(e) < key_value(key) {
            assert(is_below(keys, key, e));
            let c = choose|k: Seq<u8>| is_best_below(keys, key, k);
            assert(is_near_candidate(keys, key, include_key, c));
        } else {
            assert(is_above(keys, key, e));
            let c = choose|k: Seq<u8>| is_best_above(keys, key, k);
            assert(is_near_candidate(keys, key, include_key, c));
        }
    }
}

/// A finite set of keys that is not empty has a greatest key.
pub proof fn lemma_greatest_exists(keys: Set<Seq<u8>>)
    requires
        keys.finite(),
        keys.len() > 0,
    ensures
        exists|k: Seq<u8>| is_greatest(keys, k),
    decreases keys.len(),
{
    let x = keys.choose();
    vstd::set_lib::lemma_set_empty_equivalency_len(keys);
    let rest = keys.remove(x);
    if rest.len() == 0 {
        vstd::set_lib::lemma_set_empty_equivalency_len(rest);
        assert forall|o: Seq<u8>| keys.contains(o) implies key_value(o) <= key_value(x) by {
            if o != x {
                assert(rest.contains(o));
            }
        }
        assert(is_greatest(keys, x));
    } else {
        lemma_greatest_exists(rest);
        let m = choose|k: Seq<u8>| is_greatest(rest, k);
        let top = if key_value(x) >= key_value(m) {
            x
        } else {
            m
        };
        assert forall|o: Seq<u8>| keys.contains(o) implies key_value(o) <= key_value(top) by {
            if o != x {
                assert(rest.contains(o));
            }
        }
        assert(is_greatest(keys, top));
    }
}

/// A finite set of keys that is not empty has a smallest key.
pub proof fn lemma_least_exists(keys: Set<Seq<u8>>)
    requires
        keys.finite(),
        keys.len() > 0,
    ensures
        exists|k: Seq<u8>| is_least(keys, k),
    decreases keys.len(),
{
    let x = keys.choose();
    vstd::set_lib::lemma_set_empty_equivalency_len(keys);
    let rest = keys.remove(x);
    if rest.len() == 0 {
        vstd::set_lib::lemma_set_empty_equivalency_len(rest);
        assert forall|o: Seq<u8>| keys.contains(o) implies key_value(x) <= key_value(o) by {
            if o != x {
                assert(rest.contains(o));
            }
        }
        assert(is_least(keys, x));
    } else {
        lemma_least_exists(rest);
        let m = choose|k: Seq<u8>| is_least(rest, k);
        let bottom = if key_value(x) <= key_value(m) {
            x
        } else {
            m
        };
        assert forall|o: Seq<u8>| keys.contains(o) implies key_value(bottom) <= key_value(o) by {
            if o != x {
                assert(rest.contains(o));
            }
        }
        assert(is_least(keys, bottom));
    }
}

/// Among finitely many keys, an occupied side of `key` has a best key.
pub proof fn lemma_best_exists(keys: Set<Seq<u8>>, key: Seq<u8>)
    requires
        keys.finite(),
    ensures
        (exists|k: Seq<u8>| is_below(keys, key, k)) ==> exists|k: Seq<u8>|
            is_best_below(keys, key, k),
        (exists|k: Seq<u8>| is_above(keys, key, k)) ==> exists|k: Seq<u8>|
            is_best_above(keys, key, k),
{
    if exists|k: Seq<u8>| is_below(keys, key, k) {
        let witness = choose|k: Seq<u8>| is_below(keys, key, k);
        let side = keys.filter(|k: Seq<u8>| is_below(keys, key, k));
        assert(side.contains(witness));
        vstd::set_lib::lemma_len_subset(side, keys);
        vstd::set_lib::lemma_set_empty_equivalency_len(side);
        lemma_greatest_exists(side);
        let best = choose|k: Seq<u8>| is_greatest(side, k);
        assert forall|o: Seq<u8>| #[trigger] is_below(keys, key, o) implies key_value(o)
            <= key_value(best) by {
            assert(side.contains(o));
        }
        assert(is_best_below(keys, key, best));
    }
    if exists|k: Seq<u8>| is_above(keys, key, k) {
        let witness = choose|k: Seq<u8>| is_above(keys, key, k);
        let side = keys.filter(|k: Seq<u8>| is_above(keys, key, k));
        assert(side.contains(witness));
        vstd::set_lib::lemma_len_subset(side, keys);
        vstd::set_lib::lemma_set_empty_equivalency_len(side);
        lemma_least_exists(side);
        let best = choose|k: Seq<u8>| is_least(side, k);
        assert forall|o: Seq<u8>| #[trigger] is_above(keys, key, o) implies key_value(best)
            <= key_value(o) by {
            assert(side.contains(o));
        }
        assert(is_best_above(keys, key, best));
    }
}

/// Every key that may be the answer lies on one side of `key`.
pub open spec fn one_sided(keys: Set<Seq<u8>>, key: Seq<u8>, include_key: bool) -> bool {
    ||| forall|e: Seq<u8>| #[trigger]
        is_eligible(keys, key, include_key, e) ==> key_value(e) < key_value(key)
    ||| forall|e: Seq<u8>| #[trigger]
        is_eligible(keys, key, include_key, e) ==> key_value(e) > key_value(key)
}

/// The keys lie on one side of `key`, and one of them is nearer to `key` the
/// other way round the circle than each key that a search without wrap-around
/// compares.
pub open spec fn far_side_nearer(keys: Set<Seq<u8>>, key: Seq<u8>, include_key: bool) -> bool {
    &&& one_sided(keys, key, include_key)
    &&& exists|far: Seq<u8>|
        {
            &&& #[trigger] is_eligible(keys, key, include_key, far)
            &&& forall|c: Seq<u8>| #[trigger]
                is_near_candidate(keys, key, include_key, c) ==> cyclic_distance(key, far)
                    < cyclic_distance(key, c)
        }
}

/// A key that may be the answer and is nearer than every key that a search
/// without wrap-around compares is nearer the other way round the circle, and
/// all keys lie on its side of `key`.
pub proof fn lemma_beaten_is_one_sided(
    keys: Set<Seq<u8>>,
    key: Seq<u8>,
    include_key: bool,
    e: Seq<u8>,
)
    requires
        keys.finite(),
        forall|k: Seq<u8>| keys.contains(k) ==> k.len() == key.len(),
        is_eligible(keys, key, include_key, e),
        forall|c: Seq<u8>| #[trigger]
            is_near_candidate(keys, key, include_key, c) ==> cyclic_distance(key, e)
                < cyclic_distance(key, c),
    ensures
        one_sided(keys, key, include_key),
{
    lemma_best_exists(keys, key);
    lemma_key_value_bound(key);
    lemma_key_value_bound(e);
    assert(!is_anchor(keys, key, e)) by {
        if is_anchor(keys, key, e) {
            assert(is_near_candidate(keys, key, include_key, e));
        }
    }
    if e == key {
        lemma_key_is_anchor(keys, key);
    }
    if key_value(e) == key_value(key) {
        lemma_value_injective(e, key);
    }
    if key_value(e) < key_value(key) {
        assert(is_below(keys, key, e));
        let best = choose|k: Seq<u8>| is_best_below(keys, key, k);
        lemma_key_value_bound(best);
        assert(is_near_candidate(keys, key, include_key, best));
        assert forall|o: Seq<u8>| #[trigger]
            is_eligible(keys, key, include_key, o) implies key_value(o) < key_value(key) by {
            lemma_key_value_bound(o);
            if key_value(o) == key_value(key) {
                lemma_value_injective(o, key);
                lemma_key_is_anchor(keys, key);
                assert(is_near_candidate(keys, key, include_key, key));
            } else if key_value(o) > key_value(key) {
                if is_anchor(keys, key, o) {
                    assert(is_near_candidate(keys, key, include_key, o));
                } else {
                    assert(is_above(keys, key, o));
                    let up = choose|k: Seq<u8>| is_best_above(keys, key, k);
                    lemma_key_value_bound(up);
                    assert(is_near_candidate(keys, key, include_key, up));
                }
            }
        }
    } else {
        assert(is_above(keys, key, e));
        let best = choose|k: Seq<u8>| is_best_above(keys, key, k);
        lemma_key_value_bound(best);
        assert(is_near_candidate(keys, key, include_key, best));
        assert forall|o: Seq<u8>| #[trigger]
            is_eligible(keys, key, include_key, o) implies key_value(o) > key_value(key) by {
            lemma_key_value_bound(o);
            if key_value(o) == key_value(key) {
                lemma_value_injective(o, key);
                lemma_key_is_anchor(keys, key);
                assert(is_near_candidate(keys, key, include_key, key));
            } else if key_value(o) < key_value(key) {
                if is_anchor(keys, key, o) {
                    assert(is_near_candidate(keys, key, include_key, o));
                } else {
                    assert(is_below(keys, key, o));
                    let down = choose|k: Seq<u8>| is_best_below(keys, key, k);
                    lemma_key_value_bound(down);
                    assert(is_near_candidate(keys, key, include_key, down));
                }
            }
        }
    }
}

/// `k` is as near to `key` on the circle as any key that may be the answer.
pub open spec fn is_nearest_of_all(
    keys: Set<Seq<u8>>,
    key: Seq<u8>,
    include_key: bool,
    k: Seq<u8>,
) -> bool {
    forall|e: Seq<u8>| #[trigger]
        is_eligible(keys, key, include_key, e) ==> cyclic_distance(key, k) <= cyclic_distance(
            key,
            e,
        )
}

/// A search without wrap-around answers with a stored key that is as near to
/// `key` on the circle as any key that may be the answer, unless all keys lie
/// on one side of `key` and the far end of them is nearer the other way round.
pub proof fn lemma_nearest_without_wrap<const N: usize, V>(
    map: Map<Seq<u8>, V>,
    key: Seq<u8>,
    include_key: bool,
    found: Option<([u8; N], V)>,
    e: Seq<u8>,
)
    requires
        map.dom().finite(),
        forall|k: Seq<u8>| map.contains_key(k) ==> k.len() == key.len(),
        is_nearest(map, key, include_key, false, found),
        !far_side_nearer(map.dom(), key, include_key),
        is_eligible(map.dom(), key, include_key, e),
    ensures
        found is Some,
        is_eligible(map.dom(), key, include_key, found->Some_0.0@),
        cyclic_distance(key, found->Some_0.0@) <= cyclic_distance(key, e),
{
    let keys = map.dom();
    lemma_best_exists(keys, key);
    lemma_candidate_exists(keys, key, include_key, e);
    let c = choose|c: Seq<u8>| is_near_candidate(keys, key, include_key, c);
    assert(is_candidate(keys, key, include_key, false, c));
    let answer = found->Some_0.0@;
    lemma_candidate_eligible(keys, key, include_key, false, answer);
    if cyclic_distance(key, e) < cyclic_distance(key, answer) {
        assert forall|c: Seq<u8>| #[trigger]
            is_near_candidate(keys, key, include_key, c) implies cyclic_distance(key, e)
            < cyclic_distance(key, c) by {
            assert(is_candidate(keys, key, include_key, false, c));
        }
        lemma_beaten_is_one_sided(keys, key, include_key, e);
        assert(far_side_nearer(keys, key, include_key));
    }
}

/// A search with wrap-around answers with a stored key that is as near to `key`
/// on the circle as any key that may be the answer.
pub proof fn lemma_nearest_with_wrap<const N: usize, V>(
    map: Map<Seq<u8>, V>,
    key: Seq<u8>,
    include_key: bool,
    found: Option<([u8; N], V)>,
    e: Seq<u8>,
)
    requires
        map.dom().finite(),
        forall|k: Seq<u8>| map.contains_key(k) ==> k.len() == key.len(),
        is_nearest(map, key, include_key, true, found),
        is_eligible(map.dom(), key, include_key, e),
    ensures
        found is Some,
        is_eligible(map.dom(), key, include_key, found->Some_0.0@),
        cyclic_distance(key, found->Some_0.0@) <= cyclic_distance(key, e),
{
    let keys = map.dom();
    lemma_best_exists(keys, key);
    lemma_candidate_exists(keys, key, include_key, e);
    let c = choose|c: Seq<u8>| is_near_candidate(keys, key, include_key, c);
    assert(is_candidate(keys, key, include_key, true, c));
    let answer = found->Some_0.0@;
    lemma_candidate_eligible(keys, key, include_key, true, answer);
    if cyclic_distance(key, e) < cyclic_distance(key, answer) {
        assert forall|c: Seq<u8>| #[trigger]
            is_near_candidate(keys, key, include_key, c) implies cyclic_distance(key, e)
            < cyclic_distance(key, c) by {
            assert(is_candidate(keys, key, include_key, true, c));
        }
        lemma_beaten_is_one_sided(keys, key, include_key, e);
        lemma_key_value_bound(key);
        lemma_key_value_bound(e);
        vstd::set_lib::lemma_set_empty_equivalency_len(keys);
        assert(!is_anchor(keys, key, e)) by {
            if is_anchor(keys, key, e) {
                assert(is_near_candidate(keys, key, include_key, e));
            }
        }
        if key_value(e) < key_value(key) {
            assert(is_below(keys, key, e));
            let best = choose|k: Seq<u8>| is_best_below(keys, key, k);
            lemma_key_value_bound(best);
            assert(is_near_candidate(keys, key, include_key, best));
            assert forall|o: Seq<u8>| !is_above(keys, key, o) by {
                if is_above(keys, key, o) {
                    assert(is_eligible(keys, key, include_key, o));
                }
            }
            lemma_least_exists(keys);
            let far = choose|k: Seq<u8>| is_least(keys, k);
            lemma_key_value_bound(far);
            assert(is_wrap_candidate(keys, key, far));
            assert(is_candidate(keys, key, include_key, true, far));
        } else {
            if key_value(e) == key_value(key) {
                lemma_value_injective(e, key);
                lemma_key_is_anchor(keys, key);
            }
            assert(is_above(keys, key, e));
            let best = choose|k: Seq<u8>| is_best_above(keys, key, k);
            lemma_key_value_bound(best);
            assert(is_near_candidate(keys, key, include_key, best));
            assert forall|o: Seq<u8>| !is_below(keys, key, o) by {
                if is_below(keys, key, o) {
                    assert(is_eligible(keys, key, include_key, o));
                }
            }
            lemma_greatest_exists(keys);
            let far = choose|k: Seq<u8>| is_greatest(keys, k);
            lemma_key_value_bound(far);
            assert(is_wrap_candidate(keys, key, far));
            assert(is_candidate(keys, key, include_key, true, far));
        }
    }
}

impl<const N: usize, V: Copy> Node<N, V> {
    /// The pair of a whole trie whose key is nearest to `key` on the circle of
    /// all keys. With `include_key` a stored `key` is its own answer; without
    /// it `key` is passed over. The search compares the key at the end of the
    /// path of `key` with the best key on either side of it; with `loop_around`
    /// it also looks at the far end of the trie where one side of `key` is empty.
    pub fn get_or_closest_by_key(&self, key: [u8; N], include_key: bool, loop_around: bool) -> (found:
        Option<([u8; N], V)>)
        requires
            self.wf(Seq::empty()),
            4 * N < usize::MAX,
        ensures
            is_nearest(self.entries(0), key@, include_key, loop_around, found),
            found is None <==> forall|k: Seq<u8>|
                !is_eligible(self.entries(0).dom(), key@, include_key, k),
            found is Some && (loop_around || !far_side_nearer(
                self.entries(0).dom(),
                key@,
                include_key,
            )) ==> is_nearest_of_all(self.entries(0).dom(), key@, include_key, found->Some_0.0@),
    {
        let ghost map = self.entries(0);
        let ghost keys = map.dom();
        let (result, found_left, found_right) = self.get_or_closest_by_key_internal(
            key,
            include_key,
            0,
            Ghost(Seq::empty()),
        );
        proof {
            assert(keys =~= self.key_set(0));
            self.lemma_root_candidates(key@, include_key);
            self.lemma_key_set_finite(0);
            if result is Some {
                assert(is_near_candidate(keys, key@, include_key, result->Some_0.0@));
                assert(self.holds(result->Some_0.0@, 0));
            }
            assert forall|c: Seq<u8>| #[trigger]
                is_near_candidate(keys, key@, include_key, c) implies result is Some
                && cyclic_distance(key@, result->Some_0.0@) <= cyclic_distance(key@, c) by {
                assert(self.candidate(key@, include_key, 0, c));
            }
            if found_left {
                let k = choose|k: Seq<u8>| self.best_below(key@, 0, k);
                assert(is_best_below(keys, key@, k));
            }
            if found_right {
                let k = choose|k: Seq<u8>| self.best_above(key@, 0, k);
                assert(is_best_above(keys, key@, k));
            }
            assert(found_left == (exists|k: Seq<u8>| is_below(keys, key@, k))) by {
                if exists|k: Seq<u8>| is_below(keys, key@, k) {
                    let k = choose|k: Seq<u8>| is_below(keys, key@, k);
                    assert(self.below(key@, 0, k));
                }
                if found_left {
                    let k = choose|k: Seq<u8>| self.below(key@, 0, k);
                    assert(is_below(keys, key@, k));
                }
            }
            assert(found_right == (exists|k: Seq<u8>| is_above(keys, key@, k))) by {
                if exists|k: Seq<u8>| is_above(keys, key@, k) {
                    let k = choose|k: Seq<u8>| is_above(keys, key@, k);
                    assert(self.above(key@, 0, k));
                }
                if found_right {
                    let k = choose|k: Seq<u8>| self.above(key@, 0, k);
                    assert(is_above(keys, key@, k));
                }
            }
            assert forall|e: Seq<u8>| is_eligible(keys, key@, include_key, e) implies result
                is Some by {
                lemma_candidate_exists(keys, key@, include_key, e);
            }
        }
        let found = if !loop_around || found_left == found_right {
            result
        } else if !found_left {
            match self.get_max_internal(Ghost(Seq::empty())) {
                Some(pair) => {
                    proof {
                        assert(self.holds(pair.0@, 0));
                        assert forall|o: Seq<u8>| keys.contains(o) implies key_value(o)
                            <= key_value(pair.0@) by {
                            assert(self.holds(o, 0));
                        }
                        assert(is_greatest(keys, pair.0@));
                    }
                    Some(closer(key, result, pair))
                },
                None => result,
            }
        } else {
            match self.get_min_internal(Ghost(Seq::empty())) {
                Some(pair) => {
                    proof {
                        assert(self.holds(pair.0@, 0));
                        assert forall|o: Seq<u8>| keys.contains(o) implies key_value(pair.0@)
                            <= key_value(o) by {
                            assert(self.holds(o, 0));
                        }
                        assert(is_least(keys, pair.0@));
                    }
                    Some(closer(key, result, pair))
                },
                None => result,
            }
        };
        proof {
            if found is Some {
                lemma_candidate_eligible(keys, key@, include_key, loop_around, found->Some_0.0@);
            }
            assert forall|c: Seq<u8>| #[trigger]
                is_candidate(keys, key@, include_key, loop_around, c) implies found is Some
                && cyclic_distance(key@, found->Some_0.0@) <= cyclic_distance(key@, c) by {
                if !is_near_candidate(keys, key@, include_key, c) {
                    assert(is_wrap_candidate(keys, key@, c));
                    assert(keys.contains(c));
                    assert(map.contains_key(c));
                }
            }
            if found is Some {
                assert(map[found->Some_0.0@] == found->Some_0.1);
                if loop_around {
                    assert forall|e: Seq<u8>| #[trigger]
                        is_eligible(keys, key@, include_key, e) implies cyclic_distance(
                        key@,
                        found->Some_0.0@,
                    ) <= cyclic_distance(key@, e) by {
                        lemma_nearest_with_wrap(map, key@, include_key, found, e);
                    }
                } else if !far_side_nearer(keys, key@, include_key) {
                    assert forall|e: Seq<u8>| #[trigger]
                        is_eligible(keys, key@, include_key, e) implies cyclic_distance(
                        key@,
                        found->Some_0.0@,
                    ) <= cyclic_distance(key@, e) by {
                        lemma_nearest_without_wrap(map, key@, include_key, found, e);
                    }
                }
            }
        }
        found
    }
}

/// Place of slot `other` in the order in which the siblings of slot `own` are
/// tried: after slot 0 the slots 1, 2, 3; after slot 1 the slots 0, 2, 3; after
/// slot 2 the slots 3, 1, 0; after slot 3 the slots 2, 1, 0.
pub open spec fn sibling_rank(own: int, other: int) -> int {
    if own == 0 {
        other - 1
    } else if own == 1 {
        if other == 0 {
            0
        } else {
            other - 1
        }
    } else if own == 2 {
        if other == 3 {
            0
        } else {
            2 - other
        }
    } else {
        2 - other
    }
}

/// The sibling of slot `own` that is tried at place `place`.
pub fn sibling_at(own: usize, place: usize) -> (other: usize)
    requires
        own < 4,
        place < 3,
    ensures
        other < 4,
        other != own,
        sibling_rank(own as int, other as int) == place,
{
    if own == 0 {
        place + 1
    } else if own == 1 {
        if place == 0 {
            0
        } else {
            place + 1
        }
    } else if own == 2 {
        if place == 0 {
            3
        } else {
            2 - place
        }
    } else {
        2 - place
    }
}

/// A search by shared prefix prefers `k` to `o`, or they are the same key: `k`
/// shares a longer prefix with `key`; or as long a one, and then `k` lies under
/// a sibling slot that is tried earlier, or under the same slot and is not the
/// smaller of the two.
pub open spec fn prefers(key: Seq<u8>, k: Seq<u8>, o: Seq<u8>) -> bool {
    let shared = shared_prefix(key, k);
    ||| shared_prefix(key, o) < shared
    ||| shared_prefix(key, o) == shared && sibling_rank(nibble(key, shared), nibble(k, shared))
        < sibling_rank(nibble(key, shared), nibble(o, shared))
    ||| shared_prefix(key, o) == shared && nibble(k, shared) == nibble(o, shared) && key_value(o)
        <= key_value(k)
}

/// `found` is the stored pair that a search by shared prefix prefers to every
/// other key that may be the answer, or nothing where there is no such key.
pub open spec fn is_longest_match<const N: usize, V>(
    map: Map<Seq<u8>, V>,
    key: Seq<u8>,
    include_key: bool,
    found: Option<([u8; N], V)>,
) -> bool {
    match found {
        None => forall|k: Seq<u8>| !is_eligible(map.dom(), key, include_key, k),
        Some(pair) => {
            &&& is_eligible(map.dom(), key, include_key, pair.0@)
            &&& map[pair.0@] == pair.1
            &&& forall|o: Seq<u8>| #[trigger]
                is_eligible(map.dom(), key, include_key, o) ==> prefers(key, pair.0@, o)
        },
    }
}

impl<const N: usize, V: Copy> Node<N, V> {
    /// Searches the subtree for the stored key that shares the longest prefix
    /// with `key`. Where the path of `key` ends in nothing, the siblings of the
    /// empty slot are tried in a fixed order and the greatest key under the
    /// first occupied one is taken.
    pub(crate) fn get_or_closest_by_key_leading_zeroes_internal(
        &self,
        key: [u8; N],
        include_key: bool,
        depth: usize,
        Ghost(prefix): Ghost<Seq<int>>,
    ) -> (found: Option<([u8; N], V)>)
        requires
            self.wf(prefix),
            prefix.len() == depth,
            has_prefix(key@, prefix),
            4 * N < usize::MAX,
        ensures
            is_longest_match(self.entries(depth as int), key@, include_key, found),
        decreases self,
    {
        let ghost here = depth as int;
        let ghost map = self.entries(here);
        match self {
            Node::Item(entry) => {
                if !key_eq(&entry.0, &key) || include_key {
                    proof {
                        assert(map.dom().contains(entry.0@));
                    }
                    Some((entry.0, entry.1))
                } else {
                    None
                }
            },
            Node::List(children) => {
                let index = get_index(key, depth);
                let ghost deeper = (depth + 1) as int;
                let ghost longer = prefix.push(index as int);
                proof {
                    self.lemma_lookup_list(key@, here);
                    lemma_prefix_push(key@, prefix);
                    assert forall|j: int| 0 <= j < 4 implies (#[trigger] children.at(j)).wf(
                        prefix.push(j),
                    ) by {
                        self.lemma_wf_child(prefix, j);
                    }
                }
                let child = children.child(index);
                let inner = child.get_or_closest_by_key_leading_zeroes_internal(
                    key,
                    include_key,
                    depth + 1,
                    Ghost(longer),
                );
                proof {
                    // How far each key of the node shares a prefix with `key`.
                    assert forall|o: Seq<u8>| map.dom().contains(o) implies (if nibble(o, here)
                        == index {
                        child.entries(deeper).dom().contains(o) && shared_prefix(key@, o) >= deeper
                    } else {
                        shared_prefix(key@, o) == here && children.at(nibble(o, here)).holds(
                            o,
                            deeper,
                        )
                    }) by {
                        self.lemma_list_relations(key@, prefix, o);
                        self.lemma_found_has_prefix(o, prefix);
                        lemma_prefix_agree(key@, o, prefix);
                        if nibble(o, here) == index {
                            child.lemma_found_has_prefix(o, longer);
                            lemma_prefix_agree(key@, o, longer);
                            lemma_shared_at_least(key@, o, deeper);
                        } else {
                            lemma_shared_exact(key@, o, here);
                        }
                    }
                }
                match inner {
                    Some(pair) => {
                        proof {
                            self.lemma_child_slot(prefix, index as int, pair.0@);
                            assert(map.dom().contains(pair.0@));
                            assert forall|o: Seq<u8>| #[trigger]
                                is_eligible(map.dom(), key@, include_key, o) implies prefers(
                                key@,
                                pair.0@,
                                o,
                            ) by {
                                if nibble(o, here) == index {
                                    assert(is_eligible(
                                        child.entries(deeper).dom(),
                                        key@,
                                        include_key,
                                        o,
                                    ));
                                }
                            }
                        }
                        Some(pair)
                    },
                    None => {
                        proof {
                            assert forall|o: Seq<u8>|
                                child_holds(*self, index as int, o, deeper) implies !(include_key
                                || o != key@) by {
                                assert(!is_eligible(
                                    child.entries(deeper).dom(),
                                    key@,
                                    include_key,
                                    o,
                                ));
                            }
                        }
                        let mut place: usize = 0;
                        while place < 3
                            invariant
                                place <= 3,
                                index < 4,
                                *self == Node::List(*children),
                                self.wf(prefix),
                                here == prefix.len(),
                                here == depth,
                                deeper == here + 1,
                                map == self.entries(here),
                                key@.len() == N,
                                has_prefix(key@, prefix),
                                index == nibble(key@, here),
                                forall|j: int|
                                    0 <= j < 4 ==> (#[trigger] children.at(j)).wf(prefix.push(j)),
                                forall|j: int|
                                    0 <= j < 4 && j != index && sibling_rank(index as int, j)
                                        < place ==> (#[trigger] children.at(j)) is Empty,
                                forall|o: Seq<u8>|
                                    map.dom().contains(o) ==> (if nibble(o, here) == index {
                                        child_holds(*self, index as int, o, deeper)
                                    } else {
                                        shared_prefix(key@, o) == here && children.at(
                                            nibble(o, here),
                                        ).holds(o, deeper)
                                    }),
                                forall|o: Seq<u8>|
                                    child_holds(*self, index as int, o, deeper) ==> !(include_key
                                        || o != key@),
                            decreases 3 - place,
                        {
                            let slot = sibling_at(index, place);
                            match children.child(slot).get_max_internal(
                                Ghost(prefix.push(slot as int)),
                            ) {
                                Some(pair) => {
                                    proof {
                                        self.lemma_child_slot(prefix, slot as int, pair.0@);
                                        assert(map.dom().contains(pair.0@));
                                        assert(pair.0@ != key@);
                                        assert forall|o: Seq<u8>| #[trigger]
                                            is_eligible(
                                                map.dom(),
                                                key@,
                                                include_key,
                                                o,
                                            ) implies prefers(key@, pair.0@, o) by {
                                            self.lemma_lookup_list(o, here);
                                            let other = nibble(o, here);
                                            assert(map.dom().contains(o));
                                            assert(shared_prefix(key@, pair.0@) == here);
                                            if other == index {
                                                assert(child_holds(*self, index as int, o, deeper));
                                            } else if other != slot {
                                                assert(children.at(other).holds(o, deeper));
                                                assert(!(children.at(other) is Empty));
                                                assert(sibling_rank(index as int, other) > place);
                                            } else {
                                                assert(children.at(slot as int).holds(o, deeper));
                                                assert(key_value(o) <= key_value(pair.0@));
                                            }
                                        }
                                        assert(map[pair.0@] == pair.1);
                                    }
                                    return Some(pair);
                                },
                                None => {},
                            }
                            place += 1;
                        }
                        proof {
                            assert forall|k: Seq<u8>| !is_eligible(
                                map.dom(),
                                key@,
                                include_key,
                                k,
                            ) by {
                                if is_eligible(map.dom(), key@, include_key, k) {
                                    self.lemma_lookup_list(k, here);
                                    let other = nibble(k, here);
                                    if other != index {
                                        assert(0 <= sibling_rank(index as int, other) < 3);
                                        assert(children.at(other) is Empty);
                                    }
                                }
                            }
                        }
                        None
                    },
                }
            },
            Node::Empty => None,
        }
    }
}

/// `o` is stored under child `index` of the interior node `node`.
pub open spec fn child_holds<const N: usize, V>(
    node: Node<N, V>,
    index: int,
    o: Seq<u8>,
    deeper: int,
) -> bool {
    node->List_0.at(index).entries(deeper).dom().contains(o)
}

} // verus!
