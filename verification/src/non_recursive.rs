//! An ordered map over any totally ordered key, kept as one ascending table.
use vstd::laws_cmp::{
    obeys_cmp, obeys_cmp_ord, obeys_cmp_partial_ord, obeys_partial_cmp_spec_properties,
};
use vstd::laws_eq::obeys_concrete_eq;
use vstd::prelude::*;
use vstd::std_specs::cmp::{PartialEqSpec, PartialOrdIs, PartialOrdSpec};

verus! {

/// The comparison operators of `K` describe a total order whose equality is
/// equality of values.
pub open spec fn total_order<K: Ord>() -> bool {
    obeys_cmp::<K>() && obeys_concrete_eq::<K>()
}

/// `a` comes before `b` in the order of `K`.
pub open spec fn before<K: Ord>(a: K, b: K) -> bool {
    a.is_lt(&b)
}

/// No key comes before itself.
pub proof fn lemma_before_irreflexive<K: Ord>(a: K)
    requires
        total_order::<K>(),
    ensures
        !before(a, a),
{
    reveal(obeys_concrete_eq);
    reveal(obeys_cmp_partial_ord);
}

/// Of two different keys one comes before the other.
pub proof fn lemma_before_total<K: Ord>(a: K, b: K)
    requires
        total_order::<K>(),
        a != b,
    ensures
        before(a, b) != before(b, a),
{
    reveal(obeys_concrete_eq);
    reveal(obeys_cmp_partial_ord);
    reveal(obeys_cmp_ord);
    reveal(obeys_partial_cmp_spec_properties);
}

/// The order is transitive.
pub proof fn lemma_before_transitive<K: Ord>(a: K, b: K, c: K)
    requires
        total_order::<K>(),
        before(a, b),
        before(b, c),
    ensures
        before(a, c),
{
    reveal(obeys_partial_cmp_spec_properties);
}

/// The operators `==` and `<` of `K` compute equality of values and the order.
pub proof fn lemma_operators_agree<K: Ord>()
    requires
        total_order::<K>(),
    ensures
        K::obeys_eq_spec(),
        K::obeys_partial_cmp_spec(),
        forall|a: K, b: K| (#[trigger] a.eq_spec(&b)) <==> (a == b),
{
    reveal(obeys_concrete_eq);
    reveal(obeys_cmp_partial_ord);
}

/// The keys of `table` stand in strictly ascending order.
pub open spec fn ascending<K: Ord, V>(table: Seq<(K, V)>) -> bool {
    forall|i: int, j: int| 0 <= i < j < table.len() ==> before(table[i].0, table[j].0)
}

/// `key` is the key of one of the first `upto` pairs of `table`.
pub open spec fn listed<K, V>(table: Seq<(K, V)>, key: K, upto: int) -> bool {
    exists|i: int| 0 <= i < upto && i < table.len() && #[trigger] table[i].0 == key
}

/// Position of `key` in `table`.
pub open spec fn position<K, V>(table: Seq<(K, V)>, key: K) -> int {
    choose|i: int| 0 <= i < table.len() && #[trigger] table[i].0 == key
}

/// What a table of pairs stores, as a map.
pub open spec fn table_map<K, V>(table: Seq<(K, V)>) -> Map<K, V> {
    Map::new(
        |key: K| listed(table, key, table.len() as int),
        |key: K| table[position(table, key)].1,
    )
}

/// In an ascending table a key stands at one position only.
pub proof fn lemma_position_unique<K: Ord, V>(table: Seq<(K, V)>, i: int, j: int)
    requires
        total_order::<K>(),
        ascending(table),
        0 <= i < table.len(),
        0 <= j < table.len(),
        table[i].0 == table[j].0,
    ensures
        i == j,
{
    lemma_before_irreflexive(table[i].0);
}

/// An ascending table maps the key at each position to the value beside it.
pub proof fn lemma_table_map_at<K: Ord, V>(table: Seq<(K, V)>, i: int)
    requires
        total_order::<K>(),
        ascending(table),
        0 <= i < table.len(),
    ensures
        table_map(table).contains_key(table[i].0),
        table_map(table)[table[i].0] == table[i].1,
{
    let key = table[i].0;
    lemma_position_unique(table, i, position(table, key));
}

/// An ascending table holds as many keys as it has pairs.
pub proof fn lemma_table_size<K: Ord, V>(table: Seq<(K, V)>, upto: int)
    requires
        total_order::<K>(),
        ascending(table),
        0 <= upto <= table.len(),
    ensures
        Set::new(|key: K| listed(table, key, upto)).finite(),
        Set::new(|key: K| listed(table, key, upto)).len() == upto,
    decreases upto,
{
    let keys = Set::new(|key: K| listed(table, key, upto));
    if upto == 0 {
        assert(keys =~= Set::empty());
    } else {
        let fewer = Set::new(|key: K| listed(table, key, upto - 1));
        lemma_table_size(table, upto - 1);
        let last = table[upto - 1].0;
        assert(!fewer.contains(last)) by {
            if fewer.contains(last) {
                let i = choose|i: int| 0 <= i < upto - 1 && i < table.len() && #[trigger] table[i].0 == last;
                lemma_position_unique(table, i, upto - 1);
            }
        }
        assert(keys =~= fewer.insert(last));
    }
}

/// Putting a new key at its place keeps the table ascending and adds the pair to its map.
pub proof fn lemma_table_insert<K: Ord, V>(table: Seq<(K, V)>, at: int, key: K, value: V)
    requires
        total_order::<K>(),
        ascending(table),
        0 <= at <= table.len(),
        forall|i: int| 0 <= i < at ==> before(#[trigger] table[i].0, key),
        forall|i: int| at <= i < table.len() ==> before(key, #[trigger] table[i].0),
    ensures
        ascending(table.insert(at, (key, value))),
        table_map(table.insert(at, (key, value))) == table_map(table).insert(key, value),
{
    let grown = table.insert(at, (key, value));
    assert(ascending(grown));
    assert forall|k: K| #[trigger] table_map(grown).contains_key(k) implies table_map(
        table,
    ).insert(key, value).contains_key(k) && table_map(grown)[k] == table_map(table).insert(
        key,
        value,
    )[k] by {
        let j = position(grown, k);
        lemma_table_map_at(grown, j);
        lemma_before_irreflexive(key);
        if j < at {
            lemma_table_map_at(table, j);
        } else if j > at {
            lemma_table_map_at(table, j - 1);
        }
    }
    assert forall|k: K| #[trigger]
        table_map(table).insert(key, value).contains_key(k) implies table_map(grown).contains_key(
        k,
    ) by {
        if k == key {
            lemma_table_map_at(grown, at);
        } else {
            let i = position(table, k);
            if i < at {
                lemma_table_map_at(grown, i);
            } else {
                lemma_table_map_at(grown, i + 1);
            }
        }
    }
    assert(table_map(grown) =~= table_map(table).insert(key, value));
}

/// Replacing the value at a position keeps the table ascending and updates its map.
pub proof fn lemma_table_update<K: Ord, V>(table: Seq<(K, V)>, at: int, value: V)
    requires
        total_order::<K>(),
        ascending(table),
        0 <= at < table.len(),
    ensures
        ascending(table.update(at, (table[at].0, value))),
        table_map(table.update(at, (table[at].0, value))) == table_map(table).insert(
            table[at].0,
            value,
        ),
{
    let key = table[at].0;
    let changed = table.update(at, (key, value));
    assert(ascending(changed));
    assert forall|k: K| #[trigger] table_map(changed).contains_key(k) implies table_map(
        table,
    ).insert(key, value).contains_key(k) && table_map(changed)[k] == table_map(table).insert(
        key,
        value,
    )[k] by {
        let j = position(changed, k);
        lemma_table_map_at(changed, j);
        lemma_table_map_at(table, j);
        if k == key {
            lemma_position_unique(changed, j, at);
        }
    }
    assert forall|k: K| #[trigger]
        table_map(table).insert(key, value).contains_key(k) implies table_map(
        changed,
    ).contains_key(k) by {
        if k == key {
            lemma_table_map_at(changed, at);
        } else {
            lemma_table_map_at(changed, position(table, k));
        }
    }
    assert(table_map(changed) =~= table_map(table).insert(key, value));
}

/// Taking the pair at a position out keeps the table ascending and removes its key.
pub proof fn lemma_table_remove<K: Ord, V>(table: Seq<(K, V)>, at: int)
    requires
        total_order::<K>(),
        ascending(table),
        0 <= at < table.len(),
    ensures
        ascending(table.remove(at)),
        table_map(table.remove(at)) == table_map(table).remove(table[at].0),
{
    let key = table[at].0;
    let fewer = table.remove(at);
    assert(ascending(fewer));
    assert forall|k: K| #[trigger] table_map(fewer).contains_key(k) implies table_map(
        table,
    ).remove(key).contains_key(k) && table_map(fewer)[k] == table_map(table).remove(key)[k] by {
        let j = position(fewer, k);
        lemma_table_map_at(fewer, j);
        if j < at {
            lemma_table_map_at(table, j);
            lemma_position_unique(table, j, if k == key { at } else { j });
        } else {
            lemma_table_map_at(table, j + 1);
            lemma_position_unique(table, j + 1, if k == key { at } else { j + 1 });
        }
    }
    assert forall|k: K| #[trigger] table_map(table).remove(key).contains_key(k) implies table_map(
        fewer,
    ).contains_key(k) by {
        let i = position(table, k);
        if i < at {
            lemma_table_map_at(fewer, i);
        } else {
            lemma_table_map_at(fewer, i - 1);
        }
    }
    assert(table_map(fewer) =~= table_map(table).remove(key));
}

/// An ordered map over any totally ordered key type. Its pairs stand in one table
/// in ascending key order, and a search halves the table until it meets the key.
/// It has one owner at a time: threads that share it put a lock around it.
pub struct ConcurrentBSTMap<K: Ord, V> {
    table: Vec<(K, V)>,
}

impl<K: Ord, V> View for ConcurrentBSTMap<K, V> {
    type V = Map<K, V>;

    closed spec fn view(&self) -> Map<K, V> {
        table_map(self.table@)
    }
}

impl<K: Ord, V> ConcurrentBSTMap<K, V> {
    #[verifier::type_invariant]
    spec fn valid(self) -> bool {
        &&& total_order::<K>()
        &&& ascending(self.table@)
    }
}

impl<K: Ord + Copy, V: Copy> ConcurrentBSTMap<K, V> {
    /// An empty map.
    pub fn new() -> (map: Self)
        requires
            total_order::<K>(),
        ensures
            map@ == Map::<K, V>::empty(),
    {
        let map = ConcurrentBSTMap { table: Vec::new() };
        assert(map@ =~= Map::<K, V>::empty());
        map
    }

    /// Forgets every pair.
    pub fn clear(&mut self)
        ensures
            final(self)@ == Map::<K, V>::empty(),
    {
        proof {
            use_type_invariant(&*self);
        }
        self.table = Vec::new();
        assert(self@ =~= Map::<K, V>::empty());
    }

    /// Number of pairs in the map.
    pub fn len(&self) -> (n: usize)
        ensures
            n == self@.len(),
            self@.dom().finite(),
    {
        proof {
            use_type_invariant(self);
            lemma_table_size(self.table@, self.table@.len() as int);
            assert(self@.dom() =~= Set::new(
                |key: K| listed(self.table@, key, self.table@.len() as int),
            ));
        }
        self.table.len()
    }

    /// Whether the map holds no pair.
    pub fn is_empty(&self) -> (empty: bool)
        ensures
            empty == (self@ == Map::<K, V>::empty()),
    {
        proof {
            use_type_invariant(self);
            if self.table@.len() == 0 {
                assert(self@ =~= Map::<K, V>::empty());
            } else {
                lemma_table_map_at(self.table@, 0);
            }
        }
        self.len() == 0
    }

    /// Halves the table until it meets `key` or the place where `key` belongs:
    /// the keys before the returned position come before `key`, those from it on
    /// do not, and the flag says whether `key` stands there.
    fn search(table: &Vec<(K, V)>, key: K) -> (place: (usize, bool))
        requires
            total_order::<K>(),
            ascending(table@),
        ensures
            place.0 <= table@.len(),
            forall|i: int| 0 <= i < place.0 ==> before(#[trigger] table@[i].0, key),
            forall|i: int| place.0 < i < table@.len() ==> before(key, #[trigger] table@[i].0),
            place.1 ==> place.0 < table@.len() && table@[place.0 as int].0 == key,
            !place.1 ==> (place.0 < table@.len() ==> before(key, table@[place.0 as int].0)),
            place.1 == table_map(table@).contains_key(key),
    {
        let mut low: usize = 0;
        let mut high: usize = table.len();
        while low < high
            invariant
                total_order::<K>(),
                ascending(table@),
                low <= high <= table@.len(),
                forall|i: int| 0 <= i < low ==> before(#[trigger] table@[i].0, key),
                forall|i: int| high <= i < table@.len() ==> before(key, #[trigger] table@[i].0),
            decreases high - low,
        {
            let middle: usize = low + (high - low) / 2;
            let probe: K = table[middle].0;
            proof {
                lemma_operators_agree::<K>();
                if probe != key {
                    lemma_before_total(probe, key);
                }
            }
            if probe == key {
                proof {
                    assert forall|i: int| 0 <= i < middle implies before(
                        #[trigger] table@[i].0,
                        key,
                    ) by {}
                    assert forall|i: int| middle < i < table@.len() implies before(
                        key,
                        #[trigger] table@[i].0,
                    ) by {}
                    lemma_table_map_at(table@, middle as int);
                }
                return (middle, true);
            } else if probe < key {
                proof {
                    assert forall|i: int| 0 <= i < middle + 1 implies before(
                        #[trigger] table@[i].0,
                        key,
                    ) by {
                        if i < middle {
                            lemma_before_transitive(table@[i].0, probe, key);
                        }
                    }
                }
                low = middle + 1;
            } else {
                proof {
                    assert forall|i: int| middle <= i < table@.len() implies before(
                        key,
                        #[trigger] table@[i].0,
                    ) by {
                        if i > middle {
                            lemma_before_transitive(key, probe, table@[i].0);
                        }
                    }
                }
                high = middle;
            }
        }
        proof {
            if table_map(table@).contains_key(key) {
                let i = position(table@, key);
                lemma_before_irreflexive(key);
            }
        }
        (low, false)
    }

    /// Whether `key` is in the map.
    pub fn contains_key(&self, key: K) -> (present: bool)
        ensures
            present == self@.contains_key(key),
    {
        proof {
            use_type_invariant(self);
        }
        Self::search(&self.table, key).1
    }

    /// The value stored under `key`, if there is one.
    pub fn get(&self, key: K) -> (found: Option<V>)
        ensures
            found == (if self@.contains_key(key) {
                Some(self@[key])
            } else {
                None
            }),
    {
        proof {
            use_type_invariant(self);
        }
        let (at, present) = Self::search(&self.table, key);
        if present {
            proof {
                lemma_table_map_at(self.table@, at as int);
            }
            Some(self.table[at].1)
        } else {
            None
        }
    }

    /// The pair with the smallest key.
    pub fn get_min(&self) -> (found: Option<(K, V)>)
        ensures
            found is None <==> self@ == Map::<K, V>::empty(),
            found is Some ==> self@.contains_key(found->Some_0.0) && self@[found->Some_0.0]
                == found->Some_0.1,
            found is Some ==> forall|k: K| #[trigger]
                self@.contains_key(k) ==> k == found->Some_0.0 || before(found->Some_0.0, k),
    {
        proof {
            use_type_invariant(self);
        }
        if self.table.len() == 0 {
            assert(self@ =~= Map::<K, V>::empty());
            None
        } else {
            proof {
                lemma_table_map_at(self.table@, 0);
            }
            Some(self.table[0])
        }
    }

    /// The pair with the largest key.
    pub fn get_max(&self) -> (found: Option<(K, V)>)
        ensures
            found is None <==> self@ == Map::<K, V>::empty(),
            found is Some ==> self@.contains_key(found->Some_0.0) && self@[found->Some_0.0]
                == found->Some_0.1,
            found is Some ==> forall|k: K| #[trigger]
                self@.contains_key(k) ==> k == found->Some_0.0 || before(k, found->Some_0.0),
    {
        proof {
            use_type_invariant(self);
        }
        let n = self.table.len();
        if n == 0 {
            assert(self@ =~= Map::<K, V>::empty());
            None
        } else {
            proof {
                lemma_table_map_at(self.table@, n - 1);
            }
            Some(self.table[n - 1])
        }
    }

    /// Stores `value` under `key`. A key that is already there keeps its old value
    /// if `should_update(old, new)` says no. Says whether the map took the value.
    pub fn insert_or_update_if(
        &mut self,
        key: K,
        value: V,
        should_update: impl Fn(&V, &V) -> bool,
    ) -> (stored: bool)
        requires
            forall|a: &V, b: &V| should_update.requires((a, b)),
        ensures
            !old(self)@.contains_key(key) ==> stored,
            old(self)@.contains_key(key) ==> should_update.ensures(
                (&old(self)@[key], &value),
                stored,
            ),
            final(self)@ == (if stored {
                old(self)@.insert(key, value)
            } else {
                old(self)@
            }),
    {
        proof {
            use_type_invariant(&*self);
        }
        let mut table: Vec<(K, V)> = Vec::new();
        core::mem::swap(&mut self.table, &mut table);
        let ghost before_table = table@;
        let (at, present) = Self::search(&table, key);
        let stored = if present {
            proof {
                lemma_table_map_at(before_table, at as int);
                lemma_table_update(before_table, at as int, value);
            }
            if should_update(&table[at].1, &value) {
                table[at] = (key, value);
                true
            } else {
                false
            }
        } else {
            proof {
                lemma_table_insert(before_table, at as int, key, value);
            }
            table.insert(at, (key, value));
            true
        };
        self.table = table;
        stored
    }

    /// Stores `value` under `key`, replacing any value that was there.
    pub fn insert_or_update(&mut self, key: K, value: V) -> (stored: bool)
        ensures
            stored,
            final(self)@ == old(self)@.insert(key, value),
    {
        let always = |_prior: &V, _next: &V| -> (yes: bool)
            ensures
                yes,
            { true };
        self.insert_or_update_if(key, value, always)
    }

    /// Takes `key` out of the map if it is there and `should_remove` agrees to
    /// part with its value.
    pub fn remove_if(&mut self, key: K, should_remove: impl Fn(&V) -> bool)
        requires
            forall|v: &V| should_remove.requires((v,)),
        ensures
            !old(self)@.contains_key(key) ==> final(self)@ == old(self)@,
            old(self)@.contains_key(key) ==> {
                ||| (should_remove.ensures((&old(self)@[key],), true) && final(self)@ == old(
                    self,
                )@.remove(key))
                ||| (should_remove.ensures((&old(self)@[key],), false) && final(self)@ == old(
                    self,
                )@)
            },
    {
        proof {
            use_type_invariant(&*self);
        }
        let mut table: Vec<(K, V)> = Vec::new();
        core::mem::swap(&mut self.table, &mut table);
        let ghost before_table = table@;
        let (at, present) = Self::search(&table, key);
        if present {
            proof {
                lemma_table_map_at(before_table, at as int);
                lemma_table_remove(before_table, at as int);
            }
            if should_remove(&table[at].1) {
                table.remove(at);
            }
        }
        self.table = table;
    }

    /// Takes `key` out of the map.
    pub fn remove(&mut self, key: K)
        ensures
            final(self)@ == old(self)@.remove(key),
    {
        let always = |_value: &V| -> (yes: bool)
            ensures
                yes,
            { true };
        self.remove_if(key, always);
        proof {
            if !old(self)@.contains_key(key) {
                assert(self@ =~= old(self)@.remove(key));
            }
        }
    }
}

} // verus!
