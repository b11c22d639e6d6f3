//! Ordered maps and sets kept as sorted vectors.

use crate::key;
use crate::key::{Duplicate, Key};
use vstd::prelude::*;

verus! {

/// Every key comes strictly before the keys behind it.
pub open spec fn ascending<K: Key>(keys: Seq<K>) -> bool {
    forall|i: int, j: int|
        0 <= i < j < keys.len() ==> (#[trigger] keys[i]).rank() < (#[trigger] keys[j]).rank()
}

/// The place of a key in a sequence that holds it.
pub open spec fn place<K>(keys: Seq<K>, key: K) -> int {
    choose|i: int| 0 <= i < keys.len() && keys[i] == key
}

/// A map from ordered keys, listed in ascending order.
#[derive(Debug, PartialEq, Eq)]
pub struct OrdMap<K: Key, T: View> {
    keys: Vec<K>,
    values: Vec<T>,
}

impl<K: Key, T: View> OrdMap<K, T> {
    #[verifier::type_invariant]
    spec fn ordered(self) -> bool {
        self.keys@.len() == self.values@.len() && ascending(self.keys@)
    }

    /// The keys in ascending order.
    pub closed spec fn keys(&self) -> Seq<K> {
        self.keys@
    }
}

/// What the two parallel sequences of a map stand for.
spec fn contents<K: Key, T: View>(keys: Seq<K>, values: Seq<T>) -> Map<K, T::V> {
    Map::new(|k: K| keys.contains(k), |k: K| values[place(keys, k)]@)
}

impl<K: Key, T: View> View for OrdMap<K, T> {
    type V = Map<K, T::V>;

    closed spec fn view(&self) -> Map<K, T::V> {
        contents(self.keys@, self.values@)
    }
}

/// In ascending keys each key has one place.
pub proof fn lemma_place<K: Key>(keys: Seq<K>, i: int)
    requires
        ascending(keys),
        0 <= i < keys.len(),
    ensures
        place(keys, keys[i]) == i,
        keys.contains(keys[i]),
{
    let p = place(keys, keys[i]);
    assert(0 <= p < keys.len() && keys[p] == keys[i]);
    if p < i {
        assert(keys[p].rank() < keys[i].rank());
    } else if i < p {
        assert(keys[i].rank() < keys[p].rank());
    }
}

/// Ascending keys are as many as they are different.
pub proof fn lemma_ascending_distinct<K: Key>(keys: Seq<K>)
    requires
        ascending(keys),
    ensures
        keys.no_duplicates(),
        keys.to_set().len() == keys.len(),
        keys.to_set().finite(),
{
    assert(keys.no_duplicates()) by {
        assert forall|i: int, j: int| 0 <= i < keys.len() && 0 <= j < keys.len() && i
            != j implies keys[i] != keys[j] by {
            if i < j {
                assert(keys[i].rank() < keys[j].rank());
            } else {
                assert(keys[j].rank() < keys[i].rank());
            }
        }
    }
    keys.unique_seq_to_set();
}

/// What the order of the keys says of the map they belong to.
pub open spec fn lists<K: Key, U>(keys: Seq<K>, map: Map<K, U>) -> bool {
    &&& ascending(keys)
    &&& map.dom() == keys.to_set()
    &&& map.dom().finite()
    &&& map.len() == keys.len()
    &&& forall|k: K| #[trigger] map.dom().contains(k) <==> keys.contains(k)
    &&& forall|i: int| 0 <= i < keys.len() ==> map.dom().contains(#[trigger] keys[i])
}

proof fn lemma_contents<K: Key, T: View>(keys: Seq<K>, values: Seq<T>)
    requires
        keys.len() == values.len(),
        ascending(keys),
    ensures
        lists(keys, contents(keys, values)),
        forall|i: int|
            0 <= i < keys.len() ==> contents(keys, values)[#[trigger] keys[i]] == values[i]@,
{
    let map = contents(keys, values);
    lemma_ascending_distinct(keys);
    assert(map.dom() =~= keys.to_set());
    assert forall|i: int| 0 <= i < keys.len() implies map.dom().contains(#[trigger] keys[i])
        && map[keys[i]] == values[i]@ by {
        lemma_place(keys, i);
    }
}

proof fn lemma_contents_insert<K: Key, T: View>(keys: Seq<K>, values: Seq<T>, at: int, k: K, t: T)
    requires
        keys.len() == values.len(),
        ascending(keys),
        0 <= at <= keys.len(),
        forall|i: int| 0 <= i < at ==> (#[trigger] keys[i]).rank() < k.rank(),
        forall|i: int| at <= i < keys.len() ==> k.rank() < (#[trigger] keys[i]).rank(),
    ensures
        ascending(keys.insert(at, k)),
        contents(keys.insert(at, k), values.insert(at, t)) == contents(keys, values).insert(k, t@),
        !keys.contains(k),
{
    let new_keys = keys.insert(at, k);
    let new_values = values.insert(at, t);
    assert forall|i: int, j: int| 0 <= i < j < new_keys.len() implies (
    #[trigger] new_keys[i]).rank() < (#[trigger] new_keys[j]).rank() by {
        let p = if i < at { i } else { i - 1 };
        let q = if j < at { j } else { j - 1 };
        if i == at {
            assert(new_keys[j] == keys[q]);
        } else if j == at {
            assert(new_keys[i] == keys[p]);
        } else {
            assert(new_keys[i] == keys[p] && new_keys[j] == keys[q]);
        }
    }
    lemma_contents(keys, values);
    lemma_contents(new_keys, new_values);
    let old_map = contents(keys, values);
    let new_map = contents(new_keys, new_values);
    assert(new_keys[at] == k);
    assert forall|x: K| new_map.dom().contains(x) <==> old_map.insert(k, t@).dom().contains(x) by {
        if keys.contains(x) {
            let p = place(keys, x);
            assert(0 <= p < keys.len() && keys[p] == x);
            assert(new_keys[if p < at { p } else { p + 1 }] == x);
        }
        if new_keys.contains(x) {
            let p = place(new_keys, x);
            assert(0 <= p < new_keys.len() && new_keys[p] == x);
            if p != at {
                assert(keys[if p < at { p } else { p - 1 }] == x);
            }
        }
    }
    assert forall|x: K| new_map.dom().contains(x) implies new_map[x] == old_map.insert(
        k,
        t@,
    )[x] by {
        let p = place(new_keys, x);
        assert(0 <= p < new_keys.len() && new_keys[p] == x);
        if p != at {
            let q = if p < at { p } else { p - 1 };
            assert(keys[q] == x);
            assert(new_keys[p].rank() != new_keys[at].rank());
            assert(x != k);
        }
    }
    assert(new_map =~= old_map.insert(k, t@));
    if keys.contains(k) {
        let p = place(keys, k);
        assert(keys[p].rank() == k.rank());
    }
}

proof fn lemma_contents_update<K: Key, T: View>(keys: Seq<K>, values: Seq<T>, at: int, t: T)
    requires
        keys.len() == values.len(),
        ascending(keys),
        0 <= at < keys.len(),
    ensures
        contents(keys, values.update(at, t)) == contents(keys, values).insert(keys[at], t@),
{
    let new_values = values.update(at, t);
    lemma_contents(keys, values);
    lemma_contents(keys, new_values);
    let old_map = contents(keys, values);
    let new_map = contents(keys, new_values);
    assert forall|x: K| new_map.dom().contains(x) implies new_map[x] == old_map.insert(
        keys[at],
        t@,
    )[x] by {
        let p = place(keys, x);
        assert(0 <= p < keys.len() && keys[p] == x);
        lemma_place(keys, at);
    }
    assert(new_map =~= old_map.insert(keys[at], t@));
}

proof fn lemma_contents_remove<K: Key, T: View>(keys: Seq<K>, values: Seq<T>, at: int)
    requires
        keys.len() == values.len(),
        ascending(keys),
        0 <= at < keys.len(),
    ensures
        ascending(keys.remove(at)),
        contents(keys.remove(at), values.remove(at)) == contents(keys, values).remove(keys[at]),
{
    let new_keys = keys.remove(at);
    let new_values = values.remove(at);
    assert forall|i: int, j: int| 0 <= i < j < new_keys.len() implies (
    #[trigger] new_keys[i]).rank() < (#[trigger] new_keys[j]).rank() by {
        let p = if i < at { i } else { i + 1 };
        let q = if j < at { j } else { j + 1 };
        assert(new_keys[i] == keys[p] && new_keys[j] == keys[q]);
    }
    lemma_contents(keys, values);
    lemma_contents(new_keys, new_values);
    let old_map = contents(keys, values);
    let new_map = contents(new_keys, new_values);
    let gone = keys[at];
    assert forall|x: K| new_map.dom().contains(x) <==> old_map.remove(gone).dom().contains(x) by {
        if keys.contains(x) && x != gone {
            let p = place(keys, x);
            assert(0 <= p < keys.len() && keys[p] == x);
            assert(new_keys[if p < at { p } else { p - 1 }] == x);
        }
        if new_keys.contains(x) {
            let p = place(new_keys, x);
            assert(0 <= p < new_keys.len() && new_keys[p] == x);
            let q = if p < at { p } else { p + 1 };
            assert(keys[q] == x);
            if q < at {
                assert(keys[q].rank() < keys[at].rank());
            } else {
                assert(keys[at].rank() < keys[q].rank());
            }
        }
    }
    assert forall|x: K| new_map.dom().contains(x) implies new_map[x] == old_map.remove(gone)[x] by {
        let p = place(new_keys, x);
        assert(0 <= p < new_keys.len() && new_keys[p] == x);
        let q = if p < at { p } else { p + 1 };
        assert(keys[q] == x);
    }
    assert(new_map =~= old_map.remove(gone));
}

/// The part of a map whose keys come strictly after `bound`.
pub open spec fn after<K: Key, U>(map: Map<K, U>, bound: K) -> Map<K, U> {
    map.restrict(Set::new(|k: K| bound.rank() < k.rank()))
}

impl<K: Key, T: View> OrdMap<K, T> {
    /// An empty map.
    pub fn new() -> (map: Self)
        ensures
            map@ == Map::<K, T::V>::empty(),
    {
        let map = OrdMap { keys: Vec::new(), values: Vec::new() };
        proof {
            lemma_contents(map.keys@, map.values@);
            assert(map@ =~= Map::<K, T::V>::empty());
        }
        map
    }

    /// How many keys the map has; the keys are listed in ascending order.
    pub fn len(&self) -> (count: usize)
        ensures
            count == self@.len(),
            count == self.keys().len(),
            lists(self.keys(), self@),
    {
        proof {
            use_type_invariant(self);
            lemma_contents(self.keys@, self.values@);
        }
        self.keys.len()
    }

    /// Whether the map has no key.
    pub fn is_empty(&self) -> (empty: bool)
        ensures
            empty == (self@.len() == 0),
            empty == (self@ == Map::<K, T::V>::empty()),
    {
        let empty = self.len() == 0;
        proof {
            if empty {
                assert(self@ =~= Map::<K, T::V>::empty());
            } else {
                assert(self@.dom().contains(self.keys()[0]));
            }
        }
        empty
    }

    /// The key at a place in the order.
    pub fn key_at(&self, i: usize) -> (key: &K)
        requires
            i < self.keys().len(),
        ensures
            *key == self.keys()[i as int],
            self@.dom().contains(*key),
    {
        proof {
            use_type_invariant(self);
            lemma_contents(self.keys@, self.values@);
        }
        &self.keys[i]
    }

    /// The value that belongs to the key at a place in the order.
    pub fn value_at(&self, i: usize) -> (value: &T)
        requires
            i < self.keys().len(),
        ensures
            value@ == self@[self.keys()[i as int]],
            self@.dom().contains(self.keys()[i as int]),
    {
        proof {
            use_type_invariant(self);
            lemma_contents(self.keys@, self.values@);
        }
        &self.values[i]
    }

    /// The first place whose key does not come before `key`.
    fn lower_bound(&self, key: &K) -> (place: usize)
        ensures
            place <= self.keys@.len(),
            forall|i: int| 0 <= i < place ==> (#[trigger] self.keys@[i]).rank() < key.rank(),
            forall|i: int|
                place <= i < self.keys@.len() ==> key.rank() <= (#[trigger] self.keys@[i]).rank(),
    {
        proof {
            use_type_invariant(self);
        }
        let mut low: usize = 0;
        let mut high: usize = self.keys.len();
        while low < high
            invariant
                low <= high <= self.keys@.len(),
                ascending(self.keys@),
                forall|i: int| 0 <= i < low ==> (#[trigger] self.keys@[i]).rank() < key.rank(),
                forall|i: int|
                    high <= i < self.keys@.len() ==> key.rank() <= (
                    #[trigger] self.keys@[i]).rank(),
            decreases high - low,
        {
            let middle: usize = low + (high - low) / 2;
            if self.keys[middle].precedes(key) {
                assert forall|i: int| 0 <= i < middle + 1 implies (
                #[trigger] self.keys@[i]).rank() < key.rank() by {
                    if i < middle {
                        assert(self.keys@[i].rank() < self.keys@[middle as int].rank());
                    }
                }
                low = middle + 1;
            } else {
                assert forall|i: int| middle <= i < self.keys@.len() implies key.rank() <= (
                #[trigger] self.keys@[i]).rank() by {
                    if middle < i {
                        assert(self.keys@[middle as int].rank() < self.keys@[i].rank());
                    }
                }
                high = middle;
            }
        }
        low
    }

    /// The value that belongs to `key`.
    pub fn get(&self, key: &K) -> (found: Option<&T>)
        ensures
            match found {
                Some(value) => self@.dom().contains(*key) && value@ == self@[*key],
                None => !self@.dom().contains(*key),
            },
    {
        let at: usize = self.lower_bound(key);
        proof {
            use_type_invariant(self);
            lemma_contents(self.keys@, self.values@);
        }
        if at < self.keys.len() && self.keys[at].same(key) {
            Some(&self.values[at])
        } else {
            proof {
                if self.keys@.contains(*key) {
                    let p = place(self.keys@, *key);
                    assert(self.keys@[p].rank() == key.rank());
                    if at < p {
                        assert(self.keys@[at as int].rank() < self.keys@[p].rank());
                    }
                }
            }
            None
        }
    }

    /// Whether the map has `key`.
    pub fn contains_key(&self, key: &K) -> (found: bool)
        ensures
            found == self@.dom().contains(*key),
    {
        self.get(key).is_some()
    }

    /// Gives `key` the value `value`, in place of the one it had.
    pub fn insert(&mut self, key: K, value: T)
        ensures
            final(self)@ == old(self)@.insert(key, value@),
    {
        let at: usize = self.lower_bound(&key);
        proof {
            use_type_invariant(&*self);
            lemma_contents(self.keys@, self.values@);
        }
        let mut keys: Vec<K> = Vec::new();
        let mut values: Vec<T> = Vec::new();
        let ghost before = *self;
        proof {
            assert(ascending(keys@));
        }
        self.take_parts(&mut keys, &mut values);
        if at < keys.len() && keys[at].same(&key) {
            proof {
                lemma_contents_update(keys@, values@, at as int, value);
            }
            values[at] = value;
        } else {
            proof {
                assert forall|i: int| at <= i < keys@.len() implies key.rank() < (
                #[trigger] keys@[i]).rank() by {
                    key::lemma_rank_injective::<K>();
                    assert(keys@[at as int] != key);
                    if at < i {
                        assert(keys@[at as int].rank() < keys@[i].rank());
                    }
                }
                lemma_contents_insert(keys@, values@, at as int, key, value);
            }
            keys.insert(at, key);
            values.insert(at, value);
        }
        *self = OrdMap { keys, values };
    }

    /// Moves the vectors out, leaving the map empty.
    fn take_parts(&mut self, keys: &mut Vec<K>, values: &mut Vec<T>)
        ensures
            final(keys)@ == old(self).keys@,
            final(values)@ == old(self).values@,
    {
        let mut empty: OrdMap<K, T> = OrdMap { keys: Vec::new(), values: Vec::new() };
        std::mem::swap(self, &mut empty);
        let OrdMap { keys: taken_keys, values: taken_values } = empty;
        *keys = taken_keys;
        *values = taken_values;
    }

    /// Removes `key` and returns the value it had.
    pub fn remove(&mut self, key: &K) -> (removed: Option<T>)
        ensures
            final(self)@ == old(self)@.remove(*key),
            match removed {
                Some(value) => old(self)@.dom().contains(*key) && value@ == old(self)@[*key],
                None => !old(self)@.dom().contains(*key),
            },
    {
        if !self.contains_key(key) {
            assert(self@ =~= self@.remove(*key));
            return None;
        }
        let at: usize = self.lower_bound(key);
        proof {
            use_type_invariant(&*self);
            lemma_contents(self.keys@, self.values@);
            let p = place(self.keys@, *key);
            assert(0 <= p < self.keys@.len() && self.keys@[p] == *key);
            assert(at <= p);
            assert(at == p) by {
                if at < p {
                    assert(self.keys@[at as int].rank() < self.keys@[p].rank());
                }
            }
        }
        let mut keys: Vec<K> = Vec::new();
        let mut values: Vec<T> = Vec::new();
        self.take_parts(&mut keys, &mut values);
        proof {
            lemma_contents_remove(keys@, values@, at as int);
        }
        let _ = keys.remove(at);
        let value: T = values.remove(at);
        *self = OrdMap { keys, values };
        Some(value)
    }

    /// Drops every key that does not come after `bound`.
    pub fn remove_through(&mut self, bound: &K)
        ensures
            final(self)@ == after(old(self)@, *bound),
    {
        proof {
            use_type_invariant(&*self);
        }
        let ghost target = after(self@, *bound);
        while self.len() > 0 && !bound.precedes(self.key_at(0))
            invariant
                after(self@, *bound) == target,
            decreases self@.len(),
        {
            let ghost before = self@;
            let key: &K = self.key_at(0);
            let ghost gone = *key;
            let mut keys: Vec<K> = Vec::new();
            let mut values: Vec<T> = Vec::new();
            proof {
                use_type_invariant(&*self);
                lemma_contents(self.keys@, self.values@);
                lemma_contents_remove(self.keys@, self.values@, 0);
            }
            self.take_parts(&mut keys, &mut values);
            let _ = keys.remove(0);
            let _ = values.remove(0);
            *self = OrdMap { keys, values };
            assert(self@ == before.remove(gone));
            assert(after(self@, *bound) =~= after(before, *bound));
        }
        proof {
            use_type_invariant(&*self);
            lemma_contents(self.keys@, self.values@);
        }
        assert(self@ =~= after(self@, *bound)) by {
            assert forall|k: K| self@.dom().contains(k) implies bound.rank() < k.rank() by {
                let p = place(self.keys(), k);
                assert(0 <= p < self.keys().len() && self.keys()[p] == k);
                if 0 < p {
                    assert(self.keys()[0].rank() < self.keys()[p].rank());
                }
            }
        }
    }
}

impl<K: Key, T: Duplicate> Duplicate for OrdMap<K, T> {
    fn duplicate_value(&self) -> (copy: Self) {
        let count: usize = self.len();
        let mut copy: OrdMap<K, T> = OrdMap::new();
        let mut i: usize = 0;
        while i < count
            invariant
                i <= count == self.keys().len(),
                lists(self.keys(), self@),
                copy@ == self@.restrict(self.keys().take(i as int).to_set()),
            decreases count - i,
        {
            let key: K = self.key_at(i).duplicate();
            let value: T = self.value_at(i).duplicate_value();
            copy.insert(key, value);
            proof {
                let keys = self.keys();
                assert(keys.take(i + 1) =~= keys.take(i as int).push(keys[i as int]));
                assert(keys.take(i + 1).to_set() =~= keys.take(i as int).to_set().insert(
                    keys[i as int],
                )) by {
                    keys.take(i as int).lemma_push_to_set_commute(keys[i as int]);
                }
                assert(copy@ =~= self@.restrict(keys.take(i + 1).to_set()));
            }
            i += 1;
        }
        proof {
            assert(self.keys().take(count as int) =~= self.keys());
            assert(copy@ =~= self@);
        }
        copy
    }
}

impl<K: Key, T: Duplicate> Clone for OrdMap<K, T> {
    fn clone(&self) -> (copy: Self)
        ensures
            copy@ == self@,
    {
        self.duplicate_value()
    }
}

impl<K: Key, T: View> Default for OrdMap<K, T> {
    fn default() -> (map: Self)
        ensures
            map@ == Map::<K, T::V>::empty(),
    {
        OrdMap::new()
    }
}

/// A set of ordered keys, listed in ascending order.
#[derive(Debug, PartialEq, Eq)]
pub struct OrdSet<K: Key> {
    members: OrdMap<K, ()>,
}

impl<K: Key> View for OrdSet<K> {
    type V = Set<K>;

    closed spec fn view(&self) -> Set<K> {
        self.members@.dom()
    }
}

/// A map has finitely many keys.
pub proof fn lemma_map_is_finite<K: Key, T: View>(map: OrdMap<K, T>)
    ensures
        map@.dom().finite(),
{
    vstd::seq_lib::seq_to_set_is_finite(map.keys@);
    assert(map@.dom() =~= map.keys@.to_set());
}

/// A set has finitely many elements.
pub proof fn lemma_set_is_finite<K: Key>(set: OrdSet<K>)
    ensures
        set@.finite(),
{
    lemma_map_is_finite(set.members);
}

/// What the order of the elements says of the set they make up.
pub open spec fn lists_set<K: Key>(keys: Seq<K>, set: Set<K>) -> bool {
    &&& ascending(keys)
    &&& set == keys.to_set()
    &&& set.finite()
    &&& set.len() == keys.len()
    &&& forall|k: K| #[trigger] set.contains(k) <==> keys.contains(k)
    &&& forall|i: int| 0 <= i < keys.len() ==> set.contains(#[trigger] keys[i])
}

/// The elements of a finite set in ascending order.
pub open spec fn in_order<K: Key>(set: Set<K>) -> Seq<K> {
    choose|keys: Seq<K>| ascending(keys) && #[trigger] keys.to_set() == set
}

/// A set has one listing in ascending order.
pub proof fn lemma_in_order<K: Key>(keys: Seq<K>)
    requires
        ascending(keys),
    ensures
        in_order(keys.to_set()) == keys,
{
    let other = in_order(keys.to_set());
    assert(ascending(other) && other.to_set() == keys.to_set());
    lemma_ascending_unique(keys, other);
}

/// Every finite set has a listing in ascending order.
pub proof fn lemma_in_order_exists<K: Key>(set: Set<K>)
    requires
        set.finite(),
    ensures
        lists_set(in_order(set), set),
    decreases set.len(),
{
    if set.len() == 0 {
        assert(Seq::<K>::empty().to_set() =~= set);
        assert(ascending(Seq::<K>::empty()));
    } else {
        let last = set.choose();
        let rest = set.remove(last);
        lemma_in_order_exists(rest);
        let sorted = in_order(rest);
        assert(!sorted.contains(last)) by {
            if sorted.contains(last) {
                assert(rest.contains(last));
            }
        }
        lemma_insert_sorted(sorted, last, 0);
        let longer = choose|longer: Seq<K>| #[trigger]
            ascending(longer) && longer.to_set() == sorted.to_set().insert(last);
        assert(longer.to_set() =~= set);
    }
    let keys = in_order(set);
    assert(ascending(keys) && keys.to_set() == set);
    lemma_ascending_distinct(keys);
    assert forall|k: K| #[trigger] set.contains(k) <==> keys.contains(k) by {
        assert(keys.to_set().contains(k) == keys.contains(k));
    }
    assert forall|i: int| 0 <= i < keys.len() implies set.contains(#[trigger] keys[i]) by {
        assert(keys.contains(keys[i]));
    }
}

/// A new key has a place among ascending ones.
proof fn lemma_insert_sorted<K: Key>(sorted: Seq<K>, key: K, at: int)
    requires
        ascending(sorted),
        !sorted.contains(key),
        0 <= at <= sorted.len(),
        forall|i: int| 0 <= i < at ==> (#[trigger] sorted[i]).rank() < key.rank(),
    ensures
        exists|longer: Seq<K>| #[trigger]
            ascending(longer) && longer.to_set() == sorted.to_set().insert(key),
    decreases sorted.len() - at,
{
    if at < sorted.len() && sorted[at].rank() < key.rank() {
        lemma_insert_sorted(sorted, key, at + 1);
    } else {
        let longer = sorted.insert(at, key);
        assert(ascending(longer)) by {
            assert forall|i: int, j: int| 0 <= i < j < longer.len() implies (
            #[trigger] longer[i]).rank() < (#[trigger] longer[j]).rank() by {
                let p = if i < at { i } else { i - 1 };
                let q = if j < at { j } else { j - 1 };
                if at < sorted.len() {
                    assert(sorted.contains(sorted[at]));
                    key::lemma_rank_injective::<K>();
                    assert(sorted[at].rank() != key.rank());
                }
                if i == at {
                    assert(longer[j] == sorted[q]);
                    if at < q {
                        assert(sorted[at].rank() < sorted[q].rank());
                    }
                } else if j == at {
                    assert(longer[i] == sorted[p]);
                } else {
                    assert(longer[i] == sorted[p] && longer[j] == sorted[q]);
                }
            }
        }
        assert(longer.to_set() =~= sorted.to_set().insert(key)) by {
            assert forall|k: K| longer.contains(k) <==> sorted.contains(k) || k == key by {
                if sorted.contains(k) {
                    let p = place(sorted, k);
                    assert(0 <= p < sorted.len() && sorted[p] == k);
                    assert(longer[if p < at { p } else { p + 1 }] == k);
                }
                if k == key {
                    assert(longer[at] == k);
                }
                if longer.contains(k) {
                    let p = place(longer, k);
                    assert(0 <= p < longer.len() && longer[p] == k);
                    if p != at {
                        assert(sorted[if p < at { p } else { p - 1 }] == k);
                    }
                }
            }
        }
    }
}

/// Two ascending sequences with the same elements are equal.
pub proof fn lemma_ascending_unique<K: Key>(a: Seq<K>, b: Seq<K>)
    requires
        ascending(a),
        ascending(b),
        a.to_set() == b.to_set(),
    ensures
        a == b,
    decreases a.len(),
{
    lemma_ascending_distinct(a);
    lemma_ascending_distinct(b);
    assert forall|k: K| a.contains(k) <==> b.contains(k) by {
        assert(a.to_set().contains(k) == a.contains(k));
        assert(b.to_set().contains(k) == b.contains(k));
    }
    if a.len() == 0 {
        assert(a =~= b);
    } else {
        let n = a.len() - 1;
        assert(a[n] == b[n]) by {
            key::lemma_rank_injective::<K>();
            assert(b.contains(a[n]));
            assert(a.contains(b[n]));
            let p = place(b, a[n]);
            let q = place(a, b[n]);
            assert(0 <= p < b.len() && b[p] == a[n]);
            assert(0 <= q < a.len() && a[q] == b[n]);
            if p < n {
                assert(b[p].rank() < b[n].rank());
                if q < n {
                    assert(a[q].rank() < a[n].rank());
                }
            }
        }
        let (x, y) = (a.drop_last(), b.drop_last());
        assert(x.to_set() =~= y.to_set()) by {
            assert forall|k: K| x.contains(k) implies y.contains(k) by {
                let p = place(x, k);
                assert(0 <= p < x.len() && x[p] == k && a[p] == k);
                assert(b.contains(k));
                let q = place(b, k);
                assert(0 <= q < b.len() && b[q] == k);
                if q == n {
                    assert(a[p].rank() < a[n].rank());
                }
                assert(y[q] == k);
            }
            assert forall|k: K| y.contains(k) implies x.contains(k) by {
                let p = place(y, k);
                assert(0 <= p < y.len() && y[p] == k && b[p] == k);
                assert(a.contains(k));
                let q = place(a, k);
                assert(0 <= q < a.len() && a[q] == k);
                if q == n {
                    assert(b[p].rank() < b[n].rank());
                }
                assert(x[q] == k);
            }
        }
        lemma_ascending_unique(x, y);
        assert(a =~= x.push(a[n]));
        assert(b =~= y.push(b[n]));
    }
}

impl<K: Key> OrdSet<K> {
    /// The elements in ascending order.
    pub closed spec fn elements(&self) -> Seq<K> {
        self.members.keys()
    }

    /// An empty set.
    pub fn new() -> (set: Self)
        ensures
            set@ == Set::<K>::empty(),
    {
        let set = OrdSet { members: OrdMap::new() };
        assert(set@ =~= Set::<K>::empty());
        set
    }

    /// How many elements the set has; they are listed in ascending order.
    pub fn len(&self) -> (count: usize)
        ensures
            count == self@.len(),
            count == self.elements().len(),
            lists_set(self.elements(), self@),
    {
        self.members.len()
    }

    /// Whether the set has no element.
    pub fn is_empty(&self) -> (empty: bool)
        ensures
            empty == (self@ == Set::<K>::empty()),
            empty == (self@.len() == 0),
    {
        let empty = self.members.is_empty();
        proof {
            if empty {
                assert(self@ =~= Set::<K>::empty());
            } else {
                assert(self@ != Set::<K>::empty()) by {
                    if self@ == Set::<K>::empty() {
                        assert(self.members@ =~= Map::<K, ()>::empty());
                    }
                }
            }
        }
        empty
    }

    /// The element at a place in the order.
    pub fn element_at(&self, i: usize) -> (element: &K)
        requires
            i < self.elements().len(),
        ensures
            *element == self.elements()[i as int],
            self@.contains(*element),
    {
        self.members.key_at(i)
    }

    /// Whether `key` is in the set.
    pub fn contains(&self, key: &K) -> (found: bool)
        ensures
            found == self@.contains(*key),
    {
        self.members.contains_key(key)
    }

    /// Adds `key`; says whether it was absent.
    pub fn insert(&mut self, key: K) -> (added: bool)
        ensures
            final(self)@ == old(self)@.insert(key),
            added == !old(self)@.contains(key),
    {
        if self.members.contains_key(&key) {
            assert(self@ =~= self@.insert(key));
            false
        } else {
            self.members.insert(key, ());
            assert(self@ =~= old(self)@.insert(key));
            true
        }
    }

    /// Removes `key`; says whether it was present.
    pub fn remove(&mut self, key: &K) -> (removed: bool)
        ensures
            final(self)@ == old(self)@.remove(*key),
            removed == old(self)@.contains(*key),
    {
        let removed = self.members.remove(key).is_some();
        assert(self@ =~= old(self)@.remove(*key));
        removed
    }

    /// The elements of a list, each once.
    pub fn from_slice(list: &[K]) -> (set: Self)
        ensures
            set@ == list@.to_set(),
            set@.finite(),
    {
        let mut set: OrdSet<K> = OrdSet::new();
        let mut i: usize = 0;
        while i < list.len()
            invariant
                i <= list@.len(),
                set@ == list@.take(i as int).to_set(),
            decreases list@.len() - i,
        {
            let _ = set.insert(list[i].duplicate());
            proof {
                assert(list@.take(i + 1) =~= list@.take(i as int).push(list@[i as int]));
                list@.take(i as int).lemma_push_to_set_commute(list@[i as int]);
            }
            i += 1;
        }
        assert(list@.take(i as int) =~= list@);
        proof {
            lemma_set_is_finite(set);
        }
        set
    }

    /// The elements in ascending order.
    pub fn to_vec(&self) -> (list: Vec<K>)
        ensures
            list@ == self.elements(),
            list@ == in_order(self@),
            lists_set(list@, self@),
    {
        let count: usize = self.len();
        let mut list: Vec<K> = Vec::new();
        let mut i: usize = 0;
        while i < count
            invariant
                i <= count == self.elements().len(),
                list@ == self.elements().take(i as int),
            decreases count - i,
        {
            list.push(self.element_at(i).duplicate());
            assert(self.elements().take(i + 1) =~= self.elements().take(i as int).push(
                self.elements()[i as int],
            ));
            i += 1;
        }
        proof {
            assert(list@ =~= self.elements());
            lemma_in_order(self.elements());
        }
        list
    }

    /// Whether every element is also in `other`.
    pub fn is_subset(&self, other: &OrdSet<K>) -> (inside: bool)
        ensures
            inside == self@.subset_of(other@),
    {
        let count: usize = self.len();
        let mut i: usize = 0;
        while i < count
            invariant
                i <= count == self.elements().len(),
                lists_set(self.elements(), self@),
                forall|j: int| 0 <= j < i ==> other@.contains(#[trigger] self.elements()[j]),
            decreases count - i,
        {
            if !other.contains(self.element_at(i)) {
                assert(self@.contains(self.elements()[i as int]));
                return false;
            }
            i += 1;
        }
        assert(self@.subset_of(other@)) by {
            assert forall|k: K| self@.contains(k) implies other@.contains(k) by {
                let p = place(self.elements(), k);
                assert(0 <= p < self.elements().len() && self.elements()[p] == k);
            }
        }
        true
    }

    /// Whether both sets have the same elements.
    pub fn same_elements(&self, other: &OrdSet<K>) -> (equal: bool)
        ensures
            equal == (self@ == other@),
    {
        let equal = self.is_subset(other) && other.is_subset(self);
        proof {
            if equal {
                assert(self@ =~= other@);
            }
        }
        equal
    }

    /// Drops every element that does not come after `bound`.
    pub fn remove_through(&mut self, bound: &K)
        ensures
            final(self)@ == old(self)@.filter(|k: K| bound.rank() < k.rank()),
    {
        self.members.remove_through(bound);
        assert(self@ =~= old(self)@.filter(|k: K| bound.rank() < k.rank()));
    }
}

impl Duplicate for () {
    fn duplicate_value(&self) -> (copy: Self) {
        ()
    }
}

impl<K: Key> Duplicate for OrdSet<K> {
    fn duplicate_value(&self) -> (copy: Self) {
        OrdSet { members: self.members.duplicate_value() }
    }
}

impl<K: Key> Clone for OrdSet<K> {
    fn clone(&self) -> (copy: Self)
        ensures
            copy@ == self@,
    {
        self.duplicate_value()
    }
}

impl<K: Key> Default for OrdSet<K> {
    fn default() -> (set: Self)
        ensures
            set@ == Set::<K>::empty(),
    {
        OrdSet::new()
    }
}

} // verus!
