//! A map keyed by texts and walked in the order of its keys.

use vstd::prelude::*;

use crate::text::chars_of;

verus! {

/// `a` and `b` agree on their first `k` characters, and there `a` ends or goes on with a smaller
/// character than `b`.
pub open spec fn diverges_below(a: Seq<char>, b: Seq<char>, k: int) -> bool {
    &&& 0 <= k <= a.len()
    &&& k < b.len()
    &&& forall|i: int| 0 <= i < k ==> a[i] == b[i]
    &&& k == a.len() || a[k] < b[k]
}

/// The dictionary order of texts, by code point.
pub open spec fn before(a: Seq<char>, b: Seq<char>) -> bool {
    exists|k: int| diverges_below(a, b, k)
}

/// Every key stands before all the keys that follow it.
pub open spec fn ascending(keys: Seq<Seq<char>>) -> bool {
    forall|i: int, j: int| 0 <= i < j < keys.len() ==> before(#[trigger] keys[i], #[trigger] keys[j])
}

/// `least` stands before every other name of the set.
pub open spec fn is_least(names: Set<Seq<char>>, least: Seq<char>) -> bool {
    &&& names.contains(least)
    &&& forall|name: Seq<char>| #[trigger] names.contains(name) ==> name == least || before(least, name)
}

/// No text stands before itself.
pub proof fn lemma_before_irreflexive(a: Seq<char>)
    ensures
        !before(a, a),
{
}

/// The dictionary order is transitive.
pub proof fn lemma_before_transitive(a: Seq<char>, b: Seq<char>, c: Seq<char>)
    requires
        before(a, b),
        before(b, c),
    ensures
        before(a, c),
{
    let k = choose|k: int| diverges_below(a, b, k);
    let m = choose|m: int| diverges_below(b, c, m);
    let least = if k < m { k } else { m };
    assert(diverges_below(a, c, least));
}

/// Of two different texts exactly one stands before the other.
pub proof fn lemma_before_total(a: Seq<char>, b: Seq<char>)
    ensures
        a == b || before(a, b) || before(b, a),
        !(before(a, b) && before(b, a)),
{
    if before(a, b) && before(b, a) {
        lemma_before_transitive(a, b, a);
        lemma_before_irreflexive(a);
    }
    if a != b {
        lemma_divergence(a, b, 0);
    }
}

/// Different texts that agree on their first `k` characters diverge somewhere.
proof fn lemma_divergence(a: Seq<char>, b: Seq<char>, k: int)
    requires
        a != b,
        0 <= k <= a.len(),
        k <= b.len(),
        forall|i: int| 0 <= i < k ==> a[i] == b[i],
    ensures
        before(a, b) || before(b, a),
    decreases a.len() - k,
{
    if k == a.len() {
        if k == b.len() {
            assert(a =~= b);
        } else {
            assert(diverges_below(a, b, k));
        }
    } else if k == b.len() {
        assert(diverges_below(b, a, k));
    } else if a[k] < b[k] {
        assert(diverges_below(a, b, k));
    } else if b[k] < a[k] {
        assert(diverges_below(b, a, k));
    } else {
        lemma_divergence(a, b, k + 1);
    }
}

/// A set of names has at most one least name.
pub proof fn lemma_least_unique(names: Set<Seq<char>>, a: Seq<char>, b: Seq<char>)
    requires
        is_least(names, a),
        is_least(names, b),
    ensures
        a == b,
{
    lemma_before_total(a, b);
}

/// A set of names that are all listed has a least name, unless it is empty.
pub proof fn lemma_least_exists(names: Set<Seq<char>>, list: Seq<Seq<char>>, some: Seq<char>)
    requires
        names.contains(some),
        forall|name: Seq<char>| #[trigger] names.contains(name) ==> list.contains(name),
    ensures
        exists|least: Seq<char>| is_least(names, least),
    decreases list.len(),
{
    assert(list.contains(some));
    let last = list.last();
    let others = names.remove(last);
    assert forall|name: Seq<char>| #[trigger] others.contains(name) implies list.drop_last().contains(
        name,
    ) by {
        assert(names.contains(name));
        let i = list.index_of(name);
        assert(list.drop_last()[i] == name);
    }
    if exists|other: Seq<char>| others.contains(other) {
        let other = choose|other: Seq<char>| others.contains(other);
        lemma_least_exists(others, list.drop_last(), other);
        let least = choose|least: Seq<char>| is_least(others, least);
        if names.contains(last) && before(last, least) {
            assert forall|name: Seq<char>| #[trigger] names.contains(name) implies name == last
                || before(last, name) by {
                if name != last {
                    assert(others.contains(name));
                    if name != least {
                        lemma_before_transitive(last, least, name);
                    }
                }
            }
            assert(is_least(names, last));
        } else {
            lemma_before_total(last, least);
            assert forall|name: Seq<char>| #[trigger] names.contains(name) implies name == least
                || before(least, name) by {
                if name != last {
                    assert(others.contains(name));
                }
            }
            assert(is_least(names, least));
        }
    } else {
        assert forall|name: Seq<char>| #[trigger] names.contains(name) implies name == last by {
            if name != last {
                assert(others.contains(name));
            }
        }
        assert(is_least(names, last));
    }
}

/// Where two texts stand to each other.
#[derive(Debug, Clone, Copy, PartialEq, Eq)]
pub enum Placement {
    Before,
    Same,
    After,
}

/// Places `a` relative to `b` in dictionary order.
pub fn place(a: &str, b: &str) -> (placement: Placement)
    ensures
        match placement {
            Placement::Before => before(a@, b@),
            Placement::Same => a@ == b@,
            Placement::After => before(b@, a@),
        },
{
    let x = chars_of(a);
    let y = chars_of(b);
    let mut i: usize = 0;
    while i < x.len() && i < y.len()
        invariant
            i <= x.len(),
            i <= y.len(),
            x@ == a@,
            y@ == b@,
            forall|j: int| 0 <= j < i ==> x[j] == y[j],
        decreases x.len() - i,
    {
        if x[i] < y[i] {
            assert(diverges_below(a@, b@, i as int));
            return Placement::Before;
        }
        if y[i] < x[i] {
            assert(diverges_below(b@, a@, i as int));
            return Placement::After;
        }
        i = i + 1;
    }
    if i < y.len() {
        assert(diverges_below(a@, b@, i as int));
        Placement::Before
    } else if i < x.len() {
        assert(diverges_below(b@, a@, i as int));
        Placement::After
    } else {
        assert(a@ =~= b@);
        Placement::Same
    }
}

/// The map that gives each key the value at the same position.
pub open spec fn pairing<V>(keys: Seq<Seq<char>>, values: Seq<V>) -> Map<Seq<char>, V> {
    Map::new(|key: Seq<char>| keys.contains(key), |key: Seq<char>| values[keys.index_of(key)])
}

/// A map from texts to values, held in ascending order of the texts.
#[derive(Debug)]
pub struct StrMap<V> {
    entries: Vec<(String, V)>,
}

impl<V> View for StrMap<V> {
    type V = Map<Seq<char>, V>;

    open spec fn view(&self) -> Map<Seq<char>, V> {
        pairing(self.keys(), self.values())
    }
}

impl<V> StrMap<V> {
    /// The keys in ascending order.
    pub closed spec fn keys(self) -> Seq<Seq<char>> {
        self.entries@.map_values(|entry: (String, V)| entry.0@)
    }

    /// The values in the order of their keys.
    pub closed spec fn values(self) -> Seq<V> {
        self.entries@.map_values(|entry: (String, V)| entry.1)
    }

    #[verifier::type_invariant]
    spec fn well_formed(self) -> bool {
        ascending(self.keys())
    }

    /// Creates an empty map.
    pub fn new() -> (map: Self)
        ensures
            map.keys() == Seq::<Seq<char>>::empty(),
            map@ == Map::<Seq<char>, V>::empty(),
    {
        let map = StrMap { entries: Vec::new() };
        assert(map.keys() =~= Seq::<Seq<char>>::empty());
        assert(map@ =~= Map::<Seq<char>, V>::empty());
        map
    }

    /// Returns how many keys the map holds.
    pub fn len(&self) -> (len: usize)
        ensures
            len == self.keys().len(),
            len == self.values().len(),
            ascending(self.keys()),
    {
        proof {
            use_type_invariant(self);
        }
        self.entries.len()
    }

    /// Returns the key at position `i` of the ascending order.
    pub fn key_at(&self, i: usize) -> (key: &str)
        requires
            i < self.keys().len(),
        ensures
            key@ == self.keys()[i as int],
            self@.contains_key(key@),
    {
        assert(self.keys().contains(self.keys()[i as int]));
        self.entries[i].0.as_str()
    }

    /// Returns the value of the key at position `i` of the ascending order.
    pub fn value_at(&self, i: usize) -> (value: &V)
        requires
            i < self.keys().len(),
        ensures
            *value == self.values()[i as int],
            *value == self@[self.keys()[i as int]],
    {
        proof {
            use_type_invariant(self);
            lemma_position(self.keys(), i as int);
        }
        &self.entries[i].1
    }
}

impl<V> StrMap<V> {
    /// There is a value for each key.
    pub proof fn lemma_as_many_values(self)
        ensures
            self.keys().len() == self.values().len(),
    {
    }
}

impl<V> StrMap<V> {
    /// Finds where `key` stands, or where it would have to stand.
    fn locate(&self, key: &str) -> (place: Result<usize, usize>)
        ensures
            match place {
                Ok(i) => i < self.keys().len() && self.keys()[i as int] == key@,
                Err(i) => {
                    &&& i <= self.keys().len()
                    &&& !self.keys().contains(key@)
                    &&& forall|j: int| 0 <= j < i ==> before(#[trigger] self.keys()[j], key@)
                    &&& forall|j: int|
                        i <= j < self.keys().len() ==> before(key@, #[trigger] self.keys()[j])
                },
            },
    {
        proof {
            use_type_invariant(self);
        }
        let mut low: usize = 0;
        let mut high: usize = self.entries.len();
        while low < high
            invariant
                low <= high <= self.entries.len(),
                self.keys().len() == self.entries.len(),
                ascending(self.keys()),
                forall|j: int| 0 <= j < low ==> before(#[trigger] self.keys()[j], key@),
                forall|j: int|
                    high <= j < self.keys().len() ==> before(key@, #[trigger] self.keys()[j]),
            decreases high - low,
        {
            let mid: usize = low + (high - low) / 2;
            assert(self.keys()[mid as int] == self.entries[mid as int].0@);
            match place(self.entries[mid].0.as_str(), key) {
                Placement::Same => {
                    return Ok(mid);
                },
                Placement::Before => {
                    assert forall|j: int| 0 <= j <= mid implies before(
                        #[trigger] self.keys()[j],
                        key@,
                    ) by {
                        if j < mid {
                            lemma_before_transitive(self.keys()[j], self.keys()[mid as int], key@);
                        }
                    }
                    low = mid + 1;
                },
                Placement::After => {
                    assert forall|j: int| mid <= j < self.keys().len() implies before(
                        key@,
                        #[trigger] self.keys()[j],
                    ) by {
                        if mid < j {
                            lemma_before_transitive(key@, self.keys()[mid as int], self.keys()[j]);
                        }
                    }
                    high = mid;
                },
            }
        }
        proof {
            lemma_before_irreflexive(key@);
        }
        Err(low)
    }

    /// Returns the value of `key`.
    pub fn get(&self, key: &str) -> (value: Option<&V>)
        ensures
            match value {
                Some(v) => self@.contains_key(key@) && *v == self@[key@],
                None => !self@.contains_key(key@),
            },
    {
        match self.locate(key) {
            Ok(i) => {
                assert(self.keys().contains(self.keys()[i as int]));
                Some(self.value_at(i))
            },
            Err(_) => None,
        }
    }

    /// Gives `key` the value `value`, in place of any value it had.
    pub fn insert(&mut self, key: String, value: V)
        ensures
            final(self)@ == old(self)@.insert(key@, value),
    {
        proof {
            use_type_invariant(&*self);
        }
        let place = self.locate(key.as_str());
        let ghost keys = self.keys();
        let ghost values = self.values();
        let mut entries: Vec<(String, V)> = Vec::new();
        std::mem::swap(&mut entries, &mut self.entries);
        match place {
            Ok(i) => {
                entries[i] = (key, value);
                proof {
                    let now = StrMap { entries };
                    assert(now.keys() =~= keys);
                    assert(now.values() =~= values.update(i as int, value));
                    lemma_pairing_update(keys, values, i as int, value);
                }
            },
            Err(i) => {
                entries.insert(i, (key, value));
                proof {
                    let now = StrMap { entries };
                    assert(now.keys() =~= keys.insert(i as int, key@));
                    assert(now.values() =~= values.insert(i as int, value));
                    lemma_pairing_insert(keys, values, i as int, key@, value);
                }
            },
        }
        self.entries = entries;
    }

    /// Takes `key` out of the map and returns the value it had.
    pub fn remove(&mut self, key: &str) -> (value: Option<V>)
        ensures
            final(self)@ == old(self)@.remove(key@),
            match value {
                Some(v) => old(self)@.contains_key(key@) && v == old(self)@[key@],
                None => !old(self)@.contains_key(key@),
            },
    {
        proof {
            use_type_invariant(&*self);
        }
        match self.locate(key) {
            Ok(i) => {
                let ghost keys = self.keys();
                let ghost values = self.values();
                let mut entries: Vec<(String, V)> = Vec::new();
                std::mem::swap(&mut entries, &mut self.entries);
                let (_, value) = entries.remove(i);
                proof {
                    let now = StrMap { entries };
                    assert(now.keys() =~= keys.remove(i as int));
                    assert(now.values() =~= values.remove(i as int));
                    lemma_pairing_remove(keys, values, i as int);
                }
                self.entries = entries;
                Some(value)
            },
            Err(_) => {
                assert(self@.remove(key@) =~= self@);
                None
            },
        }
    }
}

/// Two sequences of values, one the clone of the other element by element.
pub open spec fn clones<V: Clone>(values: Seq<V>, copies: Seq<V>) -> bool {
    &&& values.len() == copies.len()
    &&& forall|i: int| 0 <= i < values.len() ==> cloned(#[trigger] values[i], copies[i])
}

impl<V: Clone> Clone for StrMap<V> {
    fn clone(&self) -> (copy: Self)
        ensures
            copy.keys() == self.keys(),
            clones(self.values(), copy.values()),
    {
        proof {
            use_type_invariant(self);
        }
        let mut entries: Vec<(String, V)> = Vec::new();
        let mut i: usize = 0;
        while i < self.entries.len()
            invariant
                i <= self.entries.len(),
                entries.len() == i,
                forall|j: int| 0 <= j < i ==> (#[trigger] entries[j]).0 == self.entries[j].0,
                forall|j: int|
                    0 <= j < i ==> cloned(self.entries[j].1, (#[trigger] entries[j]).1),
            decreases self.entries.len() - i,
        {
            entries.push((self.entries[i].0.clone(), self.entries[i].1.clone()));
            i = i + 1;
        }
        proof {
            let copy = StrMap { entries };
            assert(copy.keys() =~= self.keys());
            assert forall|j: int| 0 <= j < self.values().len() implies cloned(
                #[trigger] self.values()[j],
                copy.values()[j],
            ) by {
                assert(cloned(self.entries[j].1, entries[j].1));
            }
        }
        StrMap { entries }
    }
}

/// The pairing of ascending keys gives each key the value beside it.
proof fn lemma_pairing<V>(keys: Seq<Seq<char>>, values: Seq<V>)
    requires
        ascending(keys),
        keys.len() == values.len(),
    ensures
        forall|i: int|
            0 <= i < keys.len() ==> #[trigger] pairing(keys, values).contains_key(keys[i])
                && pairing(keys, values)[keys[i]] == values[i],
{
    assert forall|i: int| 0 <= i < keys.len() implies #[trigger] pairing(keys, values).contains_key(
        keys[i],
    ) && pairing(keys, values)[keys[i]] == values[i] by {
        lemma_position(keys, i);
    }
}

/// Two pairings with the same keys and values beside them are the same map.
proof fn lemma_pairing_is<V>(keys: Seq<Seq<char>>, values: Seq<V>, map: Map<Seq<char>, V>)
    requires
        ascending(keys),
        keys.len() == values.len(),
        forall|i: int|
            0 <= i < keys.len() ==> map.contains_key(#[trigger] keys[i]) && map[keys[i]]
                == values[i],
        forall|key: Seq<char>| #[trigger] map.contains_key(key) ==> keys.contains(key),
    ensures
        pairing(keys, values) == map,
{
    let paired = pairing(keys, values);
    assert forall|key: Seq<char>| #[trigger] paired.contains_key(key) implies map.contains_key(key)
        && paired[key] == map[key] by {
        let i = keys.index_of(key);
        assert(0 <= i < keys.len() && keys[i] == key);
    }
    assert(paired =~= map);
}

proof fn lemma_pairing_update<V>(keys: Seq<Seq<char>>, values: Seq<V>, i: int, value: V)
    requires
        ascending(keys),
        keys.len() == values.len(),
        0 <= i < keys.len(),
    ensures
        pairing(keys, values.update(i, value)) == pairing(keys, values).insert(keys[i], value),
{
    lemma_pairing(keys, values);
    let map = pairing(keys, values).insert(keys[i], value);
    assert forall|j: int| 0 <= j < keys.len() implies map.contains_key(#[trigger] keys[j])
        && map[keys[j]] == values.update(i, value)[j] by {
        assert(pairing(keys, values).contains_key(keys[j]));
        if j != i {
            lemma_position(keys, i);
            lemma_position(keys, j);
        }
    }
    assert(keys.contains(keys[i]));
    lemma_pairing_is(keys, values.update(i, value), map);
}

proof fn lemma_pairing_insert<V>(
    keys: Seq<Seq<char>>,
    values: Seq<V>,
    i: int,
    key: Seq<char>,
    value: V,
)
    requires
        ascending(keys),
        keys.len() == values.len(),
        0 <= i <= keys.len(),
        !keys.contains(key),
        forall|j: int| 0 <= j < i ==> before(#[trigger] keys[j], key),
        forall|j: int| i <= j < keys.len() ==> before(key, #[trigger] keys[j]),
    ensures
        ascending(keys.insert(i, key)),
        pairing(keys.insert(i, key), values.insert(i, value)) == pairing(keys, values).insert(
            key,
            value,
        ),
{
    lemma_pairing(keys, values);
    let wider = keys.insert(i, key);
    let map = pairing(keys, values).insert(key, value);
    assert forall|a: int, b: int| 0 <= a < b < wider.len() implies before(
        #[trigger] wider[a],
        #[trigger] wider[b],
    ) by {
        let from = if a < i { a } else { a - 1 };
        let to = if b < i { b } else { b - 1 };
        if a != i {
            assert(wider[a] == keys[from]);
        }
        if b != i {
            assert(wider[b] == keys[to]);
        }
    }
    assert forall|j: int| 0 <= j < wider.len() implies map.contains_key(#[trigger] wider[j])
        && map[wider[j]] == values.insert(i, value)[j] by {
        if j != i {
            let from = if j < i { j } else { j - 1 };
            assert(wider[j] == keys[from]);
            assert(pairing(keys, values).contains_key(keys[from]));
        }
    }
    assert forall|k: Seq<char>| #[trigger] map.contains_key(k) implies wider.contains(k) by {
        if k == key {
            assert(wider[i] == key);
        } else {
            let j = keys.index_of(k);
            let to = if j < i { j } else { j + 1 };
            assert(wider[to] == k);
        }
    }
    lemma_pairing_is(wider, values.insert(i, value), map);
}

proof fn lemma_pairing_remove<V>(keys: Seq<Seq<char>>, values: Seq<V>, i: int)
    requires
        ascending(keys),
        keys.len() == values.len(),
        0 <= i < keys.len(),
    ensures
        ascending(keys.remove(i)),
        pairing(keys.remove(i), values.remove(i)) == pairing(keys, values).remove(keys[i]),
{
    lemma_pairing(keys, values);
    let narrower = keys.remove(i);
    let map = pairing(keys, values).remove(keys[i]);
    assert forall|j: int| 0 <= j < narrower.len() implies map.contains_key(#[trigger] narrower[j])
        && map[narrower[j]] == values.remove(i)[j] by {
        let from = if j < i { j } else { j + 1 };
        assert(narrower[j] == keys[from]);
        assert(pairing(keys, values).contains_key(keys[from]));
        lemma_position(keys, i);
        lemma_position(keys, from);
    }
    assert forall|k: Seq<char>| #[trigger] map.contains_key(k) implies narrower.contains(k) by {
        let j = keys.index_of(k);
        assert(keys[j] == k);
        let to = if j < i { j } else { j - 1 };
        assert(narrower[to] == k);
    }
    lemma_pairing_is(narrower, values.remove(i), map);
}

/// A key of an ascending sequence is found where it stands.
proof fn lemma_position(keys: Seq<Seq<char>>, i: int)
    requires
        ascending(keys),
        0 <= i < keys.len(),
    ensures
        keys.contains(keys[i]),
        keys.index_of(keys[i]) == i,
{
    let j = keys.index_of(keys[i]);
    assert(0 <= j < keys.len() && keys[j] == keys[i]);
    lemma_before_irreflexive(keys[i]);
}

} // verus!
