//! Maps and sets keyed by strings, kept in the plain order of their keys.
use crate::order;
use crate::text;
use vstd::prelude::*;

verus! {

/// A map from strings to values whose keys are in order and occur once each.
pub struct TextMap<V> {
    entries: Vec<(String, V)>,
}

/// Position of `key` among `keys`, where it occurs.
pub open spec fn position(keys: Seq<Seq<char>>, key: Seq<char>) -> int {
    choose|i: int| 0 <= i < keys.len() && keys[i] == key
}

/// Whether the keys are in order and no key occurs twice.
pub open spec fn strictly_ascending(keys: Seq<Seq<char>>) -> bool {
    forall|i: int, j: int|
        0 <= i < j < keys.len() ==> order::text_le(#[trigger] keys[i], #[trigger] keys[j])
            && keys[i] != keys[j]
}

impl<V> TextMap<V> {
    /// The keys, in order.
    pub closed spec fn keys(&self) -> Seq<Seq<char>> {
        Seq::new(self.entries@.len(), |i: int| self.entries@[i].0@)
    }

    /// The values, in the order of their keys.
    pub closed spec fn values(&self) -> Seq<V> {
        Seq::new(self.entries@.len(), |i: int| self.entries@[i].1)
    }

    /// The keys are in order and distinct.
    pub open spec fn wf(&self) -> bool {
        self.keys().len() == self.values().len() && strictly_ascending(self.keys())
    }
}

impl<V> View for TextMap<V> {
    type V = Map<Seq<char>, V>;

    open spec fn view(&self) -> Map<Seq<char>, V> {
        Map::new(
            |k: Seq<char>| self.keys().contains(k),
            |k: Seq<char>| self.values()[position(self.keys(), k)],
        )
    }
}

/// A key occurs at one place only.
pub proof fn lemma_position(keys: Seq<Seq<char>>, i: int)
    requires
        strictly_ascending(keys),
        0 <= i < keys.len(),
    ensures
        position(keys, keys[i]) == i,
{
    let p = position(keys, keys[i]);
    assert(0 <= p < keys.len() && keys[p] == keys[i]);
    if p < i {
        assert(keys[p] != keys[i]);
    } else if i < p {
        assert(keys[i] != keys[p]);
    }
}

impl<V> TextMap<V> {
    /// The value at a position belongs to the key at that position.
    pub proof fn lemma_at(&self, i: int)
        requires
            self.wf(),
            0 <= i < self.keys().len(),
        ensures
            self@.contains_key(self.keys()[i]),
            self@[self.keys()[i]] == self.values()[i],
    {
        lemma_position(self.keys(), i);
        assert(self.keys().contains(self.keys()[i]));
    }

    /// The empty map.
    pub fn new() -> (r: TextMap<V>)
        ensures
            r.wf(),
            r@ == Map::<Seq<char>, V>::empty(),
            r.keys() == Seq::<Seq<char>>::empty(),
    {
        let r = TextMap { entries: Vec::new() };
        assert(r.keys() =~= Seq::<Seq<char>>::empty());
        assert(r@ =~= Map::<Seq<char>, V>::empty());
        r
    }

    /// Number of keys.
    pub fn len(&self) -> (r: usize)
        ensures
            r == self.keys().len(),
            r == self.values().len(),
    {
        self.entries.len()
    }

    /// The key at a position.
    pub fn key_at(&self, i: usize) -> (r: &String)
        requires
            i < self.keys().len(),
        ensures
            r@ == self.keys()[i as int],
    {
        &self.entries[i].0
    }

    /// The value at a position.
    pub fn value_at(&self, i: usize) -> (r: &V)
        requires
            i < self.values().len(),
        ensures
            *r == self.values()[i as int],
    {
        &self.entries[i].1
    }

    /// The number of keys before `key`.
    fn lower_bound(&self, key: &str) -> (r: usize)
        requires
            self.wf(),
        ensures
            r <= self.keys().len(),
            forall|i: int|
                0 <= i < r ==> !order::text_le(key@, #[trigger] self.keys()[i]),
            forall|i: int|
                r <= i < self.keys().len() ==> order::text_le(key@, #[trigger] self.keys()[i]),
    {
        let mut low: usize = 0;
        let mut high: usize = self.entries.len();
        while low < high
            invariant
                self.wf(),
                low <= high <= self.entries@.len(),
                self.keys().len() == self.entries@.len(),
                forall|i: int| 0 <= i < low ==> !order::text_le(key@, #[trigger] self.keys()[i]),
                forall|i: int|
                    high <= i < self.keys().len() ==> order::text_le(
                        key@,
                        #[trigger] self.keys()[i],
                    ),
            decreases high - low,
        {
            let mid: usize = low + (high - low) / 2;
            let ghost m = self.keys()[mid as int];
            if order::text_before(key, self.entries[mid].0.as_str()) {
                proof {
                    assert forall|i: int| mid <= i < self.keys().len() implies order::text_le(
                        key@,
                        #[trigger] self.keys()[i],
                    ) by {
                        if i > mid {
                            order::lemma_text_le_transitive(key@, m, self.keys()[i]);
                        }
                    }
                }
                high = mid;
            } else {
                proof {
                    assert forall|i: int| 0 <= i < mid + 1 implies !order::text_le(
                        key@,
                        #[trigger] self.keys()[i],
                    ) by {
                        if i < mid && order::text_le(key@, self.keys()[i]) {
                            order::lemma_text_le_transitive(key@, self.keys()[i], m);
                        }
                    }
                }
                low = mid + 1;
            }
        }
        low
    }

    /// A key that occurs stands at its lower bound.
    proof fn lemma_lower_bound(&self, key: Seq<char>, at: int)
        requires
            self.wf(),
            0 <= at <= self.keys().len(),
            forall|i: int| 0 <= i < at ==> !order::text_le(key, #[trigger] self.keys()[i]),
            forall|i: int|
                at <= i < self.keys().len() ==> order::text_le(key, #[trigger] self.keys()[i]),
        ensures
            self.keys().contains(key) <==> at < self.keys().len() && self.keys()[at] == key,
    {
        if self.keys().contains(key) {
            let i = self.keys().index_of(key);
            order::lemma_lex_reflexive(order::ranks(key, '/' as int));
            assert(order::text_le(key, key));
            assert(i >= at);
            if i > at {
                assert(order::text_le(self.keys()[at], key));
                order::lemma_text_le_antisymmetric(self.keys()[at], key);
            }
        }
    }

    /// The position of `key`, where it occurs.
    pub fn index_of(&self, key: &str) -> (r: Option<usize>)
        requires
            self.wf(),
        ensures
            match r {
                Some(i) => i < self.keys().len() && self.keys()[i as int] == key@
                    && self@.contains_key(key@) && self@[key@] == self.values()[i as int],
                None => !self@.contains_key(key@),
            },
    {
        let at = self.lower_bound(key);
        proof {
            self.lemma_lower_bound(key@, at as int);
        }
        if at < self.entries.len() && text::same(self.entries[at].0.as_str(), key) {
            proof {
                self.lemma_at(at as int);
            }
            Some(at)
        } else {
            None
        }
    }

    /// The value of `key`.
    pub fn get(&self, key: &str) -> (r: Option<&V>)
        requires
            self.wf(),
        ensures
            match r {
                Some(value) => self@.contains_key(key@) && *value == self@[key@],
                None => !self@.contains_key(key@),
            },
    {
        match self.index_of(key) {
            Some(i) => Some(&self.entries[i].1),
            None => None,
        }
    }

    /// Whether `key` occurs.
    pub fn contains(&self, key: &str) -> (r: bool)
        requires
            self.wf(),
        ensures
            r == self@.contains_key(key@),
    {
        self.index_of(key).is_some()
    }

    /// Gives `key` a value, in place of the one it may have.
    pub fn insert(&mut self, key: String, value: V)
        requires
            old(self).wf(),
        ensures
            final(self).wf(),
            final(self)@ == old(self)@.insert(key@, value),
    {
        let ghost k = key@;
        let ghost before = *self;
        let at = self.lower_bound(key.as_str());
        proof {
            self.lemma_lower_bound(k, at as int);
        }
        if at < self.entries.len() && text::same(self.entries[at].0.as_str(), key.as_str()) {
            self.entries.set(at, (key, value));
            assert(self.keys() =~= before.keys());
            assert(self.values() =~= before.values().update(at as int, value));
            proof {
                lemma_position(self.keys(), at as int);
                assert forall|j: Seq<char>| #[trigger] before.keys().contains(j) && j
                    != k implies position(before.keys(), j) != at by {
                    let p = position(before.keys(), j);
                    assert(0 <= before.keys().index_of(j) < before.keys().len());
                    assert(0 <= p < before.keys().len() && before.keys()[p] == j);
                }
                assert(before.keys().contains(k));
                assert forall|j: Seq<char>| before.keys().contains(j) implies 0 <= position(
                    before.keys(),
                    j,
                ) < before.keys().len() by {
                    let q = before.keys().index_of(j);
                    assert(before.keys()[q] == j);
                }
                assert(self@ =~= before@.insert(k, value));
            }
        } else {
            self.entries.insert(at, (key, value));
            proof {
                let old_keys = before.keys();
                let keys = self.keys();
                assert(keys =~= old_keys.insert(at as int, k));
                assert(self.values() =~= before.values().insert(at as int, value));
                assert forall|i: int, j: int| 0 <= i < j < keys.len() implies order::text_le(
                    #[trigger] keys[i],
                    #[trigger] keys[j],
                ) && keys[i] != keys[j] by {
                    if i == at {
                        assert(order::text_le(k, old_keys[j - 1]));
                        assert(old_keys.contains(old_keys[j - 1]));
                    } else if j == at {
                        order::lemma_text_le_total(k, old_keys[i]);
                        assert(old_keys.contains(old_keys[i]));
                    } else {
                        let p = if i < at { i } else { i - 1 };
                        let q = if j < at { j } else { j - 1 };
                        assert(keys[i] == old_keys[p] && keys[j] == old_keys[q]);
                    }
                }
                assert forall|j: Seq<char>| keys.contains(j) <==> (old_keys.contains(j) || j
                    == k) by {
                    if old_keys.contains(j) {
                        let p = old_keys.index_of(j);
                        assert(keys[if p < at { p } else { p + 1 }] == j);
                    }
                    if keys.contains(j) {
                        let p = keys.index_of(j);
                        if p != at {
                            assert(old_keys[if p < at { p } else { p - 1 }] == j);
                        }
                    }
                    assert(keys[at as int] == k);
                }
                assert forall|j: Seq<char>| #[trigger] keys.contains(j) implies self@[j]
                    == before@.insert(k, value)[j] by {
                    let p = keys.index_of(j);
                    lemma_position(keys, p);
                    if p != at {
                        let q = if p < at { p } else { p - 1 };
                        assert(old_keys[q] == j);
                        lemma_position(old_keys, q);
                        assert(old_keys.contains(j));
                    }
                }
                assert(self@ =~= before@.insert(k, value));
            }
        }
    }
}

/// The items of a key; none for a key that does not occur.
pub open spec fn items_of<T>(map: Map<Seq<char>, Vec<T>>, key: Seq<char>) -> Seq<T> {
    if map.contains_key(key) {
        map[key]@
    } else {
        Seq::empty()
    }
}

impl<T> TextMap<Vec<T>> {
    /// Adds an item behind those of `key`.
    pub fn push(&mut self, key: String, item: T)
        requires
            old(self).wf(),
        ensures
            final(self).wf(),
            final(self)@.dom() == old(self)@.dom().insert(key@),
            items_of(final(self)@, key@) == items_of(old(self)@, key@).push(item),
            forall|k: Seq<char>|
                k != key@ ==> #[trigger] items_of(final(self)@, k) == items_of(old(self)@, k),
    {
        let ghost k = key@;
        let ghost before = *self;
        match self.index_of(key.as_str()) {
            Some(i) => {
                let (name, mut items) = self.entries.remove(i);
                let ghost held = items@;
                items.push(item);
                let ghost grown = items;
                self.entries.insert(i, (name, items));
                proof {
                    assert(self.keys() =~= before.keys());
                    assert(self.values() =~= before.values().update(i as int, grown));
                    lemma_position(self.keys(), i as int);
                    assert(self@.dom() =~= before@.dom().insert(k));
                    assert forall|j: Seq<char>| j != k implies #[trigger] items_of(self@, j)
                        == items_of(before@, j) by {
                        if before@.contains_key(j) {
                            let q = before.keys().index_of(j);
                            lemma_position(before.keys(), q);
                        }
                    }
                }
            },
            None => {
                let mut items: Vec<T> = Vec::new();
                items.push(item);
                self.insert(key, items);
                assert(self@.dom() =~= before@.dom().insert(k));
                assert(items_of(self@, k) =~= items_of(before@, k).push(item));
            },
        }
    }
}

/// A set of strings, kept in order.
pub struct TextSet {
    map: TextMap<()>,
}

impl TextSet {
    /// The members, in order.
    pub closed spec fn items(&self) -> Seq<Seq<char>> {
        self.map.keys()
    }

    /// The members are in order and distinct.
    pub closed spec fn wf(&self) -> bool {
        self.map.wf()
    }
}

impl View for TextSet {
    type V = Set<Seq<char>>;

    open spec fn view(&self) -> Set<Seq<char>> {
        self.items().to_set()
    }
}

impl TextSet {
    /// The members stand in order, each of them once.
    pub proof fn lemma_items(&self)
        requires
            self.wf(),
        ensures
            strictly_ascending(self.items()),
            forall|x: Seq<char>| self@.contains(x) <==> #[trigger] self.items().contains(x),
    {
    }

    /// The empty set.
    pub fn new() -> (r: TextSet)
        ensures
            r.wf(),
            r@ == Set::<Seq<char>>::empty(),
    {
        let r = TextSet { map: TextMap::new() };
        assert(r@ =~= Set::<Seq<char>>::empty());
        r
    }

    /// Number of members.
    pub fn len(&self) -> (r: usize)
        ensures
            r == self.items().len(),
    {
        self.map.len()
    }

    /// The member at a position.
    pub fn item_at(&self, i: usize) -> (r: &String)
        requires
            i < self.items().len(),
        ensures
            r@ == self.items()[i as int],
    {
        self.map.key_at(i)
    }

    /// Whether `item` is a member.
    pub fn contains(&self, item: &str) -> (r: bool)
        requires
            self.wf(),
        ensures
            r == self@.contains(item@),
    {
        self.map.contains(item)
    }

    /// Adds `item`; true when it was not a member before.
    pub fn insert(&mut self, item: String) -> (r: bool)
        requires
            old(self).wf(),
        ensures
            final(self).wf(),
            final(self)@ == old(self)@.insert(item@),
            r == !old(self)@.contains(item@),
    {
        let ghost k = item@;
        let ghost before = *self;
        if self.map.contains(item.as_str()) {
            assert(before@.insert(k) =~= before@);
            false
        } else {
            self.map.insert(item, ());
            proof {
                assert forall|x: Seq<char>| self@.contains(x) <==> before@.insert(k).contains(
                    x,
                ) by {
                    assert(self.map@.contains_key(x) <==> before.map@.insert(k, ()).contains_key(
                        x,
                    ));
                }
                assert(self@ =~= before@.insert(k));
            }
            true
        }
    }
}

} // verus!
