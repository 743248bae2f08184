//! The archived hash map: a perfect hash index beside a table of entries.
//!
//! A lookup hashes the key, takes the index's candidate slot and compares
//! the key stored there, so that an absent key is never reported present.

use vstd::prelude::*;
use vstd::std_specs::cmp::PartialEqSpec;
use crate::hash::bytes_eq;
use crate::hash_index::{build, unplaceable, key_views, has_duplicate, ArchivedHashIndex, BuildError, SEEDED, SEED_A, SEED_B, SEED_C, SEED_D};

verus! {

/// An archived hash map from byte-string keys to values of type `V`.
/// Slot `s` holds the key `keys[s]` and its value `values[s]`.
pub struct ArchivedHashMap<V> {
    index: ArchivedHashIndex,
    keys: Vec<Vec<u8>>,
    values: Vec<V>,
}

impl<V> ArchivedHashMap<V> {
    /// The keys in slot order.
    pub closed spec fn key_seq(&self) -> Seq<Seq<u8>> {
        key_views(self.keys@)
    }

    /// The values in slot order.
    pub closed spec fn value_seq(&self) -> Seq<V> {
        self.values@
    }

    /// The number of entries.
    pub open spec fn len_spec(&self) -> nat {
        self.key_seq().len()
    }

    /// Well-formed: one value per key, and the index sends the key of each
    /// slot to that slot (so that no key occurs twice).
    pub closed spec fn wf(&self) -> bool {
        &&& self.values@.len() == self.keys@.len()
        &&& self.index.len_spec() == self.keys@.len()
        &&& forall|s: int| 0 <= s < self.keys@.len() ==> self.index.index_spec(#[trigger] self.key_seq()[s]) == Some(s)
    }

    /// Some slot holds the key `k`.
    pub open spec fn contains_spec(&self, k: Seq<u8>) -> bool {
        exists|s: int| 0 <= s < self.len_spec() && self.key_seq()[s] == k
    }

    /// The slot that holds `k`, where one does.
    pub open spec fn slot_of(&self, k: Seq<u8>) -> int {
        choose|s: int| 0 <= s < self.len_spec() && self.key_seq()[s] == k
    }

    /// The map from each key to its value.
    pub open spec fn view(&self) -> Map<Seq<u8>, V> {
        Map::new(|k: Seq<u8>| self.contains_spec(k), |k: Seq<u8>| self.value_seq()[self.slot_of(k)])
    }

    /// In a well-formed map the key of slot `s` is held by slot `s` alone.
    pub proof fn lemma_slot_of_key(&self, s: int)
        requires
            self.wf(),
            0 <= s < self.len_spec(),
        ensures
            self.contains_spec(self.key_seq()[s]),
            self.slot_of(self.key_seq()[s]) == s,
            self@.contains_key(self.key_seq()[s]),
            self@[self.key_seq()[s]] == self.value_seq()[s],
    {
        let k = self.key_seq()[s];
        assert(self.contains_spec(k));
        let t = self.slot_of(k);
        assert(self.index.index_spec(self.key_seq()[t]) == Some(t));
        assert(self.index.index_spec(self.key_seq()[s]) == Some(s));
    }

    /// The slot holding `k`, if any.
    fn find(&self, k: &[u8]) -> (r: Option<usize>)
        requires
            self.wf(),
        ensures
            r matches Some(s) ==> s < self.len_spec() && self.key_seq()[s as int] == k@,
            r is None ==> !self.contains_spec(k@),
    {
        match self.index.index(k) {
            Some(s) => {
                if s < self.keys.len() && bytes_eq(self.keys[s].as_slice(), k) {
                    assert(self.key_seq()[s as int] == self.keys@[s as int]@);
                    Some(s)
                } else {
                    proof {
                        if self.contains_spec(k@) {
                            let t = choose|t: int| 0 <= t < self.len_spec() && self.key_seq()[t] == k@;
                            assert(self.index.index_spec(self.key_seq()[t]) == Some(t));
                            assert(self.key_seq()[t] == self.keys@[t]@);
                        }
                    }
                    None
                }
            },
            None => {
                proof {
                    if self.contains_spec(k@) {
                        let t = choose|t: int| 0 <= t < self.len_spec() && self.key_seq()[t] == k@;
                        assert(self.index.index_spec(self.key_seq()[t]) == Some(t));
                    }
                }
                None
            },
        }
    }

    /// The number of entries.
    pub fn len(&self) -> (r: usize)
        requires
            self.wf(),
        ensures
            r == self.len_spec(),
            r == self@.dom().len(),
    {
        proof {
            self.lemma_dom_is_keys();
        }
        self.keys.len()
    }

    /// Whether the map has no entries.
    pub fn is_empty(&self) -> (r: bool)
        requires
            self.wf(),
        ensures
            r == (self.len_spec() == 0),
            r == (self@ == Map::<Seq<u8>, V>::empty()),
    {
        proof {
            self.lemma_dom_is_keys();
            if self.len_spec() > 0 {
                self.lemma_slot_of_key(0);
                assert(!Map::<Seq<u8>, V>::empty().contains_key(self.key_seq()[0]));
            } else {
                assert(self@ =~= Map::<Seq<u8>, V>::empty());
            }
        }
        self.keys.len() == 0
    }

    /// Changing the value of one slot changes the map at that slot's key
    /// alone.
    pub proof fn lemma_value_update(&self, after: &Self, s: int, v: V)
        requires
            self.wf(),
            after.wf(),
            0 <= s < self.len_spec(),
            after.key_seq() == self.key_seq(),
            after.value_seq() == self.value_seq().update(s, v),
        ensures
            after@ == self@.insert(self.key_seq()[s], v),
    {
        self.lemma_slot_of_key(s);
        assert forall|k: Seq<u8>| #[trigger] after@.contains_key(k) implies after@[k] == self@.insert(self.key_seq()[s], v)[k] by {
            let t = after.slot_of(k);
            after.lemma_slot_of_key(t);
            self.lemma_slot_of_key(t);
        }
        assert(after@ =~= self@.insert(self.key_seq()[s], v));
    }

    /// The domain of the map is the set of the stored keys, one per slot.
    pub proof fn lemma_dom_is_keys(&self)
        requires
            self.wf(),
        ensures
            self@.dom() == self.key_seq().to_set(),
            self.key_seq().no_duplicates(),
            self@.dom().len() == self.len_spec(),
    {
        assert(self@.dom() =~= self.key_seq().to_set());
        assert forall|i: int, j: int| 0 <= i < self.len_spec() && 0 <= j < self.len_spec() && i != j
            implies self.key_seq()[i] != self.key_seq()[j] by {
            self.lemma_slot_of_key(i);
            self.lemma_slot_of_key(j);
        }
        self.key_seq().unique_seq_to_set();
    }

    /// Whether `k` is a key of the map.
    pub fn contains_key(&self, k: &[u8]) -> (r: bool)
        requires
            self.wf(),
        ensures
            r == self@.contains_key(k@),
    {
        self.find(k).is_some()
    }

    /// The value of `k`, or `None` when `k` is not a key of the map.
    pub fn get(&self, k: &[u8]) -> (r: Option<&V>)
        requires
            self.wf(),
        ensures
            r is Some == self@.contains_key(k@),
            r matches Some(v) ==> *v == self@[k@],
    {
        match self.find(k) {
            Some(s) => {
                proof {
                    self.lemma_slot_of_key(s as int);
                }
                Some(&self.values[s])
            },
            None => None,
        }
    }

    /// The stored key equal to `k` and its value, or `None`.
    pub fn get_key_value(&self, k: &[u8]) -> (r: Option<(&Vec<u8>, &V)>)
        requires
            self.wf(),
        ensures
            r is Some == self@.contains_key(k@),
            r matches Some((key, v)) ==> key@ == k@ && *v == self@[k@],
    {
        match self.find(k) {
            Some(s) => {
                proof {
                    self.lemma_slot_of_key(s as int);
                    assert(self.key_seq()[s as int] == self.keys@[s as int]@);
                }
                Some((&self.keys[s], &self.values[s]))
            },
            None => None,
        }
    }

    /// Exclusive access to the value of `k`. The key and the index stay as
    /// they are: only the value can change.
    pub fn get_pin(&mut self, k: &[u8]) -> (r: Option<&mut V>)
        requires
            old(self).wf(),
        ensures
            r is Some == old(self)@.contains_key(k@),
            r matches Some(v) ==> *v == old(self)@[k@],
            r matches Some(v) ==> final(self).value_seq()
                == old(self).value_seq().update(old(self).slot_of(k@), *final(v)),
            final(self).key_seq() == old(self).key_seq(),
            r is None ==> final(self)@ == old(self)@,
            final(self).wf(),
    {
        match self.find(k) {
            Some(s) => {
                proof {
                    self.lemma_slot_of_key(s as int);
                }
                Some(&mut self.values[s])
            },
            None => None,
        }
    }

    /// The stored key equal to `k` and exclusive access to its value.
    pub fn get_key_value_pin(&mut self, k: &[u8]) -> (r: Option<(&Vec<u8>, &mut V)>)
        requires
            old(self).wf(),
        ensures
            r is Some == old(self)@.contains_key(k@),
            r matches Some((key, v)) ==> key@ == k@ && *v == old(self)@[k@],
            r matches Some((key, v)) ==> final(self).value_seq()
                == old(self).value_seq().update(old(self).slot_of(k@), *final(v)),
            r is None ==> final(self)@ == old(self)@,
            final(self).key_seq() == old(self).key_seq(),
            final(self).wf(),
    {
        match self.find(k) {
            Some(s) => {
                proof {
                    self.lemma_slot_of_key(s as int);
                    assert(self.key_seq()[s as int] == self.keys@[s as int]@);
                }
                Some((&self.keys[s], &mut self.values[s]))
            },
            None => None,
        }
    }

    /// The seeds of the hash that every archived map is built with, the
    /// same for all of them so that archives are reproducible.
    pub fn hasher(&self) -> (r: (u64, u64, u64, u64))
        ensures
            r == (SEED_A, SEED_B, SEED_C, SEED_D),
    {
        (SEED_A, SEED_B, SEED_C, SEED_D)
    }

    /// The value of `k`, which must be a key of the map.
    pub fn index(&self, k: &[u8]) -> (r: &V)
        requires
            self.wf(),
            self@.contains_key(k@),
        ensures
            *r == self@[k@],
    {
        match self.find(k) {
            Some(s) => {
                proof {
                    self.lemma_slot_of_key(s as int);
                }
                &self.values[s]
            },
            None => {
                // `find` answers `None` only for absent keys.
                proof {
                    assert(false);
                }
                &self.values[0]
            },
        }
    }
}

/// What construction leaves for the second pass: the index and the
/// entries, already in slot order.
pub struct HashMapResolver<V> {
    index_resolver: ArchivedHashIndex,
    keys: Vec<Vec<u8>>,
    values: Vec<V>,
}

impl<V> HashMapResolver<V> {
    /// The map that this resolver lays out.
    pub closed spec fn planned(&self) -> ArchivedHashMap<V> {
        ArchivedHashMap { index: self.index_resolver, keys: self.keys, values: self.values }
    }

    /// The number of entries laid out.
    pub fn len(&self) -> (r: usize)
        ensures
            r == self.planned().len_spec(),
    {
        proof {
            assert(self.planned().key_seq().len() == self.keys@.len());
        }
        self.keys.len()
    }
}

/// Moves `v` into slot order: slot `s` receives `v[owner[s]]`.
fn permute<T>(v: Vec<T>, owner: &Vec<usize>, slot: &Vec<usize>) -> (r: Vec<T>)
    requires
        owner@.len() == v@.len(),
        slot@.len() == v@.len(),
        forall|j: int| 0 <= j < v@.len() ==> (#[trigger] slot@[j]) < v@.len() && owner@[slot@[j] as int] == j,
        forall|s: int| 0 <= s < v@.len() ==> (#[trigger] owner@[s]) < v@.len() && slot@[owner@[s] as int] == s,
    ensures
        r@.len() == v@.len(),
        forall|s: int| 0 <= s < v@.len() ==> r@[s] == v@[owner@[s] as int],
{
    let ghost orig = v@;
    let n = v.len();
    let mut v = v;
    // Cell `n - 1 - s` receives the item of slot `s`, so that popping the
    // cells hands them out from slot 0 up.
    let mut cells: Vec<Option<T>> = Vec::new();
    let mut k: usize = 0;
    while k < n
        invariant
            k <= n,
            cells@.len() == k,
            forall|c: int| 0 <= c < k ==> (#[trigger] cells@[c]) is None,
        decreases n - k,
    {
        cells.push(None);
        k = k + 1;
    }
    while v.len() > 0
        invariant
            n == orig.len(),
            owner@.len() == n,
            slot@.len() == n,
            cells@.len() == n,
            v@.len() <= n,
            v@ == orig.subrange(0, v@.len() as int),
            forall|j: int| 0 <= j < n ==> (#[trigger] slot@[j]) < n && owner@[slot@[j] as int] == j,
            forall|j: int| v@.len() <= j < n ==> cells@[n - 1 - (#[trigger] slot@[j])] == Some(orig[j]),
        decreases v@.len(),
    {
        let j = v.len() - 1;
        let t = v.pop().unwrap();
        let ghost before = cells@;
        let c = n - 1 - slot[j];
        cells.set(c, Some(t));
        proof {
            assert forall|i: int| v@.len() <= i < n implies cells@[n - 1 - (#[trigger] slot@[i])] == Some(orig[i]) by {
                if i != j {
                    assert(slot@[i] != slot@[j as int]);
                    assert(before[n - 1 - slot@[i]] == Some(orig[i]));
                }
            }
        }
    }
    let mut r: Vec<T> = Vec::new();
    while cells.len() > 0
        invariant
            n == orig.len(),
            owner@.len() == n,
            cells@.len() + r@.len() == n,
            forall|s: int| 0 <= s < n ==> (#[trigger] owner@[s]) < n && slot@[owner@[s] as int] == s,
            forall|j: int| 0 <= j < n ==> (#[trigger] slot@[j]) < n,
            forall|j: int| 0 <= j < n ==> cells@.len() > n - 1 - (#[trigger] slot@[j]) ==> cells@[n - 1 - slot@[j]] == Some(orig[j]),
            forall|s: int| 0 <= s < r@.len() ==> r@[s] == orig[owner@[s] as int],
        decreases cells@.len(),
    {
        let ghost s = r@.len() as int;
        let ghost j = owner@[s] as int;
        proof {
            assert(slot@[j] == s);
            assert(cells@[n - 1 - slot@[j]] == Some(orig[j]));
        }
        let c = cells.pop().unwrap();
        if let Some(t) = c {
            r.push(t);
        }
    }
    r
}

impl<V> ArchivedHashMap<V> {
    /// Lays out a map of the given entries: builds the perfect hash index
    /// and puts each entry in the slot that the index gives its key.
    /// Equal keys are reported as `DuplicateKey`.
    pub fn serialize_from_iter(items: Vec<(Vec<u8>, V)>) -> (r: Result<HashMapResolver<V>, BuildError>)
        requires
            items@.len() < SEEDED,
        ensures
            match r {
                Ok(res) => archives(res.planned(), items@) && !has_duplicate(item_keys(items@)),
                Err(BuildError::DuplicateKey) => has_duplicate(item_keys(items@)),
                Err(BuildError::NoDisplacement) => unplaceable(item_keys(items@)),
            },
            items@.len() == 0 ==> r is Ok,
    {
        let ghost orig = items@;
        let n = items.len();
        let mut items = items;
        // Split the entries; popping hands them out last first.
        let mut rev_keys: Vec<Vec<u8>> = Vec::new();
        let mut rev_values: Vec<V> = Vec::new();
        while items.len() > 0
            invariant
                n == orig.len(),
                items@ == orig.subrange(0, items@.len() as int),
                rev_keys@.len() == n - items@.len(),
                rev_values@.len() == rev_keys@.len(),
                forall|i: int| 0 <= i < rev_keys@.len() ==> (#[trigger] rev_keys@[i]) == orig[n - 1 - i].0,
                forall|i: int| 0 <= i < rev_values@.len() ==> (#[trigger] rev_values@[i]) == orig[n - 1 - i].1,
            decreases items@.len(),
        {
            let (k, v) = items.pop().unwrap();
            rev_keys.push(k);
            rev_values.push(v);
        }
        // And back into their own order.
        let mut keys: Vec<Vec<u8>> = Vec::new();
        let mut values: Vec<V> = Vec::new();
        while rev_keys.len() > 0
            invariant
                n == orig.len(),
                rev_values@.len() == rev_keys@.len(),
                rev_keys@.len() + keys@.len() == n,
                values@.len() == keys@.len(),
                forall|i: int| 0 <= i < rev_keys@.len() ==> (#[trigger] rev_keys@[i]) == orig[n - 1 - i].0,
                forall|i: int| 0 <= i < rev_values@.len() ==> (#[trigger] rev_values@[i]) == orig[n - 1 - i].1,
                forall|i: int| 0 <= i < keys@.len() ==> (#[trigger] keys@[i]) == orig[i].0,
                forall|i: int| 0 <= i < values@.len() ==> (#[trigger] values@[i]) == orig[i].1,
            decreases rev_keys@.len(),
        {
            let k = rev_keys.pop().unwrap();
            let v = rev_values.pop().unwrap();
            keys.push(k);
            values.push(v);
        }
        let ghost kv = key_views(keys@);
        proof {
            assert forall|i: int| 0 <= i < n implies #[trigger] kv[i] == item_keys(orig)[i] by {}
            assert(kv =~= item_keys(orig));
        }
        match build(&keys) {
            Err(e) => {
                proof {
                    if e == BuildError::DuplicateKey {
                    }
                }
                Err(e)
            },
            Ok((index, owner, slot)) => {
                let ghost keys0 = keys@;
                let ghost values0 = values@;
                let keys = permute(keys, &owner, &slot);
                let values = permute(values, &owner, &slot);
                let res = HashMapResolver { index_resolver: index, keys, values };
                proof {
                    assert forall|a: int, c: int| 0 <= a < n && 0 <= c < n && a != c implies
                        item_keys(orig)[a] != item_keys(orig)[c] by {
                        assert(kv[a] == item_keys(orig)[a]);
                        assert(kv[c] == item_keys(orig)[c]);
                    }
                    let m = res.planned();
                    assert forall|s: int| 0 <= s < n implies m.key_seq()[s] == kv[owner@[s] as int] by {}
                    assert forall|s: int| 0 <= s < n implies
                        m.index.index_spec(#[trigger] m.key_seq()[s]) == Some(s) by {
                        assert(m.key_seq()[s] == kv[owner@[s] as int]);
                    }
                    assert(m.wf());
                    assert forall|j: int| 0 <= j < n implies {
                        &&& m@.contains_key(#[trigger] orig[j].0@)
                        &&& m@[orig[j].0@] == orig[j].1
                    } by {
                        let i = j;
                        let s = slot@[i] as int;
                        assert(owner@[s] == i);
                        assert(m.key_seq()[s] == kv[i]);
                        assert(kv[i] == item_keys(orig)[j]);
                        m.lemma_slot_of_key(s);
                    }
                    assert forall|k: Seq<u8>| #[trigger] m@.contains_key(k) implies
                        exists|j: int| 0 <= j < n && orig[j].0@ == k by {
                        let s = choose|s: int| 0 <= s < m.len_spec() && m.key_seq()[s] == k;
                        let i = owner@[s] as int;
                        assert(kv[i] == item_keys(orig)[i]);
                        assert(orig[i].0@ == k);
                    }
                }
                Ok(res)
            },
        }
    }

    /// Completes a map from the resolver of its `len` entries.
    pub fn resolve_from_len(len: usize, resolver: HashMapResolver<V>) -> (r: Self)
        requires
            len == resolver.planned().len_spec(),
        ensures
            r == resolver.planned(),
    {
        ArchivedHashMap { index: resolver.index_resolver, keys: resolver.keys, values: resolver.values }
    }
}

/// The keys of a list of entries, as byte strings.
pub open spec fn item_keys<V>(items: Seq<(Vec<u8>, V)>) -> Seq<Seq<u8>> {
    items.map_values(|e: (Vec<u8>, V)| e.0@)
}

/// `m` is the archived form of `items`: it is well formed, has one entry
/// per item, maps each item's key to its value, and holds no other key.
pub open spec fn archives<V>(m: ArchivedHashMap<V>, items: Seq<(Vec<u8>, V)>) -> bool {
    &&& m.wf()
    &&& m.len_spec() == items.len()
    &&& forall|j: int| 0 <= j < items.len() ==> {
        &&& m@.contains_key(#[trigger] items[j].0@)
        &&& m@[items[j].0@] == items[j].1
    }
    &&& forall|k: Seq<u8>| #[trigger] m@.contains_key(k) ==> exists|j: int| 0 <= j < items.len() && items[j].0@ == k
}

/// Two maps are equal: the same number of entries, and each key of the first
/// has an equal value in the second.
pub open spec fn map_eq<V: PartialEq>(a: ArchivedHashMap<V>, b: ArchivedHashMap<V>) -> bool {
    &&& a.len_spec() == b.len_spec()
    &&& forall|k: Seq<u8>| #[trigger] a@.contains_key(k) ==> b@.contains_key(k) && a@[k].eq_spec(&b@[k])
}

impl<V> ArchivedHashMap<V> {
    /// The entries in slot order.
    pub open spec fn entry_seq(&self) -> Seq<(Seq<u8>, V)> {
        Seq::new(self.len_spec(), |s: int| (self.key_seq()[s], self.value_seq()[s]))
    }

    /// The entries, in slot order.
    pub fn iter(&self) -> (r: Iter<'_, V>)
        requires
            self.wf(),
        ensures
            r.entries() == self.entry_seq(),
            r.entries().len() == self.len_spec(),
            r.position() == 0,
            r.valid(),
    {
        Iter { map: self, pos: 0 }
    }

    /// The keys, in slot order.
    pub fn keys(&self) -> (r: Keys<'_, V>)
        requires
            self.wf(),
        ensures
            r.items() == self.key_seq(),
            r.position() == 0,
    {
        Keys { map: self, pos: 0 }
    }

    /// The values, in slot order.
    pub fn values(&self) -> (r: Values<'_, V>)
        requires
            self.wf(),
        ensures
            r.items() == self.value_seq(),
            r.items().len() == self.len_spec(),
            r.position() == 0,
    {
        Values { map: self, pos: 0 }
    }

    /// The slots, each of which grants exclusive access to its value through
    /// `entry_pin_at`.
    pub fn iter_pin(&self) -> (r: IterPin)
        requires
            self.wf(),
        ensures
            r.position() == 0,
            r.end() == self.len_spec(),
    {
        IterPin { pos: 0, len: self.keys.len() }
    }

    /// The slots, each of which grants exclusive access to its value through
    /// `value_pin_at`.
    pub fn values_pin(&self) -> (r: ValuesPin)
        requires
            self.wf(),
        ensures
            r.position() == 0,
            r.end() == self.len_spec(),
    {
        ValuesPin { pos: 0, len: self.keys.len() }
    }

    /// The key of slot `s` and exclusive access to its value.
    pub fn entry_pin_at(&mut self, s: usize) -> (r: (&Vec<u8>, &mut V))
        requires
            old(self).wf(),
            s < old(self).len_spec(),
        ensures
            r.0@ == old(self).key_seq()[s as int],
            *r.1 == old(self).value_seq()[s as int],
            final(self).value_seq() == old(self).value_seq().update(s as int, *final(r.1)),
            final(self).key_seq() == old(self).key_seq(),
            final(self).wf(),
    {
        proof {
            assert(self.key_seq()[s as int] == self.keys@[s as int]@);
        }
        (&self.keys[s], &mut self.values[s])
    }

    /// Exclusive access to the value of slot `s`. The keys and the index do
    /// not change.
    pub fn value_pin_at(&mut self, s: usize) -> (r: &mut V)
        requires
            old(self).wf(),
            s < old(self).len_spec(),
        ensures
            *r == old(self).value_seq()[s as int],
            final(self).value_seq() == old(self).value_seq().update(s as int, *final(r)),
            final(self).key_seq() == old(self).key_seq(),
            final(self).wf(),
    {
        &mut self.values[s]
    }

    /// Whether the two maps hold the same keys with equal values.
    pub fn eq(&self, other: &Self) -> (r: bool)
        where
            V: PartialEq,
        requires
            self.wf(),
            other.wf(),
        ensures
            V::obeys_eq_spec() ==> r == map_eq(*self, *other),
    {
        if self.keys.len() != other.keys.len() {
            return false;
        }
        let mut s: usize = 0;
        while s < self.keys.len()
            invariant
                self.wf(),
                other.wf(),
                self.len_spec() == other.len_spec(),
                s <= self.len_spec(),
                V::obeys_eq_spec() ==> forall|t: int| 0 <= t < s ==> {
                    &&& other@.contains_key(#[trigger] self.key_seq()[t])
                    &&& self.value_seq()[t].eq_spec(&other@[self.key_seq()[t]])
                },
            decreases self.len_spec() - s,
        {
            proof {
                assert(self.key_seq()[s as int] == self.keys@[s as int]@);
                self.lemma_slot_of_key(s as int);
            }
            match other.get(self.keys[s].as_slice()) {
                Some(v) => {
                    if !self.values[s].eq(v) {
                        proof {
                            if V::obeys_eq_spec() {
                                assert(self@.contains_key(self.key_seq()[s as int]));
                            }
                        }
                        return false;
                    }
                },
                None => {
                    return false;
                },
            }
            s = s + 1;
        }
        proof {
            if V::obeys_eq_spec() {
                assert forall|k: Seq<u8>| #[trigger] self@.contains_key(k) implies
                    other@.contains_key(k) && self@[k].eq_spec(&other@[k]) by {
                    let t = self.slot_of(k);
                    self.lemma_slot_of_key(t);
                }
            }
        }
        true
    }
}

/// An iterator over the entries of a map, in slot order.
pub struct Iter<'a, V> {
    map: &'a ArchivedHashMap<V>,
    pos: usize,
}

impl<'a, V> Iter<'a, V> {
    /// All the entries that the iterator walks.
    pub closed spec fn entries(&self) -> Seq<(Seq<u8>, V)> {
        self.map.entry_seq()
    }

    /// The iterator walks a well-formed map and has not passed its end.
    pub closed spec fn valid(&self) -> bool {
        self.map.wf() && self.pos <= self.map.len_spec()
    }

    /// How many entries it has handed out.
    pub closed spec fn position(&self) -> int {
        self.pos as int
    }

    /// The next entry, or `None` once all have been handed out.
    pub fn next(&mut self) -> (r: Option<(&'a Vec<u8>, &'a V)>)
        requires
            old(self).valid(),
        ensures
            final(self).valid(),
            final(self).entries() == old(self).entries(),
            old(self).position() < old(self).entries().len() ==> {
                &&& final(self).position() == old(self).position() + 1
                &&& r matches Some((k, v)) && (k@, *v) == old(self).entries()[old(self).position()]
            },
            old(self).position() == old(self).entries().len() ==> r is None && final(self).position() == old(self).position(),
    {
        if self.pos < self.map.keys.len() && self.pos < self.map.values.len() {
            let s = self.pos;
            proof {
                assert(self.map.key_seq()[s as int] == self.map.keys@[s as int]@);
            }
            self.pos = self.pos + 1;
            Some((&self.map.keys[s], &self.map.values[s]))
        } else {
            None
        }
    }

    /// How many entries are left.
    pub fn len(&self) -> (r: usize)
        requires
            self.valid(),
        ensures
            0 <= self.position() <= self.entries().len(),
            r == self.entries().len() - self.position(),
    {
        self.map.keys.len() - self.pos
    }

    /// Walks the rest of the entries and counts them.
    pub fn count(self) -> (r: usize)
        requires
            self.valid(),
        ensures
            0 <= self.position() <= self.entries().len(),
            r == self.entries().len() - self.position(),
    {
        let mut it = self;
        let mut c: usize = 0;
        while it.len() > 0
            invariant
                it.valid(),
                it.entries() == self.entries(),
                c == it.position() - self.position(),
            decreases it.entries().len() - it.position(),
        {
            it.next();
            c = c + 1;
        }
        c
    }
}

/// An iterator over the keys of a map, in slot order.
pub struct Keys<'a, V> {
    map: &'a ArchivedHashMap<V>,
    pos: usize,
}

impl<'a, V> Keys<'a, V> {
    /// All the keys that the iterator walks.
    pub closed spec fn items(&self) -> Seq<Seq<u8>> {
        self.map.key_seq()
    }

    /// How many keys it has handed out.
    pub closed spec fn position(&self) -> int {
        self.pos as int
    }

    /// The next key, or `None` once all have been handed out.
    pub fn next(&mut self) -> (r: Option<&'a Vec<u8>>)
        requires
            0 <= old(self).position() <= old(self).items().len(),
        ensures
            final(self).items() == old(self).items(),
            old(self).position() < old(self).items().len() ==> {
                &&& final(self).position() == old(self).position() + 1
                &&& r matches Some(k) && k@ == old(self).items()[old(self).position()]
            },
            old(self).position() == old(self).items().len() ==> r is None && final(self).position() == old(self).position(),
    {
        if self.pos < self.map.keys.len() {
            let s = self.pos;
            proof {
                assert(self.map.key_seq()[s as int] == self.map.keys@[s as int]@);
            }
            self.pos = self.pos + 1;
            Some(&self.map.keys[s])
        } else {
            None
        }
    }

    /// How many keys are left.
    pub fn len(&self) -> (r: usize)
        requires
            0 <= self.position() <= self.items().len(),
        ensures
            r == self.items().len() - self.position(),
    {
        self.map.keys.len() - self.pos
    }
}

/// An iterator over the values of a map, in slot order.
pub struct Values<'a, V> {
    map: &'a ArchivedHashMap<V>,
    pos: usize,
}

impl<'a, V> Values<'a, V> {
    /// All the values that the iterator walks.
    pub closed spec fn items(&self) -> Seq<V> {
        self.map.value_seq()
    }

    /// How many values it has handed out.
    pub closed spec fn position(&self) -> int {
        self.pos as int
    }

    /// The next value, or `None` once all have been handed out.
    pub fn next(&mut self) -> (r: Option<&'a V>)
        requires
            0 <= old(self).position() <= old(self).items().len(),
        ensures
            final(self).items() == old(self).items(),
            old(self).position() < old(self).items().len() ==> {
                &&& final(self).position() == old(self).position() + 1
                &&& r matches Some(v) && *v == old(self).items()[old(self).position()]
            },
            old(self).position() == old(self).items().len() ==> r is None && final(self).position() == old(self).position(),
    {
        if self.pos < self.map.values.len() {
            let s = self.pos;
            self.pos = self.pos + 1;
            Some(&self.map.values[s])
        } else {
            None
        }
    }

    /// How many values are left.
    pub fn len(&self) -> (r: usize)
        requires
            0 <= self.position() <= self.items().len(),
        ensures
            r == self.items().len() - self.position(),
    {
        self.map.values.len() - self.pos
    }
}

/// The slots of a map, handed out one at a time for exclusive access to
/// their entries.
pub struct IterPin {
    pos: usize,
    len: usize,
}

impl IterPin {
    /// How many slots it has handed out.
    pub closed spec fn position(&self) -> int {
        self.pos as int
    }

    /// The number of slots of the map.
    pub closed spec fn end(&self) -> int {
        self.len as int
    }

    /// The next slot, or `None` once all have been handed out.
    pub fn next(&mut self) -> (r: Option<usize>)
        requires
            0 <= old(self).position() <= old(self).end(),
        ensures
            final(self).end() == old(self).end(),
            old(self).position() < old(self).end() ==> r == Some(old(self).position() as usize)
                && final(self).position() == old(self).position() + 1,
            old(self).position() == old(self).end() ==> r is None && final(self).position() == old(self).position(),
    {
        if self.pos < self.len {
            let s = self.pos;
            self.pos = self.pos + 1;
            Some(s)
        } else {
            None
        }
    }

    /// How many slots are left.
    pub fn len(&self) -> (r: usize)
        requires
            0 <= self.position() <= self.end(),
        ensures
            r == self.end() - self.position(),
    {
        self.len - self.pos
    }
}

/// The slots of a map, handed out one at a time for exclusive access to
/// their values.
pub struct ValuesPin {
    pos: usize,
    len: usize,
}

impl ValuesPin {
    /// How many slots it has handed out.
    pub closed spec fn position(&self) -> int {
        self.pos as int
    }

    /// The number of slots of the map.
    pub closed spec fn end(&self) -> int {
        self.len as int
    }

    /// The next slot, or `None` once all have been handed out.
    pub fn next(&mut self) -> (r: Option<usize>)
        requires
            0 <= old(self).position() <= old(self).end(),
        ensures
            final(self).end() == old(self).end(),
            old(self).position() < old(self).end() ==> r == Some(old(self).position() as usize)
                && final(self).position() == old(self).position() + 1,
            old(self).position() == old(self).end() ==> r is None && final(self).position() == old(self).position(),
    {
        if self.pos < self.len {
            let s = self.pos;
            self.pos = self.pos + 1;
            Some(s)
        } else {
            None
        }
    }

    /// How many slots are left.
    pub fn len(&self) -> (r: usize)
        requires
            0 <= self.position() <= self.end(),
        ensures
            r == self.end() - self.position(),
    {
        self.len - self.pos
    }
}

/// The key / value pairs of a list of entries, as a set.
pub open spec fn item_set<V>(items: Seq<(Vec<u8>, V)>) -> Set<(Seq<u8>, V)> {
    items.map_values(|e: (Vec<u8>, V)| (e.0@, e.1)).to_set()
}

/// Round trip: the archived form of a list of entries with distinct keys
/// gives back each entry's value, and has as many keys as there were
/// entries.
pub proof fn lemma_round_trip<V>(m: ArchivedHashMap<V>, items: Seq<(Vec<u8>, V)>)
    requires
        archives(m, items),
    ensures
        forall|j: int| 0 <= j < items.len() ==> #[trigger] m@[items[j].0@] == items[j].1,
        m@.dom().len() == items.len(),
{
    m.lemma_dom_is_keys();
}

/// No false negatives: every key that was archived is found.
pub proof fn lemma_no_false_negatives<V>(m: ArchivedHashMap<V>, items: Seq<(Vec<u8>, V)>, j: int)
    requires
        archives(m, items),
        0 <= j < items.len(),
    ensures
        m@.contains_key(items[j].0@),
{
}

/// No false positives: a key that was never archived is not found, even
/// where the index gives it a candidate slot.
pub proof fn lemma_no_false_positives<V>(m: ArchivedHashMap<V>, items: Seq<(Vec<u8>, V)>, k: Seq<u8>)
    requires
        archives(m, items),
        forall|j: int| 0 <= j < items.len() ==> (#[trigger] items[j]).0@ != k,
    ensures
        !m@.contains_key(k),
{
    if m@.contains_key(k) {
        let j = choose|j: int| 0 <= j < items.len() && items[j].0@ == k;
        assert(items[j].0@ != k);
    }
}

/// Iteration is complete: there are as many entries as the map has keys,
/// and the keys walked are exactly the keys of the map.
pub proof fn lemma_iteration_complete<V>(m: ArchivedHashMap<V>)
    requires
        m.wf(),
    ensures
        m.entry_seq().len() == m@.dom().len(),
        m.key_seq().len() == m.len_spec(),
        m.key_seq().to_set() == m@.dom(),
{
    m.lemma_dom_is_keys();
}

/// Maps archived from the same key / value pairs, in whatever order, are
/// equal.
pub proof fn lemma_equal_entries_equal_maps<V: PartialEq>(
    a: ArchivedHashMap<V>,
    b: ArchivedHashMap<V>,
    items_a: Seq<(Vec<u8>, V)>,
    items_b: Seq<(Vec<u8>, V)>,
)
    requires
        archives(a, items_a),
        archives(b, items_b),
        item_set(items_a) == item_set(items_b),
        forall|v: V| #[trigger] v.eq_spec(&v),
    ensures
        a@ == b@,
        map_eq(a, b),
{
    let pa = items_a.map_values(|e: (Vec<u8>, V)| (e.0@, e.1));
    let pb = items_b.map_values(|e: (Vec<u8>, V)| (e.0@, e.1));
    assert forall|k: Seq<u8>| #[trigger] a@.contains_key(k) implies b@.contains_key(k) && a@[k] == b@[k] by {
        let j = choose|j: int| 0 <= j < items_a.len() && items_a[j].0@ == k;
        assert(pa[j] == (k, items_a[j].1));
        assert(item_set(items_b).contains(pa[j]));
        let i = choose|i: int| 0 <= i < pb.len() && pb[i] == pa[j];
        assert(items_b[i].0@ == k);
    }
    assert forall|k: Seq<u8>| #[trigger] b@.contains_key(k) implies a@.contains_key(k) by {
        let i = choose|i: int| 0 <= i < items_b.len() && items_b[i].0@ == k;
        assert(pb[i] == (k, items_b[i].1));
        assert(item_set(items_a).contains(pb[i]));
        let j = choose|j: int| 0 <= j < pa.len() && pa[j] == pb[i];
        assert(items_a[j].0@ == k);
    }
    assert(a@ =~= b@);
    a.lemma_dom_is_keys();
    b.lemma_dom_is_keys();
}

/// Maps that give one key values that are not equal are not equal.
pub proof fn lemma_differing_value_unequal<V: PartialEq>(a: ArchivedHashMap<V>, b: ArchivedHashMap<V>, k: Seq<u8>)
    requires
        a@.contains_key(k),
        b@.contains_key(k),
        !a@[k].eq_spec(&b@[k]),
    ensures
        !map_eq(a, b),
{
}

} // verus!
