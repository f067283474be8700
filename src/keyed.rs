//! A map from string keys to values, kept as a vector of entries with one
//! entry per key.

use vstd::prelude::*;

verus! {

/// A map from string keys to values, one entry per key.
pub struct KeyedMap<V> {
    entries: Vec<(String, V)>,
    content: Ghost<Map<Seq<char>, V>>,
}

/// The entries hold one value per key, and `m` is their content.
spec fn entries_ok<V>(v: Seq<(String, V)>, m: Map<Seq<char>, V>) -> bool {
    &&& forall|i: int, j: int| 0 <= i < j < v.len() ==> v[i].0@ != v[j].0@
    &&& forall|k: Seq<char>|
        m.contains_key(k) <==> exists|i: int| 0 <= i < v.len() && v[i].0@ == k
    &&& forall|i: int| 0 <= i < v.len() ==> m[#[trigger] v[i].0@] == v[i].1
}

impl<V> View for KeyedMap<V> {
    type V = Map<Seq<char>, V>;

    closed spec fn view(&self) -> Map<Seq<char>, V> {
        self.content@
    }
}

impl<V> KeyedMap<V> {
    #[verifier::type_invariant]
    closed spec fn inv(&self) -> bool {
        entries_ok(self.entries@, self.content@)
    }

    /// The empty map, with room for `capacity` entries.
    pub fn with_capacity(capacity: usize) -> (r: Self)
        ensures
            r@ == Map::<Seq<char>, V>::empty(),
    {
        KeyedMap { entries: Vec::with_capacity(capacity), content: Ghost(Map::empty()) }
    }

    /// The number of keys.
    pub fn len(&self) -> (r: usize)
        ensures
            r == self@.len(),
            self@.dom().finite(),
    {
        proof {
            use_type_invariant(self);
            let keys = self.entries@.map_values(|e: (String, V)| e.0@);
            assert(keys.no_duplicates());
            keys.unique_seq_to_set();
            assert(self@.dom() =~= keys.to_set()) by {
                assert forall|k: Seq<char>| self@.dom().contains(k) implies keys.contains(k) by {
                    let i = choose|i: int|
                        0 <= i < self.entries.len() && self.entries[i].0@ == k;
                    assert(keys[i] == k);
                }
            }
        }
        self.entries.len()
    }

    /// Position of the entry for `key`.
    fn position(&self, key: &String) -> (r: Option<usize>)
        ensures
            match r {
                Some(i) => i < self.entries.len() && self.entries[i as int].0@ == key@
                    && self@.contains_key(key@) && self@[key@] == self.entries[i as int].1,
                None => !self@.contains_key(key@),
            },
    {
        proof { use_type_invariant(self); }
        position_in(&self.entries, key, Ghost(self@))
    }

    /// The value under `key`, if any.
    pub fn get(&self, key: &str) -> (r: Option<&V>)
        ensures
            match r {
                Some(v) => self@.contains_key(key@) && *v == self@[key@],
                None => !self@.contains_key(key@),
            },
    {
        let owned = key.to_owned();
        match self.position(&owned) {
            Some(i) => Some(&self.entries[i].1),
            None => None,
        }
    }

    /// Files `val` under `key`, replacing the value already there.
    pub fn insert(&mut self, key: String, val: V)
        ensures
            final(self)@ == old(self)@.insert(key@, val),
    {
        proof { use_type_invariant(&*self); }
        let mut taken = KeyedMap::with_capacity(0);
        std::mem::swap(self, &mut taken);
        let ghost m = taken@;
        proof { use_type_invariant(&taken); }
        let KeyedMap { mut entries, content } = taken;
        let ghost added = m.insert(key@, val);
        match position_in(&entries, &key, Ghost(m)) {
            Some(i) => {
                let ghost v0 = entries@;
                entries.set(i, (key, val));
                proof {
                    assert(entries@ == v0.update(i as int, entries@[i as int]));
                    assert forall|q: Seq<char>| added.contains_key(q) implies exists|j: int|
                        0 <= j < entries.len() && entries[j].0@ == q by {
                        if q != entries[i as int].0@ {
                            let j = choose|j: int| 0 <= j < v0.len() && v0[j].0@ == q;
                            assert(entries[j].0@ == q);
                        } else {
                            assert(entries[i as int].0@ == q);
                        }
                    }
                    assert forall|j: int| 0 <= j < entries.len() implies added[
                        #[trigger] entries[j].0@] == entries[j].1 by {
                        if j != i {
                            assert(entries[j] == v0[j]);
                        }
                    }
                }
            },
            None => {
                let ghost v0 = entries@;
                entries.push((key, val));
                proof {
                    assert forall|q: Seq<char>| added.contains_key(q) implies exists|j: int|
                        0 <= j < entries.len() && entries[j].0@ == q by {
                        if q == entries[v0.len() as int].0@ {
                            assert(entries[v0.len() as int].0@ == q);
                        } else {
                            let j = choose|j: int| 0 <= j < v0.len() && v0[j].0@ == q;
                            assert(entries[j].0@ == q);
                        }
                    }
                    assert forall|j: int| 0 <= j < entries.len() implies added[
                        #[trigger] entries[j].0@] == entries[j].1 by {
                        if j < v0.len() {
                            assert(entries[j] == v0[j]);
                        }
                    }
                }
            },
        }
        *self = KeyedMap { entries, content: Ghost(added) };
    }
}

/// Position of the entry for `key` among `v`, whose content is `m`.
fn position_in<V>(v: &Vec<(String, V)>, key: &String, Ghost(m): Ghost<Map<Seq<char>, V>>) -> (r:
    Option<usize>)
    requires
        entries_ok(v@, m),
    ensures
        match r {
            Some(i) => i < v.len() && v[i as int].0@ == key@,
            None => !m.contains_key(key@) && forall|j: int| 0 <= j < v.len() ==> v[j].0@ != key@,
        },
{
    let mut i: usize = 0;
    while i < v.len()
        invariant
            i <= v.len(),
            entries_ok(v@, m),
            forall|j: int| 0 <= j < i ==> v[j].0@ != key@,
        decreases v.len() - i,
    {
        if v[i].0 == *key {
            return Some(i);
        }
        i += 1;
    }
    None
}

} // verus!
