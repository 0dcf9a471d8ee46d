//! A map from strings to values, kept as a list in which no key occurs twice.
use vstd::prelude::*;

verus! {

/// A finite map with `String` keys.
#[derive(Debug)]
pub struct AssocList<V> {
    keys: Vec<String>,
    values: Vec<V>,
}

impl<V> View for AssocList<V> {
    type V = Map<Seq<char>, V>;

    closed spec fn view(&self) -> Map<Seq<char>, V> {
        Map::new(|key: Seq<char>| self.has(key), |key: Seq<char>| self.values[self.position(key)])
    }
}

impl<V> AssocList<V> {
    /// No key occurs twice, and every key has its value.
    pub closed spec fn wf(&self) -> bool {
        &&& self.keys.len() == self.values.len()
        &&& forall|i: int, j: int|
            0 <= i < j < self.keys.len() ==> self.keys[i]@ != self.keys[j]@
    }

    /// The number of entries.
    pub closed spec fn spec_len(&self) -> nat {
        self.keys.len() as nat
    }

    /// The key of the entry at a place in the list.
    pub closed spec fn spec_key(&self, i: int) -> Seq<char> {
        self.keys[i]@
    }

    /// The value of the entry at a place in the list.
    pub closed spec fn spec_value(&self, i: int) -> V {
        self.values[i]
    }

    spec fn has(&self, key: Seq<char>) -> bool {
        exists|i: int| 0 <= i < self.keys.len() && self.keys[i]@ == key
    }

    spec fn position(&self, key: Seq<char>) -> int {
        choose|i: int| 0 <= i < self.keys.len() && self.keys[i]@ == key
    }

    proof fn lemma_position(&self, i: int)
        requires
            self.wf(),
            0 <= i < self.keys.len(),
        ensures
            self.has(self.keys[i]@),
            self.position(self.keys[i]@) == i,
            self@.contains_key(self.keys[i]@),
            self@[self.keys[i]@] == self.values[i],
    {
    }

    /// Every place in the list holds an entry of the map.
    pub proof fn lemma_entry(&self, i: int)
        requires
            self.wf(),
            0 <= i < self.spec_len(),
        ensures
            self@.contains_key(self.spec_key(i)),
            self@[self.spec_key(i)] == self.spec_value(i),
    {
        self.lemma_position(i);
    }

    /// Every entry of the map stands at some place in the list.
    pub proof fn lemma_place(&self, key: Seq<char>) -> (i: int)
        requires
            self.wf(),
            self@.contains_key(key),
        ensures
            0 <= i < self.spec_len(),
            self.spec_key(i) == key,
            self.spec_value(i) == self@[key],
    {
        self.position(key)
    }

    /// The keys are distinct.
    pub proof fn lemma_distinct(&self, i: int, j: int)
        requires
            self.wf(),
            0 <= i < self.spec_len(),
            0 <= j < self.spec_len(),
            self.spec_key(i) == self.spec_key(j),
        ensures
            i == j,
    {
    }

    /// The map is finite.
    pub proof fn lemma_finite(&self)
        requires
            self.wf(),
        ensures
            self@.dom().finite(),
    {
        let keys = self.keys@.map_values(|k: String| k@);
        assert(self@.dom() =~= keys.to_set()) by {
            assert forall|key: Seq<char>| self@.dom().contains(key) <==> keys.to_set().contains(
                key,
            ) by {
                if self@.dom().contains(key) {
                    let i = self.position(key);
                    assert(keys[i] == key);
                }
                if keys.to_set().contains(key) {
                    let i = choose|i: int| 0 <= i < keys.len() && keys[i] == key;
                    assert(self.keys[i]@ == key);
                }
            }
        }
        vstd::seq_lib::seq_to_set_is_finite(keys);
    }

    /// The empty map.
    pub fn new() -> (list: Self)
        ensures
            list.wf(),
            list@ == Map::<Seq<char>, V>::empty(),
            list.spec_len() == 0,
    {
        let list = AssocList { keys: Vec::new(), values: Vec::new() };
        assert(list@ =~= Map::<Seq<char>, V>::empty());
        list
    }

    /// The number of entries.
    pub fn len(&self) -> (n: usize)
        requires
            self.wf(),
        ensures
            n == self.spec_len(),
    {
        self.keys.len()
    }

    /// The key at a place in the list.
    pub fn key(&self, i: usize) -> (key: &String)
        requires
            self.wf(),
            i < self.spec_len(),
        ensures
            key@ == self.spec_key(i as int),
            self@.contains_key(key@),
    {
        proof {
            self.lemma_position(i as int);
        }
        &self.keys[i]
    }

    /// The value at a place in the list.
    pub fn value(&self, i: usize) -> (value: &V)
        requires
            self.wf(),
            i < self.spec_len(),
        ensures
            *value == self.spec_value(i as int),
            *value == self@[self.spec_key(i as int)],
    {
        proof {
            self.lemma_position(i as int);
        }
        &self.values[i]
    }

    /// The place of a key in the list.
    pub fn find(&self, key: &String) -> (found: Option<usize>)
        requires
            self.wf(),
        ensures
            found matches Some(i) ==> i < self.spec_len() && self.spec_key(i as int) == key@
                && self@.contains_key(key@) && self@[key@] == self.spec_value(i as int),
            found is None ==> !self@.contains_key(key@),
    {
        let mut i: usize = 0;
        while i < self.keys.len()
            invariant
                self.wf(),
                i <= self.keys.len(),
                forall|j: int| 0 <= j < i ==> self.keys[j]@ != key@,
            decreases self.keys.len() - i,
        {
            if self.keys[i] == *key {
                proof {
                    self.lemma_position(i as int);
                }
                return Some(i);
            }
            i += 1;
        }
        None
    }

    /// The value of a key.
    pub fn get(&self, key: &String) -> (found: Option<&V>)
        requires
            self.wf(),
        ensures
            found matches Some(value) ==> self@.contains_key(key@) && *value == self@[key@],
            found is None ==> !self@.contains_key(key@),
    {
        match self.find(key) {
            Some(i) => Some(&self.values[i]),
            None => None,
        }
    }

    /// Gives a key a value, in place of the one it had.
    pub fn insert(&mut self, key: String, value: V)
        requires
            old(self).wf(),
        ensures
            final(self).wf(),
            final(self)@ == old(self)@.insert(key@, value),
    {
        let ghost before = *self;
        match self.find(&key) {
            Some(i) => {
                self.values.set(i, value);
                proof {
                    let after = *self;
                    assert forall|k: Seq<char>| after.has(k) <==> before.has(k) by {
                        if after.has(k) {
                            let j = after.position(k);
                            assert(before.keys[j]@ == k);
                        }
                        if before.has(k) {
                            let j = before.position(k);
                            assert(after.keys[j]@ == k);
                        }
                    }
                    assert forall|k: Seq<char>| after.has(k) implies after@[k] == before@.insert(
                        key@,
                        value,
                    )[k] by {
                        let j = after.position(k);
                        before.lemma_position(j);
                        after.lemma_position(j);
                    }
                    assert(after@ =~= before@.insert(key@, value));
                }
            },
            None => {
                self.keys.push(key);
                self.values.push(value);
                proof {
                    let after = *self;
                    let n = before.keys.len() as int;
                    assert forall|i: int, j: int| 0 <= i < j < after.keys.len() implies after.keys[i]@
                        != after.keys[j]@ by {
                        if j == n {
                            assert(before.keys[i]@ == after.keys[i]@);
                            assert(!before.has(key@));
                        }
                    }
                    assert forall|k: Seq<char>| after.has(k) <==> (before.has(k) || k == key@) by {
                        if after.has(k) {
                            let j = after.position(k);
                            if j < n {
                                assert(before.keys[j]@ == k);
                            }
                        }
                        if before.has(k) {
                            let j = before.position(k);
                            assert(after.keys[j]@ == k);
                        }
                        if k == key@ {
                            assert(after.keys[n]@ == k);
                        }
                    }
                    assert forall|k: Seq<char>| after.has(k) implies after@[k] == before@.insert(
                        key@,
                        value,
                    )[k] by {
                        let j = after.position(k);
                        after.lemma_position(j);
                        if j < n {
                            before.lemma_position(j);
                        }
                    }
                    assert(after@ =~= before@.insert(key@, value));
                }
            },
        }
    }

    /// Takes a key out, and gives the value it had.
    pub fn remove(&mut self, key: &String) -> (taken: Option<V>)
        requires
            old(self).wf(),
        ensures
            final(self).wf(),
            final(self)@ == old(self)@.remove(key@),
            taken matches Some(value) ==> old(self)@.contains_key(key@) && value == old(self)@[key@],
            taken is None ==> !old(self)@.contains_key(key@),
    {
        let ghost before = *self;
        match self.find(key) {
            Some(i) => {
                self.keys.remove(i);
                let value = self.values.remove(i);
                proof {
                    let after = *self;
                    assert forall|a: int, b: int| 0 <= a < b < after.keys.len() implies after.keys[a]@
                        != after.keys[b]@ by {
                        let a0 = if a < i { a } else { a + 1 };
                        let b0 = if b < i { b } else { b + 1 };
                        assert(after.keys[a] == before.keys[a0]);
                        assert(after.keys[b] == before.keys[b0]);
                    }
                    assert forall|k: Seq<char>| after.has(k) <==> (before.has(k) && k != key@) by {
                        if after.has(k) {
                            let j = after.position(k);
                            let j0 = if j < i { j } else { j + 1 };
                            assert(before.keys[j0]@ == k);
                        }
                        if before.has(k) && k != key@ {
                            let j = before.position(k);
                            let j1 = if j < i { j } else { j - 1 };
                            assert(after.keys[j1]@ == k);
                        }
                    }
                    assert forall|k: Seq<char>| after.has(k) implies after@[k] == before@.remove(
                        key@,
                    )[k] by {
                        let j = after.position(k);
                        let j0 = if j < i { j } else { j + 1 };
                        after.lemma_position(j);
                        assert(before.keys[j0]@ == k);
                        before.lemma_position(j0);
                    }
                    assert(after@ =~= before@.remove(key@));
                }
                Some(value)
            },
            None => {
                assert(self@ =~= before@.remove(key@));
                None
            },
        }
    }
}

} // verus!
