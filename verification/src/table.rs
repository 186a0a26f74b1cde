//! A small map from strings to values, kept as two parallel vectors.
use vstd::prelude::*;

verus! {

/// A map from string keys to values of type `V`.
pub struct StrTable<V> {
    keys: Vec<String>,
    vals: Vec<V>,
}

impl<V> StrTable<V> {
    /// Keys and values pair up, and no key occurs twice.
    pub closed spec fn well_formed(self) -> bool {
        &&& self.keys@.len() == self.vals@.len()
        &&& forall|i: int, j: int|
            0 <= i < j < self.keys@.len() ==> #[trigger] self.keys@[i]@ != #[trigger] self.keys@[j]@
    }

    closed spec fn holds_key(self, k: Seq<char>) -> bool {
        exists|i: int| 0 <= i < self.keys@.len() && #[trigger] self.keys@[i]@ == k
    }

    closed spec fn key_index(self, k: Seq<char>) -> int {
        choose|i: int| 0 <= i < self.keys@.len() && #[trigger] self.keys@[i]@ == k
    }

    /// The contents of the table, as a map from the keys' characters to values.
    pub closed spec fn contents(self) -> Map<Seq<char>, V> {
        Map::new(|k: Seq<char>| self.holds_key(k), |k: Seq<char>| self.vals@[self.key_index(k)])
    }

    proof fn lemma_index(self, i: int)
        requires
            self.well_formed(),
            0 <= i < self.keys@.len(),
        ensures
            self.contents().contains_key(self.keys@[i]@),
            self.key_index(self.keys@[i]@) == i,
            self.contents()[self.keys@[i]@] == self.vals@[i],
    {
        let k = self.keys@[i]@;
        assert(self.holds_key(k));
        let j = self.key_index(k);
        if j != i {
            if j < i {
                assert(self.keys@[j]@ != self.keys@[i]@);
            } else {
                assert(self.keys@[i]@ != self.keys@[j]@);
            }
        }
    }

    /// An empty table.
    pub fn new() -> (t: Self)
        ensures
            t.well_formed(),
            t.contents() == Map::<Seq<char>, V>::empty(),
    {
        let t = StrTable { keys: Vec::new(), vals: Vec::new() };
        assert(t.contents() =~= Map::<Seq<char>, V>::empty());
        t
    }

    /// The position of `key`, if the table holds it.
    fn find(&self, key: &str) -> (r: Option<usize>)
        requires
            self.well_formed(),
        ensures
            match r {
                Some(i) => i < self.keys@.len() && self.keys@[i as int]@ == key@,
                None => !self.contents().contains_key(key@),
            },
    {
        let owned = key.to_owned();
        let mut i: usize = 0;
        while i < self.keys.len()
            invariant
                i <= self.keys@.len(),
                owned@ == key@,
                forall|j: int| 0 <= j < i ==> #[trigger] self.keys@[j]@ != key@,
            decreases self.keys@.len() - i,
        {
            if self.keys[i] == owned {
                return Some(i);
            }
            i = i + 1;
        }
        None
    }

    /// The value stored under `key`, if any.
    pub fn get(&self, key: &str) -> (r: Option<&V>)
        requires
            self.well_formed(),
        ensures
            match r {
                Some(v) => self.contents().contains_key(key@) && *v == self.contents()[key@],
                None => !self.contents().contains_key(key@),
            },
    {
        match self.find(key) {
            Some(i) => {
                proof {
                    self.lemma_index(i as int);
                }
                Some(&self.vals[i])
            },
            None => None,
        }
    }

    /// Stores `value` under `key`, replacing what was stored there.
    pub fn insert(&mut self, key: String, value: V)
        requires
            old(self).well_formed(),
        ensures
            final(self).well_formed(),
            final(self).contents() == old(self).contents().insert(key@, value),
    {
        let ghost pre = *self;
        match self.find(key.as_str()) {
            Some(i) => {
                self.vals.set(i, value);
                proof {
                    assert(self.keys@ == pre.keys@);
                    assert forall|k: Seq<char>|
                        #[trigger] self.contents().contains_key(k) == pre.contents().insert(key@, value).contains_key(k)
                    by {
                        if pre.holds_key(k) {
                            let j = pre.key_index(k);
                            assert(self.keys@[j]@ == k);
                        }
                    }
                    assert forall|k: Seq<char>| self.contents().contains_key(k) implies
                        #[trigger] self.contents()[k] == pre.contents().insert(key@, value)[k]
                    by {
                        let j = self.key_index(k);
                        self.lemma_index(j);
                        pre.lemma_index(j);
                    }
                    assert(self.contents() =~= pre.contents().insert(key@, value));
                }
            },
            None => {
                self.keys.push(key);
                self.vals.push(value);
                proof {
                    let n = pre.keys@.len() as int;
                    assert forall|i: int, j: int|
                        0 <= i < j < self.keys@.len() implies #[trigger] self.keys@[i]@ != #[trigger] self.keys@[j]@
                    by {
                        if j == n {
                            pre.lemma_index(i);
                        }
                    }
                    assert forall|k: Seq<char>|
                        #[trigger] self.contents().contains_key(k) == pre.contents().insert(key@, value).contains_key(k)
                    by {
                        if pre.holds_key(k) {
                            let j = pre.key_index(k);
                            assert(self.keys@[j]@ == k);
                        }
                        if k == key@ {
                            assert(self.keys@[n]@ == k);
                        }
                        if self.holds_key(k) {
                            let j = self.key_index(k);
                            if j < n {
                                assert(pre.keys@[j]@ == k);
                            }
                        }
                    }
                    assert forall|k: Seq<char>| self.contents().contains_key(k) implies
                        #[trigger] self.contents()[k] == pre.contents().insert(key@, value)[k]
                    by {
                        let j = self.key_index(k);
                        self.lemma_index(j);
                        if j < n {
                            pre.lemma_index(j);
                        }
                    }
                    assert(self.contents() =~= pre.contents().insert(key@, value));
                }
            },
        }
    }

    /// Removes what is stored under `key` and hands it back.
    pub fn remove(&mut self, key: &str) -> (r: Option<V>)
        requires
            old(self).well_formed(),
        ensures
            final(self).well_formed(),
            final(self).contents() == old(self).contents().remove(key@),
            r == old(self).contents().get(key@),
    {
        let ghost pre = *self;
        match self.find(key) {
            Some(i) => {
                proof {
                    pre.lemma_index(i as int);
                }
                self.keys.remove(i);
                let v = self.vals.remove(i);
                proof {
                    let post = *self;
                    assert forall|a: int, b: int|
                        0 <= a < b < post.keys@.len() implies #[trigger] post.keys@[a]@ != #[trigger] post.keys@[b]@
                    by {
                        let a2 = if a < i { a } else { a + 1 };
                        let b2 = if b < i { b } else { b + 1 };
                        assert(post.keys@[a] == pre.keys@[a2]);
                        assert(post.keys@[b] == pre.keys@[b2]);
                    }
                    assert forall|k: Seq<char>|
                        #[trigger] post.contents().contains_key(k) == pre.contents().remove(key@).contains_key(k)
                    by {
                        if pre.holds_key(k) && k != key@ {
                            let j = pre.key_index(k);
                            pre.lemma_index(j);
                            let j2 = if j < i { j } else { j - 1 };
                            assert(post.keys@[j2] == pre.keys@[j]);
                        }
                        if post.holds_key(k) {
                            let j = post.key_index(k);
                            let j2 = if j < i { j } else { j + 1 };
                            assert(post.keys@[j] == pre.keys@[j2]);
                            pre.lemma_index(j2);
                        }
                    }
                    assert forall|k: Seq<char>| post.contents().contains_key(k) implies
                        #[trigger] post.contents()[k] == pre.contents().remove(key@)[k]
                    by {
                        let j = post.key_index(k);
                        post.lemma_index(j);
                        let j2 = if j < i { j } else { j + 1 };
                        assert(post.keys@[j] == pre.keys@[j2]);
                        pre.lemma_index(j2);
                    }
                    assert(post.contents() =~= pre.contents().remove(key@));
                }
                Some(v)
            },
            None => {
                assert(self.contents() =~= pre.contents().remove(key@));
                None
            },
        }
    }
}

impl<V> View for StrTable<V> {
    type V = Map<Seq<char>, V>;

    open spec fn view(&self) -> Map<Seq<char>, V> {
        self.contents()
    }
}

} // verus!
