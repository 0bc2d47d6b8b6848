//! The cache's table from key to value, also used for user names and passwords.
use vstd::prelude::*;

verus! {

/// A table from text keys to text values; each key occurs once.
pub struct Store {
    keys: Vec<String>,
    values: Vec<String>,
}

impl View for Store {
    type V = Map<Seq<char>, Seq<char>>;

    closed spec fn view(&self) -> Map<Seq<char>, Seq<char>> {
        Map::new(
            |k: Seq<char>| exists|i: int| 0 <= i < self.keys@.len() && #[trigger] self.keys@[i]@ == k,
            |k: Seq<char>| self.values@[self.index_of(k)]@,
        )
    }
}

impl Store {
    /// The slot that holds key `k`.
    closed spec fn index_of(&self, k: Seq<char>) -> int {
        choose|i: int| 0 <= i < self.keys@.len() && #[trigger] self.keys@[i]@ == k
    }

    /// The table is well formed: one value per key, and no key twice.
    pub closed spec fn wf(&self) -> bool {
        &&& self.keys@.len() == self.values@.len()
        &&& forall|i: int, j: int|
            0 <= i < self.keys@.len() && 0 <= j < self.keys@.len() && i != j
                ==> #[trigger] self.keys@[i]@ != #[trigger] self.keys@[j]@
    }

    proof fn lemma_slot(&self, i: int)
        requires
            self.wf(),
            0 <= i < self.keys@.len(),
        ensures
            self@.contains_key(self.keys@[i]@),
            self.index_of(self.keys@[i]@) == i,
            self@[self.keys@[i]@] == self.values@[i]@,
    {
        let k = self.keys@[i]@;
        assert(exists|j: int| 0 <= j < self.keys@.len() && #[trigger] self.keys@[j]@ == k);
        let j = self.index_of(k);
        assert(0 <= j < self.keys@.len() && self.keys@[j]@ == k);
    }

    /// An empty table.
    pub fn new() -> (s: Store)
        ensures
            s.wf(),
            s@ == Map::<Seq<char>, Seq<char>>::empty(),
    {
        let s = Store { keys: Vec::new(), values: Vec::new() };
        assert(s@ =~= Map::<Seq<char>, Seq<char>>::empty());
        s
    }

    /// The slot that holds `key`, if any.
    fn position(&self, key: &String) -> (r: Option<usize>)
        requires
            self.wf(),
        ensures
            match r {
                Some(i) => i < self.keys@.len() && self.keys@[i as int]@ == key@,
                None => forall|i: int| 0 <= i < self.keys@.len() ==> self.keys@[i]@ != key@,
            },
    {
        let mut i: usize = 0;
        while i < self.keys.len()
            invariant
                i <= self.keys@.len(),
                forall|j: int| 0 <= j < i ==> self.keys@[j]@ != key@,
            decreases self.keys@.len() - i,
        {
            if self.keys[i] == *key {
                return Some(i);
            }
            i += 1;
        }
        None
    }

    /// A copy of the value stored under `key`, if there is one.
    pub fn get(&self, key: &String) -> (r: Option<String>)
        requires
            self.wf(),
        ensures
            match r {
                Some(v) => self@.contains_key(key@) && v@ == self@[key@],
                None => !self@.contains_key(key@),
            },
    {
        match self.position(key) {
            Some(i) => {
                proof { self.lemma_slot(i as int); }
                Some(self.values[i].clone())
            },
            None => None,
        }
    }

    /// Stores `value` under `key`, replacing any earlier value.
    pub fn insert(&mut self, key: String, value: String)
        requires
            old(self).wf(),
        ensures
            final(self).wf(),
            final(self)@ == old(self)@.insert(key@, value@),
    {
        let ghost k = key@;
        let ghost v = value@;
        match self.position(&key) {
            Some(i) => {
                proof { old(self).lemma_slot(i as int); }
                self.values.set(i, value);
                assert forall|j: int| 0 <= j < self.keys@.len() implies self@[self.keys@[j]@]
                    == old(self)@.insert(k, v)[self.keys@[j]@] by {
                    self.lemma_slot(j);
                    old(self).lemma_slot(j);
                }
                assert(self@ =~= old(self)@.insert(k, v)) by {
                    assert forall|x: Seq<char>| #[trigger] self@.contains_key(x)
                        implies self@[x] == old(self)@.insert(k, v)[x] by {
                        let j = self.index_of(x);
                        self.lemma_slot(j);
                    }
                }
            },
            None => {
                self.keys.push(key);
                self.values.push(value);
                let ghost n = old(self).keys@.len() as int;
                assert(self.keys@[n]@ == k);
                assert forall|x: Seq<char>| #[trigger] self@.contains_key(x)
                    implies self@[x] == old(self)@.insert(k, v)[x] by {
                    let j = self.index_of(x);
                    self.lemma_slot(j);
                    if j < n {
                        old(self).lemma_slot(j);
                    }
                }
                assert forall|x: Seq<char>| #[trigger] old(self)@.insert(k, v).contains_key(x)
                    implies self@.contains_key(x) by {
                    if x != k {
                        let j = old(self).index_of(x);
                        assert(self.keys@[j]@ == x);
                    }
                }
                assert(self@ =~= old(self)@.insert(k, v));
            },
        }
    }

    /// Removes `key` and its value, if present.
    pub fn remove(&mut self, key: &String)
        requires
            old(self).wf(),
        ensures
            final(self).wf(),
            final(self)@ == old(self)@.remove(key@),
    {
        match self.position(key) {
            Some(i) => {
                proof { old(self).lemma_slot(i as int); }
                self.keys.remove(i);
                self.values.remove(i);
                let ghost k = key@;
                assert forall|a: int, b: int|
                    0 <= a < self.keys@.len() && 0 <= b < self.keys@.len() && a != b
                    implies #[trigger] self.keys@[a]@ != #[trigger] self.keys@[b]@ by {
                    let oa = if a < i { a } else { a + 1 };
                    let ob = if b < i { b } else { b + 1 };
                    assert(self.keys@[a] == old(self).keys@[oa]);
                    assert(self.keys@[b] == old(self).keys@[ob]);
                }
                assert forall|x: Seq<char>| #[trigger] self@.contains_key(x)
                    implies old(self)@.remove(k).contains_key(x) && self@[x] == old(self)@.remove(k)[x] by {
                    let j = self.index_of(x);
                    self.lemma_slot(j);
                    let oj = if j < i { j } else { j + 1 };
                    assert(self.keys@[j] == old(self).keys@[oj]);
                    assert(self.values@[j] == old(self).values@[oj]);
                    old(self).lemma_slot(oj);
                }
                assert forall|x: Seq<char>| #[trigger] old(self)@.remove(k).contains_key(x)
                    implies self@.contains_key(x) by {
                    let oj = old(self).index_of(x);
                    old(self).lemma_slot(oj);
                    assert(oj != i);
                    let j = if oj < i { oj } else { oj - 1 };
                    assert(self.keys@[j] == old(self).keys@[oj]);
                }
                assert(self@ =~= old(self)@.remove(k));
            },
            None => {
                assert forall|x: Seq<char>| #[trigger] self@.contains_key(x) implies x != key@ by {
                    let j = self.index_of(x);
                }
                assert(self@ =~= old(self)@.remove(key@));
            },
        }
    }
}

} // verus!
