//! # Collections
//!
//! `StringMap`: a map keyed by strings, kept as a list of entries with distinct keys.
//! It stands for the session tables (aliases, functions, variables, environment).

use vstd::prelude::*;

verus! {

/// A map from strings to values. Entries keep their insertion order; keys are distinct.
pub struct StringMap<V> {
    entries: Vec<(String, V)>,
}

impl<V> StringMap<V> {
    /// The keys are pairwise distinct.
    pub closed spec fn wf(&self) -> bool {
        forall|i: int, j: int|
            0 <= i < self.entries@.len() && 0 <= j < self.entries@.len() && i != j
                ==> #[trigger] self.entries@[i].0@ != #[trigger] self.entries@[j].0@
    }

    /// Whether some entry has key `k`.
    pub closed spec fn has(&self, k: Seq<char>) -> bool {
        exists|i: int| 0 <= i < self.entries@.len() && #[trigger] self.entries@[i].0@ == k
    }

    /// The position of the entry with key `k`.
    pub closed spec fn index_of(&self, k: Seq<char>) -> int {
        choose|i: int| 0 <= i < self.entries@.len() && #[trigger] self.entries@[i].0@ == k
    }

    /// The map the entries denote.
    pub closed spec fn view(&self) -> Map<Seq<char>, V> {
        Map::new(|k: Seq<char>| self.has(k), |k: Seq<char>| self.entries@[self.index_of(k)].1)
    }

    /// The keys, in insertion order.
    pub closed spec fn key_seq(&self) -> Seq<Seq<char>> {
        Seq::new(self.entries@.len(), |i: int| self.entries@[i].0@)
    }

    proof fn lemma_index(&self, i: int)
        requires
            self.wf(),
            0 <= i < self.entries@.len(),
        ensures
            self.has(self.entries@[i].0@),
            self.index_of(self.entries@[i].0@) == i,
            self.view().dom().contains(self.entries@[i].0@),
            self.view()[self.entries@[i].0@] == self.entries@[i].1,
    {
        let k = self.entries@[i].0@;
        assert(self.has(k));
        let j = self.index_of(k);
        assert(0 <= j < self.entries@.len() && self.entries@[j].0@ == k);
    }

    /// An empty map.
    pub fn new() -> (m: Self)
        ensures
            m.wf(),
            m.view() == Map::<Seq<char>, V>::empty(),
            m.key_seq() == Seq::<Seq<char>>::empty(),
    {
        let m = StringMap { entries: Vec::new() };
        assert(m.view() =~= Map::<Seq<char>, V>::empty());
        assert(m.key_seq() =~= Seq::<Seq<char>>::empty());
        m
    }

    /// The number of entries.
    pub fn len(&self) -> (n: usize)
        requires
            self.wf(),
        ensures
            n == self.view().dom().len(),
            n == self.key_seq().len(),
    {
        proof { self.lemma_len(); }
        self.entries.len()
    }

    proof fn lemma_len(&self)
        requires
            self.wf(),
        ensures
            self.view().dom().len() == self.entries@.len(),
            self.view().dom() == self.key_seq().to_set(),
            self.key_seq().no_duplicates(),
    {
        let ks = self.key_seq();
        assert forall|i: int, j: int| 0 <= i < ks.len() && 0 <= j < ks.len() && i != j implies ks[i] != ks[j] by {
            assert(ks[i] == self.entries@[i].0@);
            assert(ks[j] == self.entries@[j].0@);
        }
        assert(self.view().dom() =~= ks.to_set()) by {
            assert forall|k: Seq<char>| self.view().dom().contains(k) <==> ks.to_set().contains(k) by {
                if self.has(k) {
                    let i = self.index_of(k);
                    assert(ks[i] == k);
                }
                if ks.to_set().contains(k) {
                    let i = choose|i: int| 0 <= i < ks.len() && ks[i] == k;
                    assert(self.entries@[i].0@ == k);
                }
            }
        }
        ks.unique_seq_to_set();
    }

    /// Looks up the value under `key`.
    pub fn get(&self, key: &str) -> (r: Option<&V>)
        requires
            self.wf(),
        ensures
            r == (if self.view().dom().contains(key@) { Some(&self.view()[key@]) } else { None::<&V> }),
    {
        let n = self.entries.len();
        for i in 0..n
            invariant
                n == self.entries@.len(),
                self.wf(),
                forall|j: int| 0 <= j < i ==> self.entries@[j].0@ != key@,
        {
            if crate::text::str_is(self.entries[i].0.as_str(), key) {
                proof { self.lemma_index(i as int); }
                return Some(&self.entries[i].1);
            }
        }
        assert(!self.has(key@));
        None
    }

    /// Position of `key` in the entries, if any.
    fn find(&self, key: &str) -> (r: Option<usize>)
        requires
            self.wf(),
        ensures
            match r {
                Some(i) => i < self.entries@.len() && self.entries@[i as int].0@ == key@,
                None => !self.has(key@),
            },
    {
        let n = self.entries.len();
        for i in 0..n
            invariant
                n == self.entries@.len(),
                forall|j: int| 0 <= j < i ==> self.entries@[j].0@ != key@,
        {
            if crate::text::str_is(self.entries[i].0.as_str(), key) {
                return Some(i);
            }
        }
        None
    }

    /// Sets `key` to `value`; an existing entry keeps its position.
    pub fn insert(&mut self, key: String, value: V)
        requires
            old(self).wf(),
        ensures
            final(self).wf(),
            final(self).view() == old(self).view().insert(key@, value),
            old(self).view().dom().contains(key@) ==> final(self).key_seq() == old(self).key_seq(),
            !old(self).view().dom().contains(key@) ==> final(self).key_seq() == old(self).key_seq().push(key@),
    {
        let ghost old_self = *self;
        match self.find(key.as_str()) {
            Some(i) => {
                let ghost k = key@;
                self.entries.set(i, (key, value));
                proof {
                    assert(self.wf()) by {
                        assert forall|a: int, b: int|
                            0 <= a < self.entries@.len() && 0 <= b < self.entries@.len() && a != b
                            implies #[trigger] self.entries@[a].0@ != #[trigger] self.entries@[b].0@ by {
                            assert(old_self.entries@[a].0@ != old_self.entries@[b].0@);
                        }
                    }
                    old_self.lemma_index(i as int);
                    assert forall|kk: Seq<char>| self.has(kk) <==> old_self.has(kk) by {
                        if self.has(kk) {
                            let a = choose|a: int| 0 <= a < self.entries@.len() && #[trigger] self.entries@[a].0@ == kk;
                            assert(old_self.entries@[a].0@ == kk);
                        }
                        if old_self.has(kk) {
                            let a = choose|a: int| 0 <= a < old_self.entries@.len() && #[trigger] old_self.entries@[a].0@ == kk;
                            assert(self.entries@[a].0@ == kk);
                        }
                    }
                    assert(self.view() =~= old_self.view().insert(k, value)) by {
                        assert forall|kk: Seq<char>| #[trigger] self.view().dom().contains(kk) implies
                            self.view()[kk] == old_self.view().insert(k, value)[kk] by {
                            let a = self.index_of(kk);
                            self.lemma_index(a);
                            if kk != k {
                                old_self.lemma_index(a);
                            }
                        }
                    }
                    assert(self.key_seq() =~= old_self.key_seq());
                }
            },
            None => {
                let ghost k = key@;
                self.entries.push((key, value));
                proof {
                    let n = old_self.entries@.len();
                    assert(self.wf()) by {
                        assert forall|a: int, b: int|
                            0 <= a < self.entries@.len() && 0 <= b < self.entries@.len() && a != b
                            implies #[trigger] self.entries@[a].0@ != #[trigger] self.entries@[b].0@ by {
                            if a < n && b < n {
                                assert(old_self.entries@[a].0@ != old_self.entries@[b].0@);
                            } else if a == n {
                                assert(old_self.entries@[b].0@ != k);
                            } else {
                                assert(old_self.entries@[a].0@ != k);
                            }
                        }
                    }
                    assert forall|kk: Seq<char>| self.has(kk) <==> (old_self.has(kk) || kk == k) by {
                        if self.has(kk) {
                            let a = choose|a: int| 0 <= a < self.entries@.len() && #[trigger] self.entries@[a].0@ == kk;
                            if a < n {
                                assert(old_self.entries@[a].0@ == kk);
                            }
                        }
                        if old_self.has(kk) {
                            let a = choose|a: int| 0 <= a < old_self.entries@.len() && #[trigger] old_self.entries@[a].0@ == kk;
                            assert(self.entries@[a].0@ == kk);
                        }
                        if kk == k {
                            assert(self.entries@[n as int].0@ == kk);
                        }
                    }
                    assert(self.view() =~= old_self.view().insert(k, value)) by {
                        assert forall|kk: Seq<char>| #[trigger] self.view().dom().contains(kk) implies
                            self.view()[kk] == old_self.view().insert(k, value)[kk] by {
                            let a = self.index_of(kk);
                            self.lemma_index(a);
                            if kk != k {
                                old_self.lemma_index(a);
                            }
                        }
                    }
                    assert(self.key_seq() =~= old_self.key_seq().push(k));
                }
            },
        }
    }

    /// Removes the entry under `key`, returning its value.
    pub fn remove(&mut self, key: &str) -> (r: Option<V>)
        requires
            old(self).wf(),
        ensures
            final(self).wf(),
            final(self).view() == old(self).view().remove(key@),
            r == (if old(self).view().dom().contains(key@) { Some(old(self).view()[key@]) } else { None::<V> }),
    {
        let ghost old_self = *self;
        match self.find(key) {
            Some(i) => {
                proof { old_self.lemma_index(i as int); }
                let (_, v) = self.entries.remove(i);
                proof {
                    let n = old_self.entries@.len();
                    assert forall|a: int| 0 <= a < self.entries@.len() implies
                        #[trigger] self.entries@[a] == old_self.entries@[if a < i { a } else { a + 1 }] by {}
                    assert(self.wf()) by {
                        assert forall|a: int, b: int|
                            0 <= a < self.entries@.len() && 0 <= b < self.entries@.len() && a != b
                            implies #[trigger] self.entries@[a].0@ != #[trigger] self.entries@[b].0@ by {
                            let a2 = if a < i { a } else { a + 1 };
                            let b2 = if b < i { b } else { b + 1 };
                            assert(old_self.entries@[a2].0@ != old_self.entries@[b2].0@);
                        }
                    }
                    assert forall|kk: Seq<char>| self.has(kk) <==> (old_self.has(kk) && kk != key@) by {
                        if self.has(kk) {
                            let a = choose|a: int| 0 <= a < self.entries@.len() && #[trigger] self.entries@[a].0@ == kk;
                            let a2 = if a < i { a } else { a + 1 };
                            assert(old_self.entries@[a2].0@ == kk);
                            assert(a2 != i);
                        }
                        if old_self.has(kk) && kk != key@ {
                            let a = choose|a: int| 0 <= a < old_self.entries@.len() && #[trigger] old_self.entries@[a].0@ == kk;
                            assert(a != i);
                            let a2 = if a < i { a } else { a - 1 };
                            assert(self.entries@[a2].0@ == kk);
                        }
                    }
                    assert(self.view() =~= old_self.view().remove(key@)) by {
                        assert forall|kk: Seq<char>| #[trigger] self.view().dom().contains(kk) implies
                            self.view()[kk] == old_self.view()[kk] by {
                            let a = self.index_of(kk);
                            self.lemma_index(a);
                            let a2 = if a < i { a } else { a + 1 };
                            old_self.lemma_index(a2);
                        }
                    }
                }
                Some(v)
            },
            None => {
                assert(self.view() =~= old_self.view().remove(key@));
                None
            },
        }
    }

    /// Removes every entry.
    pub fn clear(&mut self)
        ensures
            final(self).wf(),
            final(self).view() == Map::<Seq<char>, V>::empty(),
            final(self).key_seq() == Seq::<Seq<char>>::empty(),
    {
        self.entries.clear();
        assert(self.view() =~= Map::<Seq<char>, V>::empty());
        assert(self.key_seq() =~= Seq::<Seq<char>>::empty());
    }

    /// The key of the `i`-th entry.
    pub fn key_at(&self, i: usize) -> (r: &String)
        requires
            self.wf(),
            i < self.key_seq().len(),
        ensures
            r@ == self.key_seq()[i as int],
            self.view().dom().contains(r@),
    {
        proof { self.lemma_index(i as int); }
        &self.entries[i].0
    }

    /// The value of the `i`-th entry.
    pub fn value_at(&self, i: usize) -> (r: &V)
        requires
            self.wf(),
            i < self.key_seq().len(),
        ensures
            *r == self.view()[self.key_seq()[i as int]],
    {
        proof { self.lemma_index(i as int); }
        &self.entries[i].1
    }
}

} // verus!
