//! Stable storage: a persistent map from text keys to byte values.
use vstd::prelude::*;

verus! {

/// A store that keeps what was put into it across crashes.
///
/// Its model is the map `contents` from keys to values, and the rule
/// `accepts` that says which puts it takes. A put that it accepts binds the
/// key to the value; one that it refuses fails and leaves the store as it
/// was; no put changes the rule; `get` reads the value bound to the key.
///
/// The two models have closed defaults that no proof reads: the verified
/// code that uses a store is generic over it, and every store in this
/// library defines both models and is proved to meet the contract. The
/// defaults are there because the compiled trait keeps the two models, so
/// a store written outside verified code (such as one kept in files by the
/// running system) must inherit them; the defaults do not describe such a
/// store, and its meeting the contract is trusted, not proved.
pub trait StableStorage: Send {
    /// The values held, by key.
    closed spec fn contents(&self) -> Map<Seq<char>, Seq<u8>> {
        Map::empty()
    }

    /// Which puts are taken: a put of `value` under `key` is taken where
    /// `accepts()(key, value)` holds.
    closed spec fn accepts(&self) -> spec_fn(Seq<char>, Seq<u8>) -> bool {
        |key: Seq<char>, value: Seq<u8>| true
    }

    fn put(&mut self, key: &str, value: &[u8]) -> (r: Result<(), String>)
        ensures
            r is Ok <==> (old(self).accepts())(key@, value@),
            final(self).accepts() == old(self).accepts(),
            r is Ok ==> final(self).contents() == old(self).contents().insert(key@, value@),
            r is Err ==> final(self).contents() == old(self).contents(),
    ;

    fn get(&self, key: &str) -> (r: Option<Vec<u8>>)
        ensures
            r is Some <==> self.contents().contains_key(key@),
            r matches Some(v) ==> v@ == self.contents()[key@],
    ;
}

/// A stable storage held in memory: what it keeps survives as long as the
/// value does.
pub struct RamStorage {
    entries: Vec<(String, Vec<u8>)>,
}

impl RamStorage {
    /// No two entries share a key.
    #[verifier::type_invariant]
    spec fn wf(&self) -> bool {
        forall|i: int, j: int|
            0 <= i < self.entries@.len() && 0 <= j < self.entries@.len() && i != j
                ==> self.entries@[i].0@ != self.entries@[j].0@
    }

    spec fn holds_key(&self, k: Seq<char>) -> bool {
        exists|i: int| 0 <= i < self.entries@.len() && self.entries@[i].0@ == k
    }

    spec fn slot_of(&self, k: Seq<char>) -> int {
        choose|i: int| 0 <= i < self.entries@.len() && self.entries@[i].0@ == k
    }

    pub closed spec fn model(&self) -> Map<Seq<char>, Seq<u8>> {
        Map::new(|k: Seq<char>| self.holds_key(k), |k: Seq<char>| self.entries@[self.slot_of(k)].1@)
    }

    /// An empty store.
    pub fn new() -> (s: Self)
        ensures
            s.contents() == Map::<Seq<char>, Seq<u8>>::empty(),
    {
        let s = RamStorage { entries: Vec::new() };
        assert(s.model() =~= Map::<Seq<char>, Seq<u8>>::empty());
        s
    }

    /// The slot that holds `key`, if any.
    fn find(&self, key: &str) -> (r: Option<usize>)
        ensures
            r is None <==> !self.holds_key(key@),
            r matches Some(i) ==> i < self.entries@.len() && self.entries@[i as int].0@ == key@
                && self.slot_of(key@) == i,
    {
        proof {
            use_type_invariant(self);
        }
        let wanted = key.to_owned();
        let mut i: usize = 0;
        while i < self.entries.len()
            invariant
                i <= self.entries@.len(),
                wanted@ == key@,
                forall|j: int| 0 <= j < i ==> self.entries@[j].0@ != key@,
            decreases self.entries@.len() - i,
        {
            if self.entries[i].0 == wanted {
                proof {
                    use_type_invariant(self);
                    let c = self.slot_of(key@);
                    assert(self.holds_key(key@));
                    assert(self.entries@[c].0@ == key@);
                }
                return Some(i);
            }
            i = i + 1;
        }
        None
    }
}

impl StableStorage for RamStorage {
    open spec fn contents(&self) -> Map<Seq<char>, Seq<u8>> {
        self.model()
    }

    /// A store in memory takes every key and value.
    open spec fn accepts(&self) -> spec_fn(Seq<char>, Seq<u8>) -> bool {
        |key: Seq<char>, value: Seq<u8>| true
    }

    /// A store in memory takes every key and value.
    fn put(&mut self, key: &str, value: &[u8]) -> (r: Result<(), String>)
        ensures
            r is Ok,
    {
        proof {
            use_type_invariant(&*self);
        }
        let stored = vstd::slice::slice_to_vec(value);
        match self.find(key) {
            Some(i) => {
                let ghost old_model = self.model();
                let mut entries = Vec::new();
                std::mem::swap(&mut entries, &mut self.entries);
                entries.set(i, (key.to_owned(), stored));
                self.entries = entries;
                proof {
                    use_type_invariant(&*self);
                    assert(self.model() =~= old_model.insert(key@, value@)) by {
                        assert(self.entries@[i as int].0@ == key@);
                        assert forall|k: Seq<char>| #![auto] self.holds_key(k) == old_model.insert(key@, value@).dom().contains(k) by {
                            if k != key@ && old(self).holds_key(k) {
                                let c = old(self).slot_of(k);
                                assert(self.entries@[c].0@ == k);
                            }
                            if k != key@ && self.holds_key(k) {
                                let c = self.slot_of(k);
                                assert(old(self).entries@[c].0@ == k);
                            }
                        }
                        assert forall|k: Seq<char>| #![auto] self.holds_key(k) implies self.entries@[self.slot_of(k)].1@ == old_model.insert(key@, value@)[k] by {
                            let c = self.slot_of(k);
                            if k == key@ {
                                assert(c == i);
                            } else {
                                assert(old(self).entries@[c].0@ == k);
                                assert(old(self).slot_of(k) == c);
                            }
                        }
                    }
                }
            },
            None => {
                let ghost old_model = self.model();
                let mut entries = Vec::new();
                std::mem::swap(&mut entries, &mut self.entries);
                entries.push((key.to_owned(), stored));
                self.entries = entries;
                proof {
                    use_type_invariant(&*self);
                    assert(self.model() =~= old_model.insert(key@, value@)) by {
                        let n = old(self).entries@.len() as int;
                        assert(self.entries@[n].0@ == key@);
                        assert forall|k: Seq<char>| #![auto] self.holds_key(k) == old_model.insert(key@, value@).dom().contains(k) by {
                            if k != key@ && old(self).holds_key(k) {
                                let c = old(self).slot_of(k);
                                assert(self.entries@[c].0@ == k);
                            }
                            if k != key@ && self.holds_key(k) {
                                let c = self.slot_of(k);
                                assert(old(self).entries@[c].0@ == k);
                            }
                        }
                        assert forall|k: Seq<char>| #![auto] self.holds_key(k) implies self.entries@[self.slot_of(k)].1@ == old_model.insert(key@, value@)[k] by {
                            let c = self.slot_of(k);
                            if k == key@ {
                                assert(c == n);
                            } else {
                                assert(old(self).entries@[c].0@ == k);
                                assert(old(self).slot_of(k) == c);
                            }
                        }
                    }
                }
            },
        }
        Ok(())
    }

    fn get(&self, key: &str) -> (r: Option<Vec<u8>>) {
        match self.find(key) {
            Some(i) => {
                let v = self.entries[i].1.clone();
                assert(v@ =~= self.entries@[i as int].1@);
                Some(v)
            },
            None => None,
        }
    }
}

impl Default for RamStorage {
    fn default() -> (s: Self)
        ensures
            s.contents() == Map::<Seq<char>, Seq<u8>>::empty(),
    {
        RamStorage::new()
    }
}

} // verus!
