//! A map keyed by text, kept as a list of entries in which no key occurs
//! twice.

use vstd::prelude::*;

verus! {

/// In a sequence without duplicates an element is found where it stands.
pub proof fn lemma_index_of(s: Seq<Seq<char>>, i: int)
    requires
        s.no_duplicates(),
        0 <= i < s.len(),
    ensures
        s.index_of(s[i]) == i,
        s.contains(s[i]),
{
    let j = s.index_of(s[i]);
    assert(0 <= j < s.len() && s[j] == s[i]);
}

/// A map from texts to values of `V`.
#[derive(Debug)]
pub struct StringMap<V> {
    keys: Vec<String>,
    values: Vec<V>,
}

impl<V> View for StringMap<V> {
    type V = Map<Seq<char>, V>;

    open spec fn view(&self) -> Map<Seq<char>, V> {
        Map::new(
            |k: Seq<char>| self.key_seq().contains(k),
            |k: Seq<char>| self.value_seq()[self.key_seq().index_of(k)],
        )
    }
}

impl<V> StringMap<V> {
    /// The keys, in the order in which the entries are kept.
    pub closed spec fn key_seq(&self) -> Seq<Seq<char>> {
        Seq::new(self.keys@.len(), |i: int| self.keys@[i]@)
    }

    /// The values, in the order of their keys.
    pub closed spec fn value_seq(&self) -> Seq<V> {
        self.values@
    }

    /// Each key has its value, and no key occurs twice.
    pub open spec fn wf(&self) -> bool {
        self.key_seq().len() == self.value_seq().len() && self.key_seq().no_duplicates()
    }

    /// The keys are exactly the domain, each entry maps its key to its value,
    /// and there are as many keys as entries.
    pub proof fn lemma_view(&self)
        requires
            self.wf(),
        ensures
            self@.dom() =~= self.key_seq().to_set(),
            self@.dom().finite(),
            self@.dom().len() == self.key_seq().len(),
            self.key_seq().len() <= usize::MAX,
            forall|i: int|
                0 <= i < self.key_seq().len() ==> self@.contains_key(#[trigger] self.key_seq()[i])
                    && self@[self.key_seq()[i]] == self.value_seq()[i],
    {
        let ks = self.key_seq();
        assert(ks.len() == self.keys.len());
        ks.unique_seq_to_set();
        vstd::seq_lib::seq_to_set_is_finite(ks);
        assert forall|i: int| 0 <= i < ks.len() implies self@.contains_key(#[trigger] ks[i])
            && self@[ks[i]] == self.value_seq()[i] by {
            lemma_index_of(ks, i);
        }
    }

    /// The empty map.
    pub fn new() -> (m: Self)
        ensures
            m.wf(),
            m@ == Map::<Seq<char>, V>::empty(),
            m.key_seq().len() == 0,
    {
        let m = StringMap { keys: Vec::new(), values: Vec::new() };
        assert(m@ =~= Map::<Seq<char>, V>::empty());
        m
    }

    /// The number of entries.
    pub fn len(&self) -> (n: usize)
        requires
            self.wf(),
        ensures
            n == self.key_seq().len(),
            n == self@.dom().len(),
    {
        proof {
            self.lemma_view();
        }
        self.keys.len()
    }

    /// Where the entry of `key` stands, if there is one.
    pub fn position(&self, key: &String) -> (r: Option<usize>)
        requires
            self.wf(),
        ensures
            r is Some <==> self@.contains_key(key@),
            r is Some ==> r->0 < self.key_seq().len() && self.key_seq()[r->0 as int] == key@,
    {
        let mut i: usize = 0;
        while i < self.keys.len()
            invariant
                self.wf(),
                i <= self.keys.len(),
                forall|j: int| 0 <= j < i ==> self.key_seq()[j] != key@,
            decreases self.keys.len() - i,
        {
            if self.keys[i] == *key {
                proof {
                    lemma_index_of(self.key_seq(), i as int);
                }
                return Some(i);
            }
            i = i + 1;
        }
        None
    }

    /// The value under `key`, if there is one.
    pub fn get(&self, key: &String) -> (r: Option<&V>)
        requires
            self.wf(),
        ensures
            r is Some <==> self@.contains_key(key@),
            r is Some ==> *r->0 == self@[key@],
    {
        match self.position(key) {
            Some(i) => {
                proof {
                    lemma_index_of(self.key_seq(), i as int);
                }
                Some(&self.values[i])
            },
            None => None,
        }
    }

    /// Puts `value` under `key`, in place of what stood there.
    pub fn insert(&mut self, key: String, value: V)
        requires
            old(self).wf(),
        ensures
            final(self).wf(),
            final(self)@ == old(self)@.insert(key@, value),
    {
        let ghost ks = self.key_seq();
        match self.position(&key) {
            Some(i) => {
                self.values.set(i, value);
                assert(self.key_seq() =~= ks);
                assert(self@ =~= old(self)@.insert(key@, value)) by {
                    assert forall|k: Seq<char>| ks.contains(k) implies #[trigger] self@[k] == old(
                        self,
                    )@.insert(key@, value)[k] by {
                        let j = ks.index_of(k);
                        if j == i as int {
                        } else {
                        }
                    }
                }
            },
            None => {
                self.keys.push(key);
                self.values.push(value);
                let ghost ks2 = self.key_seq();
                assert(ks2 =~= ks.push(key@));
                assert(ks2.no_duplicates());
                assert(self@ =~= old(self)@.insert(key@, value)) by {
                    assert forall|k: Seq<char>| ks2.contains(k) <==> (ks.contains(k) || k
                        == key@) by {
                        if ks2.contains(k) {
                            let j = ks2.index_of(k);
                            if j < ks.len() {
                                assert(ks[j] == k);
                            }
                        }
                        if ks.contains(k) {
                            let j = ks.index_of(k);
                            assert(ks2[j] == k);
                        }
                        if k == key@ {
                            assert(ks2[ks.len() as int] == k);
                        }
                    }
                    assert forall|k: Seq<char>| ks2.contains(k) implies #[trigger] self@[k] == old(
                        self,
                    )@.insert(key@, value)[k] by {
                        let j = ks2.index_of(k);
                        if k == key@ {
                            lemma_index_of(ks2, ks.len() as int);
                        } else {
                            assert(ks[j] == k);
                            lemma_index_of(ks, j);
                        }
                    }
                }
            },
        }
    }

    /// Takes out the entry of `key`, if there is one.
    pub fn remove(&mut self, key: &String)
        requires
            old(self).wf(),
        ensures
            final(self).wf(),
            final(self)@ == old(self)@.remove(key@),
    {
        let ghost ks = self.key_seq();
        match self.position(key) {
            Some(i) => {
                self.keys.remove(i);
                self.values.remove(i);
                let ghost ks2 = self.key_seq();
                assert(ks2 =~= ks.remove(i as int));
                assert(ks2.no_duplicates()) by {
                    assert forall|a: int, b: int|
                        0 <= a < ks2.len() && 0 <= b < ks2.len() && a != b implies ks2[a]
                        != ks2[b] by {
                        let a0 = if a < i { a } else { a + 1 };
                        let b0 = if b < i { b } else { b + 1 };
                        assert(ks2[a] == ks[a0] && ks2[b] == ks[b0]);
                    }
                }
                assert(self@ =~= old(self)@.remove(key@)) by {
                    assert forall|k: Seq<char>| ks2.contains(k) <==> (ks.contains(k) && k
                        != key@) by {
                        if ks2.contains(k) {
                            let j = ks2.index_of(k);
                            let j0 = if j < i { j } else { j + 1 };
                            assert(ks[j0] == k);
                        }
                        if ks.contains(k) && k != key@ {
                            let j = ks.index_of(k);
                            let j2 = if j < i { j } else { j - 1 };
                            assert(ks2[j2] == k);
                        }
                    }
                    assert forall|k: Seq<char>| ks2.contains(k) implies #[trigger] self@[k]
                        == old(self)@[k] by {
                        let j = ks2.index_of(k);
                        let j0 = if j < i { j } else { j + 1 };
                        assert(ks[j0] == k);
                        lemma_index_of(ks, j0);
                    }
                }
            },
            None => {
                assert(self@ =~= old(self)@.remove(key@));
            },
        }
    }

    /// The key of the entry at `i`.
    pub fn key(&self, i: usize) -> (k: &String)
        requires
            i < self.key_seq().len(),
        ensures
            k@ == self.key_seq()[i as int],
    {
        &self.keys[i]
    }

    /// The value of the entry at `i`.
    pub fn value(&self, i: usize) -> (v: &V)
        requires
            self.wf(),
            i < self.key_seq().len(),
        ensures
            *v == self.value_seq()[i as int],
            self@.contains_key(self.key_seq()[i as int]),
            *v == self@[self.key_seq()[i as int]],
    {
        proof {
            self.lemma_view();
        }
        &self.values[i]
    }
}

} // verus!
