//! Sets of class names.

use crate::string_map::StringMap;
use vstd::prelude::*;

verus! {

/// The texts of `names`, in order.
pub open spec fn name_views(names: Seq<String>) -> Seq<Seq<char>> {
    Seq::new(names.len(), |i: int| names[i]@)
}

/// A finite set of class names.
#[derive(Debug)]
pub struct ClassSet {
    names: StringMap<()>,
}

impl View for ClassSet {
    type V = Set<Seq<char>>;

    closed spec fn view(&self) -> Set<Seq<char>> {
        self.names@.dom()
    }
}

impl ClassSet {
    /// No name is kept twice.
    pub closed spec fn wf(&self) -> bool {
        self.names.wf()
    }

    /// The names in the order in which they are kept.
    pub closed spec fn name_seq(&self) -> Seq<Seq<char>> {
        self.names.key_seq()
    }

    /// The names kept are the members, each once; so the set is finite.
    pub proof fn lemma_names(&self)
        requires
            self.wf(),
        ensures
            self@.finite(),
            self@.len() == self.name_seq().len(),
            self.name_seq().no_duplicates(),
            forall|c: Seq<char>| self@.contains(c) <==> self.name_seq().contains(c),
    {
        self.names.lemma_view();
        assert forall|c: Seq<char>| self@.contains(c) <==> self.name_seq().contains(c) by {
            assert(self.names@.dom().contains(c) <==> self.name_seq().to_set().contains(c));
        }
    }

    /// The empty set.
    pub fn new() -> (s: ClassSet)
        ensures
            s.wf(),
            s@ == Set::<Seq<char>>::empty(),
    {
        let s = ClassSet { names: StringMap::new() };
        assert(s@ =~= Set::<Seq<char>>::empty());
        s
    }

    /// The number of names.
    pub fn len(&self) -> (n: usize)
        requires
            self.wf(),
        ensures
            n == self@.len(),
            n == self.name_seq().len(),
    {
        self.names.len()
    }

    /// Whether the set has no name.
    pub fn is_empty(&self) -> (b: bool)
        requires
            self.wf(),
        ensures
            b == (self@ == Set::<Seq<char>>::empty()),
    {
        proof {
            self.lemma_names();
            if self@.len() == 0 {
                assert(self@ =~= Set::<Seq<char>>::empty());
            }
        }
        self.names.len() == 0
    }

    /// Whether `name` is in the set.
    pub fn contains(&self, name: &String) -> (b: bool)
        requires
            self.wf(),
        ensures
            b == self@.contains(name@),
    {
        self.names.position(name).is_some()
    }

    /// Adds `name`; `true` if it was not in the set before.
    pub fn insert(&mut self, name: String) -> (added: bool)
        requires
            old(self).wf(),
        ensures
            final(self).wf(),
            final(self)@ == old(self)@.insert(name@),
            added == !old(self)@.contains(name@),
    {
        let present = self.names.position(&name).is_some();
        if !present {
            self.names.insert(name, ());
        }
        assert(self@ =~= old(self)@.insert(name@));
        !present
    }

    /// Takes `name` out; `true` if it was in the set.
    pub fn remove(&mut self, name: &String) -> (removed: bool)
        requires
            old(self).wf(),
        ensures
            final(self).wf(),
            final(self)@ == old(self)@.remove(name@),
            removed == old(self)@.contains(name@),
    {
        let present = self.names.position(name).is_some();
        self.names.remove(name);
        assert(self@ =~= old(self)@.remove(name@));
        present
    }

    /// The name kept at `i`.
    pub fn name(&self, i: usize) -> (n: &String)
        requires
            self.wf(),
            i < self.name_seq().len(),
        ensures
            n@ == self.name_seq()[i as int],
            self@.contains(n@),
    {
        proof {
            self.lemma_names();
        }
        self.names.key(i)
    }

    /// The names of `self` that are not in `other`.
    pub fn difference(&self, other: &ClassSet) -> (d: ClassSet)
        requires
            self.wf(),
            other.wf(),
        ensures
            d.wf(),
            d@ == self@.difference(other@),
    {
        let mut d = ClassSet::new();
        let n: usize = self.len();
        let mut i: usize = 0;
        proof {
            self.lemma_names();
        }
        while i < n
            invariant
                self.wf(),
                other.wf(),
                d.wf(),
                n == self.name_seq().len(),
                i <= n,
                forall|c: Seq<char>|
                    d@.contains(c) <==> (self.name_seq().subrange(0, i as int).contains(c)
                        && !other@.contains(c)),
            decreases n - i,
        {
            let name = self.name(i);
            let ghost before = self.name_seq().subrange(0, i as int);
            let ghost after = self.name_seq().subrange(0, i + 1);
            assert(after =~= before.push(name@));
            assert forall|c: Seq<char>| after.contains(c) <==> (before.contains(c) || c
                == name@) by {
                if before.contains(c) {
                    let j = before.index_of(c);
                    assert(after[j] == c);
                }
                if c == name@ {
                    assert(after[i as int] == c);
                }
                if after.contains(c) {
                    let j = after.index_of(c);
                    if j < i {
                        assert(before[j] == c);
                    }
                }
            }
            if !other.contains(name) {
                d.insert(name.clone());
            }
            i = i + 1;
        }
        assert(self.name_seq().subrange(0, n as int) =~= self.name_seq());
        assert(d@ =~= self@.difference(other@));
        d
    }

    /// The set of the names in `names`.
    pub fn from_names(names: &Vec<String>) -> (s: ClassSet)
        ensures
            s.wf(),
            s@ == name_views(names@).to_set(),
    {
        let mut s = ClassSet::new();
        let mut i: usize = 0;
        let ghost all = name_views(names@);
        while i < names.len()
            invariant
                s.wf(),
                i <= names.len(),
                all == name_views(names@),
                s@ == all.subrange(0, i as int).to_set(),
            decreases names.len() - i,
        {
            let ghost before = all.subrange(0, i as int);
            let ghost after = all.subrange(0, i + 1);
            assert(after =~= before.push(names@[i as int]@));
            assert(after.to_set() =~= before.to_set().insert(names@[i as int]@)) by {
                assert forall|c: Seq<char>| after.contains(c) <==> (before.contains(c) || c
                    == names@[i as int]@) by {
                    if before.contains(c) {
                        let j = before.index_of(c);
                        assert(after[j] == c);
                    }
                    if c == names@[i as int]@ {
                        assert(after[i as int] == c);
                    }
                    if after.contains(c) {
                        let j = after.index_of(c);
                        if j < i {
                            assert(before[j] == c);
                        }
                    }
                }
            }
            s.insert(names[i].clone());
            i = i + 1;
        }
        assert(all.subrange(0, names.len() as int) =~= all);
        s
    }

    /// A set with the same names.
    pub fn duplicate(&self) -> (s: ClassSet)
        requires
            self.wf(),
        ensures
            s.wf(),
            s@ == self@,
    {
        let names = self.to_names();
        ClassSet::from_names(&names)
    }

    /// The names of the set, each once, in the order in which they are kept.
    pub fn to_names(&self) -> (v: Vec<String>)
        requires
            self.wf(),
        ensures
            name_views(v@) == self.name_seq(),
            name_views(v@).no_duplicates(),
            name_views(v@).to_set() == self@,
    {
        let mut v: Vec<String> = Vec::new();
        let n: usize = self.len();
        let mut i: usize = 0;
        while i < n
            invariant
                self.wf(),
                n == self.name_seq().len(),
                i <= n,
                name_views(v@) == self.name_seq().subrange(0, i as int),
            decreases n - i,
        {
            let ghost before = name_views(v@);
            let name = self.name(i).clone();
            v.push(name);
            assert(name_views(v@) =~= before.push(name@));
            assert(name_views(v@) =~= self.name_seq().subrange(0, i + 1));
            i = i + 1;
        }
        proof {
            assert(self.name_seq().subrange(0, n as int) =~= self.name_seq());
            self.lemma_names();
            assert(name_views(v@).to_set() =~= self@);
        }
        v
    }
}

} // verus!
