//! The registry of the classes in use: which file references which classes,
//! how many files reference each class, and the set of classes that at least
//! one file references.

use crate::classes::ClassSet;
use crate::string_map::StringMap;
use vstd::prelude::*;
use vstd::set_lib::lemma_len_subset;

verus! {

/// What a [`GlobalRegistry`] holds.
pub struct RegistryView {
    /// The classes of each tracked file that has any.
    pub files: Map<Seq<char>, Set<Seq<char>>>,
    /// For each class in use, the number of files that reference it.
    pub counts: Map<Seq<char>, nat>,
    /// The classes in use.
    pub active: Set<Seq<char>>,
}

impl RegistryView {
    /// The registry without files.
    pub open spec fn empty() -> RegistryView {
        RegistryView { files: Map::empty(), counts: Map::empty(), active: Set::empty() }
    }

    /// The classes recorded for `path`; none for a file that is not tracked.
    pub open spec fn classes_of(self, path: Seq<char>) -> Set<Seq<char>> {
        if self.files.contains_key(path) {
            self.files[path]
        } else {
            Set::empty()
        }
    }

    /// The reference count of `class`; zero where none is recorded.
    pub open spec fn count_of(self, class: Seq<char>) -> nat {
        if self.counts.contains_key(class) {
            self.counts[class]
        } else {
            0
        }
    }

    /// The files that reference `class`.
    pub open spec fn referencing(self, class: Seq<char>) -> Set<Seq<char>> {
        Set::new(|p: Seq<char>| self.files.contains_key(p) && self.files[p].contains(class))
    }

    /// The registry is consistent: finitely many files, each with a finite
    /// set of classes and at least one; no count of zero is recorded; the
    /// count of a class is the number of files that reference it; and the
    /// classes in use are those with a count above zero.
    pub open spec fn valid(self) -> bool {
        &&& self.files.dom().finite()
        &&& forall|p: Seq<char>| #[trigger]
            self.files.contains_key(p) ==> self.files[p].finite() && self.files[p]
                != Set::<Seq<char>>::empty()
        &&& forall|c: Seq<char>| #[trigger] self.counts.contains_key(c) ==> self.counts[c] > 0
        &&& forall|c: Seq<char>| #[trigger] self.count_of(c) == self.referencing(c).len()
        &&& forall|c: Seq<char>| #[trigger] self.active.contains(c) <==> self.count_of(c) > 0
    }

    /// The classes that `path` gains when its classes become `new`.
    pub open spec fn added(self, path: Seq<char>, new: Set<Seq<char>>) -> Set<Seq<char>> {
        new.difference(self.classes_of(path))
    }

    /// The classes that `path` loses when its classes become `new`.
    pub open spec fn removed(self, path: Seq<char>, new: Set<Seq<char>>) -> Set<Seq<char>> {
        self.classes_of(path).difference(new)
    }

    /// The classes that come into use when the classes of `path` become `new`:
    /// those it gains that no file referenced.
    pub open spec fn added_global(self, path: Seq<char>, new: Set<Seq<char>>) -> Set<Seq<char>> {
        self.added(path, new).filter(|c: Seq<char>| self.count_of(c) == 0)
    }

    /// The classes that go out of use when the classes of `path` become
    /// `new`: those it loses that no other file references.
    pub open spec fn removed_global(self, path: Seq<char>, new: Set<Seq<char>>) -> Set<
        Seq<char>,
    > {
        self.removed(path, new).filter(|c: Seq<char>| self.count_of(c) == 1)
    }

    /// The count of `class` once the classes of `path` have become `new`.
    pub open spec fn next_count(self, path: Seq<char>, new: Set<Seq<char>>, class: Seq<char>) -> nat {
        if self.added(path, new).contains(class) {
            self.count_of(class) + 1
        } else if self.removed(path, new).contains(class) {
            (self.count_of(class) - 1) as nat
        } else {
            self.count_of(class)
        }
    }

    /// The registry once the classes of `path` have become `new`. The count
    /// of each class gained goes up by one and that of each class lost goes
    /// down by one; a class enters the set in use as its count leaves zero
    /// and leaves it as its count reaches zero, where its entry is dropped;
    /// and `path` is recorded with `new`, or not at all where `new` is empty.
    pub open spec fn reconciled(self, path: Seq<char>, new: Set<Seq<char>>) -> RegistryView {
        RegistryView {
            files: if new == Set::<Seq<char>>::empty() {
                self.files.remove(path)
            } else {
                self.files.insert(path, new)
            },
            counts: Map::new(
                |c: Seq<char>| self.next_count(path, new, c) > 0,
                |c: Seq<char>| self.next_count(path, new, c),
            ),
            active: Set::new(
                |c: Seq<char>|
                    if self.added_global(path, new).contains(c) {
                        true
                    } else if self.removed_global(path, new).contains(c) {
                        false
                    } else {
                        self.active.contains(c)
                    },
            ),
        }
    }
}

/// The registry without files is consistent.
pub proof fn lemma_empty_valid()
    ensures
        RegistryView::empty().valid(),
{
    let r = RegistryView::empty();
    assert forall|c: Seq<char>| #[trigger] r.count_of(c) == r.referencing(c).len() by {
        assert(r.referencing(c) =~= Set::<Seq<char>>::empty());
    }
}

/// In a consistent registry the files that reference a class are finitely
/// many, and a file's own classes have a count of at least one.
pub proof fn lemma_referencing(r: RegistryView, class: Seq<char>)
    requires
        r.valid(),
    ensures
        r.referencing(class).finite(),
        r.referencing(class).subset_of(r.files.dom()),
        forall|p: Seq<char>| #[trigger] r.classes_of(p).contains(class) ==> r.count_of(class) >= 1,
{
    lemma_len_subset(r.referencing(class), r.files.dom());
    assert forall|p: Seq<char>| #[trigger] r.classes_of(p).contains(class) implies r.count_of(
        class,
    ) >= 1 by {
        assert(r.referencing(class).contains(p));
        assert(r.count_of(class) == r.referencing(class).len());
        if r.referencing(class).len() == 0 {
            assert(r.referencing(class) =~= Set::<Seq<char>>::empty());
        }
    }
}

/// Whatever the calls that led to it, a registry stays consistent when a
/// file's classes are reconciled: in particular the classes in use are
/// always exactly those with a count above zero.
pub proof fn lemma_reconciled_valid(r: RegistryView, path: Seq<char>, new: Set<Seq<char>>)
    requires
        r.valid(),
        new.finite(),
    ensures
        r.reconciled(path, new).valid(),
{
    let n = r.reconciled(path, new);
    let old = r.classes_of(path);
    assert forall|c: Seq<char>| #[trigger] n.count_of(c) == n.referencing(c).len() by {
        lemma_referencing(r, c);
        let before = r.referencing(c);
        assert(before.contains(path) <==> old.contains(c));
        if new.contains(c) {
            assert(n.referencing(c) =~= before.insert(path));
        } else {
            assert(n.referencing(c) =~= before.remove(path));
        }
        assert(r.count_of(c) == before.len());
        assert(n.count_of(c) == r.next_count(path, new, c));
        if old.contains(c) {
            assert(r.classes_of(path).contains(c));
        }
    }
    assert forall|c: Seq<char>| #[trigger] n.active.contains(c) <==> n.count_of(c) > 0 by {
        lemma_referencing(r, c);
        assert(n.count_of(c) == r.next_count(path, new, c));
        assert(r.active.contains(c) <==> r.count_of(c) > 0);
        if old.contains(c) {
            assert(r.classes_of(path).contains(c));
        }
    }
}

/// The set of classes in use changes exactly when a class comes into use or
/// goes out of use: when one of the two global counts of the reconciliation
/// is above zero.
pub proof fn lemma_active_changes(r: RegistryView, path: Seq<char>, new: Set<Seq<char>>)
    requires
        r.valid(),
        new.finite(),
    ensures
        r.added_global(path, new).finite(),
        r.removed_global(path, new).finite(),
        r.reconciled(path, new).active == r.active <==> r.added_global(path, new).len() == 0
            && r.removed_global(path, new).len() == 0,
{
    let up = r.added_global(path, new);
    let down = r.removed_global(path, new);
    let next = r.reconciled(path, new);
    assert(r.classes_of(path).finite());
    lemma_len_subset(up, new);
    lemma_len_subset(down, r.classes_of(path));
    if up.len() == 0 && down.len() == 0 {
        assert(up =~= Set::<Seq<char>>::empty());
        assert(down =~= Set::<Seq<char>>::empty());
        assert(next.active =~= r.active);
    }
    if up.len() > 0 {
        let c = up.choose();
        assert(up.contains(c));
        assert(next.active.contains(c));
        assert(r.active.contains(c) <==> r.count_of(c) > 0);
    }
    if down.len() > 0 {
        let c = down.choose();
        assert(down.contains(c));
        assert(!up.contains(c));
        assert(!next.active.contains(c));
        assert(r.active.contains(c) <==> r.count_of(c) > 0);
    }
}

/// Reconciling a file with the classes it was just reconciled with changes
/// nothing: the file gains and loses no class, no class comes into use or
/// goes out of use, and the registry is as it was.
pub proof fn lemma_reconcile_idempotent(r: RegistryView, path: Seq<char>, new: Set<Seq<char>>)
    ensures
        ({
            let once = r.reconciled(path, new);
            &&& once.added(path, new) == Set::<Seq<char>>::empty()
            &&& once.removed(path, new) == Set::<Seq<char>>::empty()
            &&& once.added_global(path, new) == Set::<Seq<char>>::empty()
            &&& once.removed_global(path, new) == Set::<Seq<char>>::empty()
            &&& once.reconciled(path, new) == once
        }),
{
    let once = r.reconciled(path, new);
    let twice = once.reconciled(path, new);
    assert(once.classes_of(path) =~= new);
    assert(once.added(path, new) =~= Set::<Seq<char>>::empty());
    assert(once.removed(path, new) =~= Set::<Seq<char>>::empty());
    assert(once.added_global(path, new) =~= Set::<Seq<char>>::empty());
    assert(once.removed_global(path, new) =~= Set::<Seq<char>>::empty());
    assert(twice.files =~= once.files);
    assert(twice.counts =~= once.counts);
    assert(twice.active =~= once.active);
}

/// In a consistent registry a class is in use exactly if some tracked file
/// references it.
pub proof fn lemma_active_iff_referenced(r: RegistryView, class: Seq<char>)
    requires
        r.valid(),
    ensures
        r.active.contains(class) <==> exists|p: Seq<char>|
            r.files.contains_key(p) && #[trigger] r.files[p].contains(class),
{
    lemma_referencing(r, class);
    assert(r.active.contains(class) <==> r.count_of(class) > 0);
    assert(r.count_of(class) == r.referencing(class).len());
    if r.referencing(class).len() > 0 {
        let p = r.referencing(class).choose();
        assert(r.referencing(class).contains(p));
        assert(r.files.contains_key(p) && r.files[p].contains(class));
    }
    if exists|p: Seq<char>| r.files.contains_key(p) && #[trigger] r.files[p].contains(class) {
        let p = choose|p: Seq<char>| r.files.contains_key(p) && #[trigger] r.files[p].contains(class);
        assert(r.referencing(class).contains(p));
        if r.referencing(class).len() == 0 {
            assert(r.referencing(class) =~= Set::<Seq<char>>::empty());
        }
    }
}

/// A class that two files reference stays in use when one of them is
/// deleted; it goes out of use when the other is deleted too, provided that
/// no third file references it.
pub proof fn lemma_shared_class(r: RegistryView, a: Seq<char>, b: Seq<char>, class: Seq<char>)
    requires
        r.valid(),
        a != b,
        r.classes_of(a).contains(class),
        r.classes_of(b).contains(class),
    ensures
        r.reconciled(a, Set::empty()).active.contains(class),
        (forall|p: Seq<char>| p != a && p != b ==> !(#[trigger] r.classes_of(p)).contains(class))
            ==> !r.reconciled(a, Set::empty()).reconciled(b, Set::empty()).active.contains(class),
{
    let none = Set::<Seq<char>>::empty();
    let r1 = r.reconciled(a, none);
    let r2 = r1.reconciled(b, none);
    lemma_reconciled_valid(r, a, none);
    lemma_reconciled_valid(r1, b, none);
    lemma_active_iff_referenced(r1, class);
    lemma_active_iff_referenced(r2, class);
    assert(r1.files.contains_key(b) && r1.files[b].contains(class));
    if forall|p: Seq<char>| p != a && p != b ==> !(#[trigger] r.classes_of(p)).contains(class) {
        if r2.active.contains(class) {
            let p = choose|p: Seq<char>|
                r2.files.contains_key(p) && #[trigger] r2.files[p].contains(class);
            assert(p != a && p != b);
            assert(r.classes_of(p).contains(class));
        }
    }
}

/// What one reconciliation changed: how many classes the file gained and
/// lost, and how many classes came into use and went out of use.
#[derive(Clone, Copy, Debug, PartialEq, Eq)]
pub struct Delta {
    pub added_in_file: usize,
    pub removed_in_file: usize,
    pub added_global: usize,
    pub removed_global: usize,
}

/// The count that `counts` records for `class`; zero where it records none.
pub open spec fn recorded(counts: Map<Seq<char>, usize>, class: Seq<char>) -> nat {
    if counts.contains_key(class) {
        counts[class] as nat
    } else {
        0
    }
}

/// Counts one more reference to `class`; `true` if it was the first.
fn count_up(counts: &mut StringMap<usize>, active: &mut ClassSet, class: &String) -> (fresh: bool)
    requires
        old(counts).wf(),
        old(active).wf(),
        recorded(old(counts)@, class@) < usize::MAX,
    ensures
        final(counts).wf(),
        final(active).wf(),
        fresh == !old(counts)@.contains_key(class@),
        final(counts)@ == old(counts)@.insert(
            class@,
            (recorded(old(counts)@, class@) + 1) as usize,
        ),
        final(active)@ == if fresh {
            old(active)@.insert(class@)
        } else {
            old(active)@
        },
{
    let current: Option<usize> = match counts.get(class) {
        Some(n) => Some(*n),
        None => None,
    };
    match current {
        Some(n) => {
            counts.insert(class.clone(), n + 1);
            false
        },
        None => {
            counts.insert(class.clone(), 1);
            active.insert(class.clone());
            true
        },
    }
}

/// Counts one reference to `class` less; `true` if it was the last, in which
/// case the class leaves `active` and its count is dropped.
fn count_down(counts: &mut StringMap<usize>, active: &mut ClassSet, class: &String) -> (last: bool)
    requires
        old(counts).wf(),
        old(active).wf(),
        recorded(old(counts)@, class@) >= 1,
    ensures
        final(counts).wf(),
        final(active).wf(),
        last == (recorded(old(counts)@, class@) == 1),
        final(counts)@ == if last {
            old(counts)@.remove(class@)
        } else {
            old(counts)@.insert(class@, (recorded(old(counts)@, class@) - 1) as usize)
        },
        final(active)@ == if last {
            old(active)@.remove(class@)
        } else {
            old(active)@
        },
{
    let current: usize = match counts.get(class) {
        Some(n) => *n,
        None => 1,
    };
    if current > 1 {
        counts.insert(class.clone(), current - 1);
        false
    } else {
        counts.remove(class);
        active.remove(class);
        true
    }
}

/// The files of a tree with their classes, the reference count of each class
/// in use, and the set of the classes in use.
#[derive(Debug)]
pub struct GlobalRegistry {
    files: StringMap<ClassSet>,
    counts: StringMap<usize>,
    active: ClassSet,
}

impl View for GlobalRegistry {
    type V = RegistryView;

    closed spec fn view(&self) -> RegistryView {
        RegistryView {
            files: Map::new(
                |p: Seq<char>| self.files@.contains_key(p),
                |p: Seq<char>| self.files@[p]@,
            ),
            counts: Map::new(
                |c: Seq<char>| self.counts@.contains_key(c),
                |c: Seq<char>| self.counts@[c] as nat,
            ),
            active: self.active@,
        }
    }
}

impl GlobalRegistry {
    /// The parts are well formed and the registry is consistent.
    pub closed spec fn wf(&self) -> bool {
        &&& self.files.wf()
        &&& self.counts.wf()
        &&& self.active.wf()
        &&& forall|p: Seq<char>| #[trigger] self.files@.contains_key(p) ==> self.files@[p].wf()
        &&& self@.valid()
    }

    /// A well-formed registry is consistent.
    pub proof fn lemma_valid(&self)
        requires
            self.wf(),
        ensures
            self@.valid(),
    {
    }

    /// The registry without files.
    pub fn new() -> (r: GlobalRegistry)
        ensures
            r.wf(),
            r@ == RegistryView::empty(),
    {
        let r = GlobalRegistry {
            files: StringMap::new(),
            counts: StringMap::new(),
            active: ClassSet::new(),
        };
        proof {
            lemma_empty_valid();
            assert(r@.files =~= RegistryView::empty().files);
            assert(r@.counts =~= RegistryView::empty().counts);
        }
        r
    }

    /// The classes in use.
    pub fn active_classes(&self) -> (s: &ClassSet)
        requires
            self.wf(),
        ensures
            s.wf(),
            s@ == self@.active,
    {
        &self.active
    }

    /// The reference count of `class`.
    pub fn count(&self, class: &str) -> (n: usize)
        requires
            self.wf(),
        ensures
            n == self@.count_of(class@),
    {
        let key = String::from_str(class);
        match self.counts.get(&key) {
            Some(n) => *n,
            None => 0,
        }
    }

    /// The classes recorded for `path`.
    pub fn classes_of(&self, path: &str) -> (s: ClassSet)
        requires
            self.wf(),
        ensures
            s.wf(),
            s@ == self@.classes_of(path@),
    {
        let key = String::from_str(path);
        match self.files.get(&key) {
            Some(s) => s.duplicate(),
            None => ClassSet::new(),
        }
    }

    /// Makes `new` the classes of `path` and brings the counts and the set in
    /// use up to date; an empty `new` stands for a deleted file. Returns what
    /// changed.
    pub fn reconcile(&mut self, path: &str, new: &ClassSet) -> (delta: Delta)
        requires
            old(self).wf(),
            new.wf(),
        ensures
            final(self).wf(),
            final(self)@ == old(self)@.reconciled(path@, new@),
            delta.added_in_file == old(self)@.added(path@, new@).len(),
            delta.removed_in_file == old(self)@.removed(path@, new@).len(),
            delta.added_global == old(self)@.added_global(path@, new@).len(),
            delta.removed_global == old(self)@.removed_global(path@, new@).len(),
    {
        let ghost r0 = self@;
        let ghost target = r0.reconciled(path@, new@);
        let before = self.classes_of(path);
        let added = new.difference(&before);
        let removed = before.difference(new);
        let key = String::from_str(path);
        proof {
            new.lemma_names();
            added.lemma_names();
            removed.lemma_names();
            self.files.lemma_view();
        }
        if new.is_empty() {
            self.files.remove(&key);
        } else {
            self.files.insert(key, new.duplicate());
        }
        proof {
            self.files.lemma_view();
            assert(self@.files =~= target.files);
            assert forall|c: Seq<char>| #[trigger]
                r0.added(path@, new@).contains(c) implies r0.count_of(c) < usize::MAX by {
                lemma_referencing(r0, c);
                let refs = r0.referencing(c);
                assert(!refs.contains(path@));
                assert(refs.insert(path@).subset_of(self.files@.dom())) by {
                    assert forall|p: Seq<char>| refs.insert(path@).contains(p) implies self.files@.dom().contains(
                        p,
                    ) by {
                        if p != path@ {
                            assert(r0.files.contains_key(p));
                        }
                    }
                }
                lemma_len_subset(refs.insert(path@), self.files@.dom());
            }
        }
        proof {
            assert forall|c: Seq<char>| #[trigger]
                self.counts@.contains_key(c) implies self.counts@[c] > 0 by {
                assert(r0.counts.contains_key(c));
            }
        }
        let mut added_global: usize = 0;
        let n_added: usize = added.len();
        let mut i: usize = 0;
        let ghost mut seen: Set<Seq<char>> = Set::empty();
        assert(seen.filter(|c: Seq<char>| r0.count_of(c) == 0) =~= Set::<Seq<char>>::empty());
        while i < n_added
            invariant
                self.files.wf(),
                self.counts.wf(),
                self.active.wf(),
                added.wf(),
                r0.valid(),
                n_added == added.name_seq().len(),
                added@ == r0.added(path@, new@),
                i <= n_added,
                added_global <= i,
                self@.files == target.files,
                forall|p: Seq<char>| #[trigger]
                    self.files@.contains_key(p) ==> self.files@[p].wf(),
                forall|c: Seq<char>| #[trigger]
                    r0.added(path@, new@).contains(c) ==> r0.count_of(c) < usize::MAX,
                seen.finite(),
                forall|c: Seq<char>|
                    seen.contains(c) <==> added.name_seq().subrange(0, i as int).contains(c),
                forall|c: Seq<char>| #[trigger]
                    self.counts@.contains_key(c) ==> self.counts@[c] > 0,
                forall|c: Seq<char>| #[trigger]
                    recorded(self.counts@, c) == r0.count_of(c) + (if seen.contains(c) {
                        1nat
                    } else {
                        0nat
                    }),
                forall|c: Seq<char>| #[trigger]
                    self.active@.contains(c) <==> (r0.active.contains(c) || (seen.contains(c)
                        && r0.count_of(c) == 0)),
                added_global == seen.filter(|c: Seq<char>| r0.count_of(c) == 0).len(),
            decreases n_added - i,
        {
            let class = added.name(i);
            let ghost names = added.name_seq();
            let ghost old_seen = seen;
            proof {
                added.lemma_names();
                assert(!old_seen.contains(class@)) by {
                    if names.subrange(0, i as int).contains(class@) {
                        let j = names.subrange(0, i as int).index_of(class@);
                        assert(names[j] == names[i as int]);
                    }
                }
                assert(recorded(self.counts@, class@) == r0.count_of(class@));
                assert(r0.added(path@, new@).contains(class@));
            }
            let ghost counts_before = self.counts@;
            let ghost active_before = self.active@;
            let fresh = count_up(&mut self.counts, &mut self.active, class);
            if fresh {
                added_global = added_global + 1;
            }
            proof {
                seen = old_seen.insert(class@);
                assert forall|c: Seq<char>|
                    seen.contains(c) <==> names.subrange(0, i + 1).contains(c) by {
                    let a = names.subrange(0, i as int);
                    let b = names.subrange(0, i + 1);
                    if a.contains(c) {
                        let j = a.index_of(c);
                        assert(b[j] == c);
                    }
                    if c == class@ {
                        assert(b[i as int] == c);
                    }
                    if b.contains(c) {
                        let j = b.index_of(c);
                        if j < i {
                            assert(a[j] == c);
                        }
                    }
                }
                let f = |c: Seq<char>| r0.count_of(c) == 0;
                old_seen.lemma_len_filter(f);
                if r0.count_of(class@) == 0 {
                    assert(seen.filter(f) =~= old_seen.filter(f).insert(class@));
                } else {
                    assert(seen.filter(f) =~= old_seen.filter(f));
                }
                assert forall|c: Seq<char>| #[trigger]
                    recorded(self.counts@, c) == r0.count_of(c) + (if seen.contains(c) {
                        1nat
                    } else {
                        0nat
                    }) by {
                    assert(recorded(counts_before, c) == r0.count_of(c) + (if old_seen.contains(
                        c,
                    ) {
                        1nat
                    } else {
                        0nat
                    }));
                }
                assert forall|c: Seq<char>| #[trigger]
                    self.active@.contains(c) <==> (r0.active.contains(c) || (seen.contains(c)
                        && r0.count_of(c) == 0)) by {
                    assert(active_before.contains(c) <==> (r0.active.contains(c) || (
                    old_seen.contains(c) && r0.count_of(c) == 0)));
                    assert(r0.active.contains(class@) <==> r0.count_of(class@) > 0);
                }
            }
            i = i + 1;
        }
        assert(added.name_seq().subrange(0, n_added as int) =~= added.name_seq());
        proof {
            added.lemma_names();
            assert(seen =~= added@);
        }
        let mut removed_global: usize = 0;
        let n_removed: usize = removed.len();
        let mut k: usize = 0;
        let ghost mut gone: Set<Seq<char>> = Set::empty();
        assert(gone.filter(|c: Seq<char>| r0.count_of(c) == 1) =~= Set::<Seq<char>>::empty());
        while k < n_removed
            invariant
                self.files.wf(),
                self.counts.wf(),
                self.active.wf(),
                removed.wf(),
                r0.valid(),
                n_removed == removed.name_seq().len(),
                removed@ == r0.removed(path@, new@),
                k <= n_removed,
                removed_global <= k,
                self@.files == target.files,
                forall|p: Seq<char>| #[trigger]
                    self.files@.contains_key(p) ==> self.files@[p].wf(),
                gone.finite(),
                forall|c: Seq<char>|
                    gone.contains(c) <==> removed.name_seq().subrange(0, k as int).contains(c),
                forall|c: Seq<char>| #[trigger]
                    self.counts@.contains_key(c) ==> self.counts@[c] > 0,
                forall|c: Seq<char>| #[trigger]
                    recorded(self.counts@, c) == r0.count_of(c) + (if r0.added(
                        path@,
                        new@,
                    ).contains(c) {
                        1nat
                    } else {
                        0nat
                    }) - (if gone.contains(c) {
                        1nat
                    } else {
                        0nat
                    }),
                forall|c: Seq<char>| #[trigger]
                    self.active@.contains(c) <==> (if r0.added_global(path@, new@).contains(c) {
                        true
                    } else if gone.contains(c) && r0.count_of(c) == 1 {
                        false
                    } else {
                        r0.active.contains(c)
                    }),
                removed_global == gone.filter(|c: Seq<char>| r0.count_of(c) == 1).len(),
            decreases n_removed - k,
        {
            let class = removed.name(k);
            let ghost names = removed.name_seq();
            let ghost old_gone = gone;
            proof {
                removed.lemma_names();
                assert(!old_gone.contains(class@)) by {
                    if names.subrange(0, k as int).contains(class@) {
                        let j = names.subrange(0, k as int).index_of(class@);
                        assert(names[j] == names[k as int]);
                    }
                }
                assert(r0.removed(path@, new@).contains(class@));
                lemma_referencing(r0, class@);
                assert(r0.classes_of(path@).contains(class@));
                assert(recorded(self.counts@, class@) == r0.count_of(class@));
            }
            let ghost counts_before = self.counts@;
            let ghost active_before = self.active@;
            let last = count_down(&mut self.counts, &mut self.active, class);
            if last {
                removed_global = removed_global + 1;
            }
            proof {
                gone = old_gone.insert(class@);
                assert forall|c: Seq<char>|
                    gone.contains(c) <==> names.subrange(0, k + 1).contains(c) by {
                    let a = names.subrange(0, k as int);
                    let b = names.subrange(0, k + 1);
                    if a.contains(c) {
                        let j = a.index_of(c);
                        assert(b[j] == c);
                    }
                    if c == class@ {
                        assert(b[k as int] == c);
                    }
                    if b.contains(c) {
                        let j = b.index_of(c);
                        if j < k {
                            assert(a[j] == c);
                        }
                    }
                }
                let f = |c: Seq<char>| r0.count_of(c) == 1;
                old_gone.lemma_len_filter(f);
                if r0.count_of(class@) == 1 {
                    assert(gone.filter(f) =~= old_gone.filter(f).insert(class@));
                } else {
                    assert(gone.filter(f) =~= old_gone.filter(f));
                }
                assert forall|c: Seq<char>| #[trigger]
                    recorded(self.counts@, c) == r0.count_of(c) + (if r0.added(
                        path@,
                        new@,
                    ).contains(c) {
                        1nat
                    } else {
                        0nat
                    }) - (if gone.contains(c) {
                        1nat
                    } else {
                        0nat
                    }) by {
                    assert(recorded(counts_before, c) == r0.count_of(c) + (if r0.added(
                        path@,
                        new@,
                    ).contains(c) {
                        1nat
                    } else {
                        0nat
                    }) - (if old_gone.contains(c) {
                        1nat
                    } else {
                        0nat
                    }));
                }
                assert forall|c: Seq<char>| #[trigger]
                    self.active@.contains(c) <==> (if r0.added_global(path@, new@).contains(c) {
                        true
                    } else if gone.contains(c) && r0.count_of(c) == 1 {
                        false
                    } else {
                        r0.active.contains(c)
                    }) by {
                    assert(active_before.contains(c) <==> (if r0.added_global(
                        path@,
                        new@,
                    ).contains(c) {
                        true
                    } else if old_gone.contains(c) && r0.count_of(c) == 1 {
                        false
                    } else {
                        r0.active.contains(c)
                    }));
                }
            }
            k = k + 1;
        }
        assert(removed.name_seq().subrange(0, n_removed as int) =~= removed.name_seq());
        proof {
            removed.lemma_names();
            assert(gone =~= removed@);
            assert(self@.counts =~= target.counts) by {
                assert forall|c: Seq<char>|
                    self@.counts.contains_key(c) <==> target.counts.contains_key(c) by {
                    assert(recorded(self.counts@, c) == r0.next_count(path@, new@, c));
                }
                assert forall|c: Seq<char>| self@.counts.contains_key(c) implies self@.counts[c]
                    == target.counts[c] by {
                    assert(recorded(self.counts@, c) == r0.next_count(path@, new@, c));
                }
            }
            assert(self@.active =~= target.active);
            lemma_reconciled_valid(r0, path@, new@);
        }
        Delta {
            added_in_file: n_added,
            removed_in_file: n_removed,
            added_global,
            removed_global,
        }
    }
}

} // verus!
