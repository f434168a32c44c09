//! The classname cache: for each file the classes found in it when it was
//! last scanned, and the modification time it had then.

use crate::classes::{name_views, ClassSet};
use crate::string_map::StringMap;
use vstd::prelude::*;

verus! {

/// One file of the cache as it is kept in the store.
#[derive(Debug)]
pub struct FileRecord {
    pub path: String,
    /// Seconds since the epoch.
    pub modified: u64,
    pub classnames: Vec<String>,
}

/// What the cache remembers of one file, as plain values.
pub struct CachedFileView {
    pub modified: u64,
    pub classnames: Set<Seq<char>>,
}

/// What the cache remembers of one file.
#[derive(Debug)]
pub struct CachedFile {
    modified: u64,
    classnames: ClassSet,
}

/// Why the cache could not be brought up to date.
#[derive(Clone, Copy, Debug, PartialEq, Eq)]
pub enum CacheError {
    /// The file's modification time could not be read.
    Unreadable,
}

/// The mirror that `records` give when they are loaded in order: of two
/// records of one path the later stays.
pub open spec fn loaded(records: Seq<FileRecord>) -> Map<Seq<char>, CachedFileView>
    decreases records.len(),
{
    if records.len() == 0 {
        Map::empty()
    } else {
        let r = records.last();
        loaded(records.drop_last()).insert(
            r.path@,
            CachedFileView { modified: r.modified, classnames: name_views(r.classnames@).to_set() },
        )
    }
}

/// What a lookup of `path` gives when the file's modification time is now
/// `modified` (`None` where it cannot be read): the cached classes if there
/// is a record with that very time, else a miss.
pub open spec fn cached_classes(
    mirror: Map<Seq<char>, CachedFileView>,
    path: Seq<char>,
    modified: Option<u64>,
) -> Option<Set<Seq<char>>> {
    if mirror.contains_key(path) && modified == Some(mirror[path].modified) {
        Some(mirror[path].classnames)
    } else {
        None
    }
}

/// The mirror once `path` has been recorded with `classnames` at the time
/// `modified`.
pub open spec fn recorded_as(
    mirror: Map<Seq<char>, CachedFileView>,
    path: Seq<char>,
    modified: u64,
    classnames: Set<Seq<char>>,
) -> Map<Seq<char>, CachedFileView> {
    mirror.insert(path, CachedFileView { modified, classnames })
}

/// The classes of `current` that a lookup of `path` does not give: all of
/// them on a miss.
pub open spec fn fresh_classes(
    mirror: Map<Seq<char>, CachedFileView>,
    path: Seq<char>,
    modified: Option<u64>,
    current: Set<Seq<char>>,
) -> Set<Seq<char>> {
    match cached_classes(mirror, path, modified) {
        Some(cached) => current.difference(cached),
        None => current,
    }
}

/// A set that was recorded is what a lookup gives while the file keeps its
/// modification time, and any other time, or none, gives a miss.
pub proof fn lemma_round_trip(
    mirror: Map<Seq<char>, CachedFileView>,
    path: Seq<char>,
    modified: u64,
    classnames: Set<Seq<char>>,
    later: Option<u64>,
)
    ensures
        cached_classes(recorded_as(mirror, path, modified, classnames), path, Some(modified))
            == Some(classnames),
        later != Some(modified) ==> cached_classes(
            recorded_as(mirror, path, modified, classnames),
            path,
            later,
        ) is None,
{
}

/// The in-memory mirror of the cache store.
#[derive(Debug)]
pub struct ClassnameCache {
    records: StringMap<CachedFile>,
}

impl View for ClassnameCache {
    type V = Map<Seq<char>, CachedFileView>;

    closed spec fn view(&self) -> Map<Seq<char>, CachedFileView> {
        Map::new(
            |p: Seq<char>| self.records@.contains_key(p),
            |p: Seq<char>|
                CachedFileView {
                    modified: self.records@[p].modified,
                    classnames: self.records@[p].classnames@,
                },
        )
    }
}

impl ClassnameCache {
    /// No path is kept twice and every class set is well formed.
    pub closed spec fn wf(&self) -> bool {
        &&& self.records.wf()
        &&& forall|p: Seq<char>| #[trigger]
            self.records@.contains_key(p) ==> self.records@[p].classnames.wf()
    }

    /// The mirror of a store that holds `records`; an empty store gives an
    /// empty mirror.
    pub fn new(records: &Vec<FileRecord>) -> (c: ClassnameCache)
        ensures
            c.wf(),
            c@ == loaded(records@),
    {
        let mut c = ClassnameCache { records: StringMap::new() };
        assert(c@ =~= loaded(records@.subrange(0, 0)));
        let mut i: usize = 0;
        while i < records.len()
            invariant
                i <= records.len(),
                c.wf(),
                c@ == loaded(records@.subrange(0, i as int)),
            decreases records.len() - i,
        {
            assert(records@.subrange(0, i + 1).drop_last() =~= records@.subrange(0, i as int));
            let r = &records[i];
            let ghost before = c@;
            c.records.insert(
                r.path.clone(),
                CachedFile { modified: r.modified, classnames: ClassSet::from_names(&r.classnames) },
            );
            assert(c@ =~= before.insert(
                r.path@,
                CachedFileView {
                    modified: r.modified,
                    classnames: name_views(r.classnames@).to_set(),
                },
            ));
            i = i + 1;
        }
        assert(records@.subrange(0, records.len() as int) =~= records@);
        c
    }

    /// The classes cached for `path`, if the file's modification time is
    /// still the one they were recorded with. `modified` is the time the
    /// file has now, `None` where it cannot be read.
    pub fn get(&self, path: &str, modified: Option<u64>) -> (r: Option<ClassSet>)
        requires
            self.wf(),
        ensures
            r is Some <==> cached_classes(self@, path@, modified) is Some,
            r is Some ==> r->0.wf() && Some(r->0@) == cached_classes(self@, path@, modified),
    {
        let key = String::from_str(path);
        match self.records.get(&key) {
            Some(file) => {
                match modified {
                    Some(now) => {
                        if file.modified == now {
                            Some(file.classnames.duplicate())
                        } else {
                            None
                        }
                    },
                    None => None,
                }
            },
            None => None,
        }
    }

    /// Records `classnames` for `path`, stamped with the file's modification
    /// time `modified`, in place of any earlier record.
    pub fn set(&mut self, path: &str, modified: u64, classnames: &ClassSet)
        requires
            old(self).wf(),
            classnames.wf(),
        ensures
            final(self).wf(),
            final(self)@ == recorded_as(old(self)@, path@, modified, classnames@),
    {
        self.records.insert(
            String::from_str(path),
            CachedFile { modified, classnames: classnames.duplicate() },
        );
        assert(self@ =~= recorded_as(old(self)@, path@, modified, classnames@));
    }

    /// The same as [`ClassnameCache::set`].
    pub fn update_from_classnames(&mut self, path: &str, modified: u64, classnames: &ClassSet)
        requires
            old(self).wf(),
            classnames.wf(),
        ensures
            final(self).wf(),
            final(self)@ == recorded_as(old(self)@, path@, modified, classnames@),
    {
        self.set(path, modified, classnames)
    }

    /// Forgets `path`.
    pub fn remove(&mut self, path: &str)
        requires
            old(self).wf(),
        ensures
            final(self).wf(),
            final(self)@ == old(self)@.remove(path@),
    {
        let key = String::from_str(path);
        self.records.remove(&key);
        assert(self@ =~= old(self)@.remove(path@));
    }

    /// The classes of `current`, the file's classes now, that the cache does
    /// not hold for `path`. Where there are any, `current` is recorded for
    /// `path`; that needs the file's modification time, and without it the
    /// call fails and the cache stays as it was.
    pub fn compare_and_generate(&mut self, path: &str, modified: Option<u64>, current: &ClassSet) -> (r:
        Result<ClassSet, CacheError>)
        requires
            old(self).wf(),
            current.wf(),
        ensures
            final(self).wf(),
            r is Err <==> modified is None && fresh_classes(
                old(self)@,
                path@,
                modified,
                current@,
            ) != Set::<Seq<char>>::empty(),
            r is Ok ==> r->Ok_0.wf() && r->Ok_0@ == fresh_classes(
                old(self)@,
                path@,
                modified,
                current@,
            ),
            final(self)@ == if fresh_classes(old(self)@, path@, modified, current@) != Set::<
                Seq<char>,
            >::empty() && modified is Some {
                recorded_as(old(self)@, path@, modified->0, current@)
            } else {
                old(self)@
            },
    {
        let cached = match self.get(path, modified) {
            Some(s) => s,
            None => ClassSet::new(),
        };
        let fresh = current.difference(&cached);
        assert(fresh@ =~= fresh_classes(self@, path@, modified, current@));
        if !fresh.is_empty() {
            match modified {
                Some(now) => {
                    self.set(path, now, current);
                },
                None => {
                    return Err(CacheError::Unreadable);
                },
            }
        }
        Ok(fresh)
    }

    /// The records to write to the store: loading them gives this mirror
    /// again.
    pub fn records(&self) -> (out: Vec<FileRecord>)
        requires
            self.wf(),
        ensures
            loaded(out@) == self@,
            out@.len() == self@.dom().len(),
    {
        let mut out: Vec<FileRecord> = Vec::new();
        let n: usize = self.records.len();
        let mut i: usize = 0;
        let ghost keys = self.records.key_seq();
        proof {
            self.records.lemma_view();
            assert(self@.dom() =~= self.records@.dom());
        }
        while i < n
            invariant
                self.wf(),
                keys == self.records.key_seq(),
                n == keys.len(),
                i <= n,
                out@.len() == i,
                forall|p: Seq<char>|
                    loaded(out@).contains_key(p) <==> keys.subrange(0, i as int).contains(p),
                forall|p: Seq<char>| #[trigger]
                    loaded(out@).contains_key(p) ==> loaded(out@)[p] == self@[p],
            decreases n - i,
        {
            let path = self.records.key(i);
            let file = self.records.value(i);
            let ghost before = out@;
            let ghost a = keys.subrange(0, i as int);
            let ghost b = keys.subrange(0, i + 1);
            let names = file.classnames.to_names();
            out.push(FileRecord { path: path.clone(), modified: file.modified, classnames: names });
            proof {
                assert(out@.drop_last() =~= before);
                let entry = CachedFileView {
                    modified: file.modified,
                    classnames: name_views(names@).to_set(),
                };
                assert(loaded(out@) == loaded(before).insert(path@, entry));
                assert(self@.contains_key(path@) && self@[path@] == entry);
                assert forall|p: Seq<char>| #[trigger]
                    loaded(out@).contains_key(p) implies loaded(out@)[p] == self@[p] by {
                    if p != path@ {
                        assert(loaded(before).contains_key(p));
                    }
                }
                assert forall|p: Seq<char>|
                    loaded(out@).contains_key(p) <==> b.contains(p) by {
                    if a.contains(p) {
                        let j = a.index_of(p);
                        assert(b[j] == p);
                    }
                    if p == path@ {
                        assert(b[i as int] == p);
                    }
                    if b.contains(p) {
                        let j = b.index_of(p);
                        if j < i {
                            assert(a[j] == p);
                        }
                    }
                }
            }
            i = i + 1;
        }
        proof {
            assert(keys.subrange(0, n as int) =~= keys);
            assert(loaded(out@) =~= self@);
        }
        out
    }
}

} // verus!
