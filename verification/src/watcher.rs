//! What one change of the watched tree does to the cache, the registry and
//! the stylesheet.

use crate::cache::{recorded_as, CachedFileView, ClassnameCache};
use crate::classes::ClassSet;
use crate::engine::StyleEngine;
use crate::generator::{generate_css, is_stylesheet, GenerateError};
use crate::registry::{lemma_reconciled_valid, Delta, GlobalRegistry, RegistryView};
use vstd::prelude::*;

verus! {

/// What a change did: the counts of the reconciliation, and the new
/// stylesheet where the set of classes in use changed. The caller writes the
/// stylesheet out.
#[derive(Debug)]
pub struct ChangeOutcome {
    pub delta: Delta,
    pub stylesheet: Option<String>,
}

/// Whether a reconciliation changed the set of classes in use.
pub open spec fn changes_active(delta: Delta) -> bool {
    delta.added_global > 0 || delta.removed_global > 0
}

/// A file of the first scan with the classes found in it.
#[derive(Debug)]
pub struct ScannedFile {
    pub path: String,
    pub classnames: ClassSet,
}

/// The paths and class sets of `files`, in order.
pub open spec fn scan_views(files: Seq<ScannedFile>) -> Seq<(Seq<char>, Set<Seq<char>>)> {
    Seq::new(files.len(), |i: int| (files[i].path@, files[i].classnames@))
}

/// The registry once `files` have been reconciled one after another.
pub open spec fn scanned(r: RegistryView, files: Seq<(Seq<char>, Set<Seq<char>>)>) -> RegistryView
    decreases files.len(),
{
    if files.len() == 0 {
        r
    } else {
        scanned(r, files.drop_last()).reconciled(files.last().0, files.last().1)
    }
}

/// Whether reconciling `files` one after another brings a class into use or
/// takes one out of use at any step.
pub open spec fn scan_changes_active(
    r: RegistryView,
    files: Seq<(Seq<char>, Set<Seq<char>>)>,
) -> bool
    decreases files.len(),
{
    if files.len() == 0 {
        false
    } else {
        let before = scanned(r, files.drop_last());
        let f = files.last();
        scan_changes_active(r, files.drop_last()) || before.added_global(f.0, f.1).len() > 0
            || before.removed_global(f.0, f.1).len() > 0
    }
}

/// A consistent registry stays consistent through any sequence of
/// reconciliations.
pub proof fn lemma_scanned_valid(r: RegistryView, files: Seq<(Seq<char>, Set<Seq<char>>)>)
    requires
        r.valid(),
        forall|i: int| 0 <= i < files.len() ==> (#[trigger] files[i]).1.finite(),
    ensures
        scanned(r, files).valid(),
    decreases files.len(),
{
    if files.len() > 0 {
        lemma_scanned_valid(r, files.drop_last());
        lemma_reconciled_valid(scanned(r, files.drop_last()), files.last().0, files.last().1);
    }
}

/// The end of the first scan: the scanned files are reconciled with the
/// registry one after another, and the stylesheet is made once at the end,
/// if and only if some step changed the set of classes in use.
pub fn apply_scan(
    registry: &mut GlobalRegistry,
    engine: &mut StyleEngine,
    files: &Vec<ScannedFile>,
    production: bool,
) -> (r: Result<Option<String>, GenerateError>)
    requires
        old(registry).wf(),
        old(engine).wf(),
        forall|i: int| 0 <= i < files@.len() ==> (#[trigger] files@[i]).classnames.wf(),
    ensures
        final(registry).wf(),
        final(engine).wf(),
        final(engine).vocabulary() == old(engine).vocabulary(),
        final(registry)@ == scanned(old(registry)@, scan_views(files@)),
        r is Ok ==> {
            &&& r->Ok_0 is Some <==> scan_changes_active(old(registry)@, scan_views(files@))
            &&& r->Ok_0 is Some ==> is_stylesheet(
                old(engine).vocabulary(),
                final(registry)@.active,
                production,
                Ok(r->Ok_0->0),
            )
        },
        r is Err ==> production && is_stylesheet(
            old(engine).vocabulary(),
            final(registry)@.active,
            production,
            Err(r->Err_0),
        ),
{
    let ghost start = registry@;
    let ghost all = scan_views(files@);
    let mut changed: bool = false;
    let mut i: usize = 0;
    assert(all.subrange(0, 0) =~= Seq::<(Seq<char>, Set<Seq<char>>)>::empty());
    while i < files.len()
        invariant
            registry.wf(),
            all == scan_views(files@),
            forall|k: int| 0 <= k < files@.len() ==> (#[trigger] files@[k]).classnames.wf(),
            i <= files.len(),
            registry@ == scanned(start, all.subrange(0, i as int)),
            changed == scan_changes_active(start, all.subrange(0, i as int)),
        decreases files.len() - i,
    {
        assert(all.subrange(0, i + 1).drop_last() =~= all.subrange(0, i as int));
        assert(all.subrange(0, i + 1).last() == all[i as int]);
        let file = &files[i];
        let delta = registry.reconcile(file.path.as_str(), &file.classnames);
        if delta.added_global > 0 || delta.removed_global > 0 {
            changed = true;
        }
        i = i + 1;
    }
    assert(all.subrange(0, files.len() as int) =~= all);
    if changed {
        match generate_css(registry.active_classes(), engine, production) {
            Ok(text) => Ok(Some(text)),
            Err(e) => Err(e),
        }
    } else {
        Ok(None)
    }
}

/// A file was created or edited and now has the classes `classnames` and the
/// modification time `modified` (`None` where it cannot be read). The
/// registry is reconciled; the stylesheet is made again if and only if a
/// class came into use or went out of use; and then the cache records the
/// file, unless its modification time is unknown. Where the stylesheet
/// cannot be made, the registry is reconciled all the same and the cache
/// stays as it was.
pub fn process_file_change(
    cache: &mut ClassnameCache,
    registry: &mut GlobalRegistry,
    engine: &mut StyleEngine,
    path: &str,
    classnames: &ClassSet,
    modified: Option<u64>,
    production: bool,
) -> (r: Result<ChangeOutcome, GenerateError>)
    requires
        old(cache).wf(),
        old(registry).wf(),
        old(engine).wf(),
        classnames.wf(),
    ensures
        final(cache).wf(),
        final(registry).wf(),
        final(engine).wf(),
        final(engine).vocabulary() == old(engine).vocabulary(),
        final(registry)@ == old(registry)@.reconciled(path@, classnames@),
        final(cache)@ == if r is Ok && modified is Some {
            recorded_as(old(cache)@, path@, modified->0, classnames@)
        } else {
            old(cache)@
        },
        r is Ok ==> {
            &&& r->Ok_0.delta.added_in_file == old(registry)@.added(path@, classnames@).len()
            &&& r->Ok_0.delta.removed_in_file == old(registry)@.removed(path@, classnames@).len()
            &&& r->Ok_0.delta.added_global == old(registry)@.added_global(
                path@,
                classnames@,
            ).len()
            &&& r->Ok_0.delta.removed_global == old(registry)@.removed_global(
                path@,
                classnames@,
            ).len()
            &&& r->Ok_0.stylesheet is Some <==> changes_active(r->Ok_0.delta)
            &&& r->Ok_0.stylesheet is Some ==> is_stylesheet(
                old(engine).vocabulary(),
                final(registry)@.active,
                production,
                Ok(r->Ok_0.stylesheet->0),
            )
        },
        r is Err ==> production && is_stylesheet(
            old(engine).vocabulary(),
            final(registry)@.active,
            production,
            Err(r->Err_0),
        ),
{
    let delta = registry.reconcile(path, classnames);
    let mut stylesheet: Option<String> = None;
    if delta.added_global > 0 || delta.removed_global > 0 {
        match generate_css(registry.active_classes(), engine, production) {
            Ok(text) => {
                stylesheet = Some(text);
            },
            Err(e) => {
                return Err(e);
            },
        }
    }
    match modified {
        Some(now) => {
            cache.set(path, now, classnames);
        },
        None => {},
    }
    Ok(ChangeOutcome { delta, stylesheet })
}

/// A file was deleted. The registry is reconciled with no classes for it;
/// the stylesheet is made again if and only if a class went out of use; and
/// then the cache forgets the file. Where the stylesheet cannot be made, the
/// registry is reconciled all the same and the cache stays as it was.
pub fn process_file_remove(
    cache: &mut ClassnameCache,
    registry: &mut GlobalRegistry,
    engine: &mut StyleEngine,
    path: &str,
    production: bool,
) -> (r: Result<ChangeOutcome, GenerateError>)
    requires
        old(cache).wf(),
        old(registry).wf(),
        old(engine).wf(),
    ensures
        final(cache).wf(),
        final(registry).wf(),
        final(engine).wf(),
        final(engine).vocabulary() == old(engine).vocabulary(),
        final(registry)@ == old(registry)@.reconciled(path@, Set::empty()),
        final(cache)@ == if r is Ok {
            old(cache)@.remove(path@)
        } else {
            old(cache)@
        },
        r is Ok ==> {
            &&& r->Ok_0.delta.added_in_file == 0
            &&& r->Ok_0.delta.removed_in_file == old(registry)@.classes_of(path@).len()
            &&& r->Ok_0.delta.added_global == 0
            &&& r->Ok_0.delta.removed_global == old(registry)@.removed_global(
                path@,
                Set::empty(),
            ).len()
            &&& r->Ok_0.stylesheet is Some <==> r->Ok_0.delta.removed_global > 0
            &&& r->Ok_0.stylesheet is Some ==> is_stylesheet(
                old(engine).vocabulary(),
                final(registry)@.active,
                production,
                Ok(r->Ok_0.stylesheet->0),
            )
        },
        r is Err ==> production && is_stylesheet(
            old(engine).vocabulary(),
            final(registry)@.active,
            production,
            Err(r->Err_0),
        ),
{
    let none = ClassSet::new();
    let ghost before = registry@;
    let delta = registry.reconcile(path, &none);
    proof {
        let empty = Set::<Seq<char>>::empty();
        assert(before.added(path@, empty) =~= empty);
        assert(before.added_global(path@, empty) =~= empty);
        assert(before.removed(path@, empty) =~= before.classes_of(path@));
    }
    let mut stylesheet: Option<String> = None;
    if delta.removed_global > 0 {
        match generate_css(registry.active_classes(), engine, production) {
            Ok(text) => {
                stylesheet = Some(text);
            },
            Err(e) => {
                return Err(e);
            },
        }
    }
    cache.remove(path);
    Ok(ChangeOutcome { delta, stylesheet })
}

/// One change of the watched tree, as the watcher delivers it.
#[derive(Debug)]
pub enum FileEvent {
    /// The file was created or its content changed; with the classes found
    /// in it and its modification time, `None` where that cannot be read.
    Changed { path: String, classnames: ClassSet, modified: Option<u64> },
    /// The file was deleted.
    Removed { path: String },
}

impl FileEvent {
    /// The file that the event is about.
    pub open spec fn path(&self) -> Seq<char> {
        match self {
            FileEvent::Changed { path, .. } => path@,
            FileEvent::Removed { path } => path@,
        }
    }

    /// The classes that the file has after the event: none once it is
    /// deleted.
    pub open spec fn classes(&self) -> Set<Seq<char>> {
        match self {
            FileEvent::Changed { classnames, .. } => classnames@,
            FileEvent::Removed { .. } => Set::empty(),
        }
    }

    /// The class set of the event is well formed.
    pub open spec fn wf(&self) -> bool {
        match self {
            FileEvent::Changed { classnames, .. } => classnames.wf(),
            FileEvent::Removed { .. } => true,
        }
    }

    /// What the cache holds once the event has been processed.
    pub open spec fn cached(&self, mirror: Map<Seq<char>, CachedFileView>) -> Map<
        Seq<char>,
        CachedFileView,
    > {
        match self {
            FileEvent::Changed { path, classnames, modified } => if modified is Some {
                recorded_as(mirror, path@, modified->0, classnames@)
            } else {
                mirror
            },
            FileEvent::Removed { path } => mirror.remove(path@),
        }
    }
}

/// One event of a batch. An event about the stylesheet itself, which lies in
/// the watched tree, is passed over and gives `None`; any other goes to
/// [`process_file_change`] or [`process_file_remove`].
pub fn process_event(
    cache: &mut ClassnameCache,
    registry: &mut GlobalRegistry,
    engine: &mut StyleEngine,
    event: &FileEvent,
    output_path: &str,
    production: bool,
) -> (r: Result<Option<ChangeOutcome>, GenerateError>)
    requires
        old(cache).wf(),
        old(registry).wf(),
        old(engine).wf(),
        event.wf(),
    ensures
        final(cache).wf(),
        final(registry).wf(),
        final(engine).wf(),
        final(engine).vocabulary() == old(engine).vocabulary(),
        event.path() == output_path@ ==> r is Ok && r->Ok_0 is None && final(registry)@ == old(
            registry,
        )@ && final(cache)@ == old(cache)@,
        event.path() != output_path@ ==> {
            &&& r is Ok ==> r->Ok_0 is Some
            &&& final(registry)@ == old(registry)@.reconciled(event.path(), event.classes())
            &&& final(cache)@ == if r is Ok {
                event.cached(old(cache)@)
            } else {
                old(cache)@
            }
        },
        r is Ok && r->Ok_0 is Some ==> {
            let out = r->Ok_0->0;
            let before = old(registry)@;
            &&& out.delta.added_in_file == before.added(event.path(), event.classes()).len()
            &&& out.delta.removed_in_file == before.removed(event.path(), event.classes()).len()
            &&& out.delta.added_global == before.added_global(
                event.path(),
                event.classes(),
            ).len()
            &&& out.delta.removed_global == before.removed_global(
                event.path(),
                event.classes(),
            ).len()
            &&& out.stylesheet is Some <==> changes_active(out.delta)
            &&& out.stylesheet is Some ==> is_stylesheet(
                old(engine).vocabulary(),
                final(registry)@.active,
                production,
                Ok(out.stylesheet->0),
            )
        },
        r is Err ==> production && is_stylesheet(
            old(engine).vocabulary(),
            final(registry)@.active,
            production,
            Err(r->Err_0),
        ),
{
    let output = String::from_str(output_path);
    let ghost before = registry@;
    match event {
        FileEvent::Changed { path, classnames, modified } => {
            if *path == output {
                return Ok(None);
            }
            match process_file_change(
                cache,
                registry,
                engine,
                path.as_str(),
                classnames,
                *modified,
                production,
            ) {
                Ok(out) => Ok(Some(out)),
                Err(e) => Err(e),
            }
        },
        FileEvent::Removed { path } => {
            if *path == output {
                return Ok(None);
            }
            proof {
                let empty = Set::<Seq<char>>::empty();
                assert(before.added(path@, empty) =~= empty);
                assert(before.added_global(path@, empty) =~= empty);
                assert(before.removed(path@, empty) =~= before.classes_of(path@));
            }
            match process_file_remove(cache, registry, engine, path.as_str(), production) {
                Ok(out) => Ok(Some(out)),
                Err(e) => Err(e),
            }
        },
    }
}

} // verus!
