//! Watching folders: which directories are watched, which changes are passed on, and
//! whether the system's limits allow it.

use crate::path::{
    components, components_of, extension, extension_of, file_name, is_name, is_normal, lowered,
    name_of, to_lower,
};
use crate::scan::{is_under_any, under_any};
use crate::sorted::{key_eq, KeyOrder, SortedMap};
use crate::sync::{code_text, shown_code};
use crate::text::{
    chars_of, decimal, decimal_of, four, has_text, number, parse_number, string_of, texts, trim_white,
    trimmed, CharSet,
};
use vstd::arithmetic::power2::{lemma2_to64, lemma_pow2_pos, lemma_pow2_unfold, pow2};
use vstd::prelude::*;

verus! {

/// Default time over which bursts of changes are gathered, in milliseconds.
pub const DEFAULT_DEBOUNCE: u64 = 400;

// ---------------------------------------------------------------------- the filter

/// Decides which directories to pass over and which file changes to pass on.
#[derive(Debug, Clone)]
pub struct WatchFilter {
    pub ignored_dir_names: Vec<String>,
    pub ignored_prefixes: Vec<String>,
    /// The extensions that are accepted, in small letters; `None` accepts any.
    pub extensions: Option<Vec<String>>,
    /// Names of files that are accepted whatever their extension.
    pub filenames: Vec<String>,
}

impl Default for WatchFilter {
    fn default() -> (r: Self)
        ensures
            r.ignored_dir_names@.len() == 0,
            r.ignored_prefixes@.len() == 0,
            r.extensions is None,
            r.filenames@.len() == 0,
    {
        WatchFilter {
            ignored_dir_names: Vec::new(),
            ignored_prefixes: Vec::new(),
            extensions: None,
            filenames: Vec::new(),
        }
    }
}

/// The names of directories that are passed over by default.
pub open spec fn default_dirs() -> Seq<Seq<char>> {
    seq![".git"@, "node_modules"@, "target"@, ".looper"@]
}

impl WatchFilter {
    /// A filter that accepts only some extensions, in any case.
    pub fn with_extensions(extensions: &Vec<String>) -> (r: Self)
        ensures
            r.ignored_dir_names@.len() == 0,
            r.ignored_prefixes@.len() == 0,
            r.filenames@.len() == 0,
            r.extensions matches Some(e) && texts(e@) == texts(extensions@).map_values(
                |s: Seq<char>| lowered(s),
            ),
    {
        let ghost want = texts(extensions@).map_values(|s: Seq<char>| lowered(s));
        let mut out: Vec<String> = Vec::new();
        let mut i: usize = 0;
        assert(texts(out@) =~= want.take(0));
        while i < extensions.len()
            invariant
                i <= extensions@.len(),
                want == texts(extensions@).map_values(|s: Seq<char>| lowered(s)),
                texts(out@) == want.take(i as int),
            decreases extensions.len() - i,
        {
            let ghost before = texts(out@);
            out.push(string_of(&to_lower(&chars_of(extensions[i].as_str()))));
            proof {
                assert(texts(out@) =~= before.push(lowered(extensions@[i as int]@)));
                assert(want.take(i + 1) =~= want.take(i as int).push(want[i as int]));
            }
            i = i + 1;
        }
        assert(want.take(want.len() as int) =~= want);
        WatchFilter {
            ignored_dir_names: Vec::new(),
            ignored_prefixes: Vec::new(),
            extensions: Some(out),
            filenames: Vec::new(),
        }
    }

    /// A filter for markdown files that also passes the default directories over.
    pub fn markdown() -> (r: Self)
        ensures
            texts(r.ignored_dir_names@) == default_dirs(),
            r.ignored_prefixes@.len() == 0,
            r.filenames@.len() == 0,
            r.extensions matches Some(e) && texts(e@) == seq!["md"@],
    {
        let mut exts: Vec<String> = Vec::new();
        exts.push("md".to_owned());
        let f = Self::with_extensions(&exts);
        proof {
            reveal_strlit("md");
            assert("md"@.len() == 2);
            assert(lowered("md"@) =~= "md"@);
            assert(texts(exts@) =~= seq!["md"@]);
            assert(texts(exts@).map_values(|s: Seq<char>| lowered(s)) =~= seq!["md"@]);
            assert(texts(f.ignored_dir_names@) + default_dirs() =~= default_dirs());
        }
        f.ignoring_default_dirs()
    }

    /// Passes over the default directories (`.git`, `node_modules`, `target`, `.looper`) too.
    pub fn ignoring_default_dirs(self) -> (r: Self)
        ensures
            texts(r.ignored_dir_names@) == texts(self.ignored_dir_names@) + default_dirs(),
            r.ignored_prefixes == self.ignored_prefixes,
            r.extensions == self.extensions,
            r.filenames == self.filenames,
    {
        let r = self.ignoring_dir_name(".git").ignoring_dir_name("node_modules").ignoring_dir_name(
            "target",
        ).ignoring_dir_name(".looper");
        assert(texts(r.ignored_dir_names@) =~= texts(self.ignored_dir_names@) + default_dirs());
        r
    }

    /// Passes over any path with a component of this name.
    pub fn ignoring_dir_name(self, name: &str) -> (r: Self)
        ensures
            texts(r.ignored_dir_names@) == texts(self.ignored_dir_names@).push(name@),
            r.ignored_prefixes == self.ignored_prefixes,
            r.extensions == self.extensions,
            r.filenames == self.filenames,
    {
        let mut f = self;
        f.ignored_dir_names.push(name.to_owned());
        assert(texts(f.ignored_dir_names@) =~= texts(self.ignored_dir_names@).push(name@));
        f
    }

    /// Passes over any path under `prefix`.
    pub fn ignoring_path(self, prefix: &str) -> (r: Self)
        ensures
            r.ignored_dir_names == self.ignored_dir_names,
            texts(r.ignored_prefixes@) == texts(self.ignored_prefixes@).push(prefix@),
            r.extensions == self.extensions,
            r.filenames == self.filenames,
    {
        let mut f = self;
        f.ignored_prefixes.push(prefix.to_owned());
        assert(texts(f.ignored_prefixes@) =~= texts(self.ignored_prefixes@).push(prefix@));
        f
    }

    /// Accepts files of this name too, whatever their extension.
    pub fn also_filename(self, name: &str) -> (r: Self)
        ensures
            r.ignored_dir_names == self.ignored_dir_names,
            r.ignored_prefixes == self.ignored_prefixes,
            r.extensions == self.extensions,
            texts(r.filenames@) == texts(self.filenames@).push(name@),
    {
        let mut f = self;
        f.filenames.push(name.to_owned());
        assert(texts(f.filenames@) =~= texts(self.filenames@).push(name@));
        f
    }

    /// Whether directories of this name are passed over.
    pub fn is_ignored_dir_name(&self, name: &str) -> (r: bool)
        ensures
            r == texts(self.ignored_dir_names@).contains(name@),
    {
        has_text(&self.ignored_dir_names, name)
    }

    /// Whether `path` lies under a prefix that is passed over.
    pub fn is_under_ignored_prefix(&self, path: &str) -> (r: bool)
        ensures
            r == under_any(path@, texts(self.ignored_prefixes@)),
    {
        is_under_any(path, &self.ignored_prefixes)
    }

    /// Whether a path has a component that is passed over.
    pub open spec fn has_ignored_component(&self, path: Seq<char>) -> bool {
        exists|i: int|
            0 <= i < components(path).len() && is_name(#[trigger] components(path)[i]) && texts(
                self.ignored_dir_names@,
            ).contains(components(path)[i])
    }

    /// Whether a change of the file `path` is passed on.
    pub open spec fn passes(&self, path: Seq<char>) -> bool {
        &&& !under_any(path, texts(self.ignored_prefixes@))
        &&& !self.has_ignored_component(path)
        &&& {
            ||| name_of(path) matches Some(n) && texts(self.filenames@).contains(n)
            ||| self.extensions is None
            ||| extension_of(path) matches Some(e) && texts(self.extensions.unwrap()@).contains(
                lowered(e),
            )
        }
    }

    /// Whether a change of the file `path` is passed on.
    pub fn accepts(&self, path: &str) -> (r: bool)
        ensures
            r == self.passes(path@),
    {
        if self.is_under_ignored_prefix(path) {
            return false;
        }
        let cs = components_of(path);
        let mut i: usize = 0;
        while i < cs.len()
            invariant
                i <= cs@.len(),
                texts(cs@) == components(path@),
                forall|k: int|
                    0 <= k < i ==> !(is_name(#[trigger] components(path@)[k]) && texts(
                        self.ignored_dir_names@,
                    ).contains(components(path@)[k])),
            decreases cs.len() - i,
        {
            assert(components(path@)[i as int] == cs@[i as int]@);
            if is_normal(cs[i].as_str()) && self.is_ignored_dir_name(cs[i].as_str()) {
                return false;
            }
            i = i + 1;
        }
        assert(!self.has_ignored_component(path@));
        if let Some(name) = file_name(path) {
            if has_text(&self.filenames, name.as_str()) {
                return true;
            }
        }
        match &self.extensions {
            None => true,
            Some(exts) => match extension(path) {
                Some(e) => {
                    let low = string_of(&to_lower(&chars_of(e.as_str())));
                    has_text(exts, low.as_str())
                },
                None => false,
            },
        }
    }

    /// Whether an entry is kept when directories are walked.
    pub fn keeps_entry(&self, path: &str, name: &str, is_dir: bool) -> (r: bool)
        ensures
            r == (!(is_dir && texts(self.ignored_dir_names@).contains(name@)) && !under_any(
                path@,
                texts(self.ignored_prefixes@),
            )),
    {
        if is_dir && self.is_ignored_dir_name(name) {
            return false;
        }
        !self.is_under_ignored_prefix(path)
    }
}

/// What is watched, and how.
#[derive(Debug, Clone)]
pub struct WatchConfig {
    /// Root directories to watch.
    pub roots: Vec<String>,
    /// Which directories to pass over and which file changes to pass on.
    pub filter: WatchFilter,
    /// Time over which changes are gathered, in milliseconds.
    pub debounce: u64,
    /// Whether ignore files are honored when choosing directories to watch.
    pub respect_gitignore: bool,
}

impl WatchConfig {
    /// Watches the markdown files under `roots`, honoring ignore files.
    pub fn markdown(roots: Vec<String>) -> (r: Self)
        ensures
            r.roots == roots,
            texts(r.filter.ignored_dir_names@) == default_dirs(),
            r.filter.ignored_prefixes@.len() == 0,
            r.filter.filenames@.len() == 0,
            r.filter.extensions matches Some(e) && texts(e@) == seq!["md"@],
            r.debounce == 400,
            r.respect_gitignore,
    {
        WatchConfig {
            roots,
            filter: WatchFilter::markdown(),
            debounce: DEFAULT_DEBOUNCE,
            respect_gitignore: true,
        }
    }
}

// ---------------------------------------------------------------------- the changes

/// What kind of change occurred.
#[derive(Debug, Clone, Copy, PartialEq, Eq, Structural)]
pub enum ChangeKind {
    /// A path was created.
    Created,
    /// A path's contents or metadata were modified.
    Modified,
    /// A path was removed.
    Removed,
    /// A path was renamed.
    Renamed,
    /// Any other change.
    Other,
}

/// A change to a watched path.
#[derive(Debug, Clone, PartialEq, Eq)]
pub struct WatchEvent {
    /// The affected path.
    pub path: String,
    /// What kind of change occurred.
    pub kind: ChangeKind,
}

/// The path and kind of a change.
pub open spec fn event_view(e: WatchEvent) -> (Seq<char>, ChangeKind) {
    (e.path@, e.kind)
}

/// The paths and kinds of changes.
pub open spec fn events_view(v: Seq<WatchEvent>) -> Seq<(Seq<char>, ChangeKind)> {
    v.map_values(|e: WatchEvent| event_view(e))
}

/// A message from the watcher: a change, or an error that does not end it.
#[derive(Debug, Clone, PartialEq, Eq)]
pub enum WatchMessage {
    /// A change that passed the filter.
    Event(WatchEvent),
    /// An error of the system's notifications.
    Error(String),
}

/// A change as the system reports it.
#[derive(Debug)]
pub struct RawEvent {
    pub path: String,
    pub kind: ChangeKind,
    /// Whether the path is a directory now.
    pub is_dir: bool,
}

/// A set of paths.
pub type PathSet = SortedMap<()>;

/// Whether a set of paths is well formed.
pub open spec fn paths_wf(s: PathSet) -> bool {
    s.wf() && s.order == KeyOrder::Path
}

/// What becomes of a change.
#[derive(Debug, Clone, Copy, PartialEq, Eq, Structural)]
pub enum Route {
    /// The directories that are watched have to be looked over.
    Resync,
    /// It is passed on.
    Forward,
    /// It is dropped.
    Drop,
}

/// What becomes of a change: a new directory, and a watched one that went away, have the
/// directories looked over; any other is passed on where the filter accepts it.
pub open spec fn route_of(e: RawEvent, watched: PathSet, filter: WatchFilter) -> Route {
    if (e.kind == ChangeKind::Created && e.is_dir) || (e.kind == ChangeKind::Removed
        && watched.has_key(e.path@)) {
        Route::Resync
    } else if filter.passes(e.path@) {
        Route::Forward
    } else {
        Route::Drop
    }
}

/// The changes that are passed on.
pub open spec fn forwarded(
    events: Seq<RawEvent>,
    watched: PathSet,
    filter: WatchFilter,
) -> Seq<(Seq<char>, ChangeKind)>
    decreases events.len(),
{
    if events.len() == 0 {
        Seq::empty()
    } else {
        let before = forwarded(events.drop_last(), watched, filter);
        let e = events.last();
        if route_of(e, watched, filter) == Route::Forward {
            before.push((e.path@, e.kind))
        } else {
            before
        }
    }
}

/// The paths in one set that are not in another, in order.
pub open spec fn missing_from(entries: Seq<(String, ())>, other: PathSet) -> Seq<Seq<char>>
    decreases entries.len(),
{
    if entries.len() == 0 {
        Seq::empty()
    } else {
        let before = missing_from(entries.drop_last(), other);
        if other.has_key(entries.last().0@) {
            before
        } else {
            before.push(entries.last().0@)
        }
    }
}

fn paths_missing(from: &PathSet, other: &PathSet) -> (r: Vec<String>)
    requires
        paths_wf(*other),
    ensures
        texts(r@) == missing_from(from.entries@, *other),
{
    let ghost all = from.entries@;
    let mut out: Vec<String> = Vec::new();
    let mut i: usize = 0;
    proof {
        assert(all.take(0) =~= Seq::empty());
        assert(texts(out@) =~= missing_from(all.take(0), *other));
    }
    while i < from.entries.len()
        invariant
            paths_wf(*other),
            all == from.entries@,
            i <= all.len(),
            texts(out@) == missing_from(all.take(i as int), *other),
        decreases all.len() - i,
    {
        let ghost before = texts(out@);
        proof {
            assert(all.take(i + 1).drop_last() =~= all.take(i as int));
            assert(all.take(i + 1).last() == all[i as int]);
        }
        if !other.contains_key(from.entries[i].0.as_str()) {
            out.push(from.entries[i].0.clone());
            assert(texts(out@) =~= before.push(all[i as int].0@));
        }
        i = i + 1;
    }
    assert(all.take(all.len() as int) =~= all);
    out
}

/// An entry of a walk: its path, and whether it is a directory.
pub open spec fn walked_dir(entries: Seq<(String, bool)>, path: Seq<char>) -> bool {
    exists|i: int|
        0 <= i < entries.len() && (#[trigger] entries[i]).1 && key_eq(
            KeyOrder::Path,
            entries[i].0@,
            path,
        )
}

/// The directories among the entries of a walk.
pub fn collect_dirs(entries: &Vec<(String, bool)>) -> (r: PathSet)
    ensures
        paths_wf(r),
        forall|p: Seq<char>| #[trigger] r.lookup(p) is Some == walked_dir(entries@, p),
{
    let mut dirs: PathSet = SortedMap::new(KeyOrder::Path);
    let mut i: usize = 0;
    while i < entries.len()
        invariant
            paths_wf(dirs),
            i <= entries@.len(),
            forall|p: Seq<char>|
                #[trigger] dirs.lookup(p) is Some == walked_dir(entries@.take(i as int), p),
        decreases entries.len() - i,
    {
        let ghost was = dirs;
        let ghost before = entries@.take(i as int);
        let ghost now = entries@.take(i + 1);
        if entries[i].1 {
            dirs.insert(entries[i].0.clone(), ());
        }
        proof {
            assert forall|p: Seq<char>| #[trigger] dirs.lookup(p) is Some == walked_dir(now, p) by {
                assert(was.lookup(p) is Some == walked_dir(before, p));
                if walked_dir(before, p) {
                    let k = choose|k: int|
                        0 <= k < before.len() && (#[trigger] before[k]).1 && key_eq(
                            KeyOrder::Path,
                            before[k].0@,
                            p,
                        );
                    assert(now[k] == before[k]);
                }
                assert(now[i as int] == entries@[i as int]);
                if walked_dir(now, p) {
                    let k = choose|k: int|
                        0 <= k < now.len() && (#[trigger] now[k]).1 && key_eq(
                            KeyOrder::Path,
                            now[k].0@,
                            p,
                        );
                    if k < i {
                        assert(before[k] == now[k]);
                    }
                }
            }
        }
        i = i + 1;
    }
    assert(entries@.take(entries@.len() as int) =~= entries@);
    dirs
}

/// What is watched, and the health of that.
pub struct Manager {
    pub watched: PathSet,
    pub filter: WatchFilter,
    pub limits: Option<InotifyLimits>,
    pub platform: Platform,
    pub health: WatchHealth,
}

impl Manager {
    pub open spec fn wf(&self) -> bool {
        paths_wf(self.watched)
    }

    /// Starts with the directories that are watched at first.
    pub fn new(
        watched: PathSet,
        filter: WatchFilter,
        limits: Option<InotifyLimits>,
        platform: Platform,
    ) -> (r: Self)
        requires
            paths_wf(watched),
        ensures
            r.wf(),
            r.watched == watched,
            r.filter == filter,
            r.limits == limits,
            r.platform == platform,
            health_view(r.health) == health_of(
                watched.entries@.len() as usize,
                limits,
                platform,
            ),
    {
        let health = compute_health(watched.len(), limits, platform);
        Manager { watched, filter, limits, platform, health }
    }

    /// Sorts a batch of changes: those to pass on, and whether the directories have to be
    /// looked over.
    pub fn triage(&self, events: &Vec<RawEvent>) -> (r: (Vec<WatchEvent>, bool))
        requires
            self.wf(),
        ensures
            events_view(r.0@) == forwarded(events@, self.watched, self.filter),
            r.1 == exists|i: int|
                0 <= i < events@.len() && route_of(
                    #[trigger] events@[i],
                    self.watched,
                    self.filter,
                ) == Route::Resync,
    {
        let mut out: Vec<WatchEvent> = Vec::new();
        let mut resync = false;
        let mut i: usize = 0;
        proof {
            assert(events@.take(0) =~= Seq::empty());
            assert(events_view(out@) =~= Seq::empty());
        }
        while i < events.len()
            invariant
                self.wf(),
                i <= events@.len(),
                events_view(out@) == forwarded(
                    events@.take(i as int),
                    self.watched,
                    self.filter,
                ),
                resync == exists|k: int|
                    0 <= k < i && route_of(#[trigger] events@[k], self.watched, self.filter)
                        == Route::Resync,
            decreases events.len() - i,
        {
            let ghost before = events_view(out@);
            proof {
                assert(events@.take(i + 1).drop_last() =~= events@.take(i as int));
                assert(events@.take(i + 1).last() == events@[i as int]);
            }
            let e = &events[i];
            let route = self.route(e);
            match route {
                Route::Resync => {
                    resync = true;
                },
                Route::Forward => {
                    out.push(WatchEvent { path: e.path.clone(), kind: e.kind });
                    assert(events_view(out@) =~= before.push((e.path@, e.kind)));
                },
                Route::Drop => {},
            }
            i = i + 1;
        }
        assert(events@.take(events@.len() as int) =~= events@);
        (out, resync)
    }

    fn route(&self, e: &RawEvent) -> (r: Route)
        requires
            self.wf(),
        ensures
            r == route_of(*e, self.watched, self.filter),
    {
        if e.kind == ChangeKind::Created && e.is_dir {
            Route::Resync
        } else if e.kind == ChangeKind::Removed && self.watched.contains_key(e.path.as_str()) {
            Route::Resync
        } else if self.filter.accepts(e.path.as_str()) {
            Route::Forward
        } else {
            Route::Drop
        }
    }

    /// The directories to watch from now on, and those to watch no more, where `current`
    /// are the ones that there are.
    pub fn resync(&self, current: &PathSet) -> (r: (Vec<String>, Vec<String>))
        requires
            self.wf(),
            paths_wf(*current),
        ensures
            texts(r.0@) == missing_from(current.entries@, self.watched),
            texts(r.1@) == missing_from(self.watched.entries@, *current),
    {
        (paths_missing(current, &self.watched), paths_missing(&self.watched, current))
    }

    /// Records that `dir` is watched.
    pub fn watching(&mut self, dir: String)
        requires
            old(self).wf(),
        ensures
            final(self).wf(),
            forall|p: Seq<char>|
                #[trigger] final(self).watched.lookup(p) == if key_eq(KeyOrder::Path, dir@, p) {
                    Some(())
                } else {
                    old(self).watched.lookup(p)
                },
            final(self).filter == old(self).filter,
            final(self).limits == old(self).limits,
            final(self).platform == old(self).platform,
            final(self).health == old(self).health,
    {
        self.watched.insert(dir, ());
    }

    /// Records that directories are watched no more, and brings the health up to date.
    pub fn finish_resync(&mut self, removed: &Vec<String>)
        requires
            old(self).wf(),
        ensures
            final(self).wf(),
            forall|p: Seq<char>|
                #[trigger] final(self).watched.lookup(p) == if exists|k: int|
                    0 <= k < removed@.len() && key_eq(
                        KeyOrder::Path,
                        (#[trigger] removed@[k])@,
                        p,
                    ) {
                    None
                } else {
                    old(self).watched.lookup(p)
                },
            final(self).filter == old(self).filter,
            final(self).limits == old(self).limits,
            final(self).platform == old(self).platform,
            health_view(final(self).health) == health_of(
                final(self).watched.entries@.len() as usize,
                old(self).limits,
                old(self).platform,
            ),
    {
        let ghost start = self.watched;
        let mut i: usize = 0;
        while i < removed.len()
            invariant
                self.wf(),
                i <= removed@.len(),
                self.filter == old(self).filter,
                self.limits == old(self).limits,
                self.platform == old(self).platform,
                forall|p: Seq<char>|
                    #[trigger] self.watched.lookup(p) == if exists|k: int|
                        0 <= k < i && key_eq(KeyOrder::Path, (#[trigger] removed@[k])@, p) {
                        None
                    } else {
                        start.lookup(p)
                    },
            decreases removed.len() - i,
        {
            let ghost was = self.watched;
            let gone = self.watched.remove(removed[i].as_str());
            proof {
                assert forall|p: Seq<char>|
                    #[trigger] self.watched.lookup(p) == if exists|k: int|
                        0 <= k < i + 1 && key_eq(KeyOrder::Path, (#[trigger] removed@[k])@, p) {
                        None
                    } else {
                        start.lookup(p)
                    } by {
                    assert(was.lookup(p) == if exists|k: int|
                        0 <= k < i && key_eq(KeyOrder::Path, (#[trigger] removed@[k])@, p) {
                        None
                    } else {
                        start.lookup(p)
                    });
                    if key_eq(KeyOrder::Path, removed@[i as int]@, p) {
                        assert(exists|k: int|
                            0 <= k < i + 1 && key_eq(KeyOrder::Path, (#[trigger] removed@[k])@, p));
                    }
                }
            }
            i = i + 1;
        }
        self.health = compute_health(self.watched.len(), self.limits, self.platform);
    }

    /// The changes to report for the files that stand in a directory which is newly
    /// watched: each that passes the filter is one that was created.
    pub fn existing_files(&self, entries: &Vec<(String, bool)>) -> (r: Vec<WatchEvent>)
        ensures
            events_view(r@) == existing(entries@, self.filter),
    {
        let mut out: Vec<WatchEvent> = Vec::new();
        let mut i: usize = 0;
        proof {
            assert(entries@.take(0) =~= Seq::empty());
            assert(events_view(out@) =~= Seq::empty());
        }
        while i < entries.len()
            invariant
                i <= entries@.len(),
                events_view(out@) == existing(entries@.take(i as int), self.filter),
            decreases entries.len() - i,
        {
            let ghost before = events_view(out@);
            proof {
                assert(entries@.take(i + 1).drop_last() =~= entries@.take(i as int));
                assert(entries@.take(i + 1).last() == entries@[i as int]);
            }
            if entries[i].1 && self.filter.accepts(entries[i].0.as_str()) {
                out.push(WatchEvent { path: entries[i].0.clone(), kind: ChangeKind::Created });
                assert(events_view(out@) =~= before.push(
                    (entries@[i as int].0@, ChangeKind::Created),
                ));
            }
            i = i + 1;
        }
        assert(entries@.take(entries@.len() as int) =~= entries@);
        out
    }
}

/// The changes to report for entries, each with whether it is a file.
pub open spec fn existing(entries: Seq<(String, bool)>, filter: WatchFilter) -> Seq<
    (Seq<char>, ChangeKind),
>
    decreases entries.len(),
{
    if entries.len() == 0 {
        Seq::empty()
    } else {
        let before = existing(entries.drop_last(), filter);
        let e = entries.last();
        if e.1 && filter.passes(e.0@) {
            before.push((e.0@, ChangeKind::Created))
        } else {
            before
        }
    }
}

// ----------------------------------------------------------------------- the limits

/// The limits on watches of a user.
#[derive(Debug, Clone, Copy, PartialEq, Eq, Structural)]
pub struct InotifyLimits {
    /// Max watches (directories) per user (`fs.inotify.max_user_watches`).
    pub max_user_watches: usize,
    /// Max inotify instances per user (`fs.inotify.max_user_instances`).
    pub max_user_instances: usize,
}

/// The health of watching, coarsely.
#[derive(Debug, Clone, Copy, PartialEq, Eq, Structural)]
pub enum WatchStatus {
    /// Comfortable headroom, or a platform without a limit on watches.
    Healthy,
    /// Approaching the limit (at least four fifths of it).
    Approaching,
    /// At the limit or beyond: some watches may fail.
    Exceeded,
    /// An error of the system's notifications occurred.
    Degraded,
}

/// What can be done about a status that is not healthy.
#[derive(Debug, Clone, PartialEq, Eq)]
pub struct Remediation {
    /// One-line summary of what to do.
    pub summary: String,
    /// Shell commands that fix it.
    pub commands: Vec<String>,
    /// Whether the commands need root.
    pub requires_root: bool,
}

/// Why a remediation could not be applied.
#[derive(Debug, PartialEq, Eq)]
pub enum ApplyError {
    /// The command could not be started.
    Spawn { command: String, message: String },
    /// The command ran but exited without success.
    Failed { command: String, code: Option<i32> },
}

impl ApplyError {
    /// What the error says.
    pub fn message(&self) -> (r: String)
        ensures
            r@ == match self {
                ApplyError::Spawn { command, message } => "failed to run `"@ + command@ + "`: "@
                    + message@,
                ApplyError::Failed { command, code } => "`"@ + command@
                    + "` exited with status "@ + code_text(*code),
            },
    {
        match self {
            ApplyError::Spawn { command, message } => four(
                "failed to run `",
                command.as_str(),
                "`: ",
                message.as_str(),
            ),
            ApplyError::Failed { command, code } => four(
                "`",
                command.as_str(),
                "` exited with status ",
                shown_code(*code).as_str(),
            ),
        }
    }
}

/// What came of a command.
#[derive(Debug, PartialEq, Eq)]
pub enum CommandStatus {
    /// It exited with success.
    Succeeded,
    /// It exited without success.
    Exited(Option<i32>),
    /// It could not be started.
    NotStarted(String),
}

impl Remediation {
    /// Takes the statuses of the commands that were run, in order, and says what came of
    /// the remediation: the first command without success ends it.
    pub fn apply(&self, statuses: &Vec<CommandStatus>) -> (r: Result<(), ApplyError>)
        requires
            statuses@.len() <= self.commands@.len(),
        ensures
            match r {
                Ok(()) => forall|i: int|
                    0 <= i < statuses@.len() ==> #[trigger] statuses@[i] is Succeeded,
                Err(e) => exists|i: int|
                    0 <= i < statuses@.len() && apply_error(
                        self.commands@[i]@,
                        #[trigger] statuses@[i],
                        e,
                    ) && forall|k: int| 0 <= k < i ==> #[trigger] statuses@[k] is Succeeded,
            },
    {
        let mut i: usize = 0;
        while i < statuses.len()
            invariant
                statuses@.len() <= self.commands@.len(),
                i <= statuses@.len(),
                forall|k: int| 0 <= k < i ==> #[trigger] statuses@[k] is Succeeded,
            decreases statuses.len() - i,
        {
            match &statuses[i] {
                CommandStatus::Succeeded => {},
                CommandStatus::Exited(code) => {
                    let e = ApplyError::Failed { command: self.commands[i].clone(), code: *code };
                    assert(apply_error(self.commands@[i as int]@, statuses@[i as int], e));
                    return Err(e);
                },
                CommandStatus::NotStarted(m) => {
                    let e = ApplyError::Spawn {
                        command: self.commands[i].clone(),
                        message: m.clone(),
                    };
                    assert(apply_error(self.commands@[i as int]@, statuses@[i as int], e));
                    return Err(e);
                },
            }
            i = i + 1;
        }
        Ok(())
    }
}

/// Whether an error is that of a command with a status.
pub open spec fn apply_error(command: Seq<char>, status: CommandStatus, e: ApplyError) -> bool {
    match status {
        CommandStatus::Succeeded => false,
        CommandStatus::Exited(c) => e matches ApplyError::Failed { command: x, code } && x@
            == command && code == c,
        CommandStatus::NotStarted(m) => e matches ApplyError::Spawn { command: x, message } && x@
            == command && message@ == m@,
    }
}

/// The health of watching.
#[derive(Debug, Clone, PartialEq, Eq)]
pub struct WatchHealth {
    /// Coarse status.
    pub status: WatchStatus,
    /// How many directories are watched.
    pub watched_dirs: usize,
    /// The limits, where the platform has them.
    pub limits: Option<InotifyLimits>,
    /// What to do when not healthy.
    pub remediation: Option<Remediation>,
    /// A note on the platform.
    pub note: String,
}

/// A remediation, as a value.
pub struct Remedy {
    pub summary: Seq<char>,
    pub commands: Seq<Seq<char>>,
    pub requires_root: bool,
}

/// The health of watching, as a value.
pub struct Health {
    pub status: WatchStatus,
    pub watched_dirs: usize,
    pub limits: Option<InotifyLimits>,
    pub remediation: Option<Remedy>,
    pub note: Seq<char>,
}

pub open spec fn remedy_view(r: Remediation) -> Remedy {
    Remedy { summary: r.summary@, commands: texts(r.commands@), requires_root: r.requires_root }
}

pub open spec fn health_view(h: WatchHealth) -> Health {
    Health {
        status: h.status,
        watched_dirs: h.watched_dirs,
        limits: h.limits,
        remediation: match h.remediation {
            Some(r) => Some(remedy_view(r)),
            None => None,
        },
        note: h.note@,
    }
}

/// Reads a limit: a number, perhaps with white space round it.
pub fn parse_limit(contents: &str) -> (r: Option<usize>)
    ensures
        match number(trim_white(contents@)) {
            Some(n) => if n <= usize::MAX {
                r == Some(n as usize)
            } else {
                r is None
            },
            None => r is None,
        },
{
    let cs = chars_of(contents);
    match parse_number(trimmed(&cs, CharSet::White), usize::MAX as u64) {
        Some(n) => Some(n as usize),
        None => None,
    }
}

/// How much room a limit should have for `needed` watches: twice as many, and never less
/// than 524288.
pub open spec fn room_for(needed: int) -> int {
    if 2 * needed < 524_288 {
        524_288
    } else {
        2 * needed
    }
}

/// `p`, doubled until it has some room.
pub open spec fn doubled_to(p: nat, room: int) -> nat
    decreases 2 * room - p,
{
    if p == 0 || p >= room {
        p
    } else {
        doubled_to(p * 2, room)
    }
}

/// A limit on watches with headroom for `needed`: room for them, rounded up to a power of
/// two, as far as there is one.
pub open spec fn suggested(needed: usize) -> usize {
    let n = doubled_to(1, room_for(needed as int));
    if n <= usize::MAX {
        n as usize
    } else {
        usize::MAX
    }
}

proof fn lemma_doubled(p: nat, room: int, k: nat)
    requires
        p == pow2(k),
        k == 0 || pow2((k - 1) as nat) < room,
    ensures
        doubled_to(p, room) >= p,
        doubled_to(p, room) >= room,
        exists|n: nat|
            doubled_to(p, room) == #[trigger] pow2(n) && (n == 0 || pow2((n - 1) as nat) < room),
    decreases 2 * room - p,
{
    lemma_pow2_pos(k);
    if p < room {
        lemma_pow2_unfold(k + 1);
        lemma_doubled(p * 2, room, k + 1);
    }
}

/// A limit on watches with headroom for `needed`: at least twice that and at least 524288,
/// rounded up to a power of two.
pub fn suggested_watch_limit(needed: usize) -> (r: usize)
    ensures
        r == suggested(needed),
{
    proof {
        lemma2_to64();
    }
    if needed > usize::MAX / 2 {
        proof {
            lemma_doubled(1, room_for(needed as int), 0);
        }
        return usize::MAX;
    }
    let doubled: usize = needed * 2;
    let room: usize = if doubled < 524_288 {
        524_288
    } else {
        doubled
    };
    let mut p: usize = 1;
    let ghost mut k: nat = 0;
    while p < room
        invariant
            p > 0,
            p == pow2(k),
            k == 0 || pow2((k - 1) as nat) < room,
            room == room_for(needed as int),
            doubled_to(1, room as int) == doubled_to(p as nat, room as int),
        decreases 2 * room - p,
    {
        proof {
            lemma_pow2_unfold(k + 1);
        }
        if p > usize::MAX / 2 {
            proof {
                lemma_doubled((p * 2) as nat, room as int, k + 1);
            }
            return usize::MAX;
        }
        p = p * 2;
        proof {
            k = k + 1;
        }
    }
    p
}

/// How to raise the limit for `target` watches.
pub open spec fn remedy_to(target: usize) -> Remedy {
    let n = decimal(target as nat);
    Remedy {
        summary: "Raise the inotify watch limit to at least "@ + n + "."@,
        commands: seq![
            "sudo sysctl -w fs.inotify.max_user_watches="@ + n,
            "echo 'fs.inotify.max_user_watches="@ + n
                + "' | sudo tee /etc/sysctl.d/99-looper-inotify.conf"@,
        ],
        requires_root: true,
    }
}

fn remediation_to(target: usize) -> (r: Remediation)
    ensures
        remedy_view(r) == remedy_to(target),
{
    let n = decimal_of(target as u64);
    let mut summary = "Raise the inotify watch limit to at least ".to_owned();
    summary.append(n.as_str());
    summary.append(".");
    let mut now = "sudo sysctl -w fs.inotify.max_user_watches=".to_owned();
    now.append(n.as_str());
    let mut lasting = "echo 'fs.inotify.max_user_watches=".to_owned();
    lasting.append(n.as_str());
    lasting.append("' | sudo tee /etc/sysctl.d/99-looper-inotify.conf");
    let mut commands: Vec<String> = Vec::new();
    commands.push(now);
    commands.push(lasting);
    assert(texts(commands@) =~= remedy_to(target).commands);
    Remediation { summary, commands, requires_root: true }
}

/// The status of a number of watches under a limit.
pub open spec fn status_under(watched: usize, limit: usize) -> WatchStatus {
    if watched >= limit {
        WatchStatus::Exceeded
    } else if watched * 5 >= limit * 4 {
        WatchStatus::Approaching
    } else {
        WatchStatus::Healthy
    }
}

/// The systems whose watches have their own ways.
#[derive(Debug, Clone, Copy, PartialEq, Eq, Structural)]
pub enum Platform {
    MacOs,
    Windows,
    Other,
}

/// The note where there are no limits to tell of.
pub open spec fn platform_note(platform: Platform) -> Seq<char> {
    match platform {
        Platform::MacOs => "macOS FSEvents watches recursively without a per-directory descriptor limit."@,
        Platform::Windows => "Windows ReadDirectoryChangesW watches recursively; the main risk is notification-buffer overflow under heavy bursts."@,
        Platform::Other => "This platform has no known per-watch limit."@,
    }
}

fn note_of(platform: Platform) -> (r: &'static str)
    ensures
        r@ == platform_note(platform),
{
    match platform {
        Platform::MacOs => "macOS FSEvents watches recursively without a per-directory descriptor limit.",
        Platform::Windows => "Windows ReadDirectoryChangesW watches recursively; the main risk is notification-buffer overflow under heavy bursts.",
        Platform::Other => "This platform has no known per-watch limit.",
    }
}

/// The health of watching a number of directories under some limits on a platform.
pub open spec fn health_of(
    watched: usize,
    limits: Option<InotifyLimits>,
    platform: Platform,
) -> Health {
    match limits {
        None => Health {
            status: WatchStatus::Healthy,
            watched_dirs: watched,
            limits: None,
            remediation: None,
            note: platform_note(platform),
        },
        Some(l) => Health {
            status: status_under(watched, l.max_user_watches),
            watched_dirs: watched,
            limits: Some(l),
            remediation: if status_under(watched, l.max_user_watches) == WatchStatus::Healthy {
                None
            } else {
                Some(
                    remedy_to(
                        suggested(
                            if watched > l.max_user_watches {
                                watched
                            } else {
                                l.max_user_watches
                            },
                        ),
                    ),
                )
            },
            note: linux_note(),
        },
    }
}

/// The note on Linux.
pub open spec fn linux_note() -> Seq<char> {
    "Linux inotify uses one watch descriptor per directory. Ignored directories (gitignored or in the don't-watch list, e.g. node_modules) are pruned and not counted."@
}

/// The health of watching a number of directories under some limits on a platform.
pub fn compute_health(
    watched_dirs: usize,
    limits: Option<InotifyLimits>,
    platform: Platform,
) -> (r: WatchHealth)
    ensures
        health_view(r) == health_of(watched_dirs, limits, platform),
{
    match limits {
        None => WatchHealth {
            status: WatchStatus::Healthy,
            watched_dirs,
            limits: None,
            remediation: None,
            note: note_of(platform).to_owned(),
        },
        Some(l) => {
            let limit = l.max_user_watches;
            let status = if watched_dirs >= limit {
                WatchStatus::Exceeded
            } else if watched_dirs as u128 * 5 >= limit as u128 * 4 {
                WatchStatus::Approaching
            } else {
                WatchStatus::Healthy
            };
            let remediation = match status {
                WatchStatus::Healthy => None,
                _ => {
                    let needed: usize = if watched_dirs > limit {
                        watched_dirs
                    } else {
                        limit
                    };
                    Some(remediation_to(suggested_watch_limit(needed)))
                },
            };
            WatchHealth {
                status,
                watched_dirs,
                limits: Some(l),
                remediation,
                note: "Linux inotify uses one watch descriptor per directory. Ignored directories (gitignored or in the don't-watch list, e.g. node_modules) are pruned and not counted.".to_owned(),
            }
        },
    }
}

// -------------------------------------------------------------------------- laws

/// A suggested limit is a power of two with twice the room that is needed and no more than
/// the next power gives, or it is the greatest limit there is.
pub proof fn suggestion_has_headroom(needed: usize)
    ensures
        suggested(needed) == usize::MAX || (suggested(needed) >= 2 * needed && suggested(needed)
            >= 524_288),
        suggested(needed) == usize::MAX || exists|n: nat|
            suggested(needed) == #[trigger] pow2(n) && (n == 0 || pow2((n - 1) as nat) < room_for(
                needed as int,
            )),
{
    lemma2_to64();
    lemma_doubled(1, room_for(needed as int), 0);
}

/// How bad a status is.
pub open spec fn severity(s: WatchStatus) -> int {
    match s {
        WatchStatus::Healthy => 0,
        WatchStatus::Approaching => 1,
        WatchStatus::Exceeded => 2,
        WatchStatus::Degraded => 3,
    }
}

/// Watching more directories never makes the status better.
pub proof fn more_watches_are_no_healthier(
    a: usize,
    b: usize,
    limits: Option<InotifyLimits>,
    platform: Platform,
)
    requires
        a <= b,
    ensures
        severity(health_of(a, limits, platform).status) <= severity(
            health_of(b, limits, platform).status,
        ),
{
}

/// There is a remediation exactly where the status is not healthy.
pub proof fn remediation_is_for_the_unhealthy(
    watched: usize,
    limits: Option<InotifyLimits>,
    platform: Platform,
)
    ensures
        health_of(watched, limits, platform).remediation is Some == (health_of(
            watched,
            limits,
            platform,
        ).status != WatchStatus::Healthy),
{
}

/// Nothing under a directory of an ignored name is passed on, whatever else the filter
/// accepts.
pub proof fn ignored_directories_are_silent(filter: WatchFilter, path: Seq<char>, i: int)
    requires
        0 <= i < components(path).len(),
        is_name(components(path)[i]),
        texts(filter.ignored_dir_names@).contains(components(path)[i]),
    ensures
        !filter.passes(path),
{
}

/// When the directories are looked over, exactly those that are there and not watched are to
/// be watched, and exactly those that are watched and not there are to be given up.
pub proof fn resync_reaches_the_current_directories(
    watched: PathSet,
    current: PathSet,
    p: Seq<char>,
)
    requires
        paths_wf(watched),
        paths_wf(current),
    ensures
        (exists|k: int|
            0 <= k < missing_from(current.entries@, watched).len() && key_eq(
                KeyOrder::Path,
                #[trigger] missing_from(current.entries@, watched)[k],
                p,
            )) <==> current.has_key(p) && !watched.has_key(p),
        (exists|k: int|
            0 <= k < missing_from(watched.entries@, current).len() && key_eq(
                KeyOrder::Path,
                #[trigger] missing_from(watched.entries@, current)[k],
                p,
            )) <==> watched.has_key(p) && !current.has_key(p),
{
    lemma_missing(current, watched, current.entries@.len() as int, p);
    lemma_missing(watched, current, watched.entries@.len() as int, p);
    assert(current.entries@.take(current.entries@.len() as int) =~= current.entries@);
    assert(watched.entries@.take(watched.entries@.len() as int) =~= watched.entries@);
    if current.has_key(p) {
        let i = choose|i: int| current.holds_at(p, i);
        assert(current.holds_at(p, i));
    }
    if watched.has_key(p) {
        let i = choose|i: int| watched.holds_at(p, i);
        assert(watched.holds_at(p, i));
    }
}

proof fn lemma_missing(from: PathSet, other: PathSet, n: int, p: Seq<char>)
    requires
        paths_wf(from),
        paths_wf(other),
        0 <= n <= from.entries@.len(),
    ensures
        (exists|k: int|
            0 <= k < missing_from(from.entries@.take(n), other).len() && key_eq(
                KeyOrder::Path,
                #[trigger] missing_from(from.entries@.take(n), other)[k],
                p,
            )) <==> !other.has_key(p) && exists|i: int| i < n && #[trigger] from.holds_at(p, i),
    decreases n,
{
    let now = missing_from(from.entries@.take(n), other);
    if n == 0 {
        assert(from.entries@.take(0) =~= Seq::empty());
        assert(now.len() == 0);
    } else {
        lemma_missing(from, other, n - 1, p);
        assert(from.entries@.take(n).drop_last() =~= from.entries@.take(n - 1));
        let last = from.entries@[n - 1].0@;
        assert(from.entries@.take(n).last().0@ == last);
        let before = missing_from(from.entries@.take(n - 1), other);
        other.lemma_same_key(last, last);
        if key_eq(KeyOrder::Path, last, p) {
            other.lemma_same_key(last, p);
            assert(from.holds_at(p, n - 1));
        }
        if exists|k: int| 0 <= k < before.len() && key_eq(KeyOrder::Path, #[trigger] before[k], p) {
            let k = choose|k: int|
                0 <= k < before.len() && key_eq(KeyOrder::Path, #[trigger] before[k], p);
            assert(now[k] == before[k]);
            let i = choose|i: int| i < n - 1 && #[trigger] from.holds_at(p, i);
            assert(i < n && from.holds_at(p, i));
        }
        if exists|k: int| 0 <= k < now.len() && key_eq(KeyOrder::Path, #[trigger] now[k], p) {
            let k = choose|k: int|
                0 <= k < now.len() && key_eq(KeyOrder::Path, #[trigger] now[k], p);
            if k < before.len() {
                assert(before[k] == now[k]);
            } else {
                assert(now[k] == last);
            }
        }
        if !other.has_key(p) && exists|i: int| i < n && #[trigger] from.holds_at(p, i) {
            let i = choose|i: int| i < n && #[trigger] from.holds_at(p, i);
            if i < n - 1 {
                assert(i < n - 1 && from.holds_at(p, i));
                let k = choose|k: int|
                    0 <= k < before.len() && key_eq(KeyOrder::Path, #[trigger] before[k], p);
                assert(now[k] == before[k]);
            } else {
                assert(key_eq(KeyOrder::Path, last, p));
                assert(!other.has_key(last));
                assert(now[before.len() as int] == last);
            }
        }
    }
}

} // verus!
