//! The life of an open workspace: what its worker does next, and what it makes of the
//! changes that it finds.
//!
//! The worker opens with a scan, then watches. Between two messages of the watcher it
//! takes up what was asked of it: rebuilds, scans, reconciliations, removals, and the
//! changes that were held back while ingestion was paused.

use crate::events::{repo_view, warn, warn_of, warning, Event, Repo};
use crate::git::{HeadState, TrackedRepo};
use crate::ipc::{EngineChangeKind, EngineEvent, RepoInfo};
use crate::kb::KbError;
use crate::path::{
    beyond, file_name, is_under, join_path, joined_path, name_of, relative_components, under,
};
use crate::scan::{under_any, ChangeKind, ScanConfig};
use crate::sorted::{key_eq, KeyOrder, SortedMap};
use crate::text::{copy_texts, join, joined, texts};
use crate::watcher::{default_dirs, WatchConfig, WatchFilter, DEFAULT_DEBOUNCE};
use crate::workspace::Workspace;
use vstd::prelude::*;

verus! {

// ------------------------------------------------------------------ names and folders

/// The id of the document at a path below a folder: the folder's name and the path from
/// there, with slashes between.
pub open spec fn id_in(path: Seq<char>, folder: Seq<char>) -> Seq<char> {
    join(
        (match name_of(folder) {
            Some(n) => seq![n],
            None => Seq::empty(),
        }) + beyond(path, folder),
        "/"@,
    )
}

/// The index of the first folder that a path is under; the number of folders where there
/// is none.
pub open spec fn home_from(path: Seq<char>, folders: Seq<Seq<char>>, i: int) -> int
    decreases folders.len() - i,
{
    if i < 0 || i >= folders.len() {
        folders.len() as int
    } else if is_under(path, folders[i]) {
        i
    } else {
        home_from(path, folders, i + 1)
    }
}

/// The id of the document at a path: in the first folder that it is under.
pub open spec fn concept_id_of(path: Seq<char>, folders: Seq<Seq<char>>) -> Option<Seq<char>> {
    let i = home_from(path, folders, 0);
    if i < folders.len() {
        Some(id_in(path, folders[i]))
    } else {
        None
    }
}

/// The id of the document at `path`: the name of the folder that it is under and the path
/// from there, extension included (`notes/specs/auth.md`). `None` where it is under none.
pub fn concept_id_for(path: &str, folders: &Vec<String>) -> (r: Option<String>)
    ensures
        r is Some == concept_id_of(path@, texts(folders@)) is Some,
        r matches Some(id) ==> concept_id_of(path@, texts(folders@)) == Some(id@),
{
    let ghost all = texts(folders@);
    let mut i: usize = 0;
    while i < folders.len()
        invariant
            i <= folders@.len(),
            all == texts(folders@),
            home_from(path@, all, 0) == home_from(path@, all, i as int),
        decreases folders.len() - i,
    {
        let folder = folders[i].as_str();
        assert(all[i as int] == folder@);
        match relative_components(path, folder) {
            Some(rest) => {
                let mut segments: Vec<String> = Vec::new();
                if let Some(name) = file_name(folder) {
                    segments.push(name);
                }
                let ghost head = match name_of(folder@) {
                    Some(n) => seq![n],
                    None => Seq::empty(),
                };
                assert(texts(segments@) =~= head);
                let mut k: usize = 0;
                assert(texts(rest@).take(0) =~= Seq::empty());
                assert(head + texts(rest@).take(0) =~= head);
                while k < rest.len()
                    invariant
                        k <= rest@.len(),
                        texts(segments@) == head + texts(rest@).take(k as int),
                    decreases rest.len() - k,
                {
                    let ghost before = texts(segments@);
                    segments.push(rest[k].clone());
                    proof {
                        assert(texts(segments@) =~= before.push(rest@[k as int]@));
                        assert(texts(rest@).take(k + 1) =~= texts(rest@).take(k as int).push(
                            rest@[k as int]@,
                        ));
                        assert(head + texts(rest@).take(k + 1) =~= before.push(
                            rest@[k as int]@,
                        ));
                    }
                    k = k + 1;
                }
                assert(texts(rest@).take(rest@.len() as int) =~= texts(rest@));
                return Some(joined(&segments, "/"));
            },
            None => {},
        }
        i = i + 1;
    }
    None
}

/// The workspace folder that `path` is under, if any.
pub fn containing_folder(path: &str, folders: &Vec<String>) -> (r: Option<String>)
    ensures
        ({
            let i = home_from(path@, texts(folders@), 0);
            match r {
                Some(f) => i < folders@.len() && f@ == folders@[i]@,
                None => i == folders@.len(),
            }
        }),
{
    let ghost all = texts(folders@);
    let mut i: usize = 0;
    while i < folders.len()
        invariant
            i <= folders@.len(),
            all == texts(folders@),
            home_from(path@, all, 0) == home_from(path@, all, i as int),
        decreases folders.len() - i,
    {
        assert(all[i as int] == folders@[i as int]@);
        if under(path, folders[i].as_str()) {
            return Some(folders[i].clone());
        }
        i = i + 1;
    }
    None
}

/// A path as it resolves, or as it is where it does not.
pub open spec fn resolved(canonical: SortedMap<String>, path: Seq<char>) -> Seq<char> {
    match canonical.lookup(path) {
        Some(p) => p@,
        None => path,
    }
}

/// Each path as it resolves, or as it is where it does not.
pub fn canonicalize_all(paths: &Vec<String>, canonical: &SortedMap<String>) -> (r: Vec<String>)
    requires
        canonical.wf(),
    ensures
        texts(r@) == texts(paths@).map_values(|p: Seq<char>| resolved(*canonical, p)),
{
    let ghost want = texts(paths@).map_values(|p: Seq<char>| resolved(*canonical, p));
    let mut out: Vec<String> = Vec::new();
    let mut i: usize = 0;
    assert(texts(out@) =~= want.take(0));
    while i < paths.len()
        invariant
            canonical.wf(),
            i <= paths@.len(),
            want == texts(paths@).map_values(|p: Seq<char>| resolved(*canonical, p)),
            texts(out@) == want.take(i as int),
        decreases paths.len() - i,
    {
        let ghost before = texts(out@);
        let p = match canonical.get(paths[i].as_str()) {
            Some(p) => p.clone(),
            None => paths[i].clone(),
        };
        out.push(p);
        proof {
            assert(texts(out@) =~= before.push(resolved(*canonical, paths@[i as int]@)));
            assert(want.take(i + 1) =~= want.take(i as int).push(want[i as int]));
        }
        i = i + 1;
    }
    assert(want.take(want.len() as int) =~= want);
    out
}

/// The kind of a change, as it is told.
pub fn map_change_kind(kind: ChangeKind) -> (r: EngineChangeKind)
    ensures
        r == told_kind(kind),
{
    match kind {
        ChangeKind::Created => EngineChangeKind::Created,
        ChangeKind::Modified => EngineChangeKind::Modified,
        ChangeKind::Removed => EngineChangeKind::Removed,
        ChangeKind::Moved => EngineChangeKind::Moved,
    }
}

/// The kind of a change, as it is told.
pub open spec fn told_kind(kind: ChangeKind) -> EngineChangeKind {
    match kind {
        ChangeKind::Created => EngineChangeKind::Created,
        ChangeKind::Modified => EngineChangeKind::Modified,
        ChangeKind::Removed => EngineChangeKind::Removed,
        ChangeKind::Moved => EngineChangeKind::Moved,
    }
}

// -------------------------------------------------------------------------- opening

/// The event that a workspace is opening.
pub fn opening(workspace: &Workspace) -> (r: EngineEvent)
    ensures
        r@ == (Event::WorkspaceOpening {
            workspace_id: workspace.id.0@,
            name: workspace.name@,
        }),
{
    EngineEvent::WorkspaceOpening {
        workspace_id: workspace.id.0.clone(),
        name: workspace.name.clone(),
    }
}

/// What is told of a repository that was found.
pub fn repo_info(repo: TrackedRepo, linked: bool) -> (r: RepoInfo)
    ensures
        repo_view(r) == (Repo {
            name: repo.name@,
            branch: match repo.head {
                HeadState::Branch(b) => Some(b@),
                _ => None,
            },
            work_dir: repo.work_dir@,
            linked,
        }),
{
    let branch = match repo.head {
        HeadState::Branch(b) => Some(b),
        HeadState::Detached(_) | HeadState::Unborn => None,
    };
    RepoInfo { name: repo.name, branch, work_dir: repo.work_dir, linked }
}

/// The event that repositories were found.
pub fn discovered(wid: &str, repos: Vec<RepoInfo>) -> (r: EngineEvent)
    ensures
        r@ == (Event::ReposDiscovered {
            workspace_id: wid@,
            repos: repos@.map_values(|i: RepoInfo| repo_view(i)),
        }),
{
    EngineEvent::ReposDiscovered { workspace_id: wid.to_owned(), repos }
}

/// The file that a workspace's scan cursor is kept in.
pub fn cursor_path(workspace: &Workspace) -> (r: String)
    ensures
        r@ == joined_path(workspace.kb_dir@, "scan-cursor.json"@),
{
    join_path(workspace.kb_dir.as_str(), "scan-cursor.json")
}

/// What a worker failed at, without ending over it.
#[derive(Debug, Clone, Copy, PartialEq, Eq, Structural)]
pub enum Trouble {
    /// Scanning all folders.
    Scan,
    /// Reconciling the index with the folders.
    Reconcile,
    /// Clearing the index.
    Clear,
    /// Resetting the scan cursor.
    Reset,
    /// Taking a document out of the index.
    Remove,
    /// Forgetting a document in the scan cursor.
    Forget,
}

impl Trouble {
    /// What stands before the reason.
    pub open spec fn heading(self) -> Seq<char> {
        match self {
            Trouble::Scan => "scan failed: "@,
            Trouble::Reconcile => "reconcile failed: "@,
            Trouble::Clear => "index clear failed: "@,
            Trouble::Reset => "cursor reset failed: "@,
            Trouble::Remove => "remove failed: "@,
            Trouble::Forget => "cursor forget failed: "@,
        }
    }

    /// The warning about it.
    pub fn told(self, wid: &str, reason: &str) -> (r: EngineEvent)
        ensures
            r@ == warning(wid@, self.heading() + reason@),
    {
        let heading = match self {
            Trouble::Scan => "scan failed: ",
            Trouble::Reconcile => "reconcile failed: ",
            Trouble::Clear => "index clear failed: ",
            Trouble::Reset => "cursor reset failed: ",
            Trouble::Remove => "remove failed: ",
            Trouble::Forget => "cursor forget failed: ",
        };
        warn_of(wid, heading, reason)
    }
}

/// What is told of a document that was to be taken out of the index.
pub fn removal(wid: &str, path: &str, result: &Result<(), KbError>) -> (r: EngineEvent)
    ensures
        r@ == match result {
            Ok(_) => Event::DocRemoved { workspace_id: wid@, path: path@ },
            Err(e) => warning(wid@, Trouble::Remove.heading() + e.text()),
        },
{
    match result {
        Ok(_) => EngineEvent::DocRemoved {
            workspace_id: wid.to_owned(),
            path: path.to_owned(),
        },
        Err(e) => Trouble::Remove.told(wid, e.message().as_str()),
    }
}

/// What a workspace scans: its folders but for what is excluded, for its extensions.
pub fn scan_config(workspace: &Workspace, folders: &Vec<String>, excluded: &Vec<String>) -> (r:
    ScanConfig)
    ensures
        texts(r.roots@) == texts(folders@),
        texts(r.excluded_prefixes@) == texts(excluded@),
        texts(r.extensions@) == texts(workspace.watched_extensions@),
        r.respect_gitignore,
{
    let mut config = ScanConfig::new(copy_texts(folders));
    config.excluded_prefixes = copy_texts(excluded);
    config.extensions = copy_texts(&workspace.watched_extensions);
    config
}

/// Whether a filter lets a workspace's files through: those of its extensions and
/// `.looperignore`, but for the default directories and what is excluded.
pub open spec fn filters_for(
    f: WatchFilter,
    extensions: Seq<Seq<char>>,
    excluded: Seq<Seq<char>>,
) -> bool {
    &&& texts(f.ignored_dir_names@) == default_dirs()
    &&& texts(f.ignored_prefixes@) == excluded
    &&& texts(f.filenames@) == seq![".looperignore"@]
    &&& f.extensions matches Some(e) && texts(e@) == extensions.map_values(
        |s: Seq<char>| crate::path::lowered(s),
    )
}

/// What a workspace watches: its folders, for the files that are scanned and for
/// `.looperignore`.
pub fn watch_config(workspace: &Workspace, folders: &Vec<String>, excluded: &Vec<String>) -> (r:
    WatchConfig)
    ensures
        texts(r.roots@) == texts(folders@),
        filters_for(r.filter, texts(workspace.watched_extensions@), texts(excluded@)),
        r.debounce == DEFAULT_DEBOUNCE,
        r.respect_gitignore,
{
    let filter = watch_filter(&workspace.watched_extensions, excluded);
    WatchConfig {
        roots: copy_texts(folders),
        filter,
        debounce: DEFAULT_DEBOUNCE,
        respect_gitignore: true,
    }
}

/// A filter that lets a workspace's files through.
pub fn watch_filter(extensions: &Vec<String>, excluded: &Vec<String>) -> (r: WatchFilter)
    ensures
        filters_for(r, texts(extensions@), texts(excluded@)),
{
    let base = WatchFilter::with_extensions(extensions);
    assert(texts(base.ignored_dir_names@) + default_dirs() =~= default_dirs());
    let mut filter = base.ignoring_default_dirs().also_filename(".looperignore");
    let ghost exts = filter.extensions;
    proof {
        assert(texts(base.filenames@) =~= Seq::empty());
        assert(texts(filter.filenames@) =~= seq![".looperignore"@]);
        assert(texts(filter.ignored_prefixes@) =~= texts(excluded@).take(0));
    }
    let mut i: usize = 0;
    while i < excluded.len()
        invariant
            i <= excluded@.len(),
            texts(filter.ignored_dir_names@) == default_dirs(),
            texts(filter.ignored_prefixes@) == texts(excluded@).take(i as int),
            texts(filter.filenames@) == seq![".looperignore"@],
            filter.extensions == exts,
        decreases excluded.len() - i,
    {
        let ghost before = texts(filter.ignored_prefixes@);
        filter = filter.ignoring_path(excluded[i].as_str());
        assert(texts(excluded@).take(i + 1) =~= before.push(excluded@[i as int]@));
        i = i + 1;
    }
    assert(texts(excluded@).take(excluded@.len() as int) =~= texts(excluded@));
    filter
}

// ------------------------------------------------------------------------ what is asked

/// Whether ingestion is paused, and the paths of the changes that wait behind that.
pub struct Ingestion {
    /// How many pauses there are.
    pub depth: usize,
    /// The paths that changed meanwhile, each once.
    pub pending: SortedMap<()>,
}

/// What is asked of a workspace's worker.
pub struct Signals {
    /// Clear the index and index everything anew.
    pub rebuild: bool,
    /// Scan all folders.
    pub rescan: bool,
    /// Bring the set of indexed paths in step with the folders.
    pub reconcile: bool,
    /// The documents to take out of the index.
    pub removals: Vec<String>,
    pub ingestion: Ingestion,
}

/// The keys of a set of paths, in order.
pub open spec fn keys(entries: Seq<(String, ())>) -> Seq<Seq<char>> {
    entries.map_values(|e: (String, ())| e.0@)
}

impl Signals {
    pub open spec fn wf(&self) -> bool {
        self.ingestion.pending.wf() && self.ingestion.pending.order == KeyOrder::Path
    }

    /// Nothing is asked.
    pub fn new() -> (r: Self)
        ensures
            r.wf(),
            !r.rebuild,
            !r.rescan,
            !r.reconcile,
            r.removals@.len() == 0,
            r.ingestion.depth == 0,
            r.ingestion.pending.entries@.len() == 0,
    {
        Signals {
            rebuild: false,
            rescan: false,
            reconcile: false,
            removals: Vec::new(),
            ingestion: Ingestion { depth: 0, pending: SortedMap::new(KeyOrder::Path) },
        }
    }
}

/// What is asked of a worker, as a value.
pub struct Asked {
    pub rebuild: bool,
    pub rescan: bool,
    pub reconcile: bool,
    pub removals: Seq<Seq<char>>,
    pub depth: usize,
    pub pending: Seq<Seq<char>>,
}

impl Signals {
    pub open spec fn view(&self) -> Asked {
        Asked {
            rebuild: self.rebuild,
            rescan: self.rescan,
            reconcile: self.reconcile,
            removals: texts(self.removals@),
            depth: self.ingestion.depth,
            pending: keys(self.ingestion.pending.entries@),
        }
    }
}

// --------------------------------------------------------------------------- the worker

/// What a worker is at.
#[derive(Debug, Clone, Copy, PartialEq, Eq, Structural)]
pub enum Phase {
    /// Nothing has been done.
    Announce,
    /// Moves the links of the workspace's folders to their visible name.
    Migrate,
    /// Opens the scan engine.
    OpenScan,
    /// Scans for the first time.
    FirstScan,
    /// Has the documents enriched, where that is wanted.
    Enrich,
    /// Starts to watch.
    Watch,
    /// Begins a round: takes up a rebuild.
    Rebuild,
    /// Takes up a scan.
    Rescan,
    /// Takes up a reconciliation.
    Reconcile,
    /// Takes up removals.
    Remove,
    /// Removes what it took up.
    Removing,
    /// Takes up the changes that were held back.
    Drain,
    /// Ingests what it took up.
    Draining,
    /// At its end.
    Stopped,
}

/// What a worker does next.
#[derive(Debug, PartialEq, Eq)]
pub enum Step {
    /// Tell that the workspace is opening.
    Announce,
    /// Move the legacy link of a folder.
    Migrate(String),
    /// Look for repositories and tell of them.
    Discover,
    /// Open the scan engine.
    OpenScan,
    /// Scan, and apply the changes.
    FullScan,
    /// Have all documents enriched.
    EnrichAfterScan,
    /// Start to watch.
    Watch,
    /// Clear the index and reset the scan cursor.
    Rebuild,
    /// Reconcile, and apply the changes.
    Reconcile,
    /// Take a document out of the index, and forget it.
    Remove(String),
    /// Observe a path, and apply the change.
    Ingest(String),
    /// Wait for a message of the watcher.
    Receive,
    /// End.
    Stop,
}

/// What a worker does next, as a value.
pub enum Do {
    Announce,
    Migrate(Seq<char>),
    Discover,
    OpenScan,
    FullScan,
    EnrichAfterScan,
    Watch,
    Rebuild,
    Reconcile,
    Remove(Seq<char>),
    Ingest(Seq<char>),
    Receive,
    Stop,
}

impl Step {
    pub open spec fn view(&self) -> Do {
        match self {
            Step::Announce => Do::Announce,
            Step::Migrate(f) => Do::Migrate(f@),
            Step::Discover => Do::Discover,
            Step::OpenScan => Do::OpenScan,
            Step::FullScan => Do::FullScan,
            Step::EnrichAfterScan => Do::EnrichAfterScan,
            Step::Watch => Do::Watch,
            Step::Rebuild => Do::Rebuild,
            Step::Reconcile => Do::Reconcile,
            Step::Remove(p) => Do::Remove(p@),
            Step::Ingest(p) => Do::Ingest(p@),
            Step::Receive => Do::Receive,
            Step::Stop => Do::Stop,
        }
    }
}

/// The worker of an open workspace.
pub struct IndexWorker {
    pub phase: Phase,
    /// The folders of the workspace that are still to be migrated, the next one last.
    pub folders: Vec<String>,
    /// Whether documents are enriched after the first scan.
    pub enrich: bool,
    /// The paths that were taken up, the next one last.
    pub queue: Vec<String>,
}

/// A worker, as a value.
pub struct Worker {
    pub phase: Phase,
    pub folders: Seq<Seq<char>>,
    pub enrich: bool,
    pub queue: Seq<Seq<char>>,
}

impl IndexWorker {
    pub open spec fn view(&self) -> Worker {
        Worker {
            phase: self.phase,
            folders: texts(self.folders@),
            enrich: self.enrich,
            queue: texts(self.queue@),
        }
    }
}

/// What a worker does, and how it and what is asked of it stand then.
pub struct Turn {
    pub step: Do,
    pub worker: Worker,
    pub asked: Asked,
}

/// At the end of a round: waits for a message.
pub open spec fn receive_turn(w: Worker, a: Asked) -> Turn {
    Turn { step: Do::Receive, worker: Worker { phase: Phase::Rebuild, ..w }, asked: a }
}

/// Ingests the next path that was taken up.
pub open spec fn draining_turn(w: Worker, a: Asked) -> Turn {
    if w.queue.len() > 0 {
        Turn {
            step: Do::Ingest(w.queue.last()),
            worker: Worker { phase: Phase::Draining, queue: w.queue.drop_last(), ..w },
            asked: a,
        }
    } else {
        receive_turn(w, a)
    }
}

/// Takes up the changes that were held back, unless ingestion is paused.
pub open spec fn drain_turn(w: Worker, a: Asked) -> Turn {
    if a.depth == 0 {
        draining_turn(
            Worker { queue: a.pending.reverse(), ..w },
            Asked { pending: Seq::empty(), ..a },
        )
    } else {
        receive_turn(w, a)
    }
}

/// Removes the next document that was taken up.
pub open spec fn removing_turn(w: Worker, a: Asked) -> Turn {
    if w.queue.len() > 0 {
        Turn {
            step: Do::Remove(w.queue.last()),
            worker: Worker { phase: Phase::Removing, queue: w.queue.drop_last(), ..w },
            asked: a,
        }
    } else {
        drain_turn(w, a)
    }
}

/// Takes up the removals.
pub open spec fn remove_turn(w: Worker, a: Asked) -> Turn {
    removing_turn(
        Worker { queue: a.removals.reverse(), ..w },
        Asked { removals: Seq::empty(), ..a },
    )
}

/// Takes up a reconciliation.
pub open spec fn reconcile_turn(w: Worker, a: Asked) -> Turn {
    if a.reconcile {
        Turn {
            step: Do::Reconcile,
            worker: Worker { phase: Phase::Remove, ..w },
            asked: Asked { reconcile: false, ..a },
        }
    } else {
        remove_turn(w, a)
    }
}

/// Takes up a scan.
pub open spec fn rescan_turn(w: Worker, a: Asked) -> Turn {
    if a.rescan {
        Turn {
            step: Do::FullScan,
            worker: Worker { phase: Phase::Reconcile, ..w },
            asked: Asked { rescan: false, ..a },
        }
    } else {
        reconcile_turn(w, a)
    }
}

/// Begins a round, unless the worker is to stop. A rebuild asks for a scan.
pub open spec fn round_turn(w: Worker, a: Asked, stop: bool) -> Turn {
    if stop {
        Turn { step: Do::Stop, worker: Worker { phase: Phase::Stopped, ..w }, asked: a }
    } else if a.rebuild {
        Turn {
            step: Do::Rebuild,
            worker: Worker { phase: Phase::Rescan, ..w },
            asked: Asked { rebuild: false, rescan: true, ..a },
        }
    } else {
        rescan_turn(w, a)
    }
}

/// What a worker does next.
pub open spec fn turn(w: Worker, a: Asked, stop: bool) -> Turn {
    match w.phase {
        Phase::Announce => Turn {
            step: Do::Announce,
            worker: Worker { phase: Phase::Migrate, ..w },
            asked: a,
        },
        Phase::Migrate => if w.folders.len() > 0 {
            Turn {
                step: Do::Migrate(w.folders.last()),
                worker: Worker { folders: w.folders.drop_last(), ..w },
                asked: a,
            }
        } else {
            Turn { step: Do::Discover, worker: Worker { phase: Phase::OpenScan, ..w }, asked: a }
        },
        Phase::OpenScan => Turn {
            step: Do::OpenScan,
            worker: Worker { phase: Phase::FirstScan, ..w },
            asked: a,
        },
        Phase::FirstScan => Turn {
            step: Do::FullScan,
            worker: Worker { phase: Phase::Enrich, ..w },
            asked: a,
        },
        Phase::Enrich => if w.enrich {
            Turn { step: Do::EnrichAfterScan, worker: Worker { phase: Phase::Watch, ..w }, asked: a }
        } else {
            Turn { step: Do::Watch, worker: Worker { phase: Phase::Rebuild, ..w }, asked: a }
        },
        Phase::Watch => Turn {
            step: Do::Watch,
            worker: Worker { phase: Phase::Rebuild, ..w },
            asked: a,
        },
        Phase::Rebuild => round_turn(w, a, stop),
        Phase::Rescan => rescan_turn(w, a),
        Phase::Reconcile => reconcile_turn(w, a),
        Phase::Remove => remove_turn(w, a),
        Phase::Removing => removing_turn(w, a),
        Phase::Drain => drain_turn(w, a),
        Phase::Draining => draining_turn(w, a),
        Phase::Stopped => Turn { step: Do::Stop, worker: w, asked: a },
    }
}

/// Some texts, the last one first.
fn reversed(v: &Vec<String>) -> (r: Vec<String>)
    ensures
        texts(r@) == texts(v@).reverse(),
{
    let ghost all = texts(v@);
    let mut out: Vec<String> = Vec::new();
    let mut i: usize = v.len();
    assert(texts(out@) =~= all.reverse().take(0));
    while i > 0
        invariant
            i <= v@.len(),
            all == texts(v@),
            texts(out@) == all.reverse().take(v@.len() - i),
        decreases i,
    {
        let ghost before = texts(out@);
        let ghost n = v@.len() - i;
        i = i - 1;
        out.push(v[i].clone());
        proof {
            assert(texts(out@) =~= before.push(all[i as int]));
            assert(all.reverse()[n] == all[i as int]);
            assert(all.reverse().take(n + 1) =~= all.reverse().take(n).push(all[i as int]));
        }
    }
    assert(all.reverse().take(all.len() as int) =~= all.reverse());
    out
}

fn key_list(set: &SortedMap<()>) -> (r: Vec<String>)
    ensures
        texts(r@) == keys(set.entries@),
{
    let mut out: Vec<String> = Vec::new();
    let mut i: usize = 0;
    assert(texts(out@) =~= keys(set.entries@).take(0));
    while i < set.entries.len()
        invariant
            i <= set.entries@.len(),
            texts(out@) == keys(set.entries@).take(i as int),
        decreases set.entries.len() - i,
    {
        let ghost before = texts(out@);
        out.push(set.entries[i].0.clone());
        proof {
            assert(texts(out@) =~= before.push(set.entries@[i as int].0@));
            assert(keys(set.entries@).take(i + 1) =~= before.push(keys(set.entries@)[i as int]));
        }
        i = i + 1;
    }
    assert(keys(set.entries@).take(set.entries@.len() as int) =~= keys(set.entries@));
    out
}

/// A message of the watcher, or that none came.
#[derive(Debug)]
pub enum Received {
    /// A path changed.
    Event(String),
    /// The system's notifications failed somehow.
    Error(String),
    /// Nothing came in time.
    Timeout,
    /// Nothing will come any more.
    Disconnected,
}

/// What becomes of a message.
#[derive(Debug)]
pub enum Reaction {
    /// The path is to be ingested.
    Ingest(String),
    /// The event is to be told.
    Tell(EngineEvent),
    /// There is nothing to do.
    Nothing,
}

impl IndexWorker {
    /// The worker of a workspace with `folders`.
    pub fn new(folders: &Vec<String>, workspace: &Workspace) -> (r: Self)
        ensures
            r@ == (Worker {
                phase: Phase::Announce,
                folders: texts(folders@).reverse(),
                enrich: workspace.enrichment.enabled && workspace.enrichment.enrich_after_scan,
                queue: Seq::empty(),
            }),
    {
        let r = IndexWorker {
            phase: Phase::Announce,
            folders: reversed(folders),
            enrich: workspace.enrichment.enabled && workspace.enrichment.enrich_after_scan,
            queue: Vec::new(),
        };
        assert(texts(r.queue@) =~= Seq::empty());
        r
    }

    fn pop(&mut self) -> (r: Option<String>)
        ensures
            match r {
                Some(p) => old(self)@.queue.len() > 0 && p@ == old(self)@.queue.last()
                    && final(self)@ == (Worker {
                    queue: old(self)@.queue.drop_last(),
                    ..old(self)@
                }),
                None => old(self)@.queue.len() == 0 && final(self)@ == old(self)@,
            },
    {
        if self.queue.len() == 0 {
            return None;
        }
        let last: usize = self.queue.len() - 1;
        let p = self.queue.remove(last);
        assert(texts(self.queue@) =~= texts(old(self).queue@).drop_last());
        Some(p)
    }

    /// What the worker does next. `stop` tells that it is to end.
    pub fn next(&mut self, signals: &mut Signals, stop: bool) -> (r: Step)
        requires
            old(signals).wf(),
        ensures
            final(signals).wf(),
            (Turn { step: r@, worker: final(self)@, asked: final(signals)@ }) == turn(
                old(self)@,
                old(signals)@,
                stop,
            ),
    {
        match self.phase {
            Phase::Announce => {
                self.phase = Phase::Migrate;
                return Step::Announce;
            },
            Phase::Migrate => {
                if self.folders.len() > 0 {
                    let last: usize = self.folders.len() - 1;
                    let f = self.folders.remove(last);
                    assert(texts(self.folders@) =~= texts(old(self).folders@).drop_last());
                    return Step::Migrate(f);
                }
                self.phase = Phase::OpenScan;
                return Step::Discover;
            },
            Phase::OpenScan => {
                self.phase = Phase::FirstScan;
                return Step::OpenScan;
            },
            Phase::FirstScan => {
                self.phase = Phase::Enrich;
                return Step::FullScan;
            },
            Phase::Enrich => {
                if self.enrich {
                    self.phase = Phase::Watch;
                    return Step::EnrichAfterScan;
                }
                self.phase = Phase::Rebuild;
                return Step::Watch;
            },
            Phase::Watch => {
                self.phase = Phase::Rebuild;
                return Step::Watch;
            },
            Phase::Stopped => {
                return Step::Stop;
            },
            _ => {},
        }
        let from = self.phase;
        if from == Phase::Rebuild {
            if stop {
                self.phase = Phase::Stopped;
                return Step::Stop;
            }
            if signals.rebuild {
                signals.rebuild = false;
                signals.rescan = true;
                self.phase = Phase::Rescan;
                return Step::Rebuild;
            }
        }
        if from == Phase::Rebuild || from == Phase::Rescan {
            if signals.rescan {
                signals.rescan = false;
                self.phase = Phase::Reconcile;
                return Step::FullScan;
            }
        }
        if from == Phase::Rebuild || from == Phase::Rescan || from == Phase::Reconcile {
            if signals.reconcile {
                signals.reconcile = false;
                self.phase = Phase::Remove;
                return Step::Reconcile;
            }
        }
        if from != Phase::Removing && from != Phase::Drain && from != Phase::Draining {
            self.queue = reversed(&signals.removals);
            signals.removals = Vec::new();
            assert(texts(signals.removals@) =~= Seq::empty());
        }
        if from != Phase::Drain && from != Phase::Draining {
            match self.pop() {
                Some(p) => {
                    self.phase = Phase::Removing;
                    return Step::Remove(p);
                },
                None => {},
            }
        }
        if from != Phase::Draining {
            if signals.ingestion.depth != 0 {
                self.phase = Phase::Rebuild;
                return Step::Receive;
            }
            let waiting = key_list(&signals.ingestion.pending);
            self.queue = reversed(&waiting);
            signals.ingestion.pending = SortedMap::new(KeyOrder::Path);
            assert(keys(signals.ingestion.pending.entries@) =~= Seq::empty());
        }
        match self.pop() {
            Some(p) => {
                self.phase = Phase::Draining;
                Step::Ingest(p)
            },
            None => {
                self.phase = Phase::Rebuild;
                Step::Receive
            },
        }
    }

    /// Takes a message of the watcher. A change is ingested, or held back while ingestion
    /// is paused; where no message can come any more the worker ends.
    pub fn receive(&mut self, wid: &str, message: Received, signals: &mut Signals) -> (r: Reaction)
        requires
            old(signals).wf(),
        ensures
            final(signals).wf(),
            final(signals).rebuild == old(signals).rebuild,
            final(signals).rescan == old(signals).rescan,
            final(signals).reconcile == old(signals).reconcile,
            final(signals).removals == old(signals).removals,
            final(signals).ingestion.depth == old(signals).ingestion.depth,
            forall|p: Seq<char>|
                #[trigger] final(signals).ingestion.pending.lookup(p) == if held_back(
                    message,
                    *old(signals),
                    p,
                ) {
                    Some(())
                } else {
                    old(signals).ingestion.pending.lookup(p)
                },
            final(self)@ == if message is Disconnected {
                Worker { phase: Phase::Stopped, ..old(self)@ }
            } else {
                old(self)@
            },
            match message {
                Received::Event(p) => if old(signals).ingestion.depth > 0 {
                    r is Nothing
                } else {
                    r == Reaction::Ingest(p)
                },
                Received::Error(m) => r matches Reaction::Tell(e) && e@ == warning(wid@, m@),
                _ => r is Nothing,
            },
    {
        match message {
            Received::Event(path) => {
                if signals.ingestion.depth > 0 {
                    signals.ingestion.pending.insert(path, ());
                    Reaction::Nothing
                } else {
                    Reaction::Ingest(path)
                }
            },
            Received::Error(m) => Reaction::Tell(warn(wid, m)),
            Received::Timeout => Reaction::Nothing,
            Received::Disconnected => {
                self.phase = Phase::Stopped;
                Reaction::Nothing
            },
        }
    }

    /// Ends the worker because the scan engine could not be opened.
    pub fn scan_failed(&mut self, wid: &str, error: &str) -> (r: EngineEvent)
        ensures
            final(self)@ == (Worker { phase: Phase::Stopped, ..old(self)@ }),
            r@ == warning(wid@, "scan engine failed to open: "@ + error@),
    {
        self.phase = Phase::Stopped;
        warn_of(wid, "scan engine failed to open: ", error)
    }

    /// Ends the worker because watching could not be started.
    pub fn watch_failed(&mut self, wid: &str, error: &str) -> (r: EngineEvent)
        ensures
            final(self)@ == (Worker { phase: Phase::Stopped, ..old(self)@ }),
            r@ == warning(wid@, "watcher failed to start: "@ + error@),
    {
        self.phase = Phase::Stopped;
        warn_of(wid, "watcher failed to start: ", error)
    }
}

/// Whether a message has the change at a path held back.
pub open spec fn held_back(message: Received, signals: Signals, p: Seq<char>) -> bool {
    signals.ingestion.depth > 0 && (message matches Received::Event(x) && key_eq(
        KeyOrder::Path,
        x@,
        p,
    ))
}

// -------------------------------------------------------------------------- laws

/// A rebuild is followed by a scan in the same round, whatever else is asked.
pub proof fn rebuilds_are_followed_by_a_scan(w: Worker, a: Asked)
    requires
        w.phase == Phase::Rebuild,
        a.rebuild,
    ensures
        ({
            let first = turn(w, a, false);
            let second = turn(first.worker, first.asked, false);
            first.step == Do::Rebuild && second.step == Do::FullScan && !second.asked.rebuild
                && !second.asked.rescan
        }),
{
}

/// While ingestion is paused no change that was held back is taken up, and none is lost.
pub proof fn paused_changes_wait(w: Worker, a: Asked, stop: bool)
    requires
        a.depth > 0,
        w.phase != Phase::Draining,
    ensures
        !(turn(w, a, stop).step is Ingest),
        turn(w, a, stop).asked.pending == a.pending,
{
}

/// The worker as it is after a number of turns, with what is asked of it.
pub open spec fn after_turns(w: Worker, a: Asked, n: nat) -> (Worker, Asked)
    decreases n,
{
    if n == 0 {
        (w, a)
    } else {
        let t = turn(w, a, false);
        after_turns(t.worker, t.asked, (n - 1) as nat)
    }
}

/// Once ingestion is resumed, every change that was held back is ingested, each once and in
/// order, before the worker waits for another message.
pub proof fn resumed_changes_are_ingested(w: Worker, a: Asked, k: nat)
    requires
        w.phase == Phase::Drain,
        a.depth == 0,
        k < a.pending.len(),
    ensures
        ({
            let (v, b) = after_turns(w, a, k);
            turn(v, b, false).step == Do::Ingest(a.pending[k as int])
        }),
        ({
            let (v, b) = after_turns(w, a, a.pending.len());
            turn(v, b, false).step == Do::Receive && b.pending.len() == 0
        }),
{
    let started = Worker { phase: Phase::Draining, queue: a.pending.reverse(), ..w };
    let rest = Asked { pending: Seq::empty(), ..a };
    let all = a.pending.reverse();
    lemma_draining(started, rest, k);
    lemma_draining(started, rest, a.pending.len());
    // The first turn takes the changes up, and goes on as if they had been taken up before.
    assert(turn(w, a, false) == turn(started, rest, false));
    lemma_first_turn(w, a, started, rest, k);
    lemma_first_turn(w, a, started, rest, a.pending.len());
    assert(all.take(all.len() - k).last() == a.pending[k as int]);
}

proof fn lemma_first_turn(w: Worker, a: Asked, v: Worker, b: Asked, n: nat)
    requires
        turn(w, a, false) == turn(v, b, false),
    ensures
        n > 0 ==> after_turns(w, a, n) == after_turns(v, b, n),
{
}

proof fn lemma_draining(w: Worker, a: Asked, n: nat)
    requires
        w.phase == Phase::Draining,
        n <= w.queue.len(),
    ensures
        after_turns(w, a, n) == (
            Worker { queue: w.queue.take(w.queue.len() - n), ..w },
            a,
        ),
    decreases n,
{
    if n == 0 {
        assert(w.queue.take(w.queue.len() as int) =~= w.queue);
    } else {
        let t = turn(w, a, false);
        lemma_draining(t.worker, t.asked, (n - 1) as nat);
        let m = w.queue.len() - n;
        assert(w.queue.drop_last().take(m) =~= w.queue.take(m));
    }
}

proof fn lemma_removing(w: Worker, a: Asked, n: nat)
    requires
        w.phase == Phase::Removing,
        n <= w.queue.len(),
    ensures
        after_turns(w, a, n) == (
            Worker { queue: w.queue.take(w.queue.len() - n), ..w },
            a,
        ),
    decreases n,
{
    if n == 0 {
        assert(w.queue.take(w.queue.len() as int) =~= w.queue);
    } else {
        let t = turn(w, a, false);
        lemma_removing(t.worker, t.asked, (n - 1) as nat);
        let m = w.queue.len() - n;
        assert(w.queue.drop_last().take(m) =~= w.queue.take(m));
    }
}

/// Every removal that was asked for is made, each once and in order, before held-back
/// changes are taken up.
pub proof fn removals_come_in_order(w: Worker, a: Asked, k: nat)
    requires
        w.phase == Phase::Remove,
        k < a.removals.len(),
    ensures
        ({
            let (v, b) = after_turns(w, a, k);
            turn(v, b, false).step == Do::Remove(a.removals[k as int]) && (k > 0 ==> b.pending
                == a.pending)
        }),
        ({
            let (v, b) = after_turns(w, a, a.removals.len());
            !(turn(v, b, false).step is Remove) && b.removals.len() == 0 && b.pending == a.pending
        }),
{
    let started = Worker { phase: Phase::Removing, queue: a.removals.reverse(), ..w };
    let rest = Asked { removals: Seq::empty(), ..a };
    let all = a.removals.reverse();
    lemma_removing(started, rest, k);
    lemma_removing(started, rest, a.removals.len());
    assert(turn(w, a, false) == turn(started, rest, false));
    lemma_first_turn(w, a, started, rest, k);
    lemma_first_turn(w, a, started, rest, a.removals.len());
    assert(all.take(all.len() - k).last() == a.removals[k as int]);
}

/// What the index itself consists of is never indexed: nothing at or under the KB directory
/// or a folder's `kb` link is walked, tracked or told of, whatever it is.
pub proof fn the_index_is_passed_over(
    w: Workspace,
    canonical: SortedMap<String>,
    config: ScanConfig,
    filter: WatchFilter,
    k: int,
    path: Seq<char>,
    is_dir: bool,
)
    requires
        ({
            let excluded = w.exclusions().map_values(|p: Seq<char>| resolved(canonical, p));
            &&& texts(config.excluded_prefixes@) == excluded
            &&& filters_for(filter, texts(w.watched_extensions@), excluded)
        }),
        0 <= k < w.exclusions().len(),
        is_under(path, resolved(canonical, w.exclusions()[k])),
    ensures
        !config.walked(path, is_dir),
        !config.watched(path),
        !filter.passes(path),
{
    let excluded = w.exclusions().map_values(|p: Seq<char>| resolved(canonical, p));
    assert(excluded[k] == resolved(canonical, w.exclusions()[k]));
    assert(under_any(path, excluded));
}

} // verus!
