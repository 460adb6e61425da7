//! The engine: the workspaces that are open, and what is asked of their workers.

use crate::autosync::{base, SyncJob, SyncTriggers, SyncWorker};
use crate::enriching::EnrichJob;
use crate::events::{state_view, FolderState, Status};
use crate::ipc::{
    EnrichmentConfig, SyncFolderConfig, SyncFolderState, SyncResolution, SyncStatus,
};
use crate::kb::{DocSummary, Kb, KbError, KbProvider, SearchHit, TagCount};
use crate::lifecycle::{Ingestion, Signals};
use crate::sorted::{KeyOrder, SortedMap};
use crate::workspace::{remove_folder, with_sync, Workspace};
use vstd::prelude::*;

verus! {

/// Errors of asking something of the engine.
#[derive(Debug)]
pub enum CoreError {
    /// The workspace is open already.
    WorkspaceAlreadyOpen(String),
    /// The workspace is not open.
    WorkspaceNotOpen(String),
    /// The knowledge base of the workspace could not be opened.
    Kb(KbError),
    /// The workspace could not be prepared.
    Io { path: String, message: String },
}

impl CoreError {
    /// What the error says.
    pub open spec fn text(&self) -> Seq<char> {
        match self {
            CoreError::WorkspaceAlreadyOpen(id) => "workspace `"@ + id@ + "` is already open"@,
            CoreError::WorkspaceNotOpen(id) => "workspace `"@ + id@ + "` is not open"@,
            CoreError::Kb(e) => "KB error: "@ + e.text(),
            CoreError::Io { path, message } => "I/O error at "@ + path@ + ": "@ + message@,
        }
    }

    /// What the error says.
    pub fn message(&self) -> (r: String)
        ensures
            r@ == self.text(),
    {
        match self {
            CoreError::WorkspaceAlreadyOpen(id) => {
                let mut s = "workspace `".to_owned();
                s.append(id.as_str());
                s.append("` is already open");
                s
            },
            CoreError::WorkspaceNotOpen(id) => {
                let mut s = "workspace `".to_owned();
                s.append(id.as_str());
                s.append("` is not open");
                s
            },
            CoreError::Kb(e) => {
                let mut s = "KB error: ".to_owned();
                s.append(e.message().as_str());
                s
            },
            CoreError::Io { path, message } => {
                let mut s = "I/O error at ".to_owned();
                s.append(path.as_str());
                s.append(": ");
                s.append(message.as_str());
                s
            },
        }
    }
}

/// An open workspace: its knowledge base, and what is asked of its workers.
pub struct WorkspaceHandle<K> {
    pub kb: K,
    /// What is asked of the index worker.
    pub signals: Signals,
    /// The sync worker.
    pub sync: SyncWorker,
    /// What is asked of the sync worker, in order.
    pub sync_jobs: Vec<SyncJob>,
    /// What is asked of the enrichment worker, in order.
    pub enrich_jobs: Vec<EnrichJob>,
    pub enrich_cfg: EnrichmentConfig,
}

impl<K: Kb> WorkspaceHandle<K> {
    pub open spec fn wf(&self) -> bool {
        self.kb.wf() && self.signals.wf() && self.sync.wf()
    }
}

/// The engine.
pub struct Engine<P: KbProvider> {
    pub provider: P,
    pub triggers: SyncTriggers,
    /// The open workspaces, by id.
    pub open: SortedMap<WorkspaceHandle<P::Backend>>,
}

/// Copies sync configurations.
pub fn copy_cfgs(v: &Vec<SyncFolderConfig>) -> (r: Vec<SyncFolderConfig>)
    ensures
        r@ == v@,
{
    let mut out: Vec<SyncFolderConfig> = Vec::new();
    let mut i: usize = 0;
    while i < v.len()
        invariant
            i <= v@.len(),
            out@ == v@.take(i as int),
        decreases v.len() - i,
    {
        let ghost before = out@;
        out.push(v[i].clone());
        assert(v@.take(i + 1) =~= before.push(v@[i as int]));
        i = i + 1;
    }
    assert(v@.take(v@.len() as int) =~= v@);
    out
}

/// The state of a folder right after its sync was set.
pub open spec fn fresh_state(wid: Seq<char>, cfg: SyncFolderConfig) -> FolderState {
    FolderState {
        status: if cfg.enabled {
            Status::Syncing
        } else {
            Status::Off
        },
        ..base(wid, cfg.folder@, cfg.is_kb)
    }
}

fn new_state(wid: &str, folder: &str, is_kb: bool, enabled: bool) -> (r: SyncFolderState)
    ensures
        state_view(r) == (FolderState {
            status: if enabled {
                Status::Syncing
            } else {
                Status::Off
            },
            ..base(wid@, folder@, is_kb)
        }),
{
    SyncFolderState {
        workspace_id: wid.to_owned(),
        folder: folder.to_owned(),
        is_kb,
        status: if enabled {
            SyncStatus::Syncing
        } else {
            SyncStatus::Off
        },
        last_sync: None,
        last_error: None,
    }
}

impl<P: KbProvider> Engine<P> {
    pub open spec fn wf(&self) -> bool {
        &&& self.open.wf()
        &&& self.open.order == KeyOrder::Text
        &&& forall|k: Seq<char>|
            self.open.lookup(k) is Some ==> (#[trigger] self.open.lookup(k)).unwrap().wf()
    }

    /// The handle of an open workspace.
    pub open spec fn handle(&self, id: Seq<char>) -> Option<WorkspaceHandle<P::Backend>> {
        self.open.lookup(id)
    }

    /// Whether an engine differs from another in one workspace at most, which has a handle.
    pub open spec fn with_handle(
        &self,
        before: &Self,
        id: Seq<char>,
        h: WorkspaceHandle<P::Backend>,
    ) -> bool {
        &&& self.provider == before.provider
        &&& self.triggers == before.triggers
        &&& self.handle(id) == Some(h)
        &&& forall|x: Seq<char>| x != id ==> #[trigger] self.handle(x) == before.handle(x)
    }

    /// Whether two engines are alike.
    pub open spec fn alike(&self, before: &Self) -> bool {
        &&& self.provider == before.provider
        &&& self.triggers == before.triggers
        &&& forall|x: Seq<char>| #[trigger] self.handle(x) == before.handle(x)
    }

    /// An engine over a provider of knowledge bases, with the default triggers.
    pub fn new(provider: P) -> (r: Self)
        ensures
            r.wf(),
            r.provider == provider,
            r.triggers == (SyncTriggers {
                periodic: Some(60_000),
                on_change_debounce: Some(10_000),
                on_open: true,
            }),
            forall|x: Seq<char>| #[trigger] r.handle(x) is None,
    {
        Self::with_triggers(provider, SyncTriggers::default())
    }

    /// An engine with its own triggers.
    pub fn with_triggers(provider: P, triggers: SyncTriggers) -> (r: Self)
        ensures
            r.wf(),
            r.provider == provider,
            r.triggers == triggers,
            forall|x: Seq<char>| #[trigger] r.handle(x) is None,
    {
        Engine { provider, triggers, open: SortedMap::new(KeyOrder::Text) }
    }

    /// Name of the provider of knowledge bases.
    pub fn kb_name(&self) -> (r: &str)
        ensures
            call_ensures(<P as KbProvider>::name, (&self.provider,), r),
    {
        self.provider.name()
    }

    /// Whether a workspace is open.
    pub fn is_open(&self, workspace_id: &str) -> (r: bool)
        requires
            self.wf(),
        ensures
            r == self.handle(workspace_id@) is Some,
    {
        self.open.contains_key(workspace_id)
    }

    /// Opens a workspace: its knowledge base, with nothing asked of its workers. One that is
    /// open already is refused.
    pub fn open_workspace(&mut self, workspace: &Workspace, canonical: SortedMap<String>) -> (r:
        Result<(), CoreError>)
        requires
            old(self).wf(),
            canonical.wf(),
            canonical.order == KeyOrder::Text,
        ensures
            final(self).wf(),
            ({
                let id = workspace.id.0@;
                match r {
                    Ok(()) => {
                        &&& old(self).handle(id) is None
                        &&& final(self).handle(id) matches Some(h)
                            && opened_with(h, *workspace, canonical, old(self).triggers)
                            && final(self).with_handle(old(self), id, h) && provider_gave(
                            old(self).provider,
                            workspace.kb_dir@,
                            Ok(h.kb),
                        )
                    },
                    Err(CoreError::WorkspaceAlreadyOpen(x)) => x@ == id && old(self).handle(id)
                        is Some && final(self).alike(old(self)),
                    Err(CoreError::Kb(e)) => old(self).handle(id) is None && final(self).alike(
                        old(self),
                    ) && provider_gave(old(self).provider, workspace.kb_dir@, Err(e)),
                    Err(_) => false,
                }
            }),
    {
        let id = workspace.id.as_str();
        if self.open.contains_key(id) {
            return Err(CoreError::WorkspaceAlreadyOpen(id.to_owned()));
        }
        let dir = workspace.kb_dir.as_str();
        let opened = self.provider.open(dir);
        assert(provider_gave(self.provider, dir@, opened));
        match opened {
            Err(e) => Err(CoreError::Kb(e)),
            Ok(kb) => {
                let sync = SyncWorker::new(
                    id,
                    workspace.kb_dir.as_str(),
                    canonical,
                    copy_cfgs(&workspace.sync),
                    self.triggers,
                );
                let h = WorkspaceHandle {
                    kb,
                    signals: Signals::new(),
                    sync,
                    sync_jobs: Vec::new(),
                    enrich_jobs: Vec::new(),
                    enrich_cfg: workspace.enrichment.clone(),
                };
                self.open.insert(id.to_owned(), h);
                Ok(())
            },
        }
    }

    /// Closes a workspace. Gives whether it was open.
    pub fn close_workspace(&mut self, workspace_id: &str) -> (r: bool)
        requires
            old(self).wf(),
        ensures
            final(self).wf(),
            final(self).provider == old(self).provider,
            final(self).triggers == old(self).triggers,
            r == old(self).handle(workspace_id@) is Some,
            forall|x: Seq<char>|
                #[trigger] final(self).handle(x) == if x == workspace_id@ {
                    None
                } else {
                    old(self).handle(x)
                },
    {
        self.open.remove(workspace_id).is_some()
    }

    /// Closes every workspace.
    pub fn shutdown(&mut self)
        requires
            old(self).wf(),
        ensures
            final(self).wf(),
            final(self).provider == old(self).provider,
            final(self).triggers == old(self).triggers,
            forall|x: Seq<char>| #[trigger] final(self).handle(x) is None,
    {
        self.open = SortedMap::new(KeyOrder::Text);
    }

    // ----------------------------------------------------------------- knowledge base

    /// Searches the knowledge base of a workspace; nothing is found where it is not open.
    pub fn search(&self, workspace_id: &str, query: &str, limit: usize) -> (r: Result<
        Vec<SearchHit>,
        KbError,
    >)
        requires
            self.wf(),
        ensures
            match self.handle(workspace_id@) {
                Some(h) => call_ensures(
                    <P::Backend as Kb>::search,
                    (&h.kb, query, limit),
                    r,
                ),
                None => r matches Ok(v) && v@.len() == 0,
            },
    {
        match self.open.get(workspace_id) {
            Some(h) => h.kb.search(query, limit),
            None => Ok(Vec::new()),
        }
    }

    /// How many documents a workspace has indexed; none where it is not open.
    pub fn doc_count(&self, workspace_id: &str) -> (r: usize)
        requires
            self.wf(),
        ensures
            match self.handle(workspace_id@) {
                Some(h) => call_ensures(<P::Backend as Kb>::doc_count, (&h.kb,), r),
                None => r == 0,
            },
    {
        match self.open.get(workspace_id) {
            Some(h) => h.kb.doc_count(),
            None => 0,
        }
    }

    /// The source paths of a workspace's documents; none where it is not open.
    pub fn source_paths(&self, workspace_id: &str) -> (r: Vec<String>)
        requires
            self.wf(),
        ensures
            match self.handle(workspace_id@) {
                Some(h) => call_ensures(<P::Backend as Kb>::source_paths, (&h.kb,), r),
                None => r@.len() == 0,
            },
    {
        match self.open.get(workspace_id) {
            Some(h) => h.kb.source_paths(),
            None => Vec::new(),
        }
    }

    /// The catalog of a workspace's documents; empty where it is not open.
    pub fn list_documents(&self, workspace_id: &str) -> (r: Vec<DocSummary>)
        requires
            self.wf(),
        ensures
            match self.handle(workspace_id@) {
                Some(h) => call_ensures(<P::Backend as Kb>::list_documents, (&h.kb,), r),
                None => r@.len() == 0,
            },
    {
        match self.open.get(workspace_id) {
            Some(h) => h.kb.list_documents(),
            None => Vec::new(),
        }
    }

    /// The tags of a workspace's documents with their numbers; none where it is not open.
    pub fn tag_counts(&self, workspace_id: &str) -> (r: Vec<TagCount>)
        requires
            self.wf(),
        ensures
            match self.handle(workspace_id@) {
                Some(h) => call_ensures(<P::Backend as Kb>::tag_counts, (&h.kb,), r),
                None => r@.len() == 0,
            },
    {
        match self.open.get(workspace_id) {
            Some(h) => h.kb.tag_counts(),
            None => Vec::new(),
        }
    }

    /// The indexed markdown of a source document; `None` where the workspace is not open, or
    /// the document not indexed.
    pub fn read_indexed_document(&self, workspace_id: &str, source_path: &str) -> (r: Option<
        String,
    >)
        requires
            self.wf(),
        ensures
            match self.handle(workspace_id@) {
                Some(h) => call_ensures(
                    <P::Backend as Kb>::read_indexed,
                    (&h.kb, source_path),
                    r,
                ),
                None => r is None,
            },
    {
        match self.open.get(workspace_id) {
            Some(h) => h.kb.read_indexed(source_path),
            None => None,
        }
    }
}

/// Whether a provider can answer so when a knowledge base is opened at a directory.
pub open spec fn provider_gave<P: KbProvider>(
    provider: P,
    dir: Seq<char>,
    answer: Result<P::Backend, KbError>,
) -> bool {
    exists|s: &str|
        s@ == dir && #[trigger] call_ensures(<P as KbProvider>::open, (&provider, s), answer)
}

/// Whether a handle is that of a workspace that has just been opened.
pub open spec fn opened_with<K: Kb>(
    h: WorkspaceHandle<K>,
    w: Workspace,
    canonical: SortedMap<String>,
    triggers: SyncTriggers,
) -> bool {
    &&& h.kb.wf()
    &&& !h.signals.rebuild && !h.signals.rescan && !h.signals.reconcile
    &&& h.signals.removals@.len() == 0
    &&& h.signals.ingestion.depth == 0 && h.signals.ingestion.pending.entries@.len() == 0
    &&& h.sync.wid@ == w.id.0@ && h.sync.kb_dir@ == w.kb_dir@
    &&& h.sync.canonical == canonical
    &&& h.sync.cfgs@ == w.sync@
    &&& h.sync.triggers == triggers
    &&& h.sync@.state == Map::<Seq<char>, FolderState>::empty()
    &&& h.sync_jobs@.len() == 0 && h.enrich_jobs@.len() == 0
    &&& h.enrich_cfg == w.enrichment
}

// ------------------------------------------------------------- what is asked of workers

/// A folder's sync set: its configuration and state, and what is asked of the sync worker
/// for it.
pub open spec fn sync_was_set<K: Kb>(
    before: WorkspaceHandle<K>,
    after: WorkspaceHandle<K>,
    wid: Seq<char>,
    cfg: SyncFolderConfig,
) -> bool {
    &&& after.kb == before.kb && after.signals == before.signals
    &&& after.enrich_jobs == before.enrich_jobs && after.enrich_cfg == before.enrich_cfg
    &&& after.sync.cfgs@ == with_sync(before.sync.cfgs@, cfg)
    &&& after.sync@ == (crate::autosync::Board {
        cfgs: with_sync(before.sync.cfgs@, cfg),
        state: if cfg.enabled {
            before.sync@.state.insert(cfg.folder@, fresh_state(wid, cfg))
        } else {
            before.sync@.state.remove(cfg.folder@)
        },
        ..before.sync@
    })
    &&& asked_view(after.sync_jobs@) == if cfg.enabled {
        asked_view(before.sync_jobs@).push(Asked::ReloadConfigs).push(
            Asked::SyncNow(cfg.folder@),
        )
    } else {
        asked_view(before.sync_jobs@).push(Asked::ReloadConfigs)
    }
}

/// What is asked of a sync worker, as a value.
pub enum Asked {
    SyncNow(Seq<char>),
    Resolve(Seq<char>, SyncResolution),
    Touched(Seq<char>),
    ReloadConfigs,
}

pub open spec fn job_view(j: SyncJob) -> Asked {
    match j {
        SyncJob::SyncNow(f) => Asked::SyncNow(f@),
        SyncJob::Resolve(f, how) => Asked::Resolve(f@, how),
        SyncJob::Touched(f) => Asked::Touched(f@),
        SyncJob::ReloadConfigs => Asked::ReloadConfigs,
    }
}

pub open spec fn asked_view(v: Seq<SyncJob>) -> Seq<Asked> {
    v.map_values(|j: SyncJob| job_view(j))
}

/// Whether an enrichment job is that of a document.
pub open spec fn is_doc_job(j: EnrichJob, concept_id: Seq<char>, path: Seq<char>) -> bool {
    j matches EnrichJob::Doc { concept_id: c, path: p } && c@ == concept_id && p@ == path
}

impl<P: KbProvider> Engine<P> {
    fn take(&mut self, id: &str) -> (r: Option<WorkspaceHandle<P::Backend>>)
        requires
            old(self).wf(),
        ensures
            final(self).wf(),
            r == old(self).handle(id@),
            r is None ==> final(self).alike(old(self)),
            r matches Some(h) ==> h.wf(),
            final(self).provider == old(self).provider,
            final(self).triggers == old(self).triggers,
            forall|x: Seq<char>|
                #[trigger] final(self).handle(x) == if x == id@ {
                    None
                } else {
                    old(self).handle(x)
                },
    {
        self.open.remove(id)
    }

    fn put(&mut self, id: &str, h: WorkspaceHandle<P::Backend>)
        requires
            old(self).wf(),
            h.wf(),
        ensures
            final(self).wf(),
            final(self).with_handle(old(self), id@, h),
    {
        self.open.insert(id.to_owned(), h);
    }

    /// Asks for a scan of an open workspace.
    pub fn rescan(&mut self, workspace_id: &str)
        requires
            old(self).wf(),
        ensures
            final(self).wf(),
            match old(self).handle(workspace_id@) {
                Some(h) => final(self).with_handle(
                    old(self),
                    workspace_id@,
                    WorkspaceHandle { signals: Signals { rescan: true, ..h.signals }, ..h },
                ),
                None => final(self).alike(old(self)),
            },
    {
        if let Some(h) = self.take(workspace_id) {
            let mut h = h;
            h.signals.rescan = true;
            self.put(workspace_id, h);
        }
    }

    /// Asks for a reconciliation of an open workspace.
    pub fn reconcile_index(&mut self, workspace_id: &str)
        requires
            old(self).wf(),
        ensures
            final(self).wf(),
            match old(self).handle(workspace_id@) {
                Some(h) => final(self).with_handle(
                    old(self),
                    workspace_id@,
                    WorkspaceHandle { signals: Signals { reconcile: true, ..h.signals }, ..h },
                ),
                None => final(self).alike(old(self)),
            },
    {
        if let Some(h) = self.take(workspace_id) {
            let mut h = h;
            h.signals.reconcile = true;
            self.put(workspace_id, h);
        }
    }

    /// Asks for the index of an open workspace to be built anew.
    pub fn rebuild_index(&mut self, workspace_id: &str)
        requires
            old(self).wf(),
        ensures
            final(self).wf(),
            match old(self).handle(workspace_id@) {
                Some(h) => final(self).with_handle(
                    old(self),
                    workspace_id@,
                    WorkspaceHandle { signals: Signals { rebuild: true, ..h.signals }, ..h },
                ),
                None => final(self).alike(old(self)),
            },
    {
        if let Some(h) = self.take(workspace_id) {
            let mut h = h;
            h.signals.rebuild = true;
            self.put(workspace_id, h);
        }
    }

    /// Asks for a document to be taken out of the index of an open workspace.
    pub fn remove_document(&mut self, workspace_id: &str, source_path: String)
        requires
            old(self).wf(),
        ensures
            final(self).wf(),
            match old(self).handle(workspace_id@) {
                Some(h) => final(self).handle(workspace_id@) matches Some(n)
                    && final(self).with_handle(old(self), workspace_id@, n)
                    && n.signals.removals@ == h.signals.removals@.push(source_path) && n == (
                WorkspaceHandle {
                    signals: Signals { removals: n.signals.removals, ..h.signals },
                    ..h
                }),
                None => final(self).alike(old(self)),
            },
    {
        if let Some(h) = self.take(workspace_id) {
            let mut h = h;
            h.signals.removals.push(source_path);
            self.put(workspace_id, h);
        }
    }

    /// Pauses the ingestion of an open workspace. Pauses nest: each needs its own resumption.
    pub fn pause_ingestion(&mut self, workspace_id: &str)
        requires
            old(self).wf(),
        ensures
            final(self).wf(),
            match old(self).handle(workspace_id@) {
                Some(h) => final(self).with_handle(
                    old(self),
                    workspace_id@,
                    at_depth(h, paused_once(h.signals.ingestion.depth)),
                ),
                None => final(self).alike(old(self)),
            },
    {
        if let Some(h) = self.take(workspace_id) {
            let mut h = h;
            let depth: usize = h.signals.ingestion.depth;
            h.signals.ingestion.depth = if depth < usize::MAX {
                depth + 1
            } else {
                0
            };
            self.put(workspace_id, h);
        }
    }

    /// Takes one pause of an open workspace back; without a pause this does nothing.
    pub fn resume_ingestion(&mut self, workspace_id: &str)
        requires
            old(self).wf(),
        ensures
            final(self).wf(),
            match old(self).handle(workspace_id@) {
                Some(h) => final(self).with_handle(
                    old(self),
                    workspace_id@,
                    at_depth(h, resumed_once(h.signals.ingestion.depth)),
                ),
                None => final(self).alike(old(self)),
            },
    {
        if let Some(h) = self.take(workspace_id) {
            let mut h = h;
            let depth: usize = h.signals.ingestion.depth;
            h.signals.ingestion.depth = if depth > 0 {
                depth - 1
            } else {
                0
            };
            self.put(workspace_id, h);
        }
    }

    /// How many changes wait behind a pause, and whether there is one.
    pub fn ingestion_backlog(&self, workspace_id: &str) -> (r: (usize, bool))
        requires
            self.wf(),
        ensures
            match self.handle(workspace_id@) {
                Some(h) => r.0 == h.signals.ingestion.pending.entries@.len() && r.1 == (
                h.signals.ingestion.depth > 0),
                None => r == (0usize, false),
            },
    {
        match self.open.get(workspace_id) {
            Some(h) => (h.signals.ingestion.pending.len(), h.signals.ingestion.depth > 0),
            None => (0, false),
        }
    }

    /// Sets the sync of one folder of an open workspace, and has it synced at once where it
    /// is enabled. Gives the folder's state.
    pub fn set_folder_sync(&mut self, workspace_id: &str, cfg: SyncFolderConfig) -> (r: Result<
        SyncFolderState,
        CoreError,
    >)
        requires
            old(self).wf(),
        ensures
            final(self).wf(),
            match old(self).handle(workspace_id@) {
                Some(h) => {
                    &&& r matches Ok(s) && state_view(s) == fresh_state(workspace_id@, cfg)
                    &&& final(self).handle(workspace_id@) matches Some(n)
                        && final(self).with_handle(old(self), workspace_id@, n) && sync_was_set(
                        h,
                        n,
                        workspace_id@,
                        cfg,
                    )
                },
                None => final(self).alike(old(self)) && (r matches Err(
                    CoreError::WorkspaceNotOpen(x),
                ) && x@ == workspace_id@),
            },
    {
        match self.take(workspace_id) {
            None => Err(CoreError::WorkspaceNotOpen(workspace_id.to_owned())),
            Some(h) => {
                let mut h = h;
                let ghost before = h;
                let folder = cfg.folder.clone();
                let is_kb = cfg.is_kb;
                let enabled = cfg.enabled;
                let mut cfgs = remove_folder(&h.sync.cfgs, folder.as_str());
                if enabled {
                    cfgs.push(cfg);
                }
                h.sync.cfgs = cfgs;
                let state = new_state(workspace_id, folder.as_str(), is_kb, enabled);
                h.sync_jobs.push(SyncJob::ReloadConfigs);
                assert(asked_view(h.sync_jobs@) =~= asked_view(before.sync_jobs@).push(
                    Asked::ReloadConfigs,
                ));
                if enabled {
                    h.sync.state.insert(
                        folder.clone(),
                        new_state(workspace_id, folder.as_str(), is_kb, enabled),
                    );
                    h.sync_jobs.push(SyncJob::SyncNow(folder));
                    proof {
                        assert(asked_view(h.sync_jobs@) =~= asked_view(before.sync_jobs@).push(
                            Asked::ReloadConfigs,
                        ).push(Asked::SyncNow(folder@)));
                        assert(h.sync@.state =~= before.sync@.state.insert(
                            cfg.folder@,
                            fresh_state(workspace_id@, cfg),
                        ));
                    }
                } else {
                    let gone = h.sync.state.remove(folder.as_str());
                    assert(h.sync@.state =~= before.sync@.state.remove(cfg.folder@));
                }
                self.put(workspace_id, h);
                Ok(state)
            },
        }
    }

    /// The sync states of a workspace's folders, in order; none where it is not open.
    pub fn sync_states(&self, workspace_id: &str) -> (r: Vec<SyncFolderState>)
        requires
            self.wf(),
        ensures
            match self.handle(workspace_id@) {
                Some(h) => crate::events::states_view(r@) == crate::autosync::listed(
                    h.sync.state,
                ),
                None => r@.len() == 0,
            },
    {
        match self.open.get(workspace_id) {
            Some(h) => crate::autosync::list_states(&h.sync.state),
            None => Vec::new(),
        }
    }

    /// Asks for one folder of an open workspace to be synced at once.
    pub fn sync_now(&mut self, workspace_id: &str, folder: &str) -> (r: Result<(), CoreError>)
        requires
            old(self).wf(),
        ensures
            final(self).wf(),
            final(self).asked_sync(old(self), workspace_id@, Asked::SyncNow(folder@), r),
    {
        self.ask_sync(workspace_id, SyncJob::SyncNow(folder.to_owned()))
    }

    /// Asks for a paused conflict of one folder of an open workspace to be resolved.
    pub fn resolve_sync_conflict(
        &mut self,
        workspace_id: &str,
        folder: &str,
        how: SyncResolution,
    ) -> (r: Result<(), CoreError>)
        requires
            old(self).wf(),
        ensures
            final(self).wf(),
            final(self).asked_sync(old(self), workspace_id@, Asked::Resolve(folder@, how), r),
    {
        self.ask_sync(workspace_id, SyncJob::Resolve(folder.to_owned(), how))
    }

    /// Whether a job was put to the sync worker of a workspace, last of all, or refused
    /// because the workspace is not open.
    pub open spec fn asked_sync(
        &self,
        before: &Self,
        id: Seq<char>,
        job: Asked,
        r: Result<(), CoreError>,
    ) -> bool {
        match before.handle(id) {
            Some(h) => r is Ok && (self.handle(id) matches Some(n) && self.with_handle(
                before,
                id,
                n,
            ) && asked_view(n.sync_jobs@) == asked_view(h.sync_jobs@).push(job) && n == (
            WorkspaceHandle { sync_jobs: n.sync_jobs, ..h })),
            None => self.alike(before) && (r matches Err(CoreError::WorkspaceNotOpen(x)) && x@
                == id),
        }
    }

    fn ask_sync(&mut self, workspace_id: &str, job: SyncJob) -> (r: Result<(), CoreError>)
        requires
            old(self).wf(),
        ensures
            final(self).wf(),
            final(self).asked_sync(old(self), workspace_id@, job_view(job), r),
    {
        match self.take(workspace_id) {
            None => Err(CoreError::WorkspaceNotOpen(workspace_id.to_owned())),
            Some(h) => {
                let mut h = h;
                let ghost before = h;
                h.sync_jobs.push(job);
                assert(asked_view(h.sync_jobs@) =~= asked_view(before.sync_jobs@).push(
                    job_view(job),
                ));
                self.put(workspace_id, h);
                Ok(())
            },
        }
    }

    /// Whether a job was put to the enrichment worker of a workspace, last of all, or refused
    /// because the workspace is not open.
    pub open spec fn asked_enrich(
        &self,
        before: &Self,
        id: Seq<char>,
        job: EnrichJob,
        r: Result<(), CoreError>,
    ) -> bool {
        match before.handle(id) {
            Some(h) => r is Ok && (self.handle(id) matches Some(n) && self.with_handle(
                before,
                id,
                n,
            ) && n.enrich_jobs@ == h.enrich_jobs@.push(job) && n == (WorkspaceHandle {
                enrich_jobs: n.enrich_jobs,
                ..h
            })),
            None => self.alike(before) && (r matches Err(CoreError::WorkspaceNotOpen(x)) && x@
                == id),
        }
    }

    fn ask_enrich(&mut self, workspace_id: &str, job: EnrichJob) -> (r: Result<(), CoreError>)
        requires
            old(self).wf(),
        ensures
            final(self).wf(),
            final(self).asked_enrich(old(self), workspace_id@, job, r),
    {
        match self.take(workspace_id) {
            None => Err(CoreError::WorkspaceNotOpen(workspace_id.to_owned())),
            Some(h) => {
                let mut h = h;
                h.enrich_jobs.push(job);
                self.put(workspace_id, h);
                Ok(())
            },
        }
    }

    /// Asks for one document of an open workspace to be enriched.
    pub fn enrich_document(&mut self, workspace_id: &str, concept_id: &str, path: &str) -> (r:
        Result<(), CoreError>)
        requires
            old(self).wf(),
        ensures
            final(self).wf(),
            exists|job: EnrichJob|
                is_doc_job(job, concept_id@, path@) && #[trigger] final(self).asked_enrich(
                    old(self),
                    workspace_id@,
                    job,
                    r,
                ),
    {
        let job = EnrichJob::Doc { concept_id: concept_id.to_owned(), path: path.to_owned() };
        let ghost asked = job;
        let r = self.ask_enrich(workspace_id, job);
        assert(is_doc_job(asked, concept_id@, path@));
        r
    }

    /// Asks for every document of an open workspace to be enriched.
    pub fn enrich_workspace(&mut self, workspace_id: &str) -> (r: Result<(), CoreError>)
        requires
            old(self).wf(),
        ensures
            final(self).wf(),
            final(self).asked_enrich(old(self), workspace_id@, EnrichJob::All, r),
    {
        self.ask_enrich(workspace_id, EnrichJob::All)
    }

    /// Sets the enrichment configuration of an open workspace.
    pub fn set_enrichment_config(&mut self, workspace_id: &str, config: EnrichmentConfig) -> (r:
        Result<(), CoreError>)
        requires
            old(self).wf(),
        ensures
            final(self).wf(),
            match old(self).handle(workspace_id@) {
                Some(h) => r is Ok && final(self).with_handle(
                    old(self),
                    workspace_id@,
                    WorkspaceHandle { enrich_cfg: config, ..h },
                ),
                None => final(self).alike(old(self)) && (r matches Err(
                    CoreError::WorkspaceNotOpen(x),
                ) && x@ == workspace_id@),
            },
    {
        match self.take(workspace_id) {
            None => Err(CoreError::WorkspaceNotOpen(workspace_id.to_owned())),
            Some(h) => {
                let mut h = h;
                h.enrich_cfg = config;
                self.put(workspace_id, h);
                Ok(())
            },
        }
    }
}

/// A handle with another number of pauses.
pub open spec fn at_depth<K>(h: WorkspaceHandle<K>, depth: usize) -> WorkspaceHandle<K> {
    WorkspaceHandle {
        signals: Signals { ingestion: Ingestion { depth, ..h.signals.ingestion }, ..h.signals },
        ..h
    }
}

/// One pause more; the number wraps round at its end.
pub open spec fn paused_once(depth: usize) -> usize {
    if depth < usize::MAX {
        (depth + 1) as usize
    } else {
        0
    }
}

/// One pause less, if there is one.
pub open spec fn resumed_once(depth: usize) -> usize {
    if depth > 0 {
        (depth - 1) as usize
    } else {
        0
    }
}

// -------------------------------------------------------------------------- laws

/// The number of pauses after some more of them.
pub open spec fn paused_times(depth: usize, n: nat) -> usize
    decreases n,
{
    if n == 0 {
        depth
    } else {
        paused_once(paused_times(depth, (n - 1) as nat))
    }
}

/// The number of pauses after some were taken back.
pub open spec fn resumed_times(depth: usize, n: nat) -> usize
    decreases n,
{
    if n == 0 {
        depth
    } else {
        resumed_once(resumed_times(depth, (n - 1) as nat))
    }
}

/// Pauses nest: after some pauses, ingestion is paused until as many were taken back, and
/// then stands as before.
pub proof fn pauses_nest(depth: usize, n: nat, m: nat)
    requires
        depth + n <= usize::MAX,
        m <= n,
    ensures
        paused_times(depth, n) == depth + n,
        resumed_times(paused_times(depth, n), m) == depth + n - m,
    decreases n, m,
{
    if n > 0 && m == 0 {
        pauses_nest(depth, (n - 1) as nat, 0);
    } else if m > 0 {
        pauses_nest(depth, n, (m - 1) as nat);
    }
}

/// Resuming without a pause does nothing, however often.
pub proof fn resuming_needs_a_pause(n: nat)
    ensures
        resumed_times(0, n) == 0,
    decreases n,
{
    if n > 0 {
        resuming_needs_a_pause((n - 1) as nat);
    }
}

} // verus!
