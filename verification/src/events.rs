//! The events of the engine, as values.

use crate::ipc::{
    EngineChangeKind, EngineEvent, EnrichmentDelta, InternalErrorDraft, InternalErrorSeverity,
    RepoInfo, SyncFolderState, SyncStatus,
};
use crate::text::texts;
use vstd::prelude::*;

verus! {

/// The text of an optional string.
pub open spec fn opt_text(s: Option<String>) -> Option<Seq<char>> {
    match s {
        Some(s) => Some(s@),
        None => None,
    }
}

/// A repository, as a value.
pub struct Repo {
    pub name: Seq<char>,
    pub branch: Option<Seq<char>>,
    pub work_dir: Seq<char>,
    pub linked: bool,
}

pub open spec fn repo_view(r: RepoInfo) -> Repo {
    Repo { name: r.name@, branch: opt_text(r.branch), work_dir: r.work_dir@, linked: r.linked }
}

pub open spec fn repos_view(v: Seq<RepoInfo>) -> Seq<Repo> {
    v.map_values(|r: RepoInfo| repo_view(r))
}

/// A folder's sync status, as a value.
pub enum Status {
    Off,
    Syncing,
    Synced,
    Error(Seq<char>),
    Conflict(Seq<Seq<char>>),
}

pub open spec fn status_view(s: SyncStatus) -> Status {
    match s {
        SyncStatus::Off => Status::Off,
        SyncStatus::Syncing => Status::Syncing,
        SyncStatus::Synced => Status::Synced,
        SyncStatus::Error { reason } => Status::Error(reason@),
        SyncStatus::Conflict { paths } => Status::Conflict(texts(paths@)),
    }
}

/// A folder's sync state, as a value.
pub struct FolderState {
    pub workspace_id: Seq<char>,
    pub folder: Seq<char>,
    pub is_kb: bool,
    pub status: Status,
    pub last_sync: Option<Seq<char>>,
    pub last_error: Option<Seq<char>>,
}

pub open spec fn state_view(s: SyncFolderState) -> FolderState {
    FolderState {
        workspace_id: s.workspace_id@,
        folder: s.folder@,
        is_kb: s.is_kb,
        status: status_view(s.status),
        last_sync: opt_text(s.last_sync),
        last_error: opt_text(s.last_error),
    }
}

pub open spec fn states_view(v: Seq<SyncFolderState>) -> Seq<FolderState> {
    v.map_values(|s: SyncFolderState| state_view(s))
}

/// An internal failure, as a value.
pub struct Draft {
    pub severity: InternalErrorSeverity,
    pub source: Seq<char>,
    pub summary: Seq<char>,
    pub detail: Option<Seq<char>>,
    pub workspace_id: Option<Seq<char>>,
}

pub open spec fn draft_view(d: InternalErrorDraft) -> Draft {
    Draft {
        severity: d.severity,
        source: d.source@,
        summary: d.summary@,
        detail: opt_text(d.detail),
        workspace_id: opt_text(d.workspace_id),
    }
}

/// What an enrichment added, as a value: labels and headings.
pub open spec fn delta_view(d: EnrichmentDelta) -> (Seq<Seq<char>>, Seq<Seq<char>>) {
    (texts(d.labels_added@), texts(d.content_added@))
}

/// An event of the engine, as a value.
pub enum Event {
    WorkspaceOpening { workspace_id: Seq<char>, name: Seq<char> },
    ReposDiscovered { workspace_id: Seq<char>, repos: Seq<Repo> },
    ScanStarted { workspace_id: Seq<char>, total: u32 },
    ScanProgress { workspace_id: Seq<char>, done: u32, total: u32, path: Seq<char> },
    DocIndexed {
        workspace_id: Seq<char>,
        concept_id: Seq<char>,
        okf_id: Seq<char>,
        path: Seq<char>,
        title: Seq<char>,
        labels: Seq<Seq<char>>,
    },
    DocRemoved { workspace_id: Seq<char>, path: Seq<char> },
    ScanCompleted { workspace_id: Seq<char>, indexed: u32, removed: u32 },
    FileChanged { workspace_id: Seq<char>, path: Seq<char>, kind: EngineChangeKind },
    Warning { workspace_id: Seq<char>, message: Seq<char> },
    SyncFolders { workspace_id: Seq<char>, states: Seq<FolderState> },
    SyncStarted { workspace_id: Seq<char>, folder: Seq<char> },
    SyncProgress { workspace_id: Seq<char>, folder: Seq<char>, phase: Seq<char> },
    SyncSucceeded { workspace_id: Seq<char>, folder: Seq<char>, pulled: bool, pushed: bool },
    SyncFailed { workspace_id: Seq<char>, folder: Seq<char>, reason: Seq<char> },
    SyncConflict { workspace_id: Seq<char>, folder: Seq<char>, paths: Seq<Seq<char>> },
    EnrichStarted { workspace_id: Seq<char>, path: Seq<char> },
    EnrichSucceeded {
        workspace_id: Seq<char>,
        path: Seq<char>,
        delta: (Seq<Seq<char>>, Seq<Seq<char>>),
    },
    EnrichFailed { workspace_id: Seq<char>, path: Seq<char>, reason: Seq<char> },
    EnrichAllStarted { workspace_id: Seq<char> },
    EnrichAllFinished { workspace_id: Seq<char>, enriched: u32 },
    InternalError { error: Draft },
}

impl EngineEvent {
    pub open spec fn view(&self) -> Event {
        match self {
            EngineEvent::WorkspaceOpening { workspace_id, name } => Event::WorkspaceOpening {
                workspace_id: workspace_id@,
                name: name@,
            },
            EngineEvent::ReposDiscovered { workspace_id, repos } => Event::ReposDiscovered {
                workspace_id: workspace_id@,
                repos: repos_view(repos@),
            },
            EngineEvent::ScanStarted { workspace_id, total } => Event::ScanStarted {
                workspace_id: workspace_id@,
                total: *total,
            },
            EngineEvent::ScanProgress { workspace_id, done, total, path } => Event::ScanProgress {
                workspace_id: workspace_id@,
                done: *done,
                total: *total,
                path: path@,
            },
            EngineEvent::DocIndexed { workspace_id, concept_id, okf_id, path, title, labels } =>
                Event::DocIndexed {
                workspace_id: workspace_id@,
                concept_id: concept_id@,
                okf_id: okf_id@,
                path: path@,
                title: title@,
                labels: texts(labels@),
            },
            EngineEvent::DocRemoved { workspace_id, path } => Event::DocRemoved {
                workspace_id: workspace_id@,
                path: path@,
            },
            EngineEvent::ScanCompleted { workspace_id, indexed, removed } => Event::ScanCompleted {
                workspace_id: workspace_id@,
                indexed: *indexed,
                removed: *removed,
            },
            EngineEvent::FileChanged { workspace_id, path, kind } => Event::FileChanged {
                workspace_id: workspace_id@,
                path: path@,
                kind: *kind,
            },
            EngineEvent::Warning { workspace_id, message } => Event::Warning {
                workspace_id: workspace_id@,
                message: message@,
            },
            EngineEvent::SyncFolders { workspace_id, states } => Event::SyncFolders {
                workspace_id: workspace_id@,
                states: states_view(states@),
            },
            EngineEvent::SyncStarted { workspace_id, folder } => Event::SyncStarted {
                workspace_id: workspace_id@,
                folder: folder@,
            },
            EngineEvent::SyncProgress { workspace_id, folder, phase } => Event::SyncProgress {
                workspace_id: workspace_id@,
                folder: folder@,
                phase: phase@,
            },
            EngineEvent::SyncSucceeded { workspace_id, folder, pulled, pushed } =>
                Event::SyncSucceeded {
                workspace_id: workspace_id@,
                folder: folder@,
                pulled: *pulled,
                pushed: *pushed,
            },
            EngineEvent::SyncFailed { workspace_id, folder, reason } => Event::SyncFailed {
                workspace_id: workspace_id@,
                folder: folder@,
                reason: reason@,
            },
            EngineEvent::SyncConflict { workspace_id, folder, paths } => Event::SyncConflict {
                workspace_id: workspace_id@,
                folder: folder@,
                paths: texts(paths@),
            },
            EngineEvent::EnrichStarted { workspace_id, path } => Event::EnrichStarted {
                workspace_id: workspace_id@,
                path: path@,
            },
            EngineEvent::EnrichSucceeded { workspace_id, path, delta } => Event::EnrichSucceeded {
                workspace_id: workspace_id@,
                path: path@,
                delta: delta_view(*delta),
            },
            EngineEvent::EnrichFailed { workspace_id, path, reason } => Event::EnrichFailed {
                workspace_id: workspace_id@,
                path: path@,
                reason: reason@,
            },
            EngineEvent::EnrichAllStarted { workspace_id } => Event::EnrichAllStarted {
                workspace_id: workspace_id@,
            },
            EngineEvent::EnrichAllFinished { workspace_id, enriched } => Event::EnrichAllFinished {
                workspace_id: workspace_id@,
                enriched: *enriched,
            },
            EngineEvent::InternalError { error } => Event::InternalError {
                error: draft_view(*error),
            },
        }
    }
}

/// Some events, as values.
pub open spec fn said(v: Seq<EngineEvent>) -> Seq<Event> {
    v.map_values(|e: EngineEvent| e.view())
}

/// A warning of a workspace.
pub open spec fn warning(wid: Seq<char>, message: Seq<char>) -> Event {
    Event::Warning { workspace_id: wid, message }
}

/// A warning of a workspace.
pub fn warn(workspace_id: &str, message: String) -> (r: EngineEvent)
    ensures
        r@ == warning(workspace_id@, message@),
{
    EngineEvent::Warning { workspace_id: workspace_id.to_owned(), message }
}

/// A warning made of a heading and a message.
pub fn warn_of(workspace_id: &str, heading: &str, message: &str) -> (r: EngineEvent)
    ensures
        r@ == warning(workspace_id@, heading@ + message@),
{
    let mut s = heading.to_owned();
    s.append(message);
    warn(workspace_id, s)
}

/// The event of a worker that stopped after a panic, with the panic's message.
pub fn worker_stopped(workspace_id: &str, worker: &str, message: &str) -> (r: EngineEvent)
    ensures
        r@ == (Event::InternalError {
            error: Draft {
                severity: InternalErrorSeverity::Critical,
                source: "worker:"@ + worker@,
                summary: "The "@ + worker@ + " worker stopped after an internal panic"@,
                detail: Some(message@),
                workspace_id: Some(workspace_id@),
            },
        }),
{
    let mut source = "worker:".to_owned();
    source.append(worker);
    let mut summary = "The ".to_owned();
    summary.append(worker);
    summary.append(" worker stopped after an internal panic");
    EngineEvent::InternalError {
        error: InternalErrorDraft {
            severity: InternalErrorSeverity::Critical,
            source,
            summary,
            detail: Some(message.to_owned()),
            workspace_id: Some(workspace_id.to_owned()),
        },
    }
}

} // verus!
