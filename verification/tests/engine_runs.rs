//! The engine: opening workspaces, indexing, pausing, syncing and enriching.

use looper::applying::{apply_and_emit, begin_ingest, observed, plan_change, Counts, ScanRun};
use looper::autosync::{kb_gitignore, SyncTriggers};
use looper::engine::{CoreError, Engine};
use looper::enriching::{
    conclude_all, conclude_one, enrich_after_scan, enrich_all_now, enrich_one, start_all, start_one,
    EnrichJob,
};
use looper::enrichment::{
    EnrichAllCalls, EnrichCalls, EnrichError, EnrichedDoc, Enricher, MockEnricher,
};
use looper::events::{warn, worker_stopped};
use looper::ipc::{
    ConflictFile, EngineEvent, EnrichmentApiKeySource, EnrichmentConfig, EnrichmentDelta,
    InternalErrorSeverity, SyncDirection, SyncFolderConfig, SyncResolution, SyncStatus, SyncStrategy,
};
use looper::kb::{
    ConceptRef, DocSummary, Kb, KbCalls, KbError, MockKbProvider, SearchHit, SourceDoc,
};
use looper::lifecycle::{
    canonicalize_all, concept_id_for, containing_folder, cursor_path, discovered, removal,
    scan_config, watch_config, IndexWorker, Reaction, Received, Signals, Step, Trouble,
};
use looper::path::under;
use looper::scan::{
    fingerprint, scan_tracked_markdown, ChangeKind, FileRead, ScanEngine, Snapshot, WalkedFile,
};
use looper::sorted::{KeyOrder, SortedMap};
use looper::sync::{SyncError, SyncOutcome};
use looper::syncer::{MockSyncer, Syncer};
use looper::workspace::{Workspace, WorkspaceStore};

fn manual_triggers() -> SyncTriggers {
    SyncTriggers {
        periodic: None,
        on_change_debounce: None,
        on_open: false,
    }
}

fn sync_cfg(folder: &str) -> SyncFolderConfig {
    SyncFolderConfig {
        folder: folder.to_string(),
        is_kb: false,
        is_git_repo: true,
        enabled: true,
        strategy: SyncStrategy::Git,
        branch: "main".to_string(),
        direction: SyncDirection::PullPush,
        dolt: None,
    }
}

fn make_workspace(folders: &[&str]) -> Workspace {
    let mut store = WorkspaceStore::open(Vec::new());
    store.create(
        "Notes".to_string(),
        folders.iter().map(|f| f.to_string()).collect(),
        "/tmp/kb".to_string(),
    );
    store.workspaces.remove(0)
}

fn same_paths() -> SortedMap<String> {
    SortedMap::new(KeyOrder::Text)
}

/// A tree of files, and an engine that indexes it.
struct Session {
    engine: Engine<MockKbProvider>,
    workspace: Workspace,
    wid: String,
    files: Vec<(String, String)>,
}

impl Session {
    fn new(workspace: Workspace, files: &[(&str, &str)]) -> Self {
        let mut engine = Engine::with_triggers(MockKbProvider, manual_triggers());
        let wid = workspace.id.as_str().to_string();
        engine.open_workspace(&workspace, same_paths()).unwrap();
        Session {
            engine,
            workspace,
            wid,
            files: files
                .iter()
                .map(|(p, c)| (p.to_string(), c.to_string()))
                .collect(),
        }
    }

    fn scanner(&self) -> ScanEngine {
        let excluded = self.workspace.exclusion_paths();
        let config = scan_config(&self.workspace, &self.workspace.folders, &excluded);
        ScanEngine::open(config, Snapshot::empty())
    }

    fn content(&self, path: &str) -> Result<String, String> {
        self.files
            .iter()
            .find(|(p, _)| p == path)
            .map(|(_, c)| c.clone())
            .ok_or_else(|| "gone".to_string())
    }

    fn scan(&mut self, scan: &mut ScanEngine) -> Vec<EngineEvent> {
        let mut found = Vec::new();
        for root in &scan.config.roots {
            for (path, c) in &self.files {
                if under(path, root) {
                    found.push(WalkedFile {
                        root: root.clone(),
                        path: path.clone(),
                        fingerprint: Some(fingerprint(c.as_bytes(), c.len() as u64, Some(0))),
                    });
                }
            }
        }
        let tree = scan_tracked_markdown(&scan.config, &found);
        let changes = scan.full_scan(tree);
        let (mut run, started) = ScanRun::start(&self.wid, changes);
        let mut events = vec![started];
        loop {
            let Some(change) = run.next(false) else {
                break;
            };
            let read = self.content(&change.path);
            let handle = &mut self.engine.open.entries[0].1;
            let mut counts = Counts {
                indexed: run.counts.indexed,
                removed: run.counts.removed,
            };
            events.extend(apply_and_emit(
                &mut handle.kb,
                &self.wid,
                &self.workspace.folders,
                change,
                &read,
                &mut counts,
            ));
            let progress = run.applied(&self.wid, counts);
            events.push(progress);
        }
        events.push(run.completed(&self.wid));
        events
    }
}

#[test]
fn opens_workspace_then_discovers_scans_indexes_and_watches() {
    let mut s = Session::new(
        make_workspace(&["/tmp/notes"]),
        &[
            ("/tmp/notes/a.md", "# Alpha\nhello"),
            ("/tmp/notes/specs/b.md", "# Beta\nworld"),
        ],
    );
    let mut scan = s.scanner();
    let startup = s.scan(&mut scan);
    assert!(
        startup
            .iter()
            .any(|e| matches!(e, EngineEvent::ScanStarted { total: 2, .. })),
        "expected ScanStarted total=2, got {startup:#?}"
    );
    let indexed = startup
        .iter()
        .filter(|e| matches!(e, EngineEvent::DocIndexed { .. }))
        .count();
    assert_eq!(indexed, 2, "expected two DocIndexed, got {startup:#?}");
    assert!(startup
        .iter()
        .any(|e| matches!(e, EngineEvent::ScanCompleted { indexed: 2, .. })));

    let watch = watch_config(
        &s.workspace,
        &s.workspace.folders,
        &s.workspace.exclusion_paths(),
    );
    assert!(watch.filter.accepts("/tmp/notes/c.md"));
    assert!(watch.filter.accepts("/tmp/notes/.looperignore"));
    let change = scan
        .observe(
            "/tmp/notes/c.md",
            FileRead::Found(fingerprint(b"# Gamma\nnew", 11, Some(1))),
        )
        .unwrap();
    let (told, folder) = observed(&s.wid, &change, &s.workspace.folders);
    assert!(matches!(told, EngineEvent::FileChanged { path, .. } if path.ends_with("c.md")));
    assert_eq!(folder.as_deref(), Some("/tmp/notes"));
    let live = apply_and_emit(
        &mut s.engine.open.entries[0].1.kb,
        &s.wid,
        &s.workspace.folders,
        &change,
        &Ok("# Gamma\nnew".to_string()),
        &mut Counts::default(),
    );
    assert!(
        live.iter()
            .any(|e| matches!(e, EngineEvent::DocIndexed { path, .. } if path.ends_with("c.md"))),
        "expected a live DocIndexed for c.md, got {live:#?}"
    );
    assert_eq!(s.engine.doc_count(&s.wid), 3);
    assert_eq!(s.engine.search(&s.wid, "world", 5).unwrap().len(), 1);
    s.engine.shutdown();
    assert!(!s.engine.is_open(&s.wid));
}

#[test]
fn watched_extensions_gate_adoc_discovery_and_indexing() {
    let mut workspace = make_workspace(&["/tmp/notes"]);
    workspace.watched_extensions = vec!["md".to_string(), "adoc".to_string()];
    let mut s = Session::new(
        workspace,
        &[
            ("/tmp/notes/a.md", "# Alpha\nhello"),
            ("/tmp/notes/b.adoc", "= Beta\n\nworld"),
        ],
    );
    let mut scan = s.scanner();
    let startup = s.scan(&mut scan);
    assert!(
        startup
            .iter()
            .any(|e| matches!(e, EngineEvent::ScanStarted { total: 2, .. })),
        "expected ScanStarted total=2 (md + adoc), got {startup:#?}"
    );
    assert!(
        startup.iter().any(|e| matches!(
            e,
            EngineEvent::DocIndexed { concept_id, path, title, .. }
                if concept_id == "notes/b.adoc" && path.ends_with("b.adoc") && title == "Beta"
        )),
        "expected the .adoc to index with an extension-bearing id + doctitle title, got {startup:#?}"
    );
}

#[test]
fn rejects_double_open_of_the_same_workspace() {
    let workspace = make_workspace(&["/tmp/f"]);
    let mut engine = Engine::new(MockKbProvider);
    engine.open_workspace(&workspace, same_paths()).unwrap();
    let again = engine.open_workspace(&workspace, same_paths());
    assert!(matches!(again, Err(CoreError::WorkspaceAlreadyOpen(_))));
    assert!(engine.close_workspace(workspace.id.as_str()));
    assert!(!engine.close_workspace(workspace.id.as_str()));
    assert_eq!(engine.kb_name(), "mock");
}

#[test]
fn ingestion_pause_nests_and_resumes() {
    let workspace = make_workspace(&["/tmp/f"]);
    let id = workspace.id.as_str().to_string();
    let mut engine = Engine::new(MockKbProvider);
    engine.open_workspace(&workspace, same_paths()).unwrap();
    assert_eq!(
        engine.ingestion_backlog(&id),
        (0, false),
        "not paused initially"
    );

    engine.pause_ingestion(&id);
    engine.pause_ingestion(&id);
    assert_eq!(
        engine.ingestion_backlog(&id),
        (0, true),
        "paused at depth 2"
    );

    engine.resume_ingestion(&id);
    assert_eq!(
        engine.ingestion_backlog(&id),
        (0, true),
        "still paused at depth 1"
    );

    engine.resume_ingestion(&id);
    assert_eq!(
        engine.ingestion_backlog(&id),
        (0, false),
        "resumed at depth 0"
    );

    engine.resume_ingestion(&id);
    assert_eq!(
        engine.ingestion_backlog(&id),
        (0, false),
        "resume past zero is a no-op"
    );
}

#[test]
fn concept_id_uses_folder_name_and_relative_path() {
    let folders = vec!["/home/me/notes".to_string()];
    assert_eq!(
        concept_id_for("/home/me/notes/specs/auth.md", &folders).as_deref(),
        Some("notes/specs/auth.md")
    );
    assert_eq!(concept_id_for("/elsewhere/x.md", &folders), None);
    assert_eq!(
        containing_folder("/home/me/notes/specs/auth.md", &folders).as_deref(),
        Some("/home/me/notes")
    );
    let mut canonical = same_paths();
    canonical.insert("/a".to_string(), "/b".to_string());
    assert_eq!(
        canonicalize_all(&vec!["/a".to_string(), "/c".to_string()], &canonical),
        vec!["/b", "/c"]
    );
}

/// Does what a workspace's sync worker was asked, with a syncer of given outcomes.
fn pump(engine: &mut Engine<MockKbProvider>, mock: &mut MockSyncer, now: u64) -> Vec<EngineEvent> {
    let handle = &mut engine.open.entries[0].1;
    let mut events = Vec::new();
    for job in std::mem::take(&mut handle.sync_jobs) {
        events.extend(handle.sync.job(job, now));
        while let Some((run, started)) = handle.sync.next(now) {
            events.push(started);
            let outcome = match run.how {
                Some(how) => mock.resolve(&run.folder, &run.cfg, how),
                None => mock.sync(&run.folder, &run.cfg),
            };
            events.push(handle.sync.finish(&run, outcome, now, 1_700_000_000));
        }
    }
    events
}

#[test]
fn auto_sync_emits_events_and_tracks_state() {
    let workspace = make_workspace(&["/tmp/notes"]);
    let wid = workspace.id.as_str().to_string();
    let mut mock = MockSyncer::default();
    let mut engine = Engine::with_triggers(MockKbProvider, manual_triggers());
    engine.open_workspace(&workspace, same_paths()).unwrap();

    let state = engine
        .set_folder_sync(&wid, sync_cfg("/tmp/notes"))
        .unwrap();
    assert!(matches!(state.status, SyncStatus::Syncing));

    let seen = pump(&mut engine, &mut mock, 100);
    assert!(
        seen.iter()
            .any(|e| matches!(e, EngineEvent::SyncStarted { .. })),
        "expected SyncStarted, got {seen:#?}"
    );
    assert!(
        seen.iter()
            .any(|e| matches!(e, EngineEvent::SyncSucceeded { .. })),
        "expected SyncSucceeded, got {seen:#?}"
    );
    assert!(mock.sync_calls() >= 1);
    assert!(
        engine
            .sync_states(&wid)
            .iter()
            .any(|s| matches!(s.status, SyncStatus::Synced)),
        "expected a Synced state"
    );
    assert_eq!(
        engine.sync_states(&wid)[0].last_sync.as_deref(),
        Some("2023-11-14T22:13:20+00:00")
    );
}

#[test]
fn auto_sync_conflict_pauses_then_resolves() {
    let workspace = make_workspace(&["/tmp/notes"]);
    let wid = workspace.id.as_str().to_string();
    let mut mock = MockSyncer::default();
    mock.script_sync(SyncOutcome::Conflict {
        files: vec![ConflictFile {
            path: "a.md".to_string(),
            detail: None,
        }],
    });
    let mut engine = Engine::with_triggers(MockKbProvider, manual_triggers());
    engine.open_workspace(&workspace, same_paths()).unwrap();

    engine
        .set_folder_sync(&wid, sync_cfg("/tmp/notes"))
        .unwrap();
    let seen = pump(&mut engine, &mut mock, 100);
    assert!(
        seen.iter()
            .any(|e| matches!(e, EngineEvent::SyncConflict { .. })),
        "expected SyncConflict, got {seen:#?}"
    );
    assert!(engine.open.entries[0].1.sync.is_paused("/tmp/notes"));

    engine
        .resolve_sync_conflict(&wid, "/tmp/notes", SyncResolution::UseMine)
        .unwrap();
    let resolved = pump(&mut engine, &mut mock, 200);
    assert!(
        resolved
            .iter()
            .any(|e| matches!(e, EngineEvent::SyncSucceeded { .. })),
        "expected SyncSucceeded after resolve, got {resolved:#?}"
    );
    assert_eq!(mock.resolve_calls(), 1);
    assert!(!engine.open.entries[0].1.sync.is_paused("/tmp/notes"));
}

#[test]
fn failed_syncs_pause_until_asked() {
    let workspace = make_workspace(&["/tmp/notes"]);
    let wid = workspace.id.as_str().to_string();
    let mut engine = Engine::with_triggers(
        MockKbProvider,
        SyncTriggers {
            periodic: Some(1000),
            on_change_debounce: Some(50),
            on_open: true,
        },
    );
    engine.open_workspace(&workspace, same_paths()).unwrap();
    engine
        .set_folder_sync(&wid, sync_cfg("/tmp/notes"))
        .unwrap();
    let sync = &mut engine.open.entries[0].1.sync;
    sync.open();
    let (run, _) = sync.next(0).unwrap();
    let told = sync.finish(
        &run,
        Err(SyncError::Auth {
            folder: "/tmp/notes".to_string(),
            stderr: "no".to_string(),
        }),
        0,
        1_700_000_000,
    );
    assert!(matches!(told, EngineEvent::SyncFailed { .. }));
    assert!(sync.next(0).is_none());
    assert!(sync.is_paused("/tmp/notes"));
    sync.wake(5000);
    assert!(sync.next(5000).is_none());
    engine.sync_now(&wid, "/tmp/notes").unwrap();
    let mut mock = MockSyncer::default();
    assert!(pump(&mut engine, &mut mock, 6000)
        .iter()
        .any(|e| matches!(e, EngineEvent::SyncSucceeded { .. })));
    assert!(matches!(
        engine.sync_now("other", "/tmp/notes"),
        Err(CoreError::WorkspaceNotOpen(w)) if w == "other"
    ));
}

#[test]
fn kb_files_are_ignored_in_its_repository() {
    let first = kb_gitignore("").unwrap();
    assert!(kb_gitignore(&first).is_none());
    let kept = kb_gitignore("mine\n").unwrap();
    assert!(kept.starts_with("mine\n"));
}

// -------------------------------------------------------------------------- enriching

#[test]
fn manual_enrich_emits_started_then_succeeded() {
    let mut s = Session::new(
        make_workspace(&["/tmp/notes"]),
        &[("/tmp/notes/a.md", "# Alpha\nhi")],
    );
    let mut scan = s.scanner();
    s.scan(&mut scan);

    let mut enricher = MockEnricher::new();
    enricher.script(EnrichmentDelta {
        labels_added: vec!["tag-a".into()],
        content_added: vec!["AI Enrichment".into()],
    });
    s.engine
        .enrich_document(&s.wid, "notes/a", "/abs/notes/a.md")
        .unwrap();
    let handle = &mut s.engine.open.entries[0].1;
    assert_eq!(handle.enrich_jobs.len(), 1);
    let EnrichJob::Doc { concept_id, path } = handle.enrich_jobs.remove(0) else {
        panic!("expected a document to enrich");
    };
    let config = EnrichmentConfig {
        enabled: true,
        ..EnrichmentConfig::default()
    };
    let seen = enrich_one(
        &mut enricher,
        &mut handle.kb,
        &s.wid,
        "/tmp/kb",
        &config,
        &concept_id,
        &path,
    );

    assert!(seen.iter().any(|e| matches!(
        e,
        EngineEvent::EnrichStarted { path, .. } if path == "/abs/notes/a.md"
    )));
    let delta = seen
        .iter()
        .find_map(|e| match e {
            EngineEvent::EnrichSucceeded { path, delta, .. } if path == "/abs/notes/a.md" => {
                Some(delta.clone())
            }
            _ => None,
        })
        .expect("EnrichSucceeded event");
    assert_eq!(delta.labels_added, vec!["tag-a"]);
    let calls = enricher.calls();
    assert_eq!(calls.len(), 1);
    assert_eq!(calls[0].1, "notes/a");
}

#[test]
fn after_scan_enriches_all_when_enabled() {
    let mut workspace = make_workspace(&["/tmp/notes"]);
    workspace.enrichment = EnrichmentConfig {
        enabled: true,
        api_key_source: EnrichmentApiKeySource::Env,
        enrich_after_scan: true,
        ..Default::default()
    };
    let config = workspace.enrichment.clone();
    let mut s = Session::new(workspace, &[("/tmp/notes/a.md", "# Alpha\nhi")]);

    let mut enricher = MockEnricher::new();
    enricher.script_all(vec![EnrichedDoc {
        source_path: "/abs/notes/a.md".into(),
        delta: EnrichmentDelta {
            labels_added: vec!["auto".into()],
            content_added: vec![],
        },
    }]);
    let handle = &mut s.engine.open.entries[0].1;
    let seen = enrich_after_scan(&mut enricher, &mut handle.kb, &s.wid, "/tmp/kb", &config);
    assert!(seen.iter().any(|e| matches!(
        e,
        EngineEvent::EnrichSucceeded { path, .. } if path == "/abs/notes/a.md"
    )));
    assert_eq!(enricher.all_calls().len(), 1);

    let off = EnrichmentConfig::default();
    assert!(enrich_after_scan(&mut enricher, &mut handle.kb, &s.wid, "/tmp/kb", &off).is_empty());
    assert_eq!(enricher.all_calls().len(), 1);
    let all = enrich_all_now(&mut enricher, &mut handle.kb, &s.wid, "/tmp/kb", &config);
    assert!(matches!(
        all.last(),
        Some(EngineEvent::EnrichAllFinished { enriched: 0, .. })
    ));
}

#[test]
fn mock_enricher_scripts_deltas_and_records_calls() {
    let mut mock = MockEnricher::new();
    mock.script(EnrichmentDelta {
        labels_added: vec!["x".into()],
        content_added: vec![],
    });
    let out = mock
        .enrich("/kb", "a/b", EnrichmentApiKeySource::Env, "ws")
        .unwrap();
    assert_eq!(out.labels_added, vec!["x"]);
    let empty = mock
        .enrich("/kb", "c/d", EnrichmentApiKeySource::Env, "ws")
        .unwrap();
    assert!(empty.labels_added.is_empty());
    assert_eq!(
        *mock.calls(),
        vec![
            ("/kb".to_owned(), "a/b".to_owned()),
            ("/kb".to_owned(), "c/d".to_owned()),
        ]
    );
}

#[test]
fn mock_enrich_all_scripts_docs_and_records_calls() {
    let mut mock = MockEnricher::new();
    mock.script_all(vec![EnrichedDoc {
        source_path: "/ws/a.md".into(),
        delta: EnrichmentDelta {
            labels_added: vec!["t".into()],
            content_added: vec![],
        },
    }]);
    let out = mock
        .enrich_all("/kb", EnrichmentApiKeySource::Env, "ws")
        .unwrap();
    assert_eq!(out.len(), 1);
    assert_eq!(out[0].source_path, "/ws/a.md");
    assert!(mock
        .enrich_all("/kb2", EnrichmentApiKeySource::Env, "ws")
        .unwrap()
        .is_empty());
    assert_eq!(*mock.all_calls(), vec!["/kb".to_string(), "/kb2".to_string()]);
}

#[test]
fn enrichment_errors_say_what_failed() {
    assert_eq!(EnrichError::Tool("x".to_string()).message(), "enrichment tool failed: x");
    assert!(!EnrichError::MissingApiKey.message().is_empty());
    assert!(!EnrichError::Timeout.message().is_empty());
}

// -------------------------------------------------------------------------- lifecycle

#[test]
fn run_guarded_emits_internal_error_on_panic() {
    match worker_stopped("ws-1", "index", "boom in the worker") {
        EngineEvent::InternalError { error } => {
            assert_eq!(error.severity, InternalErrorSeverity::Critical);
            assert_eq!(error.source, "worker:index");
            assert_eq!(error.workspace_id.as_deref(), Some("ws-1"));
            assert!(error
                .detail
                .as_deref()
                .unwrap_or_default()
                .contains("boom in the worker"));
        }
        other => panic!("unexpected event: {other:?}"),
    }
}

#[test]
fn a_worker_starts_scans_watches_and_stops() {
    let workspace = make_workspace(&["/tmp/notes"]);
    let mut worker = IndexWorker::new(&workspace.folders, &workspace);
    let mut signals = Signals::new();
    let mut seen = Vec::new();
    loop {
        let step = worker.next(&mut signals, false);
        let done = matches!(step, Step::Receive);
        seen.push(step);
        if done {
            break;
        }
        assert!(seen.len() < 20);
    }
    assert!(seen.iter().any(|s| matches!(s, Step::Announce)));
    assert!(seen.iter().any(|s| matches!(s, Step::FullScan)));
    assert!(seen.iter().any(|s| matches!(s, Step::Watch)));

    signals.rebuild = true;
    assert!(matches!(worker.next(&mut signals, false), Step::Rebuild));
    assert!(matches!(worker.next(&mut signals, false), Step::FullScan));

    let reaction = worker.receive(
        "ws",
        Received::Event("/tmp/notes/a.md".to_string()),
        &mut signals,
    );
    assert!(matches!(reaction, Reaction::Ingest(p) if p == "/tmp/notes/a.md"));
    assert!(begin_ingest("/tmp/notes/a.md", &mut signals));
    assert!(!begin_ingest("/tmp/notes/.looperignore", &mut signals));
    assert!(signals.reconcile);
    signals.ingestion.depth = 1;
    let held = worker.receive(
        "ws",
        Received::Event("/tmp/notes/a.md".to_string()),
        &mut signals,
    );
    assert!(matches!(held, Reaction::Nothing));
    assert_eq!(signals.ingestion.pending.len(), 1);
    signals.ingestion.depth = 0;
    let mut ingested = false;
    for _ in 0..10 {
        match worker.next(&mut signals, false) {
            Step::Ingest(p) => ingested = p == "/tmp/notes/a.md",
            Step::Receive => break,
            _ => {}
        }
    }
    assert!(ingested);
    assert!(matches!(worker.next(&mut signals, true), Step::Stop));
}

#[test]
fn removals_are_made_in_order() {
    let workspace = make_workspace(&["/tmp/notes"]);
    let mut worker = IndexWorker::new(&workspace.folders, &workspace);
    let mut signals = Signals::new();
    while worker.next(&mut signals, false) != Step::Receive {}
    signals.removals = vec!["/a.md".to_string(), "/b.md".to_string()];
    signals.ingestion.pending.insert("/c.md".to_string(), ());
    let steps: Vec<Step> = (0..4).map(|_| worker.next(&mut signals, false)).collect();
    assert_eq!(
        steps,
        vec![
            Step::Remove("/a.md".to_string()),
            Step::Remove("/b.md".to_string()),
            Step::Ingest("/c.md".to_string()),
            Step::Receive,
        ]
    );
}

#[test]
fn the_index_is_not_indexed() {
    let workspace = make_workspace(&["/tmp/notes"]);
    let folders = workspace.folders.clone();
    let excluded = canonicalize_all(&workspace.exclusion_paths(), &same_paths());
    let scan = scan_config(&workspace, &folders, &excluded);
    let watch = watch_config(&workspace, &folders, &excluded);
    for path in ["/tmp/kb/notes/a.md", "/tmp/notes/kb/notes/a.md"] {
        assert!(scan.is_excluded(path));
        assert!(!scan.keeps_entry(path, false));
        assert!(!watch.filter.accepts(path));
    }
    assert!(scan.keeps_entry("/tmp/notes/a.md", false));
    assert!(watch.filter.accepts("/tmp/notes/a.md"));
    assert!(watch.filter.accepts("/tmp/notes/.looperignore"));
}

#[test]
fn failures_are_told() {
    let workspace = make_workspace(&["/tmp/notes"]);
    let mut worker = IndexWorker::new(&workspace.folders, &workspace);
    let told = worker.scan_failed("ws", "disk");
    assert!(
        matches!(told, EngineEvent::Warning { message, .. } if message == "scan engine failed to open: disk")
    );
    let mut other = IndexWorker::new(&workspace.folders, &workspace);
    let told = other.watch_failed("ws", "limit");
    assert!(
        matches!(told, EngineEvent::Warning { message, .. } if message == "watcher failed to start: limit")
    );
    assert!(matches!(warn("ws", "x".to_string()), EngineEvent::Warning { message, .. } if message == "x"));
    for (trouble, heading) in [
        (Trouble::Scan, "scan failed: "),
        (Trouble::Reconcile, "reconcile failed: "),
        (Trouble::Clear, "index clear failed: "),
        (Trouble::Reset, "cursor reset failed: "),
        (Trouble::Remove, "remove failed: "),
        (Trouble::Forget, "cursor forget failed: "),
    ] {
        assert_eq!(trouble.told("ws", "disk"), warn("ws", format!("{heading}disk")));
    }
    assert_eq!(
        removal("ws", "/a.md", &Ok(())),
        EngineEvent::DocRemoved {
            workspace_id: "ws".to_string(),
            path: "/a.md".to_string(),
        }
    );
    let refused = Err(KbError::Backend("busy".to_string()));
    assert_eq!(
        removal("ws", "/a.md", &refused),
        warn("ws", format!("remove failed: {}", refused.as_ref().unwrap_err().message()))
    );
    assert_eq!(cursor_path(&workspace), "/tmp/kb/scan-cursor.json");
    assert_eq!(
        discovered("ws", Vec::new()),
        EngineEvent::ReposDiscovered {
            workspace_id: "ws".to_string(),
            repos: Vec::new(),
        }
    );
}

#[test]
fn changes_are_told_once() {
    let folders = vec!["/tmp/notes".to_string()];
    let mut scan = ScanEngine::open(
        scan_config(&make_workspace(&["/tmp/notes"]), &folders, &Vec::new()),
        Snapshot::empty(),
    );
    let change = scan
        .observe(
            "/tmp/notes/a.md",
            FileRead::Found(fingerprint(b"# A", 3, None)),
        )
        .unwrap();
    assert_eq!(change.kind, ChangeKind::Created);
    assert!(matches!(
        plan_change(&change, &folders),
        looper::applying::ChangePlan::Index { drop_first: None, concept_id, extension }
            if concept_id == "notes/a.md" && extension == "md"
    ));
    let mut kb = looper::kb::MockKb::default();
    let mut counts = Counts::default();
    let events = apply_and_emit(
        &mut kb,
        "ws",
        &folders,
        &change,
        &Err("gone".to_string()),
        &mut counts,
    );
    assert_eq!(events.len(), 1);
    assert!(matches!(events[0], EngineEvent::Warning { .. }));
    assert_eq!(kb.doc_count(), 0);
    assert_eq!((counts.indexed, counts.removed), (0, 0));
}

#[test]
fn requests_reach_the_worker() {
    let workspace = make_workspace(&["/tmp/notes"]);
    let wid = workspace.id.as_str().to_string();
    let mut engine = Engine::new(MockKbProvider);
    engine.open_workspace(&workspace, same_paths()).unwrap();
    engine.rescan(&wid);
    engine.reconcile_index(&wid);
    engine.rebuild_index(&wid);
    engine.remove_document(&wid, "/tmp/notes/a.md".to_string());
    engine.enrich_workspace(&wid).unwrap();
    let config = EnrichmentConfig {
        enabled: true,
        ..EnrichmentConfig::default()
    };
    engine.set_enrichment_config(&wid, config.clone()).unwrap();
    let handle = &engine.open.entries[0].1;
    assert!(handle.signals.rescan && handle.signals.reconcile && handle.signals.rebuild);
    assert_eq!(handle.signals.removals, vec!["/tmp/notes/a.md"]);
    assert_eq!(handle.enrich_cfg, config);
    assert!(engine.source_paths(&wid).is_empty());
    assert!(engine.list_documents(&wid).is_empty());
    assert!(engine.tag_counts(&wid).is_empty());
    assert!(engine.read_indexed_document(&wid, "/tmp/notes/a.md").is_none());
    assert_eq!(engine.doc_count("other"), 0);
    assert_eq!(
        CoreError::WorkspaceNotOpen("x".to_string()).message(),
        "workspace `x` is not open"
    );
}

/// A knowledge base that refuses whatever it is asked, and notes what that was.
#[derive(Default)]
struct Refusing {
    asked: Vec<String>,
}

impl Kb for Refusing {
    fn wf(&self) -> bool {
        true
    }

    fn told(&self) -> KbCalls {
        unreachable!()
    }

    fn can_mint(&self) -> bool {
        true
    }

    fn name(&self) -> &str {
        "refusing"
    }

    fn index(&mut self, doc: &SourceDoc) -> Result<ConceptRef, KbError> {
        self.asked.push(format!("index {}", doc.source_path));
        Err(KbError::Backend("busy".to_string()))
    }

    fn remove(&mut self, source_path: &str) -> Result<(), KbError> {
        self.asked.push(format!("remove {source_path}"));
        Err(KbError::Backend("busy".to_string()))
    }

    fn search(&self, _query: &str, _limit: usize) -> Result<Vec<SearchHit>, KbError> {
        Ok(Vec::new())
    }

    fn doc_count(&self) -> usize {
        0
    }

    fn read_indexed(&self, _source_path: &str) -> Option<String> {
        None
    }

    fn write_indexed(&mut self, _source_path: &str, _content: &str) -> Result<bool, KbError> {
        Ok(false)
    }

    fn list_documents(&self) -> Vec<DocSummary> {
        Vec::new()
    }

    fn refresh_indexed(&mut self, source_path: &str) -> Option<ConceptRef> {
        self.asked.push(format!("refresh {source_path}"));
        None
    }
}

#[test]
fn a_refused_change_is_a_warning_and_not_counted() {
    let folders = vec!["/tmp/notes".to_string()];
    let mut kb = Refusing::default();
    let mut counts = Counts::default();
    let busy = |e: &EngineEvent| {
        matches!(e, EngineEvent::Warning { message, .. } if message.contains("busy"))
    };
    let moved = looper::scan::Change {
        path: "/tmp/notes/new.md".to_string(),
        kind: ChangeKind::Moved,
        fingerprint: Some(fingerprint(b"# A", 3, None)),
        moved_from: Some("/tmp/notes/old.md".to_string()),
    };
    let read = Ok("# A".to_string());
    let told = apply_and_emit(&mut kb, "ws", &folders, &moved, &read, &mut counts);
    assert!(told.len() == 1 && busy(&told[0]));
    assert_eq!(
        kb.asked,
        vec!["remove /tmp/notes/old.md", "index /tmp/notes/new.md"]
    );

    let gone = looper::scan::Change {
        path: "/tmp/notes/new.md".to_string(),
        kind: ChangeKind::Removed,
        fingerprint: None,
        moved_from: None,
    };
    let told = apply_and_emit(&mut kb, "ws", &folders, &gone, &read, &mut counts);
    assert!(told.len() == 1 && busy(&told[0]));
    assert_eq!((counts.indexed, counts.removed), (0, 0));
}

/// An enricher that fails on every document, and keeps what it was asked with.
#[derive(Default)]
struct Failing {
    asked: Vec<(String, EnrichmentApiKeySource, String)>,
}

impl Enricher for Failing {
    fn asked(&self) -> EnrichCalls {
        unreachable!()
    }

    fn asked_all(&self) -> EnrichAllCalls {
        unreachable!()
    }

    fn enrich(
        &mut self,
        _bundle_dir: &str,
        concept_id: &str,
        source: EnrichmentApiKeySource,
        workspace_id: &str,
    ) -> Result<EnrichmentDelta, EnrichError> {
        self.asked
            .push((concept_id.to_string(), source, workspace_id.to_string()));
        Err(EnrichError::MissingApiKey)
    }

    fn enrich_all(
        &mut self,
        bundle_dir: &str,
        source: EnrichmentApiKeySource,
        workspace_id: &str,
    ) -> Result<Vec<EnrichedDoc>, EnrichError> {
        self.asked
            .push((bundle_dir.to_string(), source, workspace_id.to_string()));
        Err(EnrichError::Timeout)
    }
}

#[test]
fn only_what_was_enriched_is_refreshed() {
    let config = EnrichmentConfig {
        enabled: true,
        api_key_source: EnrichmentApiKeySource::Specified,
        ..EnrichmentConfig::default()
    };
    let mut kb = Refusing::default();
    let mut failing = Failing::default();
    let told = enrich_one(&mut failing, &mut kb, "ws", "/kb", &config, "n/a.md", "/n/a.md");
    assert!(matches!(
        &told[1],
        EngineEvent::EnrichFailed { path, .. } if path == "/n/a.md"
    ));
    let told = enrich_all_now(&mut failing, &mut kb, "ws", "/kb", &config);
    assert!(matches!(
        told.last(),
        Some(EngineEvent::EnrichAllFinished { enriched: 0, .. })
    ));
    assert!(kb.asked.is_empty());
    let key = EnrichmentApiKeySource::Specified;
    assert_eq!(
        failing.asked,
        vec![
            ("n/a.md".to_string(), key, "ws".to_string()),
            ("/kb".to_string(), key, "ws".to_string()),
        ]
    );

    let doc = |path: &str| EnrichedDoc {
        source_path: path.to_string(),
        delta: EnrichmentDelta {
            labels_added: Vec::new(),
            content_added: Vec::new(),
        },
    };
    let mut mock = MockEnricher::new();
    mock.script_all(vec![doc("/n/a.md"), doc("/n/b.md")]);
    enrich_one(&mut mock, &mut kb, "ws", "/kb", &config, "n/c.md", "/n/c.md");
    enrich_all_now(&mut mock, &mut kb, "ws", "/kb", &config);
    assert_eq!(
        kb.asked,
        vec!["refresh /n/c.md", "refresh /n/a.md", "refresh /n/b.md"]
    );
}

#[test]
fn an_enrichment_is_told_in_two_parts() {
    let delta = || EnrichmentDelta {
        labels_added: vec!["x".to_string()],
        content_added: Vec::new(),
    };
    let mut kb = Refusing::default();
    assert!(matches!(
        start_one("ws", "/n/a.md"),
        EngineEvent::EnrichStarted { workspace_id, path } if workspace_id == "ws" && path == "/n/a.md"
    ));
    assert!(matches!(
        conclude_one(&mut kb, "ws", "/n/a.md", Err(EnrichError::MissingApiKey)),
        EngineEvent::EnrichFailed { path, .. } if path == "/n/a.md"
    ));
    assert!(kb.asked.is_empty());
    assert!(matches!(
        conclude_one(&mut kb, "ws", "/n/a.md", Ok(delta())),
        EngineEvent::EnrichSucceeded { delta, .. } if delta.labels_added == vec!["x"]
    ));
    assert_eq!(kb.asked, vec!["refresh /n/a.md"]);

    assert!(matches!(
        start_all("ws"),
        EngineEvent::EnrichAllStarted { workspace_id } if workspace_id == "ws"
    ));
    let docs = vec![EnrichedDoc {
        source_path: "/n/b.md".to_string(),
        delta: delta(),
    }];
    let told = conclude_all(&mut kb, "ws", &Ok(docs));
    assert_eq!(told.len(), 2);
    assert!(matches!(
        &told[0],
        EngineEvent::EnrichSucceeded { path, .. } if path == "/n/b.md"
    ));
    assert!(matches!(
        told[1],
        EngineEvent::EnrichAllFinished { enriched: 1, .. }
    ));
    assert_eq!(kb.asked.len(), 2);
    assert_eq!(conclude_all(&mut kb, "ws", &Err(EnrichError::Timeout)).len(), 2);
    assert_eq!(kb.asked.len(), 2);
}
