//! Scanning and watching folders, and where settings are found.

use looper::config::{app_names, choose_config_file, filter_directive, Cli, Config, Dirs};
use looper::scan::{
    diff, fingerprint, has_any_extension, is_in_docs_dir, is_markdown, is_under_any,
    scan_tracked_markdown, walk_markdown_paths, ChangeKind, FileFingerprint, FileRead, ScanConfig,
    ScanEngine, Snapshot, Walked, WalkedFile,
};
use looper::sorted::{KeyOrder, SortedMap};
use looper::watcher::{
    collect_dirs, compute_health, parse_limit, suggested_watch_limit, ApplyError, CommandStatus,
    InotifyLimits, Manager, Platform, RawEvent, Remediation, WatchConfig, WatchEvent, WatchFilter, WatchStatus,
    DEFAULT_DEBOUNCE,
};

fn strings(texts: &[&str]) -> Vec<String> {
    texts.iter().map(|t| t.to_string()).collect()
}

fn fp(content: &str) -> FileFingerprint {
    fingerprint(content.as_bytes(), content.len() as u64, Some(0))
}

#[test]
fn markdown_and_docs_dir_classification() {
    assert!(is_markdown("a/b.md"));
    assert!(is_markdown("a/b.MD"));
    assert!(!is_markdown("a/b.txt"));
    assert!(is_in_docs_dir("/x/docs/a.md"));
    assert!(is_in_docs_dir("/x/spec/a.md"));
    assert!(!is_in_docs_dir("/x/src/a.md"));
}

#[test]
fn fingerprint_is_content_sensitive() {
    let f1 = fp("hello");
    assert_eq!(f1.size, 5);
    let f2 = fp("hello world");
    assert_ne!(f1.hash, f2.hash);
    assert_eq!(f2.size, 11);
    assert_eq!(
        f1.hash,
        "ea8f163db38682925e4491c5e58d4bb3506ef8c14eb78a86e908c5624a67200f"
    );
    assert_eq!(fingerprint(b"x", 1, None).mtime_ms, 0);
    assert_eq!(fingerprint(b"x", 1, Some(7)).mtime_ms, 7);
}

#[test]
fn scan_honors_configured_extensions() {
    let files = found(
        "/ws",
        &[("/ws/a.md", "a"), ("/ws/b.adoc", "b"), ("/ws/c.txt", "c")],
    );
    let md_only = ScanConfig::new(strings(&["/ws"]));
    assert!(md_only.is_tracked("/ws/a.md"));
    assert!(!md_only.is_tracked("/ws/b.adoc"));
    let snap = scan_tracked_markdown(&md_only, &files);
    assert!(snap.get("/ws/a.md").is_some());
    assert!(snap.get("/ws/b.adoc").is_none());
    assert_eq!(snap.len(), 1);

    let mut both = ScanConfig::new(strings(&["/ws"]));
    both.extensions = strings(&["md", "adoc"]);
    assert!(both.is_tracked("/ws/a.md"));
    assert!(both.is_tracked("/ws/b.adoc"));
    assert!(!both.is_tracked("/ws/c.txt"));
    let snap = scan_tracked_markdown(&both, &files);
    assert!(snap.get("/ws/a.md").is_some());
    assert!(snap.get("/ws/b.adoc").is_some());
    assert!(snap.get("/ws/c.txt").is_none());
    assert_eq!(snap.len(), 2);

    let mut engine = ScanEngine::open(both, Snapshot::empty());
    assert!(engine.wants("/ws/b.adoc"));
    assert_eq!(
        engine
            .observe("/ws/b.adoc", FileRead::Found(fp("b")))
            .unwrap()
            .kind,
        ChangeKind::Created
    );
    assert!(engine.observe("/ws/c.txt", FileRead::Found(fp("c"))).is_none());
}

#[test]
fn scan_leaves_out_excluded_and_pruned_places() {
    let mut config = ScanConfig::new(strings(&["/ws"]));
    config.excluded_prefixes = strings(&["/ws/kb"]);
    assert!(config.is_excluded("/ws/kb/index.md"));
    assert!(!config.keeps_entry("/ws/kb", true));
    assert!(!config.keeps_entry("/ws/node_modules", true));
    assert!(config.keeps_entry("/ws/docs", true));
    assert!(config.keeps_entry("/ws/docs/a.md", false));
    assert!(is_under_any("/a/b/c", &strings(&["/a/b"])));
    assert!(!is_under_any("/a/bc", &strings(&["/a/b"])));
    assert!(has_any_extension("x.ADOC", &strings(&["adoc"])));
}

#[test]
fn diffs_name_each_path_once() {
    let fp = |h: &str| FileFingerprint {
        hash: h.to_string(),
        size: 1,
        mtime_ms: 0,
    };
    let mut old = Snapshot::empty();
    let mut new = Snapshot::empty();
    for (path, hash) in [("a.md", "1"), ("b.md", "1"), ("c.md", "2"), ("d.md", "3")] {
        old.insert(path.to_string(), fp(hash));
    }
    for (path, hash) in [("d.md", "4"), ("e.md", "1"), ("f.md", "5"), ("g.md", "2")] {
        new.insert(path.to_string(), fp(hash));
    }
    let told: Vec<(String, ChangeKind, Option<String>)> = diff(&old, &new)
        .into_iter()
        .map(|c| {
            assert_eq!(c.fingerprint.is_none(), c.kind == ChangeKind::Removed);
            (c.path, c.kind, c.moved_from)
        })
        .collect();
    assert_eq!(
        told,
        vec![
            ("d.md".to_string(), ChangeKind::Modified, None),
            ("e.md".to_string(), ChangeKind::Moved, Some("a.md".to_string())),
            ("f.md".to_string(), ChangeKind::Created, None),
            ("g.md".to_string(), ChangeKind::Moved, Some("c.md".to_string())),
            ("b.md".to_string(), ChangeKind::Removed, None),
        ]
    );
}

#[test]
fn the_command_line_has_names_of_its_own() {
    assert_eq!(app_names(false), ("com", "looper", "Looper"));
    assert_eq!(app_names(true), ("com", "looper", "LooperCli"));
}

#[test]
fn diff_detects_created_modified_removed_moved() {
    let fp = |h: &str| FileFingerprint {
        hash: h.to_string(),
        size: 1,
        mtime_ms: 0,
    };
    let mut old = Snapshot::empty();
    old.insert("keep.md".into(), fp("H_keep"));
    old.insert("edit.md".into(), fp("H_old"));
    old.insert("gone.md".into(), fp("H_gone"));
    old.insert("from.md".into(), fp("H_move"));

    let mut new = Snapshot::empty();
    new.insert("keep.md".into(), fp("H_keep"));
    new.insert("edit.md".into(), fp("H_new"));
    new.insert("fresh.md".into(), fp("H_fresh"));
    new.insert("to.md".into(), fp("H_move"));

    let changes = diff(&old, &new);
    let kind = |p: &str| changes.iter().find(|c| c.path == p).map(|c| c.kind);
    assert_eq!(kind("edit.md"), Some(ChangeKind::Modified));
    assert_eq!(kind("fresh.md"), Some(ChangeKind::Created));
    assert_eq!(kind("gone.md"), Some(ChangeKind::Removed));
    assert_eq!(kind("to.md"), Some(ChangeKind::Moved));
    assert_eq!(
        changes
            .iter()
            .find(|c| c.path == "to.md")
            .unwrap()
            .moved_from,
        Some("from.md".to_string())
    );
    assert!(kind("keep.md").is_none(), "unchanged file yields no change");
    assert!(diff(&new, &new).is_empty());
}

fn found(root: &str, files: &[(&str, &str)]) -> Vec<WalkedFile> {
    files
        .iter()
        .map(|(p, c)| WalkedFile {
            root: root.to_string(),
            path: p.to_string(),
            fingerprint: Some(fp(c)),
        })
        .collect()
}

fn tree(files: &[(&str, &str)]) -> Snapshot {
    scan_tracked_markdown(
        &ScanConfig::new(strings(&["/ws"])),
        &found("/ws", files),
    )
}

#[test]
fn scan_collects_markdown_and_honors_ignores() {
    // What `.gitignore` and `.looperignore` name, the walk does not come to.
    let files = found(
        "/ws",
        &[
            ("/ws/docs/a.md", "a"),
            ("/ws/README.md", "r"),
            ("/ws/notes.txt", "t"),
            ("/ws/.gitignore", "ignored.md\n"),
            ("/ws/node_modules/pkg/b.md", "b"),
            ("/ws/kb/index.md", "k"),
            ("/ws/.looperignore", "vendored/\n"),
        ],
    );
    let mut config = ScanConfig::new(strings(&["/ws"]));
    config.excluded_prefixes = strings(&["/ws/kb"]);
    let snap = scan_tracked_markdown(&config, &files);

    assert!(snap.get("/ws/docs/a.md").is_some());
    assert!(snap.get("/ws/README.md").is_some());
    assert!(snap.get("/ws/notes.txt").is_none());
    assert!(snap.get("/ws/ignored.md").is_none(), "gitignored");
    assert!(snap.get("/ws/node_modules/pkg/b.md").is_none(), "pruned");
    assert!(snap.get("/ws/kb/index.md").is_none(), "excluded prefix");
    assert!(snap.get("/ws/vendored/c.md").is_none(), "looperignored");
    assert_eq!(snap.len(), 2);

    let pairs: Vec<(String, String)> = files
        .iter()
        .map(|f| (f.root.clone(), f.path.clone()))
        .collect();
    assert_eq!(
        walk_markdown_paths(&config, &pairs),
        strings(&["/ws/docs/a.md", "/ws/README.md"])
    );
}

#[test]
fn pruned_names_count_below_the_root_only() {
    let config = ScanConfig::new(strings(&["/x/target"]));
    assert!(config.keeps_file("/x/target", "/x/target/a.md"));
    assert!(config.keeps_file("/x/target", "/x/target/docs/target.md"));
    assert!(!config.keeps_file("/x/target", "/x/target/.git/a.md"));
    assert!(!config.keeps_file("/x/target", "/x/target/a/target/b.md"));
    assert!(!config.keeps_file("/x/target", "/y/a.md"));
    let mut unread = found("/x/target", &[("/x/target/a.md", "a")]);
    unread[0].fingerprint = None;
    assert!(scan_tracked_markdown(&config, &unread).is_empty());
}

#[test]
fn ignored_files_are_not_reported() {
    let mut engine = ScanEngine::open(ScanConfig::new(strings(&["/ws"])), Snapshot::empty());
    assert!(engine.observe("/ws/draft.md", FileRead::Ignored).is_none());
    assert!(engine.snapshot().is_empty());

    engine.full_scan(tree(&[("/ws/a.md", "a")]));
    assert!(engine.observe("/ws/a.md", FileRead::Ignored).is_none());
    assert_eq!(engine.snapshot().get("/ws/a.md"), Some(&fp("a")));
}

#[test]
fn engine_catch_up_and_live_observe_with_persistence() {
    let config = || ScanConfig::new(strings(&["/ws"]));
    let mut engine = ScanEngine::open(config(), Snapshot::empty());
    let changes = engine.full_scan(tree(&[("/ws/a.md", "a"), ("/ws/b.md", "b")]));
    assert_eq!(changes.len(), 2);
    assert!(changes.iter().all(|c| c.kind == ChangeKind::Created));

    let mut engine = ScanEngine::open(config(), engine.snapshot);
    assert!(
        engine
            .full_scan(tree(&[("/ws/a.md", "a"), ("/ws/b.md", "b")]))
            .is_empty(),
        "cursor caught up"
    );

    assert_eq!(
        engine
            .observe("/ws/a.md", FileRead::Found(fp("a2")))
            .unwrap()
            .kind,
        ChangeKind::Modified
    );
    assert_eq!(
        engine.observe("/ws/b.md", FileRead::Missing).unwrap().kind,
        ChangeKind::Removed
    );
    assert_eq!(
        engine
            .observe("/ws/c.md", FileRead::Found(fp("c")))
            .unwrap()
            .kind,
        ChangeKind::Created
    );
    assert!(engine.observe("/ws/notes.txt", FileRead::Missing).is_none());
    assert!(engine.observe("/ws/c.md", FileRead::Unreadable).is_none());

    let mut engine = ScanEngine::open(config(), engine.snapshot);
    assert!(engine
        .full_scan(tree(&[("/ws/a.md", "a2"), ("/ws/c.md", "c")]))
        .is_empty());
}

#[test]
fn reconcile_evicts_now_ignored_and_re_adds_unignored() {
    let mut engine = ScanEngine::open(ScanConfig::new(strings(&["/ws"])), Snapshot::empty());
    assert_eq!(
        engine
            .full_scan(tree(&[("/ws/a.md", "a"), ("/ws/vendored/b.md", "b")]))
            .len(),
        2,
        "both tracked"
    );

    let mut walked: Walked = SortedMap::new(KeyOrder::Path);
    walked.insert("/ws/a.md".to_string(), None);
    let changes = engine.reconcile(&walked);
    assert_eq!(changes.len(), 1);
    assert_eq!(changes[0].kind, ChangeKind::Removed);
    assert!(changes[0].path.ends_with("vendored/b.md"));

    walked.insert("/ws/vendored/b.md".to_string(), Some(fp("b")));
    let back = engine.reconcile(&walked);
    assert_eq!(back.len(), 1);
    assert_eq!(back[0].kind, ChangeKind::Created);
    assert!(back[0].path.ends_with("vendored/b.md"));
}

#[test]
fn what_was_reported_is_not_reported_again() {
    let mut engine = ScanEngine::open(ScanConfig::new(strings(&["/ws"])), Snapshot::default());
    let read = || FileRead::Found(fp("a"));
    assert!(engine.observe("/ws/a.md", read()).is_some());
    assert!(engine.observe("/ws/a.md", read()).is_none());
    assert!(engine.observe("/ws/a.md", FileRead::Missing).is_some());
    assert!(engine.observe("/ws/a.md", FileRead::Missing).is_none());

    let mut walked: Walked = SortedMap::new(KeyOrder::Path);
    walked.insert("/ws/b.md".to_string(), Some(fp("b")));
    walked.insert("/ws/c.md".to_string(), None);
    assert_eq!(engine.reconcile(&walked).len(), 1);
    assert!(engine.reconcile(&walked).is_empty());
}

#[test]
fn a_cursor_can_be_forgotten() {
    let mut engine = ScanEngine::open(ScanConfig::new(strings(&["/ws"])), tree(&[("/ws/a.md", "a")]));
    assert!(engine.snapshot().get("/ws/a.md").is_some());
    assert!(engine.forget("/ws/a.md"));
    assert!(!engine.forget("/ws/a.md"));
    assert!(engine.snapshot().is_empty());
    engine.full_scan(tree(&[("/ws/a.md", "a"), ("/ws/b.md", "b")]));
    assert_eq!(engine.snapshot().len(), 2);
    assert_eq!(engine.snapshot().iter().len(), 2);
    engine.reset();
    assert!(engine.snapshot().is_empty());
}

#[test]
fn a_file_moves_once() {
    let old = tree(&[("/ws/a.md", "same"), ("/ws/b.md", "same")]);
    let new = tree(&[("/ws/c.md", "same"), ("/ws/d.md", "same"), ("/ws/e.md", "same")]);
    let changes = diff(&old, &new);
    let origins: Vec<&String> = changes.iter().filter_map(|c| c.moved_from.as_ref()).collect();
    assert_eq!(origins.len(), 2);
    assert_ne!(origins[0], origins[1]);
    assert_eq!(changes.len(), 3);
}

// -------------------------------------------------------------------------- watching

#[test]
fn markdown_filter_accepts_md_and_skips_noise() {
    let f = WatchFilter::markdown().ignoring_default_dirs();
    assert!(f.accepts("/ws/docs/readme.md"));
    assert!(f.accepts("/ws/specs/a/b/deep.MD"));
    assert!(!f.accepts("/ws/docs/readme.txt"));
    assert!(!f.accepts("/ws/node_modules/pkg/readme.md"));
    assert!(!f.accepts("/ws/.git/COMMIT_EDITMSG"));
    assert!(!f.accepts("/ws/no-extension"));
}

#[test]
fn also_filename_admits_exact_name_regardless_of_extension() {
    let f = WatchFilter::markdown().also_filename(".looperignore");
    assert!(f.accepts("/ws/.looperignore"));
    assert!(f.accepts("/ws/sub/.looperignore"));
    assert!(f.accepts("/ws/docs/x.md"));
    assert!(!f.accepts("/ws/other.txt"));
    assert!(!f.accepts("/ws/.gitignore"));
}

#[test]
fn prune_predicates() {
    let f = WatchFilter::markdown()
        .ignoring_default_dirs()
        .ignoring_path("/ws/.looper");
    assert!(f.is_ignored_dir_name("node_modules"));
    assert!(!f.is_ignored_dir_name("docs"));
    assert!(f.is_under_ignored_prefix("/ws/.looper/kb"));
    assert!(!f.is_under_ignored_prefix("/ws/docs"));
}

#[test]
fn ignored_prefix_excludes_subtree() {
    let f = WatchFilter::markdown().ignoring_path("/ws/.looper");
    assert!(!f.accepts("/ws/.looper/kb/x.md"));
    assert!(f.accepts("/ws/docs/x.md"));
}

#[test]
fn all_extensions_when_unset() {
    let f = WatchFilter::default();
    assert!(f.accepts("/ws/anything.bin"));
    let g = WatchFilter::default().ignoring_dir_name("tmp");
    assert!(!g.accepts("/ws/tmp/anything.bin"));
    assert!(!g.keeps_entry("/ws/tmp", "tmp", true));
    assert!(g.keeps_entry("/ws/docs", "docs", true));
}

#[test]
fn parse_limit_handles_trailing_newline() {
    assert_eq!(parse_limit("8192\n"), Some(8192));
    assert_eq!(parse_limit("  524288 "), Some(524_288));
    assert_eq!(parse_limit("not-a-number"), None);
}

#[test]
fn no_limits_is_healthy() {
    let h = compute_health(100_000, None, Platform::Other);
    assert_eq!(h.status, WatchStatus::Healthy);
    assert!(h.remediation.is_none());
}

#[test]
fn notes_are_those_of_the_platform() {
    let note = |platform| compute_health(1, None, platform).note;
    assert!(note(Platform::MacOs).starts_with("macOS FSEvents"));
    assert!(note(Platform::Windows).starts_with("Windows ReadDirectoryChangesW"));
    assert_eq!(
        note(Platform::Other),
        "This platform has no known per-watch limit."
    );
    let limits = Some(InotifyLimits {
        max_user_watches: 1000,
        max_user_instances: 128,
    });
    assert!(compute_health(1, limits, Platform::Other)
        .note
        .starts_with("Linux inotify"));
}

#[test]
fn health_thresholds_and_remediation() {
    let limits = Some(InotifyLimits {
        max_user_watches: 1000,
        max_user_instances: 128,
    });
    assert_eq!(compute_health(500, limits, Platform::Other).status, WatchStatus::Healthy);
    assert_eq!(compute_health(800, limits, Platform::Other).status, WatchStatus::Approaching);
    let exceeded = compute_health(1000, limits, Platform::Other);
    assert_eq!(exceeded.status, WatchStatus::Exceeded);
    let remediation = exceeded.remediation.unwrap();
    assert!(remediation.requires_root);
    assert!(remediation
        .commands
        .iter()
        .any(|c| c.contains("max_user_watches")));
}

#[test]
fn suggested_limit_has_headroom() {
    assert_eq!(suggested_watch_limit(1000), 524_288);
    assert_eq!(suggested_watch_limit(400_000), 1_048_576);
}

#[test]
fn apply_runs_commands() {
    let ok = Remediation {
        summary: "ok".to_string(),
        commands: strings(&["true"]),
        requires_root: false,
    };
    assert!(ok.apply(&vec![CommandStatus::Succeeded]).is_ok());
    let bad = Remediation {
        summary: "bad".to_string(),
        commands: strings(&["false"]),
        requires_root: false,
    };
    assert!(matches!(
        bad.apply(&vec![CommandStatus::Exited(Some(1))]),
        Err(ApplyError::Failed { command, code: Some(1) }) if command == "false"
    ));
    assert!(matches!(
        bad.apply(&vec![CommandStatus::NotStarted("no sh".to_string())]),
        Err(ApplyError::Spawn { command, message }) if command == "false" && message == "no sh"
    ));
    let failed = ApplyError::Failed {
        command: "false".to_string(),
        code: Some(1),
    };
    assert_eq!(failed.message(), "`false` exited with status Some(1)");
}

#[test]
fn collect_dirs_keeps_directories() {
    let dirs = collect_dirs(&vec![
        ("/ws".to_string(), true),
        ("/ws/keepme".to_string(), true),
        ("/ws/a.md".to_string(), false),
    ]);
    assert!(dirs.contains_key("/ws"));
    assert!(dirs.contains_key("/ws/keepme"));
    assert!(!dirs.contains_key("/ws/a.md"));
}

#[test]
fn watches_follow_the_directories() {
    let config = WatchConfig::markdown(strings(&["/ws"]));
    assert_eq!(config.debounce, DEFAULT_DEBOUNCE);
    assert_eq!(DEFAULT_DEBOUNCE, 400);
    assert!(config.respect_gitignore);
    let watched = collect_dirs(&vec![("/ws".to_string(), true), ("/ws/old".to_string(), true)]);
    let mut manager = Manager::new(watched, config.filter, None, Platform::Other);

    let (events, resync) = manager.triage(&vec![
        RawEvent {
            path: "/ws/note.md".to_string(),
            kind: looper::watcher::ChangeKind::Created,
            is_dir: false,
        },
        RawEvent {
            path: "/ws/ignore.txt".to_string(),
            kind: looper::watcher::ChangeKind::Created,
            is_dir: false,
        },
    ]);
    assert_eq!(
        events,
        vec![WatchEvent {
            path: "/ws/note.md".to_string(),
            kind: looper::watcher::ChangeKind::Created,
        }]
    );
    assert!(!resync);

    let (events, resync) = manager.triage(&vec![RawEvent {
        path: "/ws/newdir".to_string(),
        kind: looper::watcher::ChangeKind::Created,
        is_dir: true,
    }]);
    assert!(events.is_empty());
    assert!(resync);

    let current = collect_dirs(&vec![("/ws".to_string(), true), ("/ws/newdir".to_string(), true)]);
    let (add, gone) = manager.resync(&current);
    assert_eq!(add, vec!["/ws/newdir"]);
    assert_eq!(gone, vec!["/ws/old"]);
    for dir in add {
        manager.watching(dir);
    }
    manager.finish_resync(&gone);
    assert!(manager.watched.contains_key("/ws/newdir"));
    assert!(!manager.watched.contains_key("/ws/old"));
    assert_eq!(manager.health.watched_dirs, 2);

    let existing = manager.existing_files(&vec![
        ("/ws/newdir/deep.md".to_string(), true),
        ("/ws/newdir/x.bin".to_string(), true),
    ]);
    assert_eq!(existing.len(), 1);
    assert_eq!(existing[0].path, "/ws/newdir/deep.md");
}

// --------------------------------------------------------------------------- settings

#[test]
fn cli_config_wins_when_present() {
    assert_eq!(
        choose_config_file("/t/cli.json".to_string(), true, "/t/desktop.json".to_string(), true),
        "/t/cli.json"
    );
}

#[test]
fn falls_back_to_desktop_when_cli_absent() {
    assert_eq!(
        choose_config_file("/t/cli.json".to_string(), false, "/t/desktop.json".to_string(), true),
        "/t/desktop.json"
    );
}

#[test]
fn defaults_to_cli_path_when_neither_exists() {
    assert_eq!(
        choose_config_file("/t/cli.json".to_string(), false, "/t/desktop.json".to_string(), false),
        "/t/cli.json"
    );
}

#[test]
fn directive_prefers_rust_log_when_set() {
    assert_eq!(filter_directive(Some("debug".into()), "info"), "debug");
    assert_eq!(
        filter_directive(Some("looper=trace".into()), "info"),
        "looper=trace"
    );
}

#[test]
fn directive_falls_back_to_config_level() {
    assert_eq!(filter_directive(None, "warn"), "warn");
    assert_eq!(filter_directive(Some("   ".into()), "warn"), "warn");
}

#[test]
fn the_command_line_has_directories_of_its_own() {
    match (Dirs::resolve(), Dirs::resolve_cli()) {
        (Ok(desktop), Ok(cli)) => {
            assert_ne!(desktop.config, cli.config);
            assert_ne!(desktop.data, cli.data);
            assert_eq!(cli.log, format!("{}/logs", cli.data));
        }
        (Err(e), Err(_)) => assert!(e.message().contains("no valid home directory")),
        _ => panic!("one has a home directory and the other has none"),
    }
    let found = ("/c".to_string(), "/d".to_string(), "/k".to_string());
    let dirs = Dirs::from_found(Some(found)).unwrap();
    assert_eq!((dirs.log.as_str(), dirs.cache.as_str()), ("/d/logs", "/k"));
    assert!(Dirs::from_found(None).is_err());
}

#[test]
fn settings_have_defaults() {
    let dirs = Dirs::from_platform("/c".to_string(), "/d".to_string(), "/k".to_string());
    assert_eq!(dirs.log, "/d/logs");
    assert_eq!(dirs.config_file(), "/c/config.json");
    let config = Config::default();
    assert_eq!(config.log.level, "info");
    assert_eq!(config.log_dir(&dirs), "/d/logs");
    let cli = Cli::default();
    assert_eq!(cli.config_file(&dirs), "/c/config.json");
    let given = Cli {
        config: Some("/x.json".to_string()),
        ..Cli::default()
    };
    assert_eq!(given.config_file(&dirs), "/x.json");
}
