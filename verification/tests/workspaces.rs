//! Workspaces, their links and the lines of their `.gitignore`.

use looper::gitignore::{apply, contains, line_for, GitignoreEdit};
use looper::ipc::{
    EmbeddingBackend, EnrichmentApiKeySource, EnrichmentConfig, KbBackend, LinkConfig, LinkNaming,
    LinkTargetKind, LinkingConfig, SyncDirection, SyncFolderConfig, SyncStrategy,
};
use looper::link::{
    ensure, has_generated_link, link_path, migrate_legacy, reconcile, remove, state, DesiredLink,
    DirEntry, Folder, LinkState, LinkStep, LEGACY_LINK_NAME, LINK_NAME,
};
use looper::linking::{known_targets, resolve_links};
use looper::natural::{alphanumeric_order, Order};
use looper::sorted::{KeyOrder, SortedMap};
use looper::workspace::{
    discover_folder_candidates, is_markdown_path, is_pruned_candidate, remove_folder, slugify,
    FolderEntry, Workspace, WorkspaceError, WorkspaceId, WorkspaceStore, DEFAULT_HTML_CACHE_SIZE,
};

fn store() -> WorkspaceStore {
    WorkspaceStore::open(Vec::new())
}

fn entry(name: &str, is_dir: bool, is_git_repo: bool, has_markdown: bool) -> FolderEntry {
    FolderEntry {
        file_name: name.to_string(),
        is_dir,
        path: format!("/root/{name}"),
        is_git_repo,
        has_markdown,
    }
}

#[test]
fn slugify_cases() {
    assert_eq!(slugify("My Docs"), "my-docs");
    assert_eq!(slugify("  Hello,  World!! "), "hello-world");
    assert_eq!(slugify("already-slug"), "already-slug");
    assert_eq!(slugify("!!!"), "");
}

#[test]
fn discovers_direct_child_folder_candidates() {
    let candidates = discover_folder_candidates(&vec![
        entry("repo", true, true, true),
        entry("docs", true, false, true),
        entry("plain", true, false, true),
        entry("target", true, false, false),
        entry("file.md", false, false, false),
    ]);
    let names: Vec<_> = candidates.iter().map(|c| c.name.as_str()).collect();
    assert_eq!(
        names,
        vec!["docs", "plain", "repo"],
        "candidate folders sort alphabetically, target is pruned, nested repos are not surfaced"
    );

    let repo = candidates.iter().find(|c| c.name == "repo").unwrap();
    assert!(repo.is_git_repo);
    assert!(repo.has_markdown, "git repos still get markdown labels");

    let docs = candidates.iter().find(|c| c.name == "docs").unwrap();
    assert!(!docs.is_git_repo);
    assert!(docs.has_markdown);

    let plain = candidates.iter().find(|c| c.name == "plain").unwrap();
    assert!(!plain.is_git_repo);
    assert!(
        plain.has_markdown,
        "markdown probe sees shallow nested docs"
    );
}

#[test]
fn discovery_sorts_candidates_alphanumerically() {
    let mut entries = Vec::new();
    for name in ["repo-10", "repo-2", "repo-1", "Repo-03", "alpha"] {
        entries.push(entry(name, true, false, false));
    }
    let candidates = discover_folder_candidates(&entries);
    let names: Vec<_> = candidates.iter().map(|c| c.name.as_str()).collect();
    assert_eq!(
        names,
        vec!["alpha", "repo-1", "repo-2", "Repo-03", "repo-10"]
    );
}

#[test]
fn numbers_in_names_count_as_numbers() {
    assert_eq!(alphanumeric_order("repo-2", "repo-10"), Order::Before);
    assert_eq!(alphanumeric_order("repo-10", "repo-2"), Order::After);
    assert_eq!(alphanumeric_order("a", "a"), Order::Same);
    assert!(is_pruned_candidate("target"));
    assert!(!is_pruned_candidate("docs"));
    assert!(is_markdown_path("a/b.MD"));
    assert!(!is_markdown_path("a/b.txt"));
}

#[test]
fn create_list_get_remove_round_trip() {
    let mut store = store();
    assert!(store.list().is_empty());

    let id = store.create(
        "My Docs".to_string(),
        vec!["/t/a".to_string()],
        "/t/kb".to_string(),
    );
    assert_eq!(id.as_str(), "my-docs");
    assert_eq!(store.list().len(), 1);
    assert!(store.get(&id).is_some());

    let mut reopened = WorkspaceStore::open(store.workspaces);
    assert_eq!(reopened.list().len(), 1);
    assert_eq!(reopened.get(&id).unwrap().name, "My Docs");

    reopened.rename(&id, "Renamed".to_string()).unwrap();
    assert_eq!(reopened.get(&id).unwrap().name, "Renamed");
    assert_eq!(reopened.get(&id).unwrap().id.as_str(), "my-docs");

    reopened
        .set_folders(&id, vec!["/t/b".to_string()])
        .unwrap();
    assert_eq!(reopened.get(&id).unwrap().folders, vec!["/t/b"]);

    reopened.remove(&id).unwrap();
    assert!(reopened.list().is_empty());
    assert!(matches!(
        reopened.remove(&id),
        Err(WorkspaceError::NotFound(_))
    ));
    assert!(matches!(
        reopened.rename(&id, "x".to_string()),
        Err(WorkspaceError::NotFound(_))
    ));
}

#[test]
fn workspace_errors_say_what_failed() {
    let e = WorkspaceError::Link {
        link: "/a".to_string(),
        target: "/b".to_string(),
        message: "no".to_string(),
    };
    assert_eq!(e.message(), "failed to create .looper link /a -> /b: no");
    assert_eq!(
        WorkspaceError::LinkOccupied("/a".to_string()).message(),
        "a non-link entry already exists at /a; refusing to overwrite it"
    );
    assert_eq!(
        WorkspaceError::NotFound("x".to_string()).message(),
        "workspace not found: x"
    );
}

fn docs(store: &mut WorkspaceStore) -> WorkspaceId {
    store.create("Docs".to_string(), vec![], "/t/kb".to_string())
}

#[test]
fn html_cache_size_defaults_and_persists() {
    let mut store = store();
    let id = docs(&mut store);
    assert_eq!(
        store.get(&id).unwrap().html_cache_size,
        DEFAULT_HTML_CACHE_SIZE
    );
    store.set_html_cache_size(&id, 8).unwrap();
    let reopened = WorkspaceStore::open(store.workspaces);
    assert_eq!(reopened.get(&id).unwrap().html_cache_size, 8);
}

#[test]
fn enrichment_config_defaults_and_persists() {
    let mut store = store();
    let id = docs(&mut store);
    assert_eq!(
        store.get(&id).unwrap().enrichment,
        EnrichmentConfig::default()
    );
    assert!(!store.get(&id).unwrap().enrichment.enabled);

    store
        .set_enrichment_config(
            &id,
            EnrichmentConfig {
                enabled: true,
                api_key_source: EnrichmentApiKeySource::Specified,
                enrich_after_scan: true,
                embedding_backend: EmbeddingBackend::Gemini,
            },
        )
        .unwrap();
    let reopened = WorkspaceStore::open(store.workspaces);
    let enrichment = &reopened.get(&id).unwrap().enrichment;
    assert!(enrichment.enabled);
    assert_eq!(
        enrichment.api_key_source,
        EnrichmentApiKeySource::Specified
    );
    assert!(enrichment.enrich_after_scan);
}

#[test]
fn linking_config_defaults_and_persists() {
    let mut store = store();
    let id = docs(&mut store);
    assert_eq!(store.get(&id).unwrap().linking, LinkingConfig::default());

    let config = LinkingConfig {
        specs_folders: vec!["/ws/specs".to_string()],
        links: vec![LinkConfig {
            host: "/ws/code".to_string(),
            kind: LinkTargetKind::Kb,
            specs_folder: None,
            naming: LinkNaming::Custom,
            custom_name: Some("brain".to_string()),
            gitignore: true,
        }],
    };
    store.set_linking_config(&id, config.clone()).unwrap();
    let reopened = WorkspaceStore::open(store.workspaces);
    assert_eq!(reopened.get(&id).unwrap().linking, config);
}

#[test]
fn folder_sync_config_upsert_and_remove() {
    let mut store = store();
    let id = docs(&mut store);

    let mut cfg = SyncFolderConfig {
        folder: "/ws/a".to_string(),
        is_kb: false,
        is_git_repo: true,
        enabled: true,
        strategy: SyncStrategy::Git,
        branch: "main".to_string(),
        direction: SyncDirection::PullPush,
        dolt: None,
    };
    store.set_folder_sync_config(&id, cfg.clone()).unwrap();
    assert_eq!(store.get(&id).unwrap().sync.len(), 1);

    cfg.direction = SyncDirection::PullOnly;
    store.set_folder_sync_config(&id, cfg.clone()).unwrap();
    let synced = &store.get(&id).unwrap().sync;
    assert_eq!(synced.len(), 1);
    assert_eq!(synced[0].direction, SyncDirection::PullOnly);
    assert!(remove_folder(synced, "/ws/a").is_empty());
    assert_eq!(remove_folder(synced, "/ws/b").len(), 1);

    let mut reopened = WorkspaceStore::open(store.workspaces);
    assert_eq!(reopened.get(&id).unwrap().sync.len(), 1);

    cfg.enabled = false;
    reopened.set_folder_sync_config(&id, cfg).unwrap();
    assert!(reopened.get(&id).unwrap().sync.is_empty());
}

#[test]
fn ids_are_disambiguated() {
    let mut store = store();
    let a = store.create("Docs".to_string(), vec![], "/t/kb1".to_string());
    let b = store.create("Docs".to_string(), vec![], "/t/kb2".to_string());
    assert_eq!(a.as_str(), "docs");
    assert_eq!(b.as_str(), "docs-2");
    assert_eq!(store.unique_id("Docs").as_str(), "docs-3");
    assert_eq!(store.unique_id("!!!").as_str(), "workspace");
}

#[test]
fn exclusion_paths_cover_kb_and_folder_links() {
    let ws = Workspace {
        id: WorkspaceId("w".to_string()),
        name: "w".to_string(),
        folders: vec!["/ws/a".to_string(), "/ws/b".to_string()],
        kb_dir: "/ws/kb".to_string(),
        html_cache_size: DEFAULT_HTML_CACHE_SIZE,
        sync: Vec::new(),
        backend: KbBackend::Okf,
        enrichment: EnrichmentConfig::default(),
        linking: LinkingConfig::default(),
        watched_extensions: vec!["md".to_string()],
    };
    let ex = ws.exclusion_paths();
    assert!(ex.contains(&"/ws/kb".to_string()));
    assert!(ex.contains(&"/ws/a/kb".to_string()));
    assert!(ex.contains(&"/ws/b/kb".to_string()));
}

// ------------------------------------------------------------------------------ links

fn folder(entries: &[(&str, DirEntry)]) -> Folder {
    let mut standing = SortedMap::new(KeyOrder::Text);
    for (name, e) in entries {
        standing.insert(name.to_string(), e.clone());
    }
    Folder {
        path: "/t/repo".to_string(),
        entries: standing,
        canonical: SortedMap::new(KeyOrder::Text),
    }
}

fn link_to(target: &str) -> DirEntry {
    DirEntry::Link(Some(target.to_string()))
}

#[test]
fn linking_lifecycle() {
    let mut f = folder(&[]);
    let mut steps = Vec::new();

    assert_eq!(state(&f, "/t/kb"), LinkState::Missing);
    assert_eq!(ensure(&mut f, "/t/kb", &mut steps).unwrap(), LinkState::Linked);
    assert_eq!(state(&f, "/t/kb"), LinkState::Linked);
    assert_eq!(link_path("/t/repo"), "/t/repo/kb");
    assert!(f.entries.contains_key(LINK_NAME));

    assert_eq!(ensure(&mut f, "/t/kb", &mut steps).unwrap(), LinkState::Linked);
    assert_eq!(steps.len(), 1);

    assert_eq!(state(&f, "/t/kb2"), LinkState::Mismatched);
    assert_eq!(ensure(&mut f, "/t/kb2", &mut steps).unwrap(), LinkState::Linked);
    assert_eq!(state(&f, "/t/kb2"), LinkState::Linked);

    remove(&mut f, &mut steps).unwrap();
    assert_eq!(state(&f, "/t/kb2"), LinkState::Missing);
    assert_eq!(
        steps,
        vec![
            LinkStep::Create {
                name: "kb".to_string(),
                target: "/t/kb".to_string()
            },
            LinkStep::Remove {
                name: "kb".to_string()
            },
            LinkStep::Create {
                name: "kb".to_string(),
                target: "/t/kb2".to_string()
            },
            LinkStep::Remove {
                name: "kb".to_string()
            },
        ]
    );
}

#[test]
fn refuses_to_clobber_a_real_directory() {
    let mut f = folder(&[(LINK_NAME, DirEntry::Real)]);
    let mut steps = Vec::new();
    assert_eq!(state(&f, "/t/kb"), LinkState::Occupied);
    assert!(matches!(
        ensure(&mut f, "/t/kb", &mut steps),
        Err(WorkspaceError::LinkOccupied(_))
    ));
    assert!(matches!(
        remove(&mut f, &mut steps),
        Err(WorkspaceError::LinkOccupied(_))
    ));
    assert!(steps.is_empty());
}

#[test]
fn migrates_legacy_looper_link_to_kb() {
    let mut f = folder(&[(LEGACY_LINK_NAME, link_to("/t/kb"))]);
    let mut steps = Vec::new();
    migrate_legacy(&mut f, "/t/kb", &mut steps).unwrap();
    assert!(!f.entries.contains_key(LEGACY_LINK_NAME));
    assert_eq!(state(&f, "/t/kb"), LinkState::Linked);
}

#[test]
fn migrate_leaves_a_real_dotfile_alone() {
    let mut f = folder(&[(LEGACY_LINK_NAME, DirEntry::Real)]);
    let mut steps = Vec::new();
    migrate_legacy(&mut f, "/t/kb", &mut steps).unwrap();
    assert!(f.entries.contains_key(LEGACY_LINK_NAME));
    assert_eq!(state(&f, "/t/kb"), LinkState::Missing);
    assert!(steps.is_empty());
}

fn desired(name: &str, target: &str) -> DesiredLink {
    DesiredLink {
        name: name.to_string(),
        target: target.to_string(),
    }
}

#[test]
fn reconcile_creates_repairs_and_evicts_generated_links() {
    let known = vec!["/t/kb".to_string(), "/t/specs".to_string()];
    let mut f = folder(&[("README.md", DirEntry::Real), ("mine", link_to("/t/elsewhere"))]);
    let mut steps = Vec::new();

    let out = reconcile(
        &mut f,
        &vec![desired("kb", "/t/kb"), desired("specs", "/t/specs")],
        &known,
        &mut steps,
    )
    .unwrap();
    assert_eq!(out.linked, vec!["kb".to_string(), "specs".to_string()]);
    assert!(out.removed.is_empty());
    assert_eq!(f.state_named("kb", "/t/kb"), LinkState::Linked);
    assert_eq!(f.state_named("specs", "/t/specs"), LinkState::Linked);
    assert!(has_generated_link(&f, &known));

    let out = reconcile(&mut f, &vec![desired("kb", "/t/kb")], &known, &mut steps).unwrap();
    assert_eq!(out.removed, vec!["specs".to_string()]);
    assert_eq!(f.state_named("kb", "/t/kb"), LinkState::Linked);
    assert!(!f.entries.contains_key("specs"));

    let out = reconcile(&mut f, &vec![desired("brain", "/t/kb")], &known, &mut steps).unwrap();
    assert_eq!(out.removed, vec!["kb".to_string()]);
    assert_eq!(f.state_named("brain", "/t/kb"), LinkState::Linked);
    assert!(!f.entries.contains_key("kb"));

    let out = reconcile(&mut f, &vec![], &known, &mut steps).unwrap();
    assert_eq!(out.removed, vec!["brain".to_string()]);
    assert!(!has_generated_link(&f, &known));

    assert_eq!(f.entries.get("README.md"), Some(&DirEntry::Real));
    assert_eq!(f.entries.get("mine"), Some(&link_to("/t/elsewhere")));
}

#[test]
fn reconciling_again_changes_nothing() {
    let known = vec!["/t/kb".to_string()];
    let mut f = folder(&[]);
    let mut steps = Vec::new();
    let links = vec![desired("kb", "/t/kb")];
    reconcile(&mut f, &links, &known, &mut steps).unwrap();
    let before = steps.len();
    let again = reconcile(&mut f, &links, &known, &mut steps).unwrap();
    assert_eq!(steps.len(), before);
    assert!(again.removed.is_empty());
}

fn workspace_with(linking: LinkingConfig, kb: &str) -> Workspace {
    let mut store = store();
    let id = store.create("W".to_string(), vec![], kb.to_string());
    store.set_linking_config(&id, linking).unwrap();
    store.workspaces.remove(0)
}

fn no_names() -> SortedMap<String> {
    SortedMap::new(KeyOrder::Text)
}

#[test]
fn defaults_link_kb_and_each_spec_with_default_names() {
    let w = workspace_with(
        LinkingConfig {
            specs_folders: vec!["/ws/specs".into()],
            links: vec![],
        },
        "/ws/kb",
    );
    let r = resolve_links(&w, "/ws/code", &no_names());
    assert_eq!(
        r.desired,
        vec![desired("kb", "/ws/kb"), desired("specs", "/ws/specs")]
    );
    assert!(r.gitignore_names.is_empty());
    assert_eq!(known_targets(&w), vec!["/ws/kb", "/ws/specs"]);
}

fn kb_link(naming: LinkNaming, custom: Option<&str>, gitignore: bool) -> LinkingConfig {
    LinkingConfig {
        specs_folders: vec![],
        links: vec![LinkConfig {
            host: "/ws/code".into(),
            kind: LinkTargetKind::Kb,
            specs_folder: None,
            naming,
            custom_name: custom.map(|c| c.to_string()),
            gitignore,
        }],
    }
}

#[test]
fn per_host_overrides_name_and_gitignore_independently() {
    let w = workspace_with(kb_link(LinkNaming::Custom, Some("brain"), true), "/ws/kb");
    let a = resolve_links(&w, "/ws/code", &no_names());
    assert_eq!(a.desired, vec![desired("brain", "/ws/kb")]);
    assert_eq!(a.gitignore_names, vec!["brain".to_string()]);
    let b = resolve_links(&w, "/ws/other", &no_names());
    assert_eq!(b.desired, vec![desired("kb", "/ws/kb")]);
    assert!(b.gitignore_names.is_empty());
}

#[test]
fn settings_of_other_hosts_leave_links_alone() {
    let own = kb_link(LinkNaming::Custom, Some("brain"), true).links;
    let settings = |host: &str, name: &str, gitignore| LinkConfig {
        host: host.to_string(),
        kind: LinkTargetKind::Kb,
        specs_folder: None,
        naming: LinkNaming::Custom,
        custom_name: Some(name.to_string()),
        gitignore,
    };
    let mut links = vec![settings("/ws/other", "x", false)];
    links.extend(own);
    links.push(settings("/ws/third", "y", true));
    links.push(settings("/ws/code", "later", false));
    let w = workspace_with(
        LinkingConfig {
            specs_folders: vec![],
            links,
        },
        "/ws/kb",
    );
    let r = resolve_links(&w, "/ws/code", &no_names());
    assert_eq!(r.desired, vec![desired("brain", "/ws/kb")]);
    assert_eq!(r.gitignore_names, vec!["brain".to_string()]);
}

#[test]
fn names_are_the_same_where_only_case_differs() {
    assert_eq!(alphanumeric_order("Docs 10", "dOCS 10"), Order::Same);
    assert_ne!(alphanumeric_order("docs 10", "docs 010"), Order::Same);
    assert_ne!(alphanumeric_order("\u{c4}", "\u{e4}"), Order::Same);
}

#[test]
fn a_specs_folder_is_never_a_host() {
    let w = workspace_with(
        LinkingConfig {
            specs_folders: vec!["/ws/specs".into()],
            links: vec![],
        },
        "/ws/kb",
    );
    assert!(resolve_links(&w, "/ws/specs", &no_names()).desired.is_empty());
}

#[test]
fn git_true_name_falls_back_to_local_dir_off_repo() {
    let w = workspace_with(kb_link(LinkNaming::GitTrueName, None, false), "/ws/kb-store");
    let r = resolve_links(&w, "/ws/code", &no_names());
    assert_eq!(r.desired.len(), 1);
    assert_eq!(r.desired[0].name, "kb-store");

    let mut names = no_names();
    names.insert("/ws/kb-store".to_string(), "widgets".to_string());
    assert_eq!(resolve_links(&w, "/ws/code", &names).desired[0].name, "widgets");
}

// -------------------------------------------------------------------------- gitignore

/// Applies an edit to the text of a `.gitignore`, if there is one.
fn applied(text: Option<String>, name: &str, enabled: bool) -> Option<String> {
    match apply(text.as_deref(), name, enabled) {
        GitignoreEdit::Keep => text,
        GitignoreEdit::Write(t) => Some(t),
        GitignoreEdit::Delete => None,
    }
}

#[test]
fn appends_and_removes_anchored_lines_preserving_user_content() {
    let gi = Some("target/\n*.log\n".to_string());

    let gi = applied(gi, "kb", true);
    assert_eq!(gi.as_deref(), Some("target/\n*.log\n/kb\n"));
    assert!(contains(gi.as_deref(), "kb"));

    let gi = applied(gi, "kb", true);
    assert_eq!(gi.as_deref(), Some("target/\n*.log\n/kb\n"));

    let gi = applied(gi, "specs", true);
    assert_eq!(gi.as_deref(), Some("target/\n*.log\n/kb\n/specs\n"));

    let gi = applied(gi, "kb", false);
    assert_eq!(gi.as_deref(), Some("target/\n*.log\n/specs\n"));
    assert!(!contains(gi.as_deref(), "kb"));

    let gi = applied(gi, "kb", false);
    assert_eq!(gi.as_deref(), Some("target/\n*.log\n/specs\n"));
}

#[test]
fn creates_then_removes_an_otherwise_empty_gitignore() {
    let gi = applied(None, "kb", true);
    assert_eq!(gi.as_deref(), Some("/kb\n"));

    let gi = applied(gi, "kb", false);
    assert!(
        gi.is_none(),
        "a .gitignore Looper created + emptied is cleaned up"
    );
    assert_eq!(line_for("kb"), "/kb");
}
