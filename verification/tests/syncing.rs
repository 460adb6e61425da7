//! Repositories and syncing them, with git's replies given.

use looper::fileshare::{
    branch_name, commit_message, count_in, push_reply, remote_in, SyncCycle,
};
use looper::git::{
    is_pruned, repo_name_from_remote_url, tracked_repo, HeadState, Inspection, RepoWalk, WalkEntry,
};
use looper::ipc::{
    ConflictFile, SyncDirection, SyncFolderConfig, SyncResolution, SyncStrategy, SyncTestReport,
};
use looper::probe::{detect_git, git_candidates, resolve_git, GitLocator, GitProbe, GitTest};
use looper::sync::{
    classify, is_auth_error, printed_by, GitOutput, GitReply, SyncError, SyncOutcome, SyncProbe,
};
use looper::syncer::{
    DefaultSyncer, DoltBackend, GitFileshareBackend, MockSyncer, SyncBackend, Syncer,
};

fn strings(texts: &[&str]) -> Vec<String> {
    texts.iter().map(|t| t.to_string()).collect()
}

#[test]
fn repo_name_from_remote_url_handles_url_forms() {
    let cases: &[(&str, Option<&str>)] = &[
        ("https://github.com/acme/widgets.git", Some("widgets")),
        ("https://github.com/acme/widgets", Some("widgets")),
        ("git@github.com:acme/widgets.git", Some("widgets")),
        ("git@github.com:acme/widgets", Some("widgets")),
        ("ssh://git@github.com/acme/widgets.git", Some("widgets")),
        (
            "https://example.com/a/b/c/deep-repo.git/",
            Some("deep-repo"),
        ),
        ("file:///srv/git/local-repo.git", Some("local-repo")),
        ("", None),
        ("/", None),
    ];
    for (url, want) in cases {
        assert_eq!(
            repo_name_from_remote_url(url).as_deref(),
            *want,
            "url={url}"
        );
    }
}

fn dir(parent: &str, name: &str) -> WalkEntry {
    WalkEntry {
        name: name.to_string(),
        path: format!("{parent}/{name}"),
        is_dir: true,
    }
}

fn plain(path: &str, entries: Vec<WalkEntry>) -> Inspection {
    Inspection {
        is_repo: false,
        canonical: path.to_string(),
        repo: None,
        entries,
    }
}

fn repository(path: &str) -> Inspection {
    Inspection {
        is_repo: true,
        canonical: path.to_string(),
        repo: Some(tracked_repo(
            path.to_string(),
            format!("{path}/.git"),
            HeadState::Branch("main".to_string()),
        )),
        entries: Vec::new(),
    }
}

#[test]
fn discovers_repos_skips_non_repos_and_reads_head() {
    let mut walk = RepoWalk::discover_repos(&strings(&["/root"]));
    let mut visited = Vec::new();
    loop {
        let Some(path) = walk.next().map(|p| p.to_string()) else {
            break;
        };
        visited.push(path.clone());
        walk.visit(match path.as_str() {
            "/root" => plain(
                "/root",
                vec![
                    dir("/root", "repo-a"),
                    dir("/root", "nested"),
                    dir("/root", "not-a-repo"),
                    dir("/root", "node_modules"),
                ],
            ),
            "/root/nested" => plain("/root/nested", vec![dir("/root/nested", "repo-b")]),
            "/root/repo-a" | "/root/nested/repo-b" => repository(&path),
            other => plain(other, Vec::new()),
        });
    }
    let names: Vec<&str> = walk.repos.iter().map(|r| r.name.as_str()).collect();
    assert!(names.contains(&"repo-a"));
    assert!(names.contains(&"repo-b"), "should find nested repos");
    assert!(!names.contains(&"not-a-repo"));
    assert!(!names.contains(&"pkg"), "node_modules should be pruned");
    assert!(!visited.contains(&"/root/node_modules".to_string()));

    let a = walk.repos.iter().find(|r| r.name == "repo-a").unwrap();
    assert_eq!(a.head, HeadState::Branch("main".to_string()));
    assert!(is_pruned("node_modules"));
    assert!(!is_pruned("nested"));
}

fn cfg(strategy: SyncStrategy) -> SyncFolderConfig {
    SyncFolderConfig {
        folder: "/tmp/x".to_string(),
        is_kb: false,
        is_git_repo: true,
        enabled: true,
        strategy,
        branch: "main".to_string(),
        direction: SyncDirection::PullPush,
        dolt: None,
    }
}

fn pull_only() -> SyncFolderConfig {
    SyncFolderConfig {
        direction: SyncDirection::PullOnly,
        ..cfg(SyncStrategy::Git)
    }
}

fn ok(stdout: &str) -> GitReply {
    GitReply::Ran(GitOutput {
        success: true,
        code: Some(0),
        stdout: stdout.to_string(),
        stderr: String::new(),
    })
}

fn failed(code: i32, stderr: &str) -> GitReply {
    GitReply::Ran(GitOutput {
        success: false,
        code: Some(code),
        stdout: String::new(),
        stderr: stderr.to_string(),
    })
}

fn on_main() -> Option<HeadState> {
    Some(HeadState::Branch("main".to_string()))
}

/// Runs a cycle against a git that replies as `reply` says, and lists what it was asked.
fn run(mut cycle: SyncCycle, reply: impl Fn(&[String], usize) -> GitReply) -> (SyncCycle, Vec<String>) {
    cycle.opened(on_main());
    let mut asked: Vec<String> = Vec::new();
    while cycle.outcome.is_none() {
        let args = cycle.ask(7);
        assert!(asked.len() < 100, "no end: {asked:?}");
        let nth = asked.len();
        asked.push(args.join(" "));
        let r = reply(&args, nth);
        cycle.tell(&args, r);
    }
    (cycle, asked)
}

#[test]
fn pulls_remote_changes() {
    let (cycle, asked) = run(
        SyncCycle::sync("/a", &cfg(SyncStrategy::Git)),
        |args, _| match args[0].as_str() {
            "rev-parse" => ok("origin/main\n"),
            "rev-list" => ok("0\t1\n"),
            _ => ok(""),
        },
    );
    assert!(matches!(
        cycle.outcome,
        Some(Ok(SyncOutcome::Updated { pulled: true, .. }))
    ));
    assert!(asked.contains(&"merge --ff-only origin/main".to_string()));
}

#[test]
fn commits_and_pushes_local_changes() {
    let (cycle, asked) = run(
        SyncCycle::sync("/a", &cfg(SyncStrategy::Git)),
        |args, _| match (args[0].as_str(), args.len()) {
            ("rev-parse", _) => ok("origin/main\n"),
            ("diff", 3) if args[1] == "--cached" => failed(1, ""),
            ("rev-list", _) => ok("1\t0\n"),
            _ => ok(""),
        },
    );
    assert!(matches!(
        cycle.outcome,
        Some(Ok(SyncOutcome::Updated { pushed: true, .. }))
    ));
    assert!(asked.contains(&"push origin main".to_string()));
    assert!(asked.contains(&format!("commit --no-edit -m {}", commit_message(7))));
}

#[test]
fn detects_and_resolves_conflict_use_mine() {
    let c = cfg(SyncStrategy::Git);
    let (cycle, _) = run(SyncCycle::sync("/a", &c), |args, nth| {
        match args[0].as_str() {
            "rev-parse" => ok("origin/main\n"),
            "diff" if args[1] == "--cached" => failed(1, ""),
            "diff" if nth > 2 => ok("readme.md\n"),
            "rev-list" => ok("1\t1\n"),
            "merge" => failed(1, "CONFLICT"),
            _ => ok(""),
        }
    });
    match cycle.outcome {
        Some(Ok(SyncOutcome::Conflict { files })) => {
            assert!(files.iter().any(|f| f.path.contains("readme.md")));
        }
        other => panic!("expected a conflict, got {other:?}"),
    }

    let (resolved, asked) = run(
        SyncCycle::resolve("/a", &c, SyncResolution::UseMine),
        |args, _| match args[0].as_str() {
            "rev-parse" => ok("origin/main\n"),
            "diff" => ok("readme.md\n"),
            _ => ok(""),
        },
    );
    assert!(matches!(resolved.outcome, Some(Ok(_))));
    assert!(asked.contains(&"checkout --ours -- readme.md".to_string()));
    assert!(asked.contains(&"push origin main".to_string()));
}

#[test]
fn pull_only_never_pushes() {
    let (cycle, asked) = run(SyncCycle::sync("/a", &pull_only()), |args, _| {
        match args[0].as_str() {
            "rev-parse" => ok("origin/main\n"),
            "rev-list" => ok("0\t0\n"),
            _ => ok(""),
        }
    });
    assert!(matches!(
        cycle.outcome,
        Some(Ok(SyncOutcome::UpToDate | SyncOutcome::Updated { pushed: false, .. }))
    ));
    assert!(asked.iter().all(|a| !a.starts_with("push") && !a.starts_with("commit")));
}

#[test]
fn cycles_fail_where_git_does() {
    let mut elsewhere = SyncCycle::sync("/a", &cfg(SyncStrategy::Git));
    elsewhere.opened(Some(HeadState::Branch("other".to_string())));
    assert!(matches!(
        elsewhere.outcome,
        Some(Err(SyncError::NotOnSyncBranch { expected, actual }))
            if expected == "main" && actual == "other"
    ));

    let (none, _) = run(SyncCycle::sync("/a", &cfg(SyncStrategy::Git)), |args, _| {
        match args[0].as_str() {
            "rev-parse" => failed(128, "no upstream"),
            _ => ok(""),
        }
    });
    assert!(matches!(
        none.outcome,
        Some(Err(SyncError::NoRemote { folder })) if folder == "/a"
    ));

    let (auth, _) = run(SyncCycle::sync("/a", &cfg(SyncStrategy::Git)), |args, _| {
        match args[0].as_str() {
            "rev-parse" => ok("origin/main\n"),
            "fetch" => failed(128, "fatal: Authentication failed for 'x'"),
            _ => ok(""),
        }
    });
    assert!(matches!(auth.outcome, Some(Err(SyncError::Auth { .. }))));

    let (spawn, _) = run(SyncCycle::sync("/a", &cfg(SyncStrategy::Git)), |args, _| {
        match args[0].as_str() {
            "rev-parse" => ok("origin/main\n"),
            "fetch" => GitReply::Failed("no such file".to_string()),
            _ => ok(""),
        }
    });
    assert!(matches!(spawn.outcome, Some(Err(SyncError::Io(_)))));
}

#[test]
fn default_syncer_reports_dolt_unsupported() {
    let mut syncer = DefaultSyncer::new();
    let outcome = syncer.sync("/tmp/x", &cfg(SyncStrategy::Dolt));
    assert!(matches!(
        outcome,
        Err(SyncError::Unsupported(SyncStrategy::Dolt))
    ));
    assert_eq!(DoltBackend.strategy(), SyncStrategy::Dolt);
    assert!(DoltBackend.probe("/tmp/x", &cfg(SyncStrategy::Dolt)).is_err());
}

#[test]
fn git_backend_is_registered() {
    let mut syncer = DefaultSyncer::new();
    let mut cycle = syncer
        .sync("/looper-nonexistent-not-a-repo", &cfg(SyncStrategy::Git))
        .unwrap();
    cycle.opened(None);
    let outcome = cycle.outcome.unwrap();
    assert!(matches!(outcome, Err(SyncError::NotARepo(_))));
    let backend = GitFileshareBackend::new(GitLocator::new("git".to_string()));
    assert_eq!(backend.strategy(), SyncStrategy::Git);
}

#[test]
fn mock_syncer_scripts_outcomes_and_counts_calls() {
    let mut mock = MockSyncer::default();
    mock.script_sync(SyncOutcome::Updated {
        pulled: true,
        pushed: false,
    });
    let c = cfg(SyncStrategy::Git);

    assert_eq!(
        mock.sync("/tmp/x", &c).unwrap(),
        SyncOutcome::Updated {
            pulled: true,
            pushed: false
        }
    );
    assert_eq!(mock.sync("/tmp/x", &c).unwrap(), SyncOutcome::UpToDate);
    assert_eq!(mock.sync_calls(), 2);

    mock.probe("/tmp/x", &c).unwrap();
    mock.resolve("/tmp/x", &c, SyncResolution::UseMine).unwrap();
    assert_eq!(mock.probe_calls(), 1);
    assert_eq!(mock.resolve_calls(), 1);
}

#[test]
fn queued_outcomes_come_first_in_first_out() {
    let conflict = |path: &str| SyncOutcome::Conflict {
        files: vec![ConflictFile {
            path: path.to_string(),
            detail: None,
        }],
    };
    let c = cfg(SyncStrategy::Git);
    let mut mock = MockSyncer::default();
    mock.script_sync(conflict("a"));
    mock.script_sync(conflict("b"));
    mock.script_sync(conflict("c"));
    assert_eq!(mock.sync_calls(), 0);
    for path in ["a", "b", "c"] {
        assert_eq!(mock.sync("/x", &c).unwrap(), conflict(path));
    }
    assert_eq!(mock.sync("/x", &c).unwrap(), SyncOutcome::UpToDate);
    assert_eq!(mock.sync("/x", &c).unwrap(), SyncOutcome::UpToDate);
    assert_eq!((mock.sync_calls(), mock.probe_calls(), mock.resolve_calls()), (5, 0, 0));
}

// ------------------------------------------------------------------------------ probe

#[test]
fn resolve_git_finds_git_on_path() {
    let dirs = strings(&["/usr/local/bin", "/usr/bin"]);
    let files = strings(&["/usr/bin/git"]);
    assert_eq!(
        resolve_git(None, &dirs, &files).as_deref(),
        Some("/usr/bin/git"),
        "git should resolve on PATH"
    );
    assert!(resolve_git(Some("/definitely/not/git"), &dirs, &files).is_none());
    assert!(git_candidates(None, &dirs).contains(&"/usr/local/bin/git".to_string()));
    let info = detect_git(Some("/usr/bin/git".to_string()), &ok("git version 2.43.0\n")).unwrap();
    assert_eq!(info.path, "/usr/bin/git");
    assert_eq!(info.version, "git version 2.43.0");
    assert!(detect_git(None, &ok("git version 2.43.0\n")).is_none());
    let mut locator = GitLocator::resolved(None);
    assert_eq!(locator.current(), "git");
    locator.set(Some("/usr/bin/git".to_string()));
    assert_eq!(locator.current(), "/usr/bin/git");
}

#[test]
fn probe_reports_non_repo() {
    let mut probe = GitProbe::new("/t", &cfg(SyncStrategy::Git));
    probe.opened(None);
    assert!(probe.ask().is_empty());
    assert!(!probe.found.manageable);
}

#[test]
fn probe_counts_what_is_ahead_and_behind() {
    let mut probe = GitProbe::new("/t", &cfg(SyncStrategy::Git));
    probe.opened(on_main());
    loop {
        let args = probe.ask();
        if args.is_empty() {
            break;
        }
        let reply = match args[0].as_str() {
            "remote" => ok("origin\n"),
            "rev-parse" => ok("origin/main\n"),
            "rev-list" => ok("2\t3\n"),
            _ => ok(""),
        };
        probe.tell(&args, reply);
    }
    let found: SyncProbe = probe.found;
    assert!(found.manageable);
    assert!(found.has_remote);
    assert_eq!(found.branch.as_deref(), Some("main"));
    assert_eq!((found.ahead, found.behind), (2, 3));
    assert!(!found.conflicted);
}

fn tested(head: Option<HeadState>) -> SyncTestReport {
    let mut test = GitTest::git_test("git", "/a", &cfg(SyncStrategy::Git));
    let mut opened = false;
    for _ in 0..20 {
        let args = test.ask();
        if args.is_empty() {
            if opened {
                break;
            }
            opened = true;
            test.opened(head.clone());
            continue;
        }
        let reply = match args[0].as_str() {
            "--version" => ok("git version 2.43.0\n"),
            "rev-parse" => ok("origin/main\n"),
            _ => ok(""),
        };
        test.tell(&args, reply);
    }
    test.report
}

#[test]
fn git_test_reports_repo_and_remote() {
    let report = tested(on_main());
    assert!(report.git.is_some());
    assert!(report.is_repo);
    assert_eq!(report.branch.as_deref(), Some("main"));
    assert!(report.has_remote);
    assert_eq!(report.remote_reachable, Some(true));
    assert!(report.ok, "expected ok, got: {}", report.summary);
}

#[test]
fn git_test_flags_a_non_repo() {
    let report = tested(None);
    assert!(!report.is_repo);
    assert!(!report.ok);
}

#[test]
fn replies_are_told_apart() {
    assert_eq!(branch_name(HeadState::Branch("b".to_string())).as_deref(), Some("b"));
    assert_eq!(branch_name(HeadState::Unborn), None);
    assert_eq!(remote_in("origin/main"), "origin");
    assert_eq!(count_in("4\t5\n"), (4, 5));
    assert_eq!(commit_message(7), "looper auto-sync @ 7");
    assert!(is_auth_error("fatal: could not read Username for 'x'"));
    assert!(!is_auth_error("fatal: bad object"));
    let args = strings(&["push", "origin", "main"]);
    assert!(push_reply("/a", &args, &ok("")).unwrap());
    assert!(push_reply("/a", &args, &failed(1, "denied")).is_err());
    assert_eq!(printed_by("/a", &args, &ok("x\n")).unwrap(), "x");
    let out = GitOutput {
        success: false,
        code: Some(2),
        stdout: String::new(),
        stderr: "bad".to_string(),
    };
    let e = classify("/a", &args, &out);
    assert!(matches!(&e, SyncError::GitCli { args, code: Some(2), stderr } if args == "push origin main" && stderr == "bad"));
    assert!(e.message().contains("bad"));
    let file = ConflictFile {
        path: "a.md".to_string(),
        detail: None,
    };
    assert_eq!(
        SyncOutcome::Conflict {
            files: vec![file.clone()]
        },
        SyncOutcome::Conflict { files: vec![file] }
    );
}
