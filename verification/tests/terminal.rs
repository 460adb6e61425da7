//! The command line, the terminal view and the demo.

use looper::activity::{
    change_label, clock, markdown_lines, plural, App, Focus, Key, KeyAction, LineLook, RowKind, Status,
    MAX_ROWS,
};
use looper::cli::{
    ad_hoc, asks_nothing, candidate_label, check_folders, choose_source, create_in, creation_lines,
    describe_event, expand_tilde, find_workspace, folder_label, home_dir, list_lines,
    needs_confirmation, required_kb_dir, scan_result, scan_summary, store_path, typed_kb_dir, Answer,
    CreateError, GivenFolder, Interview, Question, Source, SourceArgs, SourceError,
};
use looper::demo::{edit, is_doc, is_marker, reset_text, strip_markers};
use looper::ipc::{EngineChangeKind, EngineEvent, WorkspaceFolderCandidate};
use looper::text::{decimal_of, lines_of, parse_number, signed_decimal_of};
use looper::workspace::WorkspaceStore;

fn wid() -> String {
    "w".to_string()
}

fn indexed(path: &str, title: &str) -> EngineEvent {
    EngineEvent::DocIndexed {
        workspace_id: wid(),
        concept_id: "c".to_string(),
        okf_id: "o".to_string(),
        path: path.to_string(),
        title: title.to_string(),
        labels: Vec::new(),
    }
}

// ------------------------------------------------------------------------------- cli

#[test]
fn events_are_told_in_a_line() {
    let lines = [
        (
            EngineEvent::ScanStarted {
                workspace_id: wid(),
                total: 3,
            },
            "scan: 3 change(s) to apply…",
        ),
        (indexed("/ws/a.md", "A"), "indexed: A  (/ws/a.md)"),
        (
            EngineEvent::DocRemoved {
                workspace_id: wid(),
                path: "/ws/a.md".to_string(),
            },
            "removed: /ws/a.md",
        ),
        (
            EngineEvent::FileChanged {
                workspace_id: wid(),
                path: "/ws/a.md".to_string(),
                kind: EngineChangeKind::Modified,
            },
            "changed [Modified]: /ws/a.md",
        ),
        (
            EngineEvent::Warning {
                workspace_id: wid(),
                message: "careful".to_string(),
            },
            "warning: careful",
        ),
        (
            EngineEvent::ScanCompleted {
                workspace_id: wid(),
                indexed: 2,
                removed: 1,
            },
            "scan complete: 2 indexed, 1 removed",
        ),
    ];
    for (event, line) in &lines {
        assert_eq!(describe_event(event, "w").as_deref(), Some(*line));
        assert_eq!(describe_event(event, "other"), None);
    }
    assert_eq!(scan_result(&lines[5].0, "w"), Some((2, 1)));
    assert_eq!(scan_result(&lines[5].0, "other"), None);
    assert_eq!(scan_result(&lines[0].0, "w"), None);
    assert_eq!(
        scan_summary(2, 1, 5, "/kb").unwrap(),
        "{\"doc_count\":5,\"event\":\"scan_complete\",\"indexed\":2,\"kb_dir\":\"/kb\",\"removed\":1}"
    );
}

#[test]
fn home_is_expanded() {
    assert_eq!(expand_tilde("~/notes", Some("/home/me")), "/home/me/notes");
    assert_eq!(expand_tilde("~/notes", None), "~/notes");
    assert_eq!(expand_tilde("/notes", Some("/home/me")), "/notes");
    assert_eq!(home_dir(Some("/h".to_string()), None).as_deref(), Some("/h"));
    assert_eq!(home_dir(None, Some("/p".to_string())).as_deref(), Some("/p"));
    assert_eq!(home_dir(Some(String::new()), Some("/p".to_string())), None);
}

fn source(folders: &[&str], workspace: Option<&str>) -> SourceArgs {
    SourceArgs {
        folders: folders.iter().map(|f| f.to_string()).collect(),
        workspace: workspace.map(|w| w.to_string()),
        kb_dir: None,
        store: None,
    }
}

#[test]
fn a_command_has_one_source() {
    assert_eq!(
        choose_source(&source(&[], Some("docs"))),
        Ok(Source::Saved("docs".to_string()))
    );
    assert_eq!(choose_source(&source(&["/a"], None)), Ok(Source::AdHoc));
    assert_eq!(choose_source(&source(&["/a"], Some("docs"))), Err(SourceError::Both));
    assert_eq!(choose_source(&source(&[], None)), Err(SourceError::Neither));
    assert_eq!(
        SourceError::Both.message(),
        "pass either source folders OR --workspace, not both"
    );
    assert_eq!(store_path(&None, "/c"), "/c/workspaces.json");
    assert_eq!(store_path(&Some("/s.json".to_string()), "/c"), "/s.json");
}

fn given(path: &str, canonical: Option<&str>, is_dir: bool) -> GivenFolder {
    GivenFolder {
        given: path.to_string(),
        canonical: canonical.map(|c| c.to_string()),
        is_dir,
    }
}

#[test]
fn folders_of_a_new_workspace_are_checked() {
    let a = || given("a", Some("/ws/a"), true);
    assert_eq!(
        check_folders(&vec![a()], &vec![given("./a", Some("/ws/a"), true)]),
        Ok((vec!["/ws/a".to_string()], vec!["/ws/a".to_string()]))
    );
    assert_eq!(check_folders(&vec![], &vec![]), Err(CreateError::NoFolder));
    assert_eq!(
        check_folders(&vec![given("x", None, false)], &vec![]),
        Err(CreateError::NotAFolder("x".to_string()))
    );
    assert_eq!(
        check_folders(&vec![given("x", Some("/ws/x"), false)], &vec![]),
        Err(CreateError::NotAFolder("/ws/x".to_string()))
    );
    assert_eq!(
        check_folders(&vec![a()], &vec![given("b", Some("/ws/b"), true)]),
        Err(CreateError::SpecsNotInput("/ws/b".to_string()))
    );
    assert_eq!(
        required_kb_dir(None),
        Err(CreateError::MissingKbDir)
    );
    assert_eq!(required_kb_dir(Some("/kb".to_string())), Ok("/kb".to_string()));
    assert_eq!(
        CreateError::SpecsNotInput("/ws/b".to_string()).message(),
        "--specs-folder must also be supplied as an input --folder: /ws/b"
    );
    assert_eq!(CreateError::NotAFolder("x".to_string()).message(), "not a folder: x");
    assert!(asks_nothing(&Some("n".to_string()), &vec!["/a".to_string()]));
    assert!(!asks_nothing(&None, &vec!["/a".to_string()]));
    assert!(needs_confirmation(false, false));
    assert!(!needs_confirmation(true, false));
    assert!(!needs_confirmation(false, true));
}

#[test]
fn an_interview_asks_for_what_is_missing() {
    let mut talk = Interview::begin(None, Vec::new(), Vec::new(), None, None);
    assert_eq!(talk.question, Question::Name);
    talk.answer(Answer::Text("Docs".to_string()), Some("/home/me"));
    assert_eq!(talk.question, Question::Parent);
    talk.answer(Answer::Text(" ~/code ".to_string()), Some("/home/me"));
    assert_eq!(talk.question, Question::Candidates("/home/me/code".to_string()));
    talk.answer(Answer::Picked(Vec::new()), Some("/home/me"));
    assert_eq!(talk.question, Question::Folder);
    talk.answer(Answer::Text("  ".to_string()), Some("/home/me"));
    assert_eq!(talk.question, Question::Folder);
    talk.answer(Answer::Text("/ws/a".to_string()), Some("/home/me"));
    assert_eq!(talk.question, Question::IsFolder("/ws/a".to_string()));
    talk.answer(Answer::Yes(true), Some("/home/me"));
    assert_eq!(talk.question, Question::Another);
    talk.answer(Answer::Yes(false), Some("/home/me"));
    assert_eq!(talk.question, Question::Specs);
    talk.answer(Answer::Picked(vec!["/ws/a".to_string()]), Some("/home/me"));
    assert_eq!(talk.question, Question::KbDir);
    talk.answer(Answer::Text("~/kb".to_string()), Some("/home/me"));
    assert_eq!(talk.question, Question::Done);
    assert_eq!(talk.name.as_deref(), Some("Docs"));
    assert_eq!(talk.folders, vec!["/ws/a"]);
    assert_eq!(talk.specs_folders, vec!["/ws/a"]);
    assert_eq!(talk.kb_dir.as_deref(), Some("/home/me/kb"));

    let known = Interview::begin(
        Some("Docs".to_string()),
        vec!["/ws/a".to_string()],
        vec!["/ws/a".to_string()],
        None,
        Some("/kb".to_string()),
    );
    assert_eq!(known.question, Question::Done);
    let under = Interview::begin(
        Some("Docs".to_string()),
        Vec::new(),
        Vec::new(),
        Some("/code".to_string()),
        None,
    );
    assert_eq!(under.question, Question::Candidates("/code".to_string()));
    assert_eq!(typed_kb_dir(" /kb ", None).as_deref(), Some("/kb"));
    assert_eq!(typed_kb_dir("  ", None), None);
}

#[test]
fn workspaces_are_created_found_and_listed() {
    let mut store = WorkspaceStore::open(Vec::new());
    assert_eq!(list_lines(store.list(), "/s.json"), vec!["No workspaces in /s.json"]);
    let id = create_in(
        &mut store,
        "My Docs".to_string(),
        vec!["/ws/a".to_string()],
        vec!["/ws/a".to_string()],
        "/kb".to_string(),
    );
    assert_eq!(id.as_str(), "my-docs");
    assert_eq!(store.get(&id).unwrap().linking.specs_folders, vec!["/ws/a"]);
    assert!(find_workspace(store.list(), "My Docs").is_some());
    assert!(find_workspace(store.list(), "my-docs").is_some());
    assert!(find_workspace(store.list(), "docs").is_none());
    assert_eq!(
        list_lines(store.list(), "/s.json"),
        vec![
            "1 workspace(s) in /s.json:",
            "",
            "  My Docs (my-docs)",
            "    kb_dir:     /kb",
            "    backend:    Okf    enrichment: off",
            "    folders:",
            "      - /ws/a",
        ]
    );
    assert_eq!(
        creation_lines(
            "My Docs",
            "/s.json",
            "/kb",
            &vec!["/ws/a".to_string()],
            &vec!["/ws/a".to_string()]
        ),
        vec![
            "",
            "Workspace to create:",
            "  name:    My Docs",
            "  store:   /s.json",
            "  kb_dir:  /kb",
            "  folders:",
            "    - /ws/a",
            "  specs repos:",
            "    - /ws/a",
        ]
    );
    let w = ad_hoc(vec!["/ws/a".to_string()], "/kb".to_string());
    assert_eq!(w.id.as_str(), "looper-cli");
    assert_eq!(w.folders, vec!["/ws/a"]);
}

#[test]
fn candidates_are_shown_in_columns() {
    let c = WorkspaceFolderCandidate {
        name: "repo".to_string(),
        path: "/ws/repo".to_string(),
        is_git_repo: true,
        has_markdown: true,
    };
    assert_eq!(
        candidate_label(&c),
        format!("{:<8}  {:<28} {}", "git+docs", "repo", "/ws/repo")
    );
    assert_eq!(folder_label("/ws/repo"), format!("{:<28} {}", "repo", "/ws/repo"));
}

// -------------------------------------------------------------------------- terminal

fn app() -> App {
    App::new("Docs", "/kb", &vec!["/ws/notes".to_string()])
}

#[test]
fn events_become_rows() {
    let mut a = app();
    a.apply(
        EngineEvent::ScanStarted {
            workspace_id: wid(),
            total: 1,
        },
        "w",
        0,
        "00:00:01".to_string(),
    );
    assert_eq!(a.status, Status::Scanning);
    a.apply(indexed("/ws/notes/a.md", "A"), "w", 1, "00:00:02".to_string());
    a.apply(indexed("/ws/notes/b.md", "B"), "other", 1, "00:00:02".to_string());
    assert_eq!(a.rows.len(), 1);
    assert_eq!(a.rows[0].kind, RowKind::Indexed);
    assert_eq!(a.rows[0].title, "A");
    assert_eq!(a.doc_count, 1);
    assert_eq!(a.rel("/ws/notes/sub/x.md"), "sub/x.md");
    let folders = std::mem::replace(&mut a.folders, vec![String::new()]);
    assert_eq!(a.rel("a/b/"), "a/b");
    assert_eq!(a.rel("./a//b/./"), "./a//b");
    assert_eq!(a.rel("/"), "/");
    assert_eq!(a.rel("./"), ".");
    assert_eq!(a.rel(""), "");
    a.folders = folders;
    a.apply(
        EngineEvent::ScanCompleted {
            workspace_id: wid(),
            indexed: 1,
            removed: 0,
        },
        "w",
        1,
        "00:00:03".to_string(),
    );
    assert_eq!(a.status, Status::Watching);
    a.closed();
    assert_eq!(a.status, Status::Stopped);
    for i in 0..(MAX_ROWS + 5) {
        a.apply(indexed("/ws/notes/a.md", &format!("T{i}")), "w", 1, "t".to_string());
    }
    assert_eq!(a.rows.len(), MAX_ROWS);
}

#[test]
fn keys_move_the_focus_and_the_cursor() {
    let mut a = app();
    for t in ["A", "B", "C"] {
        a.apply(
            indexed(&format!("/ws/notes/{t}.md"), t),
            "w",
            1,
            "t".to_string(),
        );
    }
    assert_eq!(a.focus, Focus::Feed);
    assert_eq!(a.press(Key::Tab, false), KeyAction::Nothing);
    assert_eq!(a.focus, Focus::List);
    let first = a.selected;
    a.press(Key::Down, false);
    assert_eq!(a.selected, first + 1);
    a.press(Key::Up, false);
    assert_eq!(a.selected, first);
    let open = a.press(Key::Enter, false);
    let path = a.selected_document().unwrap();
    assert_eq!(open, KeyAction::Open(path.clone()));
    a.show(path, Ok("# Title\n".to_string()));
    assert_eq!(a.focus, Focus::Viewer);
    assert_eq!(a.view_body, "# Title\n");
    a.press(Key::Esc, false);
    assert_ne!(a.focus, Focus::Viewer);
    assert_eq!(a.press(Key::Char('q'), false), KeyAction::Quit);
    assert_eq!(a.press(Key::Char('c'), true), KeyAction::Quit);
    let d = a.dashboard();
    assert_eq!(d.rows.len(), 3);
}

#[test]
fn lines_of_markdown_have_looks() {
    let lines = markdown_lines("# H\n> q\n```\ncode\n```\nplain");
    let looks: Vec<&LineLook> = lines.iter().map(|(_, l)| l).collect();
    assert_eq!(
        looks,
        vec![
            &LineLook::Heading(1),
            &LineLook::Quote,
            &LineLook::Fence,
            &LineLook::Code,
            &LineLook::Fence,
            &LineLook::Plain
        ]
    );
    let indented = markdown_lines("text\n\n    code\n\tcode\n    \n   plain");
    let looks: Vec<&LineLook> = indented.iter().map(|(_, l)| l).collect();
    assert_eq!(
        looks,
        vec![
            &LineLook::Plain,
            &LineLook::Plain,
            &LineLook::Code,
            &LineLook::Code,
            &LineLook::Plain,
            &LineLook::Plain
        ]
    );
    assert_eq!(clock(3661), "01:01:01");
    assert_eq!(plural(1), "");
    assert_eq!(plural(2), "s");
    assert_eq!(change_label(EngineChangeKind::Moved), "Moved");
    assert_eq!(Status::Watching.label(), "Watching");
}

// ------------------------------------------------------------------------------ demo

#[test]
fn markers_come_and_go() {
    let original = "# A\n\nbody\n";
    let (i, tick) = edit(7, 3);
    assert_eq!(i, 1);
    assert_eq!(tick, "\n<!-- looper demo tick 7 -->\n");
    let edited = format!("{original}{tick}");
    assert_eq!(strip_markers(&edited), strip_markers(original));
    assert_eq!(strip_markers(&edited), original);
    assert_eq!(reset_text(&edited).as_deref(), Some(original));
    assert_eq!(reset_text(original), None);
    assert_eq!(strip_markers(&strip_markers("a\r\nb  \n\n")), strip_markers("a\r\nb  \n\n"));
    assert_ne!(strip_markers(&strip_markers("a\r\r\nb")), strip_markers("a\r\r\nb"));
    assert!(is_marker("<!-- looper demo tick 1 -->"));
    assert!(!is_marker("<!-- other -->"));
    assert!(is_doc("demo/a.md"));
    assert!(!is_doc("demo/a.txt"));
}

#[test]
fn numbers_are_read_and_written() {
    assert_eq!(decimal_of(0), "0");
    assert_eq!(decimal_of(18_446_744_073_709_551_615), "18446744073709551615");
    assert_eq!(signed_decimal_of(-12), "-12");
    let digits: Vec<char> = "42".chars().collect();
    assert_eq!(parse_number(&digits, 100), Some(42));
    assert_eq!(parse_number(&digits, 41), None);
    let text: Vec<char> = "a\r\nb\n\n".chars().collect();
    assert_eq!(lines_of(&text), vec!["a", "b", ""]);
}
