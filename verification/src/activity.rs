//! The activity view: its state, what the events of the engine and the keys of the user
//! make of it, and what it shows.

use crate::events::opt_text;
use crate::ipc::{EngineChangeKind, EngineEvent};
use crate::path::{
    components, components_of, is_under, relative_text, text_behind, to_last_component, under,
    without_end,
};
use crate::text::{
    byte_len, byte_length, chars_of, copy_texts, decimal, decimal_of, lines, lines_of, pad_left,
    pad_right, padded_right, run, run_length, same, starts, starts_with, texts, trim_start,
    trimmed_start, zero_padded, CharSet,
};
use vstd::prelude::*;

verus! {

/// How many rows are kept, the newest ones.
pub const MAX_ROWS: usize = 1000;

/// What has the focus, and what the arrow keys do.
#[derive(Debug, Clone, Copy, PartialEq, Eq, Structural)]
pub enum Focus {
    /// The feed; the arrows scroll.
    Feed,
    /// The rows; the arrows select one, Enter opens it.
    List,
    /// The document of a row; the arrows scroll.
    Viewer,
}

/// What the workspace is doing.
#[derive(Debug, Clone, Copy, PartialEq, Eq, Structural)]
pub enum Status {
    Scanning,
    Watching,
    Stopped,
}

impl Status {
    /// The text of a status.
    pub open spec fn text(self) -> Seq<char> {
        match self {
            Status::Scanning => "Scanning"@,
            Status::Watching => "Watching"@,
            Status::Stopped => "Stopped"@,
        }
    }

    /// The text of a status.
    pub fn label(self) -> (r: &'static str)
        ensures
            r@ == self.text(),
    {
        match self {
            Status::Scanning => "Scanning",
            Status::Watching => "Watching",
            Status::Stopped => "Stopped",
        }
    }
}

/// What a row tells.
#[derive(Debug, Clone, Copy, PartialEq, Eq, Structural)]
pub enum RowKind {
    Indexed,
    Removed,
    Changed,
    Warn,
}

impl RowKind {
    /// The name of a kind.
    pub open spec fn text(self) -> Seq<char> {
        match self {
            RowKind::Indexed => "indexed"@,
            RowKind::Removed => "removed"@,
            RowKind::Changed => "changed"@,
            RowKind::Warn => "warn"@,
        }
    }

    /// The name of a kind.
    pub fn name(self) -> (r: &'static str)
        ensures
            r@ == self.text(),
    {
        match self {
            RowKind::Indexed => "indexed",
            RowKind::Removed => "removed",
            RowKind::Changed => "changed",
            RowKind::Warn => "warn",
        }
    }
}

/// A row of the feed.
#[derive(Debug, PartialEq, Eq)]
pub struct Activity {
    pub time: String,
    pub kind: RowKind,
    pub title: String,
    pub detail: String,
    /// The source path, where the row is a document that can be opened.
    pub path: Option<String>,
}

/// A row of the feed, as a value.
pub struct Row {
    pub time: Seq<char>,
    pub kind: RowKind,
    pub title: Seq<char>,
    pub detail: Seq<char>,
    pub path: Option<Seq<char>>,
}

pub open spec fn row_view(a: Activity) -> Row {
    Row {
        time: a.time@,
        kind: a.kind,
        title: a.title@,
        detail: a.detail@,
        path: opt_text(a.path),
    }
}

pub open spec fn rows_view(v: Seq<Activity>) -> Seq<Row> {
    v.map_values(|a: Activity| row_view(a))
}

/// The state of the view.
pub struct App {
    pub label: String,
    pub folders: Vec<String>,
    pub kb_dir: String,
    pub status: Status,
    pub indexed: u32,
    pub removed: u32,
    pub doc_count: usize,
    pub rows: Vec<Activity>,
    pub focus: Focus,
    /// How far the feed is scrolled.
    pub scroll: usize,
    /// The row that is selected.
    pub selected: usize,
    pub view_title: String,
    pub view_body: String,
    /// How far the document is scrolled.
    pub view_scroll: u16,
}

/// The state of the view, as a value.
pub struct Screen {
    pub label: Seq<char>,
    pub folders: Seq<Seq<char>>,
    pub kb_dir: Seq<char>,
    pub status: Status,
    pub indexed: u32,
    pub removed: u32,
    pub doc_count: usize,
    pub rows: Seq<Row>,
    pub focus: Focus,
    pub scroll: int,
    pub selected: int,
    pub view_title: Seq<char>,
    pub view_body: Seq<char>,
    pub view_scroll: u16,
}

impl App {
    pub open spec fn view(&self) -> Screen {
        Screen {
            label: self.label@,
            folders: texts(self.folders@),
            kb_dir: self.kb_dir@,
            status: self.status,
            indexed: self.indexed,
            removed: self.removed,
            doc_count: self.doc_count,
            rows: rows_view(self.rows@),
            focus: self.focus,
            scroll: self.scroll as int,
            selected: self.selected as int,
            view_title: self.view_title@,
            view_body: self.view_body@,
            view_scroll: self.view_scroll,
        }
    }

    pub open spec fn wf(&self) -> bool {
        in_range(self@)
    }
}

/// The index of the last of some rows, nought where there is none.
pub open spec fn last_of(n: nat) -> int {
    if n == 0 {
        0
    } else {
        n - 1
    }
}

/// Whether there are not too many rows, and the scroll position and the selection are
/// within them.
pub open spec fn in_range(s: Screen) -> bool {
    s.rows.len() <= 1000 && 0 <= s.scroll <= last_of(s.rows.len()) && 0 <= s.selected <= last_of(
        s.rows.len(),
    )
}

pub open spec fn min(a: int, b: int) -> int {
    if a <= b {
        a
    } else {
        b
    }
}

// ------------------------------------------------------------------------------- events

/// The rows with a new one on top, as many as are kept.
pub open spec fn with_row(rows: Seq<Row>, row: Row) -> Seq<Row> {
    let all = seq![row] + rows;
    all.take(min(1000, all.len() as int))
}

/// The view with a new row on top. A feed that is scrolled stays where it is, and so does
/// the selection while rows are browsed.
pub open spec fn pushed(s: Screen, row: Row) -> Screen {
    let rows = with_row(s.rows, row);
    Screen {
        rows,
        scroll: if s.scroll > 0 {
            min(s.scroll + 1, last_of(rows.len()))
        } else {
            s.scroll
        },
        selected: if s.focus == Focus::List {
            min(s.selected + 1, last_of(rows.len()))
        } else {
            s.selected
        },
        ..s
    }
}

/// The index of the folder that a path is shown relative to, among the first `n`: of those
/// that it is under the longest, and of these the first; none where it is under none.
pub open spec fn best_folder(path: Seq<char>, folders: Seq<Seq<char>>, n: nat) -> Option<int>
    decreases n,
{
    if n == 0 || n > folders.len() {
        None
    } else {
        let before = best_folder(path, folders, (n - 1) as nat);
        let f = folders[n - 1];
        if is_under(path, f) && (before is None || byte_len(f) > byte_len(
            folders[before.unwrap()],
        )) {
            Some(n - 1)
        } else {
            before
        }
    }
}

/// A path as it is shown: relative to the longest folder that it is under, else as it is.
/// Behind a folder without components all of its components stand.
pub open spec fn shown_path(path: Seq<char>, folders: Seq<Seq<char>>) -> Seq<char> {
    match best_folder(path, folders, folders.len()) {
        Some(i) => if components(folders[i]).len() > 0 {
            text_behind(path, components(folders[i]).len())
        } else {
            to_last_component(path)
        },
        None => path,
    }
}

/// The name of a change.
pub open spec fn change_name(k: EngineChangeKind) -> Seq<char> {
    match k {
        EngineChangeKind::Created => "Created"@,
        EngineChangeKind::Modified => "Modified"@,
        EngineChangeKind::Removed => "Removed"@,
        EngineChangeKind::Moved => "Moved"@,
    }
}

/// The name of a change.
pub fn change_label(k: EngineChangeKind) -> (r: &'static str)
    ensures
        r@ == change_name(k),
{
    match k {
        EngineChangeKind::Created => "Created",
        EngineChangeKind::Modified => "Modified",
        EngineChangeKind::Removed => "Removed",
        EngineChangeKind::Moved => "Moved",
    }
}

/// What an event makes of the view of a workspace; events of others change only the count
/// of documents.
pub open spec fn after_event(
    s: Screen,
    event: EngineEvent,
    wid: Seq<char>,
    doc_count: usize,
    time: Seq<char>,
) -> Screen {
    let s = Screen { doc_count, ..s };
    match event {
        EngineEvent::ScanStarted { workspace_id, .. } if workspace_id@ == wid => Screen {
            status: Status::Scanning,
            ..s
        },
        EngineEvent::ScanCompleted { workspace_id, indexed, removed } if workspace_id@ == wid =>
            Screen { status: Status::Watching, indexed, removed, ..s },
        EngineEvent::DocIndexed { workspace_id, title, path, .. } if workspace_id@ == wid => pushed(
            s,
            Row {
                time,
                kind: RowKind::Indexed,
                title: title@,
                detail: shown_path(path@, s.folders),
                path: Some(path@),
            },
        ),
        EngineEvent::DocRemoved { workspace_id, path } if workspace_id@ == wid => pushed(
            s,
            Row {
                time,
                kind: RowKind::Removed,
                title: Seq::empty(),
                detail: shown_path(path@, s.folders),
                path: None,
            },
        ),
        EngineEvent::FileChanged { workspace_id, path, kind } if workspace_id@ == wid => pushed(
            s,
            Row {
                time,
                kind: RowKind::Changed,
                title: change_name(kind),
                detail: shown_path(path@, s.folders),
                path: Some(path@),
            },
        ),
        EngineEvent::Warning { workspace_id, message } if workspace_id@ == wid => pushed(
            s,
            Row { time, kind: RowKind::Warn, title: Seq::empty(), detail: message@, path: None },
        ),
        _ => s,
    }
}

impl App {
    /// The view of a workspace that is opening.
    pub fn new(label: &str, kb_dir: &str, folders: &Vec<String>) -> (r: Self)
        ensures
            r.wf(),
            r@ == (Screen {
                label: label@,
                folders: texts(folders@),
                kb_dir: kb_dir@,
                status: Status::Scanning,
                indexed: 0,
                removed: 0,
                doc_count: 0,
                rows: Seq::empty(),
                focus: Focus::Feed,
                scroll: 0,
                selected: 0,
                view_title: Seq::empty(),
                view_body: Seq::empty(),
                view_scroll: 0,
            }),
    {
        let r = App {
            label: label.to_owned(),
            folders: copy_texts(folders),
            kb_dir: kb_dir.to_owned(),
            status: Status::Scanning,
            indexed: 0,
            removed: 0,
            doc_count: 0,
            rows: Vec::new(),
            focus: Focus::Feed,
            scroll: 0,
            selected: 0,
            view_title: String::new(),
            view_body: String::new(),
            view_scroll: 0,
        };
        assert(rows_view(r.rows@) =~= Seq::empty());
        assert(r.view_title@ =~= Seq::empty());
        assert(r.view_body@ =~= Seq::empty());
        r
    }

    fn push(&mut self, row: Activity)
        requires
            old(self).wf(),
        ensures
            final(self).wf(),
            final(self)@ == pushed(old(self)@, row_view(row)),
    {
        let ghost before = rows_view(self.rows@);
        assert(before.len() == self.rows@.len());
        self.rows.insert(0, row);
        assert(rows_view(self.rows@) =~= seq![row_view(row)] + before);
        if self.rows.len() > MAX_ROWS {
            let last: usize = self.rows.len() - 1;
            let gone = self.rows.remove(last);
        }
        assert(rows_view(self.rows@) =~= with_row(before, row_view(row)));
        assert(rows_view(self.rows@).len() == self.rows@.len());
        let top: usize = self.rows.len() - 1;
        if self.scroll > 0 {
            self.scroll = if self.scroll + 1 <= top {
                self.scroll + 1
            } else {
                top
            };
        }
        if self.focus == Focus::List {
            self.selected = if self.selected + 1 <= top {
                self.selected + 1
            } else {
                top
            };
        }
    }

    /// A path as it is shown: relative to the longest folder that it is under, else as it is.
    pub fn rel(&self, path: &str) -> (r: String)
        ensures
            r@ == shown_path(path@, texts(self.folders@)),
    {
        let ghost all = texts(self.folders@);
        let mut best: Option<usize> = None;
        let mut i: usize = 0;
        while i < self.folders.len()
            invariant
                i <= self.folders@.len(),
                all == texts(self.folders@),
                match best {
                    Some(k) => best_folder(path@, all, i as nat) == Some(k as int) && k < i
                        && is_under(path@, all[k as int]),
                    None => best_folder(path@, all, i as nat) is None,
                },
            decreases self.folders.len() - i,
        {
            let f = self.folders[i].as_str();
            assert(all[i as int] == f@);
            if under(path, f) {
                let longer = match best {
                    None => true,
                    Some(k) => {
                        assert(all[k as int] == self.folders@[k as int]@);
                        byte_length(f) > byte_length(self.folders[k].as_str())
                    },
                };
                if longer {
                    best = Some(i);
                }
            }
            i = i + 1;
        }
        match best {
            Some(k) => {
                let f = self.folders[k].as_str();
                let names = components_of(f);
                assert(texts(names@).len() == names@.len());
                if names.len() > 0 {
                    relative_text(path, f)
                } else {
                    without_end(path)
                }
            },
            None => path.to_owned(),
        }
    }

    /// Takes an event of the engine into the view of the workspace `wid`, which has
    /// `doc_count` documents, at the time of day `time`.
    pub fn apply(&mut self, event: EngineEvent, wid: &str, doc_count: usize, time: String)
        requires
            old(self).wf(),
        ensures
            final(self).wf(),
            final(self)@ == after_event(old(self)@, event, wid@, doc_count, time@),
    {
        self.doc_count = doc_count;
        match event {
            EngineEvent::ScanStarted { workspace_id, .. } => {
                if same(workspace_id.as_str(), wid) {
                    self.status = Status::Scanning;
                }
            },
            EngineEvent::ScanCompleted { workspace_id, indexed, removed } => {
                if same(workspace_id.as_str(), wid) {
                    self.status = Status::Watching;
                    self.indexed = indexed;
                    self.removed = removed;
                }
            },
            EngineEvent::DocIndexed { workspace_id, title, path, .. } => {
                if same(workspace_id.as_str(), wid) {
                    let detail = self.rel(path.as_str());
                    self.push(
                        Activity { time, kind: RowKind::Indexed, title, detail, path: Some(path) },
                    );
                }
            },
            EngineEvent::DocRemoved { workspace_id, path } => {
                if same(workspace_id.as_str(), wid) {
                    let detail = self.rel(path.as_str());
                    let title = String::new();
                    assert(title@ =~= Seq::empty());
                    self.push(
                        Activity { time, kind: RowKind::Removed, title, detail, path: None },
                    );
                }
            },
            EngineEvent::FileChanged { workspace_id, path, kind } => {
                if same(workspace_id.as_str(), wid) {
                    let detail = self.rel(path.as_str());
                    let title = change_label(kind).to_owned();
                    self.push(
                        Activity { time, kind: RowKind::Changed, title, detail, path: Some(path) },
                    );
                }
            },
            EngineEvent::Warning { workspace_id, message } => {
                if same(workspace_id.as_str(), wid) {
                    let title = String::new();
                    assert(title@ =~= Seq::empty());
                    self.push(
                        Activity {
                            time,
                            kind: RowKind::Warn,
                            title,
                            detail: message,
                            path: None,
                        },
                    );
                }
            },
            _ => {},
        }
    }

    /// The events have ended.
    pub fn closed(&mut self)
        requires
            old(self).wf(),
        ensures
            final(self).wf(),
            final(self)@ == (Screen { status: Status::Stopped, ..old(self)@ }),
    {
        self.status = Status::Stopped;
    }
}

// --------------------------------------------------------------------------------- keys

/// A key that was pressed.
#[derive(Debug, Clone, Copy, PartialEq, Eq, Structural)]
pub enum Key {
    Char(char),
    Up,
    Down,
    PageUp,
    PageDown,
    Enter,
    Esc,
    Tab,
    Other,
}

/// What a key asks for.
#[derive(Debug, PartialEq, Eq)]
pub enum KeyAction {
    /// Nothing beyond what it did to the view.
    Nothing,
    /// The end.
    Quit,
    /// The document at a path is to be read and shown.
    Open(String),
}

/// Whether a key quits.
pub open spec fn quits(key: Key, ctrl: bool) -> bool {
    key == Key::Char('q') || (key == Key::Char('c') && ctrl)
}

/// The focus that Tab moves to.
pub open spec fn next_focus(f: Focus) -> Focus {
    match f {
        Focus::Feed => Focus::List,
        Focus::List => Focus::Feed,
        Focus::Viewer => Focus::List,
    }
}

/// The document of the selected row.
pub open spec fn selected_path(s: Screen) -> Option<Seq<char>> {
    if s.selected < s.rows.len() {
        s.rows[s.selected].path
    } else {
        None
    }
}

/// What a key that does not quit does to the view.
pub open spec fn after_key(s: Screen, key: Key) -> Screen {
    let up = key == Key::Up || key == Key::Char('k');
    let down = key == Key::Down || key == Key::Char('j');
    if key == Key::Tab {
        Screen { focus: next_focus(s.focus), ..s }
    } else {
        match s.focus {
            Focus::Feed => if up {
                Screen { scroll: min(s.scroll + 1, last_of(s.rows.len())), ..s }
            } else if down {
                Screen {
                    scroll: if s.scroll > 0 {
                        s.scroll - 1
                    } else {
                        0
                    },
                    ..s
                }
            } else if key == Key::Char('g') {
                Screen { scroll: 0, ..s }
            } else {
                s
            },
            Focus::List => if up {
                Screen {
                    selected: if s.selected > 0 {
                        s.selected - 1
                    } else {
                        0
                    },
                    ..s
                }
            } else if down {
                Screen { selected: min(s.selected + 1, last_of(s.rows.len())), ..s }
            } else if key == Key::Esc {
                Screen { focus: Focus::Feed, ..s }
            } else {
                s
            },
            Focus::Viewer => if up {
                Screen { view_scroll: less_by(s.view_scroll, 1), ..s }
            } else if down {
                Screen { view_scroll: more_by(s.view_scroll, 1), ..s }
            } else if key == Key::PageUp {
                Screen { view_scroll: less_by(s.view_scroll, 10), ..s }
            } else if key == Key::PageDown {
                Screen { view_scroll: more_by(s.view_scroll, 10), ..s }
            } else if key == Key::Esc {
                Screen { focus: Focus::List, ..s }
            } else {
                s
            },
        }
    }
}

/// A scroll position less a number of lines, at least nought.
pub open spec fn less_by(n: u16, d: u16) -> u16 {
    if n >= d {
        (n - d) as u16
    } else {
        0
    }
}

/// A scroll position and a number of lines more, as far as it goes.
pub open spec fn more_by(n: u16, d: u16) -> u16 {
    if n + d <= u16::MAX {
        (n + d) as u16
    } else {
        u16::MAX
    }
}

fn scrolled_up(n: u16, d: u16) -> (r: u16)
    ensures
        r == less_by(n, d),
{
    if n >= d {
        n - d
    } else {
        0
    }
}

fn scrolled_down(n: u16, d: u16) -> (r: u16)
    ensures
        r == more_by(n, d),
{
    if n <= u16::MAX - d {
        n + d
    } else {
        u16::MAX
    }
}

impl App {
    /// Moves the focus on.
    pub fn cycle_focus(&mut self)
        requires
            old(self).wf(),
        ensures
            final(self).wf(),
            final(self)@ == (Screen { focus: next_focus(old(self)@.focus), ..old(self)@ }),
    {
        self.focus = match self.focus {
            Focus::Feed => Focus::List,
            Focus::List => Focus::Feed,
            Focus::Viewer => Focus::List,
        };
    }

    /// Selects the next row, if there is one.
    pub fn select_next(&mut self)
        requires
            old(self).wf(),
        ensures
            final(self).wf(),
            final(self)@ == (Screen {
                selected: min(old(self)@.selected + 1, last_of(old(self)@.rows.len())),
                ..old(self)@
            }),
    {
        assert(rows_view(self.rows@).len() == self.rows@.len());
        if self.rows.len() > 0 && self.selected < self.rows.len() - 1 {
            self.selected = self.selected + 1;
        }
    }

    /// Selects the row before, if there is one.
    pub fn select_prev(&mut self)
        requires
            old(self).wf(),
        ensures
            final(self).wf(),
            final(self)@ == (Screen {
                selected: if old(self)@.selected > 0 {
                    old(self)@.selected - 1
                } else {
                    0
                },
                ..old(self)@
            }),
    {
        if self.selected > 0 {
            self.selected = self.selected - 1;
        }
    }

    /// The document of the selected row.
    pub fn selected_document(&self) -> (r: Option<String>)
        requires
            self.wf(),
        ensures
            match r {
                Some(p) => selected_path(self@) == Some(p@),
                None => selected_path(self@) is None,
            },
    {
        assert(rows_view(self.rows@).len() == self.rows@.len());
        if self.selected < self.rows.len() {
            assert(rows_view(self.rows@)[self.selected as int] == row_view(
                self.rows@[self.selected as int],
            ));
            match &self.rows[self.selected].path {
                Some(p) => Some(p.clone()),
                None => None,
            }
        } else {
            None
        }
    }

    /// Shows the document that was read at `path`, or why it could not be.
    pub fn show(&mut self, path: String, read: Result<String, String>)
        requires
            old(self).wf(),
        ensures
            final(self).wf(),
            final(self)@ == (Screen {
                view_title: path@,
                view_body: match read {
                    Ok(body) => body@,
                    Err(e) => "# Cannot open\n\n`"@ + path@ + "`\n\n"@ + e@ + "\n"@,
                },
                view_scroll: 0,
                focus: Focus::Viewer,
                ..old(self)@
            }),
    {
        self.view_body = match read {
            Ok(body) => body,
            Err(e) => {
                let mut s = "# Cannot open\n\n`".to_owned();
                s.append(path.as_str());
                s.append("`\n\n");
                s.append(e.as_str());
                s.append("\n");
                s
            },
        };
        self.view_title = path;
        self.view_scroll = 0;
        self.focus = Focus::Viewer;
    }

    /// Takes a key that was pressed.
    pub fn press(&mut self, key: Key, ctrl: bool) -> (r: KeyAction)
        requires
            old(self).wf(),
        ensures
            final(self).wf(),
            if quits(key, ctrl) {
                r is Quit && final(self)@ == old(self)@
            } else {
                &&& final(self)@ == after_key(old(self)@, key)
                &&& if old(self).focus == Focus::List && key == Key::Enter {
                    match r {
                        KeyAction::Open(p) => selected_path(old(self)@) == Some(p@),
                        KeyAction::Nothing => selected_path(old(self)@) is None,
                        KeyAction::Quit => false,
                    }
                } else {
                    r is Nothing
                }
            },
    {
        match key {
            Key::Char('q') => {
                return KeyAction::Quit;
            },
            Key::Char('c') => {
                if ctrl {
                    return KeyAction::Quit;
                }
            },
            Key::Tab => {
                self.cycle_focus();
                return KeyAction::Nothing;
            },
            _ => {},
        }
        let up = match key {
            Key::Up | Key::Char('k') => true,
            _ => false,
        };
        let down = match key {
            Key::Down | Key::Char('j') => true,
            _ => false,
        };
        assert(rows_view(self.rows@).len() == self.rows@.len());
        match self.focus {
            Focus::Feed => {
                if up {
                    if self.rows.len() > 0 && self.scroll < self.rows.len() - 1 {
                        self.scroll = self.scroll + 1;
                    }
                } else if down {
                    if self.scroll > 0 {
                        self.scroll = self.scroll - 1;
                    }
                } else if key == Key::Char('g') {
                    self.scroll = 0;
                }
            },
            Focus::List => {
                if up {
                    self.select_prev();
                } else if down {
                    self.select_next();
                } else if key == Key::Enter {
                    return match self.selected_document() {
                        Some(p) => KeyAction::Open(p),
                        None => KeyAction::Nothing,
                    };
                } else if key == Key::Esc {
                    self.focus = Focus::Feed;
                }
            },
            Focus::Viewer => {
                if up {
                    self.view_scroll = scrolled_up(self.view_scroll, 1);
                } else if down {
                    self.view_scroll = scrolled_down(self.view_scroll, 1);
                } else if key == Key::PageUp {
                    self.view_scroll = scrolled_up(self.view_scroll, 10);
                } else if key == Key::PageDown {
                    self.view_scroll = scrolled_down(self.view_scroll, 10);
                } else if key == Key::Esc {
                    self.focus = Focus::List;
                }
            },
        }
        KeyAction::Nothing
    }
}

// ------------------------------------------------------------------------ what is shown

/// How a piece of text is shown.
#[derive(Debug, Clone, Copy, PartialEq, Eq, Structural)]
pub enum Look {
    /// The banner of the program.
    Banner,
    /// What stands out.
    Strong,
    /// What stands back.
    Dim,
    Plain,
    /// The status, in its color.
    Chip(Status),
    /// The time of a row.
    Time,
    /// The kind of a row, in its color.
    Kind(RowKind),
    /// The detail of a row.
    Detail,
}

/// A piece of text with the way it is shown.
#[derive(Debug, PartialEq, Eq)]
pub struct Piece {
    pub text: String,
    pub look: Look,
}

/// The text and look of a piece.
pub open spec fn piece_view(p: Piece) -> (Seq<char>, Look) {
    (p.text@, p.look)
}

pub open spec fn pieces_view(v: Seq<Piece>) -> Seq<(Seq<char>, Look)> {
    v.map_values(|p: Piece| piece_view(p))
}

/// What the dashboard shows.
pub struct Dashboard {
    pub title: Vec<Piece>,
    pub status: Vec<Piece>,
    /// One line for each row.
    pub rows: Vec<Vec<Piece>>,
    pub list_title: String,
    /// The row that is selected, while rows are browsed.
    pub selected: Option<usize>,
    /// How far the rows are scrolled, while they are not browsed.
    pub offset: usize,
    pub help: String,
}

/// The ending of a plural.
pub open spec fn plural_of(n: nat) -> Seq<char> {
    if n == 1 {
        ""@
    } else {
        "s"@
    }
}

/// The ending of a plural.
pub fn plural(n: usize) -> (r: &'static str)
    ensures
        r@ == plural_of(n as nat),
{
    if n == 1 {
        ""
    } else {
        "s"
    }
}

/// The title of the dashboard.
pub open spec fn title_pieces(s: Screen) -> Seq<(Seq<char>, Look)> {
    seq![
        (" Looper — Activity "@, Look::Banner),
        ("  "@ + s.label, Look::Strong),
        (
            "  ("@ + decimal(s.folders.len()) + " folder"@ + plural_of(s.folders.len()) + ")"@,
            Look::Dim,
        ),
    ]
}

/// The status line of the dashboard.
pub open spec fn status_pieces(s: Screen) -> Seq<(Seq<char>, Look)> {
    seq![
        (" "@ + s.status.text() + " "@, Look::Chip(s.status)),
        ("  "@ + decimal(s.doc_count as nat) + " docs indexed"@, Look::Plain),
        (
            "   (scan: +"@ + decimal(s.indexed as nat) + " / -"@ + decimal(s.removed as nat)
                + ")"@,
            Look::Dim,
        ),
        ("   index → "@ + s.kb_dir, Look::Dim),
    ]
}

/// The line of a row.
pub open spec fn row_pieces(r: Row) -> Seq<(Seq<char>, Look)> {
    seq![(r.time + " "@, Look::Time), (pad_right(r.kind.text(), 8), Look::Kind(r.kind))] + (
    if r.title.len() > 0 {
        seq![(r.title + "  "@, Look::Strong)]
    } else {
        Seq::empty()
    }) + seq![(r.detail, Look::Detail)]
}

/// The title of the rows.
pub open spec fn list_title_of(s: Screen) -> Seq<char> {
    " Recent activity ("@ + decimal(s.rows.len()) + if s.focus == Focus::List {
        ") — browsing "@
    } else {
        ") "@
    }
}

/// The help line of the dashboard.
pub open spec fn help_of(s: Screen) -> Seq<char> {
    if s.focus == Focus::List {
        " ↑/↓ select · Enter open · Tab/Esc back · q quit "@
    } else {
        " Tab browse · ↑/↓ scroll · g top · q quit "@
    }
}

fn piece(text: String, look: Look) -> (r: Piece)
    ensures
        piece_view(r) == (text@, look),
{
    Piece { text, look }
}

fn text2(a: &str, b: &str) -> (r: String)
    ensures
        r@ == a@ + b@,
{
    let mut s = a.to_owned();
    s.append(b);
    s
}

fn text3(a: &str, b: &str, c: &str) -> (r: String)
    ensures
        r@ == a@ + b@ + c@,
{
    let mut s = a.to_owned();
    s.append(b);
    s.append(c);
    s
}

fn row_line(a: &Activity) -> (r: Vec<Piece>)
    ensures
        pieces_view(r@) == row_pieces(row_view(*a)),
{
    let ghost row = row_view(*a);
    let mut out: Vec<Piece> = Vec::new();
    out.push(piece(text2(a.time.as_str(), " "), Look::Time));
    out.push(piece(padded_right(a.kind.name(), 8), Look::Kind(a.kind)));
    let ghost first = seq![
        (row.time + " "@, Look::Time),
        (pad_right(row.kind.text(), 8), Look::Kind(row.kind)),
    ];
    assert(pieces_view(out@) =~= first);
    let ghost mut second: Seq<(Seq<char>, Look)> = Seq::empty();
    if chars_of(a.title.as_str()).len() > 0 {
        out.push(piece(text2(a.title.as_str(), "  "), Look::Strong));
        proof {
            second = seq![(row.title + "  "@, Look::Strong)];
        }
    }
    assert(pieces_view(out@) =~= first + second);
    out.push(piece(a.detail.clone(), Look::Detail));
    assert(pieces_view(out@) =~= first + second + seq![(row.detail, Look::Detail)]);
    out
}

impl App {
    /// What the dashboard shows.
    pub fn dashboard(&self) -> (r: Dashboard)
        requires
            self.wf(),
        ensures
            pieces_view(r.title@) == title_pieces(self@),
            pieces_view(r.status@) == status_pieces(self@),
            r.rows@.len() == self@.rows.len(),
            forall|i: int|
                0 <= i < r.rows@.len() ==> pieces_view((#[trigger] r.rows@[i])@) == row_pieces(
                    self@.rows[i],
                ),
            r.list_title@ == list_title_of(self@),
            r.selected == if self.focus == Focus::List {
                Some(self.selected)
            } else {
                None
            },
            r.offset == if self.focus == Focus::List {
                0
            } else {
                self.scroll
            },
            r.help@ == help_of(self@),
    {
        let mut title: Vec<Piece> = Vec::new();
        title.push(piece(" Looper — Activity ".to_owned(), Look::Banner));
        title.push(piece(text2("  ", self.label.as_str()), Look::Strong));
        let mut count = text3("  (", decimal_of(self.folders.len() as u64).as_str(), " folder");
        count.append(plural(self.folders.len()));
        count.append(")");
        title.push(piece(count, Look::Dim));
        assert(texts(self.folders@).len() == self.folders@.len());
        assert(pieces_view(title@) =~= title_pieces(self@));

        let mut status: Vec<Piece> = Vec::new();
        status.push(piece(text3(" ", self.status.label(), " "), Look::Chip(self.status)));
        status.push(
            piece(
                text3("  ", decimal_of(self.doc_count as u64).as_str(), " docs indexed"),
                Look::Plain,
            ),
        );
        let mut scan = text3("   (scan: +", decimal_of(self.indexed as u64).as_str(), " / -");
        scan.append(decimal_of(self.removed as u64).as_str());
        scan.append(")");
        status.push(piece(scan, Look::Dim));
        status.push(piece(text2("   index → ", self.kb_dir.as_str()), Look::Dim));
        assert(pieces_view(status@) =~= status_pieces(self@));

        let mut rows: Vec<Vec<Piece>> = Vec::new();
        let mut i: usize = 0;
        assert(rows_view(self.rows@).len() == self.rows@.len());
        while i < self.rows.len()
            invariant
                i <= self.rows@.len(),
                rows@.len() == i,
                rows_view(self.rows@).len() == self.rows@.len(),
                forall|k: int|
                    0 <= k < i ==> pieces_view((#[trigger] rows@[k])@) == row_pieces(
                        self@.rows[k],
                    ),
            decreases self.rows.len() - i,
        {
            let line = row_line(&self.rows[i]);
            assert(self@.rows[i as int] == row_view(self.rows@[i as int]));
            rows.push(line);
            i = i + 1;
        }
        let browsing = self.focus == Focus::List;
        let mut list_title = text2(
            " Recent activity (",
            decimal_of(self.rows.len() as u64).as_str(),
        );
        if browsing {
            list_title.append(") — browsing ");
        } else {
            list_title.append(") ");
        }
        let help = if browsing {
            " ↑/↓ select · Enter open · Tab/Esc back · q quit ".to_owned()
        } else {
            " Tab browse · ↑/↓ scroll · g top · q quit ".to_owned()
        };
        Dashboard {
            title,
            status,
            rows,
            list_title,
            selected: if browsing {
                Some(self.selected)
            } else {
                None
            },
            offset: if browsing {
                0
            } else {
                self.scroll
            },
            help,
        }
    }
}

/// How a line of a document is shown.
#[derive(Debug, Clone, Copy, PartialEq, Eq, Structural)]
pub enum LineLook {
    /// A line that opens or closes code.
    Fence,
    Code,
    /// A heading, with its level.
    Heading(usize),
    Quote,
    Plain,
}

/// Whether a line opens or closes code.
pub open spec fn is_fence(line: Seq<char>) -> bool {
    starts(trim_start(line, CharSet::White), "```"@)
}

/// Whether a line is code by its indentation: four spaces or a tab before something to see.
pub open spec fn is_indented(line: Seq<char>) -> bool {
    trim_start(line, CharSet::White).len() > 0 && (starts(line, "    "@) || starts(line, "\t"@))
}

/// How a line is shown that stands in code, or not.
pub open spec fn look_of(line: Seq<char>, in_code: bool) -> LineLook {
    let t = trim_start(line, CharSet::White);
    let hashes = run(t, CharSet::Only('#'));
    if is_fence(line) {
        LineLook::Fence
    } else if in_code {
        LineLook::Code
    } else if 1 <= hashes <= 6 && hashes < t.len() && t[hashes as int] == ' ' {
        LineLook::Heading(hashes as usize)
    } else if starts(t, "> "@) {
        LineLook::Quote
    } else if is_indented(line) {
        LineLook::Code
    } else {
        LineLook::Plain
    }
}

/// Whether the first `n` of some lines leave code open.
pub open spec fn in_code_after(ls: Seq<Seq<char>>, n: nat) -> bool
    decreases n,
{
    if n == 0 || n > ls.len() {
        false
    } else {
        in_code_after(ls, (n - 1) as nat) != is_fence(ls[n - 1])
    }
}

/// The lines of a document with the way each is shown.
pub fn markdown_lines(body: &str) -> (r: Vec<(String, LineLook)>)
    ensures
        r@.len() == lines(body@).len(),
        forall|i: int|
            0 <= i < r@.len() ==> (#[trigger] r@[i]).0@ == lines(body@)[i] && r@[i].1 == look_of(
                lines(body@)[i],
                in_code_after(lines(body@), i as nat),
            ),
{
    let ls = lines_of(&chars_of(body));
    let ghost all = texts(ls@);
    assert(all.len() == ls@.len());
    let fence = chars_of("```");
    let quote = chars_of("> ");
    let spaces = chars_of("    ");
    let tab = chars_of("\t");
    let mut out: Vec<(String, LineLook)> = Vec::new();
    let mut in_code = false;
    let mut i: usize = 0;
    while i < ls.len()
        invariant
            i <= ls@.len(),
            all == texts(ls@),
            all == lines(body@),
            fence@ == "```"@,
            quote@ == "> "@,
            spaces@ == "    "@,
            tab@ == "\t"@,
            out@.len() == i,
            in_code == in_code_after(all, i as nat),
            forall|k: int|
                0 <= k < i ==> (#[trigger] out@[k]).0@ == all[k] && out@[k].1 == look_of(
                    all[k],
                    in_code_after(all, k as nat),
                ),
        decreases ls.len() - i,
    {
        assert(all[i as int] == ls@[i as int]@);
        let cs = chars_of(ls[i].as_str());
        let t = trimmed_start(&cs, CharSet::White);
        let look = if starts_with(t, &fence) {
            in_code = !in_code;
            LineLook::Fence
        } else if in_code {
            LineLook::Code
        } else {
            let hashes: usize = run_length(t, CharSet::Only('#'));
            if 1 <= hashes && hashes <= 6 && hashes < t.len() && t[hashes] == ' ' {
                LineLook::Heading(hashes)
            } else if starts_with(t, &quote) {
                LineLook::Quote
            } else if t.len() > 0 && (starts_with(&cs, &spaces) || starts_with(&cs, &tab)) {
                LineLook::Code
            } else {
                LineLook::Plain
            }
        };
        out.push((ls[i].clone(), look));
        i = i + 1;
    }
    out
}

/// The time of day of a moment, in seconds since 1970, as `HH:MM:SS` in UTC.
pub open spec fn clock_of(secs: u64) -> Seq<char> {
    let t = secs % 86_400;
    two_digits(t / 3600) + ":"@ + two_digits((t % 3600) / 60) + ":"@ + two_digits(t % 60)
}

/// A number in at least two digits.
pub open spec fn two_digits(n: u64) -> Seq<char> {
    pad_left(decimal(n as nat), '0', 2)
}

/// The time of day of a moment, in seconds since 1970, as `HH:MM:SS` in UTC.
pub fn clock(secs: u64) -> (r: String)
    ensures
        r@ == clock_of(secs),
{
    let t: u64 = secs % 86_400;
    let mut s = zero_padded(decimal_of(t / 3600), 2);
    s.append(":");
    s.append(zero_padded(decimal_of((t % 3600) / 60), 2).as_str());
    s.append(":");
    s.append(zero_padded(decimal_of(t % 60), 2).as_str());
    s
}

// -------------------------------------------------------------------------- laws

/// Whatever event comes and whatever key is pressed, the selection and the scroll position
/// stay within the rows, of which there are never too many.
pub proof fn the_cursor_stays_within_the_rows(
    s: Screen,
    event: EngineEvent,
    wid: Seq<char>,
    doc_count: usize,
    time: Seq<char>,
    key: Key,
)
    requires
        in_range(s),
    ensures
        in_range(after_event(s, event, wid, doc_count, time)),
        in_range(after_key(s, key)),
{
}

/// While rows are browsed, the row that is selected stays selected when a new one comes in
/// on top, as long as it is kept.
pub proof fn the_selection_stays_on_its_row(s: Screen, row: Row)
    requires
        in_range(s),
        s.focus == Focus::List,
        s.selected < s.rows.len(),
        s.selected + 1 < 1000,
    ensures
        pushed(s, row).rows[pushed(s, row).selected] == s.rows[s.selected],
        pushed(s, row).rows[0] == row,
{
}

/// Two presses of Tab come back to where they started, but for the viewer, which they leave.
pub proof fn tab_goes_round(s: Screen)
    ensures
        s.focus != Focus::Viewer ==> after_key(after_key(s, Key::Tab), Key::Tab) == s,
        s.focus == Focus::Viewer ==> after_key(after_key(s, Key::Tab), Key::Tab).focus
            == Focus::Feed,
{
}

} // verus!
