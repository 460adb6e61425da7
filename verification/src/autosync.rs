//! The sync worker of a workspace: which folder is synced when, and what comes of it.
//!
//! Folders are synced when the workspace opens, at intervals, some time after a change in
//! them, and when it is asked for. A failure or a conflict pauses a folder: it is then
//! synced only when that is asked for.

use crate::calendar::{format_unix_utc, is_stamp_of};
use crate::events::{opt_text, state_view, states_view, status_view, Event, FolderState, Status};
use crate::ipc::{
    EngineEvent, SyncDirection, SyncFolderConfig, SyncFolderState, SyncResolution, SyncStatus,
};
use crate::link::same_place;
use crate::path::paths_equal;
use crate::sorted::{KeyOrder, SortedMap};
use crate::sync::{failure_text, files_view, SyncError, SyncOutcome};
use crate::text::{
    chars_of, contains, copy_texts, has, lemma_find_from, occurs_at, same, string_of, texts,
    trim_end, trimmed_end, CharSet,
};
use vstd::prelude::*;

verus! {

/// When a folder is synced. Times are in milliseconds.
#[derive(Debug, Clone, Copy, PartialEq, Eq, Structural)]
pub struct SyncTriggers {
    /// Sync every enabled folder at this interval.
    pub periodic: Option<u64>,
    /// Sync a folder this long after a change in it, where it pushes.
    pub on_change_debounce: Option<u64>,
    /// Sync every enabled folder when the workspace opens.
    pub on_open: bool,
}

impl Default for SyncTriggers {
    fn default() -> (r: Self)
        ensures
            r == (SyncTriggers {
                periodic: Some(60_000),
                on_change_debounce: Some(10_000),
                on_open: true,
            }),
    {
        SyncTriggers { periodic: Some(60_000), on_change_debounce: Some(10_000), on_open: true }
    }
}

/// What is asked of the sync worker.
#[derive(Debug)]
pub enum SyncJob {
    /// Sync this folder now.
    SyncNow(String),
    /// Resolve a paused conflict of this folder.
    Resolve(String, SyncResolution),
    /// A file changed in this folder.
    Touched(String),
    /// The configuration changed.
    ReloadConfigs,
}

/// What the worker has before it.
#[derive(Debug)]
pub enum Todo {
    /// Sync a folder.
    Run(String),
    /// Resolve a conflict of a folder.
    Resolve(String, SyncResolution),
    /// Sync a folder that changed, unless it is paused.
    Due(String),
    /// Go through the enabled folders.
    Sweep,
    /// Sync a folder, unless it is paused or was synced within the interval.
    Periodic(String),
}

/// What the worker has before it, as a value.
pub enum Ahead {
    Run(Seq<char>),
    Resolve(Seq<char>, SyncResolution),
    Due(Seq<char>),
    Sweep,
    Periodic(Seq<char>),
}

impl Todo {
    pub open spec fn view(&self) -> Ahead {
        match self {
            Todo::Run(f) => Ahead::Run(f@),
            Todo::Resolve(f, how) => Ahead::Resolve(f@, *how),
            Todo::Due(f) => Ahead::Due(f@),
            Todo::Sweep => Ahead::Sweep,
            Todo::Periodic(f) => Ahead::Periodic(f@),
        }
    }
}

pub open spec fn todos(v: Seq<Todo>) -> Seq<Ahead> {
    v.map_values(|t: Todo| t.view())
}

/// A sync to carry out.
pub struct SyncRun {
    pub folder: String,
    /// Whether the folder is that of the knowledge base.
    pub is_kb: bool,
    pub cfg: SyncFolderConfig,
    /// How to resolve, where a conflict is to be resolved.
    pub how: Option<SyncResolution>,
    /// The time that counts as that of the sync; `None` for the time at its end.
    pub at: Option<u64>,
}

/// A sync to carry out, as a value.
pub struct Run {
    pub folder: Seq<char>,
    pub is_kb: bool,
    pub cfg: SyncFolderConfig,
    pub how: Option<SyncResolution>,
    pub at: Option<u64>,
}

impl SyncRun {
    pub open spec fn view(&self) -> Run {
        Run {
            folder: self.folder@,
            is_kb: self.is_kb,
            cfg: self.cfg,
            how: self.how,
            at: self.at,
        }
    }
}

/// The sync worker of a workspace.
pub struct SyncWorker {
    pub wid: String,
    pub kb_dir: String,
    /// Of the folders, those that resolve, with what they resolve to.
    pub canonical: SortedMap<String>,
    pub cfgs: Vec<SyncFolderConfig>,
    /// The states of the folders.
    pub state: SortedMap<SyncFolderState>,
    pub triggers: SyncTriggers,
    /// When the folders were last synced.
    pub last_sync: SortedMap<u64>,
    /// When the folders that changed are due.
    pub debounce_due: SortedMap<u64>,
    /// What is before the worker, the next one last.
    pub todo: Vec<Todo>,
    /// When the worker last woke up with nothing asked of it.
    pub woke: u64,
}

/// What a map of times holds.
pub open spec fn times(m: SortedMap<u64>) -> Map<Seq<char>, u64> {
    Map::new(|k: Seq<char>| m.lookup(k) is Some, |k: Seq<char>| m.lookup(k).unwrap())
}

/// What a map of states holds.
pub open spec fn states_of(m: SortedMap<SyncFolderState>) -> Map<Seq<char>, FolderState> {
    Map::new(|k: Seq<char>| m.lookup(k) is Some, |k: Seq<char>| state_view(m.lookup(k).unwrap()))
}

/// The sync worker, as a value.
pub struct Board {
    pub wid: Seq<char>,
    pub kb_dir: Seq<char>,
    pub canonical: SortedMap<String>,
    pub cfgs: Seq<SyncFolderConfig>,
    pub state: Map<Seq<char>, FolderState>,
    pub triggers: SyncTriggers,
    pub last_sync: Map<Seq<char>, u64>,
    pub due: Map<Seq<char>, u64>,
    pub todo: Seq<Ahead>,
    pub woke: u64,
}

impl SyncWorker {
    pub open spec fn wf(&self) -> bool {
        &&& self.canonical.wf() && self.canonical.order == KeyOrder::Text
        &&& self.state.wf() && self.state.order == KeyOrder::Text
        &&& self.last_sync.wf() && self.last_sync.order == KeyOrder::Text
        &&& self.debounce_due.wf() && self.debounce_due.order == KeyOrder::Text
    }

    pub open spec fn view(&self) -> Board {
        Board {
            wid: self.wid@,
            kb_dir: self.kb_dir@,
            canonical: self.canonical,
            cfgs: self.cfgs@,
            state: states_of(self.state),
            triggers: self.triggers,
            last_sync: times(self.last_sync),
            due: times(self.debounce_due),
            todo: todos(self.todo@),
            woke: self.woke,
        }
    }
}

// ------------------------------------------------------------------------------ states

/// The state of a folder of which nothing is known.
pub open spec fn base(wid: Seq<char>, folder: Seq<char>, is_kb: bool) -> FolderState {
    FolderState {
        workspace_id: wid,
        folder,
        is_kb,
        status: Status::Off,
        last_sync: None,
        last_error: None,
    }
}

/// The state that a folder has, or that of a folder of which nothing is known.
pub open spec fn known(b: Board, folder: Seq<char>, is_kb: bool) -> FolderState {
    if b.state.dom().contains(folder) {
        b.state[folder]
    } else {
        base(b.wid, folder, is_kb)
    }
}

/// A folder's status changed, by a sync that ended at a time where there is one. A sync
/// that went through clears the last error.
pub open spec fn with_status(
    b: Board,
    folder: Seq<char>,
    is_kb: bool,
    status: Status,
    at: Option<Seq<char>>,
) -> Board {
    let was = known(b, folder, is_kb);
    let now = match at {
        Some(t) => FolderState { status, last_sync: Some(t), last_error: None, ..was },
        None => FolderState { status, ..was },
    };
    Board { state: b.state.insert(folder, now), ..b }
}

/// A folder's status changed by a failure.
pub open spec fn with_failure(
    b: Board,
    folder: Seq<char>,
    is_kb: bool,
    status: Status,
    error: Seq<char>,
) -> Board {
    let was = known(b, folder, is_kb);
    Board {
        state: b.state.insert(
            folder,
            FolderState { status, last_error: Some(error), ..was },
        ),
        ..b
    }
}

/// Whether a folder is paused by a failure or a conflict.
pub open spec fn paused(b: Board, folder: Seq<char>) -> bool {
    b.state.dom().contains(folder) && (b.state[folder].status is Error
        || b.state[folder].status is Conflict)
}

/// The enabled folders, in order.
pub open spec fn enabled(cfgs: Seq<SyncFolderConfig>) -> Seq<Seq<char>>
    decreases cfgs.len(),
{
    if cfgs.len() == 0 {
        Seq::empty()
    } else if cfgs.last().enabled {
        enabled(cfgs.drop_last()).push(cfgs.last().folder@)
    } else {
        enabled(cfgs.drop_last())
    }
}

/// The index of the first enabled configuration of a folder; the number of configurations
/// where there is none.
pub open spec fn cfg_from(cfgs: Seq<SyncFolderConfig>, folder: Seq<char>, i: int) -> int
    decreases cfgs.len() - i,
{
    if i < 0 || i >= cfgs.len() {
        cfgs.len() as int
    } else if cfgs[i].enabled && cfgs[i].folder@ == folder {
        i
    } else {
        cfg_from(cfgs, folder, i + 1)
    }
}

/// The enabled configuration of a folder.
pub open spec fn cfg_of(cfgs: Seq<SyncFolderConfig>, folder: Seq<char>) -> Option<
    SyncFolderConfig,
> {
    let i = cfg_from(cfgs, folder, 0);
    if i < cfgs.len() {
        Some(cfgs[i])
    } else {
        None
    }
}

/// The states in the order of their folders.
pub open spec fn listed(m: SortedMap<SyncFolderState>) -> Seq<FolderState> {
    m.entries@.map_values(|e: (String, SyncFolderState)| state_view(e.1))
}

// ------------------------------------------------------------------------------- turns

/// What the worker does, and how it stands then: a sync to carry out, or none.
pub struct Turn {
    pub run: Option<Run>,
    pub board: Board,
}

/// Begins a sync of a folder. One that is not configured any more only counts as synced.
pub open spec fn begin(
    b: Board,
    folder: Seq<char>,
    how: Option<SyncResolution>,
    at: Option<u64>,
    now: u64,
) -> Turn {
    match cfg_of(b.cfgs, folder) {
        None => Turn {
            run: None,
            board: Board {
                last_sync: b.last_sync.insert(
                    folder,
                    match at {
                        Some(t) => t,
                        None => now,
                    },
                ),
                ..b
            },
        },
        Some(cfg) => {
            let is_kb = same_place(b.canonical, folder, b.kb_dir);
            Turn {
                run: Some(Run { folder, is_kb, cfg, how, at }),
                board: with_status(b, folder, is_kb, Status::Syncing, None),
            }
        },
    }
}

/// Whether a folder is to be synced again at its interval.
pub open spec fn comes_round(b: Board, folder: Seq<char>) -> bool {
    match b.triggers.periodic {
        None => false,
        Some(interval) => !b.last_sync.dom().contains(folder) || interval == 0 || (b.woke
            - b.last_sync[folder] >= interval),
    }
}

/// What the worker does of one thing before it.
pub open spec fn take_up(b: Board, item: Ahead, now: u64) -> Turn {
    match item {
        Ahead::Run(f) => begin(b, f, None, None, now),
        Ahead::Resolve(f, how) => begin(b, f, Some(how), None, now),
        Ahead::Due(f) => if paused(b, f) {
            Turn { run: None, board: b }
        } else {
            begin(b, f, None, Some(b.woke), now)
        },
        Ahead::Sweep => Turn {
            run: None,
            board: Board {
                todo: if b.triggers.periodic is Some {
                    b.todo + enabled(b.cfgs).map_values(
                        |f: Seq<char>| Ahead::Periodic(f),
                    ).reverse()
                } else {
                    b.todo
                },
                ..b
            },
        },
        Ahead::Periodic(f) => if comes_round(b, f) && !paused(b, f) {
            begin(b, f, None, Some(b.woke), now)
        } else {
            Turn { run: None, board: b }
        },
    }
}

/// How many times the worker is still to go through its folders.
pub open spec fn sweeps(todo: Seq<Ahead>) -> nat
    decreases todo.len(),
{
    if todo.len() == 0 {
        0
    } else {
        sweeps(todo.drop_last()) + if todo.last() is Sweep {
            1nat
        } else {
            0
        }
    }
}

proof fn lemma_sweeps_concat(a: Seq<Ahead>, c: Seq<Ahead>)
    ensures
        sweeps(a + c) == sweeps(a) + sweeps(c),
    decreases c.len(),
{
    if c.len() == 0 {
        assert(a + c =~= a);
    } else {
        assert((a + c).drop_last() =~= a + c.drop_last());
        assert((a + c).last() == c.last());
        lemma_sweeps_concat(a, c.drop_last());
    }
}

proof fn lemma_periodics_hold_no_sweep(fs: Seq<Seq<char>>, n: int)
    requires
        0 <= n <= fs.len(),
    ensures
        sweeps(fs.map_values(|f: Seq<char>| Ahead::Periodic(f)).reverse().take(n)) == 0,
    decreases n,
{
    let all = fs.map_values(|f: Seq<char>| Ahead::Periodic(f)).reverse();
    if n > 0 {
        lemma_periodics_hold_no_sweep(fs, n - 1);
        assert(all.take(n).drop_last() =~= all.take(n - 1));
        assert(all.take(n).last() == all[n - 1]);
    }
}

/// A turn leaves fewer sweeps, or as many and fewer things to do.
pub proof fn lemma_turn_shrinks(b: Board, now: u64)
    requires
        b.todo.len() > 0,
    ensures
        ({
            let rest = Board { todo: b.todo.drop_last(), ..b };
            let next = take_up(rest, b.todo.last(), now).board;
            sweeps(next.todo) < sweeps(b.todo) || (sweeps(next.todo) == sweeps(b.todo)
                && next.todo.len() < b.todo.len())
        }),
{
    let rest = Board { todo: b.todo.drop_last(), ..b };
    if b.todo.last() is Sweep {
        let fs = enabled(b.cfgs);
        let more = fs.map_values(|f: Seq<char>| Ahead::Periodic(f)).reverse();
        lemma_periodics_hold_no_sweep(fs, fs.len() as int);
        assert(more.take(fs.len() as int) =~= more);
        lemma_sweeps_concat(rest.todo, more);
    }
}

/// The next sync to carry out: what is before the worker is taken up until there is one.
pub open spec fn turn(b: Board, now: u64) -> Turn
    decreases sweeps(b.todo), b.todo.len(),
{
    if b.todo.len() == 0 {
        Turn { run: None, board: b }
    } else {
        let rest = Board { todo: b.todo.drop_last(), ..b };
        let t = take_up(rest, b.todo.last(), now);
        proof {
            lemma_turn_shrinks(b, now);
        }
        if t.run is Some {
            t
        } else {
            turn(t.board, now)
        }
    }
}

// -------------------------------------------------------------------------- the worker

impl SyncWorker {
    fn fetch(&self, folder: &str, is_kb: bool) -> (r: SyncFolderState)
        requires
            self.wf(),
        ensures
            state_view(r) == known(self@, folder@, is_kb),
    {
        match self.state.get(folder) {
            Some(s) => SyncFolderState {
                workspace_id: s.workspace_id.clone(),
                folder: s.folder.clone(),
                is_kb: s.is_kb,
                status: copy_status(&s.status),
                last_sync: copy_opt(&s.last_sync),
                last_error: copy_opt(&s.last_error),
            },
            None => base_state(self.wid.as_str(), folder, is_kb),
        }
    }

    fn put(&mut self, folder: &str, state: SyncFolderState)
        requires
            old(self).wf(),
        ensures
            final(self).wf(),
            final(self)@ == (Board {
                state: old(self)@.state.insert(folder@, state_view(state)),
                ..old(self)@
            }),
            final(self).cfgs == old(self).cfgs,
            final(self).todo == old(self).todo,
    {
        self.state.insert(folder.to_owned(), state);
        assert(states_of(self.state) =~= states_of(old(self).state).insert(
            folder@,
            state_view(state),
        ));
    }

    /// Sets a folder's status, by a sync that ended at a time where there is one.
    pub fn set_status(
        &mut self,
        folder: &str,
        is_kb: bool,
        status: SyncStatus,
        last_sync: Option<String>,
    )
        requires
            old(self).wf(),
        ensures
            final(self).wf(),
            final(self)@ == with_status(
                old(self)@,
                folder@,
                is_kb,
                status_view(status),
                opt_text(last_sync),
            ),
            final(self).cfgs == old(self).cfgs,
            final(self).todo == old(self).todo,
    {
        let mut s = self.fetch(folder, is_kb);
        s.status = status;
        match last_sync {
            Some(t) => {
                s.last_sync = Some(t);
                s.last_error = None;
            },
            None => {},
        }
        self.put(folder, s);
    }

    /// Sets a folder's status because of a failure.
    pub fn set_status_error(&mut self, folder: &str, is_kb: bool, status: SyncStatus, error: &str)
        requires
            old(self).wf(),
        ensures
            final(self).wf(),
            final(self)@ == with_failure(
                old(self)@,
                folder@,
                is_kb,
                status_view(status),
                error@,
            ),
            final(self).cfgs == old(self).cfgs,
            final(self).todo == old(self).todo,
    {
        let mut s = self.fetch(folder, is_kb);
        s.status = status;
        s.last_error = Some(error.to_owned());
        self.put(folder, s);
    }

    /// Whether a folder is paused by a failure or a conflict.
    pub fn is_paused(&self, folder: &str) -> (r: bool)
        requires
            self.wf(),
        ensures
            r == paused(self@, folder@),
    {
        match self.state.get(folder) {
            Some(s) => match &s.status {
                SyncStatus::Error { .. } => true,
                SyncStatus::Conflict { .. } => true,
                _ => false,
            },
            None => false,
        }
    }

    /// Whether two paths are one place.
    fn same_path(&self, a: &str, b: &str) -> (r: bool)
        requires
            self.wf(),
        ensures
            r == same_place(self.canonical, a@, b@),
    {
        match (self.canonical.get(a), self.canonical.get(b)) {
            (Some(x), Some(y)) => paths_equal(x.as_str(), y.as_str()),
            _ => paths_equal(a, b),
        }
    }

    /// The enabled configuration of a folder.
    pub fn find_cfg(&self, folder: &str) -> (r: Option<SyncFolderConfig>)
        ensures
            r == cfg_of(self.cfgs@, folder@),
    {
        let mut i: usize = 0;
        while i < self.cfgs.len()
            invariant
                i <= self.cfgs@.len(),
                cfg_from(self.cfgs@, folder@, 0) == cfg_from(self.cfgs@, folder@, i as int),
            decreases self.cfgs.len() - i,
        {
            if self.cfgs[i].enabled && same(self.cfgs[i].folder.as_str(), folder) {
                return Some(self.cfgs[i].clone());
            }
            i = i + 1;
        }
        None
    }

    /// The states of all folders, as an event.
    pub fn snapshot(&self) -> (r: EngineEvent)
        ensures
            r@ == (Event::SyncFolders { workspace_id: self.wid@, states: listed(self.state) }),
    {
        let states = list_states(&self.state);
        EngineEvent::SyncFolders { workspace_id: self.wid.clone(), states }
    }

    fn begin(
        &mut self,
        folder: &str,
        how: Option<SyncResolution>,
        at: Option<u64>,
        now: u64,
    ) -> (r: Option<SyncRun>)
        requires
            old(self).wf(),
        ensures
            final(self).wf(),
            final(self)@ == begin(old(self)@, folder@, how, at, now).board,
            match r {
                Some(x) => begin(old(self)@, folder@, how, at, now).run == Some(x@),
                None => begin(old(self)@, folder@, how, at, now).run is None,
            },
            final(self).todo == old(self).todo,
    {
        match self.find_cfg(folder) {
            None => {
                let t = match at {
                    Some(t) => t,
                    None => now,
                };
                self.last_sync.insert(folder.to_owned(), t);
                assert(times(self.last_sync) =~= times(old(self).last_sync).insert(folder@, t));
                None
            },
            Some(cfg) => {
                let is_kb = self.same_path(folder, self.kb_dir.as_str());
                self.set_status(folder, is_kb, SyncStatus::Syncing, None);
                Some(SyncRun { folder: folder.to_owned(), is_kb, cfg, how, at })
            },
        }
    }

    fn comes_round(&self, folder: &str) -> (r: bool)
        requires
            self.wf(),
        ensures
            r == comes_round(self@, folder@),
    {
        match self.triggers.periodic {
            None => false,
            Some(interval) => match self.last_sync.get(folder) {
                None => true,
                Some(t) => interval == 0 || (self.woke >= *t && self.woke - *t >= interval),
            },
        }
    }

    /// The next sync to carry out, with the event that it starts; `None` where nothing is
    /// before the worker.
    pub fn next(&mut self, now: u64) -> (r: Option<(SyncRun, EngineEvent)>)
        requires
            old(self).wf(),
        ensures
            final(self).wf(),
            final(self)@ == turn(old(self)@, now).board,
            match r {
                Some((x, e)) => turn(old(self)@, now).run == Some(x@) && e@ == (
                Event::SyncStarted { workspace_id: old(self).wid@, folder: x.folder@ }),
                None => turn(old(self)@, now).run is None,
            },
    {
        let ghost start = self@;
        while self.todo.len() > 0
            invariant
                self.wf(),
                self.wid@ == old(self).wid@,
                start == old(self)@,
                turn(start, now) == turn(self@, now),
            decreases sweeps(self@.todo), self@.todo.len(),
        {
            let ghost before = self@;
            let last: usize = self.todo.len() - 1;
            let item = self.todo.remove(last);
            let ghost rest = self@;
            proof {
                assert(todos(self.todo@) =~= before.todo.drop_last());
                assert(item@ == before.todo.last());
                assert(rest == Board { todo: before.todo.drop_last(), ..before });
                lemma_turn_shrinks(before, now);
            }
            let run = match item {
                Todo::Run(f) => self.begin(f.as_str(), None, None, now),
                Todo::Resolve(f, how) => self.begin(f.as_str(), Some(how), None, now),
                Todo::Due(f) => {
                    if self.is_paused(f.as_str()) {
                        None
                    } else {
                        let at = self.woke;
                        self.begin(f.as_str(), None, Some(at), now)
                    }
                },
                Todo::Sweep => {
                    if self.triggers.periodic.is_some() {
                        self.sweep();
                    }
                    None
                },
                Todo::Periodic(f) => {
                    if self.comes_round(f.as_str()) && !self.is_paused(f.as_str()) {
                        let at = self.woke;
                        self.begin(f.as_str(), None, Some(at), now)
                    } else {
                        None
                    }
                },
            };
            assert(self@ == take_up(rest, item@, now).board);
            if let Some(x) = run {
                let e = EngineEvent::SyncStarted {
                    workspace_id: self.wid.clone(),
                    folder: x.folder.clone(),
                };
                return Some((x, e));
            }
        }
        None
    }

    /// Puts the enabled folders before the worker, the first one next.
    fn sweep(&mut self)
        requires
            old(self).wf(),
        ensures
            final(self).wf(),
            final(self).wid == old(self).wid,
            final(self)@ == (Board {
                todo: old(self)@.todo + enabled(old(self).cfgs@).map_values(
                    |f: Seq<char>| Ahead::Periodic(f),
                ).reverse(),
                ..old(self)@
            }),
    {
        let fs = enabled_folders(&self.cfgs);
        let ghost more = texts(fs@).map_values(|f: Seq<char>| Ahead::Periodic(f)).reverse();
        let ghost before = todos(self.todo@);
        let mut i: usize = fs.len();
        assert(todos(self.todo@) =~= before + more.take(0));
        while i > 0
            invariant
                self.wf(),
                self.wid == old(self).wid,
                i <= fs@.len(),
                more == texts(fs@).map_values(|f: Seq<char>| Ahead::Periodic(f)).reverse(),
                before == old(self)@.todo,
                self@ == (Board { todo: before + more.take(fs@.len() - i), ..old(self)@ }),
            decreases i,
        {
            let ghost was = todos(self.todo@);
            let ghost n = fs@.len() - i;
            i = i - 1;
            self.todo.push(Todo::Periodic(fs[i].clone()));
            proof {
                assert(todos(self.todo@) =~= was.push(Ahead::Periodic(fs@[i as int]@)));
                assert(more[n] == Ahead::Periodic(fs@[i as int]@));
                assert(before + more.take(n + 1) =~= was.push(more[n]));
            }
        }
        assert(more.take(fs@.len() as int) =~= more);
    }
}

fn copy_opt(s: &Option<String>) -> (r: Option<String>)
    ensures
        r == *s,
{
    match s {
        Some(t) => Some(t.clone()),
        None => None,
    }
}

fn copy_status(s: &SyncStatus) -> (r: SyncStatus)
    ensures
        status_view(r) == status_view(*s),
{
    match s {
        SyncStatus::Off => SyncStatus::Off,
        SyncStatus::Syncing => SyncStatus::Syncing,
        SyncStatus::Synced => SyncStatus::Synced,
        SyncStatus::Error { reason } => SyncStatus::Error { reason: reason.clone() },
        SyncStatus::Conflict { paths } => SyncStatus::Conflict { paths: copy_texts(paths) },
    }
}

/// The state of a folder of which nothing is known.
pub fn base_state(wid: &str, folder: &str, is_kb: bool) -> (r: SyncFolderState)
    ensures
        state_view(r) == base(wid@, folder@, is_kb),
{
    SyncFolderState {
        workspace_id: wid.to_owned(),
        folder: folder.to_owned(),
        is_kb,
        status: SyncStatus::Off,
        last_sync: None,
        last_error: None,
    }
}

/// The states in the order of their folders.
pub fn list_states(m: &SortedMap<SyncFolderState>) -> (r: Vec<SyncFolderState>)
    ensures
        states_view(r@) == listed(*m),
{
    let mut out: Vec<SyncFolderState> = Vec::new();
    let mut i: usize = 0;
    assert(states_view(out@) =~= listed(*m).take(0));
    while i < m.entries.len()
        invariant
            i <= m.entries@.len(),
            states_view(out@) == listed(*m).take(i as int),
        decreases m.entries.len() - i,
    {
        let ghost before = states_view(out@);
        let s = &m.entries[i].1;
        let copy = SyncFolderState {
            workspace_id: s.workspace_id.clone(),
            folder: s.folder.clone(),
            is_kb: s.is_kb,
            status: copy_status(&s.status),
            last_sync: copy_opt(&s.last_sync),
            last_error: copy_opt(&s.last_error),
        };
        out.push(copy);
        proof {
            assert(states_view(out@) =~= before.push(state_view(*s)));
            assert(listed(*m).take(i + 1) =~= before.push(listed(*m)[i as int]));
        }
        i = i + 1;
    }
    assert(listed(*m).take(m.entries@.len() as int) =~= listed(*m));
    out
}

/// The enabled folders, in order.
pub fn enabled_folders(cfgs: &Vec<SyncFolderConfig>) -> (r: Vec<String>)
    ensures
        texts(r@) == enabled(cfgs@),
{
    let mut out: Vec<String> = Vec::new();
    let mut i: usize = 0;
    proof {
        assert(cfgs@.take(0) =~= Seq::empty());
        assert(texts(out@) =~= Seq::empty());
    }
    while i < cfgs.len()
        invariant
            i <= cfgs@.len(),
            texts(out@) == enabled(cfgs@.take(i as int)),
        decreases cfgs.len() - i,
    {
        let ghost before = texts(out@);
        proof {
            assert(cfgs@.take(i + 1).drop_last() =~= cfgs@.take(i as int));
            assert(cfgs@.take(i + 1).last() == cfgs@[i as int]);
        }
        if cfgs[i].enabled {
            out.push(cfgs[i].folder.clone());
            assert(texts(out@) =~= before.push(cfgs@[i as int].folder@));
        }
        i = i + 1;
    }
    assert(cfgs@.take(cfgs@.len() as int) =~= cfgs@);
    out
}

// ------------------------------------------------------------- opening, jobs and time

/// The board once every one of some enabled folders is marked as syncing.
pub open spec fn marked(b: Board, folders: Seq<Seq<char>>) -> Board
    decreases folders.len(),
{
    if folders.len() == 0 {
        b
    } else {
        let before = marked(b, folders.drop_last());
        let f = folders.last();
        with_status(before, f, same_place(b.canonical, f, b.kb_dir), Status::Syncing, None)
    }
}

/// The folders that changed and that a change has synced: those that push.
pub open spec fn touched(
    cfgs: Seq<SyncFolderConfig>,
    canonical: SortedMap<String>,
    folder: Seq<char>,
) -> Seq<Seq<char>>
    decreases cfgs.len(),
{
    if cfgs.len() == 0 {
        Seq::empty()
    } else {
        let before = touched(cfgs.drop_last(), canonical, folder);
        let c = cfgs.last();
        if c.enabled && c.direction == SyncDirection::PullPush && same_place(
            canonical,
            c.folder@,
            folder,
        ) {
            before.push(c.folder@)
        } else {
            before
        }
    }
}

/// A map of times with some keys set to one time.
pub open spec fn with_times(m: Map<Seq<char>, u64>, ks: Seq<Seq<char>>, t: u64) -> Map<
    Seq<char>,
    u64,
>
    decreases ks.len(),
{
    if ks.len() == 0 {
        m
    } else {
        with_times(m, ks.drop_last(), t).insert(ks.last(), t)
    }
}

/// The folders that are due, in order.
pub open spec fn ready(entries: Seq<(String, u64)>, now: u64) -> Seq<Seq<char>>
    decreases entries.len(),
{
    if entries.len() == 0 {
        Seq::empty()
    } else {
        let before = ready(entries.drop_last(), now);
        if entries.last().1 <= now {
            before.push(entries.last().0@)
        } else {
            before
        }
    }
}

/// A map of times without those that are due.
pub open spec fn not_ready(m: Map<Seq<char>, u64>, now: u64) -> Map<Seq<char>, u64> {
    m.restrict(Set::new(|k: Seq<char>| m.dom().contains(k) && m[k] > now))
}

impl SyncWorker {
    /// The sync worker of a workspace.
    pub fn new(
        wid: &str,
        kb_dir: &str,
        canonical: SortedMap<String>,
        cfgs: Vec<SyncFolderConfig>,
        triggers: SyncTriggers,
    ) -> (r: Self)
        requires
            canonical.wf(),
            canonical.order == KeyOrder::Text,
        ensures
            r.wf(),
            r.cfgs == cfgs,
            r@ == (Board {
                wid: wid@,
                kb_dir: kb_dir@,
                canonical,
                cfgs: cfgs@,
                state: Map::empty(),
                triggers,
                last_sync: Map::empty(),
                due: Map::empty(),
                todo: Seq::empty(),
                woke: 0,
            }),
    {
        let r = SyncWorker {
            wid: wid.to_owned(),
            kb_dir: kb_dir.to_owned(),
            canonical,
            cfgs,
            state: SortedMap::new(KeyOrder::Text),
            triggers,
            last_sync: SortedMap::new(KeyOrder::Text),
            debounce_due: SortedMap::new(KeyOrder::Text),
            todo: Vec::new(),
            woke: 0,
        };
        assert(states_of(r.state) =~= Map::empty());
        assert(times(r.last_sync) =~= Map::empty());
        assert(times(r.debounce_due) =~= Map::empty());
        assert(todos(r.todo@) =~= Seq::empty());
        r
    }

    /// Starts: marks the enabled folders as syncing and tells of them, and puts them before
    /// the worker where folders are synced on opening.
    pub fn open(&mut self) -> (r: EngineEvent)
        requires
            old(self).wf(),
            old(self).todo@.len() == 0,
        ensures
            final(self).wf(),
            final(self)@ == (Board {
                todo: if old(self).triggers.on_open {
                    enabled(old(self).cfgs@).map_values(|f: Seq<char>| Ahead::Run(f)).reverse()
                } else {
                    Seq::empty()
                },
                ..marked(old(self)@, enabled(old(self).cfgs@))
            }),
            r@ == (Event::SyncFolders {
                workspace_id: old(self).wid@,
                states: listed(final(self).state),
            }),
    {
        let ghost start = self@;
        let fs = enabled_folders(&self.cfgs);
        let ghost all = texts(fs@);
        let mut i: usize = 0;
        assert(all.take(0) =~= Seq::empty());
        while i < fs.len()
            invariant
                self.wf(),
                i <= fs@.len(),
                all == texts(fs@),
                self@ == marked(start, all.take(i as int)),
                self.wid@ == start.wid,
                self.canonical == start.canonical,
                self.kb_dir@ == start.kb_dir,
            decreases fs.len() - i,
        {
            proof {
                assert(all.take(i + 1).drop_last() =~= all.take(i as int));
                assert(all.take(i + 1).last() == all[i as int]);
            }
            let is_kb = self.same_path(fs[i].as_str(), self.kb_dir.as_str());
            self.set_status(fs[i].as_str(), is_kb, SyncStatus::Syncing, None);
            i = i + 1;
        }
        assert(all.take(all.len() as int) =~= all);
        let ghost done = self@;
        proof {
            lemma_marked(start, all);
        }
        let e = self.snapshot();
        if self.triggers.on_open {
            let ghost more = all.map_values(|f: Seq<char>| Ahead::Run(f)).reverse();
            let mut k: usize = fs.len();
            assert(todos(self.todo@) =~= more.take(0));
            while k > 0
                invariant
                    self.wf(),
                    k <= fs@.len(),
                    all == texts(fs@),
                    more == all.map_values(|f: Seq<char>| Ahead::Run(f)).reverse(),
                    self@ == (Board { todo: more.take(fs@.len() - k), ..done }),
                    e@ == (Event::SyncFolders {
                        workspace_id: start.wid,
                        states: listed(self.state),
                    }),
                decreases k,
            {
                let ghost was = todos(self.todo@);
                let ghost n = fs@.len() - k;
                k = k - 1;
                self.todo.push(Todo::Run(fs[k].clone()));
                proof {
                    assert(todos(self.todo@) =~= was.push(Ahead::Run(fs@[k as int]@)));
                    assert(more[n] == Ahead::Run(fs@[k as int]@));
                    assert(more.take(n + 1) =~= was.push(more[n]));
                }
            }
            assert(more.take(fs@.len() as int) =~= more);
        } else {
            assert(todos(self.todo@) =~= Seq::empty());
        }
        e
    }

    /// Takes a job up. A changed folder that pushes becomes due some time later; a change of
    /// configuration is told.
    pub fn job(&mut self, job: SyncJob, now: u64) -> (r: Option<EngineEvent>)
        requires
            old(self).wf(),
            old(self).triggers.on_change_debounce matches Some(d) ==> now + d <= u64::MAX,
        ensures
            final(self).wf(),
            match job {
                SyncJob::SyncNow(f) => r is None && final(self)@ == (Board {
                    todo: old(self)@.todo.push(Ahead::Run(f@)),
                    ..old(self)@
                }),
                SyncJob::Resolve(f, how) => r is None && final(self)@ == (Board {
                    todo: old(self)@.todo.push(Ahead::Resolve(f@, how)),
                    ..old(self)@
                }),
                SyncJob::Touched(f) => r is None && final(self)@ == (
                match old(self).triggers.on_change_debounce {
                    Some(d) => Board {
                        due: with_times(
                            old(self)@.due,
                            touched(old(self).cfgs@, old(self).canonical, f@),
                            (now + d) as u64,
                        ),
                        ..old(self)@
                    },
                    None => old(self)@,
                }),
                SyncJob::ReloadConfigs => final(self)@ == old(self)@ && (r matches Some(e) && e@
                    == (Event::SyncFolders {
                    workspace_id: old(self).wid@,
                    states: listed(old(self).state),
                })),
            },
    {
        match job {
            SyncJob::SyncNow(f) => {
                self.todo.push(Todo::Run(f));
                assert(todos(self.todo@) =~= todos(old(self).todo@).push(Ahead::Run(f@)));
                None
            },
            SyncJob::Resolve(f, how) => {
                self.todo.push(Todo::Resolve(f, how));
                assert(todos(self.todo@) =~= todos(old(self).todo@).push(
                    Ahead::Resolve(f@, how),
                ));
                None
            },
            SyncJob::Touched(f) => {
                if let Some(d) = self.triggers.on_change_debounce {
                    self.touch(f.as_str(), now + d);
                }
                None
            },
            SyncJob::ReloadConfigs => Some(self.snapshot()),
        }
    }

    fn touch(&mut self, folder: &str, at: u64)
        requires
            old(self).wf(),
        ensures
            final(self).wf(),
            final(self)@ == (Board {
                due: with_times(
                    old(self)@.due,
                    touched(old(self).cfgs@, old(self).canonical, folder@),
                    at,
                ),
                ..old(self)@
            }),
    {
        let ghost start = self@;
        let ghost all = self.cfgs@;
        let mut i: usize = 0;
        assert(all.take(0) =~= Seq::empty());
        while i < self.cfgs.len()
            invariant
                self.wf(),
                all == self.cfgs@,
                start == old(self)@,
                i <= all.len(),
                self@ == (Board {
                    due: with_times(
                        start.due,
                        touched(all.take(i as int), start.canonical, folder@),
                        at,
                    ),
                    ..start
                }),
            decreases all.len() - i,
        {
            proof {
                assert(all.take(i + 1).drop_last() =~= all.take(i as int));
                assert(all.take(i + 1).last() == all[i as int]);
            }
            let ghost before = touched(all.take(i as int), start.canonical, folder@);
            let c = self.cfgs[i].clone();
            if c.enabled && c.direction == SyncDirection::PullPush && self.same_path(
                c.folder.as_str(),
                folder,
            ) {
                let ghost was = self.debounce_due;
                self.debounce_due.insert(c.folder, at);
                proof {
                    assert(times(self.debounce_due) =~= times(was).insert(
                        all[i as int].folder@,
                        at,
                    ));
                    let now = before.push(all[i as int].folder@);
                    assert(now.drop_last() =~= before);
                }
            }
            i = i + 1;
        }
        assert(all.take(all.len() as int) =~= all);
    }

    /// Wakes up with nothing asked: the folders that are due come before the worker, then
    /// the round through the enabled folders.
    pub fn wake(&mut self, now: u64)
        requires
            old(self).wf(),
            old(self).todo@.len() == 0,
        ensures
            final(self).wf(),
            final(self)@ == (Board {
                woke: now,
                due: not_ready(old(self)@.due, now),
                todo: seq![Ahead::Sweep] + ready(
                    old(self).debounce_due.entries@,
                    now,
                ).map_values(|f: Seq<char>| Ahead::Due(f)).reverse(),
                ..old(self)@
            }),
    {
        let ghost start = self@;
        let ghost all = self.debounce_due.entries@;
        let ghost map = self.debounce_due;
        let mut fs: Vec<String> = Vec::new();
        let mut i: usize = 0;
        proof {
            assert(all.take(0) =~= Seq::empty());
            assert(texts(fs@) =~= Seq::empty());
        }
        while i < self.debounce_due.entries.len()
            invariant
                self.debounce_due == map,
                all == map.entries@,
                i <= all.len(),
                texts(fs@) == ready(all.take(i as int), now),
            decreases all.len() - i,
        {
            let ghost before = texts(fs@);
            proof {
                assert(all.take(i + 1).drop_last() =~= all.take(i as int));
                assert(all.take(i + 1).last() == all[i as int]);
            }
            if self.debounce_due.entries[i].1 <= now {
                fs.push(self.debounce_due.entries[i].0.clone());
                assert(texts(fs@) =~= before.push(all[i as int].0@));
            }
            i = i + 1;
        }
        assert(all.take(all.len() as int) =~= all);
        self.woke = now;
        self.todo.push(Todo::Sweep);
        assert(todos(self.todo@) =~= seq![Ahead::Sweep]);
        let ghost ks = texts(fs@);
        let ghost more = ks.map_values(|f: Seq<char>| Ahead::Due(f)).reverse();
        let mut k: usize = fs.len();
        proof {
            assert(seq![Ahead::Sweep] + more.take(0) =~= seq![Ahead::Sweep]);
        }
        while k > 0
            invariant
                self.wf(),
                k <= fs@.len(),
                ks == texts(fs@),
                more == ks.map_values(|f: Seq<char>| Ahead::Due(f)).reverse(),
                map.wf(),
                map.order == KeyOrder::Text,
                self@ == (Board {
                    woke: now,
                    due: self@.due,
                    todo: seq![Ahead::Sweep] + more.take(fs@.len() - k),
                    ..start
                }),
                forall|x: Seq<char>|
                    #[trigger] self.debounce_due.lookup(x) == if ks.skip(k as int).contains(x) {
                        None
                    } else {
                        map.lookup(x)
                    },
            decreases k,
        {
            let ghost was = todos(self.todo@);
            let ghost due = self.debounce_due;
            let ghost n = fs@.len() - k;
            k = k - 1;
            let gone = self.debounce_due.remove(fs[k].as_str());
            self.todo.push(Todo::Due(fs[k].clone()));
            proof {
                assert(todos(self.todo@) =~= was.push(Ahead::Due(fs@[k as int]@)));
                assert(more[n] == Ahead::Due(fs@[k as int]@));
                assert(seq![Ahead::Sweep] + more.take(n + 1) =~= was.push(more[n]));
                let f = ks[k as int];
                assert forall|x: Seq<char>|
                    #[trigger] self.debounce_due.lookup(x) == if ks.skip(k as int).contains(x) {
                        None
                    } else {
                        map.lookup(x)
                    } by {
                    let tail = ks.skip(k + 1);
                    let now = ks.skip(k as int);
                    assert(due.lookup(x) == if tail.contains(x) {
                        None
                    } else {
                        map.lookup(x)
                    });
                    assert(now[0] == f);
                    if tail.contains(x) {
                        let a = choose|a: int| 0 <= a < tail.len() && tail[a] == x;
                        assert(now[a + 1] == x);
                    }
                    if now.contains(x) && x != f {
                        let a = choose|a: int| 0 <= a < now.len() && now[a] == x;
                        assert(tail[a - 1] == x);
                    }
                }
            }
        }
        proof {
            assert(more.take(fs@.len() as int) =~= more);
            assert(ks.skip(0) =~= ks);
            assert forall|x: Seq<char>| ks.contains(x) == (map.lookup(x) matches Some(t) && t
                <= now) by {
                lemma_ready(map, all.len() as int, now, x);
                assert(all.take(all.len() as int) =~= all);
                if map.has_key(x) {
                    let j = choose|j: int| map.holds_at(x, j);
                    map.lemma_entry(x, j);
                }
            }
            assert(times(self.debounce_due) =~= not_ready(times(map), now));
        }
    }

    /// What came of a sync: the folder's new state, and the event to tell. `now` is the time
    /// of the worker's clock in milliseconds, and `secs` that of the day in seconds since the
    /// start of 1970, which a folder that was synced is stamped with.
    pub fn finish(
        &mut self,
        run: &SyncRun,
        outcome: Result<SyncOutcome, SyncError>,
        now: u64,
        secs: i64,
    ) -> (r: EngineEvent)
        requires
            old(self).wf(),
        ensures
            final(self).wf(),
            exists|stamp: Seq<char>| #[trigger]
                is_stamp_of(stamp, secs as int) && (final(self)@, r@) == finished(
                    old(self)@,
                    run@,
                    outcome,
                    now,
                    stamp,
                ),
    {
        let stamp = format_unix_utc(secs);
        let ghost told = stamp@;
        let folder = run.folder.as_str();
        let at = match run.at {
            Some(t) => t,
            None => now,
        };
        let workspace_id = self.wid.clone();
        let ghost start = self@;
        let e = match outcome {
            Ok(SyncOutcome::UpToDate) => {
                self.set_status(folder, run.is_kb, SyncStatus::Synced, Some(stamp));
                EngineEvent::SyncSucceeded {
                    workspace_id,
                    folder: run.folder.clone(),
                    pulled: false,
                    pushed: false,
                }
            },
            Ok(SyncOutcome::Updated { pulled, pushed }) => {
                self.set_status(folder, run.is_kb, SyncStatus::Synced, Some(stamp));
                EngineEvent::SyncSucceeded {
                    workspace_id,
                    folder: run.folder.clone(),
                    pulled,
                    pushed,
                }
            },
            Ok(SyncOutcome::Conflict { files }) => {
                let ghost shown = files_view(files@).map_values(
                    |f: (Seq<char>, Option<Seq<char>>)| f.0,
                );
                let mut paths: Vec<String> = Vec::new();
                let mut i: usize = 0;
                assert(texts(paths@) =~= shown.take(0));
                while i < files.len()
                    invariant
                        i <= files@.len(),
                        shown == files_view(files@).map_values(
                            |f: (Seq<char>, Option<Seq<char>>)| f.0,
                        ),
                        texts(paths@) == shown.take(i as int),
                    decreases files.len() - i,
                {
                    let ghost before = texts(paths@);
                    paths.push(files[i].path.clone());
                    proof {
                        assert(texts(paths@) =~= before.push(files@[i as int].path@));
                        assert(shown.take(i + 1) =~= before.push(shown[i as int]));
                    }
                    i = i + 1;
                }
                assert(shown.take(files@.len() as int) =~= shown);
                self.set_status_error(
                    folder,
                    run.is_kb,
                    SyncStatus::Conflict { paths: copy_texts(&paths) },
                    "merge conflict",
                );
                EngineEvent::SyncConflict { workspace_id, folder: run.folder.clone(), paths }
            },
            Err(error) => {
                let reason = error.message();
                self.set_status_error(
                    folder,
                    run.is_kb,
                    SyncStatus::Error { reason: reason.clone() },
                    reason.as_str(),
                );
                EngineEvent::SyncFailed { workspace_id, folder: run.folder.clone(), reason }
            },
        };
        let ghost before = self.last_sync;
        self.last_sync.insert(run.folder.clone(), at);
        proof {
            assert(times(self.last_sync) =~= times(before).insert(run.folder@, at));
            assert(is_stamp_of(told, secs as int));
            assert(self@ =~= finished(start, run@, outcome, now, told).0);
        }
        e
    }
}

/// What came of a sync: how the worker stands then, and the event to tell.
pub open spec fn finished(
    b: Board,
    run: Run,
    outcome: Result<SyncOutcome, SyncError>,
    now: u64,
    stamp: Seq<char>,
) -> (Board, Event) {
    let at = match run.at {
        Some(t) => t,
        None => now,
    };
    let (board, event) = match outcome {
        Ok(SyncOutcome::UpToDate) => (
            with_status(b, run.folder, run.is_kb, Status::Synced, Some(stamp)),
            Event::SyncSucceeded {
                workspace_id: b.wid,
                folder: run.folder,
                pulled: false,
                pushed: false,
            },
        ),
        Ok(SyncOutcome::Updated { pulled, pushed }) => (
            with_status(b, run.folder, run.is_kb, Status::Synced, Some(stamp)),
            Event::SyncSucceeded { workspace_id: b.wid, folder: run.folder, pulled, pushed },
        ),
        Ok(SyncOutcome::Conflict { files }) => {
            let paths = files_view(files@).map_values(|f: (Seq<char>, Option<Seq<char>>)| f.0);
            (
                with_failure(b, run.folder, run.is_kb, Status::Conflict(paths), "merge conflict"@),
                Event::SyncConflict { workspace_id: b.wid, folder: run.folder, paths },
            )
        },
        Err(e) => (
            with_failure(
                b,
                run.folder,
                run.is_kb,
                Status::Error(failure_text(e@)),
                failure_text(e@),
            ),
            Event::SyncFailed {
                workspace_id: b.wid,
                folder: run.folder,
                reason: failure_text(e@),
            },
        ),
    };
    (Board { last_sync: board.last_sync.insert(run.folder, at), ..board }, event)
}

proof fn lemma_marked(b: Board, folders: Seq<Seq<char>>)
    ensures
        marked(b, folders) == (Board { state: marked(b, folders).state, ..b }),
    decreases folders.len(),
{
    if folders.len() > 0 {
        lemma_marked(b, folders.drop_last());
    }
}

proof fn lemma_ready(m: SortedMap<u64>, n: int, now: u64, x: Seq<char>)
    requires
        m.wf(),
        m.order == KeyOrder::Text,
        0 <= n <= m.entries@.len(),
    ensures
        ready(m.entries@.take(n), now).contains(x) <==> exists|j: int|
            j < n && #[trigger] m.holds_at(x, j) && m.entries@[j].1 <= now,
    decreases n,
{
    let cur = ready(m.entries@.take(n), now);
    if n == 0 {
        assert(m.entries@.take(0) =~= Seq::empty());
        assert(cur.len() == 0);
    } else {
        lemma_ready(m, n - 1, now, x);
        let before = ready(m.entries@.take(n - 1), now);
        assert(m.entries@.take(n).drop_last() =~= m.entries@.take(n - 1));
        let last = m.entries@[n - 1];
        assert(m.entries@.take(n).last() == last);
        if before.contains(x) {
            let a = choose|a: int| 0 <= a < before.len() && before[a] == x;
            assert(cur[a] == x);
            let j = choose|j: int|
                j < n - 1 && #[trigger] m.holds_at(x, j) && m.entries@[j].1 <= now;
            assert(j < n && m.holds_at(x, j) && m.entries@[j].1 <= now);
        }
        if last.1 <= now && last.0@ == x {
            assert(cur[before.len() as int] == x);
            assert(m.holds_at(x, n - 1));
        }
        if cur.contains(x) && !before.contains(x) {
            let a = choose|a: int| 0 <= a < cur.len() && cur[a] == x;
            if a < before.len() {
                assert(before[a] == x);
            }
        }
        if exists|j: int| j < n && #[trigger] m.holds_at(x, j) && m.entries@[j].1 <= now {
            let j = choose|j: int| j < n && #[trigger] m.holds_at(x, j) && m.entries@[j].1 <= now;
            if j < n - 1 {
                assert(j < n - 1 && m.holds_at(x, j) && m.entries@[j].1 <= now);
            }
        }
    }
}

// ------------------------------------------------------------------------- ignore file

/// What the ignore file of a knowledge base is to hold; `None` where it need not change.
pub open spec fn ignoring_sidecars(current: Seq<char>) -> Option<Seq<char>> {
    let managed =
        "# Looper-managed (machine-local; do not sync)\nscan-cursor.json\n.htmlcache/\n.corpus/\n"@;
    if contains(current, "scan-cursor.json"@) {
        None
    } else if current.len() == 0 {
        Some(managed)
    } else {
        Some(trim_end(current, CharSet::White) + "\n"@ + managed)
    }
}

/// What the ignore file of a knowledge base is to hold, so that machine-local files are not
/// synced; `None` where it need not change.
pub fn kb_gitignore(current: &str) -> (r: Option<String>)
    ensures
        r is Some == ignoring_sidecars(current@) is Some,
        r matches Some(s) ==> ignoring_sidecars(current@) == Some(s@),
{
    let cs = chars_of(current);
    if has(&cs, &chars_of("scan-cursor.json")) {
        return None;
    }
    let managed =
        "# Looper-managed (machine-local; do not sync)\nscan-cursor.json\n.htmlcache/\n.corpus/\n";
    if cs.len() == 0 {
        return Some(managed.to_owned());
    }
    let mut s = string_of(trimmed_end(&cs, CharSet::White));
    s.append("\n");
    s.append(managed);
    Some(s)
}

// -------------------------------------------------------------------------- laws

/// A folder that is paused is not synced by itself, neither after a change nor at an
/// interval; nothing about it changes.
pub proof fn paused_folders_wait(b: Board, folder: Seq<char>, now: u64)
    requires
        paused(b, folder),
    ensures
        take_up(b, Ahead::Due(folder), now) == (Turn { run: None, board: b }),
        take_up(b, Ahead::Periodic(folder), now) == (Turn { run: None, board: b }),
{
}

/// A folder that is configured is synced when that is asked for, paused or not.
pub proof fn asking_syncs_a_paused_folder(b: Board, folder: Seq<char>, now: u64)
    requires
        cfg_of(b.cfgs, folder) is Some,
    ensures
        take_up(b, Ahead::Run(folder), now).run matches Some(r) && r.folder == folder && r.how
            is None,
        take_up(b, Ahead::Run(folder), now).board.state[folder].status == Status::Syncing,
{
}

/// Only a folder with an enabled configuration is ever synced.
pub proof fn only_configured_folders_are_synced(b: Board, now: u64)
    ensures
        turn(b, now).run matches Some(r) ==> cfg_of(b.cfgs, r.folder) == Some(r.cfg)
            && r.cfg.enabled,
        turn(b, now).board.cfgs == b.cfgs,
    decreases sweeps(b.todo), b.todo.len(),
{
    if b.todo.len() > 0 {
        let rest = Board { todo: b.todo.drop_last(), ..b };
        let t = take_up(rest, b.todo.last(), now);
        lemma_turn_shrinks(b, now);
        if t.run is None {
            only_configured_folders_are_synced(t.board, now);
        } else {
            let f = t.run.unwrap().folder;
            lemma_cfg_from(b.cfgs, f, 0);
        }
    }
}

proof fn lemma_cfg_from(cfgs: Seq<SyncFolderConfig>, folder: Seq<char>, i: int)
    requires
        0 <= i <= cfgs.len(),
    ensures
        cfg_from(cfgs, folder, i) < cfgs.len() ==> cfg_from(cfgs, folder, i) >= 0
            && cfgs[cfg_from(cfgs, folder, i)].enabled,
    decreases cfgs.len() - i,
{
    if i < cfgs.len() && !(cfgs[i].enabled && cfgs[i].folder@ == folder) {
        lemma_cfg_from(cfgs, folder, i + 1);
    }
}

/// A sync that goes through leaves its folder unpaused, without an error; a conflict or a
/// failure pauses it. No other folder is touched.
pub proof fn outcomes_decide_the_pause(
    b: Board,
    run: Run,
    outcome: Result<SyncOutcome, SyncError>,
    now: u64,
    stamp: Seq<char>,
    other: Seq<char>,
)
    requires
        other != run.folder,
    ensures
        ({
            let after = finished(b, run, outcome, now, stamp).0;
            &&& paused(after, run.folder) == (outcome is Err || outcome->Ok_0 is Conflict)
            &&& !paused(after, run.folder) ==> after.state[run.folder].last_error is None
                && after.state[run.folder].last_sync == Some(stamp)
            &&& paused(after, run.folder) ==> after.state[run.folder].last_error is Some
            &&& after.state.dom().contains(other) == b.state.dom().contains(other)
            &&& b.state.dom().contains(other) ==> after.state[other] == b.state[other]
        }),
{
}

/// A folder that only pulls does not become due by a change in it.
pub proof fn pull_only_folders_ignore_changes(
    cfgs: Seq<SyncFolderConfig>,
    canonical: SortedMap<String>,
    folder: Seq<char>,
    f: Seq<char>,
)
    requires
        forall|i: int|
            0 <= i < cfgs.len() && (#[trigger] cfgs[i]).folder@ == f ==> cfgs[i].direction
                == SyncDirection::PullOnly || !cfgs[i].enabled,
    ensures
        !touched(cfgs, canonical, folder).contains(f),
    decreases cfgs.len(),
{
    if cfgs.len() > 0 {
        let rest = cfgs.drop_last();
        assert forall|i: int| 0 <= i < rest.len() && (#[trigger] rest[i]).folder@ == f implies
            rest[i].direction == SyncDirection::PullOnly || !rest[i].enabled by {
            assert(cfgs[i] == rest[i]);
        }
        pull_only_folders_ignore_changes(rest, canonical, folder, f);
        assert(cfgs[cfgs.len() - 1] == cfgs.last());
        let before = touched(rest, canonical, folder);
        let now = touched(cfgs, canonical, folder);
        if now.contains(f) {
            let a = choose|a: int| 0 <= a < now.len() && now[a] == f;
            if a < before.len() {
                assert(before[a] == f);
            }
        }
    }
}

/// A folder at an interval is synced again only once the interval has passed since.
pub proof fn intervals_are_kept(b: Board, folder: Seq<char>, interval: u64, now: u64)
    requires
        b.triggers.periodic == Some(interval),
        b.last_sync.dom().contains(folder),
        b.woke - b.last_sync[folder] < interval,
        interval > 0,
    ensures
        take_up(b, Ahead::Periodic(folder), now).run is None,
{
}

/// The machine-local files of a KB directory are ignored once: what was written for that is
/// left as it is afterwards.
pub proof fn ignoring_sidecars_is_done_once(current: Seq<char>)
    ensures
        ignoring_sidecars(current) matches Some(s) ==> ignoring_sidecars(s) is None,
{
    let managed =
        "# Looper-managed (machine-local; do not sync)\nscan-cursor.json\n.htmlcache/\n.corpus/\n"@;
    let name = "scan-cursor.json"@;
    reveal_strlit(
        "# Looper-managed (machine-local; do not sync)\nscan-cursor.json\n.htmlcache/\n.corpus/\n",
    );
    reveal_strlit("scan-cursor.json");
    assert(managed.subrange(46, 62) =~= name);
    if ignoring_sidecars(current) is Some {
        let s = ignoring_sidecars(current)->0;
        let at = s.len() - managed.len() + 46;
        assert(s.skip(s.len() - managed.len()) =~= managed);
        assert(s.subrange(at, at + 16) =~= managed.subrange(46, 62));
        assert(occurs_at(s, name, at));
        lemma_find_from(s, name, 0);
    }
}

} // verus!
