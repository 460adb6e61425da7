//! Looking at a folder's git repository without changing it: the probe of a folder, the
//! test that a user can run on it, and the git binary that is used.

use crate::fileshare::{branch_name, count_in, counted, remote_in, remote_of};
use crate::git::HeadState;
use crate::ipc::{GitInfo, SyncFolderConfig, SyncTestReport};
use crate::path::{join_path, joined_path};
use crate::sync::{failure_text, printed, printed_by, GitReply, Reply, SyncProbe};
use crate::text::{
    chars_of, has_text, join, joined, lines, lines_of, string_of, texts, trim_white, trimmed,
    CharSet,
};
use vstd::prelude::*;

verus! {

// ------------------------------------------------------------------- the git binary

/// Whether a text holds more than white space.
pub open spec fn is_given(s: Seq<char>) -> bool {
    trim_white(s).len() > 0
}

fn given(s: &str) -> (r: bool)
    ensures
        r == is_given(s@),
{
    let cs = chars_of(s);
    trimmed(&cs, CharSet::White).len() > 0
}

/// Where git is looked for: at a custom path alone where one is given, else in each of the
/// directories that programs are searched in.
pub open spec fn git_places(custom: Option<Seq<char>>, dirs: Seq<Seq<char>>) -> Seq<Seq<char>> {
    match custom {
        Some(p) if is_given(p) => seq![p],
        _ => dirs.map_values(|d: Seq<char>| joined_path(d, "git"@)),
    }
}

/// The first of some places that is a file.
pub open spec fn first_file(places: Seq<Seq<char>>, files: Seq<Seq<char>>) -> Option<Seq<char>>
    decreases places.len(),
{
    if places.len() == 0 {
        None
    } else if files.contains(places[0]) {
        Some(places[0])
    } else {
        first_file(places.drop_first(), files)
    }
}

/// The text of an optional string.
pub open spec fn text_in(s: Option<&str>) -> Option<Seq<char>> {
    match s {
        Some(s) => Some(s@),
        None => None,
    }
}

/// Where git is looked for, in order.
pub fn git_candidates(custom: Option<&str>, dirs: &Vec<String>) -> (r: Vec<String>)
    ensures
        texts(r@) == git_places(text_in(custom), texts(dirs@)),
{
    let mut out: Vec<String> = Vec::new();
    if let Some(p) = custom {
        if given(p) {
            out.push(p.to_owned());
            assert(texts(out@) =~= seq![p@]);
            return out;
        }
    }
    let ghost want = texts(dirs@).map_values(|d: Seq<char>| joined_path(d, "git"@));
    let mut i: usize = 0;
    assert(texts(out@) =~= want.take(0));
    while i < dirs.len()
        invariant
            i <= dirs@.len(),
            want == texts(dirs@).map_values(|d: Seq<char>| joined_path(d, "git"@)),
            texts(out@) == want.take(i as int),
        decreases dirs.len() - i,
    {
        let ghost before = texts(out@);
        out.push(join_path(dirs[i].as_str(), "git"));
        proof {
            assert(texts(out@) =~= before.push(joined_path(dirs@[i as int]@, "git"@)));
            assert(want.take(i + 1) =~= want.take(i as int).push(want[i as int]));
        }
        i = i + 1;
    }
    assert(want.take(want.len() as int) =~= want);
    out
}

/// The git binary: a custom path where that is a file, else the first `git` in the
/// directories that programs are searched in. `files` are those of the candidates that are
/// files.
pub fn resolve_git(custom: Option<&str>, dirs: &Vec<String>, files: &Vec<String>) -> (r: Option<
    String,
>)
    ensures
        match r {
            Some(p) => first_file(git_places(text_in(custom), texts(dirs@)), texts(files@))
                == Some(p@),
            None => first_file(git_places(text_in(custom), texts(dirs@)), texts(files@)) is None,
        },
{
    let places = git_candidates(custom, dirs);
    let ghost all = texts(places@);
    let mut i: usize = 0;
    assert(all.skip(0) =~= all);
    while i < places.len()
        invariant
            i <= places@.len(),
            all == texts(places@),
            all == git_places(text_in(custom), texts(dirs@)),
            first_file(all, texts(files@)) == first_file(all.skip(i as int), texts(files@)),
        decreases places.len() - i,
    {
        proof {
            assert(all.skip(i as int)[0] == all[i as int]);
            assert(all.skip(i as int).drop_first() =~= all.skip(i + 1));
        }
        if has_text(files, places[i].as_str()) {
            return Some(places[i].clone());
        }
        i = i + 1;
    }
    None
}

/// The git binary and its version; `None` where there is no git, or it does not run.
pub fn detect_git(path: Option<String>, reply: &GitReply) -> (r: Option<GitInfo>)
    ensures
        r is Some == (path is Some && (reply@ matches Reply::Ran(o) && o.success)),
        r matches Some(info) ==> info.path == path.unwrap() && (reply@ matches Reply::Ran(o)
            && info.version@ == trim_white(o.stdout)),
{
    match (path, reply) {
        (Some(path), GitReply::Ran(o)) => {
            if o.success {
                let cs = chars_of(o.stdout.as_str());
                Some(GitInfo { path, version: string_of(trimmed(&cs, CharSet::White)) })
            } else {
                None
            }
        },
        _ => None,
    }
}

/// The git binary that is used.
pub struct GitLocator {
    pub bin: String,
}

impl GitLocator {
    /// An explicit binary.
    pub fn new(bin: String) -> (r: Self)
        ensures
            r.bin == bin,
    {
        GitLocator { bin }
    }

    /// The binary that was found, or plain `git`.
    pub fn resolved(found: Option<String>) -> (r: Self)
        ensures
            r.bin@ == match found {
                Some(p) => p@,
                None => "git"@,
            },
    {
        match found {
            Some(bin) => GitLocator { bin },
            None => GitLocator { bin: "git".to_owned() },
        }
    }

    /// The current binary.
    pub fn current(&self) -> (r: &str)
        ensures
            r@ == self.bin@,
    {
        self.bin.as_str()
    }

    /// Changes the binary to the one that was found, or plain `git`.
    pub fn set(&mut self, found: Option<String>)
        ensures
            final(self).bin@ == match found {
                Some(p) => p@,
                None => "git"@,
            },
    {
        *self = Self::resolved(found);
    }
}

// ----------------------------------------------------------------------- the probe

/// What a probe is at.
#[derive(Debug, Clone, Copy, PartialEq, Eq, Structural)]
pub enum ProbeStage {
    /// The repository is to be opened.
    Opening,
    /// Asks for the remotes.
    Remotes,
    /// Asks for the upstream of the sync branch.
    Upstream,
    /// Counts the commits on either side.
    Count,
    /// Asks for files in conflict.
    Conflicts,
    /// At its end.
    Finished,
}

/// A probe of a folder's git repository.
pub struct GitProbe {
    pub folder: String,
    pub branch: String,
    pub stage: ProbeStage,
    /// The upstream of the sync branch.
    pub upstream: String,
    /// What is known of the folder.
    pub found: SyncProbe,
}

/// What is known of a folder, as a value.
pub struct Found {
    pub manageable: bool,
    pub has_remote: bool,
    pub branch: Option<Seq<char>>,
    pub ahead: u32,
    pub behind: u32,
    pub conflicted: bool,
    pub detail: Option<Seq<char>>,
}

/// A probe, as a value.
pub struct Probe {
    pub folder: Seq<char>,
    pub branch: Seq<char>,
    pub stage: ProbeStage,
    pub upstream: Seq<char>,
    pub found: Found,
}

/// The text of an optional string.
pub open spec fn text_of(s: Option<String>) -> Option<Seq<char>> {
    match s {
        Some(s) => Some(s@),
        None => None,
    }
}

impl SyncProbe {
    pub open spec fn view(&self) -> Found {
        Found {
            manageable: self.manageable,
            has_remote: self.has_remote,
            branch: text_of(self.branch),
            ahead: self.ahead,
            behind: self.behind,
            conflicted: self.conflicted,
            detail: text_of(self.detail),
        }
    }
}

impl GitProbe {
    pub open spec fn view(&self) -> Probe {
        Probe {
            folder: self.folder@,
            branch: self.branch@,
            stage: self.stage,
            upstream: self.upstream@,
            found: self.found@,
        }
    }
}

/// What is known of a folder before anything was asked.
pub open spec fn nothing_found() -> Found {
    Found {
        manageable: false,
        has_remote: false,
        branch: None,
        ahead: 0,
        behind: 0,
        conflicted: false,
        detail: None,
    }
}

/// The branch of a HEAD.
pub open spec fn head_branch(head: HeadState) -> Option<Seq<char>> {
    match head {
        HeadState::Branch(b) => Some(b@),
        _ => None,
    }
}

/// A probe once its repository has been opened, or could not be.
pub open spec fn probe_opened(p: Probe, head: Option<HeadState>) -> Probe {
    match head {
        None => Probe {
            stage: ProbeStage::Finished,
            found: Found { detail: Some("not a git repository"@), ..p.found },
            ..p
        },
        Some(h) => Probe {
            stage: ProbeStage::Remotes,
            found: Found { manageable: true, branch: head_branch(h), ..p.found },
            ..p
        },
    }
}

/// What a command printed, where it ran with success, else nothing.
pub open spec fn printed_or_nothing(dir: Seq<char>, args: Seq<Seq<char>>, reply: Reply) -> Seq<
    char,
> {
    match printed(dir, args, reply) {
        Ok(s) => s,
        Err(_) => Seq::empty(),
    }
}

/// The git command that a probe asks for.
pub open spec fn probe_command(p: Probe) -> Seq<Seq<char>> {
    match p.stage {
        ProbeStage::Opening | ProbeStage::Finished => Seq::empty(),
        ProbeStage::Remotes => seq!["remote"@],
        ProbeStage::Upstream => seq!["rev-parse"@, "--abbrev-ref"@, p.branch + "@{upstream}"@],
        ProbeStage::Count => seq![
            "rev-list"@,
            "--left-right"@,
            "--count"@,
            p.branch + "..."@ + p.upstream,
        ],
        ProbeStage::Conflicts => seq!["diff"@, "--name-only"@, "--diff-filter=U"@],
    }
}

/// A probe after the reply to the command that it asked for. A command that fails tells
/// nothing.
pub open spec fn probe_after(p: Probe, args: Seq<Seq<char>>, reply: Reply) -> Probe {
    let out = printed_or_nothing(p.folder, args, reply);
    match p.stage {
        ProbeStage::Opening | ProbeStage::Finished => p,
        ProbeStage::Remotes => Probe {
            stage: ProbeStage::Upstream,
            found: Found { has_remote: out.len() > 0, ..p.found },
            ..p
        },
        ProbeStage::Upstream => Probe {
            stage: if out.len() > 0 {
                ProbeStage::Count
            } else {
                ProbeStage::Conflicts
            },
            upstream: out,
            ..p
        },
        ProbeStage::Count => Probe {
            stage: ProbeStage::Conflicts,
            found: match printed(p.folder, args, reply) {
                Ok(s) => Found { ahead: counted(s).0, behind: counted(s).1, ..p.found },
                Err(_) => p.found,
            },
            ..p
        },
        ProbeStage::Conflicts => Probe {
            stage: ProbeStage::Finished,
            found: Found { conflicted: lines(out).len() > 0, ..p.found },
            ..p
        },
    }
}

fn words1(a: &str) -> (r: Vec<String>)
    ensures
        texts(r@) == seq![a@],
{
    let mut v: Vec<String> = Vec::new();
    v.push(a.to_owned());
    assert(texts(v@) =~= seq![a@]);
    v
}

fn words(a: &str, b: &str, c: &str) -> (r: Vec<String>)
    ensures
        texts(r@) == seq![a@, b@, c@],
{
    let mut v: Vec<String> = Vec::new();
    v.push(a.to_owned());
    v.push(b.to_owned());
    v.push(c.to_owned());
    assert(texts(v@) =~= seq![a@, b@, c@]);
    v
}

fn words4(a: &str, b: &str, c: &str, d: &str) -> (r: Vec<String>)
    ensures
        texts(r@) == seq![a@, b@, c@, d@],
{
    let mut v: Vec<String> = Vec::new();
    v.push(a.to_owned());
    v.push(b.to_owned());
    v.push(c.to_owned());
    v.push(d.to_owned());
    assert(texts(v@) =~= seq![a@, b@, c@, d@]);
    v
}

fn output_or_nothing(dir: &str, args: &Vec<String>, reply: &GitReply) -> (r: String)
    ensures
        r@ == printed_or_nothing(dir@, texts(args@), reply@),
{
    match printed_by(dir, args, reply) {
        Ok(s) => s,
        Err(_) => {
            let e = String::new();
            assert(e@ =~= Seq::empty());
            e
        },
    }
}

fn is_empty(s: &str) -> (r: bool)
    ensures
        r == (s@.len() == 0),
{
    chars_of(s).len() == 0
}

impl GitProbe {
    /// A probe of a folder.
    pub fn new(folder: &str, cfg: &SyncFolderConfig) -> (r: Self)
        ensures
            r@ == (Probe {
                folder: folder@,
                branch: cfg.branch@,
                stage: ProbeStage::Opening,
                upstream: Seq::empty(),
                found: nothing_found(),
            }),
    {
        let r = GitProbe {
            folder: folder.to_owned(),
            branch: cfg.branch.clone(),
            stage: ProbeStage::Opening,
            upstream: String::new(),
            found: SyncProbe {
                manageable: false,
                has_remote: false,
                branch: None,
                ahead: 0,
                behind: 0,
                conflicted: false,
                detail: None,
            },
        };
        assert(r.upstream@ =~= Seq::empty());
        r
    }

    /// Goes on once the repository has been opened: `head` is the state of its HEAD, or
    /// `None` where it could not be opened.
    pub fn opened(&mut self, head: Option<HeadState>)
        ensures
            final(self)@ == if old(self).stage == ProbeStage::Opening {
                probe_opened(old(self)@, head)
            } else {
                old(self)@
            },
    {
        if self.stage != ProbeStage::Opening {
            return ;
        }
        match head {
            None => {
                self.found.detail = Some("not a git repository".to_owned());
                self.stage = ProbeStage::Finished;
            },
            Some(h) => {
                self.found.manageable = true;
                self.found.branch = branch_name(h);
                self.stage = ProbeStage::Remotes;
            },
        }
    }

    /// The git command that the probe asks for.
    pub fn ask(&self) -> (r: Vec<String>)
        ensures
            texts(r@) == probe_command(self@),
    {
        match self.stage {
            ProbeStage::Opening | ProbeStage::Finished => {
                let v: Vec<String> = Vec::new();
                assert(texts(v@) =~= Seq::empty());
                v
            },
            ProbeStage::Remotes => words1("remote"),
            ProbeStage::Upstream => {
                let mut spec = self.branch.clone();
                spec.append("@{upstream}");
                words("rev-parse", "--abbrev-ref", spec.as_str())
            },
            ProbeStage::Count => {
                let mut range = self.branch.clone();
                range.append("...");
                range.append(self.upstream.as_str());
                words4("rev-list", "--left-right", "--count", range.as_str())
            },
            ProbeStage::Conflicts => words("diff", "--name-only", "--diff-filter=U"),
        }
    }

    /// Goes on after the command that the probe asked for, with the reply to it.
    pub fn tell(&mut self, args: &Vec<String>, reply: GitReply)
        ensures
            final(self)@ == probe_after(old(self)@, texts(args@), reply@),
    {
        match self.stage {
            ProbeStage::Opening | ProbeStage::Finished => {},
            ProbeStage::Remotes => {
                let out = output_or_nothing(self.folder.as_str(), args, &reply);
                self.found.has_remote = !is_empty(out.as_str());
                self.stage = ProbeStage::Upstream;
            },
            ProbeStage::Upstream => {
                let out = output_or_nothing(self.folder.as_str(), args, &reply);
                self.stage = if is_empty(out.as_str()) {
                    ProbeStage::Conflicts
                } else {
                    ProbeStage::Count
                };
                self.upstream = out;
            },
            ProbeStage::Count => {
                if let Ok(out) = printed_by(self.folder.as_str(), args, &reply) {
                    let (ahead, behind) = count_in(out.as_str());
                    self.found.ahead = ahead;
                    self.found.behind = behind;
                }
                self.stage = ProbeStage::Conflicts;
            },
            ProbeStage::Conflicts => {
                let out = output_or_nothing(self.folder.as_str(), args, &reply);
                let paths = lines_of(&chars_of(out.as_str()));
                assert(texts(paths@).len() == paths@.len());
                self.found.conflicted = paths.len() > 0;
                self.stage = ProbeStage::Finished;
            },
        }
    }
}

// ------------------------------------------------------------------------ the test

/// What a test is at.
#[derive(Debug, Clone, Copy, PartialEq, Eq, Structural)]
pub enum TestStage {
    /// Asks git for its version.
    Version,
    /// The repository is to be opened.
    Opening,
    /// Asks for the status of the working tree.
    Status,
    /// Asks for the upstream of the sync branch.
    Upstream,
    /// Asks the remote for the branch.
    Reach,
    /// At its end.
    Finished,
}

/// Read-only checks of a folder: git runs, it is a repository, its status can be read, and
/// its remote can be reached.
pub struct GitTest {
    pub git_bin: String,
    pub folder: String,
    pub branch: String,
    pub stage: TestStage,
    pub remote: String,
    pub report: SyncTestReport,
}

/// A test report, as a value.
pub struct Report {
    pub ok: bool,
    pub git: Option<(Seq<char>, Seq<char>)>,
    pub is_repo: bool,
    pub branch: Option<Seq<char>>,
    pub has_remote: bool,
    pub remote_reachable: Option<bool>,
    pub summary: Seq<char>,
}

/// A test, as a value.
pub struct Test {
    pub git_bin: Seq<char>,
    pub folder: Seq<char>,
    pub branch: Seq<char>,
    pub stage: TestStage,
    pub remote: Seq<char>,
    pub report: Report,
}

pub open spec fn report_view(r: SyncTestReport) -> Report {
    Report {
        ok: r.ok,
        git: match r.git {
            Some(g) => Some((g.path@, g.version@)),
            None => None,
        },
        is_repo: r.is_repo,
        branch: text_of(r.branch),
        has_remote: r.has_remote,
        remote_reachable: r.remote_reachable,
        summary: r.summary@,
    }
}

impl GitTest {
    pub open spec fn view(&self) -> Test {
        Test {
            git_bin: self.git_bin@,
            folder: self.folder@,
            branch: self.branch@,
            stage: self.stage,
            remote: self.remote@,
            report: report_view(self.report),
        }
    }
}

/// A report before anything was asked.
pub open spec fn blank_report() -> Report {
    Report {
        ok: false,
        git: None,
        is_repo: false,
        branch: None,
        has_remote: false,
        remote_reachable: None,
        summary: Seq::empty(),
    }
}

/// What a summary says in turn of a report.
pub open spec fn remarks(r: Report) -> Seq<Seq<char>> {
    (match r.branch {
        Some(b) => seq!["on `"@ + b + "`"@],
        None => Seq::empty(),
    }) + seq![
        if r.has_remote {
            "upstream configured"@
        } else {
            "no upstream — push the branch first"@
        },
    ] + (match r.remote_reachable {
        Some(true) => seq!["remote reachable"@],
        Some(false) => seq!["remote NOT reachable (network or auth)"@],
        None => Seq::empty(),
    })
}

/// The summary of a report.
pub open spec fn summary_of(r: Report) -> Seq<char> {
    (if r.ok {
        "Ready to sync"@
    } else {
        "Not ready"@
    }) + " — "@ + join(remarks(r), ", "@) + "."@
}

/// A report that is complete: the folder is ready where it is a repository with an upstream
/// that is not out of reach.
pub open spec fn completed(r: Report) -> Report {
    let done = Report {
        ok: r.is_repo && r.has_remote && r.remote_reachable != Some(false),
        ..r
    };
    Report { summary: summary_of(done), ..done }
}

/// The git command that a test asks for.
pub open spec fn test_command(t: Test) -> Seq<Seq<char>> {
    match t.stage {
        TestStage::Opening | TestStage::Finished => Seq::empty(),
        TestStage::Version => seq!["--version"@],
        TestStage::Status => seq!["status"@, "--porcelain"@],
        TestStage::Upstream => seq!["rev-parse"@, "--abbrev-ref"@, t.branch + "@{upstream}"@],
        TestStage::Reach => seq!["ls-remote"@, "--heads"@, t.remote, t.branch],
    }
}

/// A test once its repository has been opened, or could not be.
pub open spec fn test_opened(t: Test, head: Option<HeadState>) -> Test {
    match head {
        None => Test {
            stage: TestStage::Finished,
            report: Report {
                summary: "not a git repository — run `git init` here to enable Git sync"@,
                ..t.report
            },
            ..t
        },
        Some(h) => Test {
            stage: TestStage::Status,
            report: Report { is_repo: true, branch: head_branch(h), ..t.report },
            ..t
        },
    }
}

/// A test after the reply to the command that it asked for.
pub open spec fn test_after(t: Test, args: Seq<Seq<char>>, reply: Reply) -> Test {
    match t.stage {
        TestStage::Opening | TestStage::Finished => t,
        TestStage::Version => match reply {
            Reply::Ran(o) if o.success => Test {
                stage: TestStage::Opening,
                report: Report { git: Some((t.git_bin, trim_white(o.stdout))), ..t.report },
                ..t
            },
            _ => Test {
                stage: TestStage::Finished,
                report: Report {
                    summary: "git not found / not runnable at "@ + t.git_bin,
                    ..t.report
                },
                ..t
            },
        },
        TestStage::Status => match printed(t.folder, args, reply) {
            Ok(_) => Test { stage: TestStage::Upstream, ..t },
            Err(e) => Test {
                stage: TestStage::Finished,
                report: Report { summary: "`git status` failed: "@ + failure_text(e), ..t.report },
                ..t
            },
        },
        TestStage::Upstream => {
            let up = printed_or_nothing(t.folder, args, reply);
            if up.len() > 0 {
                Test {
                    stage: TestStage::Reach,
                    remote: remote_of(up),
                    report: Report { has_remote: true, ..t.report },
                    ..t
                }
            } else {
                Test {
                    stage: TestStage::Finished,
                    report: completed(Report { has_remote: false, ..t.report }),
                    ..t
                }
            }
        },
        TestStage::Reach => Test {
            stage: TestStage::Finished,
            report: completed(
                Report {
                    remote_reachable: Some(reply matches Reply::Ran(o) && o.success),
                    ..t.report
                },
            ),
            ..t
        },
    }
}

/// The summary of a report.
pub fn summarize(report: &SyncTestReport) -> (r: String)
    ensures
        r@ == summary_of(report_view(*report)),
{
    let ghost view = report_view(*report);
    let mut parts: Vec<String> = Vec::new();
    let ghost mut said: Seq<Seq<char>> = Seq::empty();
    assert(texts(parts@) =~= said);
    if let Some(branch) = &report.branch {
        let mut s = "on `".to_owned();
        s.append(branch.as_str());
        s.append("`");
        parts.push(s);
        proof {
            said = seq!["on `"@ + branch@ + "`"@];
        }
        assert(texts(parts@) =~= said);
    }
    let ghost first = said;
    if report.has_remote {
        parts.push("upstream configured".to_owned());
    } else {
        parts.push("no upstream — push the branch first".to_owned());
    }
    let ghost second = seq![
        if report.has_remote {
            "upstream configured"@
        } else {
            "no upstream — push the branch first"@
        },
    ];
    assert(texts(parts@) =~= first + second);
    match report.remote_reachable {
        Some(true) => {
            parts.push("remote reachable".to_owned());
            assert(texts(parts@) =~= first + second + seq!["remote reachable"@]);
        },
        Some(false) => {
            parts.push("remote NOT reachable (network or auth)".to_owned());
            assert(texts(parts@) =~= first + second + seq![
                "remote NOT reachable (network or auth)"@,
            ]);
        },
        None => {
            assert(texts(parts@) =~= first + second + Seq::<Seq<char>>::empty());
        },
    }
    assert(texts(parts@) =~= remarks(view));
    let mut out = if report.ok {
        "Ready to sync".to_owned()
    } else {
        "Not ready".to_owned()
    };
    out.append(" — ");
    out.append(joined(&parts, ", ").as_str());
    out.append(".");
    out
}

impl GitTest {
    /// A test of a folder with a git binary.
    pub fn git_test(git_bin: &str, folder: &str, cfg: &SyncFolderConfig) -> (r: Self)
        ensures
            r@ == (Test {
                git_bin: git_bin@,
                folder: folder@,
                branch: cfg.branch@,
                stage: TestStage::Version,
                remote: Seq::empty(),
                report: blank_report(),
            }),
    {
        let r = GitTest {
            git_bin: git_bin.to_owned(),
            folder: folder.to_owned(),
            branch: cfg.branch.clone(),
            stage: TestStage::Version,
            remote: String::new(),
            report: SyncTestReport {
                ok: false,
                git: None,
                is_repo: false,
                branch: None,
                has_remote: false,
                remote_reachable: None,
                summary: String::new(),
            },
        };
        assert(r.remote@ =~= Seq::empty());
        assert(r.report.summary@ =~= Seq::empty());
        r
    }

    fn complete(&mut self)
        ensures
            final(self)@ == (Test {
                stage: TestStage::Finished,
                report: completed(old(self)@.report),
                ..old(self)@
            }),
    {
        let reachable = match self.report.remote_reachable {
            Some(b) => b,
            None => true,
        };
        self.report.ok = self.report.is_repo && self.report.has_remote && reachable;
        self.report.summary = summarize(&self.report);
        self.stage = TestStage::Finished;
    }

    /// Goes on once the repository has been opened: `head` is the state of its HEAD, or
    /// `None` where it could not be opened.
    pub fn opened(&mut self, head: Option<HeadState>)
        ensures
            final(self)@ == if old(self).stage == TestStage::Opening {
                test_opened(old(self)@, head)
            } else {
                old(self)@
            },
    {
        if self.stage != TestStage::Opening {
            return ;
        }
        match head {
            None => {
                self.report.summary =
                "not a git repository — run `git init` here to enable Git sync".to_owned();
                self.stage = TestStage::Finished;
            },
            Some(h) => {
                self.report.is_repo = true;
                self.report.branch = branch_name(h);
                self.stage = TestStage::Status;
            },
        }
    }

    /// The git command that the test asks for.
    pub fn ask(&self) -> (r: Vec<String>)
        ensures
            texts(r@) == test_command(self@),
    {
        match self.stage {
            TestStage::Opening | TestStage::Finished => {
                let v: Vec<String> = Vec::new();
                assert(texts(v@) =~= Seq::empty());
                v
            },
            TestStage::Version => words1("--version"),
            TestStage::Status => {
                let mut v = words1("status");
                let ghost before = texts(v@);
                v.push("--porcelain".to_owned());
                assert(texts(v@) =~= before.push("--porcelain"@));
                assert(texts(v@) =~= seq!["status"@, "--porcelain"@]);
                v
            },
            TestStage::Upstream => {
                let mut spec = self.branch.clone();
                spec.append("@{upstream}");
                words("rev-parse", "--abbrev-ref", spec.as_str())
            },
            TestStage::Reach => words4(
                "ls-remote",
                "--heads",
                self.remote.as_str(),
                self.branch.as_str(),
            ),
        }
    }

    /// Goes on after the command that the test asked for, with the reply to it.
    pub fn tell(&mut self, args: &Vec<String>, reply: GitReply)
        ensures
            final(self)@ == test_after(old(self)@, texts(args@), reply@),
    {
        match self.stage {
            TestStage::Opening | TestStage::Finished => {},
            TestStage::Version => {
                let bin = self.git_bin.clone();
                match detect_git(Some(bin), &reply) {
                    Some(info) => {
                        self.report.git = Some(info);
                        self.stage = TestStage::Opening;
                    },
                    None => {
                        let mut s = "git not found / not runnable at ".to_owned();
                        s.append(self.git_bin.as_str());
                        self.report.summary = s;
                        self.stage = TestStage::Finished;
                    },
                }
            },
            TestStage::Status => match printed_by(self.folder.as_str(), args, &reply) {
                Ok(_) => {
                    self.stage = TestStage::Upstream;
                },
                Err(e) => {
                    let mut s = "`git status` failed: ".to_owned();
                    s.append(e.message().as_str());
                    self.report.summary = s;
                    self.stage = TestStage::Finished;
                },
            },
            TestStage::Upstream => {
                let up = output_or_nothing(self.folder.as_str(), args, &reply);
                if is_empty(up.as_str()) {
                    self.report.has_remote = false;
                    self.complete();
                } else {
                    self.report.has_remote = true;
                    self.remote = remote_in(up.as_str());
                    self.stage = TestStage::Reach;
                }
            },
            TestStage::Reach => {
                let reachable = match reply {
                    GitReply::Ran(o) => o.success,
                    GitReply::Failed(_) => false,
                };
                self.report.remote_reachable = Some(reachable);
                self.complete();
            },
        }
    }
}

// -------------------------------------------------------------------------- laws

/// Whether a test claims no more than it has found out: nothing is known of the remote before
/// it was looked for, and a folder that is ready was reached.
pub open spec fn is_honest(t: Test) -> bool {
    &&& t.report.ok ==> t.stage == TestStage::Finished && t.report.is_repo && t.report.has_remote
        && t.report.remote_reachable == Some(true)
    &&& t.stage == TestStage::Reach ==> t.report.has_remote
    &&& t.stage != TestStage::Finished ==> t.report.remote_reachable is None
    &&& t.stage == TestStage::Status || t.stage == TestStage::Upstream || t.stage
        == TestStage::Reach ==> t.report.is_repo
}

/// A folder that a test finds ready is a repository with an upstream, and was reached:
/// that holds of a test that begins, and whatever it is told.
pub proof fn ready_folders_were_reached(
    t: Test,
    args: Seq<Seq<char>>,
    reply: Reply,
    head: Option<HeadState>,
)
    ensures
        t.stage == TestStage::Version && t.report == blank_report() ==> is_honest(t),
        is_honest(t) ==> is_honest(test_after(t, args, reply)),
        is_honest(t) && t.stage == TestStage::Opening ==> is_honest(test_opened(t, head)),
{
}

/// Neither the probe nor the test runs a command that changes the repository.
pub proof fn looking_changes_nothing(p: Probe, t: Test)
    ensures
        probe_command(p).len() > 0 ==> {
            let verb = probe_command(p)[0];
            verb == "remote"@ || verb == "rev-parse"@ || verb == "rev-list"@ || verb == "diff"@
        },
        test_command(t).len() > 0 ==> {
            let verb = test_command(t)[0];
            verb == "--version"@ || verb == "status"@ || verb == "rev-parse"@ || verb
                == "ls-remote"@
        },
{
}

} // verus!
