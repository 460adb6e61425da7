//! Syncing a folder by treating its git repository as a fileshare.
//!
//! A cycle asks for one git command at a time and goes on with the reply; it ends with an
//! outcome. Conflicts pause a folder: they are reported, never committed over.

use crate::git::HeadState;
use crate::ipc::{ConflictFile, SyncDirection, SyncFolderConfig, SyncResolution};
use crate::sync::{
    classified, classify, files_view, is_auth_error, printed, printed_by, tells_of_auth, Failure,
    GitOutput, GitReply, Outcome, Output, Reply, SyncError, SyncOutcome,
};
use crate::text::{
    chars_of, contains, decimal, decimal_of, has, index_from, index_of, lemma_index_of, lines,
    lines_of, number, parse_number, same, string_of, texts, white_words, words_of,
};
use vstd::prelude::*;

verus! {

/// What a cycle is at.
#[derive(Debug, Clone, Copy, PartialEq, Eq, Structural)]
pub enum Stage {
    /// The repository is to be opened.
    Opening,
    /// Asks for the upstream of the sync branch.
    Upstream,
    /// Asks for files in conflict.
    Conflicts,
    /// Stages all changes.
    Add,
    /// Asks whether anything is staged.
    Staged,
    /// Commits what is staged.
    Commit,
    /// Fetches the branch.
    Fetch,
    /// Counts the commits on either side.
    Count,
    /// Moves on to the upstream, having nothing of its own.
    FastForward,
    /// Merges the upstream.
    Merge,
    /// Asks for the conflicts of a merge that failed.
    MergeConflicts,
    /// Counts the commits again.
    Recount,
    /// Pushes the branch.
    Push,
    /// Fetches the branch, to pull only.
    FetchOnly,
    /// Counts the commits, to pull only.
    CountOnly,
    /// Moves on to the upstream, pulling only.
    PullMerge,
    /// Takes one side of a file in conflict.
    Checkout,
    /// Stages what the user has resolved.
    MarkAdd,
    /// Asks for files still in conflict.
    MarkConflicts,
    /// Asks for conflict markers left over.
    MarkCheck,
    /// Stages a resolution.
    ResolvedAdd,
    /// Commits a resolution.
    ResolvedCommit,
    /// Pushes a resolution.
    ResolvedPush,
    /// At its end.
    Finished,
}

/// A sync cycle of a folder, or the resolution of a conflict in it.
pub struct SyncCycle {
    pub folder: String,
    pub branch: String,
    pub direction: SyncDirection,
    /// How to resolve, where a conflict is to be resolved.
    pub resolution: Option<SyncResolution>,
    pub stage: Stage,
    /// The remote of the sync branch.
    pub remote: String,
    /// Whether local changes were committed.
    pub committed: bool,
    /// Whether remote changes were integrated.
    pub pulled: bool,
    /// The files in conflict that are still to be resolved, the next one last.
    pub paths: Vec<String>,
    /// The merge that failed.
    pub merge: Option<GitOutput>,
    /// What the cycle came to.
    pub outcome: Option<Result<SyncOutcome, SyncError>>,
}

/// A cycle, as a value.
pub struct Cycle {
    pub folder: Seq<char>,
    pub branch: Seq<char>,
    pub direction: SyncDirection,
    pub resolution: Option<SyncResolution>,
    pub stage: Stage,
    pub remote: Seq<char>,
    pub committed: bool,
    pub pulled: bool,
    pub paths: Seq<Seq<char>>,
    pub merge: Option<Output>,
    pub outcome: Option<Result<Outcome, Failure>>,
}

/// What a cycle came to, as a value.
pub open spec fn result_view(r: Result<SyncOutcome, SyncError>) -> Result<Outcome, Failure> {
    match r {
        Ok(o) => Ok(o@),
        Err(e) => Err(e@),
    }
}

impl SyncCycle {
    pub open spec fn view(&self) -> Cycle {
        Cycle {
            folder: self.folder@,
            branch: self.branch@,
            direction: self.direction,
            resolution: self.resolution,
            stage: self.stage,
            remote: self.remote@,
            committed: self.committed,
            pulled: self.pulled,
            paths: texts(self.paths@),
            merge: match self.merge {
                Some(o) => Some(o@),
                None => None,
            },
            outcome: match self.outcome {
                Some(r) => Some(result_view(r)),
                None => None,
            },
        }
    }
}

// ----------------------------------------------------------------- reading replies

/// The branch that HEAD is on.
pub fn branch_name(head: HeadState) -> (r: Option<String>)
    ensures
        r == match head {
            HeadState::Branch(b) => Some(b),
            _ => None,
        },
{
    match head {
        HeadState::Branch(b) => Some(b),
        HeadState::Detached(_) | HeadState::Unborn => None,
    }
}

/// The remote that an upstream such as `origin/main` names.
pub open spec fn remote_of(upstream: Seq<char>) -> Seq<char> {
    if upstream.contains('/') {
        upstream.take(index_of(upstream, '/'))
    } else {
        "origin"@
    }
}

/// The remote that an upstream such as `origin/main` names.
pub fn remote_in(upstream: &str) -> (r: String)
    ensures
        r@ == remote_of(upstream@),
{
    let cs = chars_of(upstream);
    assert(cs@.skip(0) =~= cs@);
    let i: usize = index_from(&cs, '/', 0);
    proof {
        lemma_index_of(cs@, '/');
    }
    if i < cs.len() {
        assert(cs@[i as int] == '/');
        assert(cs@.subrange(0, i as int) =~= cs@.take(i as int));
        string_of(vstd::slice::slice_subrange(&cs, 0, i))
    } else {
        "origin".to_owned()
    }
}

/// The numbers among some words, which fit in 32 bits.
pub open spec fn numbers(words: Seq<Seq<char>>) -> Seq<u32>
    decreases words.len(),
{
    if words.len() == 0 {
        Seq::empty()
    } else {
        let before = numbers(words.drop_last());
        match number(words.last()) {
            Some(n) => if n <= 0xffff_ffff {
                before.push(n as u32)
            } else {
                before
            },
            None => before,
        }
    }
}

/// The commits ahead and behind that git counts: the first two numbers it prints, each
/// nought where there is none.
pub open spec fn counted(text: Seq<char>) -> (u32, u32) {
    let ns = numbers(white_words(text));
    (if ns.len() > 0 {
        ns[0]
    } else {
        0
    }, if ns.len() > 1 {
        ns[1]
    } else {
        0
    })
}

/// The commits ahead and behind that git counts.
pub fn count_in(text: &str) -> (r: (u32, u32))
    ensures
        r == counted(text@),
{
    let cs = chars_of(text);
    let words = words_of(&cs);
    let mut ns: Vec<u32> = Vec::new();
    let mut i: usize = 0;
    let ghost all = texts(words@);
    assert(all.take(0) =~= Seq::empty());
    while i < words.len()
        invariant
            i <= words@.len(),
            all == texts(words@),
            ns@ == numbers(all.take(i as int)),
        decreases words.len() - i,
    {
        proof {
            assert(all.take(i + 1).drop_last() =~= all.take(i as int));
            assert(all.take(i + 1).last() == all[i as int]);
        }
        let w = chars_of(words[i].as_str());
        match parse_number(&w, 0xffff_ffff) {
            Some(n) => ns.push(n as u32),
            None => {},
        }
        i = i + 1;
    }
    assert(all.take(all.len() as int) =~= all);
    let ahead: u32 = if ns.len() > 0 {
        ns[0]
    } else {
        0
    };
    let behind: u32 = if ns.len() > 1 {
        ns[1]
    } else {
        0
    };
    (ahead, behind)
}

/// The message of an automatic commit.
pub open spec fn message_at(secs: u64) -> Seq<char> {
    "looper auto-sync @ "@ + decimal(secs as nat)
}

/// The message of an automatic commit at a time, in seconds since 1970.
pub fn commit_message(secs: u64) -> (r: String)
    ensures
        r@ == message_at(secs),
{
    let mut s = "looper auto-sync @ ".to_owned();
    s.append(decimal_of(secs).as_str());
    s
}

/// The files in conflict at some paths.
pub open spec fn conflicts_at(paths: Seq<Seq<char>>) -> Seq<(Seq<char>, Option<Seq<char>>)> {
    paths.map_values(|p: Seq<char>| (p, None::<Seq<char>>))
}

fn conflict_files(paths: Vec<String>) -> (r: Vec<ConflictFile>)
    ensures
        files_view(r@) == conflicts_at(texts(paths@)),
{
    let ghost want = conflicts_at(texts(paths@));
    let mut out: Vec<ConflictFile> = Vec::new();
    let mut i: usize = 0;
    assert(files_view(out@) =~= want.take(0));
    while i < paths.len()
        invariant
            i <= paths@.len(),
            want == conflicts_at(texts(paths@)),
            files_view(out@) == want.take(i as int),
        decreases paths.len() - i,
    {
        let ghost before = files_view(out@);
        out.push(ConflictFile { path: paths[i].clone(), detail: None });
        proof {
            assert(files_view(out@) =~= before.push((paths@[i as int]@, None::<Seq<char>>)));
            assert(want[i as int] == (paths@[i as int]@, None::<Seq<char>>));
            assert(want.take(i + 1) =~= want.take(i as int).push(want[i as int]));
        }
        i = i + 1;
    }
    assert(want.take(want.len() as int) =~= want);
    out
}

/// What comes of a push: whether it went through. One that the remote rejects as being
/// behind is no failure.
pub open spec fn push_result(dir: Seq<char>, args: Seq<Seq<char>>, reply: Reply) -> Result<
    bool,
    Failure,
> {
    match reply {
        Reply::Failed(m) => Err(Failure::Io(m)),
        Reply::Ran(o) => if o.success {
            Ok(true)
        } else if tells_of_auth(o.stderr) {
            Err(Failure::Auth(dir, o.stderr))
        } else if contains(o.stderr, "non-fast-forward"@) || contains(o.stderr, "rejected"@)
            || contains(o.stderr, "fetch first"@) {
            Ok(false)
        } else {
            Err(classified(dir, args, o))
        },
    }
}

/// What comes of a push.
pub fn push_reply(dir: &str, args: &Vec<String>, reply: &GitReply) -> (r: Result<bool, SyncError>)
    ensures
        match r {
            Ok(b) => push_result(dir@, texts(args@), reply@) == Ok::<bool, Failure>(b),
            Err(e) => push_result(dir@, texts(args@), reply@) == Err::<bool, Failure>(e@),
        },
{
    match reply {
        GitReply::Failed(m) => Err(SyncError::Io(m.clone())),
        GitReply::Ran(o) => {
            if o.success {
                return Ok(true);
            }
            if is_auth_error(o.stderr.as_str()) {
                return Err(SyncError::Auth { folder: dir.to_owned(), stderr: o.stderr.clone() });
            }
            let s = chars_of(o.stderr.as_str());
            if has(&s, &chars_of("non-fast-forward")) || has(&s, &chars_of("rejected")) || has(
                &s,
                &chars_of("fetch first"),
            ) {
                Ok(false)
            } else {
                Err(classify(dir, args, o))
            }
        },
    }
}

// ------------------------------------------------------------------ the cycle, as values

/// The upstream reference of a cycle.
pub open spec fn upstream(c: Cycle) -> Seq<char> {
    c.remote + "/"@ + c.branch
}

/// The git command that a cycle asks for.
pub open spec fn command(c: Cycle, secs: u64) -> Seq<Seq<char>> {
    match c.stage {
        Stage::Opening | Stage::Finished => Seq::empty(),
        Stage::Upstream => seq!["rev-parse"@, "--abbrev-ref"@, c.branch + "@{upstream}"@],
        Stage::Conflicts | Stage::MergeConflicts | Stage::MarkConflicts => seq![
            "diff"@,
            "--name-only"@,
            "--diff-filter=U"@,
        ],
        Stage::Add | Stage::MarkAdd | Stage::ResolvedAdd => seq!["add"@, "-A"@],
        Stage::Staged => seq!["diff"@, "--cached"@, "--quiet"@],
        Stage::Commit => seq!["commit"@, "--no-edit"@, "-m"@, message_at(secs)],
        Stage::Fetch | Stage::FetchOnly => seq!["fetch"@, c.remote, c.branch],
        Stage::Count | Stage::Recount | Stage::CountOnly => seq![
            "rev-list"@,
            "--left-right"@,
            "--count"@,
            c.branch + "..."@ + upstream(c),
        ],
        Stage::FastForward | Stage::PullMerge => seq!["merge"@, "--ff-only"@, upstream(c)],
        Stage::Merge => seq!["merge"@, "--no-edit"@, upstream(c)],
        Stage::Push | Stage::ResolvedPush => seq!["push"@, c.remote, c.branch],
        Stage::Checkout => seq![
            "checkout"@,
            if c.resolution == Some(SyncResolution::UseTheirs) {
                "--theirs"@
            } else {
                "--ours"@
            },
            "--"@,
            if c.paths.len() > 0 {
                c.paths.last()
            } else {
                Seq::empty()
            },
        ],
        Stage::MarkCheck => seq!["diff"@, "--check"@],
        Stage::ResolvedCommit => seq!["commit"@, "--no-edit"@],
    }
}

/// A cycle at its end.
pub open spec fn ended(c: Cycle, r: Result<Outcome, Failure>) -> Cycle {
    Cycle { stage: Stage::Finished, outcome: Some(r), ..c }
}

/// A cycle that goes on.
pub open spec fn at(c: Cycle, stage: Stage) -> Cycle {
    Cycle { stage, ..c }
}

/// The failure of a resolution that leaves conflicts.
pub open spec fn unresolved() -> Failure {
    Failure::GitCli(
        "resolve"@,
        None,
        "unresolved conflicts remain — fix the marked files first"@,
    )
}

/// A cycle's outcome, once it is known whether changes were pushed.
pub open spec fn outcome_of(committed: bool, pulled: bool, pushed: bool) -> Outcome {
    if pulled || pushed || committed {
        Outcome::Updated { pulled, pushed }
    } else {
        Outcome::UpToDate
    }
}

/// A cycle once its repository has been opened, with HEAD in some state, or could not be.
pub open spec fn after_opening(c: Cycle, head: Option<HeadState>) -> Cycle {
    match head {
        None => ended(c, Err(Failure::NotARepo(c.folder))),
        Some(HeadState::Branch(b)) => if b@ == c.branch {
            at(c, Stage::Upstream)
        } else {
            ended(c, Err(Failure::NotOnSyncBranch(c.branch, b@)))
        },
        Some(_) => ended(
            c,
            Err(Failure::NotOnSyncBranch(c.branch, "detached or unborn HEAD"@)),
        ),
    }
}

/// Where a cycle goes once the files in conflict are known. A sync stops at a conflict;
/// a resolution takes the conflicts up.
pub open spec fn with_conflicts(c: Cycle, paths: Seq<Seq<char>>) -> Cycle {
    match c.resolution {
        None => if paths.len() > 0 {
            ended(c, Ok(Outcome::Conflict(conflicts_at(paths))))
        } else if c.direction == SyncDirection::PullOnly {
            at(c, Stage::FetchOnly)
        } else {
            at(c, Stage::Add)
        },
        Some(SyncResolution::MarkResolved) => at(c, Stage::MarkAdd),
        Some(_) => {
            let next = Cycle { paths: paths.reverse(), ..c };
            if paths.len() > 0 {
                at(next, Stage::Checkout)
            } else {
                at(next, Stage::ResolvedAdd)
            }
        },
    }
}

/// Where a cycle goes once it is known how many commits are ahead and behind.
pub open spec fn with_count(c: Cycle, ahead: u32, behind: u32) -> Cycle {
    if behind == 0 {
        at(c, Stage::Recount)
    } else if ahead == 0 {
        at(c, Stage::FastForward)
    } else {
        at(c, Stage::Merge)
    }
}

/// A cycle after the reply to the command that it asked for.
pub open spec fn after(c: Cycle, args: Seq<Seq<char>>, reply: Reply) -> Cycle {
    match c.stage {
        Stage::Opening | Stage::Finished => c,
        Stage::Upstream => match printed(c.folder, args, reply) {
            Ok(up) if up.len() > 0 => Cycle {
                stage: Stage::Conflicts,
                remote: remote_of(up),
                ..c
            },
            _ => ended(c, Err(Failure::NoRemote(c.folder))),
        },
        Stage::Staged => match reply {
            Reply::Failed(m) => ended(c, Err(Failure::Io(m))),
            Reply::Ran(o) => at(c, if o.success {
                Stage::Fetch
            } else {
                Stage::Commit
            }),
        },
        Stage::Merge => match reply {
            Reply::Failed(m) => ended(c, Err(Failure::Io(m))),
            Reply::Ran(o) => if o.success {
                Cycle { stage: Stage::Recount, pulled: true, ..c }
            } else {
                Cycle { stage: Stage::MergeConflicts, merge: Some(o), ..c }
            },
        },
        Stage::PullMerge => match reply {
            Reply::Failed(m) => ended(c, Err(Failure::Io(m))),
            Reply::Ran(o) => if o.success {
                ended(c, Ok(Outcome::Updated { pulled: true, pushed: false }))
            } else {
                ended(
                    c,
                    Err(
                        Failure::GitCli(
                            "merge --ff-only"@,
                            o.code,
                            "pull-only: local changes block a fast-forward — commit/push or stash them"@,
                        ),
                    ),
                )
            },
        },
        Stage::MarkCheck => match reply {
            Reply::Failed(m) => ended(c, Err(Failure::Io(m))),
            Reply::Ran(o) => if o.success {
                at(c, Stage::ResolvedAdd)
            } else {
                ended(c, Err(unresolved()))
            },
        },
        Stage::Push => match push_result(c.folder, args, reply) {
            Ok(pushed) => ended(c, Ok(outcome_of(c.committed, c.pulled, pushed))),
            Err(e) => ended(c, Err(e)),
        },
        Stage::ResolvedPush => match push_result(c.folder, args, reply) {
            Ok(pushed) => ended(c, Ok(Outcome::Updated { pulled: true, pushed })),
            Err(e) => ended(c, Err(e)),
        },
        _ => match printed(c.folder, args, reply) {
            Err(e) => ended(c, Err(e)),
            Ok(out) => after_success(c, out),
        },
    }
}

/// A cycle after the success of the command that it asked for, which printed `out`.
pub open spec fn after_success(c: Cycle, out: Seq<char>) -> Cycle {
    match c.stage {
        Stage::Conflicts => with_conflicts(c, lines(out)),
        Stage::Add => at(c, Stage::Staged),
        Stage::Commit => Cycle { stage: Stage::Fetch, committed: true, ..c },
        Stage::Fetch => at(c, Stage::Count),
        Stage::Count => with_count(c, counted(out).0, counted(out).1),
        Stage::FastForward => Cycle { stage: Stage::Recount, pulled: true, ..c },
        Stage::MergeConflicts => if lines(out).len() > 0 {
            ended(c, Ok(Outcome::Conflict(conflicts_at(lines(out)))))
        } else {
            ended(
                c,
                Err(
                    match c.merge {
                        Some(o) => classified(
                            c.folder,
                            seq!["merge"@, "--no-edit"@, upstream(c)],
                            o,
                        ),
                        None => unresolved(),
                    },
                ),
            )
        },
        Stage::Recount => if counted(out).0 > 0 {
            at(c, Stage::Push)
        } else {
            ended(c, Ok(outcome_of(c.committed, c.pulled, false)))
        },
        Stage::FetchOnly => at(c, Stage::CountOnly),
        Stage::CountOnly => if counted(out).1 == 0 {
            ended(c, Ok(Outcome::UpToDate))
        } else {
            at(c, Stage::PullMerge)
        },
        Stage::Checkout => {
            let paths = if c.paths.len() > 0 {
                c.paths.drop_last()
            } else {
                c.paths
            };
            Cycle {
                paths,
                stage: if paths.len() > 0 {
                    Stage::Checkout
                } else {
                    Stage::ResolvedAdd
                },
                ..c
            }
        },
        Stage::MarkAdd => at(c, Stage::MarkConflicts),
        Stage::MarkConflicts => if lines(out).len() > 0 {
            ended(c, Err(unresolved()))
        } else {
            at(c, Stage::MarkCheck)
        },
        Stage::ResolvedAdd => at(c, Stage::ResolvedCommit),
        Stage::ResolvedCommit => at(c, Stage::ResolvedPush),
        _ => c,
    }
}

// ------------------------------------------------------------------------ the cycle

fn words3(a: &str, b: &str, c: &str) -> (r: Vec<String>)
    ensures
        texts(r@) == seq![a@, b@, c@],
{
    let mut v: Vec<String> = Vec::new();
    v.push(a.to_owned());
    v.push(b.to_owned());
    v.push(c.to_owned());
    assert(texts(v@) =~= seq![a@, b@, c@]);
    v
}

fn words2(a: &str, b: &str) -> (r: Vec<String>)
    ensures
        texts(r@) == seq![a@, b@],
{
    let mut v: Vec<String> = Vec::new();
    v.push(a.to_owned());
    v.push(b.to_owned());
    assert(texts(v@) =~= seq![a@, b@]);
    v
}

fn words4(a: &str, b: &str, c: &str, d: &str) -> (r: Vec<String>)
    ensures
        texts(r@) == seq![a@, b@, c@, d@],
{
    let mut v: Vec<String> = Vec::new();
    v.push(a.to_owned());
    v.push(b.to_owned());
    v.push(c.to_owned());
    v.push(d.to_owned());
    assert(texts(v@) =~= seq![a@, b@, c@, d@]);
    v
}

/// The lines that a command printed.
fn lines_in(out: &str) -> (r: Vec<String>)
    ensures
        texts(r@) == lines(out@),
{
    lines_of(&chars_of(out))
}

fn unresolved_error() -> (r: SyncError)
    ensures
        r@ == unresolved(),
{
    SyncError::GitCli {
        args: "resolve".to_owned(),
        code: None,
        stderr: "unresolved conflicts remain — fix the marked files first".to_owned(),
    }
}

impl SyncCycle {
    fn start(folder: &str, cfg: &SyncFolderConfig, resolution: Option<SyncResolution>) -> (r: Self)
        ensures
            r@ == (Cycle {
                folder: folder@,
                branch: cfg.branch@,
                direction: cfg.direction,
                resolution,
                stage: Stage::Opening,
                remote: Seq::empty(),
                committed: false,
                pulled: false,
                paths: Seq::empty(),
                merge: None,
                outcome: None,
            }),
    {
        let r = SyncCycle {
            folder: folder.to_owned(),
            branch: cfg.branch.clone(),
            direction: cfg.direction,
            resolution,
            stage: Stage::Opening,
            remote: String::new(),
            committed: false,
            pulled: false,
            paths: Vec::new(),
            merge: None,
            outcome: None,
        };
        assert(texts(r.paths@) =~= Seq::empty());
        assert(r.remote@ =~= Seq::empty());
        r
    }

    /// A sync of a folder.
    pub fn sync(folder: &str, cfg: &SyncFolderConfig) -> (r: Self)
        ensures
            r@ == started(folder@, *cfg, None),
    {
        Self::start(folder, cfg, None)
    }

    /// The resolution of a conflict in a folder.
    pub fn resolve(folder: &str, cfg: &SyncFolderConfig, how: SyncResolution) -> (r: Self)
        ensures
            r@ == started(folder@, *cfg, Some(how)),
    {
        Self::start(folder, cfg, Some(how))
    }

    fn end(&mut self, r: Result<SyncOutcome, SyncError>)
        ensures
            final(self)@ == ended(old(self)@, result_view(r)),
    {
        self.stage = Stage::Finished;
        self.outcome = Some(r);
    }

    fn upstream(&self) -> (r: String)
        ensures
            r@ == upstream(self@),
    {
        let mut s = self.remote.clone();
        s.append("/");
        s.append(self.branch.as_str());
        s
    }

    /// The git command that the cycle asks for, at a time in seconds since 1970.
    pub fn ask(&self, secs: u64) -> (r: Vec<String>)
        ensures
            texts(r@) == command(self@, secs),
    {
        match self.stage {
            Stage::Opening | Stage::Finished => {
                let v: Vec<String> = Vec::new();
                assert(texts(v@) =~= Seq::empty());
                v
            },
            Stage::Upstream => {
                let mut spec = self.branch.clone();
                spec.append("@{upstream}");
                words3("rev-parse", "--abbrev-ref", spec.as_str())
            },
            Stage::Conflicts | Stage::MergeConflicts | Stage::MarkConflicts => words3(
                "diff",
                "--name-only",
                "--diff-filter=U",
            ),
            Stage::Add | Stage::MarkAdd | Stage::ResolvedAdd => words2("add", "-A"),
            Stage::Staged => words3("diff", "--cached", "--quiet"),
            Stage::Commit => words4("commit", "--no-edit", "-m", commit_message(secs).as_str()),
            Stage::Fetch | Stage::FetchOnly => words3(
                "fetch",
                self.remote.as_str(),
                self.branch.as_str(),
            ),
            Stage::Count | Stage::Recount | Stage::CountOnly => {
                let mut range = self.branch.clone();
                range.append("...");
                range.append(self.upstream().as_str());
                words4("rev-list", "--left-right", "--count", range.as_str())
            },
            Stage::FastForward | Stage::PullMerge => words3(
                "merge",
                "--ff-only",
                self.upstream().as_str(),
            ),
            Stage::Merge => words3("merge", "--no-edit", self.upstream().as_str()),
            Stage::Push | Stage::ResolvedPush => words3(
                "push",
                self.remote.as_str(),
                self.branch.as_str(),
            ),
            Stage::Checkout => {
                let side = match self.resolution {
                    Some(SyncResolution::UseTheirs) => "--theirs",
                    _ => "--ours",
                };
                let path = if self.paths.len() > 0 {
                    self.paths[self.paths.len() - 1].clone()
                } else {
                    let e = String::new();
                    assert(e@ =~= Seq::empty());
                    e
                };
                words4("checkout", side, "--", path.as_str())
            },
            Stage::MarkCheck => words2("diff", "--check"),
            Stage::ResolvedCommit => words2("commit", "--no-edit"),
        }
    }

    /// Goes on once the repository has been opened: `head` is the state of its HEAD, or
    /// `None` where it could not be opened.
    pub fn opened(&mut self, head: Option<HeadState>)
        ensures
            final(self)@ == if old(self).stage == Stage::Opening {
                after_opening(old(self)@, head)
            } else {
                old(self)@
            },
    {
        if self.stage != Stage::Opening {
            return ;
        }
        match head {
            None => {
                let e = SyncError::NotARepo(self.folder.clone());
                self.end(Err(e));
            },
            Some(h) => match branch_name(h) {
                None => {
                    let e = SyncError::NotOnSyncBranch {
                        expected: self.branch.clone(),
                        actual: "detached or unborn HEAD".to_owned(),
                    };
                    self.end(Err(e));
                },
                Some(b) => {
                    if same(b.as_str(), self.branch.as_str()) {
                        self.stage = Stage::Upstream;
                    } else {
                        let e = SyncError::NotOnSyncBranch {
                            expected: self.branch.clone(),
                            actual: b,
                        };
                        self.end(Err(e));
                    }
                },
            },
        }
    }

    fn take_conflicts(&mut self, paths: Vec<String>)
        ensures
            final(self)@ == with_conflicts(old(self)@, texts(paths@)),
    {
        match self.resolution {
            None => {
                if paths.len() > 0 {
                    let files = conflict_files(paths);
                    self.end(Ok(SyncOutcome::Conflict { files }));
                } else if self.direction == SyncDirection::PullOnly {
                    self.stage = Stage::FetchOnly;
                } else {
                    self.stage = Stage::Add;
                }
            },
            Some(SyncResolution::MarkResolved) => {
                self.stage = Stage::MarkAdd;
            },
            Some(_) => {
                let ghost all = texts(paths@);
                let mut rest: Vec<String> = Vec::new();
                let mut i: usize = paths.len();
                assert(texts(rest@) =~= all.reverse().take(0));
                while i > 0
                    invariant
                        i <= paths@.len(),
                        all == texts(paths@),
                        texts(rest@) == all.reverse().take(paths@.len() - i),
                    decreases i,
                {
                    let ghost before = texts(rest@);
                    let ghost n = paths@.len() - i;
                    i = i - 1;
                    rest.push(paths[i].clone());
                    proof {
                        assert(texts(rest@) =~= before.push(all[i as int]));
                        assert(all.reverse()[n] == all[i as int]);
                        assert(all.reverse().take(n + 1) =~= all.reverse().take(n).push(
                            all[i as int],
                        ));
                    }
                }
                assert(all.reverse().take(all.len() as int) =~= all.reverse());
                self.paths = rest;
                if paths.len() > 0 {
                    self.stage = Stage::Checkout;
                } else {
                    self.stage = Stage::ResolvedAdd;
                }
            },
        }
    }

    /// Goes on after the command that the cycle asked for, with the reply to it.
    pub fn tell(&mut self, args: &Vec<String>, reply: GitReply)
        ensures
            final(self)@ == after(old(self)@, texts(args@), reply@),
    {
        match self.stage {
            Stage::Opening | Stage::Finished => {},
            Stage::Upstream => {
                let up = match printed_by(self.folder.as_str(), args, &reply) {
                    Ok(up) => up,
                    Err(_) => String::new(),
                };
                if chars_of(up.as_str()).len() > 0 {
                    self.remote = remote_in(up.as_str());
                    self.stage = Stage::Conflicts;
                } else {
                    let e = SyncError::NoRemote { folder: self.folder.clone() };
                    self.end(Err(e));
                }
            },
            Stage::Staged => match reply {
                GitReply::Failed(m) => self.end(Err(SyncError::Io(m))),
                GitReply::Ran(o) => {
                    self.stage = if o.success {
                        Stage::Fetch
                    } else {
                        Stage::Commit
                    };
                },
            },
            Stage::Merge => match reply {
                GitReply::Failed(m) => self.end(Err(SyncError::Io(m))),
                GitReply::Ran(o) => {
                    if o.success {
                        self.pulled = true;
                        self.stage = Stage::Recount;
                    } else {
                        self.merge = Some(o);
                        self.stage = Stage::MergeConflicts;
                    }
                },
            },
            Stage::PullMerge => match reply {
                GitReply::Failed(m) => self.end(Err(SyncError::Io(m))),
                GitReply::Ran(o) => {
                    if o.success {
                        self.end(Ok(SyncOutcome::Updated { pulled: true, pushed: false }));
                    } else {
                        let e = SyncError::GitCli {
                            args: "merge --ff-only".to_owned(),
                            code: o.code,
                            stderr: "pull-only: local changes block a fast-forward — commit/push or stash them".to_owned(),
                        };
                        self.end(Err(e));
                    }
                },
            },
            Stage::MarkCheck => match reply {
                GitReply::Failed(m) => self.end(Err(SyncError::Io(m))),
                GitReply::Ran(o) => {
                    if o.success {
                        self.stage = Stage::ResolvedAdd;
                    } else {
                        self.end(Err(unresolved_error()));
                    }
                },
            },
            Stage::Push => match push_reply(self.folder.as_str(), args, &reply) {
                Ok(pushed) => {
                    let pulled = self.pulled;
                    if pulled || pushed || self.committed {
                        self.end(Ok(SyncOutcome::Updated { pulled, pushed }));
                    } else {
                        self.end(Ok(SyncOutcome::UpToDate));
                    }
                },
                Err(e) => self.end(Err(e)),
            },
            Stage::ResolvedPush => match push_reply(self.folder.as_str(), args, &reply) {
                Ok(pushed) => self.end(Ok(SyncOutcome::Updated { pulled: true, pushed })),
                Err(e) => self.end(Err(e)),
            },
            _ => match printed_by(self.folder.as_str(), args, &reply) {
                Err(e) => self.end(Err(e)),
                Ok(out) => self.succeeded(out.as_str()),
            },
        }
    }

    fn succeeded(&mut self, out: &str)
        ensures
            final(self)@ == after_success(old(self)@, out@),
    {
        match self.stage {
            Stage::Conflicts => {
                let paths = lines_in(out);
                self.take_conflicts(paths);
            },
            Stage::Add => self.stage = Stage::Staged,
            Stage::Commit => {
                self.committed = true;
                self.stage = Stage::Fetch;
            },
            Stage::Fetch => self.stage = Stage::Count,
            Stage::Count => {
                let (ahead, behind) = count_in(out);
                self.stage = if behind == 0 {
                    Stage::Recount
                } else if ahead == 0 {
                    Stage::FastForward
                } else {
                    Stage::Merge
                };
            },
            Stage::FastForward => {
                self.pulled = true;
                self.stage = Stage::Recount;
            },
            Stage::MergeConflicts => {
                let paths = lines_in(out);
                if paths.len() > 0 {
                    let files = conflict_files(paths);
                    self.end(Ok(SyncOutcome::Conflict { files }));
                } else {
                    let args = words3("merge", "--no-edit", self.upstream().as_str());
                    let e = match &self.merge {
                        Some(o) => classify(self.folder.as_str(), &args, o),
                        None => unresolved_error(),
                    };
                    self.end(Err(e));
                }
            },
            Stage::Recount => {
                let (ahead, _) = count_in(out);
                let pulled = self.pulled;
                if ahead > 0 {
                    self.stage = Stage::Push;
                } else if pulled || self.committed {
                    self.end(Ok(SyncOutcome::Updated { pulled, pushed: false }));
                } else {
                    self.end(Ok(SyncOutcome::UpToDate));
                }
            },
            Stage::FetchOnly => self.stage = Stage::CountOnly,
            Stage::CountOnly => {
                let (_, behind) = count_in(out);
                if behind == 0 {
                    self.end(Ok(SyncOutcome::UpToDate));
                } else {
                    self.stage = Stage::PullMerge;
                }
            },
            Stage::Checkout => {
                let ghost before = texts(self.paths@);
                if self.paths.len() > 0 {
                    let last: usize = self.paths.len() - 1;
                    let done = self.paths.remove(last);
                    assert(texts(self.paths@) =~= before.drop_last());
                }
                self.stage = if self.paths.len() > 0 {
                    Stage::Checkout
                } else {
                    Stage::ResolvedAdd
                };
            },
            Stage::MarkAdd => self.stage = Stage::MarkConflicts,
            Stage::MarkConflicts => {
                let paths = lines_in(out);
                if paths.len() > 0 {
                    self.end(Err(unresolved_error()));
                } else {
                    self.stage = Stage::MarkCheck;
                }
            },
            Stage::ResolvedAdd => self.stage = Stage::ResolvedCommit,
            Stage::ResolvedCommit => self.stage = Stage::ResolvedPush,
            _ => {},
        }
    }
}

/// A cycle at its start.
pub open spec fn started(
    folder: Seq<char>,
    cfg: SyncFolderConfig,
    resolution: Option<SyncResolution>,
) -> Cycle {
    Cycle {
        folder,
        branch: cfg.branch@,
        direction: cfg.direction,
        resolution,
        stage: Stage::Opening,
        remote: Seq::empty(),
        committed: false,
        pulled: false,
        paths: Seq::empty(),
        merge: None,
        outcome: None,
    }
}

// -------------------------------------------------------------------------- laws

/// Whether a cycle is one that only pulls, and has changed nothing of its own.
pub open spec fn pulls_only(c: Cycle) -> bool {
    &&& c.direction == SyncDirection::PullOnly
    &&& c.resolution is None
    &&& (c.stage == Stage::Opening || c.stage == Stage::Upstream || c.stage == Stage::Conflicts
        || c.stage == Stage::FetchOnly || c.stage == Stage::CountOnly || c.stage
        == Stage::PullMerge || c.stage == Stage::Finished)
    &&& c.outcome matches Some(Ok(Outcome::Updated { pushed, .. })) ==> !pushed
}

/// A pull-only sync starts as one and stays one, whatever git replies: it never stages,
/// commits, checks out or pushes anything, and never reports that it did.
pub proof fn pull_only_never_pushes(
    folder: Seq<char>,
    cfg: SyncFolderConfig,
    c: Cycle,
    args: Seq<Seq<char>>,
    reply: Reply,
    head: Option<HeadState>,
    secs: u64,
)
    requires
        pulls_only(c),
    ensures
        cfg.direction == SyncDirection::PullOnly ==> pulls_only(started(folder, cfg, None)),
        pulls_only(after(c, args, reply)),
        c.stage == Stage::Opening ==> pulls_only(after_opening(c, head)),
        command(c, secs).len() > 0 ==> {
            let verb = command(c, secs)[0];
            verb == "rev-parse"@ || verb == "diff"@ || verb == "fetch"@ || verb == "rev-list"@
                || verb == "merge"@
        },
        command(c, secs).len() > 0 && command(c, secs)[0] == "merge"@ ==> command(c, secs)[1]
            == "--ff-only"@,
{
    reveal_strlit("rev-parse");
    reveal_strlit("diff");
    reveal_strlit("fetch");
    reveal_strlit("rev-list");
    reveal_strlit("merge");
    assert("diff"@.len() == 4);
    assert("merge"@.len() == 5);
    assert("fetch"@[0] == 'f');
    assert("merge"@[0] == 'm');
    assert("rev-parse"@.len() == 9);
    assert("rev-list"@.len() == 8);
}

/// Whether an outcome of a cycle is a conflict, it has a file in conflict, and a cycle has
/// an outcome exactly at its end.
pub open spec fn sound(c: Cycle) -> bool {
    &&& c.outcome is Some == (c.stage == Stage::Finished)
    &&& c.outcome matches Some(Ok(Outcome::Conflict(files))) ==> files.len() > 0
    &&& c.outcome matches Some(Ok(Outcome::UpToDate)) ==> !c.committed && !c.pulled
    &&& c.stage == Stage::Checkout ==> c.paths.len() > 0
    &&& c.stage == Stage::MergeConflicts ==> c.merge is Some
    &&& (c.stage == Stage::Opening || c.stage == Stage::Upstream || c.stage == Stage::Conflicts
        || c.stage == Stage::FetchOnly || c.stage == Stage::CountOnly) ==> !c.committed
        && !c.pulled
}

/// From its start, and whatever git replies, a cycle ends with an outcome, and only then has
/// one; a conflict that it reports has a file; it is up to date only where it changed nothing.
pub proof fn outcomes_are_sound(
    folder: Seq<char>,
    cfg: SyncFolderConfig,
    resolution: Option<SyncResolution>,
    c: Cycle,
    args: Seq<Seq<char>>,
    reply: Reply,
    head: Option<HeadState>,
)
    requires
        sound(c),
    ensures
        sound(started(folder, cfg, resolution)),
        sound(after(c, args, reply)),
        c.stage == Stage::Opening ==> sound(after_opening(c, head)),
{
}

/// A sync that finds files in conflict reports them and runs nothing more.
pub proof fn conflicts_are_not_committed_over(c: Cycle, args: Seq<Seq<char>>, out: Output)
    requires
        c.stage == Stage::Conflicts,
        c.resolution is None,
        out.success,
        lines(crate::text::trim_white(out.stdout)).len() > 0,
    ensures
        after(c, args, Reply::Ran(out)) == ended(
            c,
            Ok(Outcome::Conflict(conflicts_at(lines(crate::text::trim_white(out.stdout))))),
        ),
{
}

/// How much a cycle has before it.
pub open spec fn left(c: Cycle) -> int {
    match c.stage {
        Stage::Finished => 0,
        Stage::Push => 1,
        Stage::Recount => 2,
        Stage::MergeConflicts => 2,
        Stage::Merge => 3,
        Stage::FastForward => 3,
        Stage::Count => 4,
        Stage::Fetch => 5,
        Stage::Commit => 6,
        Stage::Staged => 7,
        Stage::Add => 8,
        Stage::PullMerge => 1,
        Stage::CountOnly => 2,
        Stage::FetchOnly => 3,
        Stage::ResolvedPush => 1,
        Stage::ResolvedCommit => 2,
        Stage::ResolvedAdd => 3,
        Stage::Checkout => 4 + c.paths.len() as int,
        Stage::MarkCheck => 4,
        Stage::MarkConflicts => 5,
        Stage::MarkAdd => 6,
        Stage::Conflicts => 9,
        Stage::Upstream => 10,
        Stage::Opening => 11,
    }
}

/// Every reply brings a cycle nearer to its end, but for the files that a resolution takes
/// up one by one.
pub proof fn cycles_come_to_an_end(
    c: Cycle,
    args: Seq<Seq<char>>,
    reply: Reply,
    head: Option<HeadState>,
)
    requires
        sound(c),
        c.stage != Stage::Finished,
    ensures
        c.stage == Stage::Opening ==> left(after_opening(c, head)) < left(c),
        c.stage != Stage::Opening && c.stage != Stage::Conflicts ==> left(after(c, args, reply))
            < left(c),
        c.stage == Stage::Conflicts ==> {
            let next = after(c, args, reply);
            left(next) < left(c) || next.stage == Stage::Checkout
        },
        after(c, args, reply).stage == Stage::Conflicts ==> c.stage == Stage::Upstream,
{
}

} // verus!
