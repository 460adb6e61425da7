//! Auto-sync: what a sync of a folder can come to, the backends that carry it out, and
//! the way a result is made of what git replies.

use crate::ipc::{ConflictFile, SyncStrategy};
use crate::path::{lowered, to_lower};
use crate::text::{
    chars_of, contains, has, join, joined, signed_decimal, signed_decimal_of, string_of, texts,
    trim_white, trimmed, CharSet,
};
use vstd::prelude::*;

verus! {

/// A read-only probe of a folder for its strategy.
#[derive(Debug, Clone, PartialEq, Eq)]
pub struct SyncProbe {
    /// The backend can manage this folder (Git: it is a repository).
    pub manageable: bool,
    /// A remote is configured.
    pub has_remote: bool,
    /// The current branch (`None` if detached or unborn).
    pub branch: Option<String>,
    /// Commits ahead of the upstream.
    pub ahead: u32,
    /// Commits behind the upstream.
    pub behind: u32,
    /// An unresolved in-progress merge is present.
    pub conflicted: bool,
    /// A human note (e.g. "not a git repository").
    pub detail: Option<String>,
}

/// The result of one sync cycle.
#[derive(Debug, Clone, PartialEq, Eq)]
pub enum SyncOutcome {
    /// Nothing to do: already in sync.
    UpToDate,
    /// Something changed in this cycle.
    Updated {
        /// Remote changes were integrated locally.
        pulled: bool,
        /// Local changes were pushed to the remote.
        pushed: bool,
    },
    /// A merge conflict: the folder is now paused awaiting resolution.
    Conflict {
        /// The conflicted files.
        files: Vec<ConflictFile>,
    },
}

/// A sync outcome, as a value.
pub enum Outcome {
    UpToDate,
    Updated { pulled: bool, pushed: bool },
    Conflict(Seq<(Seq<char>, Option<Seq<char>>)>),
}

/// The paths and details of conflicted files.
pub open spec fn files_view(files: Seq<ConflictFile>) -> Seq<(Seq<char>, Option<Seq<char>>)> {
    files.map_values(|f: ConflictFile| (f.path@, match f.detail {
        Some(d) => Some(d@),
        None => None,
    }))
}

impl SyncOutcome {
    pub open spec fn view(&self) -> Outcome {
        match self {
            SyncOutcome::UpToDate => Outcome::UpToDate,
            SyncOutcome::Updated { pulled, pushed } => Outcome::Updated {
                pulled: *pulled,
                pushed: *pushed,
            },
            SyncOutcome::Conflict { files } => Outcome::Conflict(files_view(files@)),
        }
    }
}

/// A failure during a sync probe, cycle, or conflict resolution.
#[derive(Debug)]
pub enum SyncError {
    /// The folder is no git repository.
    NotARepo(String),
    /// No upstream is configured for the sync branch.
    NoRemote { folder: String },
    /// HEAD is on a different branch than the one configured for sync.
    NotOnSyncBranch { expected: String, actual: String },
    /// A `git` subprocess exited non-zero.
    GitCli { args: String, code: Option<i32>, stderr: String },
    /// Authentication failed (classified from what git printed).
    Auth { folder: String, stderr: String },
    /// A `git` subprocess exceeded its timeout.
    Timeout { args: String },
    /// The requested backend has no implementation.
    Unsupported(SyncStrategy),
    /// An underlying I/O error.
    Io(String),
}

/// A sync failure, as a value.
pub enum Failure {
    NotARepo(Seq<char>),
    NoRemote(Seq<char>),
    NotOnSyncBranch(Seq<char>, Seq<char>),
    GitCli(Seq<char>, Option<i32>, Seq<char>),
    Auth(Seq<char>, Seq<char>),
    Timeout(Seq<char>),
    Unsupported(SyncStrategy),
    Io(Seq<char>),
}

impl SyncError {
    pub open spec fn view(&self) -> Failure {
        match self {
            SyncError::NotARepo(p) => Failure::NotARepo(p@),
            SyncError::NoRemote { folder } => Failure::NoRemote(folder@),
            SyncError::NotOnSyncBranch { expected, actual } => Failure::NotOnSyncBranch(
                expected@,
                actual@,
            ),
            SyncError::GitCli { args, code, stderr } => Failure::GitCli(args@, *code, stderr@),
            SyncError::Auth { folder, stderr } => Failure::Auth(folder@, stderr@),
            SyncError::Timeout { args } => Failure::Timeout(args@),
            SyncError::Unsupported(s) => Failure::Unsupported(*s),
            SyncError::Io(m) => Failure::Io(m@),
        }
    }
}

/// The name of a strategy.
pub open spec fn strategy_name(s: SyncStrategy) -> Seq<char> {
    match s {
        SyncStrategy::Git => "Git"@,
        SyncStrategy::Dolt => "Dolt"@,
    }
}

/// An exit code as it is printed.
pub open spec fn code_text(code: Option<i32>) -> Seq<char> {
    match code {
        Some(c) => "Some("@ + signed_decimal(c as int) + ")"@,
        None => "None"@,
    }
}

/// An exit code as it is printed.
pub fn shown_code(code: Option<i32>) -> (r: String)
    ensures
        r@ == code_text(code),
{
    match code {
        Some(c) => {
            let mut s = "Some(".to_owned();
            s.append(signed_decimal_of(c).as_str());
            s.append(")");
            s
        },
        None => "None".to_owned(),
    }
}

/// What a sync failure says.
pub open spec fn failure_text(e: Failure) -> Seq<char> {
    match e {
        Failure::NotARepo(p) => p + " is not a git repository"@,
        Failure::NoRemote(p) => "no git remote configured for "@ + p,
        Failure::NotOnSyncBranch(expected, actual) => "folder is on branch "@ + actual
            + ", expected "@ + expected,
        Failure::GitCli(args, code, stderr) => "git "@ + args + " failed (exit "@ + code_text(code)
            + "): "@ + stderr,
        Failure::Auth(folder, stderr) => "git authentication failed for "@ + folder + ": "@
            + stderr,
        Failure::Timeout(args) => "git operation timed out: "@ + args,
        Failure::Unsupported(s) => "the "@ + strategy_name(s)
            + " sync backend is not implemented yet"@,
        Failure::Io(m) => m,
    }
}

impl SyncError {
    /// What the failure says.
    pub fn message(&self) -> (r: String)
        ensures
            r@ == failure_text(self@),
    {
        match self {
            SyncError::NotARepo(p) => {
                let mut s = p.clone();
                s.append(" is not a git repository");
                s
            },
            SyncError::NoRemote { folder } => {
                let mut s = "no git remote configured for ".to_owned();
                s.append(folder.as_str());
                s
            },
            SyncError::NotOnSyncBranch { expected, actual } => {
                let mut s = "folder is on branch ".to_owned();
                s.append(actual.as_str());
                s.append(", expected ");
                s.append(expected.as_str());
                s
            },
            SyncError::GitCli { args, code, stderr } => {
                let mut s = "git ".to_owned();
                s.append(args.as_str());
                s.append(" failed (exit ");
                s.append(shown_code(*code).as_str());
                s.append("): ");
                s.append(stderr.as_str());
                s
            },
            SyncError::Auth { folder, stderr } => {
                let mut s = "git authentication failed for ".to_owned();
                s.append(folder.as_str());
                s.append(": ");
                s.append(stderr.as_str());
                s
            },
            SyncError::Timeout { args } => {
                let mut s = "git operation timed out: ".to_owned();
                s.append(args.as_str());
                s
            },
            SyncError::Unsupported(strategy) => {
                let mut s = "the ".to_owned();
                match strategy {
                    SyncStrategy::Git => s.append("Git"),
                    SyncStrategy::Dolt => s.append("Dolt"),
                }
                s.append(" sync backend is not implemented yet");
                s
            },
            SyncError::Io(m) => m.clone(),
        }
    }
}

// ----------------------------------------------------------------- replies of git

/// What a git command came to.
#[derive(Debug)]
pub struct GitOutput {
    /// Whether it exited with success.
    pub success: bool,
    /// Its exit code, where it has one.
    pub code: Option<i32>,
    /// What it printed to standard output.
    pub stdout: String,
    /// What it printed to standard error.
    pub stderr: String,
}

/// What a git command came to, as a value.
pub struct Output {
    pub success: bool,
    pub code: Option<i32>,
    pub stdout: Seq<char>,
    pub stderr: Seq<char>,
}

impl GitOutput {
    pub open spec fn view(&self) -> Output {
        Output {
            success: self.success,
            code: self.code,
            stdout: self.stdout@,
            stderr: self.stderr@,
        }
    }
}

/// The reply to a git command: its output, or why it could not be run.
#[derive(Debug)]
pub enum GitReply {
    Ran(GitOutput),
    Failed(String),
}

/// The reply to a git command, as a value.
pub enum Reply {
    Ran(Output),
    Failed(Seq<char>),
}

impl GitReply {
    pub open spec fn view(&self) -> Reply {
        match self {
            GitReply::Ran(o) => Reply::Ran(o@),
            GitReply::Failed(m) => Reply::Failed(m@),
        }
    }
}

/// Whether what git printed tells of a failed authentication.
pub open spec fn tells_of_auth(stderr: Seq<char>) -> bool {
    let s = lowered(stderr);
    contains(s, "authentication failed"@) || contains(s, "could not read username"@) || contains(
        s,
        "permission denied"@,
    ) || contains(s, "publickey"@) || contains(s, "invalid username or password"@)
}

/// Whether what git printed tells of a failed authentication.
pub fn is_auth_error(stderr: &str) -> (r: bool)
    ensures
        r == tells_of_auth(stderr@),
{
    let s = to_lower(&chars_of(stderr));
    has(&s, &chars_of("authentication failed")) || has(&s, &chars_of("could not read username"))
        || has(&s, &chars_of("permission denied")) || has(&s, &chars_of("publickey")) || has(
        &s,
        &chars_of("invalid username or password"),
    )
}

/// The failure that a command's output is.
pub open spec fn classified(dir: Seq<char>, args: Seq<Seq<char>>, out: Output) -> Failure {
    if tells_of_auth(out.stderr) {
        Failure::Auth(dir, out.stderr)
    } else {
        Failure::GitCli(join(args, " "@), out.code, out.stderr)
    }
}

/// The failure that a command's output is.
pub fn classify(dir: &str, args: &Vec<String>, out: &GitOutput) -> (r: SyncError)
    ensures
        r@ == classified(dir@, texts(args@), out@),
{
    if is_auth_error(out.stderr.as_str()) {
        SyncError::Auth { folder: dir.to_owned(), stderr: out.stderr.clone() }
    } else {
        SyncError::GitCli { args: joined(args, " "), code: out.code, stderr: out.stderr.clone() }
    }
}

/// What a command printed, where it ran with success, or its failure.
pub open spec fn printed(dir: Seq<char>, args: Seq<Seq<char>>, reply: Reply) -> Result<
    Seq<char>,
    Failure,
> {
    match reply {
        Reply::Failed(m) => Err(Failure::Io(m)),
        Reply::Ran(o) => if o.success {
            Ok(trim_white(o.stdout))
        } else {
            Err(classified(dir, args, o))
        },
    }
}

/// What a command printed, where it ran with success, or its failure.
pub fn printed_by(dir: &str, args: &Vec<String>, reply: &GitReply) -> (r: Result<String, SyncError>)
    ensures
        match r {
            Ok(s) => printed(dir@, texts(args@), reply@) == Ok::<Seq<char>, Failure>(s@),
            Err(e) => printed(dir@, texts(args@), reply@) == Err::<Seq<char>, Failure>(e@),
        },
{
    match reply {
        GitReply::Failed(m) => Err(SyncError::Io(m.clone())),
        GitReply::Ran(o) => {
            if o.success {
                let cs = chars_of(o.stdout.as_str());
                Ok(string_of(trimmed(&cs, CharSet::White)))
            } else {
                Err(classify(dir, args, o))
            }
        },
    }
}

} // verus!
