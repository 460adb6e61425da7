//! Git repositories: finding them under a set of folders, and the names they go by.

use crate::path::{file_name, last_index, last_index_of, lemma_last_index_of, name_of, path_eq, paths_equal};
use crate::text::{
    chars_of, ends, ends_with, four, same, starts, starts_with, string_of, trim_end, trim_white, trimmed,
    trimmed_end, CharSet,
};
use vstd::prelude::*;

verus! {

/// How many directories deep repositories are looked for.
pub const MAX_DEPTH: usize = 64;

/// Errors of opening or inspecting a git repository.
#[derive(Debug)]
pub enum GitError {
    /// The repository could not be opened.
    Open { path: String, message: String },
    /// HEAD could not be read.
    Head { path: String, message: String },
}

impl GitError {
    /// What the error says.
    pub fn message(&self) -> (r: String)
        ensures
            r@ == match self {
                GitError::Open { path, message } => "failed to open git repository at "@ + path@
                    + ": "@ + message@,
                GitError::Head { path, message } => "failed to read HEAD for "@ + path@ + ": "@
                    + message@,
            },
    {
        match self {
            GitError::Open { path, message } => four(
                "failed to open git repository at ",
                path.as_str(),
                ": ",
                message.as_str(),
            ),
            GitError::Head { path, message } => four(
                "failed to read HEAD for ",
                path.as_str(),
                ": ",
                message.as_str(),
            ),
        }
    }
}

/// The state of a repository's HEAD.
#[derive(Debug, Clone, PartialEq, Eq)]
pub enum HeadState {
    /// HEAD points at a branch (short name, e.g. `main`).
    Branch(String),
    /// Detached HEAD at the given short commit id.
    Detached(String),
    /// A repository with no commits yet.
    Unborn,
}

/// A discovered git repository.
#[derive(Debug, Clone, PartialEq, Eq)]
pub struct TrackedRepo {
    /// The working directory of the repository.
    pub work_dir: String,
    /// The `.git` directory.
    pub git_dir: String,
    /// A display name (the work dir's file name).
    pub name: String,
    /// The current HEAD state.
    pub head: HeadState,
}

/// The record of an opened repository.
pub fn tracked_repo(work_dir: String, git_dir: String, head: HeadState) -> (r: TrackedRepo)
    ensures
        r.work_dir == work_dir,
        r.git_dir == git_dir,
        r.head == head,
        r.name@ == match name_of(work_dir@) {
            Some(n) => n,
            None => Seq::empty(),
        },
{
    let name = match file_name(work_dir.as_str()) {
        Some(n) => n,
        None => String::new(),
    };
    TrackedRepo { work_dir, git_dir, name, head }
}

/// Whether the directories of a name are passed over in the search for repositories.
pub open spec fn is_pruned_dir(name: Seq<char>) -> bool {
    name == "node_modules"@ || name == "target"@ || starts(name, "."@)
}

/// Whether the directories of a name are passed over in the search for repositories.
pub fn is_pruned(name: &str) -> (r: bool)
    ensures
        r == is_pruned_dir(name@),
{
    same(name, "node_modules") || same(name, "target") || starts_with(
        &chars_of(name),
        &chars_of("."),
    )
}

/// An entry of a directory that is searched.
#[derive(Debug)]
pub struct WalkEntry {
    pub name: String,
    pub path: String,
    /// Whether it is a directory itself (not a link to one).
    pub is_dir: bool,
}

/// What was found at a directory.
#[derive(Debug)]
pub struct Inspection {
    /// Whether it holds a `.git` entry.
    pub is_repo: bool,
    /// Its canonical path.
    pub canonical: String,
    /// The repository, where it is one and could be opened.
    pub repo: Option<TrackedRepo>,
    /// Its entries.
    pub entries: Vec<WalkEntry>,
}

/// The directories to search among some entries, in reverse: the last is searched first.
pub open spec fn descend(entries: Seq<WalkEntry>, depth: usize) -> Seq<(Seq<char>, usize)>
    decreases entries.len(),
{
    if entries.len() == 0 {
        Seq::empty()
    } else {
        let rest = descend(entries.drop_first(), depth);
        let e = entries[0];
        if e.is_dir && !is_pruned_dir(e.name@) {
            rest.push((e.path@, depth))
        } else {
            rest
        }
    }
}

/// The paths and depths of directories that are to be searched.
pub open spec fn places(v: Seq<(String, usize)>) -> Seq<(Seq<char>, usize)> {
    v.map_values(|p: (String, usize)| (p.0@, p.1))
}

/// Whether a repository's path is among those that were found.
pub open spec fn is_seen(seen: Seq<String>, path: Seq<char>) -> bool {
    exists|i: int| 0 <= i < seen.len() && path_eq((#[trigger] seen[i])@, path)
}

/// A search for the repositories under some folders, depth first. It asks for one
/// directory at a time.
pub struct RepoWalk {
    /// The directories still to be searched with their depths, the next one last.
    pub pending: Vec<(String, usize)>,
    /// The repositories found.
    pub repos: Vec<TrackedRepo>,
    /// The canonical paths of the repositories met.
    pub seen: Vec<String>,
}

impl RepoWalk {
    /// No repository is met twice, none is found that was not met, and nothing is looked
    /// for too deep.
    pub open spec fn wf(&self) -> bool {
        &&& forall|i: int, j: int|
            0 <= i < j < self.seen@.len() ==> !path_eq(
                (#[trigger] self.seen@[i])@,
                (#[trigger] self.seen@[j])@,
            )
        &&& self.repos@.len() <= self.seen@.len()
        &&& forall|i: int| 0 <= i < self.pending@.len() ==> (#[trigger] self.pending@[i]).1 <= 64
    }

    /// Starts a search under `roots`.
    pub fn discover_repos(roots: &Vec<String>) -> (r: Self)
        ensures
            r.wf(),
            places(r.pending@) == roots@.reverse().map_values(|s: String| (s@, 0usize)),
            r.repos@.len() == 0,
            r.seen@.len() == 0,
    {
        let ghost want = roots@.reverse().map_values(|s: String| (s@, 0usize));
        let mut pending: Vec<(String, usize)> = Vec::new();
        let mut i: usize = roots.len();
        assert(places(pending@) =~= want.take(0));
        while i > 0
            invariant
                i <= roots@.len(),
                want == roots@.reverse().map_values(|s: String| (s@, 0usize)),
                places(pending@) == want.take(roots@.len() - i),
                forall|k: int| 0 <= k < pending@.len() ==> (#[trigger] pending@[k]).1 == 0,
            decreases i,
        {
            let ghost before = places(pending@);
            let ghost n = roots@.len() - i;
            i = i - 1;
            pending.push((roots[i].clone(), 0));
            proof {
                assert(places(pending@) =~= before.push((roots@[i as int]@, 0usize)));
                assert(want[n] == (roots@[i as int]@, 0usize));
                assert(want.take(n + 1) =~= want.take(n).push(want[n]));
            }
        }
        assert(want.take(roots@.len() as int) =~= want);
        RepoWalk { pending, repos: Vec::new(), seen: Vec::new() }
    }

    /// The directory to look at next; `None` at the end of the search.
    pub fn next(&self) -> (r: Option<&str>)
        ensures
            r is None == (self.pending@.len() == 0),
            r matches Some(p) ==> p@ == self.pending@.last().0@,
    {
        if self.pending.len() == 0 {
            None
        } else {
            Some(self.pending[self.pending.len() - 1].0.as_str())
        }
    }

    fn met(&self, path: &str) -> (r: bool)
        ensures
            r == is_seen(self.seen@, path@),
    {
        let mut i: usize = 0;
        while i < self.seen.len()
            invariant
                i <= self.seen@.len(),
                forall|k: int| 0 <= k < i ==> !path_eq((#[trigger] self.seen@[k])@, path@),
            decreases self.seen.len() - i,
        {
            if paths_equal(self.seen[i].as_str(), path) {
                assert(path_eq(self.seen@[i as int]@, path@));
                return true;
            }
            i = i + 1;
        }
        false
    }

    /// Goes on with what was found at the next directory. A repository is recorded, once,
    /// and its contents belong to it; of any other directory the ones in it follow.
    pub fn visit(&mut self, found: Inspection)
        requires
            old(self).wf(),
            old(self).pending@.len() > 0,
        ensures
            final(self).wf(),
            ({
                let rest = places(old(self).pending@).drop_last();
                let depth = old(self).pending@.last().1;
                if found.is_repo {
                    &&& places(final(self).pending@) == rest
                    &&& if is_seen(old(self).seen@, found.canonical@) {
                        final(self).seen@ == old(self).seen@ && final(self).repos@ == old(
                            self,
                        ).repos@
                    } else {
                        final(self).seen@ == old(self).seen@.push(found.canonical)
                            && final(self).repos@ == match found.repo {
                            Some(repo) => old(self).repos@.push(repo),
                            None => old(self).repos@,
                        }
                    }
                } else {
                    &&& final(self).seen@ == old(self).seen@
                    &&& final(self).repos@ == old(self).repos@
                    &&& places(final(self).pending@) == if depth < 64 {
                        rest + descend(found.entries@, (depth + 1) as usize)
                    } else {
                        rest
                    }
                }
            }),
    {
        let ghost first = places(self.pending@).drop_last();
        let last: usize = self.pending.len() - 1;
        let (_, depth) = self.pending.remove(last);
        assert(places(self.pending@) =~= first);
        if found.is_repo {
            if !self.met(found.canonical.as_str()) {
                self.seen.push(found.canonical);
                if let Some(repo) = found.repo {
                    self.repos.push(repo);
                }
            }
            return ;
        }
        if depth < MAX_DEPTH {
            let entries = &found.entries;
            let mut i: usize = entries.len();
            let ghost all = entries@;
            proof {
                assert(all.skip(i as int) =~= Seq::empty());
                assert(descend(all.skip(i as int), (depth + 1) as usize) =~= Seq::empty());
                assert(first + Seq::empty() =~= first);
            }
            while i > 0
                invariant
                    i <= all.len(),
                    all == entries@,
                    depth < 64,
                    self.seen@ == old(self).seen@,
                    self.repos@ == old(self).repos@,
                    places(self.pending@) == first + descend(
                        all.skip(i as int),
                        (depth + 1) as usize,
                    ),
                    forall|k: int|
                        0 <= k < self.pending@.len() ==> (#[trigger] self.pending@[k]).1 <= 64,
                decreases i,
            {
                let ghost before = places(self.pending@);
                i = i - 1;
                proof {
                    assert(all.skip(i as int).drop_first() =~= all.skip(i + 1));
                    assert(all.skip(i as int)[0] == all[i as int]);
                }
                if entries[i].is_dir && !is_pruned(entries[i].name.as_str()) {
                    self.pending.push((entries[i].path.clone(), depth + 1));
                    proof {
                        let p = (all[i as int].path@, (depth + 1) as usize);
                        assert(places(self.pending@) =~= before.push(p));
                        let d = descend(all.skip(i + 1), (depth + 1) as usize);
                        assert(first + d.push(p) =~= (first + d).push(p));
                    }
                }
            }
            assert(all.skip(0) =~= all);
        }
    }
}

/// The part of a text behind its last `/` or `:`.
pub open spec fn last_segment(s: Seq<char>) -> Seq<char> {
    let a = last_index_of(s, '/');
    let b = last_index_of(s, ':');
    s.skip(if a > b {
        a + 1
    } else {
        b + 1
    })
}

/// A text without `.git` at its end.
pub open spec fn without_git(s: Seq<char>) -> Seq<char> {
    if ends(s, ".git"@) {
        s.take(s.len() - 4)
    } else {
        s
    }
}

/// The name of the repository at a remote address: its last segment, without slashes and
/// `.git` at the end.
pub open spec fn remote_name(url: Seq<char>) -> Seq<char> {
    trim_white(last_segment(without_git(trim_end(trim_white(url), CharSet::Only('/')))))
}

/// The repository name in a remote address. Understands `https://`, `ssh://` and `file://`
/// addresses and `user@host:path`; `None` where there is no name.
pub fn repo_name_from_remote_url(url: &str) -> (r: Option<String>)
    ensures
        r is Some == (remote_name(url@).len() > 0),
        r matches Some(n) ==> n@ == remote_name(url@),
{
    let cs = chars_of(url);
    let mut s: &[char] = trimmed_end(trimmed(&cs, CharSet::White), CharSet::Only('/'));
    let dot_git = chars_of(".git");
    proof {
        reveal_strlit(".git");
    }
    if ends_with(s, &dot_git) {
        s = vstd::slice::slice_subrange(s, 0, s.len() - 4);
    }
    let ghost t = s@;
    proof {
        lemma_last_index_of(t, '/');
        lemma_last_index_of(t, ':');
    }
    let a = match last_index(s, '/') {
        Some(i) => {
            assert(i < s.len());
            i + 1
        },
        None => 0,
    };
    let b = match last_index(s, ':') {
        Some(i) => {
            assert(i < s.len());
            i + 1
        },
        None => 0,
    };
    let from: usize = if a > b {
        a
    } else {
        b
    };
    let segment = vstd::slice::slice_subrange(s, from, s.len());
    assert(segment@ =~= last_segment(t));
    let name = trimmed(segment, CharSet::White);
    if name.len() > 0 {
        Some(string_of(name))
    } else {
        None
    }
}

// -------------------------------------------------------------------------- laws

/// What is searched in a directory is a directory there that is not passed over, one deeper.
pub proof fn search_passes_pruned_directories_over(
    entries: Seq<WalkEntry>,
    depth: usize,
    place: (Seq<char>, usize),
)
    ensures
        descend(entries, depth).contains(place) <==> place.1 == depth && exists|i: int|
            0 <= i < entries.len() && (#[trigger] entries[i]).is_dir && !is_pruned_dir(
                entries[i].name@,
            ) && entries[i].path@ == place.0,
    decreases entries.len(),
{
    let now = descend(entries, depth);
    if entries.len() > 0 {
        let rest = entries.drop_first();
        let before = descend(rest, depth);
        search_passes_pruned_directories_over(rest, depth, place);
        let e = entries[0];
        if before.contains(place) {
            let k = choose|k: int| 0 <= k < before.len() && before[k] == place;
            assert(now[k] == place);
            let i = choose|i: int|
                0 <= i < rest.len() && (#[trigger] rest[i]).is_dir && !is_pruned_dir(rest[i].name@)
                    && rest[i].path@ == place.0;
            assert(entries[i + 1] == rest[i]);
        }
        if e.is_dir && !is_pruned_dir(e.name@) {
            assert(now[before.len() as int] == (e.path@, depth));
        }
        if now.contains(place) && !before.contains(place) {
            let k = choose|k: int| 0 <= k < now.len() && now[k] == place;
            if k < before.len() {
                assert(before[k] == place);
            }
        }
        if exists|i: int|
            0 <= i < entries.len() && (#[trigger] entries[i]).is_dir && !is_pruned_dir(
                entries[i].name@,
            ) && entries[i].path@ == place.0 {
            let i = choose|i: int|
                0 <= i < entries.len() && (#[trigger] entries[i]).is_dir && !is_pruned_dir(
                    entries[i].name@,
                ) && entries[i].path@ == place.0;
            if i > 0 {
                assert(rest[i - 1] == entries[i]);
            }
        }
    }
}

} // verus!
