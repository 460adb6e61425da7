//! Workspaces: named sets of folders with a knowledge-base directory, and the collection
//! of them that is kept.

use crate::ipc::{EnrichmentConfig, KbBackend, LinkingConfig, SyncFolderConfig, WorkspaceFolderCandidate};
use crate::link::link_path;
use crate::natural::{alphanumeric_order, natural_order, natural_order_is_symmetric, natural_order_is_transitive, Order};
use crate::path::{eq_ignore_case, extension, extension_of, file_name, joined_path, lower_ascii, name_of, same_ignoring_case, to_lower_ascii};
use crate::state::StateError;
use crate::text::{
    chars_of, decimal, decimal_of, four, join, joined, lemma_decimal_injective, same, string_of,
    texts, two,
};
use vstd::prelude::*;
use vstd::utf8::encode_utf8;

verus! {

/// Errors that occur while managing workspaces and their links.
#[derive(Debug)]
pub enum WorkspaceError {
    /// Persistence (load/save) failed.
    State(StateError),
    /// A directory link could not be created.
    Link { link: String, target: String, message: String },
    /// A link could not be removed.
    Unlink { link: String, message: String },
    /// An entry that is no link stands where the link should go; it is not overwritten.
    LinkOccupied(String),
    /// A repository's `.gitignore` could not be updated for a managed link.
    Gitignore { path: String, message: String },
    /// A folder path does not resolve to a directory.
    NotADirectory(String),
    /// Candidate folder discovery failed.
    FolderDiscovery { path: String, message: String },
    /// No workspace with the given id exists.
    NotFound(String),
}

impl WorkspaceError {
    /// What the error says.
    pub open spec fn text(&self) -> Seq<char> {
        match self {
            WorkspaceError::State(e) => "workspace state error: "@ + e.text(),
            WorkspaceError::Link { link, target, message } =>
                "failed to create .looper link "@ + link@ + " -> "@ + target@ + ": "@ + message@,
            WorkspaceError::Unlink { link, message } => "failed to remove .looper link "@ + link@
                + ": "@ + message@,
            WorkspaceError::LinkOccupied(p) => "a non-link entry already exists at "@ + p@
                + "; refusing to overwrite it"@,
            WorkspaceError::Gitignore { path, message } => "failed to update .gitignore at "@
                + path@ + ": "@ + message@,
            WorkspaceError::NotADirectory(p) => "not a folder: "@ + p@,
            WorkspaceError::FolderDiscovery { path, message } =>
                "failed to inspect workspace folders under "@ + path@ + ": "@ + message@,
            WorkspaceError::NotFound(id) => "workspace not found: "@ + id@,
        }
    }

    /// What the error says.
    pub fn message(&self) -> (r: String)
        ensures
            r@ == self.text(),
    {
        match self {
            WorkspaceError::State(e) => two("workspace state error: ", e.message().as_str()),
            WorkspaceError::Link { link, target, message } => {
                let mut s = four(
                    "failed to create .looper link ",
                    link.as_str(),
                    " -> ",
                    target.as_str(),
                );
                s.append(": ");
                s.append(message.as_str());
                s
            },
            WorkspaceError::Unlink { link, message } => four(
                "failed to remove .looper link ",
                link.as_str(),
                ": ",
                message.as_str(),
            ),
            WorkspaceError::LinkOccupied(p) => {
                let mut s = two("a non-link entry already exists at ", p.as_str());
                s.append("; refusing to overwrite it");
                s
            },
            WorkspaceError::Gitignore { path, message } => four(
                "failed to update .gitignore at ",
                path.as_str(),
                ": ",
                message.as_str(),
            ),
            WorkspaceError::NotADirectory(p) => two("not a folder: ", p.as_str()),
            WorkspaceError::FolderDiscovery { path, message } => four(
                "failed to inspect workspace folders under ",
                path.as_str(),
                ": ",
                message.as_str(),
            ),
            WorkspaceError::NotFound(id) => two("workspace not found: ", id.as_str()),
        }
    }
}

/// A stable workspace identifier: a slug of the name it was created with.
#[derive(Debug, PartialEq, Eq, Hash)]
pub struct WorkspaceId(pub String);

impl Clone for WorkspaceId {
    fn clone(&self) -> (r: Self)
        ensures
            r == *self,
    {
        WorkspaceId(self.0.clone())
    }
}

impl WorkspaceId {
    /// The id as a string slice.
    pub fn as_str(&self) -> (r: &str)
        ensures
            r@ == self.0@,
    {
        self.0.as_str()
    }
}

/// Default number of rendered pages kept in a workspace's document-viewer cache.
pub const DEFAULT_HTML_CACHE_SIZE: usize = 50;

/// A workspace: a named set of folders and the directory of its knowledge base.
#[derive(Debug, Clone, PartialEq, Eq)]
pub struct Workspace {
    /// Stable identifier.
    pub id: WorkspaceId,
    /// Human-readable name.
    pub name: String,
    /// Folders that comprise the workspace.
    pub folders: Vec<String>,
    /// Directory holding the workspace's knowledge base.
    pub kb_dir: String,
    /// Max rendered pages kept in the document-viewer cache.
    pub html_cache_size: usize,
    /// Per-folder sync configuration: one entry per enabled folder.
    pub sync: Vec<SyncFolderConfig>,
    /// The knowledge-base backend.
    pub backend: KbBackend,
    /// Enrichment configuration.
    pub enrichment: EnrichmentConfig,
    /// Linking configuration: specs folders and link overrides.
    pub linking: LinkingConfig,
    /// Extensions of the files that are scanned and watched, in lower case, without a dot.
    pub watched_extensions: Vec<String>,
}

impl Workspace {
    /// The paths that scanning and watching skip: the KB directory, and every folder's
    /// `kb` link.
    pub open spec fn exclusions(&self) -> Seq<Seq<char>> {
        seq![self.kb_dir@] + texts(self.folders@).map_values(
            |f: Seq<char>| joined_path(f, "kb"@),
        )
    }

    /// Paths that scanning and watching must exclude: the KB directory and every folder's
    /// `kb` link.
    pub fn exclusion_paths(&self) -> (r: Vec<String>)
        ensures
            texts(r@) == self.exclusions(),
    {
        let ghost all = texts(self.folders@);
        let ghost f = |f: Seq<char>| joined_path(f, "kb"@);
        let mut paths: Vec<String> = Vec::new();
        paths.push(self.kb_dir.clone());
        let mut i: usize = 0;
        while i < self.folders.len()
            invariant
                i <= self.folders@.len(),
                all == texts(self.folders@),
                paths@.len() == i + 1,
                paths@[0]@ == self.kb_dir@,
                forall|k: int|
                    0 <= k < i ==> #[trigger] paths@[k + 1]@ == joined_path(all[k], "kb"@),
            decreases self.folders.len() - i,
        {
            paths.push(link_path(self.folders[i].as_str()));
            i = i + 1;
        }
        proof {
            let want = self.exclusions();
            let got = texts(paths@);
            assert forall|k: int| 0 <= k < got.len() implies #[trigger] got[k] == want[k] by {
                if k > 0 {
                    assert(paths@[(k - 1) + 1]@ == joined_path(all[k - 1], "kb"@));
                }
            }
            assert(got =~= want);
        }
        paths
    }
}

// ------------------------------------------------------------------------- slugs

/// Whether a character is an ASCII letter or digit.
pub open spec fn is_alnum(c: char) -> bool {
    ('0' <= c && c <= '9') || ('A' <= c && c <= 'Z') || ('a' <= c && c <= 'z')
}

/// The words of a text, in small letters, where `current` has been read of the first.
pub open spec fn words_from(s: Seq<char>, current: Seq<char>) -> Seq<Seq<char>>
    decreases s.len(),
{
    let done = if current.len() > 0 {
        seq![current]
    } else {
        Seq::empty()
    };
    if s.len() == 0 {
        done
    } else if is_alnum(s[0]) {
        words_from(s.drop_first(), current.push(lower_ascii(s[0])))
    } else {
        done + words_from(s.drop_first(), Seq::empty())
    }
}

/// The slug of a name: its words in small letters, joined by single dashes.
pub open spec fn slug(name: Seq<char>) -> Seq<char> {
    join(words_from(name, Seq::empty()), "-"@)
}

fn alnum(c: char) -> (r: bool)
    ensures
        r == is_alnum(c),
{
    ('0' <= c && c <= '9') || ('A' <= c && c <= 'Z') || ('a' <= c && c <= 'z')
}

/// Small letters, every run of other characters a single `-`, none at the edges.
pub fn slugify(name: &str) -> (r: String)
    ensures
        r@ == slug(name@),
{
    let cs = chars_of(name);
    let mut words: Vec<String> = Vec::new();
    let mut current: Vec<char> = Vec::new();
    let mut i: usize = 0;
    proof {
        assert(cs@.skip(0) =~= cs@);
        assert(texts(words@) + words_from(cs@.skip(0), current@) =~= words_from(
            cs@,
            Seq::empty(),
        ));
    }
    while i < cs.len()
        invariant
            i <= cs@.len(),
            texts(words@) + words_from(cs@.skip(i as int), current@) == words_from(
                cs@,
                Seq::empty(),
            ),
        decreases cs.len() - i,
    {
        let ghost before = words@;
        let ghost read = current@;
        assert(cs@.skip(i as int).drop_first() =~= cs@.skip(i + 1));
        if alnum(cs[i]) {
            current.push(to_lower_ascii(cs[i]));
        } else {
            if current.len() > 0 {
                words.push(string_of(current.as_slice()));
                assert(texts(words@) =~= texts(before).push(read));
                current = Vec::new();
            }
            proof {
                let done = if read.len() > 0 {
                    seq![read]
                } else {
                    Seq::empty()
                };
                let more = words_from(cs@.skip(i + 1), Seq::empty());
                assert(current@ =~= Seq::empty());
                assert(texts(words@) =~= texts(before) + done);
                assert(texts(before) + (done + more) =~= texts(before) + done + more);
            }
        }
        i = i + 1;
    }
    let ghost before = words@;
    if current.len() > 0 {
        words.push(string_of(current.as_slice()));
        assert(texts(words@) =~= texts(before) + seq![current@]);
    } else {
        assert(texts(words@) =~= texts(before) + Seq::empty());
    }
    joined(words.as_slice(), "-")
}

// ----------------------------------------------------------------------- folders

/// Whether a directory name is passed over in discovery.
pub open spec fn is_pruned_name(name: Seq<char>) -> bool {
    name == ".git"@ || name == "node_modules"@ || name == "target"@
}

/// Whether a directory name is passed over in discovery.
pub fn is_pruned_candidate(name: &str) -> (r: bool)
    ensures
        r == is_pruned_name(name@),
{
    same(name, ".git") || same(name, "node_modules") || same(name, "target")
}

/// Whether a path is that of a markdown document, whatever the case of its extension.
pub fn is_markdown_path(path: &str) -> (r: bool)
    ensures
        r == match extension_of(path@) {
            Some(e) => same_ignoring_case(e, "md"@) || same_ignoring_case(e, "mdx"@)
                || same_ignoring_case(e, "markdown"@),
            None => false,
        },
{
    match extension(path) {
        Some(e) => eq_ignore_case(e.as_str(), "md") || eq_ignore_case(e.as_str(), "mdx")
            || eq_ignore_case(e.as_str(), "markdown"),
        None => false,
    }
}

/// An entry of a directory that is searched for source folders.
#[derive(Debug)]
pub struct FolderEntry {
    /// The entry's name in its directory.
    pub file_name: String,
    /// Whether it is a directory (not where that cannot be told).
    pub is_dir: bool,
    /// Its canonical path.
    pub path: String,
    pub is_git_repo: bool,
    pub has_markdown: bool,
}

/// What a candidate says.
pub struct CandidateView {
    pub name: Seq<char>,
    pub path: Seq<char>,
    pub is_git_repo: bool,
    pub has_markdown: bool,
}

pub open spec fn candidate_view(c: WorkspaceFolderCandidate) -> CandidateView {
    CandidateView {
        name: c.name@,
        path: c.path@,
        is_git_repo: c.is_git_repo,
        has_markdown: c.has_markdown,
    }
}

/// What some candidates say.
pub open spec fn candidates_view(v: Seq<WorkspaceFolderCandidate>) -> Seq<CandidateView> {
    v.map_values(|c: WorkspaceFolderCandidate| candidate_view(c))
}

/// The natural order of two texts.
pub open spec fn text_order(a: Seq<char>, b: Seq<char>) -> Order {
    natural_order(encode_utf8(a), encode_utf8(b))
}

/// The order of candidates: by name, then by path.
pub open spec fn candidate_order(a: CandidateView, b: CandidateView) -> Order {
    if text_order(a.name, b.name) == Order::Same {
        text_order(a.path, b.path)
    } else {
        text_order(a.name, b.name)
    }
}

/// Where a candidate goes among sorted ones: before the first that stands behind it.
pub open spec fn place(sorted: Seq<CandidateView>, c: CandidateView, i: int) -> int
    decreases sorted.len() - i,
{
    if i < 0 || i >= sorted.len() {
        sorted.len() as int
    } else if candidate_order(c, sorted[i]) == Order::Before {
        i
    } else {
        place(sorted, c, i + 1)
    }
}

/// The candidate that an entry is: `None` for what is no directory, or is passed over.
pub open spec fn candidate_of(e: FolderEntry) -> Option<CandidateView> {
    if e.is_dir && !is_pruned_name(e.file_name@) {
        Some(
            CandidateView {
                name: match name_of(e.path@) {
                    Some(n) => n,
                    None => Seq::empty(),
                },
                path: e.path@,
                is_git_repo: e.is_git_repo,
                has_markdown: e.has_markdown,
            },
        )
    } else {
        None
    }
}

/// The candidates among some entries, sorted; of two that stand level the earlier comes
/// first.
pub open spec fn candidates_among(entries: Seq<FolderEntry>) -> Seq<CandidateView>
    decreases entries.len(),
{
    if entries.len() == 0 {
        Seq::empty()
    } else {
        let before = candidates_among(entries.drop_last());
        match candidate_of(entries.last()) {
            Some(c) => before.insert(place(before, c, 0), c),
            None => before,
        }
    }
}

proof fn lemma_place(sorted: Seq<CandidateView>, c: CandidateView, i: int)
    requires
        0 <= i <= sorted.len(),
    ensures
        i <= place(sorted, c, i) <= sorted.len(),
        forall|k: int|
            i <= k < place(sorted, c, i) ==> candidate_order(c, #[trigger] sorted[k])
                != Order::Before,
        place(sorted, c, i) < sorted.len() ==> candidate_order(c, sorted[place(sorted, c, i)])
            == Order::Before,
    decreases sorted.len() - i,
{
    if i < sorted.len() && candidate_order(c, sorted[i]) != Order::Before {
        lemma_place(sorted, c, i + 1);
    }
}

fn order_of(a: &WorkspaceFolderCandidate, b: &WorkspaceFolderCandidate) -> (r: Order)
    ensures
        r == candidate_order(candidate_view(*a), candidate_view(*b)),
{
    match alphanumeric_order(a.name.as_str(), b.name.as_str()) {
        Order::Same => alphanumeric_order(a.path.as_str(), b.path.as_str()),
        other => other,
    }
}

/// The candidate source folders among the entries of a directory: its directories but for
/// those that are passed over, in natural order of their names, then of their paths.
pub fn discover_folder_candidates(entries: &Vec<FolderEntry>) -> (r: Vec<
    WorkspaceFolderCandidate,
>)
    ensures
        candidates_view(r@) == candidates_among(entries@),
{
    let mut out: Vec<WorkspaceFolderCandidate> = Vec::new();
    let mut i: usize = 0;
    proof {
        assert(entries@.take(0) =~= Seq::empty());
        assert(candidates_view(out@) =~= Seq::empty());
    }
    while i < entries.len()
        invariant
            i <= entries@.len(),
            candidates_view(out@) == candidates_among(entries@.take(i as int)),
        decreases entries.len() - i,
    {
        let e = &entries[i];
        let ghost sorted = candidates_view(out@);
        proof {
            assert(entries@.take(i + 1).drop_last() =~= entries@.take(i as int));
            assert(entries@.take(i + 1).last() == *e);
            assert(sorted.len() == out@.len());
        }
        if e.is_dir && !is_pruned_candidate(e.file_name.as_str()) {
            let name = match file_name(e.path.as_str()) {
                Some(n) => n,
                None => String::new(),
            };
            let c = WorkspaceFolderCandidate {
                name,
                path: e.path.clone(),
                is_git_repo: e.is_git_repo,
                has_markdown: e.has_markdown,
            };
            let ghost view = candidate_view(c);
            let mut at: usize = 0;
            loop
                invariant
                    at <= out@.len(),
                    sorted == candidates_view(out@),
                    sorted.len() == out@.len(),
                    view == candidate_view(c),
                    place(sorted, view, 0) == place(sorted, view, at as int),
                ensures
                    at == place(sorted, view, 0),
                    at <= out@.len(),
                decreases out@.len() - at,
            {
                if at >= out.len() {
                    break ;
                }
                let o = order_of(&c, &out[at]);
                assert(sorted[at as int] == candidate_view(out@[at as int]));
                match o {
                    Order::Before => {
                        break ;
                    },
                    _ => {},
                }
                at = at + 1;
            }
            let ghost before = out@;
            out.insert(at, c);
            assert(candidates_view(out@) =~= sorted.insert(at as int, view));
        }
        i = i + 1;
    }
    assert(entries@.take(entries@.len() as int) =~= entries@);
    out
}

proof fn lemma_candidate_order(a: CandidateView, b: CandidateView, c: CandidateView)
    ensures
        candidate_order(a, b) != Order::After && candidate_order(b, c) != Order::After
            ==> candidate_order(a, c) != Order::After,
        candidate_order(a, b) == Order::Before ==> candidate_order(b, a) == Order::After,
        candidate_order(a, b) != Order::Before ==> candidate_order(b, a) != Order::After,
{
    let (x, y, z) = (encode_utf8(a.name), encode_utf8(b.name), encode_utf8(c.name));
    let (p, q, r) = (encode_utf8(a.path), encode_utf8(b.path), encode_utf8(c.path));
    natural_order_is_symmetric(x, y);
    natural_order_is_symmetric(y, z);
    natural_order_is_symmetric(x, z);
    natural_order_is_symmetric(p, q);
    natural_order_is_symmetric(q, r);
    if natural_order(x, y) != Order::After && natural_order(y, z) != Order::After {
        natural_order_is_transitive(x, y, z);
    }
    if natural_order(p, q) != Order::After && natural_order(q, r) != Order::After {
        natural_order_is_transitive(p, q, r);
    }
}

/// Candidates come sorted: none stands behind one that follows it.
pub proof fn candidates_are_sorted(entries: Seq<FolderEntry>, i: int, j: int)
    requires
        0 <= i < j < candidates_among(entries).len(),
    ensures
        candidate_order(candidates_among(entries)[i], candidates_among(entries)[j])
            != Order::After,
    decreases entries.len(),
{
    let rest = entries.drop_last();
    let before = candidates_among(rest);
    let now = candidates_among(entries);
    match candidate_of(entries.last()) {
        Some(c) => {
            lemma_place(before, c, 0);
            let at = place(before, c, 0);
            let x = if i < at {
                i
            } else {
                i - 1
            };
            let y = if j < at {
                j
            } else {
                j - 1
            };
            if i == at {
                assert(now[j] == before[y]);
                lemma_candidate_order(c, before[at], before[y]);
                if y > at {
                    candidates_are_sorted(rest, at, y);
                }
            } else if j == at {
                assert(now[i] == before[x]);
                lemma_candidate_order(c, before[x], c);
            } else {
                assert(now[i] == before[x] && now[j] == before[y]);
                candidates_are_sorted(rest, x, y);
            }
        },
        None => {
            candidates_are_sorted(rest, i, j);
        },
    }
}

/// The candidates are the directories that are not passed over, each of them and no other.
pub proof fn candidates_are_the_directories(entries: Seq<FolderEntry>)
    ensures
        forall|c: CandidateView|
            #[trigger] candidates_among(entries).contains(c) == exists|i: int|
                0 <= i < entries.len() && candidate_of(#[trigger] entries[i]) == Some(c),
    decreases entries.len(),
{
    let now = candidates_among(entries);
    if entries.len() > 0 {
        let rest = entries.drop_last();
        let before = candidates_among(rest);
        candidates_are_the_directories(rest);
        assert forall|c: CandidateView|
            #[trigger] now.contains(c) == exists|i: int|
                0 <= i < entries.len() && candidate_of(#[trigger] entries[i]) == Some(c) by {
            let found = exists|i: int|
                0 <= i < rest.len() && candidate_of(#[trigger] rest[i]) == Some(c);
            assert(before.contains(c) == found);
            if found {
                let i = choose|i: int|
                    0 <= i < rest.len() && candidate_of(#[trigger] rest[i]) == Some(c);
                assert(candidate_of(entries[i]) == Some(c));
            }
            assert(entries[entries.len() - 1] == entries.last());
            if exists|i: int|
                0 <= i < entries.len() && candidate_of(#[trigger] entries[i]) == Some(c) {
                let i = choose|i: int|
                    0 <= i < entries.len() && candidate_of(#[trigger] entries[i]) == Some(c);
                if i < rest.len() {
                    assert(candidate_of(rest[i]) == Some(c));
                }
            }
            if let Some(x) = candidate_of(entries.last()) {
                lemma_place(before, x, 0);
                let at = place(before, x, 0);
                assert(now[at] == x);
                if before.contains(c) {
                    let k = choose|k: int| 0 <= k < before.len() && before[k] == c;
                    let n = if k < at {
                        k
                    } else {
                        k + 1
                    };
                    assert(now[n] == c);
                }
                if now.contains(c) && c != x {
                    let n = choose|n: int| 0 <= n < now.len() && now[n] == c;
                    let k = if n < at {
                        n
                    } else {
                        n - 1
                    };
                    assert(before[k] == c);
                }
            }
        }
    }
}

// -------------------------------------------------------------------- collection

/// The index of the first workspace with an id; the number of workspaces where there is
/// none.
pub open spec fn index_of_id(ws: Seq<Workspace>, id: Seq<char>, i: int) -> int
    decreases ws.len() - i,
{
    if i < 0 || i >= ws.len() {
        ws.len() as int
    } else if ws[i].id.0@ == id {
        i
    } else {
        index_of_id(ws, id, i + 1)
    }
}

/// Whether a workspace has an id.
pub open spec fn is_taken(ws: Seq<Workspace>, id: Seq<char>) -> bool {
    exists|i: int| 0 <= i < ws.len() && (#[trigger] ws[i]).id.0@ == id
}

/// Whether no two workspaces have one id.
pub open spec fn ids_unique(ws: Seq<Workspace>) -> bool {
    forall|i: int, j: int|
        0 <= i < j < ws.len() ==> (#[trigger] ws[i]).id.0@ != (#[trigger] ws[j]).id.0@
}

/// The workspaces without those that have an id.
pub open spec fn without_id(ws: Seq<Workspace>, id: Seq<char>) -> Seq<Workspace>
    decreases ws.len(),
{
    if ws.len() == 0 {
        ws
    } else if ws.last().id.0@ == id {
        without_id(ws.drop_last(), id)
    } else {
        without_id(ws.drop_last(), id).push(ws.last())
    }
}

/// The sync configurations without those of a folder.
pub open spec fn without_folder(cfgs: Seq<SyncFolderConfig>, folder: Seq<char>) -> Seq<
    SyncFolderConfig,
>
    decreases cfgs.len(),
{
    if cfgs.len() == 0 {
        cfgs
    } else if cfgs.last().folder@ == folder {
        without_folder(cfgs.drop_last(), folder)
    } else {
        without_folder(cfgs.drop_last(), folder).push(cfgs.last())
    }
}

/// The sync configurations with that of one folder set: replaced, or taken out where it
/// is disabled.
pub open spec fn with_sync(cfgs: Seq<SyncFolderConfig>, cfg: SyncFolderConfig) -> Seq<
    SyncFolderConfig,
> {
    let others = without_folder(cfgs, cfg.folder@);
    if cfg.enabled {
        others.push(cfg)
    } else {
        others
    }
}

/// What the id of a workspace starts from: the slug of its name.
pub open spec fn base_id(name: Seq<char>) -> Seq<char> {
    if slug(name).len() == 0 {
        "workspace"@
    } else {
        slug(name)
    }
}

/// The `n`th id of a name: the base alone, then with the numbers from two on behind it.
pub open spec fn nth_id(base: Seq<char>, n: nat) -> Seq<char> {
    if n <= 1 {
        base
    } else {
        base + "-"@ + decimal(n)
    }
}

/// Whether an id is the first of a name that is free.
pub open spec fn is_first_free(ws: Seq<Workspace>, base: Seq<char>, id: Seq<char>) -> bool {
    exists|n: nat|
        1 <= n && id == #[trigger] nth_id(base, n) && !is_taken(ws, id) && forall|m: nat|
            1 <= m < n ==> is_taken(ws, #[trigger] nth_id(base, m))
}

/// The workspace that is created with a name: everything else has its default.
pub open spec fn created_as(
    w: Workspace,
    id: Seq<char>,
    name: Seq<char>,
    folders: Vec<String>,
    kb_dir: Seq<char>,
    linking: LinkingConfig,
) -> bool {
    &&& w.id.0@ == id
    &&& w.name@ == name
    &&& w.folders == folders
    &&& w.kb_dir@ == kb_dir
    &&& w.html_cache_size == 50
    &&& w.sync@.len() == 0
    &&& w.backend == KbBackend::Okf
    &&& w.enrichment == (EnrichmentConfig {
        enabled: false,
        api_key_source: crate::ipc::EnrichmentApiKeySource::Env,
        enrich_after_scan: false,
        embedding_backend: crate::ipc::EmbeddingBackend::Local,
    })
    &&& w.linking == linking
    &&& texts(w.watched_extensions@) == seq!["md"@]
}

proof fn lemma_index_of_id(ws: Seq<Workspace>, id: Seq<char>, i: int)
    requires
        0 <= i <= ws.len(),
    ensures
        i <= index_of_id(ws, id, i) <= ws.len(),
        index_of_id(ws, id, i) < ws.len() ==> ws[index_of_id(ws, id, i)].id.0@ == id,
        forall|k: int| i <= k < index_of_id(ws, id, i) ==> (#[trigger] ws[k]).id.0@ != id,
    decreases ws.len() - i,
{
    if i < ws.len() && ws[i].id.0@ != id {
        lemma_index_of_id(ws, id, i + 1);
    }
}

/// There are no more different ids taken than workspaces.
proof fn lemma_ids_run_out(ws: Seq<Workspace>, base: Seq<char>, n: nat)
    requires
        1 <= n,
        forall|m: nat| 1 <= m < n ==> is_taken(ws, #[trigger] nth_id(base, m)),
    ensures
        n - 1 <= ws.len(),
{
    reveal_strlit("-");
    let ids = ws.map_values(|w: Workspace| w.id.0@);
    let tried = Seq::new((n - 1) as nat, |i: int| nth_id(base, (i + 1) as nat));
    assert forall|i: int, j: int| 0 <= i < j < tried.len() implies tried[i] != tried[j] by {
        let (a, b) = ((i + 1) as nat, (j + 1) as nat);
        if tried[i] == tried[j] {
            let y = nth_id(base, b);
            assert(y.skip(base.len() as int + 1) =~= decimal(b));
            if a > 1 {
                let x = nth_id(base, a);
                assert(x.skip(base.len() as int + 1) =~= decimal(a));
                lemma_decimal_injective(a, b);
            } else {
                assert(y.len() > base.len());
            }
        }
    }
    assert(tried.no_duplicates());
    tried.unique_seq_to_set();
    ids.lemma_cardinality_of_set();
    vstd::seq_lib::seq_to_set_is_finite(ids);
    assert forall|s: Seq<char>| tried.to_set().contains(s) implies ids.to_set().contains(s) by {
        let i = choose|i: int| 0 <= i < tried.len() && tried[i] == s;
        let m = (i + 1) as nat;
        assert(is_taken(ws, nth_id(base, m)));
        let k = choose|k: int| 0 <= k < ws.len() && (#[trigger] ws[k]).id.0@ == s;
        assert(ids[k] == s);
    }
    vstd::set_lib::lemma_len_subset(tried.to_set(), ids.to_set());
}

/// A collection of workspaces.
pub struct WorkspaceStore {
    pub workspaces: Vec<Workspace>,
}

impl WorkspaceStore {
    /// A store of workspaces that were loaded.
    pub fn open(workspaces: Vec<Workspace>) -> (r: Self)
        ensures
            r.workspaces == workspaces,
    {
        WorkspaceStore { workspaces }
    }

    /// All workspaces.
    pub fn list(&self) -> (r: &Vec<Workspace>)
        ensures
            *r == self.workspaces,
    {
        &self.workspaces
    }

    fn find(&self, id: &WorkspaceId) -> (r: usize)
        ensures
            r == index_of_id(self.workspaces@, id.0@, 0),
            r <= self.workspaces@.len(),
    {
        let mut i: usize = 0;
        while i < self.workspaces.len()
            invariant
                i <= self.workspaces@.len(),
                index_of_id(self.workspaces@, id.0@, 0) == index_of_id(
                    self.workspaces@,
                    id.0@,
                    i as int,
                ),
            decreases self.workspaces.len() - i,
        {
            if same(self.workspaces[i].id.0.as_str(), id.0.as_str()) {
                return i;
            }
            i = i + 1;
        }
        i
    }

    /// Looks up a workspace by id.
    pub fn get(&self, id: &WorkspaceId) -> (r: Option<&Workspace>)
        ensures
            r is Some == is_taken(self.workspaces@, id.0@),
            r matches Some(w) ==> *w == self.workspaces@[index_of_id(self.workspaces@, id.0@, 0)],
    {
        let i: usize = self.find(id);
        proof {
            lemma_index_of_id(self.workspaces@, id.0@, 0);
        }
        if i < self.workspaces.len() {
            Some(&self.workspaces[i])
        } else {
            None
        }
    }

    fn id_taken(&self, id: &str) -> (r: bool)
        ensures
            r == is_taken(self.workspaces@, id@),
    {
        let mut i: usize = 0;
        while i < self.workspaces.len()
            invariant
                i <= self.workspaces@.len(),
                forall|k: int| 0 <= k < i ==> (#[trigger] self.workspaces@[k]).id.0@ != id@,
            decreases self.workspaces.len() - i,
        {
            if same(self.workspaces[i].id.0.as_str(), id) {
                assert(self.workspaces@[i as int].id.0@ == id@);
                return true;
            }
            i = i + 1;
        }
        false
    }

    /// The first id of a name that no workspace has.
    pub fn unique_id(&self, name: &str) -> (r: WorkspaceId)
        requires
            self.workspaces@.len() < usize::MAX - 2,
        ensures
            is_first_free(self.workspaces@, base_id(name@), r.0@),
    {
        let s = slugify(name);
        let base = if chars_of(s.as_str()).len() == 0 {
            "workspace".to_owned()
        } else {
            s
        };
        let ghost ws = self.workspaces@;
        if !self.id_taken(base.as_str()) {
            assert(base@ == nth_id(base@, 1));
            return WorkspaceId(base);
        }
        let mut n: usize = 2;
        assert(nth_id(base@, 1) == base@);
        loop
            invariant
                ws == self.workspaces@,
                ws.len() < usize::MAX - 2,
                2 <= n,
                n - 1 <= ws.len() + 1,
                base@ == base_id(name@),
                forall|m: nat| 1 <= m < n ==> is_taken(ws, #[trigger] nth_id(base@, m)),
            decreases ws.len() + 2 - n,
        {
            proof {
                lemma_ids_run_out(ws, base@, n as nat);
            }
            let mut candidate = base.clone();
            candidate.append("-");
            candidate.append(decimal_of(n as u64).as_str());
            assert(candidate@ == nth_id(base@, n as nat));
            if !self.id_taken(candidate.as_str()) {
                return WorkspaceId(candidate);
            }
            proof {
                assert forall|m: nat| 1 <= m < n + 1 implies is_taken(
                    ws,
                    #[trigger] nth_id(base@, m),
                ) by {
                    if m == n {
                    }
                }
                lemma_ids_run_out(ws, base@, (n + 1) as nat);
            }
            n = n + 1;
        }
    }

    /// Creates a workspace, returning its assigned id.
    pub fn create(&mut self, name: String, folders: Vec<String>, kb_dir: String) -> (r: WorkspaceId)
        requires
            old(self).workspaces@.len() < usize::MAX - 2,
        ensures
            is_first_free(old(self).workspaces@, base_id(name@), r.0@),
            final(self).workspaces@.len() == old(self).workspaces@.len() + 1,
            final(self).workspaces@.drop_last() == old(self).workspaces@,
            exists|linking: LinkingConfig|
                linking.specs_folders@.len() == 0 && linking.links@.len() == 0 && #[trigger] created_as(
                    final(self).workspaces@.last(),
                    r.0@,
                    name@,
                    folders,
                    kb_dir@,
                    linking,
                ),
    {
        let linking = LinkingConfig::default();
        self.create_with_linking(name, folders, kb_dir, linking)
    }

    /// Creates a workspace with its linking configuration, returning its id.
    pub fn create_with_linking(
        &mut self,
        name: String,
        folders: Vec<String>,
        kb_dir: String,
        linking: LinkingConfig,
    ) -> (r: WorkspaceId)
        requires
            old(self).workspaces@.len() < usize::MAX - 2,
        ensures
            is_first_free(old(self).workspaces@, base_id(name@), r.0@),
            final(self).workspaces@.len() == old(self).workspaces@.len() + 1,
            final(self).workspaces@.drop_last() == old(self).workspaces@,
            created_as(
                final(self).workspaces@.last(),
                r.0@,
                name@,
                folders,
                kb_dir@,
                linking,
            ),
    {
        let id = self.unique_id(name.as_str());
        let mut watched_extensions: Vec<String> = Vec::new();
        watched_extensions.push("md".to_owned());
        assert(texts(watched_extensions@) =~= seq!["md"@]);
        let w = Workspace {
            id: id.clone(),
            name,
            folders,
            kb_dir,
            html_cache_size: DEFAULT_HTML_CACHE_SIZE,
            sync: Vec::new(),
            backend: KbBackend::Okf,
            enrichment: EnrichmentConfig::default(),
            linking,
            watched_extensions,
        };
        self.workspaces.push(w);
        assert(self.workspaces@.drop_last() =~= old(self).workspaces@);
        id
    }

    fn locate(&self, id: &WorkspaceId) -> (r: Result<usize, WorkspaceError>)
        ensures
            match r {
                Ok(i) => i == index_of_id(self.workspaces@, id.0@, 0) && i
                    < self.workspaces@.len() && is_taken(self.workspaces@, id.0@),
                Err(e) => !is_taken(self.workspaces@, id.0@) && (e matches WorkspaceError::NotFound(
                    s,
                ) && s@ == id.0@),
            },
    {
        let i: usize = self.find(id);
        proof {
            lemma_index_of_id(self.workspaces@, id.0@, 0);
        }
        if i < self.workspaces.len() {
            Ok(i)
        } else {
            Err(WorkspaceError::NotFound(id.0.clone()))
        }
    }

    /// Whether setting something of the workspace with an id gave a result: it is refused
    /// where there is none, and else its first workspace is `changed`.
    pub open spec fn set_at(
        before: Seq<Workspace>,
        after: Seq<Workspace>,
        id: Seq<char>,
        changed: spec_fn(Workspace) -> Workspace,
        result: Result<(), WorkspaceError>,
    ) -> bool {
        let i = index_of_id(before, id, 0);
        match result {
            Ok(()) => is_taken(before, id) && after == before.update(i, changed(before[i])),
            Err(e) => !is_taken(before, id) && after == before && (e matches WorkspaceError::NotFound(
                s,
            ) && s@ == id),
        }
    }

    /// Renames a workspace (its id is unchanged).
    pub fn rename(&mut self, id: &WorkspaceId, name: String) -> (r: Result<(), WorkspaceError>)
        ensures
            Self::set_at(
                old(self).workspaces@,
                final(self).workspaces@,
                id.0@,
                |w: Workspace| Workspace { name, ..w },
                r,
            ),
    {
        match self.locate(id) {
            Ok(i) => {
                self.workspaces[i].name = name;
                Ok(())
            },
            Err(e) => Err(e),
        }
    }

    /// Replaces a workspace's folders.
    pub fn set_folders(&mut self, id: &WorkspaceId, folders: Vec<String>) -> (r: Result<
        (),
        WorkspaceError,
    >)
        ensures
            Self::set_at(
                old(self).workspaces@,
                final(self).workspaces@,
                id.0@,
                |w: Workspace| Workspace { folders, ..w },
                r,
            ),
    {
        match self.locate(id) {
            Ok(i) => {
                self.workspaces[i].folders = folders;
                Ok(())
            },
            Err(e) => Err(e),
        }
    }

    /// Sets a workspace's document-viewer cache size.
    pub fn set_html_cache_size(&mut self, id: &WorkspaceId, size: usize) -> (r: Result<
        (),
        WorkspaceError,
    >)
        ensures
            Self::set_at(
                old(self).workspaces@,
                final(self).workspaces@,
                id.0@,
                |w: Workspace| Workspace { html_cache_size: size, ..w },
                r,
            ),
    {
        match self.locate(id) {
            Ok(i) => {
                self.workspaces[i].html_cache_size = size;
                Ok(())
            },
            Err(e) => Err(e),
        }
    }

    /// Sets a workspace's enrichment configuration.
    pub fn set_enrichment_config(&mut self, id: &WorkspaceId, config: EnrichmentConfig) -> (r:
        Result<(), WorkspaceError>)
        ensures
            Self::set_at(
                old(self).workspaces@,
                final(self).workspaces@,
                id.0@,
                |w: Workspace| Workspace { enrichment: config, ..w },
                r,
            ),
    {
        match self.locate(id) {
            Ok(i) => {
                self.workspaces[i].enrichment = config;
                Ok(())
            },
            Err(e) => Err(e),
        }
    }

    /// Sets a workspace's linking configuration.
    pub fn set_linking_config(&mut self, id: &WorkspaceId, config: LinkingConfig) -> (r: Result<
        (),
        WorkspaceError,
    >)
        ensures
            Self::set_at(
                old(self).workspaces@,
                final(self).workspaces@,
                id.0@,
                |w: Workspace| Workspace { linking: config, ..w },
                r,
            ),
    {
        match self.locate(id) {
            Ok(i) => {
                self.workspaces[i].linking = config;
                Ok(())
            },
            Err(e) => Err(e),
        }
    }

    /// Sets a folder's sync configuration; a disabled one is taken out, so that a disabled
    /// folder leaves no trace.
    pub fn set_folder_sync_config(&mut self, id: &WorkspaceId, cfg: SyncFolderConfig) -> (r:
        Result<(), WorkspaceError>)
        ensures
            match r {
                Ok(()) => {
                    let i = index_of_id(old(self).workspaces@, id.0@, 0);
                    let was = old(self).workspaces@[i];
                    let now = final(self).workspaces@[i];
                    &&& is_taken(old(self).workspaces@, id.0@)
                    &&& final(self).workspaces@ == old(self).workspaces@.update(i, now)
                    &&& now == Workspace { sync: now.sync, ..was }
                    &&& now.sync@ == with_sync(was.sync@, cfg)
                },
                Err(e) => !is_taken(old(self).workspaces@, id.0@) && final(self).workspaces@ == old(
                    self,
                ).workspaces@ && (e matches WorkspaceError::NotFound(s) && s@ == id.0@),
            },
    {
        match self.locate(id) {
            Ok(i) => {
                let mut kept = remove_folder(&self.workspaces[i].sync, cfg.folder.as_str());
                if cfg.enabled {
                    kept.push(cfg);
                }
                self.workspaces[i].sync = kept;
                Ok(())
            },
            Err(e) => Err(e),
        }
    }

    /// Removes a workspace.
    pub fn remove(&mut self, id: &WorkspaceId) -> (r: Result<(), WorkspaceError>)
        ensures
            final(self).workspaces@ == without_id(old(self).workspaces@, id.0@),
            r is Ok == is_taken(old(self).workspaces@, id.0@),
            r matches Err(e) ==> (e matches WorkspaceError::NotFound(s) && s@ == id.0@)
                && final(self).workspaces@ == old(self).workspaces@,
    {
        let ghost all = self.workspaces@;
        let mut i: usize = 0;
        let ghost mut k: int = 0;
        let mut found = false;
        proof {
            assert(all.take(0) =~= Seq::empty());
            assert(self.workspaces@.take(0) =~= Seq::empty());
            assert(all.skip(0) =~= all);
            assert(self.workspaces@.skip(0) =~= all);
        }
        while i < self.workspaces.len()
            invariant
                i <= self.workspaces@.len(),
                0 <= k <= all.len(),
                self.workspaces@.take(i as int) == without_id(all.take(k), id.0@),
                self.workspaces@.skip(i as int) == all.skip(k),
                found == is_taken(all.take(k), id.0@),
                !found ==> i == k && self.workspaces@ == all,
            decreases self.workspaces@.len() - i,
        {
            let ghost now = self.workspaces@;
            proof {
                assert(now.skip(i as int).len() == all.skip(k).len());
                assert(k < all.len());
                assert(now.skip(i as int)[0] == now[i as int]);
                assert(all.skip(k)[0] == all[k]);
                assert(all.take(k + 1).drop_last() =~= all.take(k));
                assert(all.take(k + 1).last() == all[k]);
                if is_taken(all.take(k), id.0@) {
                    let n = choose|n: int|
                        0 <= n < all.take(k).len() && (#[trigger] all.take(k)[n]).id.0@ == id.0@;
                    assert(all.take(k + 1)[n].id.0@ == id.0@);
                }
                assert(all.skip(k).drop_first() =~= all.skip(k + 1));
            }
            if same(self.workspaces[i].id.0.as_str(), id.0.as_str()) {
                let gone = self.workspaces.remove(i);
                found = true;
                proof {
                    assert(all.take(k + 1)[k].id.0@ == id.0@);
                    assert(self.workspaces@.take(i as int) =~= now.take(i as int));
                    assert(self.workspaces@.skip(i as int) =~= now.skip(i as int).drop_first());
                }
            } else {
                i = i + 1;
                proof {
                    assert(self.workspaces@.take(i as int) =~= now.take(i - 1).push(now[i - 1]));
                    assert(self.workspaces@.skip(i as int) =~= now.skip(i - 1).drop_first());
                    if is_taken(all.take(k + 1), id.0@) {
                        let n = choose|n: int|
                            0 <= n < all.take(k + 1).len() && (#[trigger] all.take(k + 1)[n]).id.0@
                                == id.0@;
                        assert(all.take(k)[n].id.0@ == id.0@);
                    }
                }
            }
            proof {
                k = k + 1;
            }
        }
        proof {
            assert(self.workspaces@.skip(i as int).len() == 0);
            assert(all.skip(k).len() == 0);
            assert(all.take(k) =~= all);
            assert(self.workspaces@.take(i as int) =~= self.workspaces@);
        }
        if found {
            Ok(())
        } else {
            Err(WorkspaceError::NotFound(id.0.clone()))
        }
    }
}

/// The sync configurations without those of a folder.
pub fn remove_folder(cfgs: &Vec<SyncFolderConfig>, folder: &str) -> (r: Vec<SyncFolderConfig>)
    ensures
        r@ == without_folder(cfgs@, folder@),
{
    let mut out: Vec<SyncFolderConfig> = Vec::new();
    let mut i: usize = 0;
    assert(cfgs@.take(0) =~= Seq::empty());
    while i < cfgs.len()
        invariant
            i <= cfgs@.len(),
            out@ == without_folder(cfgs@.take(i as int), folder@),
        decreases cfgs.len() - i,
    {
        proof {
            assert(cfgs@.take(i + 1).drop_last() =~= cfgs@.take(i as int));
            assert(cfgs@.take(i + 1).last() == cfgs@[i as int]);
        }
        if !same(cfgs[i].folder.as_str(), folder) {
            out.push(cfgs[i].clone());
        }
        i = i + 1;
    }
    assert(cfgs@.take(cfgs@.len() as int) =~= cfgs@);
    out
}

// -------------------------------------------------------------------------- laws

/// Creating a workspace keeps ids unique.
pub proof fn creating_keeps_ids_unique(before: Seq<Workspace>, after: Seq<Workspace>, name: Seq<char>)
    requires
        ids_unique(before),
        after.len() == before.len() + 1,
        after.drop_last() == before,
        is_first_free(before, base_id(name), after.last().id.0@),
    ensures
        ids_unique(after),
{
    assert forall|i: int, j: int| 0 <= i < j < after.len() implies (#[trigger] after[i]).id.0@ != (
    #[trigger] after[j]).id.0@ by {
        assert(before[i] == after[i]);
        if j < before.len() {
            assert(before[j] == after[j]);
        } else {
            assert(!is_taken(before, after.last().id.0@));
        }
    }
}

/// Setting something of a workspace changes no other, and no id.
pub proof fn setting_keeps_ids(
    before: Seq<Workspace>,
    i: int,
    now: Workspace,
)
    requires
        0 <= i < before.len(),
        now.id == before[i].id,
    ensures
        before.update(i, now).len() == before.len(),
        forall|k: int|
            0 <= k < before.len() ==> (#[trigger] before.update(i, now)[k]).id == before[k].id,
        ids_unique(before) ==> ids_unique(before.update(i, now)),
{
    let after = before.update(i, now);
    if ids_unique(before) {
        assert forall|a: int, b: int| 0 <= a < b < after.len() implies (#[trigger] after[a]).id.0@
            != (#[trigger] after[b]).id.0@ by {
            assert(before[a].id.0@ != before[b].id.0@);
        }
    }
}

/// After a removal no workspace has the id, and the others are as they were.
pub proof fn removing_leaves_the_others(ws: Seq<Workspace>, id: Seq<char>)
    ensures
        !is_taken(without_id(ws, id), id),
        forall|w: Workspace|
            #[trigger] without_id(ws, id).contains(w) <==> ws.contains(w) && w.id.0@ != id,
    decreases ws.len(),
{
    if ws.len() > 0 {
        let rest = ws.drop_last();
        let last = ws.last();
        removing_leaves_the_others(rest, id);
        let out = without_id(ws, id);
        let before = without_id(rest, id);
        assert forall|w: Workspace| #[trigger] out.contains(w) <==> ws.contains(w) && w.id.0@
            != id by {
            assert(before.contains(w) <==> rest.contains(w) && w.id.0@ != id);
            if ws.contains(w) {
                let i = choose|i: int| 0 <= i < ws.len() && ws[i] == w;
                if i < rest.len() {
                    assert(rest[i] == w);
                }
            }
            if rest.contains(w) {
                let i = choose|i: int| 0 <= i < rest.len() && rest[i] == w;
                assert(ws[i] == w);
            }
            if before.contains(w) {
                let i = choose|i: int| 0 <= i < before.len() && before[i] == w;
                assert(out[i] == w);
            }
            if last.id.0@ != id {
                assert(out[before.len() as int] == last);
                if out.contains(w) {
                    let i = choose|i: int| 0 <= i < out.len() && out[i] == w;
                    if i < before.len() {
                        assert(before[i] == w);
                    }
                }
            }
            assert(ws[ws.len() - 1] == last);
        }
        if is_taken(out, id) {
            let i = choose|i: int| 0 <= i < out.len() && (#[trigger] out[i]).id.0@ == id;
            assert(out.contains(out[i]));
        }
    }
}

/// A folder's sync configuration is what was set last; one that is disabled leaves no
/// trace, and other folders keep theirs.
pub proof fn sync_configuration_is_what_was_set(
    cfgs: Seq<SyncFolderConfig>,
    cfg: SyncFolderConfig,
    c: SyncFolderConfig,
)
    ensures
        with_sync(cfgs, cfg).contains(c) <==> if c.folder@ == cfg.folder@ {
            cfg.enabled && c == cfg
        } else {
            cfgs.contains(c)
        },
{
    lemma_without_folder(cfgs, cfg.folder@, c);
    let others = without_folder(cfgs, cfg.folder@);
    if cfg.enabled {
        let out = others.push(cfg);
        if others.contains(c) {
            let i = choose|i: int| 0 <= i < others.len() && others[i] == c;
            assert(out[i] == c);
        }
        assert(out[others.len() as int] == cfg);
        if out.contains(c) {
            let i = choose|i: int| 0 <= i < out.len() && out[i] == c;
            if i < others.len() {
                assert(others[i] == c);
            }
        }
    }
}

proof fn lemma_without_folder(
    cfgs: Seq<SyncFolderConfig>,
    folder: Seq<char>,
    c: SyncFolderConfig,
)
    ensures
        without_folder(cfgs, folder).contains(c) <==> cfgs.contains(c) && c.folder@ != folder,
    decreases cfgs.len(),
{
    if cfgs.len() > 0 {
        let rest = cfgs.drop_last();
        let last = cfgs.last();
        lemma_without_folder(rest, folder, c);
        let out = without_folder(cfgs, folder);
        let before = without_folder(rest, folder);
        if cfgs.contains(c) {
            let i = choose|i: int| 0 <= i < cfgs.len() && cfgs[i] == c;
            if i < rest.len() {
                assert(rest[i] == c);
            }
        }
        if rest.contains(c) {
            let i = choose|i: int| 0 <= i < rest.len() && rest[i] == c;
            assert(cfgs[i] == c);
        }
        if before.contains(c) {
            let i = choose|i: int| 0 <= i < before.len() && before[i] == c;
            assert(out[i] == c);
        }
        if last.folder@ != folder {
            assert(out[before.len() as int] == last);
            if out.contains(c) {
                let i = choose|i: int| 0 <= i < out.len() && out[i] == c;
                if i < before.len() {
                    assert(before[i] == c);
                }
            }
        }
        assert(cfgs[cfgs.len() - 1] == last);
    }
}

/// Whether a character may stand in a slug word: a small letter or a digit.
pub open spec fn is_word_char(c: char) -> bool {
    ('0' <= c && c <= '9') || ('a' <= c && c <= 'z')
}

/// Whether a text is a word of a slug.
pub open spec fn is_word(w: Seq<char>) -> bool {
    w.len() > 0 && forall|i: int| 0 <= i < w.len() ==> is_word_char(#[trigger] w[i])
}

proof fn lemma_words(s: Seq<char>, current: Seq<char>)
    requires
        forall|i: int| 0 <= i < current.len() ==> is_word_char(#[trigger] current[i]),
    ensures
        forall|k: int|
            0 <= k < words_from(s, current).len() ==> is_word(#[trigger] words_from(s, current)[k]),
    decreases s.len(),
{
    if s.len() == 0 {
        if current.len() > 0 {
            assert(words_from(s, current) =~= seq![current]);
            assert(is_word(current));
        } else {
            assert(words_from(s, current) =~= Seq::empty());
        }
    } else {
        if is_alnum(s[0]) {
            let next = current.push(lower_ascii(s[0]));
            assert(is_word_char(lower_ascii(s[0])));
            assert(words_from(s, current) == words_from(s.drop_first(), next));
            assert forall|i: int| 0 <= i < next.len() implies is_word_char(#[trigger] next[i]) by {
                if i < current.len() {
                    assert(next[i] == current[i]);
                }
            }
            lemma_words(s.drop_first(), next);
        } else {
            lemma_words(s.drop_first(), Seq::empty());
            let done = if current.len() > 0 {
                seq![current]
            } else {
                Seq::empty()
            };
            let more = words_from(s.drop_first(), Seq::empty());
            let all = words_from(s, current);
            assert(all =~= done + more);
            assert(current.len() > 0 ==> is_word(current));
            assert forall|k: int| 0 <= k < all.len() implies is_word(#[trigger] all[k]) by {
                if k >= done.len() {
                    assert(all[k] == more[k - done.len()]);
                }
            }
        }
    }
}

proof fn lemma_word_is_read(w: Seq<char>, rest: Seq<char>, current: Seq<char>)
    requires
        forall|i: int| 0 <= i < w.len() ==> is_word_char(#[trigger] w[i]),
    ensures
        words_from(w + rest, current) == words_from(rest, current + w),
    decreases w.len(),
{
    if w.len() == 0 {
        assert(w + rest =~= rest);
        assert(current + w =~= current);
    } else {
        let tail = w.drop_first();
        assert forall|i: int| 0 <= i < tail.len() implies is_word_char(#[trigger] tail[i]) by {
            assert(tail[i] == w[i + 1]);
        }
        assert(is_word_char(w[0]));
        assert((w + rest).drop_first() =~= tail + rest);
        assert(lower_ascii(w[0]) == w[0]);
        lemma_word_is_read(tail, rest, current.push(w[0]));
        assert(current.push(w[0]) + tail =~= current + w);
    }
}

proof fn lemma_words_of_joined(ws: Seq<Seq<char>>)
    requires
        forall|k: int| 0 <= k < ws.len() ==> is_word(#[trigger] ws[k]),
    ensures
        words_from(join(ws, "-"@), Seq::empty()) == ws,
    decreases ws.len(),
{
    reveal_strlit("-");
    if ws.len() == 0 {
        assert(words_from(join(ws, "-"@), Seq::empty()) =~= ws);
    } else if ws.len() == 1 {
        assert(is_word(ws[0]));
        lemma_word_is_read(ws[0], Seq::empty(), Seq::empty());
        assert(ws[0] + Seq::empty() =~= ws[0]);
        assert(Seq::<char>::empty() + ws[0] =~= ws[0]);
        assert(words_from(Seq::<char>::empty(), ws[0]) =~= ws);
    } else {
        let rest = ws.drop_first();
        assert forall|k: int| 0 <= k < rest.len() implies is_word(#[trigger] rest[k]) by {
            assert(rest[k] == ws[k + 1]);
        }
        lemma_words_of_joined(rest);
        assert(is_word(ws[0]));
        let tail = "-"@ + join(rest, "-"@);
        assert(join(ws, "-"@) =~= ws[0] + tail);
        lemma_word_is_read(ws[0], tail, Seq::empty());
        assert(Seq::<char>::empty() + ws[0] =~= ws[0]);
        assert(tail[0] == '-');
        assert(tail.drop_first() =~= join(rest, "-"@));
        assert(words_from(tail, ws[0]) =~= seq![ws[0]] + rest);
        assert(seq![ws[0]] + rest =~= ws);
    }
}

proof fn lemma_joined_words(ws: Seq<Seq<char>>)
    requires
        forall|k: int| 0 <= k < ws.len() ==> is_word(#[trigger] ws[k]),
    ensures
        ({
            let s = join(ws, "-"@);
            &&& forall|i: int| 0 <= i < s.len() ==> is_word_char(#[trigger] s[i]) || s[i] == '-'
            &&& ws.len() > 0 ==> s.len() > 0 && s[0] != '-' && s.last() != '-'
        }),
    decreases ws.len(),
{
    reveal_strlit("-");
    if ws.len() == 1 {
        assert(is_word(ws[0]));
    } else if ws.len() > 1 {
        let rest = ws.drop_first();
        assert forall|k: int| 0 <= k < rest.len() implies is_word(#[trigger] rest[k]) by {
            assert(rest[k] == ws[k + 1]);
        }
        lemma_joined_words(rest);
        assert(is_word(ws[0]));
        let s = join(ws, "-"@);
        let more = join(rest, "-"@);
        let n = ws[0].len() as int;
        assert(s =~= ws[0] + "-"@ + more);
        assert forall|i: int| 0 <= i < s.len() implies is_word_char(#[trigger] s[i]) || s[i]
            == '-' by {
            if i < n {
                assert(s[i] == ws[0][i]);
            } else if i > n {
                assert(s[i] == more[i - n - 1]);
            }
        }
        assert(s[0] == ws[0][0]);
        assert(s.last() == more.last());
    }
}

/// A slug is made of small letters, digits and dashes, has no dash at its edges, and is
/// its own slug.
pub proof fn slugs_are_clean(name: Seq<char>)
    ensures
        slug(slug(name)) == slug(name),
        forall|i: int|
            0 <= i < slug(name).len() ==> is_word_char(#[trigger] slug(name)[i]) || slug(name)[i]
                == '-',
        slug(name).len() > 0 ==> slug(name)[0] != '-' && slug(name).last() != '-',
{
    let ws = words_from(name, Seq::empty());
    lemma_words(name, Seq::empty());
    lemma_words_of_joined(ws);
    lemma_joined_words(ws);
    if ws.len() == 0 {
        assert(slug(name) =~= Seq::empty());
    }
}

} // verus!
