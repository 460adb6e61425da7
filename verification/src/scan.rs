//! Document discovery and change detection.
//!
//! A [`Snapshot`] holds a fingerprint of every tracked file. It is the cursor of a
//! [`ScanEngine`]: a full scan is compared with it to find what changed while
//! nothing was watching, and live events are folded into it one path at a time.

use crate::path::{
    beyond, components, components_of, eq_ignore_case, extension, extension_of, is_under, name_of,
    relative_components, same_ignoring_case, under,
};
use crate::sorted::{KeyOrder, SortedMap};
use crate::state::StateError;
use crate::text::{same, texts, two};
use vstd::prelude::*;

verus! {

/// Directory names that mark documentation.
pub const DOCS_DIR_NAMES: [&'static str; 4] = ["doc", "docs", "spec", "specs"];

/// Directory names that no walk enters.
pub const PRUNED_DIR_NAMES: [&'static str; 3] = [".git", "node_modules", "target"];

/// The BLAKE3 hash of some bytes, in hexadecimal.
pub uninterp spec fn blake3_hex(bytes: Seq<u8>) -> Seq<char>;

/// `blake3::hash` and `Hash::to_hex`: the hash of the bytes as text, a function of
/// the bytes alone, named [`blake3_hex`].
#[verifier::external_body]
pub(crate) fn content_hash(bytes: &[u8]) -> (r: String)
    ensures
        r@ == blake3_hex(bytes@),
{
    blake3::hash(bytes).to_hex().to_string()
}

/// A fingerprint of a file's content and metadata.
#[derive(Debug, PartialEq, Eq)]
pub struct FileFingerprint {
    /// Content hash (hexadecimal).
    pub hash: String,
    /// File size in bytes.
    pub size: u64,
    /// Last-modified time, milliseconds since the Unix epoch (`0` if unavailable).
    pub mtime_ms: u64,
}

impl Clone for FileFingerprint {
    fn clone(&self) -> (r: Self)
        ensures
            r == *self,
    {
        FileFingerprint { hash: self.hash.clone(), size: self.size, mtime_ms: self.mtime_ms }
    }
}

/// The kind of change detected for a file.
#[derive(Debug, Clone, Copy, PartialEq, Eq, Structural)]
pub enum ChangeKind {
    /// A new tracked file appeared.
    Created,
    /// An existing file's content changed.
    Modified,
    /// A tracked file disappeared.
    Removed,
    /// A file moved (same content hash at a new path).
    Moved,
}

/// A detected change to a tracked file.
#[derive(Debug, Clone, PartialEq, Eq)]
pub struct Change {
    /// The (current) path of the file. For [`ChangeKind::Moved`] this is the new path.
    pub path: String,
    /// What changed.
    pub kind: ChangeKind,
    /// The new fingerprint (`None` for [`ChangeKind::Removed`]).
    pub fingerprint: Option<FileFingerprint>,
    /// For [`ChangeKind::Moved`], the previous path.
    pub moved_from: Option<String>,
}

/// What a [`Change`] says.
pub struct ChangeView {
    pub path: Seq<char>,
    pub kind: ChangeKind,
    pub fingerprint: Option<FileFingerprint>,
    pub moved_from: Option<Seq<char>>,
}

impl View for Change {
    type V = ChangeView;

    open spec fn view(&self) -> ChangeView {
        ChangeView {
            path: self.path@,
            kind: self.kind,
            fingerprint: self.fingerprint,
            moved_from: match self.moved_from {
                Some(p) => Some(p@),
                None => None,
            },
        }
    }
}

/// What a list of changes says.
pub open spec fn changes_view(v: Seq<Change>) -> Seq<ChangeView> {
    v.map_values(|c: Change| c@)
}

pub open spec fn created(path: Seq<char>, fp: FileFingerprint) -> ChangeView {
    ChangeView { path, kind: ChangeKind::Created, fingerprint: Some(fp), moved_from: None }
}

pub open spec fn modified(path: Seq<char>, fp: FileFingerprint) -> ChangeView {
    ChangeView { path, kind: ChangeKind::Modified, fingerprint: Some(fp), moved_from: None }
}

pub open spec fn removed(path: Seq<char>) -> ChangeView {
    ChangeView { path, kind: ChangeKind::Removed, fingerprint: None, moved_from: None }
}

pub open spec fn moved(path: Seq<char>, fp: FileFingerprint, from: Seq<char>) -> ChangeView {
    ChangeView { path, kind: ChangeKind::Moved, fingerprint: Some(fp), moved_from: Some(from) }
}

fn created_change(path: String, fp: FileFingerprint) -> (r: Change)
    ensures
        r@ == created(path@, fp),
{
    Change { path, kind: ChangeKind::Created, fingerprint: Some(fp), moved_from: None }
}

fn removed_change(path: String) -> (r: Change)
    ensures
        r@ == removed(path@),
{
    Change { path, kind: ChangeKind::Removed, fingerprint: None, moved_from: None }
}

/// A path and the fingerprint of the file there.
pub type Entry = (Seq<char>, FileFingerprint);

/// The entries of a map of fingerprints, in their order.
pub open spec fn entries_of(m: SortedMap<FileFingerprint>) -> Seq<Entry> {
    m.entries@.map_values(|e: (String, FileFingerprint)| (e.0@, e.1))
}

/// A snapshot of the fingerprints of tracked files: the scan cursor.
#[derive(Debug, Clone, PartialEq, Eq)]
pub struct Snapshot {
    pub files: SortedMap<FileFingerprint>,
}

impl Snapshot {
    /// The files are in the order of their paths, each path once.
    pub open spec fn wf(&self) -> bool {
        self.files.wf() && self.files.order == KeyOrder::Path
    }

    /// The tracked files, in the order of their paths.
    pub open spec fn entries(&self) -> Seq<Entry> {
        entries_of(self.files)
    }

    /// The fingerprint of a path.
    pub open spec fn fingerprint_of(&self, path: Seq<char>) -> Option<FileFingerprint> {
        self.files.lookup(path)
    }

    /// A snapshot of no files.
    pub fn empty() -> (r: Self)
        ensures
            r.wf(),
            r.entries() == Seq::<Entry>::empty(),
            forall|p: Seq<char>| r.fingerprint_of(p) is None,
    {
        let s = Snapshot { files: SortedMap::new(KeyOrder::Path) };
        assert(s.entries() =~= Seq::<Entry>::empty());
        s
    }

    /// Number of tracked files.
    pub fn len(&self) -> (r: usize)
        ensures
            r == self.entries().len(),
    {
        self.files.len()
    }

    /// Whether the snapshot is empty.
    pub fn is_empty(&self) -> (r: bool)
        ensures
            r == (self.entries().len() == 0),
    {
        self.files.len() == 0
    }

    /// The fingerprint for `path`, if tracked.
    pub fn get(&self, path: &str) -> (r: Option<&FileFingerprint>)
        requires
            self.wf(),
        ensures
            r is Some == self.fingerprint_of(path@) is Some,
            r matches Some(fp) ==> self.fingerprint_of(path@) == Some(*fp),
    {
        self.files.get(path)
    }

    /// The pairs of path and fingerprint, in the order of the paths.
    pub fn iter(&self) -> (r: &Vec<(String, FileFingerprint)>)
        ensures
            *r == self.files.entries,
            r@.map_values(|e: (String, FileFingerprint)| (e.0@, e.1)) == self.entries(),
    {
        &self.files.entries
    }

    /// Tracks `path` with a fingerprint.
    pub fn insert(&mut self, path: String, fp: FileFingerprint)
        requires
            old(self).wf(),
        ensures
            final(self).wf(),
            forall|p: Seq<char>|
                #[trigger] final(self).fingerprint_of(p) == if components(path@) == components(p) {
                    Some(fp)
                } else {
                    old(self).fingerprint_of(p)
                },
            forall|i: int|
                0 <= i < final(self).entries().len() ==> (#[trigger] final(self).entries()[i]).0
                    == path@ || exists|j: int|
                    0 <= j < old(self).entries().len() && (#[trigger] old(self).entries()[j]).0
                        == final(self).entries()[i].0,
    {
        self.files.insert(path, fp);
        proof {
            assert forall|i: int| 0 <= i < self.entries().len() implies (
            #[trigger] self.entries()[i]).0 == path@ || exists|j: int|
                0 <= j < old(self).entries().len() && (#[trigger] old(self).entries()[j]).0
                    == self.entries()[i].0 by {
                let now = self.files.entries@;
                let was = old(self).files.entries@;
                assert(self.entries()[i].0 == now[i].0@);
                if now[i].0@ != path@ {
                    let j = choose|j: int| 0 <= j < was.len() && was[j].0@ == now[i].0@;
                    assert(old(self).entries()[j].0 == was[j].0@);
                }
            }
            assert forall|p: Seq<char>|
                #[trigger] self.fingerprint_of(p) == if components(path@) == components(p) {
                    Some(fp)
                } else {
                    old(self).fingerprint_of(p)
                } by {
                assert(self.files.lookup(p) == self.fingerprint_of(p));
            }
        }
    }
}

impl Default for Snapshot {
    fn default() -> (r: Self)
        ensures
            r.wf(),
            r.entries() == Seq::<Entry>::empty(),
            forall|p: Seq<char>| r.fingerprint_of(p) is None,
    {
        Snapshot::empty()
    }
}

/// Configuration for a scan.
#[derive(Debug, Clone)]
pub struct ScanConfig {
    /// Root directories to scan.
    pub roots: Vec<String>,
    /// Honor `.gitignore` (and `.ignore` / global / exclude files). Default `true`.
    pub respect_gitignore: bool,
    /// Path prefixes to exclude (e.g. a workspace's KB dir and `.looper` links).
    pub excluded_prefixes: Vec<String>,
    /// File extensions to index, lowercase, no dot. Defaults to `["md"]`.
    pub extensions: Vec<String>,
}

/// Whether a path has one of the extensions, whatever the case of its letters.
pub open spec fn has_extension(path: Seq<char>, extensions: Seq<Seq<char>>) -> bool {
    match extension_of(path) {
        Some(ext) => exists|i: int|
            0 <= i < extensions.len() && same_ignoring_case(#[trigger] extensions[i], ext),
        None => false,
    }
}

/// Whether a path lies at or under one of several.
pub open spec fn under_any(path: Seq<char>, prefixes: Seq<Seq<char>>) -> bool {
    exists|i: int| 0 <= i < prefixes.len() && is_under(path, #[trigger] prefixes[i])
}

/// Whether a path lies at or under one of several.
pub fn is_under_any(path: &str, prefixes: &Vec<String>) -> (r: bool)
    ensures
        r == under_any(path@, texts(prefixes@)),
{
    let mut i: usize = 0;
    while i < prefixes.len()
        invariant
            i <= prefixes@.len(),
            forall|k: int| 0 <= k < i ==> !is_under(path@, #[trigger] texts(prefixes@)[k]),
        decreases prefixes.len() - i,
    {
        if under(path, prefixes[i].as_str()) {
            assert(is_under(path@, texts(prefixes@)[i as int]));
            return true;
        }
        i = i + 1;
    }
    false
}

/// Whether a path has one of the extensions, whatever the case of its letters.
pub fn has_any_extension(path: &str, extensions: &Vec<String>) -> (r: bool)
    ensures
        r == has_extension(path@, texts(extensions@)),
{
    let ext = match extension(path) {
        Some(e) => e,
        None => {
            return false;
        },
    };
    let mut i: usize = 0;
    while i < extensions.len()
        invariant
            i <= extensions@.len(),
            extension_of(path@) == Some(ext@),
            forall|k: int|
                0 <= k < i ==> !same_ignoring_case(#[trigger] texts(extensions@)[k], ext@),
        decreases extensions.len() - i,
    {
        if eq_ignore_case(extensions[i].as_str(), ext.as_str()) {
            assert(same_ignoring_case(texts(extensions@)[i as int], ext@));
            return true;
        }
        i = i + 1;
    }
    false
}

impl ScanConfig {
    /// Whether a path is of interest: it has a tracked extension and is not excluded.
    pub open spec fn watched(&self, path: Seq<char>) -> bool {
        has_extension(path, texts(self.extensions@)) && !under_any(
            path,
            texts(self.excluded_prefixes@),
        )
    }

    /// Whether a walk keeps an entry: it enters no pruned directory and nothing that
    /// is excluded.
    pub open spec fn walked(&self, path: Seq<char>, is_dir: bool) -> bool {
        !(is_dir && is_pruned_dir(path)) && !under_any(path, texts(self.excluded_prefixes@))
    }

    /// Whether a scan collects a file that the walk of a root came to: it is watched, and
    /// stands in no directory below the root that no walk enters.
    pub open spec fn collects(&self, root: Seq<char>, path: Seq<char>) -> bool {
        self.watched(path) && is_under(path, root) && !below_pruned(root, path)
    }

    /// A gitignore-respecting config for `roots` with no extra exclusions, watching `.md`.
    pub fn new(roots: Vec<String>) -> (r: Self)
        ensures
            r.roots == roots,
            r.respect_gitignore,
            r.excluded_prefixes@.len() == 0,
            texts(r.extensions@) == seq!["md"@],
    {
        let mut extensions: Vec<String> = Vec::new();
        extensions.push("md".to_owned());
        assert(texts(extensions@) =~= seq!["md"@]);
        ScanConfig { roots, respect_gitignore: true, excluded_prefixes: Vec::new(), extensions }
    }

    pub fn is_excluded(&self, path: &str) -> (r: bool)
        ensures
            r == under_any(path@, texts(self.excluded_prefixes@)),
    {
        is_under_any(path, &self.excluded_prefixes)
    }

    /// Whether `path`'s extension is in the configured watched set (case-insensitive).
    pub fn is_tracked(&self, path: &str) -> (r: bool)
        ensures
            r == has_extension(path@, texts(self.extensions@)),
    {
        has_any_extension(path, &self.extensions)
    }

    /// Whether a walk keeps an entry.
    pub fn keeps_entry(&self, path: &str, is_dir: bool) -> (r: bool)
        ensures
            r == self.walked(path@, is_dir),
    {
        if is_dir && pruned_dir(path) {
            return false;
        }
        !self.is_excluded(path)
    }

    /// Whether a scan collects a file that the walk of a root came to.
    pub fn keeps_file(&self, root: &str, path: &str) -> (r: bool)
        ensures
            r == self.collects(root@, path@),
    {
        if !self.is_tracked(path) || self.is_excluded(path) {
            return false;
        }
        let parts = match relative_components(path, root) {
            Some(parts) => parts,
            None => {
                return false;
            },
        };
        assert(texts(parts@).len() == parts@.len());
        if parts.len() == 0 {
            return true;
        }
        let mut i: usize = 0;
        while i < parts.len() - 1
            invariant
                i < parts@.len(),
                texts(parts@) == beyond(path@, root@),
                texts(parts@).len() == parts@.len(),
                forall|k: int|
                    0 <= k < i ==> !is_pruned_name(#[trigger] beyond(path@, root@)[k]),
            decreases parts.len() - i,
        {
            assert(beyond(path@, root@)[i as int] == parts@[i as int]@);
            if pruned_name(parts[i].as_str()) {
                return false;
            }
            i = i + 1;
        }
        true
    }
}

/// Whether a name is that of a directory that no walk enters.
pub open spec fn is_pruned_name(name: Seq<char>) -> bool {
    name == ".git"@ || name == "node_modules"@ || name == "target"@
}

/// Whether a path's name is that of a directory that no walk enters.
pub open spec fn is_pruned_dir(path: Seq<char>) -> bool {
    name_of(path) matches Some(name) && is_pruned_name(name)
}

/// Whether a file stands in a directory below a root that no walk enters.
pub open spec fn below_pruned(root: Seq<char>, path: Seq<char>) -> bool {
    exists|i: int|
        0 <= i < beyond(path, root).len() - 1 && is_pruned_name(#[trigger] beyond(path, root)[i])
}

fn pruned_name(name: &str) -> (r: bool)
    ensures
        r == is_pruned_name(name@),
{
    same(name, PRUNED_DIR_NAMES[0]) || same(name, PRUNED_DIR_NAMES[1]) || same(
        name,
        PRUNED_DIR_NAMES[2],
    )
}

fn pruned_dir(path: &str) -> (r: bool)
    ensures
        r == is_pruned_dir(path@),
{
    match crate::path::file_name(path) {
        Some(name) => pruned_name(name.as_str()),
        None => false,
    }
}

/// Whether `path` is a markdown file (`.md`, case-insensitive).
pub fn is_markdown(path: &str) -> (r: bool)
    ensures
        r == has_extension(path@, seq!["md"@]),
{
    match extension(path) {
        Some(e) => {
            let r = eq_ignore_case("md", e.as_str());
            assert(seq!["md"@][0] == "md"@);
            r
        },
        None => false,
    }
}

/// Whether a component names a documentation directory.
pub open spec fn is_docs_name(c: Seq<char>) -> bool {
    c == "doc"@ || c == "docs"@ || c == "spec"@ || c == "specs"@
}

/// Whether `path` lies within a `doc|docs|spec|specs` directory.
pub fn is_in_docs_dir(path: &str) -> (r: bool)
    ensures
        r == exists|i: int|
            0 <= i < components(path@).len() && is_docs_name(#[trigger] components(path@)[i]),
{
    let parts = components_of(path);
    let mut i: usize = 0;
    while i < parts.len()
        invariant
            i <= parts@.len(),
            texts(parts@) == components(path@),
            forall|k: int| 0 <= k < i ==> !is_docs_name(#[trigger] components(path@)[k]),
        decreases parts.len() - i,
    {
        let c = parts[i].as_str();
        assert(components(path@)[i as int] == c@);
        if same(c, DOCS_DIR_NAMES[0]) || same(c, DOCS_DIR_NAMES[1]) || same(c, DOCS_DIR_NAMES[2])
            || same(c, DOCS_DIR_NAMES[3]) {
            return true;
        }
        i = i + 1;
    }
    assert(texts(parts@).len() == parts@.len());
    false
}

/// The fingerprint of a file whose content is `content`, which the file system
/// gives as `size` bytes long and last modified `mtime_ms` milliseconds after the
/// epoch (`None` where it cannot tell).
pub fn fingerprint(content: &[u8], size: u64, mtime_ms: Option<u128>) -> (r: FileFingerprint)
    ensures
        r.hash@ == blake3_hex(content@),
        r.size == size,
        r.mtime_ms == match mtime_ms {
            Some(ms) => if ms <= u64::MAX {
                ms as int
            } else {
                0
            },
            None => 0,
        },
{
    let mtime: u64 = match mtime_ms {
        Some(ms) => if ms <= 0xffff_ffff_ffff_ffffu128 {
            ms as u64
        } else {
            0
        },
        None => 0,
    };
    FileFingerprint { hash: content_hash(content), size, mtime_ms: mtime }
}

/// A file that the walk of a root came to, with its fingerprint where it was read.
pub struct WalkedFile {
    pub root: String,
    pub path: String,
    pub fingerprint: Option<FileFingerprint>,
}

/// The paths that a scan collects of the files that walks came to, each with the root of its
/// walk.
pub open spec fn kept_paths(config: ScanConfig, found: Seq<(String, String)>) -> Seq<Seq<char>>
    decreases found.len(),
{
    if found.len() == 0 {
        Seq::empty()
    } else {
        let before = kept_paths(config, found.drop_last());
        let (root, path) = found.last();
        if config.collects(root@, path@) {
            before.push(path@)
        } else {
            before
        }
    }
}

/// Collects the path of every tracked file of those that the walks came to, which honor the
/// ignore files, each with the root of its walk. The cheap way to learn which files there
/// are, without their contents.
pub fn walk_markdown_paths(config: &ScanConfig, found: &Vec<(String, String)>) -> (r: Vec<String>)
    ensures
        texts(r@) == kept_paths(*config, found@),
{
    let mut out: Vec<String> = Vec::new();
    let mut i: usize = 0;
    assert(found@.take(0) =~= Seq::empty());
    assert(texts(out@) =~= kept_paths(*config, found@.take(0)));
    while i < found.len()
        invariant
            i <= found@.len(),
            texts(out@) == kept_paths(*config, found@.take(i as int)),
        decreases found.len() - i,
    {
        let ghost before = texts(out@);
        proof {
            assert(found@.take(i + 1).drop_last() =~= found@.take(i as int));
            assert(found@.take(i + 1).last() == found@[i as int]);
        }
        if config.keeps_file(found[i].0.as_str(), found[i].1.as_str()) {
            out.push(found[i].1.clone());
            assert(texts(out@) =~= before.push(found@[i as int].1@));
        }
        i = i + 1;
    }
    assert(found@.take(found@.len() as int) =~= found@);
    out
}

/// The files that a scan collects of those that walks came to, as far as they were read.
pub open spec fn collected(config: ScanConfig, files: Seq<WalkedFile>) -> Seq<Entry>
    decreases files.len(),
{
    if files.len() == 0 {
        Seq::empty()
    } else {
        let before = collected(config, files.drop_last());
        let f = files.last();
        match f.fingerprint {
            Some(fp) => if config.collects(f.root@, f.path@) {
                before.push((f.path@, fp))
            } else {
                before
            },
            None => before,
        }
    }
}

/// Whether one of the files is a file at a path that a scan collects.
pub open spec fn is_collected(config: ScanConfig, files: Seq<WalkedFile>, path: Seq<char>) -> bool {
    exists|j: int|
        0 <= j < files.len() && (#[trigger] files[j]).path@ == path && config.collects(
            files[j].root@,
            path,
        )
}

/// Collects every tracked file of those that the walks came to, each with its fingerprint,
/// into a [`Snapshot`].
pub fn scan_tracked_markdown(config: &ScanConfig, files: &Vec<WalkedFile>) -> (r: Snapshot)
    ensures
        r.wf(),
        forall|p: Seq<char>|
            #[trigger] r.fingerprint_of(p) == last_fingerprint(collected(*config, files@), p),
        forall|i: int|
            0 <= i < r.entries().len() ==> is_collected(
                *config,
                files@,
                (#[trigger] r.entries()[i]).0,
            ),
{
    let mut out = Snapshot::empty();
    let mut i: usize = 0;
    assert(files@.take(0) =~= Seq::empty());
    while i < files.len()
        invariant
            i <= files@.len(),
            out.wf(),
            forall|p: Seq<char>|
                #[trigger] out.fingerprint_of(p) == last_fingerprint(
                    collected(*config, files@.take(i as int)),
                    p,
                ),
            forall|k: int|
                0 <= k < out.entries().len() ==> is_collected(
                    *config,
                    files@,
                    (#[trigger] out.entries()[k]).0,
                ),
        decreases files.len() - i,
    {
        let ghost before = out;
        let f = &files[i];
        proof {
            assert(files@.take(i + 1).drop_last() =~= files@.take(i as int));
            assert(files@.take(i + 1).last() == files@[i as int]);
        }
        if let Some(fp) = &f.fingerprint {
            if config.keeps_file(f.root.as_str(), f.path.as_str()) {
                out.insert(f.path.clone(), fp.clone());
                proof {
                    let t = collected(*config, files@.take(i + 1));
                    assert(t.drop_last() =~= collected(*config, files@.take(i as int)));
                    assert forall|p: Seq<char>|
                        #[trigger] out.fingerprint_of(p) == last_fingerprint(t, p) by {
                        assert(before.fingerprint_of(p) == last_fingerprint(t.drop_last(), p));
                    }
                    assert(is_collected(*config, files@, f.path@));
                    assert forall|k: int| 0 <= k < out.entries().len() implies is_collected(
                        *config,
                        files@,
                        (#[trigger] out.entries()[k]).0,
                    ) by {
                        let key = out.entries()[k].0;
                        if key != f.path@ {
                            let j = choose|j: int|
                                0 <= j < before.entries().len() && (#[trigger] before.entries()[j]).0
                                    == key;
                            assert(before.entries()[j].0 == key);
                        }
                    }
                }
            }
        }
        i = i + 1;
    }
    assert(files@.take(files@.len() as int) =~= files@);
    out
}

/// The fingerprint that the last entry of a path gives it.
pub open spec fn last_fingerprint(files: Seq<Entry>, path: Seq<char>) -> Option<FileFingerprint>
    decreases files.len(),
{
    if files.len() == 0 {
        None
    } else if components(files.last().0) == components(path) {
        Some(files.last().1)
    } else {
        last_fingerprint(files.drop_last(), path)
    }
}

// ------------------------------------------------------------------------- diff

/// The entries whose path the other snapshot does not track.
pub open spec fn only_in(entries: Seq<Entry>, other: Snapshot) -> Seq<Entry>
    decreases entries.len(),
{
    if entries.len() == 0 {
        entries
    } else if other.fingerprint_of(entries.last().0) is None {
        only_in(entries.drop_last(), other).push(entries.last())
    } else {
        only_in(entries.drop_last(), other)
    }
}

/// The entries that the old snapshot tracks with another content hash.
pub open spec fn modifications(entries: Seq<Entry>, old_snap: Snapshot) -> Seq<ChangeView>
    decreases entries.len(),
{
    if entries.len() == 0 {
        Seq::empty()
    } else {
        let (path, fp) = entries.last();
        let before = modifications(entries.drop_last(), old_snap);
        match old_snap.fingerprint_of(path) {
            Some(was) => if was.hash@ != fp.hash@ {
                before.push(modified(path, fp))
            } else {
                before
            },
            None => before,
        }
    }
}

/// The first of the removed files with the content hash that is not yet taken as the
/// origin of a move; the number of removed files where there is none.
pub open spec fn origin_from(
    gone: Seq<Entry>,
    taken: Set<int>,
    hash: Seq<char>,
    i: int,
) -> int
    decreases gone.len() - i,
{
    if i < 0 || i >= gone.len() {
        gone.len() as int
    } else if gone[i].1.hash@ == hash && !taken.contains(i) {
        i
    } else {
        origin_from(gone, taken, hash, i + 1)
    }
}

/// The removed files that are origins of moves once the first `n` added files are
/// placed.
pub open spec fn taken_after(fresh: Seq<Entry>, gone: Seq<Entry>, n: int) -> Set<int>
    decreases n,
{
    if n <= 0 {
        Set::empty()
    } else {
        let taken = taken_after(fresh, gone, n - 1);
        let at = origin_from(gone, taken, fresh[n - 1].1.hash@, 0);
        if at < gone.len() {
            taken.insert(at)
        } else {
            taken
        }
    }
}

/// The removed file that added file `n` is moved from; the number of removed files
/// where it is new.
pub open spec fn origin_of(fresh: Seq<Entry>, gone: Seq<Entry>, n: int) -> int {
    origin_from(gone, taken_after(fresh, gone, n), fresh[n].1.hash@, 0)
}

/// What became of an added file: moved from a removed one of the same content, or
/// created.
pub open spec fn placement(fresh: Seq<Entry>, gone: Seq<Entry>, n: int) -> ChangeView {
    let at = origin_of(fresh, gone, n);
    if at < gone.len() {
        moved(fresh[n].0, fresh[n].1, gone[at].0)
    } else {
        created(fresh[n].0, fresh[n].1)
    }
}

/// The removed files, of the first `n`, that no added file was moved from.
pub open spec fn removals(gone: Seq<Entry>, taken: Set<int>, n: int) -> Seq<ChangeView>
    decreases n,
{
    if n <= 0 {
        Seq::empty()
    } else if taken.contains(n - 1) {
        removals(gone, taken, n - 1)
    } else {
        removals(gone, taken, n - 1).push(removed(gone[n - 1].0))
    }
}

/// The changes from one snapshot to another: the modified files, then the added ones
/// (moved or created), then the removed ones.
pub open spec fn diff_of(old_snap: Snapshot, new_snap: Snapshot) -> Seq<ChangeView> {
    let gone = only_in(old_snap.entries(), new_snap);
    let fresh = only_in(new_snap.entries(), old_snap);
    modifications(new_snap.entries(), old_snap) + Seq::new(
        fresh.len(),
        |n: int| placement(fresh, gone, n),
    ) + removals(gone, taken_after(fresh, gone, fresh.len() as int), gone.len() as int)
}

fn entries_only_in(entries: &Vec<(String, FileFingerprint)>, other: &Snapshot) -> (r: Vec<
    (String, FileFingerprint),
>)
    requires
        other.wf(),
    ensures
        r@.map_values(|e: (String, FileFingerprint)| (e.0@, e.1)) == only_in(
            entries@.map_values(|e: (String, FileFingerprint)| (e.0@, e.1)),
            *other,
        ),
{
    let ghost f = |e: (String, FileFingerprint)| (e.0@, e.1);
    let ghost all = entries@.map_values(f);
    let mut out: Vec<(String, FileFingerprint)> = Vec::new();
    let mut i: usize = 0;
    assert(all.take(0) =~= Seq::empty());
    assert(out@.map_values(f) =~= only_in(all.take(0), *other));
    while i < entries.len()
        invariant
            i <= entries@.len(),
            other.wf(),
            f == (|e: (String, FileFingerprint)| (e.0@, e.1)),
            all == entries@.map_values(f),
            out@.map_values(f) == only_in(all.take(i as int), *other),
        decreases entries.len() - i,
    {
        let ghost before = out@;
        proof {
            assert(all.take(i + 1).drop_last() =~= all.take(i as int));
            assert(all.take(i + 1).last() == f(entries@[i as int]));
        }
        if other.get(entries[i].0.as_str()).is_none() {
            let e = (entries[i].0.clone(), entries[i].1.clone());
            out.push(e);
            assert(out@.map_values(f) =~= before.map_values(f).push(f(e)));
        }
        i = i + 1;
    }
    assert(all.take(all.len() as int) =~= all);
    out
}

fn origin(gone: &Vec<(String, FileFingerprint)>, taken: &Vec<bool>, hash: &String) -> (r: usize)
    requires
        taken@.len() == gone@.len(),
    ensures
        r == origin_from(
            gone@.map_values(|e: (String, FileFingerprint)| (e.0@, e.1)),
            taken_set(taken@),
            hash@,
            0,
        ),
        r <= gone@.len(),
{
    let ghost f = |e: (String, FileFingerprint)| (e.0@, e.1);
    let ghost all = gone@.map_values(f);
    let mut i: usize = 0;
    while i < gone.len()
        invariant
            i <= gone@.len(),
            taken@.len() == gone@.len(),
            f == (|e: (String, FileFingerprint)| (e.0@, e.1)),
            all == gone@.map_values(f),
            origin_from(all, taken_set(taken@), hash@, 0) == origin_from(
                all,
                taken_set(taken@),
                hash@,
                i as int,
            ),
        decreases gone.len() - i,
    {
        assert(all[i as int] == f(gone@[i as int]));
        if gone[i].1.hash == *hash && !taken[i] {
            return i;
        }
        i = i + 1;
    }
    i
}

/// The indexes that are marked.
pub open spec fn taken_set(taken: Seq<bool>) -> Set<int> {
    Set::new(|i: int| 0 <= i < taken.len() && taken[i])
}

/// Diff two snapshots into a list of [`Change`]s, detecting moves by matching content
/// hashes between removed and added paths.
pub fn diff(old_snap: &Snapshot, new_snap: &Snapshot) -> (r: Vec<Change>)
    requires
        old_snap.wf(),
        new_snap.wf(),
    ensures
        changes_view(r@) == diff_of(*old_snap, *new_snap),
{
    let ghost f = |e: (String, FileFingerprint)| (e.0@, e.1);
    let mut changes: Vec<Change> = Vec::new();
    let files = new_snap.iter();
    let ghost all = new_snap.entries();
    let mut i: usize = 0;
    assert(all.take(0) =~= Seq::empty());
    assert(changes_view(changes@) =~= modifications(all.take(0), *old_snap));
    while i < files.len()
        invariant
            i <= files@.len(),
            old_snap.wf(),
            f == (|e: (String, FileFingerprint)| (e.0@, e.1)),
            all == files@.map_values(f),
            changes_view(changes@) == modifications(all.take(i as int), *old_snap),
        decreases files.len() - i,
    {
        let ghost before = changes@;
        proof {
            assert(all.take(i + 1).drop_last() =~= all.take(i as int));
            assert(all.take(i + 1).last() == f(files@[i as int]));
        }
        match old_snap.get(files[i].0.as_str()) {
            Some(was) => {
                if was.hash != files[i].1.hash {
                    let c = Change {
                        path: files[i].0.clone(),
                        kind: ChangeKind::Modified,
                        fingerprint: Some(files[i].1.clone()),
                        moved_from: None,
                    };
                    changes.push(c);
                    assert(changes_view(changes@) =~= changes_view(before).push(c@));
                }
            },
            None => {},
        }
        i = i + 1;
    }
    assert(all.take(all.len() as int) =~= all);
    let gone = entries_only_in(old_snap.iter(), new_snap);
    let fresh = entries_only_in(new_snap.iter(), old_snap);
    let ghost g = gone@.map_values(f);
    let ghost a = fresh@.map_values(f);
    let ghost mods = changes_view(changes@);
    let mut taken: Vec<bool> = Vec::new();
    let mut k: usize = 0;
    while k < gone.len()
        invariant
            k <= gone@.len(),
            taken@.len() == k,
            forall|n: int| 0 <= n < k ==> !taken@[n],
        decreases gone.len() - k,
    {
        taken.push(false);
        k = k + 1;
    }
    let mut n: usize = 0;
    proof {
        assert(taken_set(taken@) =~= Set::empty());
        assert(changes_view(changes@) =~= mods + Seq::new(0, |m: int| placement(a, g, m)));
    }
    while n < fresh.len()
        invariant
            n <= fresh@.len(),
            f == (|e: (String, FileFingerprint)| (e.0@, e.1)),
            g == gone@.map_values(f),
            a == fresh@.map_values(f),
            taken@.len() == gone@.len(),
            taken_set(taken@) == taken_after(a, g, n as int),
            changes_view(changes@) == mods + Seq::new(n as nat, |m: int| placement(a, g, m)),
        decreases fresh.len() - n,
    {
        let ghost before = changes@;
        let ghost was = taken@;
        let at: usize = origin(&gone, &taken, &fresh[n].1.hash);
        assert(a[n as int] == f(fresh@[n as int]));
        let c = if at < gone.len() {
            taken.set(at, true);
            proof {
                assert(taken_set(taken@) =~= taken_set(was).insert(at as int));
                assert(g[at as int] == f(gone@[at as int]));
            }
            Change {
                path: fresh[n].0.clone(),
                kind: ChangeKind::Moved,
                fingerprint: Some(fresh[n].1.clone()),
                moved_from: Some(gone[at].0.clone()),
            }
        } else {
            created_change(fresh[n].0.clone(), fresh[n].1.clone())
        };
        changes.push(c);
        proof {
            assert(changes_view(changes@) =~= changes_view(before).push(c@));
            assert(c@ == placement(a, g, n as int));
            assert(changes_view(changes@) =~= mods + Seq::new(
                (n + 1) as nat,
                |m: int| placement(a, g, m),
            ));
        }
        n = n + 1;
    }
    let ghost placed = changes_view(changes@);
    let ghost set = taken_set(taken@);
    let mut m: usize = 0;
    assert(placed + removals(g, set, 0) =~= placed);
    while m < gone.len()
        invariant
            m <= gone@.len(),
            f == (|e: (String, FileFingerprint)| (e.0@, e.1)),
            g == gone@.map_values(f),
            taken@.len() == gone@.len(),
            set == taken_set(taken@),
            changes_view(changes@) == placed + removals(g, set, m as int),
        decreases gone.len() - m,
    {
        let ghost before = changes@;
        assert(g[m as int] == f(gone@[m as int]));
        if !taken[m] {
            let c = removed_change(gone[m].0.clone());
            changes.push(c);
            proof {
                assert(changes_view(changes@) =~= changes_view(before).push(c@));
                assert(placed + removals(g, set, m + 1) =~= (placed + removals(
                    g,
                    set,
                    m as int,
                )).push(c@));
            }
        }
        m = m + 1;
    }
    changes
}

// ----------------------------------------------------------------------- engine

/// Errors of the scan engine.
#[derive(Debug)]
pub enum ScanError {
    /// The persisted cursor could not be loaded or saved.
    State(StateError),
}

impl ScanError {
    /// What the error says.
    pub fn message(&self) -> (r: String)
        ensures
            r@ == match self {
                ScanError::State(e) => "scan state error: "@ + e.text(),
            },
    {
        match self {
            ScanError::State(e) => two("scan state error: ", e.message().as_str()),
        }
    }
}

/// What reading a file gave.
pub enum FileRead {
    /// The file is there, with this fingerprint.
    Found(FileFingerprint),
    /// There is no such file.
    Missing,
    /// It could not be read just now (mid-write, say).
    Unreadable,
    /// It is there, but an ignore file that is honored leaves it out.
    Ignored,
}

/// The paths that a walk found, each with its fingerprint where it was read.
pub type Walked = SortedMap<Option<FileFingerprint>>;

/// The stateful scan engine: owns the cursor and reconciles it with the tree.
pub struct ScanEngine {
    pub config: ScanConfig,
    pub snapshot: Snapshot,
}

/// The files of a cursor that a walk no longer finds.
pub open spec fn gone_from(entries: Seq<Entry>, walked: Walked) -> Seq<Seq<char>>
    decreases entries.len(),
{
    if entries.len() == 0 {
        Seq::empty()
    } else if walked.has_key(entries.last().0) {
        gone_from(entries.drop_last(), walked)
    } else {
        gone_from(entries.drop_last(), walked).push(entries.last().0)
    }
}

/// The files that a walk finds and a cursor does not track, as far as they were read.
pub open spec fn new_to(
    found: Seq<(String, Option<FileFingerprint>)>,
    cursor: Snapshot,
) -> Seq<Entry>
    decreases found.len(),
{
    if found.len() == 0 {
        Seq::empty()
    } else {
        let before = new_to(found.drop_last(), cursor);
        let (path, read) = found.last();
        match read {
            Some(fp) => if cursor.fingerprint_of(path@) is None {
                before.push((path@, fp))
            } else {
                before
            },
            None => before,
        }
    }
}

/// The changes that a reconcile reports: what is gone, then what is new.
pub open spec fn reconciled(cursor: Snapshot, walked: Walked) -> Seq<ChangeView> {
    let fresh = new_to(walked.entries@, cursor);
    gone_from(cursor.entries(), walked).map_values(|p: Seq<char>| removed(p)) + fresh.map_values(
        |e: Entry| created(e.0, e.1),
    )
}

/// The fingerprint of a path after a reconcile: what the walk does not find is
/// forgotten, what it finds keeps its fingerprint or is given the one that was read.
pub open spec fn after_reconcile(
    cursor: Snapshot,
    walked: Walked,
    path: Seq<char>,
) -> Option<FileFingerprint> {
    match walked.lookup(path) {
        None => None,
        Some(read) => match cursor.fingerprint_of(path) {
            Some(fp) => Some(fp),
            None => read,
        },
    }
}

/// What observing a path makes of the fingerprint it had.
pub open spec fn observed(was: Option<FileFingerprint>, read: FileRead) -> Option<
    FileFingerprint,
> {
    match read {
        FileRead::Found(fp) => match was {
            Some(prev) => if prev.hash@ == fp.hash@ {
                was
            } else {
                Some(fp)
            },
            None => Some(fp),
        },
        FileRead::Missing => None,
        FileRead::Unreadable | FileRead::Ignored => was,
    }
}

/// The change that observing a path reports.
pub open spec fn observed_change(
    path: Seq<char>,
    was: Option<FileFingerprint>,
    read: FileRead,
) -> Option<ChangeView> {
    match read {
        FileRead::Found(fp) => match was {
            Some(prev) => if prev.hash@ == fp.hash@ {
                None
            } else {
                Some(modified(path, fp))
            },
            None => Some(created(path, fp)),
        },
        FileRead::Missing => if was is Some {
            Some(removed(path))
        } else {
            None
        },
        FileRead::Unreadable | FileRead::Ignored => None,
    }
}

impl ScanEngine {
    /// The cursor is a proper snapshot.
    pub open spec fn wf(&self) -> bool {
        self.snapshot.wf()
    }

    /// An engine over a cursor that was loaded.
    pub fn open(config: ScanConfig, cursor: Snapshot) -> (r: Self)
        requires
            cursor.wf(),
        ensures
            r.wf(),
            r.config == config,
            r.snapshot == cursor,
    {
        ScanEngine { config, snapshot: cursor }
    }

    /// The current cursor snapshot.
    pub fn snapshot(&self) -> (r: &Snapshot)
        ensures
            *r == self.snapshot,
    {
        &self.snapshot
    }

    /// Resets the cursor to empty, so that the next full scan takes every file as new.
    pub fn reset(&mut self)
        ensures
            final(self).wf(),
            final(self).config == old(self).config,
            final(self).snapshot.entries() == Seq::<Entry>::empty(),
            forall|p: Seq<char>| final(self).snapshot.fingerprint_of(p) is None,
    {
        self.snapshot = Snapshot::empty();
    }

    /// Forgets `path`; whether it was tracked, so that the cursor is to be persisted.
    pub fn forget(&mut self, path: &str) -> (r: bool)
        requires
            old(self).wf(),
        ensures
            final(self).wf(),
            final(self).config == old(self).config,
            r == old(self).snapshot.fingerprint_of(path@) is Some,
            !r ==> *final(self) == *old(self),
            forall|p: Seq<char>|
                #[trigger] final(self).snapshot.fingerprint_of(p) == if components(path@)
                    == components(p) {
                    None
                } else {
                    old(self).snapshot.fingerprint_of(p)
                },
    {
        let r = self.snapshot.files.remove(path).is_some();
        proof {
            assert forall|p: Seq<char>|
                #[trigger] self.snapshot.fingerprint_of(p) == if components(path@) == components(
                    p,
                ) {
                    None
                } else {
                    old(self).snapshot.fingerprint_of(p)
                } by {
                assert(self.snapshot.files.lookup(p) == self.snapshot.fingerprint_of(p));
            }
        }
        r
    }

    /// Compares the cursor with the paths that a walk finds, without looking at files
    /// that stay: `Removed` for paths that are gone or now ignored, `Created` for
    /// paths that are new. Modifications are not detected.
    pub fn reconcile(&mut self, walked: &Walked) -> (r: Vec<Change>)
        requires
            old(self).wf(),
            walked.wf(),
            walked.order == KeyOrder::Path,
        ensures
            final(self).wf(),
            final(self).config == old(self).config,
            changes_view(r@) == reconciled(old(self).snapshot, *walked),
            forall|p: Seq<char>|
                #[trigger] final(self).snapshot.fingerprint_of(p) == after_reconcile(
                    old(self).snapshot,
                    *walked,
                    p,
                ),
    {
        let ghost cursor = self.snapshot;
        let ghost all = cursor.entries();
        let ghost f = |p: Seq<char>| removed(p);
        let ghost h = |e: Entry| created(e.0, e.1);
        let mut changes: Vec<Change> = Vec::new();
        let mut kept = Snapshot::empty();
        let mut i: usize = 0;
        let files = self.snapshot.iter();
        proof {
            assert(all.take(0) =~= Seq::empty());
            assert(changes_view(changes@) =~= gone_from(all.take(0), *walked).map_values(f));
        }
        while i < files.len()
            invariant
                i <= files@.len(),
                cursor.wf(),
                walked.wf(),
                walked.order == KeyOrder::Path,
                *files == cursor.files.entries,
                f == (|p: Seq<char>| removed(p)),
                all == cursor.entries(),
                all.len() == files@.len(),
                changes_view(changes@) == gone_from(all.take(i as int), *walked).map_values(f),
                kept.wf(),
                forall|p: Seq<char>|
                    #[trigger] kept.fingerprint_of(p) == if walked.has_key(p) {
                        last_fingerprint(all.take(i as int), p)
                    } else {
                        None
                    },
            decreases files.len() - i,
        {
            let ghost before = changes@;
            let ghost t = all.take(i + 1);
            let ghost kept_before = kept;
            let path = files[i].0.clone();
            proof {
                assert(t.drop_last() =~= all.take(i as int));
                assert(t.last() == (files@[i as int].0@, files@[i as int].1));
            }
            if walked.contains_key(path.as_str()) {
                kept.insert(path, files[i].1.clone());
                proof {
                    assert forall|p: Seq<char>|
                        #[trigger] kept.fingerprint_of(p) == if walked.has_key(p) {
                            last_fingerprint(t, p)
                        } else {
                            None
                        } by {
                        assert(kept_before.fingerprint_of(p) == if walked.has_key(p) {
                            last_fingerprint(all.take(i as int), p)
                        } else {
                            None
                        });
                        if components(path@) == components(p) {
                            let j = choose|j: int| walked.holds_at(path@, j);
                            assert(walked.holds_at(p, j));
                        }
                    }
                }
            } else {
                let c = removed_change(path);
                changes.push(c);
                proof {
                    assert(changes_view(changes@) =~= changes_view(before).push(c@));
                    assert(gone_from(t, *walked).map_values(f) =~= gone_from(
                        all.take(i as int),
                        *walked,
                    ).map_values(f).push(removed(path@)));
                    assert forall|p: Seq<char>|
                        #[trigger] kept.fingerprint_of(p) == if walked.has_key(p) {
                            last_fingerprint(t, p)
                        } else {
                            None
                        } by {
                        if walked.has_key(p) && components(path@) == components(p) {
                            let j = choose|j: int| walked.holds_at(p, j);
                            assert(walked.holds_at(path@, j));
                        }
                    }
                }
            }
            i = i + 1;
        }
        proof {
            assert(all.take(all.len() as int) =~= all);
            assert forall|p: Seq<char>|
                #[trigger] kept.fingerprint_of(p) == if walked.has_key(p) {
                    cursor.fingerprint_of(p)
                } else {
                    None
                } by {
                lemma_last_fingerprint(cursor, all.len() as int, p);
            }
        }
        let ghost gone = changes_view(changes@);
        let ghost found = walked.entries@;
        let mut n: usize = 0;
        proof {
            assert(found.take(0) =~= Seq::empty());
            assert(changes_view(changes@) =~= gone + new_to(found.take(0), cursor).map_values(h));
        }
        while n < walked.entries.len()
            invariant
                n <= walked.entries@.len(),
                cursor == self.snapshot,
                cursor.wf(),
                walked.wf(),
                walked.order == KeyOrder::Path,
                found == walked.entries@,
                h == (|e: Entry| created(e.0, e.1)),
                changes_view(changes@) == gone + new_to(found.take(n as int), cursor).map_values(h),
                kept.wf(),
                forall|p: Seq<char>|
                    #[trigger] kept.fingerprint_of(p) == if exists|j: int|
                        j < n && walked.holds_at(p, j) {
                        after_reconcile(cursor, *walked, p)
                    } else if walked.has_key(p) {
                        cursor.fingerprint_of(p)
                    } else {
                        None
                    },
            decreases walked.entries.len() - n,
        {
            let ghost before = changes@;
            let ghost t = found.take(n + 1);
            let ghost kept_before = kept;
            let path = walked.entries[n].0.clone();
            proof {
                assert(t.drop_last() =~= found.take(n as int));
                assert(t.last() == found[n as int]);
                assert(walked.holds_at(path@, n as int));
                walked.lemma_entry(path@, n as int);
            }
            if self.snapshot.get(path.as_str()).is_none() {
                match &walked.entries[n].1 {
                    Some(fp) => {
                        kept.insert(path.clone(), fp.clone());
                        let c = created_change(path, fp.clone());
                        changes.push(c);
                        proof {
                            assert(changes_view(changes@) =~= changes_view(before).push(c@));
                            assert(new_to(t, cursor).map_values(h) =~= new_to(
                                found.take(n as int),
                                cursor,
                            ).map_values(h).push(c@));
                            assert(changes_view(changes@) =~= gone + new_to(t, cursor).map_values(
                                h,
                            ));
                        }
                    },
                    None => {},
                }
            }
            proof {
                assert forall|p: Seq<char>|
                    #[trigger] kept.fingerprint_of(p) == if exists|j: int|
                        j < n + 1 && walked.holds_at(p, j) {
                        after_reconcile(cursor, *walked, p)
                    } else if walked.has_key(p) {
                        cursor.fingerprint_of(p)
                    } else {
                        None
                    } by {
                    let _ = kept_before.fingerprint_of(p);
                    if components(found[n as int].0@) == components(p) {
                        assert(walked.holds_at(p, n as int));
                        walked.lemma_entry(p, n as int);
                        lemma_same_path(cursor, found[n as int].0@, p);
                    } else {
                        assert(!walked.holds_at(p, n as int));
                    }
                }
            }
            n = n + 1;
        }
        proof {
            assert(found.take(found.len() as int) =~= found);
            assert(changes_view(changes@) == reconciled(cursor, *walked));
        }
        self.snapshot = kept;
        proof {
            assert forall|p: Seq<char>|
                #[trigger] self.snapshot.fingerprint_of(p) == after_reconcile(
                    cursor,
                    *walked,
                    p,
                ) by {
                if walked.has_key(p) {
                    let j = choose|j: int| walked.holds_at(p, j);
                    assert(j < n && walked.holds_at(p, j));
                }
            }
        }
        changes
    }

    /// Compares a fresh scan with the cursor (the catch-up at startup), then adopts it.
    pub fn full_scan(&mut self, fresh: Snapshot) -> (r: Vec<Change>)
        requires
            old(self).wf(),
            fresh.wf(),
        ensures
            final(self).wf(),
            final(self).config == old(self).config,
            final(self).snapshot == fresh,
            changes_view(r@) == diff_of(old(self).snapshot, fresh),
    {
        let changes = diff(&self.snapshot, &fresh);
        self.snapshot = fresh;
        changes
    }

    /// Whether `path` is one that [`ScanEngine::observe`] reads the file of.
    pub fn wants(&self, path: &str) -> (r: bool)
        ensures
            r == self.config.watched(path@),
    {
        self.config.is_tracked(path) && !self.config.is_excluded(path)
    }

    /// Folds what was read at a single changed path into the cursor. The detected
    /// change, if any: a path that is not tracked, or ignored, or unchanged, yields `None`.
    pub fn observe(&mut self, path: &str, read: FileRead) -> (r: Option<Change>)
        requires
            old(self).wf(),
        ensures
            final(self).wf(),
            final(self).config == old(self).config,
            r is Some == (old(self).config.watched(path@) && observed_change(
                path@,
                old(self).snapshot.fingerprint_of(path@),
                read,
            ) is Some),
            r matches Some(c) ==> observed_change(
                path@,
                old(self).snapshot.fingerprint_of(path@),
                read,
            ) == Some(c@),
            forall|p: Seq<char>|
                #[trigger] final(self).snapshot.fingerprint_of(p) == if old(self).config.watched(
                    path@,
                ) && components(path@) == components(p) {
                    observed(old(self).snapshot.fingerprint_of(path@), read)
                } else {
                    old(self).snapshot.fingerprint_of(p)
                },
    {
        let ghost before = self.snapshot;
        proof {
            assert forall|p: Seq<char>| components(path@) == components(p) implies
                #[trigger] before.fingerprint_of(p) == before.fingerprint_of(path@) by {
                lemma_same_path(before, path@, p);
            }
        }
        if !self.wants(path) {
            return None;
        }
        match read {
            FileRead::Found(fp) => {
                let kind = match self.snapshot.get(path) {
                    None => ChangeKind::Created,
                    Some(prev) => {
                        if prev.hash == fp.hash {
                            return None;
                        }
                        ChangeKind::Modified
                    },
                };
                self.snapshot.insert(path.to_owned(), fp.clone());
                Some(
                    Change {
                        path: path.to_owned(),
                        kind,
                        fingerprint: Some(fp),
                        moved_from: None,
                    },
                )
            },
            FileRead::Missing => {
                if self.forget(path) {
                    Some(removed_change(path.to_owned()))
                } else {
                    None
                }
            },
            FileRead::Unreadable | FileRead::Ignored => None,
        }
    }
}

/// One path has one fingerprint, however it is spelled.
pub proof fn lemma_same_path(s: Snapshot, a: Seq<char>, b: Seq<char>)
    requires
        s.wf(),
        components(a) == components(b),
    ensures
        s.fingerprint_of(a) == s.fingerprint_of(b),
{
    if s.files.has_key(a) {
        let i = choose|i: int| s.files.holds_at(a, i);
        assert(s.files.holds_at(b, i));
        s.files.lemma_entry(a, i);
        s.files.lemma_entry(b, i);
    } else if s.files.has_key(b) {
        let i = choose|i: int| s.files.holds_at(b, i);
        assert(s.files.holds_at(a, i));
    }
}

proof fn lemma_last_fingerprint(s: Snapshot, n: int, path: Seq<char>)
    requires
        s.wf(),
        0 <= n <= s.entries().len(),
    ensures
        last_fingerprint(s.entries().take(n), path) is Some ==> last_fingerprint(
            s.entries().take(n),
            path,
        ) == s.fingerprint_of(path),
        n == s.entries().len() ==> last_fingerprint(s.entries().take(n), path)
            == s.fingerprint_of(path),
        last_fingerprint(s.entries().take(n), path) is None ==> forall|i: int|
            0 <= i < n ==> !s.files.holds_at(path, i),
    decreases n,
{
    let t = s.entries().take(n);
    if n > 0 {
        lemma_last_fingerprint(s, n - 1, path);
        assert(t.drop_last() =~= s.entries().take(n - 1));
        assert(t.last() == s.entries()[n - 1]);
        if components(t.last().0) == components(path) {
            assert(s.files.holds_at(path, n - 1));
            s.files.lemma_entry(path, n - 1);
        }
    }
}

// ------------------------------------------------------------------------- laws

proof fn lemma_entry_fingerprint(s: Snapshot, i: int)
    requires
        s.wf(),
        0 <= i < s.entries().len(),
    ensures
        s.fingerprint_of(s.entries()[i].0) == Some(s.entries()[i].1),
{
    let p = s.entries()[i].0;
    assert(s.files.holds_at(p, i));
    s.files.lemma_entry(p, i);
}

proof fn lemma_only_in(entries: Seq<Entry>, other: Snapshot)
    ensures
        forall|e: Entry|
            #[trigger] only_in(entries, other).contains(e) <==> entries.contains(e)
                && other.fingerprint_of(e.0) is None,
    decreases entries.len(),
{
    if entries.len() > 0 {
        let rest = entries.drop_last();
        let last = entries.last();
        lemma_only_in(rest, other);
        let r = only_in(entries, other);
        assert forall|e: Entry| #[trigger] r.contains(e) <==> entries.contains(e) && other.fingerprint_of(
            e.0,
        ) is None by {
            assert(entries =~= rest.push(last));
            if entries.contains(e) {
                let i = choose|i: int| 0 <= i < entries.len() && entries[i] == e;
                if i < rest.len() {
                    assert(rest[i] == e);
                }
            }
            if rest.contains(e) {
                let i = choose|i: int| 0 <= i < rest.len() && rest[i] == e;
                assert(entries[i] == e);
            }
            let kept = only_in(rest, other);
            if kept.contains(e) {
                let i = choose|i: int| 0 <= i < kept.len() && kept[i] == e;
                assert(r[i] == e);
            }
            if other.fingerprint_of(last.0) is None {
                assert(r[kept.len() as int] == last);
                if r.contains(e) {
                    let i = choose|i: int| 0 <= i < r.len() && r[i] == e;
                    if i < kept.len() {
                        assert(kept[i] == e);
                    }
                }
            }
            assert(entries[entries.len() - 1] == last);
        }
    }
}

proof fn lemma_modifications(entries: Seq<Entry>, old_snap: Snapshot)
    ensures
        forall|c: ChangeView|
            #[trigger] modifications(entries, old_snap).contains(c) <==> exists|i: int|
                0 <= i < entries.len() && is_modification(#[trigger] entries[i], old_snap)
                    && c == modified(entries[i].0, entries[i].1),
    decreases entries.len(),
{
    if entries.len() > 0 {
        let rest = entries.drop_last();
        let last = entries.last();
        lemma_modifications(rest, old_snap);
        let r = modifications(entries, old_snap);
        let before = modifications(rest, old_snap);
        assert forall|c: ChangeView| #[trigger] r.contains(c) <==> exists|i: int|
            0 <= i < entries.len() && is_modification(#[trigger] entries[i], old_snap) && c
                == modified(entries[i].0, entries[i].1) by {
            if r.contains(c) {
                let k = choose|k: int| 0 <= k < r.len() && r[k] == c;
                if k < before.len() {
                    assert(before[k] == c);
                    assert(before.contains(c));
                    let i = choose|i: int|
                        0 <= i < rest.len() && is_modification(#[trigger] rest[i], old_snap) && c
                            == modified(rest[i].0, rest[i].1);
                    assert(entries[i] == rest[i]);
                } else {
                    assert(entries[entries.len() - 1] == last);
                    assert(is_modification(entries[entries.len() - 1], old_snap));
                }
            }
            if exists|i: int|
                0 <= i < entries.len() && is_modification(#[trigger] entries[i], old_snap) && c
                    == modified(entries[i].0, entries[i].1) {
                let i = choose|i: int|
                    0 <= i < entries.len() && is_modification(#[trigger] entries[i], old_snap) && c
                        == modified(entries[i].0, entries[i].1);
                if i < rest.len() {
                    assert(rest[i] == entries[i]);
                    assert(is_modification(rest[i], old_snap));
                    assert(before.contains(c));
                    let k = choose|k: int| 0 <= k < before.len() && before[k] == c;
                    assert(r[k] == c);
                } else {
                    assert(r[before.len() as int] == c);
                }
            }
        }
    }
}

proof fn lemma_origin(gone: Seq<Entry>, taken: Set<int>, hash: Seq<char>, i: int)
    requires
        0 <= i <= gone.len(),
    ensures
        i <= origin_from(gone, taken, hash, i) <= gone.len(),
        origin_from(gone, taken, hash, i) < gone.len() ==> {
            let at = origin_from(gone, taken, hash, i);
            gone[at].1.hash@ == hash && !taken.contains(at)
        },
    decreases gone.len() - i,
{
    if i < gone.len() && !(gone[i].1.hash@ == hash && !taken.contains(i)) {
        lemma_origin(gone, taken, hash, i + 1);
    }
}

proof fn lemma_taken(fresh: Seq<Entry>, gone: Seq<Entry>, n: int)
    requires
        0 <= n <= fresh.len(),
    ensures
        forall|at: int|
            #[trigger] taken_after(fresh, gone, n).contains(at) <==> exists|m: int|
                0 <= m < n && #[trigger] origin_of(fresh, gone, m) == at && at < gone.len(),
        forall|at: int| taken_after(fresh, gone, n).contains(at) ==> 0 <= at < gone.len(),
    decreases n,
{
    if n > 0 {
        lemma_taken(fresh, gone, n - 1);
        let was = taken_after(fresh, gone, n - 1);
        let last = origin_of(fresh, gone, n - 1);
        lemma_origin(gone, was, fresh[n - 1].1.hash@, 0);
        assert forall|at: int|
            #[trigger] taken_after(fresh, gone, n).contains(at) <==> exists|m: int|
                0 <= m < n && #[trigger] origin_of(fresh, gone, m) == at && at < gone.len() by {
            if was.contains(at) {
                let m = choose|m: int|
                    0 <= m < n - 1 && #[trigger] origin_of(fresh, gone, m) == at && at < gone.len();
                assert(0 <= m < n && origin_of(fresh, gone, m) == at);
            }
        }
    }
}

proof fn lemma_removals(gone: Seq<Entry>, taken: Set<int>, n: int)
    requires
        0 <= n <= gone.len(),
    ensures
        forall|c: ChangeView|
            #[trigger] removals(gone, taken, n).contains(c) <==> exists|i: int|
                0 <= i < n && !taken.contains(i) && c == removed((#[trigger] gone[i]).0),
    decreases n,
{
    if n > 0 {
        lemma_removals(gone, taken, n - 1);
        let before = removals(gone, taken, n - 1);
        let r = removals(gone, taken, n);
        assert forall|c: ChangeView| #[trigger] r.contains(c) <==> exists|i: int|
            0 <= i < n && !taken.contains(i) && c == removed((#[trigger] gone[i]).0) by {
            if r.contains(c) {
                let k = choose|k: int| 0 <= k < r.len() && r[k] == c;
                if k < before.len() {
                    assert(before[k] == c);
                    assert(before.contains(c));
                } else {
                    assert(c == removed(gone[n - 1].0));
                }
            }
            if exists|i: int| 0 <= i < n && !taken.contains(i) && c == removed(
                (#[trigger] gone[i]).0,
            ) {
                let i = choose|i: int|
                    0 <= i < n && !taken.contains(i) && c == removed((#[trigger] gone[i]).0);
                if i < n - 1 {
                    assert(before.contains(c));
                    let k = choose|k: int| 0 <= k < before.len() && before[k] == c;
                    assert(r[k] == c);
                } else {
                    assert(r[before.len() as int] == c);
                }
            }
        }
    }
}

/// Whether an old snapshot tracks an entry's path with another content hash.
pub open spec fn is_modification(e: Entry, old_snap: Snapshot) -> bool {
    match old_snap.fingerprint_of(e.0) {
        Some(was) => was.hash@ != e.1.hash@,
        None => false,
    }
}

/// Comparing a snapshot with itself finds no change.
pub proof fn diff_with_itself_is_empty(s: Snapshot)
    requires
        s.wf(),
    ensures
        diff_of(s, s) == Seq::<ChangeView>::empty(),
{
    let all = s.entries();
    lemma_only_in(all, s);
    let gone = only_in(all, s);
    if gone.len() > 0 {
        assert(gone.contains(gone[0]));
        let i = choose|i: int| 0 <= i < all.len() && all[i] == gone[0];
        lemma_entry_fingerprint(s, i);
    }
    lemma_modifications(all, s);
    let mods = modifications(all, s);
    if mods.len() > 0 {
        assert(mods.contains(mods[0]));
        let i = choose|i: int|
            0 <= i < all.len() && is_modification(#[trigger] all[i], s) && mods[0] == modified(
                all[i].0,
                all[i].1,
            );
        lemma_entry_fingerprint(s, i);
    }
    assert(diff_of(s, s) =~= Seq::<ChangeView>::empty());
}

/// No two added files are taken to be moved from the same removed one, and a moved
/// file has the content hash of the one it was moved from.
pub proof fn moves_have_their_own_origins(fresh: Seq<Entry>, gone: Seq<Entry>, n: int, m: int)
    requires
        0 <= n < fresh.len(),
        0 <= m < fresh.len(),
        origin_of(fresh, gone, n) < gone.len(),
        origin_of(fresh, gone, n) == origin_of(fresh, gone, m),
    ensures
        n == m,
        gone[origin_of(fresh, gone, n)].1.hash@ == fresh[n].1.hash@,
{
    lemma_origin(gone, taken_after(fresh, gone, n), fresh[n].1.hash@, 0);
    lemma_origin(gone, taken_after(fresh, gone, m), fresh[m].1.hash@, 0);
    lemma_taken(fresh, gone, n);
    lemma_taken(fresh, gone, m);
}

/// Whether a change reports a file that the old snapshot does not track and the new
/// one does.
pub open spec fn reports_added(c: ChangeView, e: Entry) -> bool {
    c.path == e.0 && c.fingerprint == Some(e.1) && (c.kind == ChangeKind::Created || c.kind
        == ChangeKind::Moved)
}

/// Whether a change reports a file that the new snapshot no longer tracks.
pub open spec fn reports_removed(c: ChangeView, path: Seq<char>) -> bool {
    c == removed(path) || (c.kind == ChangeKind::Moved && c.moved_from == Some(path))
}

/// A diff leaves nothing out: every added file is reported as created or moved, every
/// removed one as removed or as the origin of a move, and every file whose content
/// hash differs as modified.
pub proof fn diff_reports_every_difference(old_snap: Snapshot, new_snap: Snapshot, e: Entry)
    requires
        old_snap.wf(),
        new_snap.wf(),
    ensures
        new_snap.entries().contains(e) && old_snap.fingerprint_of(e.0) is None ==> exists|k: int|
            0 <= k < diff_of(old_snap, new_snap).len() && reports_added(
                #[trigger] diff_of(old_snap, new_snap)[k],
                e,
            ),
        old_snap.entries().contains(e) && new_snap.fingerprint_of(e.0) is None ==> exists|k: int|
            0 <= k < diff_of(old_snap, new_snap).len() && reports_removed(
                #[trigger] diff_of(old_snap, new_snap)[k],
                e.0,
            ),
        new_snap.entries().contains(e) && is_modification(e, old_snap) ==> diff_of(
            old_snap,
            new_snap,
        ).contains(modified(e.0, e.1)),
{
    let gone = only_in(old_snap.entries(), new_snap);
    let fresh = only_in(new_snap.entries(), old_snap);
    let mods = modifications(new_snap.entries(), old_snap);
    let placed = Seq::new(fresh.len(), |n: int| placement(fresh, gone, n));
    let taken = taken_after(fresh, gone, fresh.len() as int);
    let left = removals(gone, taken, gone.len() as int);
    let d = diff_of(old_snap, new_snap);
    lemma_only_in(old_snap.entries(), new_snap);
    lemma_only_in(new_snap.entries(), old_snap);
    lemma_modifications(new_snap.entries(), old_snap);
    lemma_taken(fresh, gone, fresh.len() as int);
    lemma_removals(gone, taken, gone.len() as int);
    if fresh.contains(e) {
        let n = choose|n: int| 0 <= n < fresh.len() && fresh[n] == e;
        assert(d[mods.len() + n] == placed[n]);
        assert(reports_added(d[mods.len() + n], e));
    }
    if gone.contains(e) {
        let i = choose|i: int| 0 <= i < gone.len() && gone[i] == e;
        if taken.contains(i) {
            let n = choose|n: int|
                0 <= n < fresh.len() && #[trigger] origin_of(fresh, gone, n) == i && i < gone.len();
            assert(d[mods.len() + n] == placed[n]);
            assert(reports_removed(d[mods.len() + n], e.0));
        } else {
            assert(left.contains(removed(gone[i].0)));
            let k = choose|k: int| 0 <= k < left.len() && left[k] == removed(e.0);
            assert(d[mods.len() + placed.len() + k] == left[k]);
            assert(reports_removed(d[mods.len() + placed.len() + k], e.0));
        }
    }
    if new_snap.entries().contains(e) && is_modification(e, old_snap) {
        let all = new_snap.entries();
        let i = choose|i: int| 0 <= i < all.len() && all[i] == e;
        assert(is_modification(all[i], old_snap));
        assert(mods.contains(modified(e.0, e.1)));
        let k = choose|k: int| 0 <= k < mods.len() && mods[k] == modified(e.0, e.1);
        assert(d[k] == mods[k]);
    }
}

/// A diff reports nothing else: each change is about a file that was added, removed,
/// moved or modified between the two snapshots.
pub proof fn diff_reports_only_differences(old_snap: Snapshot, new_snap: Snapshot, k: int)
    requires
        old_snap.wf(),
        new_snap.wf(),
        0 <= k < diff_of(old_snap, new_snap).len(),
    ensures
        ({
            let c = diff_of(old_snap, new_snap)[k];
            match c.kind {
                ChangeKind::Created => old_snap.fingerprint_of(c.path) is None
                    && new_snap.fingerprint_of(c.path) == c.fingerprint && c.fingerprint is Some,
                ChangeKind::Modified => c.fingerprint is Some && new_snap.fingerprint_of(c.path)
                    == c.fingerprint && is_modification((c.path, c.fingerprint->0), old_snap),
                ChangeKind::Removed => old_snap.fingerprint_of(c.path) is Some
                    && new_snap.fingerprint_of(c.path) is None && c.fingerprint is None,
                ChangeKind::Moved => old_snap.fingerprint_of(c.path) is None
                    && new_snap.fingerprint_of(c.path) == c.fingerprint && c.fingerprint is Some
                    && c.moved_from is Some && new_snap.fingerprint_of(c.moved_from->0) is None && (
                old_snap.fingerprint_of(c.moved_from->0) matches Some(was) && was.hash@
                    == c.fingerprint->0.hash@),
            }
        }),
{
    let gone = only_in(old_snap.entries(), new_snap);
    let fresh = only_in(new_snap.entries(), old_snap);
    let mods = modifications(new_snap.entries(), old_snap);
    let placed = Seq::new(fresh.len(), |n: int| placement(fresh, gone, n));
    let taken = taken_after(fresh, gone, fresh.len() as int);
    let left = removals(gone, taken, gone.len() as int);
    let d = diff_of(old_snap, new_snap);
    let c = d[k];
    lemma_only_in(old_snap.entries(), new_snap);
    lemma_only_in(new_snap.entries(), old_snap);
    if k < mods.len() {
        lemma_modifications(new_snap.entries(), old_snap);
        assert(mods[k] == c);
        assert(mods.contains(c));
        let all = new_snap.entries();
        let i = choose|i: int|
            0 <= i < all.len() && is_modification(#[trigger] all[i], old_snap) && c == modified(
                all[i].0,
                all[i].1,
            );
        lemma_entry_fingerprint(new_snap, i);
    } else if k < mods.len() + placed.len() {
        let n = k - mods.len();
        assert(c == placement(fresh, gone, n));
        assert(fresh.contains(fresh[n]));
        let all = new_snap.entries();
        let i = choose|i: int| 0 <= i < all.len() && all[i] == fresh[n];
        lemma_entry_fingerprint(new_snap, i);
        lemma_origin(gone, taken_after(fresh, gone, n), fresh[n].1.hash@, 0);
        let at = origin_of(fresh, gone, n);
        if at < gone.len() {
            assert(gone.contains(gone[at]));
            let was = old_snap.entries();
            let j = choose|j: int| 0 <= j < was.len() && was[j] == gone[at];
            lemma_entry_fingerprint(old_snap, j);
        }
    } else {
        let m = k - mods.len() - placed.len();
        lemma_removals(gone, taken, gone.len() as int);
        assert(left[m] == c);
        assert(left.contains(c));
        let i = choose|i: int|
            0 <= i < gone.len() && !taken.contains(i) && c == removed((#[trigger] gone[i]).0);
        assert(gone.contains(gone[i]));
        let was = old_snap.entries();
        let j = choose|j: int| 0 <= j < was.len() && was[j] == gone[i];
        lemma_entry_fingerprint(old_snap, j);
    }
}

/// Whether no two entries are of one path.
spec fn distinct(es: Seq<Entry>) -> bool {
    forall|i: int, j: int|
        0 <= i < j < es.len() ==> components((#[trigger] es[i]).0) != components(
            (#[trigger] es[j]).0,
        )
}

proof fn lemma_entries_distinct(s: Snapshot)
    requires
        s.wf(),
    ensures
        distinct(s.entries()),
{
    let es = s.entries();
    assert forall|i: int, j: int| 0 <= i < j < es.len() implies components((#[trigger] es[i]).0)
        != components((#[trigger] es[j]).0) by {
        if components(es[i].0) == components(es[j].0) {
            assert(s.files.holds_at(es[i].0, i));
            assert(s.files.holds_at(es[i].0, j));
            s.files.lemma_entry(es[i].0, i);
        }
    }
}

proof fn lemma_only_in_distinct(entries: Seq<Entry>, other: Snapshot)
    requires
        distinct(entries),
    ensures
        distinct(only_in(entries, other)),
    decreases entries.len(),
{
    if entries.len() > 0 {
        let rest = entries.drop_last();
        lemma_only_in_distinct(rest, other);
        lemma_only_in(rest, other);
        let before = only_in(rest, other);
        let r = only_in(entries, other);
        assert forall|i: int, j: int| 0 <= i < j < r.len() implies components((#[trigger] r[i]).0)
            != components((#[trigger] r[j]).0) by {
            assert(r[i] == before[i]);
            if j < before.len() {
                assert(r[j] == before[j]);
            } else {
                assert(before.contains(before[i]));
                let a = choose|a: int| 0 <= a < rest.len() && rest[a] == before[i];
                assert(entries[a] == rest[a]);
                assert(entries[entries.len() - 1] == entries.last());
            }
        }
    }
}

proof fn lemma_modifications_distinct(entries: Seq<Entry>, old_snap: Snapshot, i: int, j: int)
    requires
        distinct(entries),
        0 <= i < j < modifications(entries, old_snap).len(),
    ensures
        components(modifications(entries, old_snap)[i].path) != components(
            modifications(entries, old_snap)[j].path,
        ),
    decreases entries.len(),
{
    let rest = entries.drop_last();
    let before = modifications(rest, old_snap);
    let r = modifications(entries, old_snap);
    assert(r[i] == before[i]);
    if j < before.len() {
        assert(r[j] == before[j]);
        lemma_modifications_distinct(rest, old_snap, i, j);
    } else {
        lemma_modifications(rest, old_snap);
        assert(before.contains(before[i]));
        let a = choose|a: int|
            0 <= a < rest.len() && is_modification(#[trigger] rest[a], old_snap) && before[i]
                == modified(rest[a].0, rest[a].1);
        assert(entries[a] == rest[a]);
        assert(entries[entries.len() - 1] == entries.last());
    }
}

proof fn lemma_removals_distinct(gone: Seq<Entry>, taken: Set<int>, n: int, i: int, j: int)
    requires
        distinct(gone),
        0 <= n <= gone.len(),
        0 <= i < j < removals(gone, taken, n).len(),
    ensures
        components(removals(gone, taken, n)[i].path) != components(
            removals(gone, taken, n)[j].path,
        ),
    decreases n,
{
    let before = removals(gone, taken, n - 1);
    let r = removals(gone, taken, n);
    assert(r[i] == before[i]);
    if j < before.len() {
        assert(r[j] == before[j]);
        lemma_removals_distinct(gone, taken, n - 1, i, j);
    } else {
        lemma_removals(gone, taken, n - 1);
        assert(before.contains(before[i]));
        let a = choose|a: int|
            0 <= a < n - 1 && !taken.contains(a) && before[i] == removed((#[trigger] gone[a]).0);
        assert(gone[a].0 == before[i].path);
        assert(gone[n - 1].0 == r[j].path);
    }
}

proof fn lemma_no_origin(gone: Seq<Entry>, taken: Set<int>, hash: Seq<char>, i: int)
    requires
        0 <= i <= gone.len(),
        origin_from(gone, taken, hash, i) == gone.len(),
    ensures
        forall|a: int|
            i <= a < gone.len() ==> (#[trigger] gone[a]).1.hash@ != hash || taken.contains(a),
    decreases gone.len() - i,
{
    if i < gone.len() {
        lemma_no_origin(gone, taken, hash, i + 1);
    }
}

/// A diff names each path once: no two changes are of one path, no file was moved from the
/// path of another change, no two files were moved from one path, and no created file has the
/// content of a removed one.
pub proof fn diff_names_each_path_once(old_snap: Snapshot, new_snap: Snapshot, k: int, m: int)
    requires
        old_snap.wf(),
        new_snap.wf(),
        0 <= k < diff_of(old_snap, new_snap).len(),
        0 <= m < diff_of(old_snap, new_snap).len(),
        k != m,
    ensures
        ({
            let a = diff_of(old_snap, new_snap)[k];
            let b = diff_of(old_snap, new_snap)[m];
            &&& components(a.path) != components(b.path)
            &&& a.moved_from matches Some(from) ==> components(from) != components(b.path)
            &&& a.moved_from matches Some(from) ==> (b.moved_from matches Some(other)
                ==> components(from) != components(other))
            &&& a.kind == ChangeKind::Created && b.kind == ChangeKind::Removed ==> {
                &&& a.fingerprint matches Some(fp)
                &&& old_snap.fingerprint_of(b.path) matches Some(was)
                &&& fp.hash@ != was.hash@
            }
        }),
{
    let gone = only_in(old_snap.entries(), new_snap);
    let fresh = only_in(new_snap.entries(), old_snap);
    let mods = modifications(new_snap.entries(), old_snap);
    let placed = Seq::new(fresh.len(), |n: int| placement(fresh, gone, n));
    let taken = taken_after(fresh, gone, fresh.len() as int);
    let left = removals(gone, taken, gone.len() as int);
    let d = diff_of(old_snap, new_snap);
    let (a, b) = (d[k], d[m]);
    let p = mods.len() as int;
    let q = p + placed.len();
    diff_reports_only_differences(old_snap, new_snap, k);
    diff_reports_only_differences(old_snap, new_snap, m);
    lemma_entries_distinct(old_snap);
    lemma_entries_distinct(new_snap);
    lemma_only_in_distinct(old_snap.entries(), new_snap);
    lemma_only_in_distinct(new_snap.entries(), old_snap);
    lemma_only_in(old_snap.entries(), new_snap);
    lemma_taken(fresh, gone, fresh.len() as int);
    lemma_removals(gone, taken, gone.len() as int);
    lemma_modifications(new_snap.entries(), old_snap);
    if k < p {
        assert(mods.contains(mods[k]));
    }
    if m < p {
        assert(mods.contains(mods[m]));
    }
    if k >= q {
        assert(left.contains(left[k - q]));
    }
    if m >= q {
        assert(left.contains(left[m - q]));
    }
    if components(a.path) == components(b.path) {
        lemma_same_path(old_snap, a.path, b.path);
        lemma_same_path(new_snap, a.path, b.path);
        let (i, j) = if k < m {
            (k, m)
        } else {
            (m, k)
        };
        if j < p {
            lemma_modifications_distinct(new_snap.entries(), old_snap, i, j);
            assert(d[i] == mods[i] && d[j] == mods[j]);
        } else if p <= i && j < q {
            assert(d[i] == placed[i - p] && d[j] == placed[j - p]);
            assert(fresh[i - p].0 == d[i].path && fresh[j - p].0 == d[j].path);
        } else if q <= i {
            lemma_removals_distinct(gone, taken, gone.len() as int, i - q, j - q);
            assert(d[i] == left[i - q] && d[j] == left[j - q]);
        }
    }
    if let Some(from) = a.moved_from {
        let n = k - p;
        assert(p <= k < q);
        assert(a == placement(fresh, gone, n));
        let at = origin_of(fresh, gone, n);
        lemma_origin(gone, taken_after(fresh, gone, n), fresh[n].1.hash@, 0);
        assert(from == gone[at].0);
        if components(from) == components(b.path) {
            lemma_same_path(new_snap, from, b.path);
            assert(m >= q);
            let i = choose|i: int|
                0 <= i < gone.len() && !taken.contains(i) && b == removed((#[trigger] gone[i]).0);
            assert(taken.contains(at));
            assert(i != at);
            assert(gone[i].0 == b.path);
        }
        if let Some(other) = b.moved_from {
            let l = m - p;
            assert(p <= m < q);
            assert(b == placement(fresh, gone, l));
            let to = origin_of(fresh, gone, l);
            lemma_origin(gone, taken_after(fresh, gone, l), fresh[l].1.hash@, 0);
            if at == to {
                moves_have_their_own_origins(fresh, gone, n, l);
            }
            assert(other == gone[to].0);
        }
    }
    if a.kind == ChangeKind::Created && b.kind == ChangeKind::Removed {
        let n = k - p;
        assert(p <= k < q && m >= q);
        assert(a == placement(fresh, gone, n));
        let early = taken_after(fresh, gone, n);
        lemma_origin(gone, early, fresh[n].1.hash@, 0);
        lemma_no_origin(gone, early, fresh[n].1.hash@, 0);
        lemma_taken(fresh, gone, n);
        let i = choose|i: int|
            0 <= i < gone.len() && !taken.contains(i) && b == removed((#[trigger] gone[i]).0);
        if early.contains(i) {
            let l = choose|l: int|
                0 <= l < n && #[trigger] origin_of(fresh, gone, l) == i && i < gone.len();
            assert(0 <= l < fresh.len() && origin_of(fresh, gone, l) == i);
            assert(taken.contains(i));
        }
        assert(gone.contains(gone[i]));
        let was = old_snap.entries();
        let j = choose|j: int| 0 <= j < was.len() && was[j] == gone[i];
        lemma_entry_fingerprint(old_snap, j);
    }
}

/// A write that leaves a file as it is tells nothing: what was observed once is not reported
/// when it is observed again.
pub proof fn observing_again_reports_nothing(
    path: Seq<char>,
    was: Option<FileFingerprint>,
    read: FileRead,
)
    ensures
        observed_change(path, observed(was, read), read) is None,
        observed(observed(was, read), read) == observed(was, read),
{
}

proof fn lemma_nothing_gone(entries: Seq<Entry>, walked: Walked)
    requires
        forall|i: int| 0 <= i < entries.len() ==> walked.has_key(#[trigger] entries[i].0),
    ensures
        gone_from(entries, walked) == Seq::<Seq<char>>::empty(),
    decreases entries.len(),
{
    if entries.len() > 0 {
        let rest = entries.drop_last();
        assert forall|i: int| 0 <= i < rest.len() implies walked.has_key(#[trigger] rest[i].0) by {
            assert(rest[i] == entries[i]);
        }
        assert(entries[entries.len() - 1] == entries.last());
        lemma_nothing_gone(rest, walked);
    }
}

proof fn lemma_nothing_new(found: Seq<(String, Option<FileFingerprint>)>, cursor: Snapshot)
    requires
        forall|i: int|
            0 <= i < found.len() && (#[trigger] found[i]).1 is Some ==> cursor.fingerprint_of(
                found[i].0@,
            ) is Some,
    ensures
        new_to(found, cursor) == Seq::<Entry>::empty(),
    decreases found.len(),
{
    if found.len() > 0 {
        let rest = found.drop_last();
        assert forall|i: int| 0 <= i < rest.len() && (#[trigger] rest[i]).1 is Some implies
            cursor.fingerprint_of(rest[i].0@) is Some by {
            assert(rest[i] == found[i]);
        }
        assert(found[found.len() - 1] == found.last());
        lemma_nothing_new(rest, cursor);
    }
}

/// A cursor that was brought in step with a walk is in step with it: reconciling it with the
/// same walk again reports nothing.
pub proof fn reconciling_again_reports_nothing(cursor: Snapshot, walked: Walked, after: Snapshot)
    requires
        cursor.wf(),
        walked.wf(),
        walked.order == KeyOrder::Path,
        after.wf(),
        forall|p: Seq<char>|
            #[trigger] after.fingerprint_of(p) == after_reconcile(cursor, walked, p),
    ensures
        reconciled(after, walked) == Seq::<ChangeView>::empty(),
{
    let es = after.entries();
    assert forall|i: int| 0 <= i < es.len() implies walked.has_key(#[trigger] es[i].0) by {
        lemma_entry_fingerprint(after, i);
    }
    lemma_nothing_gone(es, walked);
    let found = walked.entries@;
    assert forall|i: int| 0 <= i < found.len() && (#[trigger] found[i]).1 is Some implies
        after.fingerprint_of(found[i].0@) is Some by {
        assert(walked.holds_at(found[i].0@, i));
        walked.lemma_entry(found[i].0@, i);
    }
    lemma_nothing_new(found, after);
    assert(reconciled(after, walked) =~= Seq::<ChangeView>::empty());
}

} // verus!
