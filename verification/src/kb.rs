//! The knowledge base as its users see it: documents, search hits, the [`Kb`] trait,
//! and an in-memory backend.

use crate::frontmatter::after_open;
use crate::path::{components, eq_ignore_case, last_index, last_index_of, lemma_last_index_of, same_ignoring_case};
use crate::sorted::{KeyOrder, SortedMap};
use crate::text::{
    chars_of, contains, decimal, decimal_of, find, has, is_at, lines, lines_of, lowercase,
    lowercase_of, occurs_at, position, push_chars, starts, starts_with, string_of, texts, trim,
    trim_start, trim_white, trimmed, trimmed_start, CharSet,
};
use vstd::prelude::*;
use vstd::slice::slice_subrange;

verus! {

/// Errors that a [`Kb`] backend may return.
#[derive(Debug)]
pub enum KbError {
    /// An I/O error touching a specific path.
    Io { path: String, message: String },
    /// A backend-specific failure (parse, persistence, etc.).
    Backend(String),
}

impl KbError {
    /// What the error says.
    pub open spec fn text(&self) -> Seq<char> {
        match self {
            KbError::Io { path, message } => "knowledge-base I/O error at "@ + path@ + ": "@ + message@,
            KbError::Backend(m) => "knowledge-base backend error: "@ + m@,
        }
    }

    /// What the error says.
    pub fn message(&self) -> (r: String)
        ensures
            r@ == self.text(),
    {
        match self {
            KbError::Io { path, message } => {
                let mut s = "knowledge-base I/O error at ".to_owned();
                s.append(path.as_str());
                s.append(": ");
                s.append(message.as_str());
                s
            },
            KbError::Backend(m) => {
                let mut s = "knowledge-base backend error: ".to_owned();
                s.append(m.as_str());
                s
            },
        }
    }
}

/// A source document to be indexed into the knowledge base.
#[derive(Debug, Clone)]
pub struct SourceDoc {
    /// Absolute path of the source file (the index key; also recorded for sync).
    pub source_path: String,
    /// Bundle-relative concept id: the path relative to the workspace folder, with the
    /// file extension (`docs/readme.md`, say).
    pub concept_id: String,
    /// The raw markdown content (frontmatter and body).
    pub content: String,
}

/// A reference to an indexed concept, and the metadata to show it with.
#[derive(Debug, Clone, PartialEq, Eq)]
pub struct ConceptRef {
    /// The stable, producer-owned identity (e.g. `urn:looper:doc:7`).
    pub okf_id: String,
    /// The bundle-relative concept id.
    pub concept_id: String,
    /// Display title as known to the index: the frontmatter's, else the first `# H1`, else the
    /// file name.
    pub title: String,
    /// Labels/tags from the document's frontmatter (`tags:`); empty when none.
    pub labels: Vec<String>,
}

/// A search result.
#[derive(Debug, Clone, PartialEq, Eq)]
pub struct SearchHit {
    /// The concept id that matched.
    pub concept_id: String,
    /// The concept's title.
    pub title: String,
    /// A short snippet around the match.
    pub snippet: String,
    /// The source file path.
    pub path: String,
    /// Labels/tags from the document's frontmatter.
    pub labels: Vec<String>,
}

/// What a [`SearchHit`] says.
pub struct HitView {
    pub concept_id: Seq<char>,
    pub title: Seq<char>,
    pub snippet: Seq<char>,
    pub path: Seq<char>,
    pub labels: Seq<Seq<char>>,
}

impl View for SearchHit {
    type V = HitView;

    open spec fn view(&self) -> HitView {
        HitView {
            concept_id: self.concept_id@,
            title: self.title@,
            snippet: self.snippet@,
            path: self.path@,
            labels: texts(self.labels@),
        }
    }
}

/// What a list of hits says.
pub open spec fn hits_view(v: Seq<SearchHit>) -> Seq<HitView> {
    v.map_values(|h: SearchHit| h@)
}

/// A catalog entry for one indexed document.
#[derive(Debug, Clone, PartialEq, Eq)]
pub struct DocSummary {
    /// The source file path.
    pub path: String,
    /// The knowledge-base output path: the bundle file of this document. Backends that
    /// emit none repeat `path` here.
    pub kb_path: String,
    /// Display title, when known: the frontmatter's, else the first `# H1`, else the file
    /// name.
    pub title: Option<String>,
    /// Labels/tags from the bundle's frontmatter; empty when none.
    pub labels: Vec<String>,
}

/// What a [`DocSummary`] says.
pub struct SummaryView {
    pub path: Seq<char>,
    pub kb_path: Seq<char>,
    pub title: Option<Seq<char>>,
    pub labels: Seq<Seq<char>>,
}

/// What an optional text says.
pub open spec fn opt_text(s: Option<String>) -> Option<Seq<char>> {
    match s {
        Some(t) => Some(t@),
        None => None,
    }
}

impl View for DocSummary {
    type V = SummaryView;

    open spec fn view(&self) -> SummaryView {
        SummaryView {
            path: self.path@,
            kb_path: self.kb_path@,
            title: opt_text(self.title),
            labels: texts(self.labels@),
        }
    }
}

/// What a list of catalog entries says.
pub open spec fn summaries_view(v: Seq<DocSummary>) -> Seq<SummaryView> {
    v.map_values(|d: DocSummary| d@)
}

/// One tag and how many indexed documents carry it.
#[derive(Debug, Clone, PartialEq, Eq)]
pub struct TagCount {
    /// The tag (a frontmatter label).
    pub tag: String,
    /// Number of indexed documents carrying this tag.
    pub count: u32,
}

/// What a backend was told to do, and what it answered.
#[allow(inconsistent_fields)]
pub enum KbCall {
    /// Index a document: its source path, concept id and content.
    Index {
        source_path: Seq<char>,
        concept_id: Seq<char>,
        content: Seq<char>,
        answer: Result<ConceptRef, KbError>,
    },
    /// Remove the document indexed from a source path.
    Remove { source_path: Seq<char>, answer: Result<(), KbError> },
    /// Bring the catalog entry of a source path in step with its indexed artifact.
    Refresh { source_path: Seq<char> },
}

/// Calls, in order.
pub type KbCalls = Seq<KbCall>;

/// A knowledge-base backend: it indexes source documents, removes them, and answers
/// searches.
pub trait Kb: Sized {
    /// What every operation relies on and keeps.
    spec fn wf(&self) -> bool;

    /// What the backend was told to index, remove and refresh, with its answers, in order.
    spec fn told(&self) -> KbCalls;

    /// Whether the backend can still give a document an identity of its own.
    spec fn can_mint(&self) -> bool;

    /// Stable backend identifier, e.g. `"okf"` or `"mock"`.
    fn name(&self) -> (r: &str);

    /// Indexes (creates or updates) a document, returning its concept reference. The
    /// `okf_id` is preserved when the same source is indexed again.
    fn index(&mut self, doc: &SourceDoc) -> (r: Result<ConceptRef, KbError>)
        requires
            old(self).wf(),
            old(self).can_mint(),
        ensures
            final(self).wf(),
            final(self).told() == old(self).told().push(
                KbCall::Index {
                    source_path: doc.source_path@,
                    concept_id: doc.concept_id@,
                    content: doc.content@,
                    answer: r,
                },
            ),
    ;

    /// Removes the document indexed from `source_path`. A no-op if it is not indexed.
    fn remove(&mut self, source_path: &str) -> (r: Result<(), KbError>)
        requires
            old(self).wf(),
        ensures
            final(self).wf(),
            old(self).can_mint() ==> final(self).can_mint(),
            final(self).told() == old(self).told().push(
                KbCall::Remove { source_path: source_path@, answer: r },
            ),
    ;

    /// Searches indexed concepts, returning at most `limit` hits.
    fn search(&self, query: &str, limit: usize) -> (r: Result<Vec<SearchHit>, KbError>)
        requires
            self.wf(),
    ;

    /// The number of documents in the index.
    fn doc_count(&self) -> (r: usize)
        requires
            self.wf(),
    ;

    /// The source path of every indexed document. None for backends that do not track it.
    fn source_paths(&self) -> (r: Vec<String>)
        requires
            self.wf(),
        default_ensures
            r@.len() == 0,
    {
        Vec::new()
    }

    /// Drops every document from the index. Does nothing unless a backend says otherwise.
    fn clear(&mut self) -> (r: Result<(), KbError>)
        requires
            old(self).wf(),
        ensures
            final(self).wf(),
            old(self).can_mint() ==> final(self).can_mint(),
        default_ensures
            *final(self) == *old(self),
            r is Ok,
    {
        Ok(())
    }

    /// Reads the indexed markdown for a source document; `None` if it is not indexed.
    fn read_indexed(&self, source_path: &str) -> (r: Option<String>)
        requires
            self.wf(),
    ;

    /// Overwrites the indexed artifact for a source document. `Ok(false)` when the
    /// document is not indexed.
    fn write_indexed(&mut self, source_path: &str, content: &str) -> (r: Result<bool, KbError>)
        requires
            old(self).wf(),
        ensures
            final(self).wf(),
    ;

    /// Every indexed document as a catalog entry.
    fn list_documents(&self) -> (r: Vec<DocSummary>)
        requires
            self.wf(),
    ;

    /// Every tag with the number of documents that carry it. None for backends that do not
    /// keep tags.
    fn tag_counts(&self) -> (r: Vec<TagCount>)
        requires
            self.wf(),
        default_ensures
            r@.len() == 0,
    {
        Vec::new()
    }

    /// Catalog entries for every document that carries `tag`. None for backends that do not
    /// keep tags.
    fn documents_by_tag(&self, tag: &str) -> (r: Vec<DocSummary>)
        requires
            self.wf(),
        default_ensures
            r@.len() == 0,
    {
        Vec::new()
    }

    /// Brings the catalog entry of a document in step with its indexed artifact. `None` for
    /// a document that is not indexed, and for backends without such artifacts.
    fn refresh_indexed(&mut self, source_path: &str) -> (r: Option<ConceptRef>)
        requires
            old(self).wf(),
        ensures
            final(self).wf(),
            old(self).can_mint() ==> final(self).can_mint(),
            final(self).told() == old(self).told().push(
                KbCall::Refresh { source_path: source_path@ },
            ),
    ;
}

/// Opens a [`Kb`] backend for a workspace's KB directory.
pub trait KbProvider {
    /// The backend that is opened.
    type Backend: Kb;

    /// Stable backend identifier (e.g. `"okf"`, `"mock"`).
    fn name(&self) -> (r: &str);

    /// Opens (creating if needed) the KB rooted at `kb_dir`.
    fn open(&self, kb_dir: &str) -> (r: Result<Self::Backend, KbError>)
        ensures
            r matches Ok(kb) ==> kb.wf(),
    ;
}

// ----------------------------------------------------------------------- titles

/// The title that a line gives: what stands behind `# `, unless that is blank.
pub open spec fn heading(line: Seq<char>) -> Option<Seq<char>> {
    let t = trim_start(line, CharSet::White);
    if starts(t, "# "@) && trim_white(t.skip(2)).len() > 0 {
        Some(trim_white(t.skip(2)))
    } else {
        None
    }
}

/// The first heading of some lines.
pub open spec fn first_heading(ls: Seq<Seq<char>>) -> Option<Seq<char>>
    decreases ls.len(),
{
    if ls.len() == 0 {
        None
    } else if heading(ls[0]) is Some {
        heading(ls[0])
    } else {
        first_heading(ls.drop_first())
    }
}

/// What stands behind the last slash.
pub open spec fn last_segment(s: Seq<char>) -> Seq<char> {
    s.skip(last_index_of(s, '/') + 1)
}

/// Whether a text is the extension of a document, whatever the case of its letters.
pub open spec fn is_doc_extension(e: Seq<char>) -> bool {
    same_ignoring_case(e, "md"@) || same_ignoring_case(e, "markdown"@) || same_ignoring_case(
        e,
        "mdx"@,
    ) || same_ignoring_case(e, "adoc"@) || same_ignoring_case(e, "asciidoc"@)
}

/// A file name without the extension of a document.
pub open spec fn without_doc_extension(name: Seq<char>) -> Seq<char> {
    let dot = last_index_of(name, '.');
    if dot >= 0 && is_doc_extension(name.skip(dot + 1)) {
        name.take(dot)
    } else {
        name
    }
}

/// The title of a document: its first heading, else its file name.
pub open spec fn title_of(content: Seq<char>, concept_id: Seq<char>) -> Seq<char> {
    match first_heading(lines(content)) {
        Some(t) => t,
        None => without_doc_extension(last_segment(concept_id)),
    }
}

fn heading_of(line: &str) -> (r: Option<String>)
    ensures
        r is Some == heading(line@) is Some,
        r matches Some(t) ==> heading(line@) == Some(t@),
{
    let cs = chars_of(line);
    let t = trimmed_start(cs.as_slice(), CharSet::White);
    let mark = chars_of("# ");
    proof {
        reveal_strlit("# ");
    }
    if !starts_with(t, mark.as_slice()) {
        return None;
    }
    let rest = slice_subrange(t, 2, t.len());
    assert(rest@ =~= t@.skip(2));
    let title = trimmed(rest, CharSet::White);
    if title.len() == 0 {
        None
    } else {
        Some(string_of(title))
    }
}

/// What stands behind the last slash.
pub fn segment_of(s: &str) -> (r: String)
    ensures
        r@ == last_segment(s@),
{
    let cs = chars_of(s);
    proof {
        lemma_last_index_of(s@, '/');
    }
    let from: usize = match last_index(cs.as_slice(), '/') {
        Some(i) => {
            assert(i < cs.len());
            i + 1
        },
        None => 0,
    };
    let seg = slice_subrange(cs.as_slice(), from, cs.len());
    assert(seg@ =~= last_segment(s@));
    string_of(seg)
}

/// A file name without a recognized document extension (`.md`, `.adoc`, ..).
pub fn strip_doc_extension(name: &str) -> (r: String)
    ensures
        r@ == without_doc_extension(name@),
{
    let cs = chars_of(name);
    match last_index(cs.as_slice(), '.') {
        Some(dot) => {
            assert(dot < cs.len());
            let rest = slice_subrange(cs.as_slice(), dot + 1, cs.len());
            assert(rest@ =~= name@.skip(dot + 1));
            let ext = string_of(rest);
            let e = ext.as_str();
            if eq_ignore_case(e, "md") || eq_ignore_case(e, "markdown") || eq_ignore_case(e, "mdx")
                || eq_ignore_case(e, "adoc") || eq_ignore_case(e, "asciidoc") {
                let stem = slice_subrange(cs.as_slice(), 0, dot);
                assert(stem@ =~= name@.take(dot as int));
                string_of(stem)
            } else {
                name.to_owned()
            }
        },
        None => name.to_owned(),
    }
}

/// Derives a display title from markdown content: the first `# ` heading, else the last
/// segment of `concept_id` without a known document extension.
pub fn derive_title(content: &str, concept_id: &str) -> (r: String)
    ensures
        r@ == title_of(content@, concept_id@),
{
    let ls = lines_of(chars_of(content).as_slice());
    let ghost all = texts(ls@);
    let mut i: usize = 0;
    assert(all.skip(0) =~= all);
    while i < ls.len()
        invariant
            i <= ls@.len(),
            all == texts(ls@),
            all == lines(content@),
            first_heading(all) == first_heading(all.skip(i as int)),
        decreases ls.len() - i,
    {
        proof {
            assert(all.skip(i as int)[0] == ls@[i as int]@);
            assert(all.skip(i as int).drop_first() =~= all.skip(i + 1));
        }
        let h = heading_of(ls[i].as_str());
        match h {
            Some(t) => {
                return t;
            },
            None => {},
        }
        i = i + 1;
    }
    assert(all.skip(i as int) =~= Seq::empty());
    strip_doc_extension(segment_of(concept_id).as_str())
}

/// The title that a frontmatter line gives: what stands behind `title:`, without white
/// space and double quotes around it, unless that is blank.
pub open spec fn title_line(line: Seq<char>) -> Option<Seq<char>> {
    let v = trim(trim_white(line.skip("title:"@.len() as int)), CharSet::Only('"'));
    if starts(line, "title:"@) && v.len() > 0 {
        Some(v)
    } else {
        None
    }
}

/// The first title that frontmatter lines give.
pub open spec fn first_title_line(ls: Seq<Seq<char>>) -> Option<Seq<char>>
    decreases ls.len(),
{
    if ls.len() == 0 {
        None
    } else if title_line(ls[0]) is Some {
        title_line(ls[0])
    } else {
        first_title_line(ls.drop_first())
    }
}

/// The title that a leading frontmatter block gives.
pub open spec fn frontmatter_title_of(content: Seq<char>) -> Option<Seq<char>> {
    match after_open(content) {
        Some(rest) => {
            let plain = find(rest, "\n---\n"@);
            let end = if plain is Some {
                plain
            } else {
                find(rest, "\n---\r\n"@)
            };
            match end {
                Some(i) => first_title_line(lines(rest.take(i))),
                None => None,
            }
        },
        None => None,
    }
}

/// The `title:` value of a leading `---` frontmatter block, if present.
pub fn frontmatter_title(content: &str) -> (r: Option<String>)
    ensures
        r is Some == frontmatter_title_of(content@) is Some,
        r matches Some(t) ==> frontmatter_title_of(content@) == Some(t@),
{
    let cs = chars_of(content);
    let plain = chars_of("---\n");
    let returned = chars_of("---\r\n");
    let skip: usize = if starts_with(cs.as_slice(), plain.as_slice()) {
        plain.len()
    } else if starts_with(cs.as_slice(), returned.as_slice()) {
        returned.len()
    } else {
        return None;
    };
    let rest = slice_subrange(cs.as_slice(), skip, cs.len());
    assert(rest@ =~= cs@.skip(skip as int));
    let end: usize = match position(rest, chars_of("\n---\n").as_slice()) {
        Some(i) => i,
        None => match position(rest, chars_of("\n---\r\n").as_slice()) {
            Some(i) => i,
            None => {
                return None;
            },
        },
    };
    let block = slice_subrange(rest, 0, end);
    assert(block@ =~= rest@.take(end as int));
    let ls = lines_of(block);
    let mark = chars_of("title:");
    let ghost all = texts(ls@);
    let mut i: usize = 0;
    assert(all.skip(0) =~= all);
    while i < ls.len()
        invariant
            i <= ls@.len(),
            all == texts(ls@),
            mark@ == "title:"@,
            frontmatter_title_of(content@) == first_title_line(all),
            first_title_line(all) == first_title_line(all.skip(i as int)),
        decreases ls.len() - i,
    {
        let line = chars_of(ls[i].as_str());
        proof {
            assert(all.skip(i as int)[0] == line@);
            assert(all.skip(i as int).drop_first() =~= all.skip(i + 1));
        }
        if starts_with(line.as_slice(), mark.as_slice()) {
            let value = slice_subrange(line.as_slice(), mark.len(), line.len());
            assert(value@ =~= line@.skip(mark@.len() as int));
            let t = trimmed(trimmed(value, CharSet::White), CharSet::Only('"'));
            if t.len() > 0 {
                return Some(string_of(t));
            }
        }
        i = i + 1;
    }
    assert(all.skip(i as int) =~= Seq::empty());
    None
}

/// The first eighty characters of a text.
pub open spec fn snippet_of(s: Seq<char>) -> Seq<char> {
    if s.len() <= 80 {
        s
    } else {
        s.take(80)
    }
}

/// The first eighty characters of a text.
pub fn snippet(s: &str) -> (r: String)
    ensures
        r@ == snippet_of(s@),
{
    let cs = chars_of(s);
    let n: usize = if cs.len() <= 80 {
        cs.len()
    } else {
        80
    };
    let head = slice_subrange(cs.as_slice(), 0, n);
    assert(head@ =~= snippet_of(s@));
    string_of(head)
}

/// A text with each of its characters in small letters.
pub open spec fn folded(s: Seq<char>) -> Seq<char>
    decreases s.len(),
{
    if s.len() == 0 {
        Seq::empty()
    } else {
        folded(s.drop_last()) + lowercase(seq![s.last()])
    }
}

/// Whether a needle, which is in small letters, stands at character `i` of a text.
pub open spec fn matches_at(s: Seq<char>, needle: Seq<char>, i: int) -> bool {
    0 <= i <= s.len() && occurs_at(folded(s), needle, folded(s.take(i)).len() as int)
}

/// The first character, from `i` on, at which a needle stands in a text.
pub open spec fn match_from(s: Seq<char>, needle: Seq<char>, i: int) -> Option<int>
    decreases s.len() + 1 - i,
{
    if i < 0 || i > s.len() {
        None
    } else if matches_at(s, needle, i) {
        Some(i)
    } else {
        match_from(s, needle, i + 1)
    }
}

/// Where eighty characters begin that hold `n` characters from `at` on: at the start of the
/// text where those are among the first eighty, else so that as much stands before them as
/// behind.
pub open spec fn window_start(at: int, n: int) -> int {
    if at + n <= 80 {
        0
    } else if n >= 80 {
        at
    } else {
        at - (80 - n) / 2
    }
}

/// A short snippet of a text around the first place where a needle stands in it; its first
/// eighty characters where there is none.
pub open spec fn snippet_around(s: Seq<char>, needle: Seq<char>) -> Seq<char> {
    match match_from(s, needle, 0) {
        Some(i) => snippet_of(s.skip(window_start(i, needle.len() as int))),
        None => snippet_of(s),
    }
}

/// The folded text, and for each of its characters where that one begins in it.
fn fold(cs: &[char]) -> (r: (Vec<char>, Vec<usize>))
    ensures
        r.0@ == folded(cs@),
        r.1@.len() == cs@.len() + 1,
        forall|k: int| 0 <= k <= cs@.len() ==> #[trigger] r.1@[k] == folded(cs@.take(k)).len(),
{
    let mut out: Vec<char> = Vec::new();
    let mut starts: Vec<usize> = Vec::new();
    starts.push(0);
    let mut i: usize = 0;
    assert(cs@.take(0) =~= Seq::empty());
    assert(out@ =~= folded(cs@.take(0)));
    while i < cs.len()
        invariant
            i <= cs@.len(),
            out@ == folded(cs@.take(i as int)),
            starts@.len() == i + 1,
            forall|k: int| 0 <= k <= i ==> #[trigger] starts@[k] == folded(cs@.take(k)).len(),
        decreases cs.len() - i,
    {
        let one = slice_subrange(cs, i, i + 1);
        let small = chars_of(lowercase_of(string_of(one).as_str()).as_str());
        proof {
            assert(one@ =~= seq![cs@[i as int]]);
            assert(cs@.take(i + 1).drop_last() =~= cs@.take(i as int));
            assert(cs@.take(i + 1).last() == cs@[i as int]);
        }
        push_chars(&mut out, small.as_slice());
        starts.push(out.len());
        i = i + 1;
    }
    assert(cs@.take(cs@.len() as int) =~= cs@);
    (out, starts)
}

/// The first character at which a needle, which is in small letters, stands in a text.
fn first_match(cs: &[char], needle: &[char]) -> (r: Option<usize>)
    ensures
        r is Some == match_from(cs@, needle@, 0) is Some,
        r matches Some(i) ==> match_from(cs@, needle@, 0) == Some(i as int) && i <= cs@.len(),
{
    let (small, begins) = fold(cs);
    let mut i: usize = 0;
    while i < begins.len()
        invariant
            i <= begins@.len(),
            small@ == folded(cs@),
            begins@.len() == cs@.len() + 1,
            forall|k: int|
                0 <= k <= cs@.len() ==> #[trigger] begins@[k] == folded(cs@.take(k)).len(),
            match_from(cs@, needle@, 0) == match_from(cs@, needle@, i as int),
        decreases begins.len() - i,
    {
        assert(begins@[i as int] == folded(cs@.take(i as int)).len());
        if is_at(small.as_slice(), needle, begins[i]) {
            return Some(i);
        }
        i = i + 1;
    }
    None
}

/// A short snippet of a text around the first place where a needle, which is in small letters,
/// stands in it.
pub fn snippet_at(s: &str, needle: &str) -> (r: String)
    ensures
        r@ == snippet_around(s@, needle@),
{
    let cs = chars_of(s);
    let ns = chars_of(needle);
    match first_match(cs.as_slice(), ns.as_slice()) {
        Some(i) => {
            let n: usize = ns.len();
            let begin: usize = if n >= 80 {
                if i == 0 && n == 80 {
                    0
                } else {
                    i
                }
            } else if i <= 80 - n {
                0
            } else {
                i - (80 - n) / 2
            };
            assert(begin == window_start(i as int, n as int));
            let rest = slice_subrange(cs.as_slice(), begin, cs.len());
            assert(rest@ =~= s@.skip(begin as int));
            snippet(string_of(rest).as_str())
        },
        None => snippet(s),
    }
}

/// The identity with the sequence number `n`.
pub open spec fn minted(n: nat) -> Seq<char> {
    "urn:looper:doc:"@ + decimal(n)
}

/// The identity with the sequence number `n`.
pub fn mint(n: u64) -> (r: String)
    ensures
        r@ == minted(n as nat),
{
    let mut id = "urn:looper:doc:".to_owned();
    id.append(decimal_of(n).as_str());
    id
}

/// Whether a text contains a query, whatever the case of the letters.
pub open spec fn matches_query(s: Seq<char>, query: Seq<char>) -> bool {
    contains(lowercase(s), lowercase(query))
}

// ------------------------------------------------------------------ mock backend

/// What the in-memory backend keeps of a document.
#[derive(Debug)]
pub struct MockEntry {
    pub okf_id: String,
    pub concept_id: String,
    pub content: String,
}

/// An in-memory backend: documents by source path.
pub struct MockKb {
    pub seq: u64,
    pub by_source: SortedMap<MockEntry>,
    /// Artifacts written with [`Kb::write_indexed`], by source path.
    pub indexed: SortedMap<String>,
    /// What the backend was told to do.
    pub calls: Ghost<Seq<KbCall>>,
}

/// The hit that an entry of the in-memory backend gives for a query.
pub open spec fn mock_hit(path: Seq<char>, e: MockEntry, query: Seq<char>) -> HitView {
    HitView {
        concept_id: e.concept_id@,
        title: mock_title(e.content@, e.concept_id@),
        snippet: snippet_around(e.content@, lowercase(query)),
        path,
        labels: Seq::empty(),
    }
}

/// The hits among the first entries of the in-memory backend.
pub open spec fn mock_hits(
    entries: Seq<(String, MockEntry)>,
    query: Seq<char>,
    limit: nat,
) -> Seq<HitView>
    decreases entries.len(),
{
    if entries.len() == 0 {
        Seq::empty()
    } else {
        let before = mock_hits(entries.drop_last(), query, limit);
        let (path, e) = entries.last();
        if before.len() < limit && matches_query(e.content@, query) {
            before.push(mock_hit(path@, e, query))
        } else {
            before
        }
    }
}

/// The catalog entry of a document of the in-memory backend.
pub open spec fn mock_summary(path: Seq<char>, e: MockEntry) -> SummaryView {
    SummaryView {
        path,
        kb_path: path,
        title: Some(mock_title(e.content@, e.concept_id@)),
        labels: Seq::empty(),
    }
}

/// The title of a document of the in-memory backend: the one of its frontmatter, else the
/// derived one.
pub open spec fn mock_title(content: Seq<char>, concept_id: Seq<char>) -> Seq<char> {
    match frontmatter_title_of(content) {
        Some(t) => t,
        None => title_of(content, concept_id),
    }
}

fn title_in(content: &str, concept_id: &str) -> (r: String)
    ensures
        r@ == mock_title(content@, concept_id@),
{
    match frontmatter_title(content) {
        Some(t) => t,
        None => derive_title(content, concept_id),
    }
}

impl Default for MockKb {
    fn default() -> (r: Self)
        ensures
            r.wf(),
            r.can_mint(),
            r.by_source.entries@.len() == 0,
            forall|p: Seq<char>| r.by_source.lookup(p) is None,
            forall|p: Seq<char>| r.indexed.lookup(p) is None,
    {
        MockKb::new()
    }
}

impl MockKb {
    /// An empty backend.
    pub fn new() -> (r: Self)
        ensures
            r.wf(),
            r.can_mint(),
            r.by_source.entries@.len() == 0,
            forall|p: Seq<char>| r.by_source.lookup(p) is None,
            forall|p: Seq<char>| r.indexed.lookup(p) is None,
    {
        MockKb {
            seq: 0,
            by_source: SortedMap::new(KeyOrder::Path),
            indexed: SortedMap::new(KeyOrder::Path),
            calls: Ghost(Seq::empty()),
        }
    }

    /// The source paths as they were spelled when they were first indexed, in order.
    pub open spec fn source_keys(&self) -> Seq<Seq<char>> {
        self.by_source.entries@.map_values(|e: (String, MockEntry)| e.0@)
    }

    /// The identity that indexing a source gives it: the one it has, else a new one.
    pub open spec fn identity_for(&self, source: Seq<char>) -> Seq<char> {
        match self.by_source.lookup(source) {
            Some(e) => e.okf_id@,
            None => minted((self.seq + 1) as nat),
        }
    }
}

impl Kb for MockKb {
    open spec fn wf(&self) -> bool {
        self.by_source.wf() && self.by_source.order == KeyOrder::Path && self.indexed.wf()
            && self.indexed.order == KeyOrder::Path
    }

    open spec fn told(&self) -> Seq<KbCall> {
        self.calls@
    }

    open spec fn can_mint(&self) -> bool {
        self.seq < u64::MAX
    }

    fn name(&self) -> (r: &str)
        ensures
            r@ == "mock"@,
    {
        "mock"
    }

    fn index(&mut self, doc: &SourceDoc) -> (r: Result<ConceptRef, KbError>)
        ensures
            r is Ok,
            r->Ok_0.okf_id@ == old(self).identity_for(doc.source_path@),
            r->Ok_0.concept_id@ == doc.concept_id@,
            r->Ok_0.title@ == mock_title(doc.content@, doc.concept_id@),
            r->Ok_0.labels@.len() == 0,
            final(self).indexed == old(self).indexed,
            final(self).seq == old(self).seq + if old(self).by_source.has_key(doc.source_path@) {
                0int
            } else {
                1
            },
            forall|p: Seq<char>|
                components(p) != components(doc.source_path@)
                    ==> #[trigger] final(self).by_source.lookup(p) == old(self).by_source.lookup(p),
            final(self).by_source.lookup(doc.source_path@) matches Some(e) && e.okf_id@ == old(
                self,
            ).identity_for(doc.source_path@) && e.concept_id@ == doc.concept_id@ && e.content@
                == doc.content@,
            old(self).by_source.has_key(doc.source_path@) ==> final(self).source_keys() == old(
                self,
            ).source_keys(),
            !old(self).by_source.has_key(doc.source_path@) ==> exists|at: int|
                0 <= at <= old(self).source_keys().len() && final(self).source_keys()
                    == #[trigger] old(self).source_keys().insert(at, doc.source_path@),
    {
        let existing = match self.by_source.get(doc.source_path.as_str()) {
            Some(e) => Some(e.okf_id.clone()),
            None => None,
        };
        let okf_id = match existing {
            Some(id) => id,
            None => {
                self.seq = self.seq + 1;
                mint(self.seq)
            },
        };
        let ghost before = *self;
        self.by_source.insert(
            doc.source_path.clone(),
            MockEntry {
                okf_id: okf_id.clone(),
                concept_id: doc.concept_id.clone(),
                content: doc.content.clone(),
            },
        );
        proof {
            let was = before.by_source.entries@;
            let now = self.by_source.entries@;
            if before.by_source.has_key(doc.source_path@) {
                assert(self.source_keys() =~= before.source_keys());
            } else {
                let (at, e) = choose|at: int, e: (String, MockEntry)|
                    0 <= at <= was.len() && e.0@ == doc.source_path@ && now
                        == #[trigger] was.insert(at, e);
                let keys = old(self).source_keys();
                assert(keys =~= before.source_keys());
                assert(self.source_keys() =~= keys.insert(at, doc.source_path@));
            }
        }
        let r = Ok(
            ConceptRef {
                okf_id,
                concept_id: doc.concept_id.clone(),
                title: title_in(doc.content.as_str(), doc.concept_id.as_str()),
                labels: Vec::new(),
            },
        );
        self.calls = Ghost(
            self.calls@.push(
                KbCall::Index {
                    source_path: doc.source_path@,
                    concept_id: doc.concept_id@,
                    content: doc.content@,
                    answer: r,
                },
            ),
        );
        r
    }

    fn remove(&mut self, source_path: &str) -> (r: Result<(), KbError>)
        ensures
            r is Ok,
            final(self).indexed == old(self).indexed,
            final(self).seq == old(self).seq,
            forall|p: Seq<char>|
                #[trigger] final(self).by_source.lookup(p) == if components(p) == components(
                    source_path@,
                ) {
                    None
                } else {
                    old(self).by_source.lookup(p)
                },
    {
        let gone = self.by_source.remove(source_path);
        let r = Ok(());
        self.calls = Ghost(
            self.calls@.push(KbCall::Remove { source_path: source_path@, answer: r }),
        );
        r
    }

    fn search(&self, query: &str, limit: usize) -> (r: Result<Vec<SearchHit>, KbError>)
        ensures
            r is Ok,
            hits_view(r->Ok_0@) == mock_hits(self.by_source.entries@, query@, limit as nat),
    {
        let small = lowercase_of(query);
        let needle = chars_of(small.as_str());
        let mut out: Vec<SearchHit> = Vec::new();
        let ghost all = self.by_source.entries@;
        let mut i: usize = 0;
        proof {
            assert(all.take(0) =~= Seq::empty());
            assert(hits_view(out@) =~= mock_hits(all.take(0), query@, limit as nat));
        }
        while i < self.by_source.entries.len()
            invariant
                i <= all.len(),
                all == self.by_source.entries@,
                small@ == lowercase(query@),
                needle@ == lowercase(query@),
                hits_view(out@) == mock_hits(all.take(i as int), query@, limit as nat),
            decreases all.len() - i,
        {
            let ghost before = out@;
            let path = &self.by_source.entries[i].0;
            let e = &self.by_source.entries[i].1;
            proof {
                assert(all.take(i + 1).drop_last() =~= all.take(i as int));
                assert(all.take(i + 1).last() == all[i as int]);
                assert(hits_view(before).len() == before.len());
            }
            let haystack = chars_of(lowercase_of(e.content.as_str()).as_str());
            if out.len() < limit && has(haystack.as_slice(), needle.as_slice()) {
                let hit = SearchHit {
                    concept_id: e.concept_id.clone(),
                    title: title_in(e.content.as_str(), e.concept_id.as_str()),
                    snippet: snippet_at(e.content.as_str(), small.as_str()),
                    path: path.clone(),
                    labels: Vec::new(),
                };
                out.push(hit);
                proof {
                    assert(hit@.labels =~= Seq::empty());
                    assert(hits_view(out@) =~= hits_view(before).push(hit@));
                }
            }
            i = i + 1;
        }
        assert(all.take(all.len() as int) =~= all);
        Ok(out)
    }

    fn doc_count(&self) -> (r: usize)
        ensures
            r == self.by_source.entries@.len(),
    {
        self.by_source.len()
    }

    fn read_indexed(&self, source_path: &str) -> (r: Option<String>)
        ensures
            r == self.indexed.lookup(source_path@),
    {
        match self.indexed.get(source_path) {
            Some(s) => Some(s.clone()),
            None => None,
        }
    }

    fn write_indexed(&mut self, source_path: &str, content: &str) -> (r: Result<bool, KbError>)
        ensures
            r == Ok::<bool, KbError>(old(self).by_source.has_key(source_path@)),
            final(self).by_source == old(self).by_source,
            final(self).seq == old(self).seq,
            r == Ok::<bool, KbError>(false) ==> *final(self) == *old(self),
            r == Ok::<bool, KbError>(true) ==> (final(self).indexed.lookup(source_path@) matches Some(
                s,
            ) && s@ == content@) && forall|p: Seq<char>|
                components(p) != components(source_path@)
                    ==> #[trigger] final(self).indexed.lookup(p) == old(self).indexed.lookup(p),
    {
        if !self.by_source.contains_key(source_path) {
            return Ok(false);
        }
        self.indexed.insert(source_path.to_owned(), content.to_owned());
        Ok(true)
    }

    fn list_documents(&self) -> (r: Vec<DocSummary>)
        ensures
            summaries_view(r@) == self.by_source.entries@.map_values(
                |e: (String, MockEntry)| mock_summary(e.0@, e.1),
            ),
    {
        let mut out: Vec<DocSummary> = Vec::new();
        let mut i: usize = 0;
        while i < self.by_source.entries.len()
            invariant
                i <= self.by_source.entries@.len(),
                out@.len() == i,
                forall|k: int|
                    0 <= k < i ==> (#[trigger] out@[k])@ == mock_summary(
                        self.by_source.entries@[k].0@,
                        self.by_source.entries@[k].1,
                    ),
            decreases self.by_source.entries.len() - i,
        {
            let path = &self.by_source.entries[i].0;
            let e = &self.by_source.entries[i].1;
            let d = DocSummary {
                path: path.clone(),
                kb_path: path.clone(),
                title: Some(title_in(e.content.as_str(), e.concept_id.as_str())),
                labels: Vec::new(),
            };
            assert(d@.labels =~= Seq::empty());
            out.push(d);
            i = i + 1;
        }
        assert(summaries_view(out@) =~= self.by_source.entries@.map_values(
            |e: (String, MockEntry)| mock_summary(e.0@, e.1),
        ));
        out
    }

    fn refresh_indexed(&mut self, source_path: &str) -> (r: Option<ConceptRef>)
        ensures
            r is None,
            final(self).by_source == old(self).by_source,
            final(self).indexed == old(self).indexed,
            final(self).seq == old(self).seq,
    {
        self.calls = Ghost(self.calls@.push(KbCall::Refresh { source_path: source_path@ }));
        None
    }
}

/// A [`KbProvider`] that yields a fresh in-memory [`MockKb`] per workspace.
#[derive(Debug, Default)]
pub struct MockKbProvider;

impl KbProvider for MockKbProvider {
    type Backend = MockKb;

    fn name(&self) -> (r: &str)
        ensures
            r@ == "mock"@,
    {
        "mock"
    }

    fn open(&self, kb_dir: &str) -> (r: Result<MockKb, KbError>)
        ensures
            r is Ok,
            r->Ok_0.by_source.entries@.len() == 0,
    {
        Ok(MockKb::new())
    }
}

// -------------------------------------------------------------------------- laws

proof fn lemma_match_from(s: Seq<char>, needle: Seq<char>, i: int)
    requires
        0 <= i,
    ensures
        match_from(s, needle, i) matches Some(k) ==> i <= k <= s.len() && matches_at(s, needle, k),
        match_from(s, needle, i) is None ==> forall|k: int| i <= k ==> !matches_at(s, needle, k),
    decreases s.len() + 1 - i,
{
    if i <= s.len() && !matches_at(s, needle, i) {
        lemma_match_from(s, needle, i + 1);
    }
}

/// Where a needle of at most eighty characters stands in a text, the snippet is a piece of the
/// text of at most eighty characters that holds a place where it stands, as far as the text
/// goes.
pub proof fn snippets_hold_the_match(s: Seq<char>, needle: Seq<char>, k: int)
    requires
        needle.len() <= 80,
        matches_at(s, needle, k),
    ensures
        exists|i: int, begin: int|
            {
                &&& #[trigger] matches_at(s, needle, i)
                &&& 0 <= begin <= i <= s.len()
                &&& i + needle.len() <= begin + 80
                &&& snippet_around(s, needle) == snippet_of(#[trigger] s.skip(begin))
            },
{
    lemma_match_from(s, needle, 0);
    let i = match_from(s, needle, 0)->0;
    let begin = window_start(i, needle.len() as int);
    assert(matches_at(s, needle, i));
    assert(snippet_around(s, needle) == snippet_of(s.skip(begin)));
}

} // verus!
