//! The knowledge-base producer: writes a bundle of markdown documents and keeps an
//! index of them.
//!
//! [`OkfKb`] holds what is kept in memory: the sidecar index of the sources, the search
//! entries of the bundle documents, and which sources carry a tag. Reading and writing
//! files is left to the caller, who hands in what was read and is handed what to write.

use crate::bundle::{
    bundle_frontmatter_is_complete, carried, carry_over_preserved, document_title,
    ensure_okf_frontmatter, ensured, frontmatter_str, frontmatter_tags, search_entry, searchable,
    shown_title, tags_of, text_at, with_missing, Facts, SearchEntry, SearchView,
};
use crate::fence::{any_preserved, found, preserved_classes, region_texts};
use crate::fence_laws::{code_after, regeneration_keeps_the_regions};
use crate::frontmatter::{
    document, keeps_its_body, markdown, Document, DocumentView,
};
use crate::kb::{
    hits_view, mint, minted, opt_text, snippet_around, snippet_at, summaries_view, ConceptRef,
    DocSummary, HitView, KbError, SearchHit, SourceDoc, SummaryView, TagCount,
};
use crate::path::{components, extension, extension_of, join_path, joined_path};
use crate::scan::{blake3_hex, content_hash};
use crate::sorted::{key_eq, key_lt, KeyOrder, SortedMap};
use crate::state::{StateError, Versioned};
use crate::text::{
    chars_of, contains, copy_texts, ends, ends_with, four, has, lemma_text_lt_irreflexive,
    lemma_text_lt_total, lemma_text_lt_transitive, less, lowercase, lowercase_of, same, split,
    starts, text_lt, texts, trim_end, two, CharSet,
};
use crate::yaml::{ends_plainly, has_key, key_at, with_value, Pairs, Yaml};
use vstd::prelude::*;

verus! {

/// Errors from the knowledge-base producer.
#[derive(Debug)]
pub enum OkfError {
    /// An I/O error touching a path (reading source, writing a bundle file).
    Io { path: String, message: String },
    /// Persisting/loading the sidecar index failed.
    State(StateError),
    /// Serializing frontmatter to YAML failed.
    Yaml(serde_yaml_ng::Error),
    /// Serializing the visualization graph to JSON failed.
    Json(serde_json::Error),
    /// The bundle directory to visualize does not exist.
    BundleNotFound { path: String },
}

impl OkfError {
    /// What the error says; of an error of YAML or JSON only how it begins.
    pub open spec fn says(&self, text: Seq<char>) -> bool {
        match self {
            OkfError::Io { path, message } => text == "OKF I/O error at "@ + path@ + ": "@
                + message@,
            OkfError::State(e) => text == "OKF state error: "@ + e.text(),
            OkfError::Yaml(_) => starts(text, "OKF YAML error: "@),
            OkfError::Json(_) => starts(text, "OKF JSON error: "@),
            OkfError::BundleNotFound { path } => text == "OKF bundle directory not found: "@
                + path@,
        }
    }

    /// What the error says.
    pub fn message(&self) -> (r: String)
        ensures
            self.says(r@),
    {
        match self {
            OkfError::Io { path, message } => four(
                "OKF I/O error at ",
                path.as_str(),
                ": ",
                message.as_str(),
            ),
            OkfError::State(e) => two("OKF state error: ", e.message().as_str()),
            OkfError::Yaml(e) => {
                let m = crate::yaml::error_text(e);
                let s = two("OKF YAML error: ", m.as_str());
                assert(s@.subrange(0, "OKF YAML error: "@.len() as int) =~= "OKF YAML error: "@);
                s
            },
            OkfError::Json(e) => {
                let m = crate::json::error_text(e);
                let s = two("OKF JSON error: ", m.as_str());
                assert(s@.subrange(0, "OKF JSON error: "@.len() as int) =~= "OKF JSON error: "@);
                s
            },
            OkfError::BundleNotFound { path } => two(
                "OKF bundle directory not found: ",
                path.as_str(),
            ),
        }
    }
}

/// The error of a backend that an error of the producer is: an I/O error stays one,
/// any other is told by its text.
pub fn into_kb_error(err: OkfError) -> (r: KbError)
    ensures
        match err {
            OkfError::Io { path, message } => r == (KbError::Io { path, message }),
            _ => r matches KbError::Backend(text) && err.says(text@),
        },
{
    match err {
        OkfError::Io { path, message } => KbError::Io { path, message },
        other => KbError::Backend(other.message()),
    }
}

/// What the sidecar index keeps of a source.
#[derive(Debug)]
pub struct IndexEntry {
    pub okf_id: String,
    pub concept_id: String,
    pub content_hash: String,
    /// Display title, that of the bundle document.
    pub title: Option<String>,
    /// Tags of the bundle document.
    pub labels: Vec<String>,
    /// Source-content revision: goes up exactly when the content hash changes. `0` in an
    /// index from before revisions.
    pub revision: u64,
    /// Timestamp of the last content change.
    pub updated_at: Option<String>,
}

/// What an [`IndexEntry`] holds.
pub struct EntryView {
    pub okf_id: Seq<char>,
    pub concept_id: Seq<char>,
    pub content_hash: Seq<char>,
    pub title: Option<Seq<char>>,
    pub labels: Seq<Seq<char>>,
    pub revision: nat,
    pub updated_at: Option<Seq<char>>,
}

impl View for IndexEntry {
    type V = EntryView;

    open spec fn view(&self) -> EntryView {
        EntryView {
            okf_id: self.okf_id@,
            concept_id: self.concept_id@,
            content_hash: self.content_hash@,
            title: opt_text(self.title),
            labels: texts(self.labels@),
            revision: self.revision as nat,
            updated_at: opt_text(self.updated_at),
        }
    }
}

/// The persisted sidecar index.
pub struct OkfIndex {
    /// Sequence for minting new identities.
    pub next_seq: u64,
    /// Source path to entry.
    pub entries: SortedMap<IndexEntry>,
}

impl OkfIndex {
    /// The sources are in the order of their paths, each once.
    pub open spec fn wf(&self) -> bool {
        self.entries.wf() && self.entries.order == KeyOrder::Path
    }

    /// The entry of a source.
    pub open spec fn entry_of(&self, source: Seq<char>) -> Option<EntryView> {
        match self.entries.lookup(source) {
            Some(e) => Some(e@),
            None => None,
        }
    }

    /// An index of nothing.
    pub fn empty() -> (r: Self)
        ensures
            r.wf(),
            r.next_seq == 0,
            r.entries.entries@.len() == 0,
            forall|p: Seq<char>| r.entry_of(p) is None,
    {
        OkfIndex { next_seq: 0, entries: SortedMap::new(KeyOrder::Path) }
    }
}

// --------------------------------------------------------------------- migration

/// The concept id of the second index version: with the extension of its source.
pub open spec fn migrated_id(source: Seq<char>, concept_id: Seq<char>) -> Seq<char> {
    match extension_of(source) {
        Some(ext) => if ends(concept_id, "."@ + ext) {
            concept_id
        } else {
            concept_id + ("."@ + ext)
        },
        None => concept_id,
    }
}

/// What a raw entry says: the source path, and the concept id where it has one.
pub open spec fn raw_view(e: (String, Option<String>)) -> (Seq<char>, Option<Seq<char>>) {
    (e.0@, opt_text(e.1))
}

/// A raw entry of the second index version.
pub open spec fn migrated_entry(e: (Seq<char>, Option<Seq<char>>)) -> (
    Seq<char>,
    Option<Seq<char>>,
) {
    (
        e.0,
        match e.1 {
            Some(id) => Some(migrated_id(e.0, id)),
            None => None,
        },
    )
}

/// The concept id of the second index version: with the extension of its source.
pub fn migrate_concept_id(source: &str, concept_id: &str) -> (r: String)
    ensures
        r@ == migrated_id(source@, concept_id@),
{
    match extension(source) {
        Some(ext) => {
            let mut suffix = ".".to_owned();
            suffix.append(ext.as_str());
            let mut out = concept_id.to_owned();
            if !ends_with(chars_of(concept_id).as_slice(), chars_of(suffix.as_str()).as_slice()) {
                out.append(suffix.as_str());
            }
            out
        },
        None => concept_id.to_owned(),
    }
}

/// Migrating a concept id that was migrated changes nothing.
pub proof fn id_migration_is_idempotent(source: Seq<char>, concept_id: Seq<char>)
    ensures
        migrated_id(source, migrated_id(source, concept_id)) == migrated_id(source, concept_id),
{
    if let Some(ext) = extension_of(source) {
        let suffix = "."@ + ext;
        let out = concept_id + suffix;
        assert(out.subrange(out.len() - suffix.len(), out.len() as int) =~= suffix);
    }
}

impl Versioned for OkfIndex {
    /// Source paths with their concept ids.
    type Raw = Vec<(String, Option<String>)>;

    open spec fn current() -> u32 {
        2
    }

    open spec fn step(
        from_version: u32,
        value: Self::Raw,
        result: Result<Self::Raw, StateError>,
    ) -> bool {
        if from_version != 1 {
            result == Err::<Self::Raw, StateError>(
                StateError::UnsupportedVersion { found: from_version, current: 2 },
            )
        } else {
            result matches Ok(v) && v@.len() == value@.len() && forall|i: int|
                0 <= i < v@.len() ==> raw_view(#[trigger] v@[i]) == migrated_entry(
                    raw_view(value@[i]),
                )
        }
    }

    fn schema_version() -> (r: u32) {
        2
    }

    fn migrate(from_version: u32, value: Vec<(String, Option<String>)>) -> (r: Result<
        Vec<(String, Option<String>)>,
        StateError,
    >) {
        if from_version != 1 {
            return Err(StateError::UnsupportedVersion { found: from_version, current: 2 });
        }
        let mut out: Vec<(String, Option<String>)> = Vec::new();
        let mut i: usize = 0;
        while i < value.len()
            invariant
                i <= value@.len(),
                out@.len() == i,
                forall|k: int|
                    0 <= k < i ==> raw_view(#[trigger] out@[k]) == migrated_entry(
                        raw_view(value@[k]),
                    ),
            decreases value.len() - i,
        {
            let source = value[i].0.clone();
            let id = match &value[i].1 {
                Some(id) => Some(migrate_concept_id(source.as_str(), id.as_str())),
                None => None,
            };
            out.push((source, id));
            i = i + 1;
        }
        Ok(out)
    }
}

// --------------------------------------------------------------------- tag index

/// Which sources carry a tag: tag to the set of their paths.
pub type TagIndex = SortedMap<SortedMap<()>>;

/// Whether a tag index has a source under a tag.
pub open spec fn tagged(tags: TagIndex, tag: Seq<char>, source: Seq<char>) -> bool {
    match tags.lookup(tag) {
        Some(set) => set.has_key(source),
        None => false,
    }
}

/// The tags are in order, each with the paths of at least one source, in order.
pub open spec fn tags_wf(tags: TagIndex) -> bool {
    &&& tags.wf()
    &&& tags.order == KeyOrder::Text
    &&& forall|tag: Seq<char>|
        #[trigger] tags.lookup(tag) matches Some(set) ==> set.wf() && set.order == KeyOrder::Path
            && set.entries@.len() > 0
}

/// Takes a source out from under a tag; a tag that nothing carries any more goes.
pub fn untag(tags: &mut TagIndex, tag: &str, source: &str)
    requires
        tags_wf(*old(tags)),
    ensures
        tags_wf(*final(tags)),
        forall|t: Seq<char>, p: Seq<char>|
            #[trigger] tagged(*final(tags), t, p) == (tagged(*old(tags), t, p) && !(t == tag@
                && components(p) == components(source@))),
{
    let ghost before = *tags;
    match tags.remove(tag) {
        Some(mut set) => {
            let ghost was = set;
            let gone = set.remove(source);
            let ghost now = set;
            if set.len() > 0 {
                tags.insert(tag.to_owned(), set);
            }
            proof {
                assert forall|t: Seq<char>, p: Seq<char>|
                    #[trigger] tagged(*tags, t, p) == (tagged(before, t, p) && !(t == tag@
                        && components(p) == components(source@))) by {
                    assert(before.lookup(tag@) == Some(was));
                    if t == tag@ {
                        assert(now.lookup(p) is Some == now.has_key(p));
                        assert(was.lookup(p) is Some == was.has_key(p));
                        if now.entries@.len() == 0 {
                            assert(!now.has_key(p));
                        }
                    }
                }
            }
        },
        None => {
            proof {
                assert forall|t: Seq<char>, p: Seq<char>|
                    #[trigger] tagged(*tags, t, p) == (tagged(before, t, p) && !(t == tag@
                        && components(p) == components(source@))) by {}
            }
        },
    }
}

/// Puts a source under a tag.
pub fn add_tag(tags: &mut TagIndex, tag: &str, source: &str)
    requires
        tags_wf(*old(tags)),
    ensures
        tags_wf(*final(tags)),
        forall|t: Seq<char>, p: Seq<char>|
            #[trigger] tagged(*final(tags), t, p) == (tagged(*old(tags), t, p) || (t == tag@
                && components(p) == components(source@))),
{
    let ghost before = *tags;
    let mut set = match tags.remove(tag) {
        Some(set) => set,
        None => SortedMap::new(KeyOrder::Path),
    };
    let ghost was = set;
    set.insert(source.to_owned(), ());
    let ghost now = set;
    tags.insert(tag.to_owned(), set);
    proof {
        assert(now.lookup(source@) is Some);
        assert(now.has_key(source@));
        assert(now.entries@.len() > 0) by {
            let i = choose|i: int| now.holds_at(source@, i);
        }
        assert forall|t: Seq<char>, p: Seq<char>|
            #[trigger] tagged(*tags, t, p) == (tagged(before, t, p) || (t == tag@ && components(p)
                == components(source@))) by {
            if t == tag@ {
                assert(tags.lookup(t) == Some(now));
                assert(now.lookup(p) is Some == now.has_key(p));
                assert(was.lookup(p) is Some == was.has_key(p));
            }
        }
    }
}

/// Takes a source out from under its tags, and puts it under others.
pub fn retag(tags: &mut TagIndex, source: &str, before: &Vec<String>, after: &Vec<String>)
    requires
        tags_wf(*old(tags)),
    ensures
        tags_wf(*final(tags)),
        forall|t: Seq<char>, p: Seq<char>|
            #[trigger] tagged(*final(tags), t, p) == if components(p) == components(source@) {
                (tagged(*old(tags), t, p) && !texts(before@).contains(t)) || texts(
                    after@,
                ).contains(t)
            } else {
                tagged(*old(tags), t, p)
            },
{
    let ghost start = *tags;
    let ghost was = texts(before@);
    let ghost now = texts(after@);
    let mut i: usize = 0;
    while i < before.len()
        invariant
            i <= before@.len(),
            was == texts(before@),
            tags_wf(*tags),
            forall|t: Seq<char>, p: Seq<char>|
                #[trigger] tagged(*tags, t, p) == (tagged(start, t, p) && !(components(p)
                    == components(source@) && was.take(i as int).contains(t))),
        decreases before.len() - i,
    {
        let ghost prior = *tags;
        untag(tags, before[i].as_str(), source);
        proof {
            assert(was.take(i + 1) =~= was.take(i as int).push(was[i as int]));
            assert forall|t: Seq<char>, p: Seq<char>|
                #[trigger] tagged(*tags, t, p) == (tagged(start, t, p) && !(components(p)
                    == components(source@) && was.take(i + 1).contains(t))) by {
                assert(tagged(prior, t, p) == (tagged(start, t, p) && !(components(p)
                    == components(source@) && was.take(i as int).contains(t))));
                lemma_push_contains(was.take(i as int), was[i as int], t);
            }
        }
        i = i + 1;
    }
    assert(was.take(was.len() as int) =~= was);
    let ghost middle = *tags;
    let mut k: usize = 0;
    while k < after.len()
        invariant
            k <= after@.len(),
            now == texts(after@),
            tags_wf(*tags),
            forall|t: Seq<char>, p: Seq<char>|
                #[trigger] tagged(*tags, t, p) == (tagged(middle, t, p) || (components(p)
                    == components(source@) && now.take(k as int).contains(t))),
        decreases after.len() - k,
    {
        let ghost prior = *tags;
        add_tag(tags, after[k].as_str(), source);
        proof {
            assert(now.take(k + 1) =~= now.take(k as int).push(now[k as int]));
            assert forall|t: Seq<char>, p: Seq<char>|
                #[trigger] tagged(*tags, t, p) == (tagged(middle, t, p) || (components(p)
                    == components(source@) && now.take(k + 1).contains(t))) by {
                assert(tagged(prior, t, p) == (tagged(middle, t, p) || (components(p)
                    == components(source@) && now.take(k as int).contains(t))));
                lemma_push_contains(now.take(k as int), now[k as int], t);
            }
        }
        k = k + 1;
    }
    proof {
        assert(now.take(now.len() as int) =~= now);
        assert forall|t: Seq<char>, p: Seq<char>|
            #[trigger] tagged(*tags, t, p) == if components(p) == components(source@) {
                (tagged(start, t, p) && !was.contains(t)) || now.contains(t)
            } else {
                tagged(start, t, p)
            } by {
            assert(tagged(middle, t, p) == (tagged(start, t, p) && !(components(p) == components(
                source@,
            ) && was.contains(t))));
        }
    }
}

proof fn lemma_push_contains(s: Seq<Seq<char>>, x: Seq<char>, t: Seq<char>)
    ensures
        s.push(x).contains(t) == (s.contains(t) || t == x),
{
    let r = s.push(x);
    if s.contains(t) {
        let i = choose|i: int| 0 <= i < s.len() && s[i] == t;
        assert(r[i] == t);
    }
    if t == x {
        assert(r[s.len() as int] == t);
    }
    if r.contains(t) {
        let i = choose|i: int| 0 <= i < r.len() && r[i] == t;
        if i < s.len() {
            assert(s[i] == t);
        }
    }
}

// ------------------------------------------------------------------------ the kb

/// The producer's state: the bundle directory, the sidecar index, what is searched, and
/// which sources carry a tag.
pub struct OkfKb {
    pub bundle_dir: String,
    pub index: OkfIndex,
    /// Concept id to what is searched of the bundle document.
    pub search: SortedMap<SearchEntry>,
    pub tags: TagIndex,
}

/// Whether the index gives a source a label.
pub open spec fn labelled(index: OkfIndex, label: Seq<char>, source: Seq<char>) -> bool {
    match index.entry_of(source) {
        Some(e) => e.labels.contains(label),
        None => false,
    }
}

/// An index operation that is ready to be written: the bundle document, where it goes,
/// and what the index is to say of it.
pub struct PendingIndex {
    pub source_path: String,
    pub concept_id: String,
    pub okf_id: String,
    pub content_hash: String,
    pub revision: u64,
    pub updated_at: String,
    pub document: Document,
    /// The file to write.
    pub path: String,
    /// What to write.
    pub markdown: String,
}

/// The content hash of a text.
pub open spec fn hash_of(content: Seq<char>) -> Seq<char> {
    blake3_hex(vstd::utf8::encode_utf8(content))
}

/// The revision of a source with a content hash: one more than before where the hash
/// changed, or where there was no revision before.
pub open spec fn revision_for(entry: Option<EntryView>, hash: Seq<char>) -> nat {
    match entry {
        Some(e) => if e.content_hash == hash && e.revision > 0 {
            e.revision
        } else {
            e.revision + 1
        },
        None => 1,
    }
}

/// The time of the last change of a source with a content hash.
pub open spec fn updated_for(entry: Option<EntryView>, hash: Seq<char>, now: Seq<char>) -> Seq<
    char,
> {
    match entry {
        Some(e) => if e.content_hash == hash && e.revision > 0 && e.updated_at is Some {
            e.updated_at->0
        } else {
            now
        },
        None => now,
    }
}

/// The text that a bundle file had, where there was one.
pub open spec fn text_before(previous: Option<&str>) -> Option<Seq<char>> {
    match previous {
        Some(p) => Some(p@),
        None => None,
    }
}

/// Whether an index operation is what a knowledge base works out for a source that is indexed
/// at a moment, beside a bundle file with a text. The text to write is that of the bundle
/// document, and is read with the body of that document.
pub open spec fn worked_out(
    kb: OkfKb,
    source: Seq<char>,
    concept_id: Seq<char>,
    content: Seq<char>,
    previous: Option<Seq<char>>,
    now: Seq<char>,
    p: PendingIndex,
) -> bool {
    let facts = kb.facts_for(source, concept_id, content, now);
    let bundle = kb.bundle_for(source, concept_id, content, previous, now);
    &&& p.source_path@ == source
    &&& p.concept_id@ == concept_id
    &&& p.okf_id@ == facts.okf_id
    &&& p.content_hash@ == hash_of(content)
    &&& p.revision == facts.revision
    &&& p.updated_at@ == facts.updated_at
    &&& p.document@ == bundle
    &&& p.path@ == joined_path(kb.bundle_dir@, concept_id)
    &&& markdown(bundle) == Some(p.markdown@)
    &&& keeps_its_body(bundle, p.markdown@)
}

/// Whether an index operation that was written has been taken into the index and the search
/// entries, and nothing else has changed there.
pub open spec fn taken_in(before: OkfKb, after: OkfKb, p: PendingIndex) -> bool {
    &&& after.index.entries.entries@.len() == before.index.entries.entries@.len()
        + if before.index.entry_of(p.source_path@) is Some {
        0int
    } else {
        1
    }
    &&& forall|source: Seq<char>|
        #[trigger] after.index.entry_of(source) == if components(p.source_path@) == components(
            source,
        ) {
            Some(
                EntryView {
                    okf_id: p.okf_id@,
                    concept_id: p.concept_id@,
                    content_hash: p.content_hash@,
                    title: Some(shown_title(p.concept_id@, p.document@)),
                    labels: tags_of(p.document@.frontmatter),
                    revision: p.revision as nat,
                    updated_at: Some(p.updated_at@),
                },
            )
        } else {
            before.index.entry_of(source)
        }
    &&& forall|id: Seq<char>|
        #[trigger] after.searched(id) == if id == p.concept_id@ {
            Some(searchable(id, p.document@))
        } else {
            before.searched(id)
        }
}

impl OkfKb {
    /// The maps are in order, and the tag index says what the labels of the index say.
    pub open spec fn wf(&self) -> bool {
        &&& self.index.wf()
        &&& self.search.wf()
        &&& self.search.order == KeyOrder::Text
        &&& tags_wf(self.tags)
        &&& forall|t: Seq<char>, p: Seq<char>|
            #[trigger] tagged(self.tags, t, p) == labelled(self.index, t, p)
    }

    /// What is searched of a concept.
    pub open spec fn searched(&self, concept_id: Seq<char>) -> Option<SearchView> {
        match self.search.lookup(concept_id) {
            Some(e) => Some(e@),
            None => None,
        }
    }

    /// Whether indexing a source gives it a new identity: its frontmatter has none, and
    /// it is not indexed.
    pub open spec fn mints(&self, source: Seq<char>, content: Seq<char>) -> bool {
        text_at(document(content).frontmatter, "okf_id"@) is None && self.index.entry_of(
            source,
        ) is None
    }

    /// The identity that indexing a source gives it: that of its frontmatter, else the
    /// one it has, else a new one.
    pub open spec fn identity_for(&self, source: Seq<char>, content: Seq<char>) -> Seq<char> {
        match text_at(document(content).frontmatter, "okf_id"@) {
            Some(id) => id,
            None => match self.index.entry_of(source) {
                Some(e) => e.okf_id,
                None => minted((self.index.next_seq + 1) as nat),
            },
        }
    }

    /// What the producer knows of a document that is indexed at a moment.
    pub open spec fn facts_for(
        &self,
        source: Seq<char>,
        concept_id: Seq<char>,
        content: Seq<char>,
        now: Seq<char>,
    ) -> Facts {
        let entry = self.index.entry_of(source);
        Facts {
            okf_id: self.identity_for(source, content),
            concept_id,
            source_path: source,
            revision: revision_for(entry, hash_of(content)),
            updated_at: updated_for(entry, hash_of(content), now),
        }
    }

    /// The bundle document of a source that is indexed at a moment.
    pub open spec fn bundle_for(
        &self,
        source: Seq<char>,
        concept_id: Seq<char>,
        content: Seq<char>,
        previous: Option<Seq<char>>,
        now: Seq<char>,
    ) -> DocumentView {
        let doc = document(content);
        let facts = self.facts_for(source, concept_id, content, now);
        carried(
            DocumentView {
                frontmatter: ensured(doc.frontmatter, doc.body, facts),
                body: doc.body,
            },
            previous,
        )
    }

    /// Whether a number is left for what indexing a source counts up: the sequence where an
    /// identity is minted, the revision where it changes.
    pub open spec fn has_numbers_for(&self, source: Seq<char>, content: Seq<char>) -> bool {
        &&& self.mints(source, content) ==> self.index.next_seq < u64::MAX
        &&& revision_for(self.index.entry_of(source), hash_of(content)) <= u64::MAX
    }

    /// The bundle directory.
    pub fn bundle_dir(&self) -> (r: &str)
        ensures
            r@ == self.bundle_dir@,
    {
        self.bundle_dir.as_str()
    }

    /// The bundle file of a concept: the concept id is its path in the bundle directory.
    pub fn concept_path(&self, concept_id: &str) -> (r: String)
        ensures
            r@ == joined_path(self.bundle_dir@, concept_id@),
    {
        join_path(self.bundle_dir.as_str(), concept_id)
    }

    /// Works out what indexing a document writes: the bundle document, its identity and
    /// its revision. `previous` is the text of its bundle file, where there is one. An
    /// identity that is minted is used up, whatever becomes of the write.
    pub fn begin_index(&mut self, doc: &SourceDoc, previous: Option<&str>, now: &str) -> (r: Result<
        PendingIndex,
        OkfError,
    >)
        requires
            old(self).wf(),
            old(self).has_numbers_for(doc.source_path@, doc.content@),
        ensures
            final(self).wf(),
            final(self).bundle_dir == old(self).bundle_dir,
            final(self).index.entries == old(self).index.entries,
            final(self).search == old(self).search,
            final(self).tags == old(self).tags,
            final(self).index.next_seq == old(self).index.next_seq + if old(self).mints(
                doc.source_path@,
                doc.content@,
            ) {
                1int
            } else {
                0
            },
            match r {
                Ok(p) => worked_out(
                    *old(self),
                    doc.source_path@,
                    doc.concept_id@,
                    doc.content@,
                    text_before(previous),
                    now@,
                    p,
                ),
                Err(e) => e is Yaml && markdown(
                    old(self).bundle_for(
                        doc.source_path@,
                        doc.concept_id@,
                        doc.content@,
                        text_before(previous),
                        now@,
                    ),
                ) is None,
            },
    {
        let ghost before = *self;
        let mut out = Document::parse(doc.content.as_str());
        let hash = content_hash(doc.content.as_str().as_bytes());
        let source = doc.source_path.as_str();
        let named = frontmatter_str(&out.frontmatter, "okf_id");
        let known = match self.index.entries.get(source) {
            Some(e) => Some(e.okf_id.clone()),
            None => None,
        };
        let (revision, updated_at): (u64, String) = match self.index.entries.get(source) {
            Some(e) => if same(e.content_hash.as_str(), hash.as_str()) && e.revision > 0 {
                (
                    e.revision,
                    match &e.updated_at {
                        Some(at) => at.clone(),
                        None => now.to_owned(),
                    },
                )
            } else {
                (e.revision + 1, now.to_owned())
            },
            None => (1, now.to_owned()),
        };
        let okf_id = match named {
            Some(id) => id,
            None => match known {
                Some(id) => id,
                None => {
                    self.index.next_seq = self.index.next_seq + 1;
                    mint(self.index.next_seq)
                },
            },
        };
        proof {
            assert forall|t: Seq<char>, p: Seq<char>| labelled(self.index, t, p) == labelled(
                before.index,
                t,
                p,
            ) by {}
        }
        ensure_okf_frontmatter(
            &mut out.frontmatter,
            okf_id.as_str(),
            doc.concept_id.as_str(),
            source,
            out.body.as_str(),
            revision,
            updated_at.as_str(),
        );
        carry_over_preserved(&mut out, previous);
        proof {
            let source = doc.source_path@;
            let facts = before.facts_for(source, doc.concept_id@, doc.content@, now@);
            let plain = document(doc.content@);
            bundle_frontmatter_is_complete(plain.frontmatter, plain.body, facts);
        }
        match out.to_markdown() {
            Ok(markdown) => Ok(
                PendingIndex {
                    source_path: doc.source_path.clone(),
                    concept_id: doc.concept_id.clone(),
                    okf_id,
                    content_hash: hash,
                    revision,
                    updated_at,
                    document: out,
                    path: self.concept_path(doc.concept_id.as_str()),
                    markdown,
                },
            ),
            Err(e) => Err(e),
        }
    }

    /// Whether a number is left for what indexing a document counts up.
    fn numbers_left(&self, doc: &SourceDoc) -> (r: bool)
        requires
            self.wf(),
        ensures
            r == self.has_numbers_for(doc.source_path@, doc.content@),
    {
        match self.index.entries.get(doc.source_path.as_str()) {
            Some(e) => {
                let hash = content_hash(doc.content.as_str().as_bytes());
                e.revision < u64::MAX || same(e.content_hash.as_str(), hash.as_str())
            },
            None => {
                let parsed = Document::parse(doc.content.as_str());
                self.index.next_seq < u64::MAX || frontmatter_str(
                    &parsed.frontmatter,
                    "okf_id",
                ).is_some()
            },
        }
    }

    /// Works out what indexing a document writes, as [`OkfKb::begin_index`] does; `None`
    /// where no number is left for it, which changes nothing.
    pub fn try_begin_index(&mut self, doc: &SourceDoc, previous: Option<&str>, now: &str) -> (r:
        Option<Result<PendingIndex, OkfError>>)
        requires
            old(self).wf(),
        ensures
            final(self).wf(),
            final(self).bundle_dir == old(self).bundle_dir,
            final(self).index.entries == old(self).index.entries,
            final(self).search == old(self).search,
            final(self).tags == old(self).tags,
            r is Some == old(self).has_numbers_for(doc.source_path@, doc.content@),
            final(self).index.next_seq == old(self).index.next_seq + if r is Some && old(
                self,
            ).mints(doc.source_path@, doc.content@) {
                1int
            } else {
                0
            },
            match r {
                Some(Ok(p)) => worked_out(
                    *old(self),
                    doc.source_path@,
                    doc.concept_id@,
                    doc.content@,
                    text_before(previous),
                    now@,
                    p,
                ),
                Some(Err(e)) => e is Yaml && markdown(
                    old(self).bundle_for(
                        doc.source_path@,
                        doc.concept_id@,
                        doc.content@,
                        text_before(previous),
                        now@,
                    ),
                ) is None,
                None => true,
            },
    {
        if self.numbers_left(doc) {
            Some(self.begin_index(doc, previous, now))
        } else {
            None
        }
    }

    /// Takes an index operation that was written into the index, the search entries and
    /// the tag index.
    pub fn finish_index(&mut self, pending: PendingIndex) -> (r: ConceptRef)
        requires
            old(self).wf(),
        ensures
            final(self).wf(),
            final(self).bundle_dir == old(self).bundle_dir,
            final(self).index.next_seq == old(self).index.next_seq,
            r.okf_id@ == pending.okf_id@,
            r.concept_id@ == pending.concept_id@,
            r.title@ == shown_title(pending.concept_id@, pending.document@),
            texts(r.labels@) == tags_of(pending.document@.frontmatter),
            taken_in(*old(self), *final(self), pending),
    {
        let ghost before = *self;
        let title = document_title(pending.concept_id.as_str(), &pending.document);
        let labels = frontmatter_tags(&pending.document.frontmatter);
        let found = search_entry(pending.concept_id.as_str(), &pending.document);
        let was = match self.index.entries.get(pending.source_path.as_str()) {
            Some(e) => copy_texts(&e.labels),
            None => Vec::new(),
        };
        proof {
            assert(before.index.entry_of(pending.source_path@) is None ==> texts(was@)
                =~= Seq::empty());
        }
        retag(&mut self.tags, pending.source_path.as_str(), &was, &labels);
        let entry = IndexEntry {
            okf_id: pending.okf_id.clone(),
            concept_id: pending.concept_id.clone(),
            content_hash: pending.content_hash,
            title: Some(title.clone()),
            labels: copy_texts(&labels),
            revision: pending.revision,
            updated_at: Some(pending.updated_at),
        };
        let ghost new_entry = entry;
        self.index.entries.insert(pending.source_path.clone(), entry);
        self.search.insert(pending.concept_id.clone(), found);
        proof {
            let source = pending.source_path@;
            assert forall|p: Seq<char>|
                #[trigger] self.index.entry_of(p) == if components(source) == components(p) {
                    Some(new_entry@)
                } else {
                    before.index.entry_of(p)
                } by {
                assert(self.index.entries.lookup(p) == if key_eq(KeyOrder::Path, source, p) {
                    Some(new_entry)
                } else {
                    before.index.entries.lookup(p)
                });
            }
            assert forall|id: Seq<char>|
                #[trigger] self.searched(id) == if id == pending.concept_id@ {
                    Some(found@)
                } else {
                    before.searched(id)
                } by {
                assert(self.search.lookup(id) == if key_eq(
                    KeyOrder::Text,
                    pending.concept_id@,
                    id,
                ) {
                    Some(found)
                } else {
                    before.search.lookup(id)
                });
            }
            assert forall|t: Seq<char>, p: Seq<char>|
                #[trigger] tagged(self.tags, t, p) == labelled(self.index, t, p) by {
                assert(tagged(before.tags, t, p) == labelled(before.index, t, p));
                if components(p) == components(source) {
                    before.index.entries.lemma_same_key(source, p);
                }
            }
        }
        ConceptRef { okf_id: pending.okf_id, concept_id: pending.concept_id, title, labels }
    }

    /// Removes the document indexed from a source. The bundle file to delete, where it
    /// was indexed.
    pub fn remove(&mut self, source_path: &str) -> (r: Option<String>)
        requires
            old(self).wf(),
        ensures
            final(self).wf(),
            final(self).bundle_dir == old(self).bundle_dir,
            final(self).index.next_seq == old(self).index.next_seq,
            match old(self).index.entry_of(source_path@) {
                Some(e) => {
                    &&& r is Some
                    &&& r->0@ == joined_path(old(self).bundle_dir@, e.concept_id)
                    &&& forall|id: Seq<char>|
                        #[trigger] final(self).searched(id) == if id == e.concept_id {
                            None
                        } else {
                            old(self).searched(id)
                        }
                },
                None => r is None && *final(self) == *old(self),
            },
            forall|p: Seq<char>|
                #[trigger] final(self).index.entry_of(p) == if components(source_path@)
                    == components(p) {
                    None
                } else {
                    old(self).index.entry_of(p)
                },
    {
        let ghost before = *self;
        let removed = self.index.entries.remove(source_path);
        proof {
            assert forall|p: Seq<char>|
                #[trigger] self.index.entry_of(p) == if components(source_path@) == components(p) {
                    None
                } else {
                    before.index.entry_of(p)
                } by {
                assert(self.index.entries.lookup(p) == if key_eq(KeyOrder::Path, source_path@, p) {
                    None
                } else {
                    before.index.entries.lookup(p)
                });
            }
        }
        match removed {
            Some(entry) => {
                let none: Vec<String> = Vec::new();
                retag(&mut self.tags, source_path, &entry.labels, &none);
                let gone = self.search.remove(entry.concept_id.as_str());
                proof {
                    assert forall|id: Seq<char>|
                        #[trigger] self.searched(id) == if id == entry.concept_id@ {
                            None
                        } else {
                            before.searched(id)
                        } by {
                        assert(self.search.lookup(id) == if key_eq(
                            KeyOrder::Text,
                            entry.concept_id@,
                            id,
                        ) {
                            None
                        } else {
                            before.search.lookup(id)
                        });
                    }
                    assert forall|t: Seq<char>, p: Seq<char>|
                        #[trigger] tagged(self.tags, t, p) == labelled(self.index, t, p) by {
                        assert(tagged(before.tags, t, p) == labelled(before.index, t, p));
                        assert(!texts(none@).contains(t));
                        if components(p) == components(source_path@) {
                            before.index.entries.lemma_same_key(source_path@, p);
                        }
                    }
                }
                Some(self.concept_path(entry.concept_id.as_str()))
            },
            None => None,
        }
    }

    /// Drops every document. The bundle files to delete.
    pub fn clear(&mut self) -> (r: Vec<String>)
        requires
            old(self).wf(),
        ensures
            final(self).wf(),
            final(self).bundle_dir == old(self).bundle_dir,
            final(self).index.next_seq == old(self).index.next_seq,
            final(self).index.entries.entries@.len() == 0,
            final(self).search.entries@.len() == 0,
            final(self).tags.entries@.len() == 0,
            forall|p: Seq<char>| final(self).index.entry_of(p) is None,
            texts(r@) == old(self).index.entries.entries@.map_values(
                |e: (String, IndexEntry)| joined_path(old(self).bundle_dir@, e.1.concept_id@),
            ),
    {
        let mut out: Vec<String> = Vec::new();
        let mut i: usize = 0;
        while i < self.index.entries.entries.len()
            invariant
                i <= self.index.entries.entries@.len(),
                out@.len() == i,
                forall|k: int|
                    0 <= k < i ==> (#[trigger] out@[k])@ == joined_path(
                        self.bundle_dir@,
                        self.index.entries.entries@[k].1.concept_id@,
                    ),
            decreases self.index.entries.entries.len() - i,
        {
            out.push(self.concept_path(self.index.entries.entries[i].1.concept_id.as_str()));
            i = i + 1;
        }
        proof {
            assert(texts(out@) =~= self.index.entries.entries@.map_values(
                |e: (String, IndexEntry)| joined_path(self.bundle_dir@, e.1.concept_id@),
            ));
        }
        self.index.entries = SortedMap::new(KeyOrder::Path);
        self.search = SortedMap::new(KeyOrder::Text);
        self.tags = SortedMap::new(KeyOrder::Text);
        out
    }

    /// The number of indexed documents.
    pub fn doc_count(&self) -> (r: usize)
        ensures
            r == self.index.entries.entries@.len(),
    {
        self.index.entries.len()
    }

    /// The source path of every indexed document, in the order of the paths.
    pub fn source_paths(&self) -> (r: Vec<String>)
        ensures
            texts(r@) == self.index.entries.entries@.map_values(|e: (String, IndexEntry)| e.0@),
    {
        let mut out: Vec<String> = Vec::new();
        let mut i: usize = 0;
        while i < self.index.entries.entries.len()
            invariant
                i <= self.index.entries.entries@.len(),
                out@.len() == i,
                forall|k: int|
                    0 <= k < i ==> (#[trigger] out@[k])@ == self.index.entries.entries@[k].0@,
            decreases self.index.entries.entries.len() - i,
        {
            out.push(self.index.entries.entries[i].0.clone());
            i = i + 1;
        }
        assert(texts(out@) =~= self.index.entries.entries@.map_values(
            |e: (String, IndexEntry)| e.0@,
        ));
        out
    }

    /// The bundle file of a source; `None` where it is not indexed.
    pub fn indexed_path(&self, source_path: &str) -> (r: Option<String>)
        requires
            self.wf(),
        ensures
            match self.index.entry_of(source_path@) {
                Some(e) => r is Some && r->0@ == joined_path(self.bundle_dir@, e.concept_id),
                None => r is None,
            },
    {
        match self.index.entries.get(source_path) {
            Some(e) => Some(self.concept_path(e.concept_id.as_str())),
            None => None,
        }
    }

    /// The catalog entry of a source.
    pub open spec fn summary_of(&self, source: Seq<char>, e: EntryView) -> SummaryView {
        SummaryView {
            path: source,
            kb_path: joined_path(self.bundle_dir@, e.concept_id),
            title: e.title,
            labels: e.labels,
        }
    }

    fn doc_summary(&self, source_path: &str, entry: &IndexEntry) -> (r: DocSummary)
        ensures
            r@ == self.summary_of(source_path@, entry@),
    {
        DocSummary {
            path: source_path.to_owned(),
            kb_path: self.concept_path(entry.concept_id.as_str()),
            title: match &entry.title {
                Some(t) => Some(t.clone()),
                None => None,
            },
            labels: copy_texts(&entry.labels),
        }
    }

    /// Every indexed document as a catalog entry, in the order of the source paths.
    pub fn list_documents(&self) -> (r: Vec<DocSummary>)
        ensures
            summaries_view(r@) == self.index.entries.entries@.map_values(
                |e: (String, IndexEntry)| self.summary_of(e.0@, e.1@),
            ),
    {
        let mut out: Vec<DocSummary> = Vec::new();
        let mut i: usize = 0;
        while i < self.index.entries.entries.len()
            invariant
                i <= self.index.entries.entries@.len(),
                out@.len() == i,
                forall|k: int|
                    0 <= k < i ==> (#[trigger] out@[k])@ == self.summary_of(
                        self.index.entries.entries@[k].0@,
                        self.index.entries.entries@[k].1@,
                    ),
            decreases self.index.entries.entries.len() - i,
        {
            let e = &self.index.entries.entries[i];
            out.push(self.doc_summary(e.0.as_str(), &e.1));
            i = i + 1;
        }
        assert(summaries_view(out@) =~= self.index.entries.entries@.map_values(
            |e: (String, IndexEntry)| self.summary_of(e.0@, e.1@),
        ));
        out
    }

    /// Catalog entries for every document that carries `tag`, in the order of the source
    /// paths.
    pub fn documents_by_tag(&self, tag: &str) -> (r: Vec<DocSummary>)
        requires
            self.wf(),
        ensures
            summaries_view(r@) == match self.tags.lookup(tag@) {
                Some(set) => set.entries@.map_values(
                    |e: (String, ())| self.summary_of(e.0@, self.index.entry_of(e.0@)->0),
                ),
                None => Seq::empty(),
            },
            forall|p: Seq<char>|
                labelled(self.index, tag@, p) ==> exists|i: int|
                    0 <= i < r@.len() && components((#[trigger] r@[i]).path@) == components(p),
            forall|i: int| 0 <= i < r@.len() ==> labelled(self.index, tag@, (#[trigger] r@[i]).path@),
    {
        let mut out: Vec<DocSummary> = Vec::new();
        match self.tags.get(tag) {
            Some(set) => {
                let mut i: usize = 0;
                while i < set.entries.len()
                    invariant
                        i <= set.entries@.len(),
                        self.wf(),
                        self.tags.lookup(tag@) == Some(*set),
                        out@.len() == i,
                        forall|k: int|
                            0 <= k < i ==> (#[trigger] out@[k])@ == self.summary_of(
                                set.entries@[k].0@,
                                self.index.entry_of(set.entries@[k].0@)->0,
                            ) && labelled(self.index, tag@, out@[k].path@),
                    decreases set.entries.len() - i,
                {
                    let path = set.entries[i].0.as_str();
                    proof {
                        assert(set.holds_at(path@, i as int));
                        assert(tagged(self.tags, tag@, path@));
                    }
                    match self.index.entries.get(path) {
                        Some(e) => {
                            out.push(self.doc_summary(path, e));
                        },
                        None => {},
                    }
                    i = i + 1;
                }
                proof {
                    assert(summaries_view(out@) =~= set.entries@.map_values(
                        |e: (String, ())| self.summary_of(e.0@, self.index.entry_of(e.0@)->0),
                    ));
                    assert forall|p: Seq<char>| labelled(self.index, tag@, p) implies exists|i: int|
                        0 <= i < out@.len() && components((#[trigger] out@[i]).path@)
                            == components(p) by {
                        assert(tagged(self.tags, tag@, p));
                        let i = choose|i: int| set.holds_at(p, i);
                        assert(out@[i]@.path == set.entries@[i].0@);
                    }
                }
            },
            None => {
                proof {
                    assert(summaries_view(out@) =~= Seq::empty());
                    assert forall|p: Seq<char>| !labelled(self.index, tag@, p) by {
                        assert(!tagged(self.tags, tag@, p));
                    }
                }
            },
        }
        out
    }

    /// The hit that a search entry gives for a needle.
    pub open spec fn hit_of(concept_id: Seq<char>, e: SearchView, needle: Seq<char>) -> HitView {
        HitView {
            concept_id,
            title: e.title,
            snippet: snippet_around(e.body, needle),
            path: e.source_path,
            labels: e.labels,
        }
    }

    /// The hits among some search entries: at most `limit` of those that contain the
    /// needle, in their order.
    pub open spec fn hits_among(
        entries: Seq<(String, SearchEntry)>,
        needle: Seq<char>,
        limit: nat,
    ) -> Seq<HitView>
        decreases entries.len(),
    {
        if entries.len() == 0 {
            Seq::empty()
        } else {
            let before = Self::hits_among(entries.drop_last(), needle, limit);
            let (id, e) = entries.last();
            if before.len() < limit && contains(e.haystack@, needle) {
                before.push(Self::hit_of(id@, e@, needle))
            } else {
                before
            }
        }
    }

    /// Searches the indexed concepts: at most `limit` hits, in the order of the concept
    /// ids, of those whose title, id, tags or body contain the query, whatever the case
    /// of the letters.
    pub fn search(&self, query: &str, limit: usize) -> (r: Vec<SearchHit>)
        ensures
            hits_view(r@) == Self::hits_among(self.search.entries@, lowercase(query@), limit as nat),
    {
        let needle = lowercase_of(query);
        self.search_for(needle.as_str(), limit)
    }

    /// Searches the indexed concepts for a text in small letters.
    pub fn search_for(&self, needle: &str, limit: usize) -> (r: Vec<SearchHit>)
        ensures
            hits_view(r@) == Self::hits_among(self.search.entries@, needle@, limit as nat),
    {
        let wanted = chars_of(needle);
        let mut out: Vec<SearchHit> = Vec::new();
        let ghost all = self.search.entries@;
        let mut i: usize = 0;
        proof {
            assert(all.take(0) =~= Seq::empty());
            assert(hits_view(out@) =~= Self::hits_among(all.take(0), needle@, limit as nat));
        }
        while i < self.search.entries.len()
            invariant
                i <= all.len(),
                all == self.search.entries@,
                wanted@ == needle@,
                hits_view(out@) == Self::hits_among(all.take(i as int), needle@, limit as nat),
            decreases all.len() - i,
        {
            let ghost before = out@;
            let id = &self.search.entries[i].0;
            let e = &self.search.entries[i].1;
            proof {
                assert(all.take(i + 1).drop_last() =~= all.take(i as int));
                assert(all.take(i + 1).last() == all[i as int]);
                assert(hits_view(before).len() == before.len());
            }
            if out.len() < limit && has(
                chars_of(e.haystack.as_str()).as_slice(),
                wanted.as_slice(),
            ) {
                let hit = SearchHit {
                    concept_id: id.clone(),
                    title: e.title.clone(),
                    snippet: snippet_at(e.body.as_str(), needle),
                    path: e.source_path.clone(),
                    labels: copy_texts(&e.labels),
                };
                out.push(hit);
                assert(hits_view(out@) =~= hits_view(before).push(hit@));
            }
            i = i + 1;
        }
        assert(all.take(all.len() as int) =~= all);
        out
    }

    /// Brings the catalog of a source up to date with its bundle document, which an
    /// external producer may have rewritten (`bundle` is its text; `None` where it cannot
    /// be read). `None` where the source is not indexed or the bundle cannot be read.
    pub fn refresh_indexed(&mut self, source_path: &str, bundle: Option<&str>) -> (r: Option<
        ConceptRef,
    >)
        requires
            old(self).wf(),
        ensures
            final(self).wf(),
            final(self).bundle_dir == old(self).bundle_dir,
            final(self).index.next_seq == old(self).index.next_seq,
            r is Some == (old(self).index.entry_of(source_path@) is Some && bundle is Some),
            r is None ==> *final(self) == *old(self),
            r matches Some(c) ==> {
                let was = old(self).index.entry_of(source_path@)->0;
                let doc = document(bundle->0@);
                let title = shown_title(was.concept_id, doc);
                let labels = tags_of(doc.frontmatter);
                &&& c.okf_id@ == was.okf_id
                &&& c.concept_id@ == was.concept_id
                &&& c.title@ == title
                &&& texts(c.labels@) == labels
                &&& forall|p: Seq<char>|
                    #[trigger] final(self).index.entry_of(p) == if components(source_path@)
                        == components(p) {
                        Some(EntryView { title: Some(title), labels, ..was })
                    } else {
                        old(self).index.entry_of(p)
                    }
                &&& forall|id: Seq<char>|
                    #[trigger] final(self).searched(id) == if id == was.concept_id {
                        Some(searchable(id, doc))
                    } else {
                        old(self).searched(id)
                    }
            },
    {
        let ghost before = *self;
        let text = match bundle {
            Some(t) => t,
            None => {
                return None;
            },
        };
        let was = match self.index.entries.get(source_path) {
            Some(e) => e,
            None => {
                return None;
            },
        };
        let ghost old_entry = was@;
        let doc = Document::parse(text);
        let title = document_title(was.concept_id.as_str(), &doc);
        let labels = frontmatter_tags(&doc.frontmatter);
        let found = search_entry(was.concept_id.as_str(), &doc);
        let okf_id = was.okf_id.clone();
        let concept_id = was.concept_id.clone();
        let old_labels = copy_texts(&was.labels);
        let entry = IndexEntry {
            okf_id: was.okf_id.clone(),
            concept_id: was.concept_id.clone(),
            content_hash: was.content_hash.clone(),
            title: Some(title.clone()),
            labels: copy_texts(&labels),
            revision: was.revision,
            updated_at: match &was.updated_at {
                Some(at) => Some(at.clone()),
                None => None,
            },
        };
        let ghost new_entry = entry;
        retag(&mut self.tags, source_path, &old_labels, &labels);
        self.index.entries.insert(source_path.to_owned(), entry);
        self.search.insert(concept_id.clone(), found);
        proof {
            let source = source_path@;
            assert forall|p: Seq<char>|
                #[trigger] self.index.entry_of(p) == if components(source) == components(p) {
                    Some(new_entry@)
                } else {
                    before.index.entry_of(p)
                } by {
                assert(self.index.entries.lookup(p) == if key_eq(KeyOrder::Path, source, p) {
                    Some(new_entry)
                } else {
                    before.index.entries.lookup(p)
                });
            }
            assert forall|id: Seq<char>|
                #[trigger] self.searched(id) == if id == concept_id@ {
                    Some(found@)
                } else {
                    before.searched(id)
                } by {
                assert(self.search.lookup(id) == if key_eq(KeyOrder::Text, concept_id@, id) {
                    Some(found)
                } else {
                    before.search.lookup(id)
                });
            }
            assert forall|t: Seq<char>, p: Seq<char>|
                #[trigger] tagged(self.tags, t, p) == labelled(self.index, t, p) by {
                assert(tagged(before.tags, t, p) == labelled(before.index, t, p));
                if components(p) == components(source) {
                    before.index.entries.lemma_same_key(source, p);
                }
            }
        }
        Some(ConceptRef { okf_id, concept_id, title, labels })
    }
}

// ------------------------------------------------------------------------ opening

/// Whether one of the first `n` entries is that of a source with a label.
pub open spec fn labelled_among(
    index: OkfIndex,
    n: int,
    label: Seq<char>,
    source: Seq<char>,
) -> bool {
    exists|k: int|
        k < n && #[trigger] index.entries.holds_at(source, k) && texts(
            index.entries.entries@[k].1.labels@,
        ).contains(label)
}

/// Builds the tag index from the labels of the sidecar index.
pub fn build_tag_index(index: &OkfIndex) -> (r: TagIndex)
    requires
        index.wf(),
    ensures
        tags_wf(r),
        forall|t: Seq<char>, p: Seq<char>| #[trigger] tagged(r, t, p) == labelled(*index, t, p),
{
    let mut tags: TagIndex = SortedMap::new(KeyOrder::Text);
    let none: Vec<String> = Vec::new();
    let mut i: usize = 0;
    while i < index.entries.entries.len()
        invariant
            i <= index.entries.entries@.len(),
            index.wf(),
            none@.len() == 0,
            tags_wf(tags),
            forall|t: Seq<char>, p: Seq<char>|
                #[trigger] tagged(tags, t, p) == labelled_among(*index, i as int, t, p),
        decreases index.entries.entries.len() - i,
    {
        let ghost before = tags;
        let path = index.entries.entries[i].0.as_str();
        retag(&mut tags, path, &none, &index.entries.entries[i].1.labels);
        proof {
            assert forall|t: Seq<char>, p: Seq<char>|
                #[trigger] tagged(tags, t, p) == labelled_among(*index, i + 1, t, p) by {
                assert(tagged(before, t, p) == labelled_among(*index, i as int, t, p));
                let at = i as int;
                if components(p) == components(path@) {
                    assert(index.entries.holds_at(p, at));
                    index.entries.lemma_entry(p, at);
                } else if labelled_among(*index, i + 1, t, p) {
                    let k = choose|k: int|
                        k < i + 1 && #[trigger] index.entries.holds_at(p, k) && texts(
                            index.entries.entries@[k].1.labels@,
                        ).contains(t);
                    assert(k < i && index.entries.holds_at(p, k));
                }
            }
        }
        i = i + 1;
    }
    proof {
        assert forall|t: Seq<char>, p: Seq<char>|
            #[trigger] tagged(tags, t, p) == labelled(*index, t, p) by {
            if index.entries.has_key(p) {
                let k = choose|k: int| index.entries.holds_at(p, k);
                index.entries.lemma_entry(p, k);
            }
        }
    }
    tags
}

/// What is searched of a concept, by the bundle texts of the first `n` entries: the last
/// one that was read counts.
pub open spec fn search_among(
    entries: Seq<(String, IndexEntry)>,
    bundles: Seq<Option<String>>,
    n: int,
    concept_id: Seq<char>,
) -> Option<SearchView>
    decreases n,
{
    if n <= 0 {
        None
    } else if bundles[n - 1] is Some && entries[n - 1].1.concept_id@ == concept_id {
        Some(searchable(concept_id, document(bundles[n - 1]->0@)))
    } else {
        search_among(entries, bundles, n - 1, concept_id)
    }
}

/// An entry with the title and the labels of its bundle document, where that was read.
pub open spec fn refreshed(e: EntryView, found: Option<SearchView>) -> EntryView {
    match found {
        Some(s) => EntryView { title: Some(s.title), labels: s.labels, ..e },
        None => e,
    }
}

/// Builds the search entries from the texts of the bundle files that the sidecar index
/// names (`None` for one that cannot be read).
pub fn build_search_index(index: &OkfIndex, bundles: &Vec<Option<String>>) -> (r: SortedMap<
    SearchEntry,
>)
    requires
        bundles@.len() == index.entries.entries@.len(),
    ensures
        r.wf(),
        r.order == KeyOrder::Text,
        forall|id: Seq<char>|
            #[trigger] search_view(r, id) == search_among(
                index.entries.entries@,
                bundles@,
                bundles@.len() as int,
                id,
            ),
{
    let mut search: SortedMap<SearchEntry> = SortedMap::new(KeyOrder::Text);
    let mut i: usize = 0;
    while i < bundles.len()
        invariant
            i <= bundles@.len(),
            bundles@.len() == index.entries.entries@.len(),
            search.wf(),
            search.order == KeyOrder::Text,
            forall|id: Seq<char>|
                #[trigger] search_view(search, id) == search_among(
                    index.entries.entries@,
                    bundles@,
                    i as int,
                    id,
                ),
        decreases bundles.len() - i,
    {
        let ghost before = search;
        match &bundles[i] {
            Some(text) => {
                let id = index.entries.entries[i].1.concept_id.clone();
                let doc = Document::parse(text.as_str());
                let found = search_entry(id.as_str(), &doc);
                search.insert(id, found);
                proof {
                    assert forall|x: Seq<char>|
                        #[trigger] search_view(search, x) == search_among(
                            index.entries.entries@,
                            bundles@,
                            i + 1,
                            x,
                        ) by {
                        assert(search_view(before, x) == search_among(
                            index.entries.entries@,
                            bundles@,
                            i as int,
                            x,
                        ));
                        assert(search.lookup(x) == if key_eq(KeyOrder::Text, id@, x) {
                            Some(found)
                        } else {
                            before.lookup(x)
                        });
                    }
                }
            },
            None => {
                proof {
                    assert forall|x: Seq<char>|
                        #[trigger] search_view(search, x) == search_among(
                            index.entries.entries@,
                            bundles@,
                            i + 1,
                            x,
                        ) by {}
                }
            },
        }
        i = i + 1;
    }
    search
}

/// What a map of search entries has of a concept.
pub open spec fn search_view(search: SortedMap<SearchEntry>, id: Seq<char>) -> Option<SearchView> {
    match search.lookup(id) {
        Some(e) => Some(e@),
        None => None,
    }
}

fn same_labels(a: &Vec<String>, b: &Vec<String>) -> (r: bool)
    ensures
        r == (texts(a@) == texts(b@)),
{
    crate::path::same_texts(a.as_slice(), b.as_slice())
}

impl OkfKb {
    /// Opens the producer on a sidecar index and the texts of the bundle files that it
    /// names, in its order (`None` for one that cannot be read). Titles and labels are
    /// those of the bundle documents; of one that cannot be read they stay as they were.
    /// The second result says whether the index changed, and is to be saved.
    pub fn open(bundle_dir: String, index: OkfIndex, bundles: &Vec<Option<String>>) -> (r: (
        Self,
        bool,
    ))
        requires
            index.wf(),
            bundles@.len() == index.entries.entries@.len(),
        ensures
            r.0.wf(),
            r.0.bundle_dir == bundle_dir,
            r.0.index.next_seq == index.next_seq,
            forall|id: Seq<char>|
                #[trigger] r.0.searched(id) == search_among(
                    index.entries.entries@,
                    bundles@,
                    bundles@.len() as int,
                    id,
                ),
            r.0.index.entries.entries@.len() == index.entries.entries@.len(),
            forall|k: int|
                0 <= k < index.entries.entries@.len() ==> {
                    let was = index.entries.entries@[k];
                    let now = #[trigger] r.0.index.entries.entries@[k];
                    now.0@ == was.0@ && now.1@ == refreshed(
                        was.1@,
                        r.0.searched(was.1.concept_id@),
                    )
                },
            r.1 == exists|k: int|
                0 <= k < index.entries.entries@.len() && (#[trigger] index.entries.entries@[k]).1@
                    != r.0.index.entries.entries@[k].1@,
    {
        let search = build_search_index(&index, bundles);
        let mut entries: Vec<(String, IndexEntry)> = Vec::new();
        let mut dirty = false;
        let mut i: usize = 0;
        while i < index.entries.entries.len()
            invariant
                i <= index.entries.entries@.len(),
                search.wf(),
                search.order == KeyOrder::Text,
                entries@.len() == i,
                forall|k: int|
                    0 <= k < i ==> (#[trigger] entries@[k]).0@ == index.entries.entries@[k].0@
                        && entries@[k].1@ == refreshed(
                        index.entries.entries@[k].1@,
                        search_view(search, index.entries.entries@[k].1.concept_id@),
                    ),
                dirty == exists|k: int|
                    0 <= k < i && (#[trigger] index.entries.entries@[k]).1@ != entries@[k].1@,
            decreases index.entries.entries.len() - i,
        {
            let was = &index.entries.entries[i].1;
            let ghost before = entries@;
            let mut title: Option<String> = match &was.title {
                Some(t) => Some(t.clone()),
                None => None,
            };
            let mut labels = copy_texts(&was.labels);
            let mut changed = false;
            match search.get(was.concept_id.as_str()) {
                Some(found) => {
                    let same_title = match &was.title {
                        Some(t) => same(t.as_str(), found.title.as_str()),
                        None => false,
                    };
                    if !same_title || !same_labels(&was.labels, &found.labels) {
                        title = Some(found.title.clone());
                        labels = copy_texts(&found.labels);
                        changed = true;
                    }
                },
                None => {},
            }
            let entry = IndexEntry {
                okf_id: was.okf_id.clone(),
                concept_id: was.concept_id.clone(),
                content_hash: was.content_hash.clone(),
                title,
                labels,
                revision: was.revision,
                updated_at: match &was.updated_at {
                    Some(at) => Some(at.clone()),
                    None => None,
                },
            };
            let ghost new_entry = entry;
            entries.push((index.entries.entries[i].0.clone(), entry));
            proof {
                assert(changed == (was@ != new_entry@));
                assert(forall|k: int| 0 <= k < i ==> entries@[k] == before[k]);
                if changed {
                    assert(index.entries.entries@[i as int].1@ != entries@[i as int].1@);
                } else if dirty {
                    let k = choose|k: int|
                        0 <= k < i && (#[trigger] index.entries.entries@[k]).1@ != before[k].1@;
                    assert(index.entries.entries@[k].1@ != entries@[k].1@);
                }
            }
            dirty = dirty || changed;
            i = i + 1;
        }
        let fresh = OkfIndex {
            next_seq: index.next_seq,
            entries: SortedMap { order: KeyOrder::Path, entries },
        };
        proof {
            assert forall|a: int, b: int| 0 <= a < b < entries@.len() implies key_lt(
                KeyOrder::Path,
                (#[trigger] entries@[a]).0@,
                (#[trigger] entries@[b]).0@,
            ) by {
                assert(key_lt(
                    KeyOrder::Path,
                    index.entries.entries@[a].0@,
                    index.entries.entries@[b].0@,
                ));
            }
        }
        let tags = build_tag_index(&fresh);
        let kb = OkfKb { bundle_dir, index: fresh, search, tags };
        proof {
            assert forall|id: Seq<char>| #[trigger] kb.searched(id) == search_view(search, id) by {}
        }
        (kb, dirty)
    }

    /// Every tag and how many sources carry it, in the order of the tags.
    pub open spec fn counts(&self) -> Seq<(Seq<char>, u32)> {
        self.tags.entries@.map_values(
            |e: (String, SortedMap<()>)| (e.0@, e.1.entries@.len() as u32),
        )
    }

    /// Every tag with its document count: the most-used first, ties by the tag.
    pub fn tag_counts(&self) -> (r: Vec<TagCount>)
        requires
            self.wf(),
        ensures
            counts_view(r@).to_multiset() == self.counts().to_multiset(),
            forall|i: int, j: int|
                0 <= i < j < r@.len() ==> comes_first(
                    #[trigger] counts_view(r@)[i],
                    #[trigger] counts_view(r@)[j],
                ),
    {
        let ghost all = self.counts();
        let mut out: Vec<TagCount> = Vec::new();
        let mut i: usize = 0;
        proof {
            assert(all.take(0) =~= Seq::empty());
            assert(counts_view(out@) =~= Seq::empty());
        }
        while i < self.tags.entries.len()
            invariant
                i <= self.tags.entries@.len(),
                self.wf(),
                all == self.counts(),
                counts_view(out@).to_multiset() == all.take(i as int).to_multiset(),
                forall|a: int, b: int|
                    0 <= a < b < out@.len() ==> comes_first(
                        #[trigger] counts_view(out@)[a],
                        #[trigger] counts_view(out@)[b],
                    ),
            decreases self.tags.entries.len() - i,
        {
            let tag = self.tags.entries[i].0.clone();
            #[verifier::truncate]
            let count: u32 = self.tags.entries[i].1.len() as u32;
            let ghost item = all[i as int];
            proof {
                assert(item == (tag@, count));
            }
            let mut at: usize = 0;
            while at < out.len() && !first(count, tag.as_str(), &out[at])
                invariant
                    at <= out@.len(),
                    item == (tag@, count),
                    forall|k: int|
                        0 <= k < at ==> !comes_first(item, #[trigger] counts_view(out@)[k]),
                decreases out.len() - at,
            {
                assert(counts_view(out@)[at as int] == (out@[at as int].tag@, out@[at as int].count));
                at = at + 1;
            }
            let ghost before = out@;
            let ghost seen = counts_view(out@);
            out.insert(at, TagCount { tag, count });
            proof {
                let now = counts_view(out@);
                assert(now =~= seen.insert(at as int, item));
                vstd::seq_lib::to_multiset_insert(seen, at as int, item);
                vstd::seq_lib::to_multiset_build(all.take(i as int), item);
                assert(all.take(i + 1) =~= all.take(i as int).push(item));
                if at < seen.len() {
                    assert(seen[at as int] == (before[at as int].tag@, before[at as int].count));
                    assert(comes_first(item, seen[at as int]));
                }
                assert forall|k: int| 0 <= k < seen.len() implies seen[k].0 != item.0 by {
                    vstd::seq_lib::to_multiset_contains(seen, seen[k]);
                    vstd::seq_lib::to_multiset_contains(all.take(i as int), seen[k]);
                    assert(seen.contains(seen[k]));
                    let t = all.take(i as int);
                    let n = choose|n: int| 0 <= n < t.len() && t[n] == seen[k];
                    assert(key_lt(
                        KeyOrder::Text,
                        self.tags.entries@[n].0@,
                        self.tags.entries@[i as int].0@,
                    ));
                    lemma_text_lt_irreflexive(item.0);
                }
                assert forall|a: int, b: int| 0 <= a < b < now.len() implies comes_first(
                    #[trigger] now[a],
                    #[trigger] now[b],
                ) by {
                    let x = if a < at {
                        a
                    } else {
                        a - 1
                    };
                    let y = if b < at {
                        b
                    } else {
                        b - 1
                    };
                    if a == at {
                        assert(now[b] == seen[y]);
                        if y > at {
                            assert(comes_first(seen[at as int], seen[y]));
                            lemma_comes_first(item, seen[at as int], seen[y]);
                        }
                    } else if b == at {
                        assert(now[a] == seen[x]);
                        lemma_comes_first(item, seen[x], item);
                    } else {
                        assert(now[a] == seen[x] && now[b] == seen[y]);
                    }
                }
            }
            i = i + 1;
        }
        assert(all.take(all.len() as int) =~= all);
        out
    }
}

/// What a list of tag counts says.
pub open spec fn counts_view(v: Seq<TagCount>) -> Seq<(Seq<char>, u32)> {
    v.map_values(|c: TagCount| (c.tag@, c.count))
}

/// Whether a tag stands before another: it is used more, or as much and its name comes
/// first.
pub open spec fn comes_first(a: (Seq<char>, u32), b: (Seq<char>, u32)) -> bool {
    a.1 > b.1 || (a.1 == b.1 && text_lt(a.0, b.0))
}

proof fn lemma_comes_first(a: (Seq<char>, u32), b: (Seq<char>, u32), c: (Seq<char>, u32))
    ensures
        comes_first(a, b) && comes_first(b, c) ==> comes_first(a, c),
        a.0 != b.0 ==> comes_first(a, b) || comes_first(b, a),
{
    lemma_text_lt_total(a.0, b.0);
    if text_lt(a.0, b.0) && text_lt(b.0, c.0) {
        lemma_text_lt_transitive(a.0, b.0, c.0);
    }
}

fn first(count: u32, tag: &str, other: &TagCount) -> (r: bool)
    ensures
        r == comes_first((tag@, count), (other.tag@, other.count)),
{
    count > other.count || (count == other.count && less(tag, other.tag.as_str()))
}

/// Names the producer.
#[derive(Debug, Default)]
pub struct OkfProvider;

impl OkfProvider {
    /// Stable backend identifier.
    pub fn name(&self) -> (r: &str)
        ensures
            r@ == "okf"@,
    {
        "okf"
    }

    /// The sidecar index of a KB directory.
    pub fn index_path(&self, kb_dir: &str) -> (r: String)
        ensures
            r@ == joined_path(kb_dir@, "okf-index.json"@),
    {
        join_path(kb_dir, "okf-index.json")
    }
}

// -------------------------------------------------------------------------- laws

/// The identity of a source is kept when it is indexed again, unless its frontmatter
/// gives one.
pub proof fn identity_is_preserved(kb: OkfKb, source: Seq<char>, content: Seq<char>)
    requires
        kb.index.entry_of(source) is Some,
        text_at(document(content).frontmatter, "okf_id"@) is None,
    ensures
        kb.identity_for(source, content) == kb.index.entry_of(source)->0.okf_id,
        !kb.mints(source, content),
{
}

/// An identity in the source's frontmatter is honored.
pub proof fn identity_of_the_source_is_honored(
    kb: OkfKb,
    source: Seq<char>,
    content: Seq<char>,
    id: Seq<char>,
)
    requires
        text_at(document(content).frontmatter, "okf_id"@) == Some(id),
    ensures
        kb.identity_for(source, content) == id,
{
}

/// The revision goes up exactly when the content hash changes, by one.
pub proof fn revision_counts_content_changes(e: EntryView, hash: Seq<char>, now: Seq<char>)
    requires
        e.revision > 0,
    ensures
        revision_for(Some(e), hash) == e.revision + if e.content_hash == hash {
            0int
        } else {
            1
        },
        e.content_hash == hash && e.updated_at is Some ==> updated_for(Some(e), hash, now)
            == e.updated_at->0,
        e.content_hash != hash ==> updated_for(Some(e), hash, now) == now,
{
}

proof fn lemma_value_added(m: Pairs, key: Yaml, value: Yaml)
    requires
        !has_key(m, key),
    ensures
        with_value(m, key, value) == m.push((key, value)),
    decreases m.len(),
{
    if m.len() > 0 {
        let rest = m.drop_first();
        assert(!key_at(m, key, 0));
        assert(!has_key(rest, key)) by {
            if has_key(rest, key) {
                let i = choose|i: int| key_at(rest, key, i);
                assert(key_at(m, key, i + 1));
            }
        }
        lemma_value_added(rest, key, value);
        assert(seq![m[0]] + rest.push((key, value)) =~= m.push((key, value)));
    } else {
        assert(with_value(m, key, value) =~= m.push((key, value)));
    }
}

/// The pairs that are added stand behind the others, each with a key of its own.
proof fn lemma_missing_added(fm: Pairs, other: Pairs)
    ensures
        ({
            let all = with_missing(fm, other);
            &&& fm.len() <= all.len()
            &&& all.take(fm.len() as int) == fm
            &&& forall|i: int|
                fm.len() <= i < all.len() ==> !has_key(all.take(i), (#[trigger] all[i]).0)
        }),
    decreases other.len(),
{
    let all = with_missing(fm, other);
    if other.len() > 0 {
        let rest = other.drop_last();
        let before = with_missing(fm, rest);
        lemma_missing_added(fm, rest);
        if !has_key(before, other.last().0) {
            lemma_value_added(before, other.last().0, other.last().1);
            assert(all.take(fm.len() as int) =~= before.take(fm.len() as int));
            assert forall|i: int| fm.len() <= i < all.len() implies !has_key(
                all.take(i),
                (#[trigger] all[i]).0,
            ) by {
                assert(all.take(i) =~= before.take(i));
                if i < before.len() {
                    assert(all[i] == before[i]);
                } else {
                    assert(before.take(i) =~= before);
                }
            }
        }
    } else {
        assert(all.take(fm.len() as int) =~= fm);
    }
}

proof fn lemma_missing_again(fm: Pairs, all: Pairs, n: int)
    requires
        0 <= n <= all.len(),
        fm.len() <= all.len(),
        all.take(fm.len() as int) == fm,
        forall|i: int| fm.len() <= i < all.len() ==> !has_key(all.take(i), (#[trigger] all[i]).0),
        forall|i: int| 0 <= i < all.len() ==> (#[trigger] all[i]).0 is Text,
    ensures
        with_missing(fm, all.take(n)) == all.take(
            if n < fm.len() {
                fm.len() as int
            } else {
                n
            },
        ),
    decreases n,
{
    if n > 0 {
        lemma_missing_again(fm, all, n - 1);
        assert(all.take(n).drop_last() =~= all.take(n - 1));
        assert(all.take(n).last() == all[n - 1]);
        if n - 1 < fm.len() {
            assert(fm[n - 1] == all[n - 1]);
            assert(key_at(fm, all[n - 1].0, n - 1));
        } else {
            let before = all.take(n - 1);
            lemma_value_added(before, all[n - 1].0, all[n - 1].1);
            assert(before.push(all[n - 1]) =~= all.take(n));
        }
    } else {
        assert(all.take(0) =~= Seq::empty());
    }
}

/// Whether frontmatter with texts for keys is read as it was written.
pub open spec fn reads_back(fm: Pairs, text: Seq<char>) -> bool {
    &&& document(text).frontmatter == fm
    &&& forall|i: int| 0 <= i < fm.len() ==> (#[trigger] fm[i]).0 is Text
}

/// Whether regions are carried into the bundle that a source gets: the bundle before had some,
/// and the content has none.
pub open spec fn carries_regions(content: Seq<char>, previous: Option<Seq<char>>) -> bool {
    !any_preserved(document(content).body) && previous is Some && any_preserved(
        document(previous->0).body,
    )
}

/// Whether the bundle that a source gets has a body that indexing the same content again leaves
/// as it is. The content has a producer-owned region of its own; or no separator of lines ends
/// the frontmatter, and the content that regions are carried into does not end inside a code
/// block.
pub open spec fn body_settles(
    content: Seq<char>,
    previous: Option<Seq<char>>,
    bundle: DocumentView,
) -> bool {
    let body = document(content).body;
    any_preserved(body) || {
        &&& ends_plainly(Yaml::Mapping(bundle.frontmatter))
        &&& carries_regions(content, previous) ==> code_after(
            split(trim_end(body, CharSet::White), '\n'),
            None,
        ) is None
    }
}

/// Whether indexing the same content again leaves the bundle that a source gets as it is: its
/// body settles, and frontmatter that comes with regions is read as it was written.
pub open spec fn settles(
    content: Seq<char>,
    previous: Option<Seq<char>>,
    bundle: DocumentView,
    written: Seq<char>,
) -> bool {
    &&& body_settles(content, previous, bundle)
    &&& carries_regions(content, previous) ==> reads_back(bundle.frontmatter, written)
}

/// A source that is indexed twice, where both texts were written and nobody else edited the
/// bundle: `first` was worked out by `kb` and taken in, which gave `indexed`; `second` was
/// worked out by `indexed`, beside the text that `first` wrote, and taken in too.
///
/// The identity stays, unless the new frontmatter gives one. The revision goes up by one where
/// the content hash has changed, and stays where it has not. The second call adds no document.
/// Where the content is the same, the body of the bundle is the same if it settles, and so is
/// the whole text if the bundle does, whatever the time.
pub proof fn indexing_again_keeps_the_document(
    kb: OkfKb,
    begun: OkfKb,
    indexed: OkfKb,
    begun_again: OkfKb,
    indexed_again: OkfKb,
    source: Seq<char>,
    concept_id: Seq<char>,
    content: Seq<char>,
    new_content: Seq<char>,
    previous: Option<Seq<char>>,
    now: Seq<char>,
    later: Seq<char>,
    first: PendingIndex,
    second: PendingIndex,
)
    requires
        worked_out(kb, source, concept_id, content, previous, now, first),
        begun.index.entries == kb.index.entries,
        taken_in(begun, indexed, first),
        worked_out(
            indexed,
            source,
            concept_id,
            new_content,
            Some(first.markdown@),
            later,
            second,
        ),
        begun_again.index.entries == indexed.index.entries,
        taken_in(begun_again, indexed_again, second),
    ensures
        text_at(document(new_content).frontmatter, "okf_id"@) is None ==> second.okf_id@
            == first.okf_id@,
        second.revision == first.revision + if hash_of(new_content) == hash_of(content) {
            0int
        } else {
            1
        },
        indexed_again.index.entries.entries@.len() == indexed.index.entries.entries@.len(),
        new_content == content && body_settles(content, previous, first.document@)
            ==> second.document@.body == first.document@.body,
        new_content == content && settles(content, previous, first.document@, first.markdown@)
            ==> second.markdown@ == first.markdown@,
{
    assert(indexed.index.entry_of(source) is Some);
    assert(begun_again.index.entry_of(source) == indexed.index.entry_of(source));
    if new_content == content && body_settles(content, previous, first.document@) {
        indexing_again_leaves_the_bundle(
            kb,
            indexed,
            source,
            concept_id,
            content,
            previous,
            first.markdown@,
            now,
            later,
        );
    }
}

/// Indexing the same content again leaves the bundle as it was, whatever the time: `again` is
/// a knowledge base in which the source is indexed as `kb` has indexed it, and `written` the
/// text of the bundle that `kb` gave it, whose body settles.
pub proof fn indexing_again_leaves_the_bundle(
    kb: OkfKb,
    again: OkfKb,
    source: Seq<char>,
    concept_id: Seq<char>,
    content: Seq<char>,
    previous: Option<Seq<char>>,
    written: Seq<char>,
    now: Seq<char>,
    later: Seq<char>,
)
    requires
        ({
            let facts = kb.facts_for(source, concept_id, content, now);
            &&& again.index.entry_of(source) matches Some(e)
            &&& e.okf_id == facts.okf_id
            &&& e.content_hash == hash_of(content)
            &&& e.revision == facts.revision
            &&& e.updated_at == Some(facts.updated_at)
        }),
        ({
            let first = kb.bundle_for(source, concept_id, content, previous, now);
            &&& markdown(first) == Some(written)
            &&& keeps_its_body(first, written)
            &&& body_settles(content, previous, first)
        }),
    ensures
        !again.mints(source, content),
        again.facts_for(source, concept_id, content, later) == kb.facts_for(
            source,
            concept_id,
            content,
            now,
        ),
        again.bundle_for(source, concept_id, content, Some(written), later).body
            == kb.bundle_for(source, concept_id, content, previous, now).body,
        settles(
            content,
            previous,
            kb.bundle_for(source, concept_id, content, previous, now),
            written,
        ) ==> markdown(again.bundle_for(source, concept_id, content, Some(written), later))
            == Some(written),
{
    let doc = document(content);
    let facts = kb.facts_for(source, concept_id, content, now);
    let first = kb.bundle_for(source, concept_id, content, previous, now);
    let plain = DocumentView {
        frontmatter: ensured(doc.frontmatter, doc.body, facts),
        body: doc.body,
    };
    assert(again.facts_for(source, concept_id, content, later) == facts);
    if !any_preserved(doc.body) {
        bundle_frontmatter_is_complete(doc.frontmatter, doc.body, facts);
        if previous is Some && any_preserved(document(previous->0).body) {
            let fm = plain.frontmatter;
            let all = first.frontmatter;
            lemma_missing_added(fm, document(previous->0).frontmatter);
            regeneration_keeps_the_regions(plain, previous->0);
            assert(carried(plain, Some(written)).body == first.body);
            lemma_still_preserved(plain, previous->0);
            if reads_back(all, written) {
                lemma_missing_again(fm, all, all.len() as int);
                assert(all.take(all.len() as int) =~= all);
            }
        } else {
            assert(first == plain);
            assert(document(written).body == first.body);
        }
    }
}

/// A document into which regions were carried over has some.
proof fn lemma_still_preserved(doc: DocumentView, previous: Seq<char>)
    requires
        !any_preserved(doc.body),
        any_preserved(document(previous).body),
        code_after(split(trim_end(doc.body, CharSet::White), '\n'), None) is None,
    ensures
        any_preserved(carried(doc, Some(previous)).body),
{
    regeneration_keeps_the_regions(doc, previous);
    let body = carried(doc, Some(previous)).body;
    assert(region_texts(body).len() == found(body, preserved_classes()).len());
    assert(region_texts(document(previous).body).len() == found(
        document(previous).body,
        preserved_classes(),
    ).len());
}

/// A document is found under a tag exactly when the index gives it that label.
pub proof fn tag_index_agrees_with_labels(kb: OkfKb, tag: Seq<char>, source: Seq<char>)
    requires
        kb.wf(),
    ensures
        tagged(kb.tags, tag, source) == labelled(kb.index, tag, source),
        kb.tags.lookup(tag) is Some <==> exists|p: Seq<char>| labelled(kb.index, tag, p),
{
    if let Some(set) = kb.tags.lookup(tag) {
        let p = set.entries@[0].0@;
        assert(set.holds_at(p, 0));
        assert(tagged(kb.tags, tag, p));
        assert(labelled(kb.index, tag, p));
    } else {
        assert forall|p: Seq<char>| !labelled(kb.index, tag, p) by {
            assert(!tagged(kb.tags, tag, p));
        }
    }
}

/// A search finds no more than it was asked for.
pub proof fn search_respects_its_limit(
    entries: Seq<(String, SearchEntry)>,
    needle: Seq<char>,
    limit: nat,
)
    ensures
        OkfKb::hits_among(entries, needle, limit).len() <= limit,
    decreases entries.len(),
{
    if entries.len() > 0 {
        search_respects_its_limit(entries.drop_last(), needle, limit);
    }
}

} // verus!
