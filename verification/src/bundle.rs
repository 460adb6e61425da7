//! The documents of a bundle: the frontmatter that the producer writes, what is
//! carried over from the bundle before, and what is searched.

use crate::fence::{any_preserved, has_preserved, preserved_texts, region_texts};
use crate::frontmatter::{document, Document, DocumentView};
use crate::kb::{derive_title, title_of};
use crate::text::{
    chars_of, decimal, join, joined, lowercase, lowercase_of, string_of, texts, trim_end,
    trimmed_end, CharSet,
};
use crate::yaml::{
    as_text, contains_key, get_text, has_key, insert, items_of, lemma_has_key, lemma_with_value,
    mapping_len, number_value, pair_at, pairs, text_of, text_value, untagged, value_of, with_value,
    yaml, Pairs, Yaml,
};
use serde_yaml_ng::{Mapping, Value};
use vstd::prelude::*;

verus! {

/// The text that frontmatter gives a key.
pub open spec fn text_at(fm: Pairs, key: Seq<char>) -> Option<Seq<char>> {
    match value_of(fm, Yaml::Text(key)) {
        Some(v) => match untagged(v) {
            Yaml::Text(s) => Some(s),
            _ => None,
        },
        None => None,
    }
}

/// The texts among some values.
pub open spec fn texts_among(items: Seq<Yaml>) -> Seq<Seq<char>>
    decreases items.len(),
{
    if items.len() == 0 {
        Seq::empty()
    } else {
        let before = texts_among(items.drop_last());
        match untagged(items.last()) {
            Yaml::Text(s) => before.push(s),
            _ => before,
        }
    }
}

/// The tags of frontmatter: the texts of a list, or a single one.
pub open spec fn tags_of(fm: Pairs) -> Seq<Seq<char>> {
    match value_of(fm, Yaml::Text("tags"@)) {
        Some(Yaml::Sequence(items)) => texts_among(items),
        Some(Yaml::Text(s)) => seq![s],
        _ => Seq::empty(),
    }
}

/// The text that frontmatter gives a key.
pub fn frontmatter_str(fm: &Mapping, key: &str) -> (r: Option<String>)
    ensures
        r is Some == text_at(pairs(*fm), key@) is Some,
        r matches Some(s) ==> text_at(pairs(*fm), key@) == Some(s@),
{
    match get_text(fm, key) {
        Some(v) => match as_text(v) {
            Some(s) => Some(s.to_owned()),
            None => None,
        },
        None => None,
    }
}

/// The tags of frontmatter: the texts of a list, or a single one.
pub fn frontmatter_tags(fm: &Mapping) -> (r: Vec<String>)
    ensures
        texts(r@) == tags_of(pairs(*fm)),
{
    let mut out: Vec<String> = Vec::new();
    assert(texts(out@) =~= Seq::empty());
    let v = match get_text(fm, "tags") {
        Some(v) => v,
        None => {
            return out;
        },
    };
    match items_of(v) {
        Some(items) => {
            let ghost f = |i: Value| yaml(i);
            let ghost all = items@.map_values(f);
            let mut i: usize = 0;
            assert(all.take(0) =~= Seq::empty());
            while i < items.len()
                invariant
                    i <= items@.len(),
                    f == (|i: Value| yaml(i)),
                    all == items@.map_values(f),
                    texts(out@) == texts_among(all.take(i as int)),
                decreases items.len() - i,
            {
                let ghost before = out@;
                proof {
                    assert(all.take(i + 1).drop_last() =~= all.take(i as int));
                    assert(all.take(i + 1).last() == yaml(items@[i as int]));
                }
                match as_text(&items[i]) {
                    Some(s) => {
                        out.push(s.to_owned());
                        assert(texts(out@) =~= texts(before).push(s@));
                    },
                    None => {},
                }
                i = i + 1;
            }
            assert(all.take(all.len() as int) =~= all);
            out
        },
        None => {
            match text_of(v) {
                Some(s) => {
                    out.push(s);
                    assert(texts(out@) =~= seq![s@]);
                },
                None => {},
            }
            out
        },
    }
}

/// Frontmatter with a key given a text, where it has no value.
pub open spec fn with_default(fm: Pairs, key: Seq<char>, value: Seq<char>) -> Pairs {
    if value_of(fm, Yaml::Text(key)) is None {
        with_value(fm, Yaml::Text(key), Yaml::Text(value))
    } else {
        fm
    }
}

/// Frontmatter with a key given a text.
pub open spec fn with_text(fm: Pairs, key: Seq<char>, value: Seq<char>) -> Pairs {
    with_value(fm, Yaml::Text(key), Yaml::Text(value))
}

/// What the producer knows of a document.
pub struct Facts {
    pub okf_id: Seq<char>,
    pub concept_id: Seq<char>,
    pub source_path: Seq<char>,
    pub revision: nat,
    pub updated_at: Seq<char>,
}

/// The frontmatter of a bundle document: the source's, with a type and a title where it
/// has none, and the producer's keys.
pub open spec fn ensured(fm: Pairs, body: Seq<char>, facts: Facts) -> Pairs {
    let typed = with_default(fm, "type"@, "Document"@);
    let titled = with_default(typed, "title"@, title_of(body, facts.concept_id));
    let named = with_text(titled, "okf_id"@, facts.okf_id);
    let placed = with_text(named, "okf_concept_id"@, facts.concept_id);
    let sourced = with_text(placed, "source_path"@, facts.source_path);
    let revised = with_value(
        sourced,
        Yaml::Text("okf_revision"@),
        Yaml::Number(decimal(facts.revision)),
    );
    with_text(revised, "okf_updated_at"@, facts.updated_at)
}

/// Gives frontmatter what every bundle document has.
pub fn ensure_okf_frontmatter(
    fm: &mut Mapping,
    okf_id: &str,
    concept_id: &str,
    source_path: &str,
    body: &str,
    revision: u64,
    updated_at: &str,
)
    ensures
        pairs(*final(fm)) == ensured(
            pairs(*old(fm)),
            body@,
            (Facts {
                okf_id: okf_id@,
                concept_id: concept_id@,
                source_path: source_path@,
                revision: revision as nat,
                updated_at: updated_at@,
            }),
        ),
{
    if get_text(fm, "type").is_none() {
        insert(fm, text_value("type"), text_value("Document"));
    }
    if get_text(fm, "title").is_none() {
        let title = derive_title(body, concept_id);
        insert(fm, text_value("title"), text_value(title.as_str()));
    }
    insert(fm, text_value("okf_id"), text_value(okf_id));
    insert(fm, text_value("okf_concept_id"), text_value(concept_id));
    insert(fm, text_value("source_path"), text_value(source_path));
    insert(fm, text_value("okf_revision"), number_value(revision));
    insert(fm, text_value("okf_updated_at"), text_value(updated_at));
}

// -------------------------------------------------------------------- carry-over

/// A body with regions appended, a blank line before each.
pub open spec fn with_regions(body: Seq<char>, regions: Seq<Seq<char>>) -> Seq<char>
    decreases regions.len(),
{
    if regions.len() == 0 {
        body
    } else {
        with_regions(body, regions.drop_last()) + "\n\n"@ + trim_end(regions.last(), CharSet::White)
    }
}

/// Frontmatter with the pairs of another whose keys it does not have.
pub open spec fn with_missing(fm: Pairs, other: Pairs) -> Pairs
    decreases other.len(),
{
    if other.len() == 0 {
        fm
    } else {
        let before = with_missing(fm, other.drop_last());
        if has_key(before, other.last().0) {
            before
        } else {
            with_value(before, other.last().0, other.last().1)
        }
    }
}

/// A regenerated document with what the bundle before it has of producers: its regions
/// at the end of the body, and the frontmatter keys that the document lacks. Where the
/// bundle before has no region, or the document has one of its own, it stays as it is.
pub open spec fn carried(doc: DocumentView, previous: Option<Seq<char>>) -> DocumentView {
    match previous {
        Some(text) => {
            let prev = document(text);
            if !any_preserved(prev.body) || any_preserved(doc.body) {
                doc
            } else {
                DocumentView {
                    frontmatter: with_missing(doc.frontmatter, prev.frontmatter),
                    body: with_regions(
                        trim_end(doc.body, CharSet::White),
                        region_texts(prev.body),
                    ).push('\n'),
                }
            }
        },
        None => doc,
    }
}

fn trimmed_end_text(s: &str) -> (r: String)
    ensures
        r@ == trim_end(s@, CharSet::White),
{
    string_of(trimmed_end(chars_of(s).as_slice(), CharSet::White))
}

/// Carries producer-owned content forward from the bundle before (`None` where there was
/// none) into a regenerated document.
pub fn carry_over_preserved(doc: &mut Document, previous: Option<&str>)
    ensures
        final(doc)@ == carried(
            old(doc)@,
            match previous {
                Some(p) => Some(p@),
                None => None,
            },
        ),
{
    let prev = match previous {
        Some(p) => Document::parse(p),
        None => {
            return ;
        },
    };
    let regions = preserved_texts(prev.body.as_str());
    proof {
        assert(texts(regions@).len() == regions@.len());
    }
    if regions.len() == 0 || has_preserved(doc.body.as_str()) {
        return ;
    }
    let ghost all = texts(regions@);
    let ghost base = trim_end(doc.body@, CharSet::White);
    let ghost start = doc@;
    let mut body = trimmed_end_text(doc.body.as_str());
    let mut i: usize = 0;
    assert(all.take(0) =~= Seq::empty());
    while i < regions.len()
        invariant
            i <= regions@.len(),
            all == texts(regions@),
            body@ == with_regions(base, all.take(i as int)),
        decreases regions.len() - i,
    {
        proof {
            assert(all.take(i + 1).drop_last() =~= all.take(i as int));
            assert(all.take(i + 1).last() == regions@[i as int]@);
        }
        body.append("\n\n");
        body.append(trimmed_end_text(regions[i].as_str()).as_str());
        i = i + 1;
    }
    assert(all.take(all.len() as int) =~= all);
    body.push('\n');
    doc.body = body;
    let ghost other = pairs(prev.frontmatter);
    let mut k: usize = 0;
    let n: usize = mapping_len(&prev.frontmatter);
    assert(other.take(0) =~= Seq::empty());
    while k < n
        invariant
            k <= n,
            n == other.len(),
            other == pairs(prev.frontmatter),
            doc.body@ == body@,
            pairs(doc.frontmatter) == with_missing(start.frontmatter, other.take(k as int)),
        decreases n - k,
    {
        let (key, value) = pair_at(&prev.frontmatter, k);
        proof {
            assert(other.take(k + 1).drop_last() =~= other.take(k as int));
            assert(other.take(k + 1).last() == (yaml(key), yaml(value)));
        }
        if !contains_key(&doc.frontmatter, &key) {
            insert(&mut doc.frontmatter, key, value);
        }
        k = k + 1;
    }
    assert(other.take(other.len() as int) =~= other);
}

// ------------------------------------------------------------------------ search

/// What is searched of a document, and shown of a hit.
pub struct SearchEntry {
    pub title: String,
    pub body: String,
    pub haystack: String,
    pub source_path: String,
    pub labels: Vec<String>,
}

/// What a [`SearchEntry`] holds.
pub struct SearchView {
    pub title: Seq<char>,
    pub body: Seq<char>,
    pub haystack: Seq<char>,
    pub source_path: Seq<char>,
    pub labels: Seq<Seq<char>>,
}

impl View for SearchEntry {
    type V = SearchView;

    open spec fn view(&self) -> SearchView {
        SearchView {
            title: self.title@,
            body: self.body@,
            haystack: self.haystack@,
            source_path: self.source_path@,
            labels: texts(self.labels@),
        }
    }
}

/// The title of a bundle document: its frontmatter's, else the derived one.
pub open spec fn shown_title(concept_id: Seq<char>, doc: DocumentView) -> Seq<char> {
    match text_at(doc.frontmatter, "title"@) {
        Some(t) => t,
        None => title_of(doc.body, concept_id),
    }
}

/// What is searched of a bundle document: its title, id, tags and body, in small
/// letters.
pub open spec fn searchable(concept_id: Seq<char>, doc: DocumentView) -> SearchView {
    let title = shown_title(concept_id, doc);
    let labels = tags_of(doc.frontmatter);
    SearchView {
        title,
        body: doc.body,
        haystack: lowercase(
            title + " "@ + concept_id + " "@ + join(labels, " "@) + " "@ + doc.body,
        ),
        source_path: match text_at(doc.frontmatter, "source_path"@) {
            Some(p) => p,
            None => Seq::empty(),
        },
        labels,
    }
}

/// The title of a bundle document.
pub fn document_title(concept_id: &str, doc: &Document) -> (r: String)
    ensures
        r@ == shown_title(concept_id@, doc@),
{
    match frontmatter_str(&doc.frontmatter, "title") {
        Some(t) => t,
        None => derive_title(doc.body.as_str(), concept_id),
    }
}

/// Builds a concept's searchable entry from its bundle document.
pub fn search_entry(concept_id: &str, doc: &Document) -> (r: SearchEntry)
    ensures
        r@ == searchable(concept_id@, doc@),
{
    let title = document_title(concept_id, doc);
    let labels = frontmatter_tags(&doc.frontmatter);
    let mut all = title.clone();
    all.append(" ");
    all.append(concept_id);
    all.append(" ");
    all.append(joined(labels.as_slice(), " ").as_str());
    all.append(" ");
    all.append(doc.body.as_str());
    let source_path = match frontmatter_str(&doc.frontmatter, "source_path") {
        Some(p) => p,
        None => String::new(),
    };
    SearchEntry {
        title,
        body: doc.body.clone(),
        haystack: lowercase_of(all.as_str()),
        source_path,
        labels,
    }
}

// -------------------------------------------------------------------------- laws

/// Every bundle document says what it is: it has a type and a title, those of its source or the
/// producer's, and its identity, concept id, source, revision and time of change are the
/// producer's.
pub proof fn bundle_frontmatter_is_complete(fm: Pairs, body: Seq<char>, facts: Facts)
    ensures
        ({
            let out = ensured(fm, body, facts);
            &&& value_of(out, Yaml::Text("type"@)) is Some
            &&& value_of(out, Yaml::Text("title"@)) is Some
            &&& value_of(fm, Yaml::Text("type"@)) is None ==> text_at(out, "type"@) == Some(
                "Document"@,
            )
            &&& value_of(fm, Yaml::Text("title"@)) is None ==> text_at(out, "title"@) == Some(
                title_of(body, facts.concept_id),
            )
            &&& text_at(out, "okf_id"@) == Some(facts.okf_id)
            &&& text_at(out, "okf_concept_id"@) == Some(facts.concept_id)
            &&& text_at(out, "source_path"@) == Some(facts.source_path)
            &&& value_of(out, Yaml::Text("okf_revision"@)) == Some(
                Yaml::Number(decimal(facts.revision)),
            )
            &&& text_at(out, "okf_updated_at"@) == Some(facts.updated_at)
        }),
{
    lemma_ensured(fm, body, facts, "type"@);
    lemma_ensured(fm, body, facts, "title"@);
    lemma_ensured(fm, body, facts, "okf_id"@);
    lemma_ensured(fm, body, facts, "okf_concept_id"@);
    lemma_ensured(fm, body, facts, "source_path"@);
    lemma_ensured(fm, body, facts, "okf_revision"@);
    lemma_ensured(fm, body, facts, "okf_updated_at"@);
    lemma_producer_keys_differ();
}

/// The key is none of those that the producer writes.
pub open spec fn is_foreign(key: Seq<char>) -> bool {
    key != "okf_id"@ && key != "okf_concept_id"@ && key != "source_path"@ && key
        != "okf_revision"@ && key != "okf_updated_at"@
}

/// What the source's frontmatter says stays as it is, but for the keys that the producer
/// writes; and the producer adds no others.
pub proof fn source_frontmatter_is_kept(
    fm: Pairs,
    body: Seq<char>,
    facts: Facts,
    key: Seq<char>,
)
    requires
        is_foreign(key),
        value_of(fm, Yaml::Text(key)) is Some || (key != "type"@ && key != "title"@),
    ensures
        value_of(ensured(fm, body, facts), Yaml::Text(key)) == value_of(fm, Yaml::Text(key)),
{
    lemma_ensured(fm, body, facts, key);
}

proof fn lemma_producer_keys_differ()
    ensures
        "okf_id"@ != "okf_concept_id"@,
        "okf_id"@ != "source_path"@,
        "okf_id"@ != "okf_revision"@,
        "okf_id"@ != "okf_updated_at"@,
        "okf_concept_id"@ != "source_path"@,
        "okf_concept_id"@ != "okf_revision"@,
        "okf_concept_id"@ != "okf_updated_at"@,
        "source_path"@ != "okf_revision"@,
        "source_path"@ != "okf_updated_at"@,
        "okf_revision"@ != "okf_updated_at"@,
        is_foreign("type"@),
        is_foreign("title"@),
        "type"@ != "title"@,
{
    reveal_strlit("okf_id");
    reveal_strlit("okf_concept_id");
    reveal_strlit("source_path");
    reveal_strlit("okf_revision");
    reveal_strlit("okf_updated_at");
    reveal_strlit("type");
    reveal_strlit("title");
    assert("okf_id"@.len() == 6);
    assert("okf_concept_id"@.len() == 14);
    assert("source_path"@.len() == 11);
    assert("okf_revision"@.len() == 12);
    assert("okf_updated_at"@.len() == 14);
    assert("type"@.len() == 4);
    assert("title"@.len() == 5);
    assert("okf_concept_id"@[4] == 'c');
    assert("okf_updated_at"@[4] == 'u');
}

proof fn lemma_ensured(fm: Pairs, body: Seq<char>, facts: Facts, key: Seq<char>)
    ensures
        ({
            let v = value_of(ensured(fm, body, facts), Yaml::Text(key));
            if key == "okf_updated_at"@ {
                v == Some(Yaml::Text(facts.updated_at))
            } else if key == "okf_revision"@ {
                v == Some(Yaml::Number(decimal(facts.revision)))
            } else if key == "source_path"@ {
                v == Some(Yaml::Text(facts.source_path))
            } else if key == "okf_concept_id"@ {
                v == Some(Yaml::Text(facts.concept_id))
            } else if key == "okf_id"@ {
                v == Some(Yaml::Text(facts.okf_id))
            } else if value_of(fm, Yaml::Text(key)) is Some {
                v == value_of(fm, Yaml::Text(key))
            } else if key == "title"@ {
                v == Some(Yaml::Text(title_of(body, facts.concept_id)))
            } else if key == "type"@ {
                v == Some(Yaml::Text("Document"@))
            } else {
                v is None
            }
        }),
{
    lemma_producer_keys_differ();
    let typed = with_default(fm, "type"@, "Document"@);
    let title = title_of(body, facts.concept_id);
    let titled = with_default(typed, "title"@, title);
    let named = with_text(titled, "okf_id"@, facts.okf_id);
    let placed = with_text(named, "okf_concept_id"@, facts.concept_id);
    let sourced = with_text(placed, "source_path"@, facts.source_path);
    let number = Yaml::Number(decimal(facts.revision));
    let revised = with_value(sourced, Yaml::Text("okf_revision"@), number);
    lemma_with_value(fm, "type"@, Yaml::Text("Document"@), key);
    lemma_with_value(typed, "title"@, Yaml::Text(title), key);
    lemma_with_value(titled, "okf_id"@, Yaml::Text(facts.okf_id), key);
    lemma_with_value(named, "okf_concept_id"@, Yaml::Text(facts.concept_id), key);
    lemma_with_value(placed, "source_path"@, Yaml::Text(facts.source_path), key);
    lemma_with_value(sourced, "okf_revision"@, number, key);
    lemma_with_value(revised, "okf_updated_at"@, Yaml::Text(facts.updated_at), key);
}

proof fn lemma_with_foreign_value(m: Pairs, key: Yaml, value: Yaml, other: Seq<char>)
    requires
        !(key is Text) || key != Yaml::Text(other),
    ensures
        value_of(with_value(m, key, value), Yaml::Text(other)) == value_of(m, Yaml::Text(other)),
    decreases m.len(),
{
    let o = Yaml::Text(other);
    let r = with_value(m, key, value);
    if m.len() == 0 {
        assert(r[0] == (key, value));
        assert(r.drop_first() =~= m);
    } else if crate::yaml::same_key(m[0].0, key) {
        assert(r[0] == (m[0].0, value));
        assert(r.drop_first() =~= m.drop_first());
    } else {
        lemma_with_foreign_value(m.drop_first(), key, value, other);
        assert(r[0] == m[0]);
        assert(r.drop_first() =~= with_value(m.drop_first(), key, value));
    }
}

proof fn lemma_with_missing(fm: Pairs, other: Pairs, key: Seq<char>)
    ensures
        value_of(fm, Yaml::Text(key)) is Some ==> value_of(with_missing(fm, other), Yaml::Text(key))
            == value_of(fm, Yaml::Text(key)),
        value_of(fm, Yaml::Text(key)) is None ==> value_of(with_missing(fm, other), Yaml::Text(key))
            == value_of(other, Yaml::Text(key)),
    decreases other.len(),
{
    let k = Yaml::Text(key);
    if other.len() > 0 {
        let rest = other.drop_last();
        let last = other.last();
        let before = with_missing(fm, rest);
        lemma_with_missing(fm, rest, key);
        lemma_has_key(before, last.0);
        lemma_value_of_push(rest, last, key);
        assert(other =~= rest.push(last));
        if last.0 == k {
            lemma_with_value(before, key, last.1, key);
        } else {
            lemma_with_foreign_value(before, last.0, last.1, key);
        }
    }
}

proof fn lemma_value_of_push(m: Pairs, p: (Yaml, Yaml), key: Seq<char>)
    ensures
        value_of(m.push(p), Yaml::Text(key)) == if value_of(m, Yaml::Text(key)) is Some {
            value_of(m, Yaml::Text(key))
        } else if p.0 == Yaml::Text(key) {
            Some(p.1)
        } else {
            None
        },
    decreases m.len(),
{
    let r = m.push(p);
    if m.len() == 0 {
        assert(r[0] == p);
        assert(r.drop_first() =~= m);
    } else {
        lemma_value_of_push(m.drop_first(), p, key);
        assert(r[0] == m[0]);
        assert(r.drop_first() =~= m.drop_first().push(p));
    }
}

/// Where a regenerated document has a producer-owned region of its own, the source is
/// authoritative: nothing is carried over.
pub proof fn source_regions_win(doc: DocumentView, previous: Option<Seq<char>>)
    requires
        any_preserved(doc.body),
    ensures
        carried(doc, previous) == doc,
{
}

/// A document that was never enriched is regenerated from its source alone.
pub proof fn unenriched_documents_are_regenerated(doc: DocumentView, previous: Seq<char>)
    requires
        !any_preserved(document(previous).body),
    ensures
        carried(doc, Some(previous)) == doc,
{
}

/// Carrying over changes no key of the regenerated document, and adds those that only
/// the bundle before has.
pub proof fn carry_over_restores_missing_keys(
    doc: DocumentView,
    previous: Seq<char>,
    key: Seq<char>,
)
    ensures
        ({
            let prev = document(previous);
            let out = value_of(carried(doc, Some(previous)).frontmatter, Yaml::Text(key));
            let own = value_of(doc.frontmatter, Yaml::Text(key));
            &&& own is Some ==> out == own
            &&& own is None && any_preserved(prev.body) && !any_preserved(doc.body) ==> out
                == value_of(prev.frontmatter, Yaml::Text(key))
        }),
{
    lemma_with_missing(doc.frontmatter, document(previous).frontmatter, key);
}

/// Every producer-owned region of the bundle before stands, trimmed at its end, in the
/// regenerated document, where that has none of its own.
pub proof fn regions_survive_regeneration(doc: DocumentView, previous: Seq<char>, k: int)
    requires
        !any_preserved(doc.body),
        0 <= k < region_texts(document(previous).body).len(),
    ensures
        ({
            let region = trim_end(region_texts(document(previous).body)[k], CharSet::White);
            let body = carried(doc, Some(previous)).body;
            exists|at: int| crate::text::occurs_at(body, region, at)
        }),
{
    let prev = document(previous).body;
    let regions = region_texts(prev);
    let base = trim_end(doc.body, CharSet::White);
    let region = trim_end(regions[k], CharSet::White);
    lemma_with_regions(base, regions, regions.len() as int, k);
    let all = with_regions(base, regions);
    assert(regions.take(regions.len() as int) =~= regions);
    let at = choose|at: int| crate::text::occurs_at(all, region, at);
    let body = carried(doc, Some(previous)).body;
    assert(body =~= all.push('\n'));
    assert(body.subrange(at, at + region.len()) =~= all.subrange(at, at + region.len()));
    assert(crate::text::occurs_at(body, region, at));
}

proof fn lemma_with_regions(base: Seq<char>, regions: Seq<Seq<char>>, n: int, k: int)
    requires
        0 <= k < n <= regions.len(),
    ensures
        exists|at: int|
            crate::text::occurs_at(
                with_regions(base, regions.take(n)),
                trim_end(regions[k], CharSet::White),
                at,
            ),
    decreases n,
{
    let t = regions.take(n);
    let all = with_regions(base, t);
    let before = with_regions(base, t.drop_last());
    let region = trim_end(regions[k], CharSet::White);
    let last = trim_end(t.last(), CharSet::White);
    assert(t.drop_last() =~= regions.take(n - 1));
    assert(all == before + "\n\n"@ + last);
    if k == n - 1 {
        let at = all.len() - last.len();
        assert(all.subrange(at, at + last.len()) =~= last);
        assert(crate::text::occurs_at(all, region, at));
    } else {
        lemma_with_regions(base, regions, n - 1, k);
        let at = choose|at: int| crate::text::occurs_at(before, region, at);
        assert(all.subrange(at, at + region.len()) =~= before.subrange(at, at + region.len()));
        assert(crate::text::occurs_at(all, region, at));
    }
}

} // verus!
