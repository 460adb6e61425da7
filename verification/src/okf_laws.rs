//! What the knowledge base is for: what is indexed is kept, listed and found again.

use crate::bundle::{
    bundle_frontmatter_is_complete, carry_over_restores_missing_keys, ensured, searchable,
    shown_title, tags_of, text_at, SearchEntry, SearchView,
};
use crate::frontmatter::{document, DocumentView};
use crate::kb::{folded, match_from, matches_at, snippet_around, window_start, SummaryView};
use crate::okf::{
    comes_first, hash_of, migrated_entry, migrated_id, refreshed, revision_for, search_among,
    taken_in, updated_for, worked_out, EntryView, IndexEntry, OkfKb, PendingIndex,
};
use crate::path::{components, extension_of, joined_path};
use crate::text::{ends, starts, text_lt};
use vstd::prelude::*;

verus! {

/// A migrated concept id begins with the one it had, and ends with the extension of its source;
/// it is longer only where it did not.
pub proof fn migrated_ids_end_with_the_extension(source: Seq<char>, id: Seq<char>)
    ensures
        starts(migrated_id(source, id), id),
        extension_of(source) is None ==> migrated_id(source, id) == id,
        extension_of(source) matches Some(ext) ==> {
            &&& ends(migrated_id(source, id), "."@ + ext)
            &&& ends(id, "."@ + ext) ==> migrated_id(source, id) == id
            &&& !ends(id, "."@ + ext) ==> migrated_id(source, id).len() == id.len() + 1 + ext.len()
        },
{
    reveal_strlit(".");
    assert(id.subrange(0, id.len() as int) =~= id);
    if let Some(ext) = extension_of(source) {
        let suffix = "."@ + ext;
        let out = id + suffix;
        assert(out.subrange(0, id.len() as int) =~= id);
        assert(out.subrange(out.len() - suffix.len(), out.len() as int) =~= suffix);
    }
}

/// A source that was not indexed, or not counted yet, is at its first revision, of now.
pub proof fn counting_begins_at_one(e: Option<EntryView>, hash: Seq<char>, now: Seq<char>)
    requires
        e matches Some(x) ==> x.revision == 0,
    ensures
        revision_for(e, hash) == 1,
        updated_for(e, hash, now) == now,
{
}

/// What was worked out and taken in is what the knowledge base has of the source: it is indexed
/// under its concept, with the hash of its content, shown and searched as its document says, and
/// led back to by its document; and the document goes to the place of the concept.
pub proof fn what_is_indexed_is_kept(
    begun: OkfKb,
    before: OkfKb,
    after: OkfKb,
    source: Seq<char>,
    concept_id: Seq<char>,
    content: Seq<char>,
    previous: Option<Seq<char>>,
    now: Seq<char>,
    p: PendingIndex,
)
    requires
        worked_out(begun, source, concept_id, content, previous, now, p),
        taken_in(before, after, p),
    ensures
        p.path@ == joined_path(begun.bundle_dir@, concept_id),
        after.index.entry_of(source) matches Some(e) && {
            &&& e.concept_id == concept_id
            &&& e.content_hash == hash_of(content)
            &&& e.okf_id == begun.identity_for(source, content)
            &&& e.title matches Some(t) && (text_at(p.document@.frontmatter, "title"@) matches Some(
                given,
            ) ==> t == given)
            &&& e.labels == tags_of(p.document@.frontmatter)
            &&& e.updated_at is Some
        },
        after.searched(concept_id) matches Some(s) && {
            &&& s.body == p.document@.body
            &&& s.title == shown_title(concept_id, p.document@)
            &&& s.labels == tags_of(p.document@.frontmatter)
            &&& s.source_path == source
        },
        forall|other: Seq<char>|
            components(other) != components(source) ==> #[trigger] after.index.entry_of(other)
                == before.index.entry_of(other),
        forall|other: Seq<char>|
            other != concept_id ==> #[trigger] after.searched(other) == before.searched(other),
{
    let doc = document(content);
    let facts = begun.facts_for(source, concept_id, content, now);
    bundle_frontmatter_is_complete(doc.frontmatter, doc.body, facts);
    let plain = DocumentView {
        frontmatter: ensured(doc.frontmatter, doc.body, facts),
        body: doc.body,
    };
    if let Some(text) = previous {
        carry_over_restores_missing_keys(plain, text, "source_path"@);
    }
    assert(after.index.entry_of(source) is Some);
    assert(after.searched(concept_id) is Some);
}

/// The catalog says of a source what the index says of it, and where its document is.
pub proof fn the_catalog_says_what_is_indexed(kb: OkfKb, source: Seq<char>, e: EntryView)
    ensures
        kb.summary_of(source, e) == (SummaryView {
            path: source,
            kb_path: joined_path(kb.bundle_dir@, e.concept_id),
            title: e.title,
            labels: e.labels,
        }),
{
}

/// A hit says which document it is of, as it is searched.
pub proof fn hits_say_what_was_found(id: Seq<char>, e: SearchView, needle: Seq<char>)
    ensures
        ({
            let hit = OkfKb::hit_of(id, e, needle);
            &&& hit.concept_id == id
            &&& hit.title == e.title
            &&& hit.path == e.source_path
            &&& hit.labels == e.labels
            &&& hit.snippet.len() <= 80
        }),
{
}

/// A snippet is a stretch of the text, of eighty characters as far as there are so many. It is
/// the start of the text, unless the needle first stands behind that.
pub proof fn snippets_are_stretches_of_the_text(s: Seq<char>, needle: Seq<char>)
    ensures
        exists|begin: int, stop: int|
            {
                &&& 0 <= begin <= stop <= s.len()
                &&& stop == begin + 80 || (stop == s.len() && stop < begin + 80)
                &&& snippet_around(s, needle) == #[trigger] s.subrange(begin, stop)
                &&& begin > 0 ==> exists|i: int|
                    {
                        &&& #[trigger] matches_at(s, needle, i)
                        &&& begin <= i
                        &&& i + needle.len() > 80
                        &&& forall|j: int| 0 <= j < i ==> !matches_at(s, needle, j)
                    }
            },
{
    lemma_first_match(s, needle, 0);
    let begin = match match_from(s, needle, 0) {
        Some(i) => window_start(i, needle.len() as int),
        None => 0,
    };
    let stop = if begin + 80 <= s.len() {
        begin + 80
    } else {
        s.len() as int
    };
    assert(s.skip(0) =~= s);
    assert(snippet_around(s, needle) =~= s.subrange(begin, stop));
    if begin > 0 {
        let i = match_from(s, needle, 0)->0;
        assert(matches_at(s, needle, i));
    }
}

proof fn lemma_first_match(s: Seq<char>, needle: Seq<char>, i: int)
    requires
        0 <= i <= s.len() + 1,
    ensures
        match_from(s, needle, i) matches Some(k) ==> i <= k <= s.len() && matches_at(s, needle, k)
            && forall|j: int| i <= j < k ==> !matches_at(s, needle, j),
    decreases s.len() + 1 - i,
{
    if i <= s.len() && !matches_at(s, needle, i) {
        lemma_first_match(s, needle, i + 1);
    }
}

/// A text in small letters is that of its parts, one behind the other.
pub proof fn texts_fold_in_parts(a: Seq<char>, b: Seq<char>)
    ensures
        folded(a + b) == folded(a) + folded(b),
    decreases b.len(),
{
    if b.len() == 0 {
        assert(a + b =~= a);
        assert(folded(a) + folded(b) =~= folded(a));
    } else {
        texts_fold_in_parts(a, b.drop_last());
        assert((a + b).drop_last() =~= a + b.drop_last());
        assert((a + b).last() == b.last());
        assert(folded(a + b) =~= folded(a) + folded(b));
    }
}

/// A bundle file that was read is what is searched of its concept, where none behind it is of
/// the same; and an entry then has the title and the labels of its document, and keeps the rest.
pub proof fn bundles_that_were_read_are_searched(
    entries: Seq<(String, IndexEntry)>,
    bundles: Seq<Option<String>>,
    n: int,
    k: int,
)
    requires
        0 <= k < n,
        bundles[k] is Some,
        forall|j: int|
            k < j < n && (#[trigger] bundles[j]) is Some ==> entries[j].1.concept_id@
                != entries[k].1.concept_id@,
    ensures
        ({
            let id = entries[k].1.concept_id@;
            let doc = document(bundles[k]->0@);
            let e = entries[k].1@;
            &&& search_among(entries, bundles, n, id) matches Some(s) && s == searchable(id, doc)
                && s.body == doc.body && s.labels == tags_of(doc.frontmatter) && s.title
                == shown_title(id, doc) && refreshed(e, Some(s)) == (EntryView {
                title: Some(s.title),
                labels: s.labels,
                ..e
            })
        }),
    decreases n,
{
    if k < n - 1 {
        assert(bundles[n - 1] is Some ==> entries[n - 1].1.concept_id@ != entries[k].1.concept_id@);
        bundles_that_were_read_are_searched(entries, bundles, n - 1, k);
    }
}

/// What was not read is not searched, and its entry stays as it is.
pub proof fn bundles_that_were_not_read_are_not_searched(
    entries: Seq<(String, IndexEntry)>,
    bundles: Seq<Option<String>>,
    n: int,
    id: Seq<char>,
    e: EntryView,
)
    requires
        forall|j: int|
            0 <= j < n && (#[trigger] bundles[j]) is Some ==> entries[j].1.concept_id@ != id,
    ensures
        search_among(entries, bundles, n, id) is None,
        refreshed(e, None) == e,
    decreases n,
{
    if n > 0 {
        bundles_that_were_not_read_are_not_searched(entries, bundles, n - 1, id, e);
    }
}

/// Every tag is counted, with how many sources carry it.
pub proof fn every_tag_is_counted(kb: OkfKb, i: int)
    requires
        0 <= i < kb.tags.entries@.len(),
    ensures
        kb.counts().len() == kb.tags.entries@.len(),
        kb.counts()[i].0 == kb.tags.entries@[i].0@,
        kb.counts()[i].1 == kb.tags.entries@[i].1.entries@.len() as u32,
{
}

/// Of two tags the one that is used more comes first, and of two that are used as much the one
/// whose name does.
pub proof fn more_used_tags_come_first(a: (Seq<char>, u32), b: (Seq<char>, u32))
    ensures
        a.1 > b.1 ==> comes_first(a, b) && !comes_first(b, a),
        a.1 == b.1 ==> comes_first(a, b) == text_lt(a.0, b.0),
{
}

/// Hits come in the order of the search entries: those among the first of them come first.
pub proof fn hits_come_in_order(
    a: Seq<(String, SearchEntry)>,
    b: Seq<(String, SearchEntry)>,
    needle: Seq<char>,
    limit: nat,
)
    ensures
        OkfKb::hits_among(a, needle, limit).is_prefix_of(OkfKb::hits_among(a + b, needle, limit)),
    decreases b.len(),
{
    let first = OkfKb::hits_among(a, needle, limit);
    if b.len() == 0 {
        assert(a + b =~= a);
        assert(first.is_prefix_of(first)) by {
            assert(first =~= first.subrange(0, first.len() as int));
        }
    } else {
        hits_come_in_order(a, b.drop_last(), needle, limit);
        assert((a + b).drop_last() =~= a + b.drop_last());
        let before = OkfKb::hits_among(a + b.drop_last(), needle, limit);
        let all = OkfKb::hits_among(a + b, needle, limit);
        assert(first =~= before.subrange(0, first.len() as int));
        assert(all.subrange(0, first.len() as int) =~= before.subrange(0, first.len() as int));
    }
}

/// A migrated entry keeps its source, and has the migrated id where it has one.
pub proof fn entries_keep_their_source(source: Seq<char>, id: Seq<char>)
    ensures
        migrated_entry((source, Some(id))) == (source, Some(migrated_id(source, id))),
        migrated_entry((source, None)) == (source, None::<Seq<char>>),
{
}

} // verus!
