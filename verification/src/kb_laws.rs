//! What indexing and searching are for: the title that a document gets, the body that it keeps,
//! and the documents that a search finds.

use crate::bundle::{
    bundle_frontmatter_is_complete, carried, carry_over_restores_missing_keys, ensured, is_foreign,
    searchable, shown_title, source_frontmatter_is_kept, tags_of, text_at, texts_among,
    with_regions, SearchEntry, SearchView,
};
use crate::fence::{any_preserved, region_texts};
use crate::frontmatter::{document, DocumentView};
use crate::frontmatter_laws::{lemma_found_behind, lemma_opened};
use crate::kb::{
    first_heading, first_title_line, frontmatter_title_of, heading, is_doc_extension, minted,
    mock_hit, mock_hits, mock_title, title_line, title_of, HitView, MockEntry,
};
use crate::okf::OkfKb;
use crate::path::same_ignoring_case;
use crate::text::{
    contains, decimal, find, is_white, join, lemma_decimal_injective, lemma_lines_concat, lines,
    lowercase, starts, trim_end, trim_start, trim_white, without_return, CharSet,
};
use crate::text_laws::{
    bare, blank, lemma_contains_joined, lemma_contains_part, lemma_contains_through,
    lemma_last_index_before, lemma_no_last_index, lines_begin_with_the_first, made_of,
    trimming_keeps_the_middle, trimming_takes_off, trimming_the_start_takes_off,
};
use crate::yaml::{value_of, Pairs, Yaml};
use vstd::prelude::*;

verus! {

// ------------------------------------------------------------------------------ titles

/// A heading gives all of its text, whatever stands in it, without the white space around it.
pub proof fn headings_give_their_text(
    indent: Seq<char>,
    gap: Seq<char>,
    t: Seq<char>,
    tail: Seq<char>,
)
    requires
        blank(indent),
        blank(gap),
        bare(t),
        blank(tail),
    ensures
        heading(indent + "# "@ + gap + t + tail) == Some(t),
        heading("# "@ + t) == Some(t),
{
    reveal_strlit("# ");
    let mark = "# "@;
    lemma_heading(indent, gap + t + tail);
    assert(indent + mark + gap + t + tail =~= indent + mark + (gap + t + tail));
    trimming_takes_off(gap, t, tail, CharSet::White);
    let e = Seq::<char>::empty();
    lemma_heading(e, t);
    assert(e + mark + t =~= mark + t);
    assert(e + t + e =~= t);
    trimming_takes_off(e, t, e, CharSet::White);
}

proof fn lemma_heading(indent: Seq<char>, rest: Seq<char>)
    requires
        blank(indent),
    ensures
        heading(indent + "# "@ + rest) == if trim_white(rest).len() > 0 {
            Some(trim_white(rest))
        } else {
            None
        },
{
    reveal_strlit("# ");
    let mark = "# "@;
    let line = indent + mark + rest;
    let t = mark + rest;
    assert(line =~= indent + t);
    assert(t[0] == '#');
    trimming_the_start_takes_off(indent, t, CharSet::White);
    assert(t.subrange(0, 2) =~= mark);
    assert(t.skip(2) =~= rest);
}

/// A line gives a title only where it is a `# ` heading of that text.
pub proof fn titles_come_from_headings(line: Seq<char>)
    ensures
        heading(line) matches Some(t) ==> bare(t) && exists|indent: Seq<char>, rest: Seq<char>|
            blank(indent) && line == #[trigger] (indent + "# "@ + rest) && trim_white(rest) == t,
{
    reveal_strlit("# ");
    if let Some(t) = heading(line) {
        let s = trim_start(line, CharSet::White);
        let rest = s.skip(2);
        trimming_keeps_the_middle(rest, CharSet::White);
        let indent = lemma_cut(line);
        assert(s.subrange(0, 2) == "# "@);
        assert(s =~= "# "@ + rest);
        assert(line =~= indent + "# "@ + rest);
    }
}

proof fn lemma_cut(s: Seq<char>) -> (r: Seq<char>)
    ensures
        blank(r),
        s == r + trim_start(s, CharSet::White),
    decreases s.len(),
{
    if s.len() > 0 && is_white(s[0]) {
        let a = lemma_cut(s.drop_first());
        let r = seq![s[0]] + a;
        assert(s =~= seq![s[0]] + s.drop_first());
        assert(s =~= r + trim_start(s, CharSet::White));
        r
    } else {
        assert(s =~= Seq::empty() + s);
        Seq::empty()
    }
}

/// The first heading of a document is its title, wherever it stands.
pub proof fn the_first_heading_is_the_title(
    content: Seq<char>,
    concept_id: Seq<char>,
    k: int,
    t: Seq<char>,
)
    requires
        0 <= k < lines(content).len(),
        heading(lines(content)[k]) == Some(t),
        forall|j: int| 0 <= j < k ==> heading(#[trigger] lines(content)[j]) is None,
    ensures
        title_of(content, concept_id) == t,
{
    lemma_first_heading(lines(content), k);
}

proof fn lemma_first_heading(ls: Seq<Seq<char>>, k: int)
    requires
        0 <= k < ls.len(),
        heading(ls[k]) is Some,
        forall|j: int| 0 <= j < k ==> heading(#[trigger] ls[j]) is None,
    ensures
        first_heading(ls) == heading(ls[k]),
    decreases k,
{
    if k > 0 {
        assert(heading(ls[0]) is None);
        let rest = ls.drop_first();
        assert forall|j: int| 0 <= j < k - 1 implies heading(#[trigger] rest[j]) is None by {
            assert(rest[j] == ls[j + 1]);
        }
        lemma_first_heading(rest, k - 1);
    }
}

proof fn lemma_no_heading(ls: Seq<Seq<char>>)
    requires
        forall|j: int| 0 <= j < ls.len() ==> heading(#[trigger] ls[j]) is None,
    ensures
        first_heading(ls) is None,
    decreases ls.len(),
{
    if ls.len() > 0 {
        assert(heading(ls[0]) is None);
        let rest = ls.drop_first();
        assert forall|j: int| 0 <= j < rest.len() implies heading(#[trigger] rest[j]) is None by {
            assert(rest[j] == ls[j + 1]);
        }
        lemma_no_heading(rest);
    }
}

/// A document that begins with a heading has it for a title, all of it.
pub proof fn a_leading_heading_is_the_title(
    t: Seq<char>,
    rest: Seq<char>,
    concept_id: Seq<char>,
)
    requires
        bare(t),
        !t.contains('\n'),
    ensures
        title_of("# "@ + t + seq!['\n'] + rest, concept_id) == t,
        title_of("# "@ + t, concept_id) == t,
{
    reveal_strlit("# ");
    let e = Seq::<char>::empty();
    headings_give_their_text(e, e, t, e);
    let line = "# "@ + t;
    assert(!line.contains('\n')) by {
        if line.contains('\n') {
            let i = choose|i: int| 0 <= i < line.len() && line[i] == '\n';
            assert(t[i - 2] == '\n');
        }
    }
    lines_begin_with_the_first(line, rest);
    assert(line.last() == t.last());
    assert(without_return(line) == line);
    let content = line + seq!['\n'] + rest;
    assert(lines(content)[0] == line);
    the_first_heading_is_the_title(content, concept_id, 0, t);
    assert(lines(line)[0] == line);
    the_first_heading_is_the_title(line, concept_id, 0, t);
}

/// The extensions that documents have.
pub open spec fn doc_extensions() -> Seq<Seq<char>> {
    seq!["md"@, "markdown"@, "mdx"@, "adoc"@, "asciidoc"@]
}

/// Whether an extension is one of those that documents have, whatever the case of its letters.
pub open spec fn among_doc_extensions(e: Seq<char>) -> bool {
    exists|k: int|
        0 <= k < doc_extensions().len() && same_ignoring_case(e, #[trigger] doc_extensions()[k])
}

/// A document without a heading has its file name for a title: without the directories, and
/// without the extension where it is that of a document.
pub proof fn the_file_name_is_the_title(
    content: Seq<char>,
    dir: Seq<char>,
    stem: Seq<char>,
    ext: Seq<char>,
)
    requires
        forall|j: int| 0 <= j < lines(content).len() ==> heading(#[trigger] lines(content)[j]) is None,
        !stem.contains('/'),
        !ext.contains('/'),
        !ext.contains('.'),
    ensures
        ({
            let name = stem + seq!['.'] + ext;
            let title = if among_doc_extensions(ext) {
                stem
            } else {
                name
            };
            &&& title_of(content, name) == title
            &&& title_of(content, dir + seq!['/'] + name) == title
            &&& !stem.contains('.') ==> title_of(content, stem) == stem
        }),
{
    lemma_no_heading(lines(content));
    let name = stem + seq!['.'] + ext;
    assert(!name.contains('/')) by {
        if name.contains('/') {
            let i = choose|i: int| 0 <= i < name.len() && name[i] == '/';
            if i < stem.len() {
                assert(stem[i] == '/');
            } else {
                assert(ext[i - stem.len() - 1] == '/');
            }
        }
    }
    lemma_no_last_index(name, '/');
    assert(name.skip(0) =~= name);
    lemma_last_index_before(dir, '/', name);
    assert((dir + seq!['/'] + name).skip(dir.len() as int + 1) =~= name);
    lemma_last_index_before(stem, '.', ext);
    assert(name.skip(stem.len() as int + 1) =~= ext);
    assert(name.take(stem.len() as int) =~= stem);
    let known = doc_extensions();
    assert(is_doc_extension(ext) == among_doc_extensions(ext)) by {
        assert(known[0] == "md"@ && known[1] == "markdown"@ && known[2] == "mdx"@);
        assert(known[3] == "adoc"@ && known[4] == "asciidoc"@);
    }
    if !stem.contains('.') {
        lemma_no_last_index(stem, '.');
        lemma_no_last_index(stem, '/');
        assert(stem.skip(0) =~= stem);
    }
}

/// A line of frontmatter gives the title behind `title:`, with or without double quotes around
/// it, and all of it.
pub proof fn title_lines_give_their_text(gap: Seq<char>, t: Seq<char>, tail: Seq<char>)
    requires
        blank(gap),
        bare(t),
        t[0] != '"',
        t.last() != '"',
        blank(tail),
    ensures
        title_line("title:"@ + gap + t + tail) == Some(t),
        title_line("title:"@ + gap + (seq!['"'] + t + seq!['"']) + tail) == Some(t),
{
    let mark = "title:"@;
    let quote = seq!['"'];
    let quoted = quote + t + quote;
    let e = Seq::<char>::empty();
    let one = mark + gap + t + tail;
    let two = mark + gap + quoted + tail;
    assert(one.subrange(0, mark.len() as int) =~= mark);
    assert(two.subrange(0, mark.len() as int) =~= mark);
    assert(one.skip(mark.len() as int) =~= gap + t + tail);
    assert(two.skip(mark.len() as int) =~= gap + quoted + tail);
    trimming_takes_off(gap, t, tail, CharSet::White);
    trimming_takes_off(gap, quoted, tail, CharSet::White);
    assert(made_of(quote, CharSet::Only('"')));
    trimming_takes_off(quote, t, quote, CharSet::Only('"'));
    assert(e + t + e =~= t);
    trimming_takes_off(e, t, e, CharSet::Only('"'));
}

// ------------------------------------------------------------------------ bundle documents

/// The document that a text without frontmatter holds is that text.
proof fn lemma_plain_document(content: Seq<char>)
    requires
        content.len() == 0 || content[0] != '-',
    ensures
        document(content) == (DocumentView { frontmatter: Seq::empty(), body: content }),
{
    reveal_strlit("---\n");
    reveal_strlit("---\r\n");
    if starts(content, "---\n"@) {
        assert(content.subrange(0, 4)[0] == '-');
    }
    if starts(content, "---\r\n"@) {
        assert(content.subrange(0, 5)[0] == '-');
    }
}

/// A source that begins with a heading is indexed under it: its bundle document, and what is
/// shown and searched of it, have that title, all of it, whatever the bundle was before; and it
/// is a document.
pub proof fn a_source_is_indexed_under_its_heading(
    kb: OkfKb,
    source: Seq<char>,
    concept_id: Seq<char>,
    t: Seq<char>,
    rest: Seq<char>,
    previous: Option<Seq<char>>,
    now: Seq<char>,
)
    requires
        bare(t),
        !t.contains('\n'),
    ensures
        ({
            let content = "# "@ + t + seq!['\n'] + rest;
            let bundle = kb.bundle_for(source, concept_id, content, previous, now);
            &&& text_at(bundle.frontmatter, "title"@) == Some(t)
            &&& text_at(bundle.frontmatter, "type"@) == Some("Document"@)
            &&& shown_title(concept_id, bundle) == t
            &&& searchable(concept_id, bundle).title == t
        }),
{
    reveal_strlit("# ");
    let content = "# "@ + t + seq!['\n'] + rest;
    assert(content[0] == '#');
    lemma_plain_document(content);
    a_leading_heading_is_the_title(t, rest, concept_id);
    let facts = kb.facts_for(source, concept_id, content, now);
    let fm = Seq::<(Yaml, Yaml)>::empty();
    bundle_frontmatter_is_complete(fm, content, facts);
    let plain = DocumentView { frontmatter: ensured(fm, content, facts), body: content };
    if let Some(p) = previous {
        carry_over_restores_missing_keys(plain, p, "title"@);
        carry_over_restores_missing_keys(plain, p, "type"@);
    }
}

/// What a source's frontmatter says is what its bundle document says, but for the keys that the
/// producer writes; so a title that it gives is shown, and the tags that it gives are the
/// document's.
pub proof fn the_source_speaks_for_itself(
    kb: OkfKb,
    source: Seq<char>,
    concept_id: Seq<char>,
    content: Seq<char>,
    previous: Option<Seq<char>>,
    now: Seq<char>,
    key: Seq<char>,
    t: Seq<char>,
)
    requires
        is_foreign(key),
        value_of(document(content).frontmatter, Yaml::Text(key)) is Some,
    ensures
        ({
            let fm = document(content).frontmatter;
            let bundle = kb.bundle_for(source, concept_id, content, previous, now);
            &&& value_of(bundle.frontmatter, Yaml::Text(key)) == value_of(fm, Yaml::Text(key))
            &&& key == "title"@ && value_of(fm, Yaml::Text(key)) == Some(Yaml::Text(t))
                ==> shown_title(concept_id, bundle) == t
            &&& key == "tags"@ ==> tags_of(bundle.frontmatter) == tags_of(fm)
        }),
{
    let doc = document(content);
    let facts = kb.facts_for(source, concept_id, content, now);
    source_frontmatter_is_kept(doc.frontmatter, doc.body, facts, key);
    let plain = DocumentView {
        frontmatter: ensured(doc.frontmatter, doc.body, facts),
        body: doc.body,
    };
    if let Some(p) = previous {
        carry_over_restores_missing_keys(plain, p, key);
    }
}

/// The bundle document begins with the body of its source, to its last character that is not
/// white space, and is that body where nothing is carried over. It says where it comes from.
pub proof fn the_bundle_keeps_the_body(
    kb: OkfKb,
    source: Seq<char>,
    concept_id: Seq<char>,
    content: Seq<char>,
    previous: Option<Seq<char>>,
    now: Seq<char>,
)
    ensures
        ({
            let body = document(content).body;
            let bundle = kb.bundle_for(source, concept_id, content, previous, now);
            &&& starts(bundle.body, trim_end(body, CharSet::White))
            &&& (previous is None || any_preserved(body) || !any_preserved(
                document(previous->0).body,
            )) ==> bundle.body == body
            &&& text_at(bundle.frontmatter, "source_path"@) == Some(source)
            &&& text_at(bundle.frontmatter, "okf_concept_id"@) == Some(concept_id)
            &&& text_at(bundle.frontmatter, "okf_id"@) == Some(
                kb.identity_for(source, content),
            )
        }),
{
    let doc = document(content);
    let facts = kb.facts_for(source, concept_id, content, now);
    bundle_frontmatter_is_complete(doc.frontmatter, doc.body, facts);
    let plain = DocumentView {
        frontmatter: ensured(doc.frontmatter, doc.body, facts),
        body: doc.body,
    };
    let base = trim_end(doc.body, CharSet::White);
    crate::text::lemma_trim_end(doc.body, CharSet::White);
    if let Some(p) = previous {
        carry_over_restores_missing_keys(plain, p, "source_path"@);
        carry_over_restores_missing_keys(plain, p, "okf_concept_id"@);
        carry_over_restores_missing_keys(plain, p, "okf_id"@);
        lemma_regions_behind(base, region_texts(document(p).body));
        let all = with_regions(base, region_texts(document(p).body));
        assert(all.push('\n').subrange(0, base.len() as int) =~= all.subrange(
            0,
            base.len() as int,
        ));
    }
    assert(doc.body.subrange(0, base.len() as int) =~= base);
}

proof fn lemma_regions_behind(base: Seq<char>, regions: Seq<Seq<char>>)
    ensures
        starts(with_regions(base, regions), base),
    decreases regions.len(),
{
    if regions.len() > 0 {
        lemma_regions_behind(base, regions.drop_last());
        let before = with_regions(base, regions.drop_last());
        let all = with_regions(base, regions);
        assert(all.subrange(0, base.len() as int) =~= before.subrange(0, base.len() as int));
    } else {
        assert(base.subrange(0, base.len() as int) =~= base);
    }
}

/// No two identities that are minted are the same.
pub proof fn minted_identities_differ(n: nat, m: nat)
    requires
        n != m,
    ensures
        minted(n) != minted(m),
{
    if minted(n) == minted(m) {
        let k = "urn:looper:doc:"@.len() as int;
        assert(minted(n).skip(k) =~= decimal(n));
        assert(minted(m).skip(k) =~= decimal(m));
        lemma_decimal_injective(n, m);
    }
}

/// The tags of a document are all the texts that its frontmatter lists, in their order, or the
/// one text that it gives.
pub proof fn every_listed_tag_counts(fm: Pairs, tags: Seq<Seq<char>>, one: Seq<char>)
    ensures
        value_of(fm, Yaml::Text("tags"@)) == Some(
            Yaml::Sequence(Seq::new(tags.len(), |i: int| Yaml::Text(tags[i]))),
        ) ==> tags_of(fm) == tags,
        value_of(fm, Yaml::Text("tags"@)) == Some(Yaml::Text(one)) ==> tags_of(fm) == seq![one],
        value_of(fm, Yaml::Text("tags"@)) is None ==> tags_of(fm).len() == 0,
{
    lemma_texts_among(tags);
}

proof fn lemma_texts_among(tags: Seq<Seq<char>>)
    ensures
        texts_among(Seq::new(tags.len(), |i: int| Yaml::Text(tags[i]))) == tags,
    decreases tags.len(),
{
    let items = Seq::new(tags.len(), |i: int| Yaml::Text(tags[i]));
    if tags.len() > 0 {
        let rest = tags.drop_last();
        lemma_texts_among(rest);
        assert(items.drop_last() =~= Seq::new(rest.len(), |i: int| Yaml::Text(rest[i])));
        assert(items.last() == Yaml::Text(tags.last()));
        assert(rest.push(tags.last()) =~= tags);
    } else {
        assert(texts_among(items) =~= tags);
    }
}

// ---------------------------------------------------------------------------- searching

/// Whether a hit is that of a search entry: it has its concept id, its title, its source and its
/// tags.
pub open spec fn is_hit_of(h: HitView, id: Seq<char>, e: SearchView) -> bool {
    h.concept_id == id && h.title == e.title && h.path == e.source_path && h.labels == e.labels
}

/// Every entry that contains the needle is hit, where the limit was not reached before it.
pub proof fn matching_entries_are_hit(
    entries: Seq<(String, SearchEntry)>,
    needle: Seq<char>,
    limit: nat,
    k: int,
)
    requires
        0 <= k < entries.len(),
        contains(entries[k].1.haystack@, needle),
        OkfKb::hits_among(entries.take(k), needle, limit).len() < limit,
    ensures
        exists|h: int|
            0 <= h < OkfKb::hits_among(entries, needle, limit).len() && is_hit_of(
                #[trigger] OkfKb::hits_among(entries, needle, limit)[h],
                entries[k].0@,
                entries[k].1@,
            ),
    decreases entries.len(),
{
    let rest = entries.drop_last();
    let before = OkfKb::hits_among(rest, needle, limit);
    let all = OkfKb::hits_among(entries, needle, limit);
    if k == entries.len() - 1 {
        assert(entries.take(k) =~= rest);
        assert(is_hit_of(all[before.len() as int], entries[k].0@, entries[k].1@));
    } else {
        assert(rest.take(k) =~= entries.take(k));
        matching_entries_are_hit(rest, needle, limit, k);
        let h = choose|h: int|
            0 <= h < before.len() && is_hit_of(
                #[trigger] before[h],
                rest[k].0@,
                rest[k].1@,
            );
        assert(all[h] == before[h]);
    }
}

/// Every hit is of an entry that contains the needle, and hits come in the order of the entries,
/// each once.
pub proof fn only_matching_entries_are_hit(
    entries: Seq<(String, SearchEntry)>,
    needle: Seq<char>,
    limit: nat,
) -> (r: Seq<int>)
    ensures
        r.len() == OkfKb::hits_among(entries, needle, limit).len(),
        r.len() <= limit,
        forall|h: int|
            0 <= h < r.len() ==> {
                &&& 0 <= #[trigger] r[h] < entries.len()
                &&& contains(entries[r[h]].1.haystack@, needle)
                &&& is_hit_of(
                    OkfKb::hits_among(entries, needle, limit)[h],
                    entries[r[h]].0@,
                    entries[r[h]].1@,
                )
            },
        forall|h: int, g: int| 0 <= h < g < r.len() ==> #[trigger] r[h] < #[trigger] r[g],
    decreases entries.len(),
{
    if entries.len() == 0 {
        Seq::empty()
    } else {
        let rest = entries.drop_last();
        let before = only_matching_entries_are_hit(rest, needle, limit);
        let all = OkfKb::hits_among(entries, needle, limit);
        if all.len() > before.len() {
            before.push(entries.len() - 1)
        } else {
            before
        }
    }
}

proof fn lemma_hits_grow(
    entries: Seq<(String, SearchEntry)>,
    needle: Seq<char>,
    limit: nat,
    k: int,
)
    requires
        0 <= k <= entries.len(),
    ensures
        OkfKb::hits_among(entries.take(k), needle, limit).len() <= OkfKb::hits_among(
            entries,
            needle,
            limit,
        ).len(),
    decreases entries.len(),
{
    if k == entries.len() {
        assert(entries.take(k) =~= entries);
    } else {
        lemma_hits_grow(entries.drop_last(), needle, limit, k);
        assert(entries.drop_last().take(k) =~= entries.take(k));
    }
}

/// What is searched of a document is one text, in small letters, in which its title, its concept
/// id, each of its tags and its body stand whole.
pub proof fn all_of_a_document_is_searched(concept_id: Seq<char>, doc: DocumentView)
    ensures
        exists|all: Seq<char>|
            {
                &&& searchable(concept_id, doc).haystack == #[trigger] lowercase(all)
                &&& contains(all, shown_title(concept_id, doc))
                &&& contains(all, concept_id)
                &&& contains(all, doc.body)
                &&& forall|k: int|
                    0 <= k < tags_of(doc.frontmatter).len() ==> contains(
                        all,
                        #[trigger] tags_of(doc.frontmatter)[k],
                    )
            },
        searchable(concept_id, doc).title == shown_title(concept_id, doc),
        searchable(concept_id, doc).body == doc.body,
        searchable(concept_id, doc).labels == tags_of(doc.frontmatter),
        text_at(doc.frontmatter, "source_path"@) matches Some(p) ==> searchable(
            concept_id,
            doc,
        ).source_path == p,
{
    let title = shown_title(concept_id, doc);
    let tags = tags_of(doc.frontmatter);
    let sp = " "@;
    let e = Seq::<char>::empty();
    let all = title + sp + concept_id + sp + join(tags, sp) + sp + doc.body;
    assert(all =~= e + title + (sp + concept_id + sp + join(tags, sp) + sp + doc.body));
    lemma_contains_part(e, title, sp + concept_id + sp + join(tags, sp) + sp + doc.body);
    assert(all =~= (title + sp) + concept_id + (sp + join(tags, sp) + sp + doc.body));
    lemma_contains_part(title + sp, concept_id, sp + join(tags, sp) + sp + doc.body);
    assert(all =~= (title + sp + concept_id + sp + join(tags, sp) + sp) + doc.body + e);
    lemma_contains_part(title + sp + concept_id + sp + join(tags, sp) + sp, doc.body, e);
    assert forall|k: int| 0 <= k < tags.len() implies contains(all, #[trigger] tags[k]) by {
        let (a, b) = lemma_contains_joined(tags, sp, k);
        let front = title + sp + concept_id + sp + a;
        let back = b + sp + doc.body;
        assert(all =~= front + tags[k] + back);
        lemma_contains_part(front, tags[k], back);
    }
    assert(searchable(concept_id, doc).haystack == lowercase(all));
}

/// Whether small letters are made of what stands before and behind a space by itself.
pub open spec fn spaces_part_small_letters() -> bool {
    forall|a: Seq<char>, b: Seq<char>|
        #[trigger] lowercase(a + " "@ + b) == lowercase(a) + " "@ + lowercase(b)
}

/// Whether a query, in small letters, stands in a text in small letters.
pub open spec fn answers(text: Seq<char>, query: Seq<char>) -> bool {
    contains(lowercase(text), lowercase(query))
}

proof fn lemma_small_joined(parts: Seq<Seq<char>>, k: int, q: Seq<char>)
    requires
        spaces_part_small_letters(),
        0 <= k < parts.len(),
        contains(lowercase(parts[k]), q),
    ensures
        contains(lowercase(join(parts, " "@)), q),
    decreases parts.len(),
{
    let e = Seq::<char>::empty();
    let sp = " "@;
    if parts.len() > 1 {
        let rest = join(parts.drop_first(), sp);
        assert(join(parts, sp) == parts[0] + sp + rest);
        assert(lowercase(parts[0] + sp + rest) == lowercase(parts[0]) + sp + lowercase(rest));
        if k == 0 {
            lemma_contains_through(e, lowercase(parts[0]), sp + lowercase(rest), q);
            assert(e + lowercase(parts[0]) + (sp + lowercase(rest)) =~= lowercase(parts[0]) + sp
                + lowercase(rest));
        } else {
            lemma_small_joined(parts.drop_first(), k - 1, q);
            lemma_contains_through(lowercase(parts[0]) + sp, lowercase(rest), e, q);
            assert(lowercase(parts[0]) + sp + lowercase(rest) + e =~= lowercase(parts[0]) + sp
                + lowercase(rest));
        }
    }
}

/// A document that is indexed is found by its title, its concept id, each of its tags and its
/// body, whatever the case of the letters, as long as the limit is not reached; and the hit says
/// what it is. The premise on small letters says that a space parts them.
pub proof fn indexed_documents_are_found(
    kb: OkfKb,
    concept_id: Seq<char>,
    doc: DocumentView,
    query: Seq<char>,
    limit: nat,
)
    requires
        kb.wf(),
        kb.searched(concept_id) == Some(searchable(concept_id, doc)),
        spaces_part_small_letters(),
        answers(shown_title(concept_id, doc), query) || answers(concept_id, query) || answers(
            doc.body,
            query,
        ) || exists|k: int|
            0 <= k < tags_of(doc.frontmatter).len() && answers(
                #[trigger] tags_of(doc.frontmatter)[k],
                query,
            ),
        OkfKb::hits_among(kb.search.entries@, lowercase(query), limit).len() < limit,
    ensures
        ({
            let hits = OkfKb::hits_among(kb.search.entries@, lowercase(query), limit);
            exists|h: int|
                {
                    &&& 0 <= h < hits.len()
                    &&& (#[trigger] hits[h]).concept_id == concept_id
                    &&& hits[h].title == shown_title(concept_id, doc)
                    &&& hits[h].labels == tags_of(doc.frontmatter)
                }
        }),
{
    let q = lowercase(query);
    let title = shown_title(concept_id, doc);
    let tags = tags_of(doc.frontmatter);
    let sp = " "@;
    let e = Seq::<char>::empty();
    let t1 = title + sp + concept_id;
    let t2 = t1 + sp + join(tags, sp);
    let t3 = t2 + sp + doc.body;
    assert(lowercase(t1) == lowercase(title) + sp + lowercase(concept_id));
    assert(lowercase(t2) == lowercase(t1) + sp + lowercase(join(tags, sp)));
    assert(lowercase(t3) == lowercase(t2) + sp + lowercase(doc.body));
    let hay = lowercase(t3);
    let small_title = lowercase(title);
    let small_id = lowercase(concept_id);
    let small_tags = lowercase(join(tags, sp));
    let small_body = lowercase(doc.body);
    assert(hay =~= small_title + sp + small_id + sp + small_tags + sp + small_body);
    assert(contains(hay, q)) by {
        if answers(title, query) {
            let back = sp + small_id + sp + small_tags + sp + small_body;
            lemma_contains_through(e, small_title, back, q);
            assert(e + small_title + back =~= hay);
        } else if answers(concept_id, query) {
            let back = sp + small_tags + sp + small_body;
            lemma_contains_through(small_title + sp, small_id, back, q);
            assert((small_title + sp) + small_id + back =~= hay);
        } else if answers(doc.body, query) {
            let front = small_title + sp + small_id + sp + small_tags + sp;
            lemma_contains_through(front, small_body, e, q);
            assert(front + small_body + e =~= hay);
        } else {
            let k = choose|k: int| 0 <= k < tags.len() && answers(#[trigger] tags[k], query);
            lemma_small_joined(tags, k, q);
            let front = small_title + sp + small_id + sp;
            lemma_contains_through(front, small_tags, sp + small_body, q);
            assert(front + small_tags + (sp + small_body) =~= hay);
        }
    }
    let entries = kb.search.entries@;
    let k = choose|k: int| kb.search.holds_at(concept_id, k);
    assert(kb.search.has_key(concept_id));
    assert(kb.search.holds_at(concept_id, k));
    assert(entries[k].1@ == searchable(concept_id, doc));
    assert(entries[k].1.haystack@ == hay);
    lemma_hits_grow(entries, q, limit, k);
    matching_entries_are_hit(entries, q, limit, k);
}

// --------------------------------------------------------------------- the in-memory backend

/// With room for all of them every document that holds the query, in capital letters or small
/// ones, is found in memory, and nothing else; a hit says where the document is and which it is.
pub proof fn documents_in_memory_are_found(
    entries: Seq<(String, MockEntry)>,
    query: Seq<char>,
    limit: nat,
    k: int,
)
    requires
        0 <= k < entries.len() <= limit,
    ensures
        mock_hits(entries, query, limit).len() <= entries.len(),
        contains(lowercase(entries[k].1.content@), lowercase(query)) ==> mock_hits(
            entries,
            query,
            limit,
        ).contains(mock_hit(entries[k].0@, entries[k].1, query)),
        forall|i: int|
            0 <= i < mock_hits(entries, query, limit).len() ==> is_hit_among(
                entries,
                query,
                #[trigger] mock_hits(entries, query, limit)[i],
            ),
        ({
            let hit = mock_hit(entries[k].0@, entries[k].1, query);
            &&& hit.path == entries[k].0@
            &&& hit.concept_id == entries[k].1.concept_id@
            &&& hit.title == mock_title(entries[k].1.content@, entries[k].1.concept_id@)
        }),
    decreases entries.len(),
{
    let rest = entries.drop_last();
    let before = mock_hits(rest, query, limit);
    let all = mock_hits(entries, query, limit);
    if rest.len() > 0 {
        documents_in_memory_are_found(
            rest,
            query,
            limit,
            if k < rest.len() {
                k
            } else {
                0
            },
        );
    } else {
        assert(before =~= Seq::empty());
    }
    let hit = mock_hit(entries[k].0@, entries[k].1, query);
    if contains(lowercase(entries[k].1.content@), lowercase(query)) {
        if k < rest.len() {
            assert(rest[k] == entries[k]);
            let i = choose|i: int| 0 <= i < before.len() && before[i] == hit;
            assert(all[i] == hit);
        } else {
            assert(all[before.len() as int] == hit);
        }
    }
    assert forall|i: int| 0 <= i < all.len() implies is_hit_among(
        entries,
        query,
        #[trigger] all[i],
    ) by {
        if i < before.len() {
            assert(all[i] == before[i]);
            assert(is_hit_among(rest, query, before[i]));
            let j = choose|j: int|
                0 <= j < rest.len() && contains(
                    lowercase((#[trigger] rest[j]).1.content@),
                    lowercase(query),
                ) && before[i] == mock_hit(rest[j].0@, rest[j].1, query);
            assert(entries[j] == rest[j]);
        } else {
            assert(entries[entries.len() - 1] == entries.last());
        }
    }
}

/// Whether a hit is that of one of some documents that holds the query.
pub open spec fn is_hit_among(
    entries: Seq<(String, MockEntry)>,
    query: Seq<char>,
    hit: HitView,
) -> bool {
    exists|j: int|
        0 <= j < entries.len() && contains(
            lowercase((#[trigger] entries[j]).1.content@),
            lowercase(query),
        ) && hit == mock_hit(entries[j].0@, entries[j].1, query)
}

/// The title that a document in memory gives in its frontmatter is its title, however its lines
/// end; without one its first heading is.
pub proof fn frontmatter_titles_come_first(
    above: Seq<char>,
    t: Seq<char>,
    below: Seq<char>,
    rest: Seq<char>,
    id: Seq<char>,
)
    requires
        bare(t),
        t[0] != '"',
        t.last() != '"',
        !t.contains('\n'),
        above.len() > 0 ==> above.last() == '\n',
        forall|k: int| 0 <= k < lines(above).len() ==> title_line(#[trigger] lines(above)[k]) is None,
        !contains(
            (above + ("title: "@ + t + seq!['\n'] + below) + "\n---\n"@).drop_last(),
            "\n---\n"@,
        ),
    ensures
        mock_title(
            "---\n"@ + (above + ("title: "@ + t + seq!['\n'] + below) + "\n---\n"@ + rest),
            id,
        ) == t,
        frontmatter_title_of(rest) is None ==> mock_title(rest, id) == title_of(rest, id),
{
    reveal_strlit("title: ");
    reveal_strlit("title:");
    let line = "title: "@ + t;
    let yaml = above + (line + seq!['\n'] + below);
    let text = yaml + "\n---\n"@ + rest;
    let content = "---\n"@ + text;
    lemma_opened("---\n"@, text);
    reveal_strlit("\n---\n");
    lemma_found_behind(yaml, "\n---\n"@, rest);
    let i = find(text, "\n---\n"@)->0;
    assert(text.take(i) == yaml);
    assert(!line.contains('\n')) by {
        if line.contains('\n') {
            let k = choose|k: int| 0 <= k < line.len() && line[k] == '\n';
            if k >= 7 {
                assert(t[k - 7] == '\n');
            }
        }
    }
    lines_begin_with_the_first(line, below);
    let e = Seq::<char>::empty();
    title_lines_give_their_text(seq![' '], t, e);
    assert("title:"@ + seq![' '] + t + e =~= line);
    assert(without_return(line) == line) by {
        assert(line.last() == t.last());
    }
    let tail = line + seq!['\n'] + below;
    lemma_lines_behind(above, tail);
    assert(lines(yaml) == lines(above) + lines(tail));
    lemma_first_title(lines(above), lines(tail));
    assert(lines(tail)[0] == line);
}

proof fn lemma_lines_behind(above: Seq<char>, tail: Seq<char>)
    requires
        above.len() > 0 ==> above.last() == '\n',
    ensures
        lines(above + tail) == lines(above) + lines(tail),
{
    if above.len() > 0 {
        lemma_lines_concat(above, tail);
    } else {
        assert(above + tail =~= tail);
        assert(lines(above) + lines(tail) =~= lines(tail));
    }
}

proof fn lemma_first_title(a: Seq<Seq<char>>, b: Seq<Seq<char>>)
    requires
        forall|k: int| 0 <= k < a.len() ==> title_line(#[trigger] a[k]) is None,
    ensures
        first_title_line(a + b) == first_title_line(b),
    decreases a.len(),
{
    if a.len() == 0 {
        assert(a + b =~= b);
    } else {
        assert((a + b)[0] == a[0]);
        assert(title_line(a[0]) is None);
        assert((a + b).drop_first() =~= a.drop_first() + b);
        assert forall|k: int| 0 <= k < a.len() - 1 implies title_line(
            #[trigger] a.drop_first()[k],
        ) is None by {
            assert(a.drop_first()[k] == a[k + 1]);
        }
        lemma_first_title(a.drop_first(), b);
    }
}

} // verus!
