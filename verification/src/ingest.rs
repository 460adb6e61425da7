//! Preparing a watched source file for the knowledge base.
//!
//! Markdown is passed through unchanged. Of AsciiDoc the document header (the `= `
//! title and the `:name: value` attributes) becomes a `---` YAML frontmatter, and the
//! body is kept verbatim.

use crate::frontmatter::{markdown_with, render_markdown};
use crate::kb::{last_segment, segment_of};
use crate::path::{eq_ignore_case, last_index, last_index_of, same_ignoring_case};
use crate::text::{
    chars_of, ends, index_from, index_of, is_white, is_whitespace, lines, lines_of, pieces, split,
    starts, starts_with, string_of, texts, trim_white, trimmed, CharSet,
};
use crate::yaml::{
    emit, emitted, insert, new_mapping, pairs, sequence_value, text_value, with_value, yaml, Pairs,
    Yaml, error_text,
};
use serde_yaml_ng::{Mapping, Value};
use vstd::prelude::*;
use vstd::slice::slice_subrange;

verus! {

/// An ingestion failure.
#[derive(Debug)]
pub enum IngestError {
    /// The synthesized frontmatter could not be serialized to YAML.
    Yaml(serde_yaml_ng::Error),
}

impl IngestError {
    /// What the failure says.
    pub fn message(&self) -> (r: String)
        ensures
            exists|m: Seq<char>|
                r@ == #[trigger] ("failed to serialize synthesized frontmatter: "@ + m),
    {
        match self {
            IngestError::Yaml(e) => {
                let m = error_text(e);
                let mut s = "failed to serialize synthesized frontmatter: ".to_owned();
                s.append(m.as_str());
                assert(s@ == "failed to serialize synthesized frontmatter: "@ + m@);
                s
            },
        }
    }
}

/// Prepares a watched source file into markdown with `---` YAML frontmatter.
pub trait Ingestor {
    /// File extensions (lowercase, no dot) this ingestor handles.
    fn extensions(&self) -> (r: Vec<String>);

    /// The content to hand to the knowledge base. `concept_id` gives a title where the
    /// source has none.
    fn prepare(&self, raw: &str, concept_id: &str) -> (r: Result<String, IngestError>);
}

/// Markdown (and unknown formats): identity.
pub struct MarkdownPassthrough;

/// AsciiDoc: lifts the document header into YAML frontmatter, keeps the body verbatim.
pub struct AdocIngestor;

// ----------------------------------------------------------------------- header

/// The lines from the first one that is neither blank nor a `//` comment.
pub open spec fn from_header(ls: Seq<Seq<char>>) -> Seq<Seq<char>>
    decreases ls.len(),
{
    if ls.len() > 0 && (trim_white(ls[0]).len() == 0 || starts(trim_white(ls[0]), "//"@)) {
        from_header(ls.drop_first())
    } else {
        ls
    }
}

/// The lines up to the first blank one, trimmed.
pub open spec fn until_blank(ls: Seq<Seq<char>>) -> Seq<Seq<char>>
    decreases ls.len(),
{
    if ls.len() == 0 || trim_white(ls[0]).len() == 0 {
        Seq::empty()
    } else {
        seq![trim_white(ls[0])] + until_blank(ls.drop_first())
    }
}

/// The trimmed lines of an AsciiDoc document header.
pub open spec fn header_lines(raw: Seq<char>) -> Seq<Seq<char>> {
    until_blank(from_header(lines(raw)))
}

/// The text of a document title line (`= Title`); `== ` and deeper are sections.
pub open spec fn doctitle(line: Seq<char>) -> Option<Seq<char>> {
    if starts(line, "= "@) && trim_white(line.skip(2)).len() > 0 {
        Some(trim_white(line.skip(2)))
    } else {
        None
    }
}

/// The first document title among some lines.
pub open spec fn first_doctitle(ls: Seq<Seq<char>>) -> Option<Seq<char>>
    decreases ls.len(),
{
    if ls.len() == 0 {
        None
    } else if doctitle(ls[0]) is Some {
        doctitle(ls[0])
    } else {
        first_doctitle(ls.drop_first())
    }
}

/// Whether a text holds white space.
pub open spec fn has_white(s: Seq<char>) -> bool {
    exists|i: int| 0 <= i < s.len() && is_white(#[trigger] s[i])
}

/// The attribute that a line sets (`:name: value`); `None` for forms that unset one
/// (`:name!:`, `:!name:`) and for other lines.
pub open spec fn attribute(line: Seq<char>) -> Option<(Seq<char>, Seq<char>)> {
    let rest = line.skip(1);
    let end = index_of(rest, ':');
    let name = rest.take(end);
    if line.len() == 0 || line[0] != ':' || end >= rest.len() || name.len() == 0 || name[0] == '!'
        || name.last() == '!' || has_white(name) {
        None
    } else {
        Some((name, trim_white(rest.skip(end + 1))))
    }
}

/// The attributes that some lines set, in order.
pub open spec fn attributes(ls: Seq<Seq<char>>) -> Seq<(Seq<char>, Seq<char>)>
    decreases ls.len(),
{
    if ls.len() == 0 {
        Seq::empty()
    } else {
        let before = attributes(ls.drop_last());
        match attribute(ls.last()) {
            Some(a) => before.push(a),
            None => before,
        }
    }
}

/// A file name without its extension; a leading dot does not start one.
pub open spec fn stem(concept_id: Seq<char>) -> Seq<char> {
    let name = last_segment(concept_id);
    let dot = last_index_of(name, '.');
    if dot > 0 {
        name.take(dot)
    } else {
        name
    }
}

/// The tags of a comma-separated list, trimmed, without blank ones.
pub open spec fn tag_list(parts: Seq<Seq<char>>) -> Seq<Seq<char>>
    decreases parts.len(),
{
    if parts.len() == 0 {
        Seq::empty()
    } else {
        let before = tag_list(parts.drop_last());
        let tag = trim_white(parts.last());
        if tag.len() > 0 {
            before.push(tag)
        } else {
            before
        }
    }
}

/// Whether an attribute lists tags.
pub open spec fn names_tags(name: Seq<char>) -> bool {
    same_ignoring_case(name, "keywords"@) || same_ignoring_case(name, "tags"@)
}

/// A YAML sequence of texts.
pub open spec fn text_items(ts: Seq<Seq<char>>) -> Yaml {
    Yaml::Sequence(ts.map_values(|t: Seq<char>| Yaml::Text(t)))
}

/// Frontmatter with an attribute added.
pub open spec fn with_attribute(m: Pairs, a: (Seq<char>, Seq<char>)) -> Pairs {
    if names_tags(a.0) {
        let tags = tag_list(split(a.1, ','));
        if tags.len() > 0 {
            with_value(m, Yaml::Text("tags"@), text_items(tags))
        } else {
            m
        }
    } else {
        with_value(m, Yaml::Text(a.0), Yaml::Text(a.1))
    }
}

/// Frontmatter of a title and attributes.
pub open spec fn lifted_from(title: Seq<char>, attrs: Seq<(Seq<char>, Seq<char>)>) -> Pairs
    decreases attrs.len(),
{
    if attrs.len() == 0 {
        with_value(Seq::empty(), Yaml::Text("title"@), Yaml::Text(title))
    } else {
        with_attribute(lifted_from(title, attrs.drop_last()), attrs.last())
    }
}

/// The frontmatter that AsciiDoc is given: its title (else its file name) and the
/// attributes of its header.
pub open spec fn lifted(raw: Seq<char>, concept_id: Seq<char>) -> Pairs {
    let h = header_lines(raw);
    lifted_from(
        match first_doctitle(h) {
            Some(t) => t,
            None => stem(concept_id),
        },
        attributes(h),
    )
}

/// Whether a text already begins with frontmatter.
pub open spec fn has_envelope(raw: Seq<char>) -> bool {
    starts(raw, "---\n"@) || starts(raw, "---\r\n"@)
}

/// What AsciiDoc is prepared into: itself where it has frontmatter, else the lifted
/// frontmatter with all of it as the body. `None` where that frontmatter cannot be
/// written.
pub open spec fn prepared_adoc(raw: Seq<char>, concept_id: Seq<char>) -> Option<Seq<char>> {
    if has_envelope(raw) {
        Some(raw)
    } else {
        match emitted(lifted(raw, concept_id)) {
            Some(text) => Some(markdown_with(text, raw)),
            None => None,
        }
    }
}

/// Whether an extension is that of AsciiDoc, whatever the case of its letters.
pub open spec fn is_adoc(extension: Seq<char>) -> bool {
    same_ignoring_case(extension, "adoc"@) || same_ignoring_case(extension, "asciidoc"@)
}

/// What a source is prepared into.
pub open spec fn prepared(
    extension: Seq<char>,
    raw: Seq<char>,
    concept_id: Seq<char>,
) -> Option<Seq<char>> {
    if is_adoc(extension) {
        prepared_adoc(raw, concept_id)
    } else {
        Some(raw)
    }
}

/// The parsed AsciiDoc document header.
#[derive(Debug)]
pub struct AdocHeader {
    pub doctitle: Option<String>,
    pub attributes: Vec<(String, String)>,
}

/// The attributes of a header.
pub open spec fn attrs_view(v: Seq<(String, String)>) -> Seq<(Seq<char>, Seq<char>)> {
    v.map_values(|a: (String, String)| (a.0@, a.1@))
}

/// The text of a document title (`= Title`), or `None`.
pub fn doctitle_text(line: &str) -> (r: Option<String>)
    ensures
        r is Some == doctitle(line@) is Some,
        r matches Some(t) ==> doctitle(line@) == Some(t@),
{
    let cs = chars_of(line);
    let mark = chars_of("= ");
    proof {
        reveal_strlit("= ");
    }
    if !starts_with(cs.as_slice(), mark.as_slice()) {
        return None;
    }
    let rest = slice_subrange(cs.as_slice(), 2, cs.len());
    assert(rest@ =~= line@.skip(2));
    let t = trimmed(rest, CharSet::White);
    if t.len() > 0 {
        Some(string_of(t))
    } else {
        None
    }
}

fn holds_white(s: &[char]) -> (r: bool)
    ensures
        r == has_white(s@),
{
    let mut i: usize = 0;
    while i < s.len()
        invariant
            i <= s.len(),
            forall|k: int| 0 <= k < i ==> !is_white(#[trigger] s@[k]),
        decreases s.len() - i,
    {
        if is_whitespace(s[i]) {
            assert(is_white(s@[i as int]));
            return true;
        }
        i = i + 1;
    }
    false
}

/// An attribute entry: `:name: value` or `:name:` (empty value). `None` for forms that
/// unset one (`:name!:`, `:!name:`) and for other lines.
pub fn parse_attribute(line: &str) -> (r: Option<(String, String)>)
    ensures
        r is Some == attribute(line@) is Some,
        r matches Some((n, v)) ==> attribute(line@) == Some((n@, v@)),
{
    let cs = chars_of(line);
    if cs.len() == 0 || cs[0] != ':' {
        return None;
    }
    let rest = slice_subrange(cs.as_slice(), 1, cs.len());
    assert(rest@ =~= line@.skip(1));
    assert(rest@.skip(0) =~= rest@);
    let end: usize = index_from(rest, ':', 0);
    if end >= rest.len() {
        return None;
    }
    let name = slice_subrange(rest, 0, end);
    assert(name@ =~= rest@.take(end as int));
    if name.len() == 0 || name[0] == '!' || name[name.len() - 1] == '!' || holds_white(name) {
        return None;
    }
    let value = slice_subrange(rest, end + 1, rest.len());
    assert(value@ =~= rest@.skip(end + 1));
    Some((string_of(name), string_of(trimmed(value, CharSet::White))))
}

fn header_lines_of(raw: &str) -> (r: Vec<String>)
    ensures
        texts(r@) == header_lines(raw@),
{
    let ls = lines_of(chars_of(raw).as_slice());
    let ghost all = texts(ls@);
    let comment = chars_of("//");
    let mut i: usize = 0;
    assert(all.skip(0) =~= all);
    while i < ls.len()
        invariant
            i <= ls@.len(),
            all == texts(ls@),
            comment@ == "//"@,
            from_header(all) == from_header(all.skip(i as int)),
        ensures
            from_header(all) == all.skip(i as int),
            i <= ls@.len(),
        decreases ls.len() - i,
    {
        proof {
            assert(all.skip(i as int)[0] == ls@[i as int]@);
            assert(all.skip(i as int).drop_first() =~= all.skip(i + 1));
        }
        let line = chars_of(ls[i].as_str());
        let t = trimmed(line.as_slice(), CharSet::White);
        if !(t.len() == 0 || starts_with(t, comment.as_slice())) {
            break ;
        }
        i = i + 1;
    }
    let ghost head = all.skip(i as int);
    let mut out: Vec<String> = Vec::new();
    let ghost first = i as int;
    assert(texts(out@) + until_blank(head) =~= until_blank(head));
    while i < ls.len()
        invariant
            first <= i <= ls@.len(),
            all == texts(ls@),
            head == from_header(all),
            texts(out@) + until_blank(all.skip(i as int)) == until_blank(head),
        ensures
            texts(out@) == until_blank(head),
        decreases ls.len() - i,
    {
        let ghost rest = all.skip(i as int);
        proof {
            assert(rest[0] == ls@[i as int]@);
            assert(rest.drop_first() =~= all.skip(i + 1));
        }
        let line = chars_of(ls[i].as_str());
        let t = trimmed(line.as_slice(), CharSet::White);
        if t.len() == 0 {
            assert(texts(out@) + until_blank(rest) =~= texts(out@));
            break ;
        }
        let ghost before = out@;
        out.push(string_of(t));
        proof {
            assert(texts(out@) =~= texts(before).push(t@));
            let more = until_blank(rest.drop_first());
            assert(texts(before) + (seq![t@] + more) =~= texts(out@) + more);
        }
        i = i + 1;
        if i == ls.len() {
            assert(all.skip(i as int) =~= Seq::empty());
            assert(texts(out@) + until_blank(all.skip(i as int)) =~= texts(out@));
        }
    }
    out
}

/// Parses the AsciiDoc document header: the title and the `:name: value` entries, from
/// the first line that is neither blank nor a comment until the first blank one.
pub fn parse_adoc_header(raw: &str) -> (r: AdocHeader)
    ensures
        r.doctitle is Some == first_doctitle(header_lines(raw@)) is Some,
        r.doctitle matches Some(t) ==> first_doctitle(header_lines(raw@)) == Some(t@),
        attrs_view(r.attributes@) == attributes(header_lines(raw@)),
{
    let ls = header_lines_of(raw);
    let ghost all = texts(ls@);
    let mut title: Option<String> = None;
    let mut attrs: Vec<(String, String)> = Vec::new();
    let mut i: usize = 0;
    proof {
        assert(all.skip(0) =~= all);
        assert(all.take(0) =~= Seq::empty());
        assert(attrs_view(attrs@) =~= attributes(all.take(0)));
    }
    while i < ls.len()
        invariant
            i <= ls@.len(),
            all == texts(ls@),
            title matches Some(t) ==> first_doctitle(all) == Some(t@),
            title is None ==> first_doctitle(all) == first_doctitle(all.skip(i as int)),
            attrs_view(attrs@) == attributes(all.take(i as int)),
        decreases ls.len() - i,
    {
        let line = ls[i].as_str();
        let ghost before = attrs@;
        proof {
            assert(all.skip(i as int)[0] == line@);
            assert(all.skip(i as int).drop_first() =~= all.skip(i + 1));
            assert(all.take(i + 1).drop_last() =~= all.take(i as int));
            assert(all.take(i + 1).last() == line@);
        }
        if title.is_none() {
            title = doctitle_text(line);
        }
        match parse_attribute(line) {
            Some(a) => {
                attrs.push(a);
                assert(attrs_view(attrs@) =~= attrs_view(before).push((a.0@, a.1@)));
            },
            None => {},
        }
        i = i + 1;
    }
    proof {
        assert(all.skip(i as int) =~= Seq::empty());
        assert(all.take(i as int) =~= all);
    }
    AdocHeader { doctitle: title, attributes: attrs }
}

/// The file name of a concept id without its extension.
pub fn filename_stem(concept_id: &str) -> (r: String)
    ensures
        r@ == stem(concept_id@),
{
    let name = segment_of(concept_id);
    let cs = chars_of(name.as_str());
    match last_index(cs.as_slice(), '.') {
        Some(dot) => {
            if dot > 0 {
                let s = slice_subrange(cs.as_slice(), 0, dot);
                assert(s@ =~= name@.take(dot as int));
                string_of(s)
            } else {
                name
            }
        },
        None => name,
    }
}

fn tag_values(value: &str) -> (r: Vec<Value>)
    ensures
        r@.map_values(|v: Value| yaml(v)) == tag_list(split(value@, ',')).map_values(
            |t: Seq<char>| Yaml::Text(t),
        ),
{
    let parts = pieces(chars_of(value).as_slice(), ',');
    let ghost all = texts(parts@);
    let ghost f = |v: Value| yaml(v);
    let ghost g = |t: Seq<char>| Yaml::Text(t);
    let mut out: Vec<Value> = Vec::new();
    let mut i: usize = 0;
    proof {
        assert(all.take(0) =~= Seq::empty());
        assert(out@.map_values(f) =~= tag_list(all.take(0)).map_values(g));
    }
    while i < parts.len()
        invariant
            i <= parts@.len(),
            all == texts(parts@),
            f == (|v: Value| yaml(v)),
            g == (|t: Seq<char>| Yaml::Text(t)),
            out@.map_values(f) == tag_list(all.take(i as int)).map_values(g),
        decreases parts.len() - i,
    {
        let ghost before = out@;
        let part = chars_of(parts[i].as_str());
        proof {
            assert(all.take(i + 1).drop_last() =~= all.take(i as int));
            assert(all.take(i + 1).last() == part@);
        }
        let tag = trimmed(part.as_slice(), CharSet::White);
        if tag.len() > 0 {
            let v = text_value(string_of(tag).as_str());
            out.push(v);
            proof {
                assert(out@.map_values(f) =~= before.map_values(f).push(Yaml::Text(tag@)));
                assert(tag_list(all.take(i + 1)).map_values(g) =~= tag_list(
                    all.take(i as int),
                ).map_values(g).push(Yaml::Text(tag@)));
            }
        }
        i = i + 1;
    }
    assert(all.take(all.len() as int) =~= all);
    out
}

/// The frontmatter of a title and attributes.
pub fn lift(title: &str, attrs: &Vec<(String, String)>) -> (r: Mapping)
    ensures
        pairs(r) == lifted_from(title@, attrs_view(attrs@)),
{
    let ghost all = attrs_view(attrs@);
    let mut m = new_mapping();
    insert(&mut m, text_value("title"), text_value(title));
    let mut i: usize = 0;
    assert(all.take(0) =~= Seq::empty());
    while i < attrs.len()
        invariant
            i <= attrs@.len(),
            all == attrs_view(attrs@),
            pairs(m) == lifted_from(title@, all.take(i as int)),
        decreases attrs.len() - i,
    {
        let name = attrs[i].0.as_str();
        let value = attrs[i].1.as_str();
        proof {
            assert(all.take(i + 1).drop_last() =~= all.take(i as int));
            assert(all.take(i + 1).last() == (name@, value@));
        }
        if eq_ignore_case(name, "keywords") || eq_ignore_case(name, "tags") {
            let tags = tag_values(value);
            proof {
                let t = tag_list(split(value@, ','));
                assert(tags@.map_values(|v: Value| yaml(v)).len() == t.len());
            }
            if tags.len() > 0 {
                insert(&mut m, text_value("tags"), sequence_value(tags));
            }
        } else {
            insert(&mut m, text_value(name), text_value(value));
        }
        i = i + 1;
    }
    assert(all.take(all.len() as int) =~= all);
    m
}

impl Ingestor for MarkdownPassthrough {
    fn extensions(&self) -> (r: Vec<String>)
        ensures
            texts(r@) == seq!["md"@, "markdown"@, "mdx"@],
    {
        let mut r: Vec<String> = Vec::new();
        r.push("md".to_owned());
        r.push("markdown".to_owned());
        r.push("mdx".to_owned());
        assert(texts(r@) =~= seq!["md"@, "markdown"@, "mdx"@]);
        r
    }

    fn prepare(&self, raw: &str, concept_id: &str) -> (r: Result<String, IngestError>)
        ensures
            r is Ok,
            r->Ok_0@ == raw@,
    {
        Ok(raw.to_owned())
    }
}

impl Ingestor for AdocIngestor {
    fn extensions(&self) -> (r: Vec<String>)
        ensures
            texts(r@) == seq!["adoc"@, "asciidoc"@],
    {
        let mut r: Vec<String> = Vec::new();
        r.push("adoc".to_owned());
        r.push("asciidoc".to_owned());
        assert(texts(r@) =~= seq!["adoc"@, "asciidoc"@]);
        r
    }

    fn prepare(&self, raw: &str, concept_id: &str) -> (r: Result<String, IngestError>)
        ensures
            r is Ok == prepared_adoc(raw@, concept_id@) is Some,
            r matches Ok(s) ==> prepared_adoc(raw@, concept_id@) == Some(s@),
    {
        let cs = chars_of(raw);
        if starts_with(cs.as_slice(), chars_of("---\n").as_slice()) || starts_with(
            cs.as_slice(),
            chars_of("---\r\n").as_slice(),
        ) {
            return Ok(raw.to_owned());
        }
        let header = parse_adoc_header(raw);
        let title = match header.doctitle {
            Some(t) => t,
            None => filename_stem(concept_id),
        };
        let frontmatter = lift(title.as_str(), &header.attributes);
        match emit(&frontmatter) {
            Ok(text) => Ok(render_markdown(text.as_str(), raw)),
            Err(e) => Err(IngestError::Yaml(e)),
        }
    }
}

/// Prepares `raw` for the knowledge base by its `extension` (of any case, no dot).
/// AsciiDoc is given frontmatter; markdown and any other extension pass through
/// unchanged.
pub fn prepare(extension: &str, raw: &str, concept_id: &str) -> (r: Result<String, IngestError>)
    ensures
        r is Ok == prepared(extension@, raw@, concept_id@) is Some,
        r matches Ok(s) ==> prepared(extension@, raw@, concept_id@) == Some(s@),
{
    if eq_ignore_case(extension, "adoc") || eq_ignore_case(extension, "asciidoc") {
        let ingestor = AdocIngestor;
        ingestor.prepare(raw, concept_id)
    } else {
        let ingestor = MarkdownPassthrough;
        ingestor.prepare(raw, concept_id)
    }
}

/// Whatever a source is prepared into, all of the source stands at its end, verbatim.
pub proof fn preparing_keeps_the_source(
    extension: Seq<char>,
    raw: Seq<char>,
    concept_id: Seq<char>,
)
    ensures
        prepared(extension, raw, concept_id) matches Some(out) ==> ends(out, raw),
{
    if let Some(out) = prepared(extension, raw, concept_id) {
        assert(out.subrange(out.len() - raw.len(), out.len() as int) =~= raw);
    }
}

} // verus!
