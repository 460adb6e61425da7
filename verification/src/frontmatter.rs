//! Frontmatter of concept documents: read and write, keeping the order of the keys
//! and the keys that are not known here.

use crate::okf::OkfError;
use crate::text::{
    chars_of, contains, ends, ends_with, find, lemma_find_from, occurs_at, position, starts,
    starts_with, string_of,
};
use crate::yaml::{
    emit, emitted, ends_plainly, mapping_len, new_mapping, pairs, parse, parsed, Pairs, Yaml,
};
use serde_yaml_ng::Mapping;
use vstd::prelude::*;
use vstd::slice::slice_subrange;

verus! {

/// A parsed markdown document: an (ordered) YAML frontmatter mapping and the body.
#[derive(Debug, PartialEq)]
pub struct Document {
    /// The frontmatter mapping (empty if the source had none).
    pub frontmatter: Mapping,
    /// Everything after the frontmatter.
    pub body: String,
}

impl Default for Document {
    fn default() -> (r: Self)
        ensures
            r@.frontmatter.len() == 0,
            r@.body.len() == 0,
    {
        Document { frontmatter: new_mapping(), body: String::new() }
    }
}

/// What a [`Document`] holds.
pub struct DocumentView {
    pub frontmatter: Pairs,
    pub body: Seq<char>,
}

impl View for Document {
    type V = DocumentView;

    open spec fn view(&self) -> DocumentView {
        DocumentView { frontmatter: pairs(self.frontmatter), body: self.body@ }
    }
}

/// What stands behind the line that opens the frontmatter.
pub open spec fn after_open(content: Seq<char>) -> Option<Seq<char>> {
    if starts(content, "---\n"@) {
        Some(content.skip("---\n"@.len() as int))
    } else if starts(content, "---\r\n"@) {
        Some(content.skip("---\r\n"@.len() as int))
    } else {
        None
    }
}

/// The text before the first `delim`, and the one behind it.
pub open spec fn split_once(s: Seq<char>, delim: Seq<char>) -> Option<(Seq<char>, Seq<char>)> {
    match find(s, delim) {
        Some(i) => Some((s.take(i), s.skip(i + delim.len()))),
        None => None,
    }
}

/// The YAML and the body, split at the line that closes the frontmatter.
pub open spec fn split_frontmatter_at(rest: Seq<char>) -> Option<(Seq<char>, Seq<char>)> {
    if split_once(rest, "\n---\n"@) is Some {
        split_once(rest, "\n---\n"@)
    } else if split_once(rest, "\n---\r\n"@) is Some {
        split_once(rest, "\n---\r\n"@)
    } else if ends(rest, "\n---"@) {
        Some((rest.take(rest.len() - "\n---"@.len()), Seq::empty()))
    } else {
        None
    }
}

/// The YAML and the body of a text, where it has frontmatter.
pub open spec fn sections(content: Seq<char>) -> Option<(Seq<char>, Seq<char>)> {
    match after_open(content) {
        Some(rest) => split_frontmatter_at(rest),
        None => None,
    }
}

/// The document that a text holds, where its YAML is read as `yaml`.
pub open spec fn document_with(content: Seq<char>, yaml: Option<Pairs>) -> DocumentView {
    match sections(content) {
        Some((_, body)) => DocumentView {
            frontmatter: match yaml {
                Some(m) => m,
                None => Seq::empty(),
            },
            body,
        },
        None => DocumentView { frontmatter: Seq::empty(), body: content },
    }
}

/// The document that a text holds.
pub open spec fn document(content: Seq<char>) -> DocumentView {
    document_with(
        content,
        match sections(content) {
            Some((yaml, _)) => parsed(yaml),
            None => None,
        },
    )
}

/// The markdown of frontmatter, written as `yaml`, and a body.
pub open spec fn markdown_with(yaml: Seq<char>, body: Seq<char>) -> Seq<char> {
    "---\n"@ + yaml + "---\n"@ + body
}

/// The markdown of a document; `None` where its frontmatter cannot be written.
pub open spec fn markdown(doc: DocumentView) -> Option<Seq<char>> {
    if doc.frontmatter.len() == 0 {
        Some(doc.body)
    } else {
        match emitted(doc.frontmatter) {
            Some(yaml) => Some(markdown_with(yaml, doc.body)),
            None => None,
        }
    }
}

/// Whether a text that was written for a document with frontmatter is read with the body of
/// the document, unless a separator of lines ends the frontmatter.
pub open spec fn keeps_its_body(doc: DocumentView, text: Seq<char>) -> bool {
    doc.frontmatter.len() > 0 && ends_plainly(Yaml::Mapping(doc.frontmatter)) ==> document(
        text,
    ).body == doc.body
}

fn split_at_delim(s: &[char], delim: &str) -> (r: Option<(String, String)>)
    ensures
        r is Some == split_once(s@, delim@) is Some,
        r matches Some((a, b)) ==> split_once(s@, delim@) == Some((a@, b@)),
{
    let d = chars_of(delim);
    match position(s, d.as_slice()) {
        Some(i) => {
            assert(i + d.len() <= s.len());
            let a = slice_subrange(s, 0, i);
            let b = slice_subrange(s, i + d.len(), s.len());
            assert(a@ =~= s@.take(i as int));
            assert(b@ =~= s@.skip(i + d@.len()));
            Some((string_of(a), string_of(b)))
        },
        None => None,
    }
}

/// The YAML and the body, split at the line that closes the frontmatter.
pub fn split_frontmatter(rest: &str) -> (r: Option<(String, String)>)
    ensures
        r is Some == split_frontmatter_at(rest@) is Some,
        r matches Some((yaml, body)) ==> split_frontmatter_at(rest@) == Some((yaml@, body@)),
{
    let cs = chars_of(rest);
    let plain = split_at_delim(cs.as_slice(), "\n---\n");
    if plain.is_some() {
        return plain;
    }
    let returned = split_at_delim(cs.as_slice(), "\n---\r\n");
    if returned.is_some() {
        return returned;
    }
    let close = chars_of("\n---");
    if ends_with(cs.as_slice(), close.as_slice()) {
        let yaml = slice_subrange(cs.as_slice(), 0, cs.len() - close.len());
        assert(yaml@ =~= rest@.take(rest@.len() - "\n---"@.len()));
        return Some((string_of(yaml), String::new()));
    }
    None
}

/// The YAML and the body of a text, where it has frontmatter.
pub fn sections_of(content: &str) -> (r: Option<(String, String)>)
    ensures
        r is Some == sections(content@) is Some,
        r matches Some((yaml, body)) ==> sections(content@) == Some((yaml@, body@)),
{
    let cs = chars_of(content);
    let plain = chars_of("---\n");
    let returned = chars_of("---\r\n");
    let skip: usize = if starts_with(cs.as_slice(), plain.as_slice()) {
        plain.len()
    } else if starts_with(cs.as_slice(), returned.as_slice()) {
        returned.len()
    } else {
        return None;
    };
    let rest = slice_subrange(cs.as_slice(), skip, cs.len());
    assert(rest@ =~= cs@.skip(skip as int));
    split_frontmatter(string_of(rest).as_str())
}

impl Document {
    /// Parses `content` into frontmatter and body. A leading `---` line opens the
    /// frontmatter, a `---` line closes it. Malformed YAML yields an empty mapping (the
    /// body is preserved).
    pub fn parse(content: &str) -> (r: Self)
        ensures
            r@ == document(content@),
    {
        match sections_of(content) {
            Some((yaml, body)) => {
                let frontmatter = match parse(yaml.as_str()) {
                    Some(m) => m,
                    None => new_mapping(),
                };
                Document { frontmatter, body }
            },
            None => Document { frontmatter: new_mapping(), body: content.to_owned() },
        }
    }

    /// Renders back to markdown (`---` frontmatter, then the body). With empty
    /// frontmatter, returns the body unchanged. Fails only where the frontmatter cannot
    /// be written.
    pub fn to_markdown(&self) -> (r: Result<String, OkfError>)
        ensures
            r is Ok == markdown(self@) is Some,
            r matches Err(e) ==> e is Yaml,
            r matches Ok(s) ==> markdown(self@) == Some(s@),
            r matches Ok(s) ==> keeps_its_body(self@, s@),
    {
        if mapping_len(&self.frontmatter) == 0 {
            return Ok(self.body.clone());
        }
        match emit(&self.frontmatter) {
            Ok(yaml) => {
                proof {
                    if yaml@.last() == '\n' {
                        written_documents_read_back(self@, yaml@);
                    }
                }
                Ok(render_markdown(yaml.as_str(), self.body.as_str()))
            },
            Err(e) => Err(OkfError::Yaml(e)),
        }
    }
}

/// The markdown of frontmatter, written as `yaml`, and a body.
pub fn render_markdown(yaml: &str, body: &str) -> (r: String)
    ensures
        r@ == markdown_with(yaml@, body@),
{
    let mut out = "---\n".to_owned();
    out.append(yaml);
    out.append("---\n");
    out.append(body);
    out
}

/// Reading what was written gives the body back, and the frontmatter as the text that
/// was written for it is read; where that text is a block of whole lines, none of which
/// closes the frontmatter.
pub proof fn reading_gives_back_what_was_written(yaml: Seq<char>, body: Seq<char>)
    requires
        yaml.len() > 0,
        yaml.last() == '\n',
        !contains(yaml, "\n---\n"@),
    ensures
        document(markdown_with(yaml, body)).body == body,
        document(markdown_with(yaml, body)).frontmatter == match parsed(yaml.drop_last()) {
            Some(m) => m,
            None => Seq::empty(),
        },
{
    reveal_strlit("---\n");
    reveal_strlit("\n---\n");
    let open = "---\n"@;
    let delim = "\n---\n"@;
    let content = markdown_with(yaml, body);
    let rest = yaml + open + body;
    let n = yaml.len() - 1;
    assert(content =~= open + rest);
    assert(content.subrange(0, 4) =~= open);
    assert(content.skip(4) =~= rest);
    assert(after_open(content) == Some(rest));
    assert(rest.subrange(n, n + 5) =~= delim);
    assert(occurs_at(rest, delim, n));
    assert forall|i: int| 0 <= i < n implies !occurs_at(rest, delim, i) by {
        if occurs_at(rest, delim, i) {
            let s = rest.subrange(i, i + 5);
            if i + 5 <= yaml.len() {
                assert(yaml.subrange(i, i + 5) =~= s);
                assert(occurs_at(yaml, delim, i));
                lemma_find_from(yaml, delim, 0);
            } else {
                assert(s[n - i] == rest[n]);
            }
        }
    }
    lemma_find_from(rest, delim, 0);
    assert(find(rest, delim) == Some(n));
    assert(rest.take(n) =~= yaml.drop_last());
    assert(rest.skip(n + 5) =~= body);
}

/// A document with frontmatter that is written and read again has the body that it had; it
/// is the document that it was where its frontmatter, without the last line break, is read
/// as it was written.
pub proof fn written_documents_read_back(doc: DocumentView, yaml: Seq<char>)
    requires
        doc.frontmatter.len() > 0,
        emitted(doc.frontmatter) == Some(yaml),
        yaml.len() > 0,
        yaml.last() == '\n',
        !contains(yaml, "\n---\n"@),
    ensures
        markdown(doc) matches Some(s) && document(s).body == doc.body,
        parsed(yaml.drop_last()) == Some(doc.frontmatter) ==> document(markdown(doc)->0) == doc,
{
    reading_gives_back_what_was_written(yaml, doc.body);
}

/// A document without frontmatter is written as its body, which reads back as it was
/// where it does not itself begin with frontmatter.
pub proof fn body_alone_reads_back(body: Seq<char>)
    requires
        sections(body) is None,
    ensures
        markdown(DocumentView { frontmatter: Seq::empty(), body }) == Some(body),
        document(body) == (DocumentView { frontmatter: Seq::empty(), body }),
{
}

} // verus!
