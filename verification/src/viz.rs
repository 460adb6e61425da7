//! The graph of a bundle, and the page that shows it.
//!
//! Every bundle document but an index is a node; a link from one to another is an edge.
//! The graph is written as JSON into a page template. No `<` stands in that JSON, so that
//! no document can end the element that holds it.

use crate::bundle::{frontmatter_str, text_at};
use crate::frontmatter::{document, Document};
use crate::json::{
    array_value, json, json_text, number_value, object, object_value, pairs_view, push_pair,
    string_value, text_array, text_array_value, write_json, Json,
};
use crate::okf::OkfError;
use crate::path::{
    beyond, components, components_of, file_name, is_under, last_index, last_index_of,
    lemma_last_index_of, name_of, relative_components,
};
use crate::sorted::{KeyOrder, SortedMap};
use crate::text::{
    byte_len, byte_length, chars_of, ends, ends_with, find_from, has_text, join, joined,
    lemma_find_from, position_from, push_chars, same, string_of, texts, trim_end, trim_start,
    trimmed_end, trimmed_start, CharSet,
};
use crate::yaml::{
    emit_value, emitted_value, get_text, is_null, items_of, pairs, plain_text, scalar_of, untagged,
    value_of, yaml, Pairs, Yaml,
};
use serde_yaml_ng::Mapping;
use vstd::prelude::*;
use vstd::slice::slice_subrange;

verus! {

/// Counts of a rendered graph.
#[derive(Debug, Clone, Copy, PartialEq, Eq, Structural)]
pub struct VizStats {
    /// Number of concept nodes written.
    pub concepts: usize,
    /// Number of edges written.
    pub edges: usize,
    /// Size of the generated HTML, in bytes.
    pub bytes: usize,
}

/// A rendered visualization document: the HTML and its counts.
#[derive(Debug, Clone)]
pub struct VizDoc {
    /// The HTML.
    pub html: String,
    /// Counts for the rendered graph.
    pub stats: VizStats,
}

/// A single concept: one bundle document that is not an index.
pub struct Concept {
    pub id: String,
    pub ty: String,
    pub title: String,
    pub description: String,
    pub resource: String,
    pub tags: Vec<String>,
    pub body: String,
    pub links_to: Vec<String>,
}

/// What a [`Concept`] holds.
pub struct ConceptView {
    pub id: Seq<char>,
    pub ty: Seq<char>,
    pub title: Seq<char>,
    pub description: Seq<char>,
    pub resource: Seq<char>,
    pub tags: Seq<Seq<char>>,
    pub body: Seq<char>,
    pub links_to: Seq<Seq<char>>,
}

impl View for Concept {
    type V = ConceptView;

    open spec fn view(&self) -> ConceptView {
        ConceptView {
            id: self.id@,
            ty: self.ty@,
            title: self.title@,
            description: self.description@,
            resource: self.resource@,
            tags: texts(self.tags@),
            body: self.body@,
            links_to: texts(self.links_to@),
        }
    }
}

/// What some concepts hold.
pub open spec fn concepts_view(v: Seq<Concept>) -> Seq<ConceptView> {
    v.map_values(|c: Concept| c@)
}

// ------------------------------------------------------------------------- links

/// A link to a bundle document, with or without an anchor; the document is captured.
pub const LINK_PATTERN: &'static str =
    "\\]\\((/[A-Za-z0-9_./-]+\\.md)(?:#[A-Za-z0-9_-]*)?\\)";

/// What the first group of a pattern captures in each of its matches in a text; `None`
/// for a pattern that is not a regular expression.
pub uninterp spec fn captured(pattern: Seq<char>, text: Seq<char>) -> Option<Seq<Seq<char>>>;

/// `Regex::new` and `Regex::captures_iter`: the texts that the first group captures in
/// the matches of a pattern, in their order, the empty text where it takes no part. They
/// are a function of pattern and text, named [`captured`].
#[verifier::external_body]
pub(crate) fn captures(pattern: &str, text: &str) -> (r: Option<Vec<String>>)
    ensures
        r is Some == captured(pattern@, text@) is Some,
        r matches Some(v) ==> captured(pattern@, text@) == Some(texts(v@)),
{
    let re = regex::Regex::new(pattern).ok()?;
    let groups = re.captures_iter(text).map(|c| c.get(1).map_or("", |m| m.as_str()).to_owned());
    Some(groups.collect())
}

/// The concept that a link target names: without the slashes at its start and the `.md`
/// at its end.
pub open spec fn target_id(target: Seq<char>) -> Seq<char> {
    let t = trim_start(target, CharSet::Only('/'));
    if ends(t, ".md"@) {
        t.take(t.len() - ".md"@.len())
    } else {
        t
    }
}

/// The concepts that link targets name, each once, in the order of their first mention.
pub open spec fn linked_ids(targets: Seq<Seq<char>>) -> Seq<Seq<char>>
    decreases targets.len(),
{
    if targets.len() == 0 {
        Seq::empty()
    } else {
        let before = linked_ids(targets.drop_last());
        let id = target_id(targets.last());
        if id.len() == 0 || before.contains(id) {
            before
        } else {
            before.push(id)
        }
    }
}

/// The concepts that a body links to.
pub open spec fn links_of(body: Seq<char>) -> Seq<Seq<char>> {
    match captured(LINK_PATTERN@, body) {
        Some(targets) => linked_ids(targets),
        None => Seq::empty(),
    }
}

fn id_of_target(target: &str) -> (r: String)
    ensures
        r@ == target_id(target@),
{
    let cs = chars_of(target);
    let t = trimmed_start(cs.as_slice(), CharSet::Only('/'));
    let suffix = chars_of(".md");
    if ends_with(t, suffix.as_slice()) {
        let id = slice_subrange(t, 0, t.len() - suffix.len());
        assert(id@ =~= t@.take(t@.len() - ".md"@.len()));
        string_of(id)
    } else {
        string_of(t)
    }
}

/// The concepts that link targets name, each once, in the order of their first mention.
pub fn linked(targets: &Vec<String>) -> (r: Vec<String>)
    ensures
        texts(r@) == linked_ids(texts(targets@)),
{
    let ghost all = texts(targets@);
    let mut out: Vec<String> = Vec::new();
    let mut i: usize = 0;
    proof {
        assert(all.take(0) =~= Seq::empty());
        assert(texts(out@) =~= linked_ids(all.take(0)));
    }
    while i < targets.len()
        invariant
            i <= targets@.len(),
            all == texts(targets@),
            texts(out@) == linked_ids(all.take(i as int)),
        decreases targets.len() - i,
    {
        let ghost before = out@;
        proof {
            assert(all.take(i + 1).drop_last() =~= all.take(i as int));
            assert(all.take(i + 1).last() == targets@[i as int]@);
        }
        let id = id_of_target(targets[i].as_str());
        if chars_of(id.as_str()).len() > 0 && !has_text(&out, id.as_str()) {
            out.push(id);
            assert(texts(out@) =~= texts(before).push(id@));
        }
        i = i + 1;
    }
    assert(all.take(all.len() as int) =~= all);
    out
}

/// The concepts that a body links to, each once, in the order of their first mention.
pub fn extract_links(body: &str) -> (r: Vec<String>)
    ensures
        texts(r@) == links_of(body@),
{
    match captures(LINK_PATTERN, body) {
        Some(targets) => linked(&targets),
        None => {
            let r: Vec<String> = Vec::new();
            assert(texts(r@) =~= Seq::empty());
            r
        },
    }
}

// ---------------------------------------------------------------------- concepts

/// A YAML value as a tag.
pub open spec fn tag_text(v: Yaml) -> Seq<char> {
    match plain_text(v) {
        Some(s) => s,
        None => match emitted_value(v) {
            Some(s) => trim_end(s, CharSet::White),
            None => Seq::empty(),
        },
    }
}

/// The tags of frontmatter: each item of a list, or a single value.
pub open spec fn node_tags(fm: Pairs) -> Seq<Seq<char>> {
    match value_of(fm, Yaml::Text("tags"@)) {
        Some(Yaml::Sequence(items)) => items.map_values(|v: Yaml| tag_text(v)),
        Some(v) => if untagged(v) is Null {
            Seq::empty()
        } else {
            seq![tag_text(v)]
        },
        None => Seq::empty(),
    }
}

fn tag_of(v: &serde_yaml_ng::Value) -> (r: String)
    ensures
        r@ == tag_text(yaml(*v)),
{
    match scalar_of(v) {
        Some(s) => s,
        None => match emit_value(v) {
            Some(s) => string_of(trimmed_end(chars_of(s.as_str()).as_slice(), CharSet::White)),
            None => String::new(),
        },
    }
}

/// The tags of frontmatter: each item of a list, or a single value.
pub fn fm_tags(fm: &Mapping) -> (r: Vec<String>)
    ensures
        texts(r@) == node_tags(pairs(*fm)),
{
    let mut out: Vec<String> = Vec::new();
    assert(texts(out@) =~= Seq::empty());
    let v = match get_text(fm, "tags") {
        Some(v) => v,
        None => {
            return out;
        },
    };
    match items_of(v) {
        Some(items) => {
            let mut i: usize = 0;
            while i < items.len()
                invariant
                    i <= items@.len(),
                    out@.len() == i,
                    forall|k: int|
                        0 <= k < i ==> (#[trigger] out@[k])@ == tag_text(yaml(items@[k])),
                decreases items.len() - i,
            {
                out.push(tag_of(&items[i]));
                i = i + 1;
            }
            proof {
                let ys = items@.map_values(|i: serde_yaml_ng::Value| yaml(i));
                assert(texts(out@) =~= ys.map_values(|v: Yaml| tag_text(v)));
            }
            out
        },
        None => {
            if !is_null(v) {
                out.push(tag_of(v));
                assert(texts(out@) =~= seq![tag_text(yaml(*v))]);
            }
            out
        },
    }
}

/// A file's name with its extension taken off. What would be left of `..` and its like is
/// no file's name, but that of the directory above: there both dots stay.
pub open spec fn stem_of(name: Seq<char>) -> Seq<char> {
    let dot = last_index_of(name, '.');
    if dot <= 0 {
        name
    } else if name.take(dot) == "."@ {
        ".."@
    } else {
        name.take(dot)
    }
}

/// The components of a path with the extension of the last one taken off.
pub open spec fn without_extension(cs: Seq<Seq<char>>) -> Seq<Seq<char>> {
    if cs.len() == 0 {
        cs
    } else {
        cs.drop_last().push(stem_of(cs.last()))
    }
}

/// The concept id of a bundle file: its path in the bundle, without the extension.
pub open spec fn concept_id_of(root: Seq<char>, path: Seq<char>) -> Seq<char> {
    let cs = if is_under(path, root) {
        beyond(path, root)
    } else {
        components(path)
    };
    join(without_extension(cs), "/"@)
}

/// The text that frontmatter gives a key, or another.
pub open spec fn text_or(fm: Pairs, key: Seq<char>, other: Seq<char>) -> Seq<char> {
    match text_at(fm, key) {
        Some(s) => s,
        None => other,
    }
}

/// The concept of a bundle file.
pub open spec fn concept_of(root: Seq<char>, path: Seq<char>, content: Seq<char>) -> ConceptView {
    let doc = document(content);
    let id = concept_id_of(root, path);
    ConceptView {
        id,
        ty: text_or(doc.frontmatter, "type"@, "Unknown"@),
        title: text_or(doc.frontmatter, "title"@, id),
        description: text_or(doc.frontmatter, "description"@, Seq::empty()),
        resource: text_or(doc.frontmatter, "resource"@, Seq::empty()),
        tags: node_tags(doc.frontmatter),
        body: doc.body,
        links_to: links_of(doc.body),
    }
}

/// Whether a bundle file is an index.
pub open spec fn is_index(path: Seq<char>) -> bool {
    name_of(path) == Some("index.md"@)
}

/// The concepts of some bundle files: all but the indexes, in their order.
pub open spec fn concepts_of(root: Seq<char>, files: Seq<(String, String)>) -> Seq<ConceptView>
    decreases files.len(),
{
    if files.len() == 0 {
        Seq::empty()
    } else {
        let before = concepts_of(root, files.drop_last());
        let (path, content) = files.last();
        if is_index(path@) {
            before
        } else {
            before.push(concept_of(root, path@, content@))
        }
    }
}

fn stem(name: &str) -> (r: String)
    ensures
        r@ == stem_of(name@),
{
    proof {
        lemma_last_index_of(name@, '.');
        reveal_strlit(".");
    }
    let chars = chars_of(name);
    match last_index(chars.as_slice(), '.') {
        Some(dot) => if dot == 0 {
            name.to_owned()
        } else if dot == 1 && chars[0] == '.' {
            assert(name@.take(1) =~= "."@);
            "..".to_owned()
        } else {
            let s = slice_subrange(chars.as_slice(), 0, dot);
            assert(s@ =~= name@.take(dot as int));
            assert(name@.take(dot as int) != "."@) by {
                if name@.take(dot as int) == "."@ {
                    assert(name@.take(dot as int)[0] == name@[0]);
                }
            }
            string_of(s)
        },
        None => name.to_owned(),
    }
}

fn concept_id(root: &str, path: &str) -> (r: String)
    ensures
        r@ == concept_id_of(root@, path@),
{
    let mut parts = match relative_components(path, root) {
        Some(parts) => parts,
        None => components_of(path),
    };
    let ghost cs = texts(parts@);
    assert(cs.len() == parts@.len());
    match parts.pop() {
        Some(name) => {
            let ghost rest = texts(parts@);
            assert(cs.last() == name@);
            assert(rest =~= cs.drop_last());
            parts.push(stem(name.as_str()));
            assert(texts(parts@) =~= without_extension(cs));
        },
        None => {},
    }
    joined(parts.as_slice(), "/")
}

fn text_for(fm: &Mapping, key: &str, other: &str) -> (r: String)
    ensures
        r@ == text_or(pairs(*fm), key@, other@),
{
    match frontmatter_str(fm, key) {
        Some(s) => s,
        None => other.to_owned(),
    }
}

fn concept(root: &str, path: &str, content: &str) -> (r: Concept)
    ensures
        r@ == concept_of(root@, path@, content@),
{
    let id = concept_id(root, path);
    let doc = Document::parse(content);
    let fm = &doc.frontmatter;
    proof {
        reveal_strlit("");
        assert(""@ =~= Seq::empty());
    }
    Concept {
        ty: text_for(fm, "type", "Unknown"),
        title: text_for(fm, "title", id.as_str()),
        description: text_for(fm, "description", ""),
        resource: text_for(fm, "resource", ""),
        tags: fm_tags(fm),
        links_to: extract_links(doc.body.as_str()),
        body: doc.body.clone(),
        id,
    }
}

/// The concepts of the files of a bundle (path to content, in the order of the paths):
/// all but the indexes.
pub fn walk_concepts(root: &str, files: &SortedMap<String>) -> (r: Vec<Concept>)
    ensures
        concepts_view(r@) == concepts_of(root@, files.entries@),
{
    let ghost all = files.entries@;
    let mut out: Vec<Concept> = Vec::new();
    let mut i: usize = 0;
    proof {
        assert(all.take(0) =~= Seq::empty());
        assert(concepts_view(out@) =~= Seq::empty());
    }
    while i < files.entries.len()
        invariant
            i <= files.entries@.len(),
            all == files.entries@,
            concepts_view(out@) == concepts_of(root@, all.take(i as int)),
        decreases files.entries.len() - i,
    {
        let ghost before = out@;
        let path = files.entries[i].0.as_str();
        proof {
            assert(all.take(i + 1).drop_last() =~= all.take(i as int));
            assert(all.take(i + 1).last() == all[i as int]);
        }
        let skip = match file_name(path) {
            Some(name) => same(name.as_str(), "index.md"),
            None => false,
        };
        if !skip {
            let c = concept(root, path, files.entries[i].1.as_str());
            out.push(c);
            assert(concepts_view(out@) =~= concepts_view(before).push(c@));
        }
        i = i + 1;
    }
    assert(all.take(all.len() as int) =~= all);
    out
}

// ------------------------------------------------------------------------- graph

/// The colour of a node by the type of its concept.
pub open spec fn color_of(ty: Seq<char>) -> Seq<char> {
    if ty == "BigQuery Dataset"@ {
        "#8b5cf6"@
    } else if ty == "BigQuery Table"@ {
        "#3b82f6"@
    } else if ty == "Reference"@ {
        "#10b981"@
    } else {
        "#94a3b8"@
    }
}

/// The colour of a node by the type of its concept.
pub fn palette_color(ty: &str) -> (r: &'static str)
    ensures
        r@ == color_of(ty@),
{
    if same(ty, "BigQuery Dataset") {
        "#8b5cf6"
    } else if same(ty, "BigQuery Table") {
        "#3b82f6"
    } else if same(ty, "Reference") {
        "#10b981"
    } else {
        "#94a3b8"
    }
}

/// The size of a node by the length of its body, which counts up to a limit.
pub open spec fn size_of(body: Seq<char>) -> nat {
    30 + if body.len() / 200 < 60 {
        body.len() / 200
    } else {
        60
    }
}

/// What the node of a concept says.
pub open spec fn node_data(c: ConceptView) -> Seq<(Seq<char>, Json)> {
    let label = if c.title.len() == 0 {
        c.id
    } else {
        c.title
    };
    seq![
        ("id"@, Json::Text(c.id)),
        ("label"@, Json::Text(label)),
        ("type"@, Json::Text(c.ty)),
        ("description"@, Json::Text(c.description)),
        ("resource"@, Json::Text(c.resource)),
        ("tags"@, text_array(c.tags)),
        ("color"@, Json::Text(color_of(c.ty))),
        ("size"@, Json::Number(size_of(c.body))),
    ]
}

/// What the edge of a link says.
pub open spec fn edge_data(e: (Seq<char>, Seq<char>)) -> Seq<(Seq<char>, Json)> {
    seq![
        ("id"@, Json::Text(e.0 + "__"@ + e.1)),
        ("source"@, Json::Text(e.0)),
        ("target"@, Json::Text(e.1)),
    ]
}

/// An element of the graph.
pub open spec fn element(data: Seq<(Seq<char>, Json)>) -> Json {
    object(seq![("data"@, object(data))])
}

/// Whether a concept has the id.
pub open spec fn has_concept(cs: Seq<ConceptView>, id: Seq<char>) -> bool {
    exists|i: int| 0 <= i < cs.len() && (#[trigger] cs[i]).id == id
}

/// The edges of a graph after the first `n` links of a concept, given those before.
pub open spec fn edges_with(
    all: Seq<ConceptView>,
    before: Seq<(Seq<char>, Seq<char>)>,
    c: ConceptView,
    n: int,
) -> Seq<(Seq<char>, Seq<char>)>
    decreases n,
{
    if n <= 0 {
        before
    } else {
        let so_far = edges_with(all, before, c, n - 1);
        let target = c.links_to[n - 1];
        if target == c.id || !has_concept(all, target) || so_far.contains((c.id, target)) {
            so_far
        } else {
            so_far.push((c.id, target))
        }
    }
}

/// The edges of a graph: a link from one of the first `n` concepts to another, each once.
pub open spec fn edges_of(all: Seq<ConceptView>, n: int) -> Seq<(Seq<char>, Seq<char>)>
    decreases n,
{
    if n <= 0 {
        Seq::empty()
    } else {
        edges_with(all, edges_of(all, n - 1), all[n - 1], all[n - 1].links_to.len() as int)
    }
}

/// The bodies of concepts by their ids.
pub open spec fn bodies_json(cs: Seq<ConceptView>) -> Json {
    object(cs.map_values(|c: ConceptView| (c.id, Json::Text(c.body))))
}

/// The colours by type.
pub open spec fn palette() -> Seq<(Seq<char>, Json)> {
    seq![
        ("BigQuery Dataset"@, Json::Text("#8b5cf6"@)),
        ("BigQuery Table"@, Json::Text("#3b82f6"@)),
        ("Reference"@, Json::Text("#10b981"@)),
    ]
}

/// Whether some texts are the types of concepts, each once and in order.
pub open spec fn are_types(ts: Seq<Seq<char>>, cs: Seq<ConceptView>) -> bool {
    &&& forall|i: int, j: int|
        0 <= i < j < ts.len() ==> crate::text::text_lt(#[trigger] ts[i], #[trigger] ts[j])
    &&& forall|t: Seq<char>|
        #[trigger] ts.contains(t) <==> exists|i: int| 0 <= i < cs.len() && (#[trigger] cs[i]).ty == t
}

/// The parts of the graph of concepts, with their types as given.
pub open spec fn graph_parts(cs: Seq<ConceptView>, types: Seq<Seq<char>>) -> Seq<
    (Seq<char>, Json),
> {
    let links = edges_of(cs, cs.len() as int);
    seq![
        ("nodes"@, Json::Array(cs.map_values(|c: ConceptView| element(node_data(c))))),
        (
            "edges"@,
            Json::Array(links.map_values(|e: (Seq<char>, Seq<char>)| element(edge_data(e)))),
        ),
        ("bodies"@, bodies_json(cs)),
        ("types"@, text_array(types)),
        ("palette"@, object(palette())),
    ]
}

/// The graph of concepts, with their types as given.
pub open spec fn graph_json(cs: Seq<ConceptView>, types: Seq<Seq<char>>) -> Json {
    object(graph_parts(cs, types))
}

fn node_value(c: &Concept) -> (r: serde_json::Value)
    ensures
        json(r) == element(node_data(c@)),
{
    let label = if chars_of(c.title.as_str()).len() == 0 {
        c.id.as_str()
    } else {
        c.title.as_str()
    };
    let n: usize = chars_of(c.body.as_str()).len() / 200;
    let size: usize = 30 + if n < 60 {
        n
    } else {
        60
    };
    let mut data: Vec<(String, serde_json::Value)> = Vec::new();
    assert(pairs_view(data@) =~= Seq::empty());
    push_pair(&mut data, "id", string_value(c.id.as_str()));
    push_pair(&mut data, "label", string_value(label));
    push_pair(&mut data, "type", string_value(c.ty.as_str()));
    push_pair(&mut data, "description", string_value(c.description.as_str()));
    push_pair(&mut data, "resource", string_value(c.resource.as_str()));
    push_pair(&mut data, "tags", text_array_value(&c.tags));
    push_pair(&mut data, "color", string_value(palette_color(c.ty.as_str())));
    push_pair(&mut data, "size", number_value(size as u64));
    assert(pairs_view(data@) =~= node_data(c@));
    wrapped(data)
}

fn wrapped(data: Vec<(String, serde_json::Value)>) -> (r: serde_json::Value)
    ensures
        json(r) == element(pairs_view(data@)),
{
    let mut outer: Vec<(String, serde_json::Value)> = Vec::new();
    assert(pairs_view(outer@) =~= Seq::empty());
    let inner = object_value(data);
    push_pair(&mut outer, "data", inner);
    assert(pairs_view(outer@) =~= seq![("data"@, json(inner))]);
    object_value(outer)
}

/// A link of the graph.
#[derive(Debug)]
pub struct Edge {
    pub source: String,
    pub target: String,
}

/// What some edges say.
pub open spec fn edges_view(v: Seq<Edge>) -> Seq<(Seq<char>, Seq<char>)> {
    v.map_values(|e: Edge| (e.source@, e.target@))
}

fn edge_value(e: &Edge) -> (r: serde_json::Value)
    ensures
        json(r) == element(edge_data((e.source@, e.target@))),
{
    let mut id = e.source.clone();
    id.append("__");
    id.append(e.target.as_str());
    let mut data: Vec<(String, serde_json::Value)> = Vec::new();
    assert(pairs_view(data@) =~= Seq::empty());
    push_pair(&mut data, "id", string_value(id.as_str()));
    push_pair(&mut data, "source", string_value(e.source.as_str()));
    push_pair(&mut data, "target", string_value(e.target.as_str()));
    assert(pairs_view(data@) =~= edge_data((e.source@, e.target@)));
    wrapped(data)
}

fn is_concept(cs: &Vec<Concept>, id: &str) -> (r: bool)
    ensures
        r == has_concept(concepts_view(cs@), id@),
{
    let mut i: usize = 0;
    while i < cs.len()
        invariant
            i <= cs@.len(),
            forall|k: int| 0 <= k < i ==> (#[trigger] concepts_view(cs@)[k]).id != id@,
        decreases cs.len() - i,
    {
        if same(cs[i].id.as_str(), id) {
            assert(concepts_view(cs@)[i as int].id == id@);
            return true;
        }
        i = i + 1;
    }
    assert(concepts_view(cs@).len() == cs@.len());
    false
}

fn has_edge(es: &Vec<Edge>, source: &str, target: &str) -> (r: bool)
    ensures
        r == edges_view(es@).contains((source@, target@)),
{
    let mut i: usize = 0;
    while i < es.len()
        invariant
            i <= es@.len(),
            forall|k: int| 0 <= k < i ==> (#[trigger] edges_view(es@)[k]) != (source@, target@),
        decreases es.len() - i,
    {
        if same(es[i].source.as_str(), source) && same(es[i].target.as_str(), target) {
            assert(edges_view(es@)[i as int] == (source@, target@));
            return true;
        }
        assert(edges_view(es@)[i as int] == (es@[i as int].source@, es@[i as int].target@));
        i = i + 1;
    }
    assert(edges_view(es@).len() == es@.len());
    false
}

/// The edges of a graph: a link from one concept to another of the bundle, each once.
pub fn edges(cs: &Vec<Concept>) -> (r: Vec<Edge>)
    ensures
        edges_view(r@) == edges_of(concepts_view(cs@), cs@.len() as int),
{
    let ghost all = concepts_view(cs@);
    let mut out: Vec<Edge> = Vec::new();
    let mut i: usize = 0;
    assert(edges_view(out@) =~= Seq::empty());
    while i < cs.len()
        invariant
            i <= cs@.len(),
            all == concepts_view(cs@),
            edges_view(out@) == edges_of(all, i as int),
        decreases cs.len() - i,
    {
        let c = &cs[i];
        let ghost before = edges_view(out@);
        let ghost links = texts(c.links_to@);
        let mut k: usize = 0;
        assert(all[i as int] == c@);
        while k < c.links_to.len()
            invariant
                k <= c.links_to@.len(),
                all == concepts_view(cs@),
                links == texts(c.links_to@),
                edges_view(out@) == edges_with(all, before, c@, k as int),
            decreases c.links_to.len() - k,
        {
            let target = c.links_to[k].as_str();
            let ghost so_far = out@;
            assert(links[k as int] == target@);
            if !same(target, c.id.as_str()) && is_concept(cs, target) && !has_edge(
                &out,
                c.id.as_str(),
                target,
            ) {
                out.push(Edge { source: c.id.clone(), target: target.to_owned() });
                assert(edges_view(out@) =~= edges_view(so_far).push((c.id@, target@)));
            }
            k = k + 1;
        }
        assert(links.len() == c.links_to@.len());
        i = i + 1;
    }
    out
}

/// The types of concepts, each once and in order.
pub fn types_of(cs: &Vec<Concept>) -> (r: Vec<String>)
    ensures
        are_types(texts(r@), concepts_view(cs@)),
{
    let ghost all = concepts_view(cs@);
    let mut set: SortedMap<()> = SortedMap::new(KeyOrder::Text);
    let mut i: usize = 0;
    while i < cs.len()
        invariant
            i <= cs@.len(),
            all == concepts_view(cs@),
            set.wf(),
            set.order == KeyOrder::Text,
            forall|t: Seq<char>|
                #[trigger] set.lookup(t) is Some <==> exists|k: int|
                    0 <= k < i && (#[trigger] all[k]).ty == t,
        decreases cs.len() - i,
    {
        let ghost before = set;
        set.insert(cs[i].ty.clone(), ());
        proof {
            assert forall|t: Seq<char>|
                #[trigger] set.lookup(t) is Some <==> exists|k: int|
                    0 <= k < i + 1 && (#[trigger] all[k]).ty == t by {
                assert(all[i as int].ty == cs@[i as int].ty@);
                assert(before.lookup(t) is Some <==> exists|k: int|
                    0 <= k < i && (#[trigger] all[k]).ty == t);
            }
        }
        i = i + 1;
    }
    let mut out: Vec<String> = Vec::new();
    let mut k: usize = 0;
    while k < set.entries.len()
        invariant
            k <= set.entries@.len(),
            out@.len() == k,
            forall|n: int| 0 <= n < k ==> (#[trigger] out@[n])@ == set.entries@[n].0@,
        decreases set.entries.len() - k,
    {
        out.push(set.entries[k].0.clone());
        k = k + 1;
    }
    proof {
        let ts = texts(out@);
        assert forall|t: Seq<char>| #[trigger] ts.contains(t) <==> exists|i: int|
            0 <= i < all.len() && (#[trigger] all[i]).ty == t by {
            assert(set.lookup(t) is Some <==> set.has_key(t));
            if ts.contains(t) {
                let n = choose|n: int| 0 <= n < ts.len() && ts[n] == t;
                assert(set.holds_at(t, n));
            }
            if set.has_key(t) {
                let n = choose|n: int| set.holds_at(t, n);
                assert(ts[n] == t);
            }
        }
        assert forall|a: int, b: int| 0 <= a < b < ts.len() implies crate::text::text_lt(
            #[trigger] ts[a],
            #[trigger] ts[b],
        ) by {
            assert(crate::sorted::key_lt(
                KeyOrder::Text,
                set.entries@[a].0@,
                set.entries@[b].0@,
            ));
        }
    }
    out
}

fn palette_value() -> (r: serde_json::Value)
    ensures
        json(r) == object(palette()),
{
    let mut items: Vec<(String, serde_json::Value)> = Vec::new();
    assert(pairs_view(items@) =~= Seq::empty());
    push_pair(&mut items, "BigQuery Dataset", string_value("#8b5cf6"));
    push_pair(&mut items, "BigQuery Table", string_value("#3b82f6"));
    push_pair(&mut items, "Reference", string_value("#10b981"));
    assert(pairs_view(items@) =~= palette());
    object_value(items)
}

/// Builds the graph of concepts: nodes, edges, bodies, types and colours.
pub fn build_graph(cs: &Vec<Concept>, es: &Vec<Edge>, types: &Vec<String>) -> (r: serde_json::Value)
    requires
        edges_view(es@) == edges_of(concepts_view(cs@), cs@.len() as int),
    ensures
        json(r) == graph_json(concepts_view(cs@), texts(types@)),
{
    let ghost all = concepts_view(cs@);
    let mut nodes: Vec<serde_json::Value> = Vec::new();
    let mut bodies: Vec<(String, serde_json::Value)> = Vec::new();
    let mut i: usize = 0;
    while i < cs.len()
        invariant
            i <= cs@.len(),
            all == concepts_view(cs@),
            nodes@.len() == i,
            bodies@.len() == i,
            forall|k: int| 0 <= k < i ==> json(#[trigger] nodes@[k]) == element(node_data(all[k])),
            forall|k: int|
                0 <= k < i ==> (#[trigger] bodies@[k]).0@ == all[k].id && json(bodies@[k].1)
                    == Json::Text(all[k].body),
        decreases cs.len() - i,
    {
        nodes.push(node_value(&cs[i]));
        bodies.push((cs[i].id.clone(), string_value(cs[i].body.as_str())));
        i = i + 1;
    }
    let ghost links = edges_view(es@);
    let mut edges: Vec<serde_json::Value> = Vec::new();
    let mut n: usize = 0;
    while n < es.len()
        invariant
            n <= es@.len(),
            links == edges_view(es@),
            edges@.len() == n,
            forall|k: int| 0 <= k < n ==> json(#[trigger] edges@[k]) == element(
                edge_data(links[k]),
            ),
        decreases es.len() - n,
    {
        edges.push(edge_value(&es[n]));
        n = n + 1;
    }
    proof {
        let f = |v: serde_json::Value| json(v);
        assert(nodes@.map_values(f) =~= all.map_values(
            |c: ConceptView| element(node_data(c)),
        ));
        assert(edges@.map_values(f) =~= links.map_values(
            |e: (Seq<char>, Seq<char>)| element(edge_data(e)),
        ));
        assert(pairs_view(bodies@) =~= all.map_values(
            |c: ConceptView| (c.id, Json::Text(c.body)),
        ));
    }
    let mut graph: Vec<(String, serde_json::Value)> = Vec::new();
    assert(pairs_view(graph@) =~= Seq::empty());
    push_pair(&mut graph, "nodes", array_value(nodes));
    push_pair(&mut graph, "edges", array_value(edges));
    push_pair(&mut graph, "bodies", object_value(bodies));
    push_pair(&mut graph, "types", text_array_value(types));
    push_pair(&mut graph, "palette", palette_value());
    assert(pairs_view(graph@) =~= graph_parts(all, texts(types@)));
    object_value(graph)
}

// -------------------------------------------------------------------------- page

/// A text with every `<` written as a JSON escape.
pub open spec fn escaped(s: Seq<char>) -> Seq<char>
    decreases s.len(),
{
    if s.len() == 0 {
        s
    } else if s.last() == '<' {
        escaped(s.drop_last()) + "\\u003c"@
    } else {
        escaped(s.drop_last()).push(s.last())
    }
}

/// A text with every occurrence of a token, from `i` on, replaced.
pub open spec fn replaced_from(
    s: Seq<char>,
    token: Seq<char>,
    by: Seq<char>,
    i: int,
) -> Seq<char>
    decreases s.len() - i,
{
    if i < 0 || i > s.len() || token.len() == 0 {
        Seq::empty()
    } else {
        match find_from(s, token, i) {
            Some(k) => {
                proof {
                    lemma_find_from(s, token, i);
                }
                s.subrange(i, k) + by + replaced_from(s, token, by, k + token.len())
            },
            None => s.skip(i),
        }
    }
}

/// A page template with the payload in the place of its token.
pub open spec fn page(template: Seq<char>, payload: Seq<char>) -> Seq<char> {
    replaced_from(template, "__OKF_DATA__"@, payload, 0)
}

/// What is written into the page: the name of the bundle and its graph.
pub open spec fn payload_json(name: Seq<char>, graph: Json) -> Json {
    object(seq![("name"@, Json::Text(name)), ("graph"@, graph)])
}

/// A text with every `<` written as a JSON escape.
pub fn escape_markup(s: &str) -> (r: String)
    ensures
        r@ == escaped(s@),
{
    let cs = chars_of(s);
    let by = chars_of("\\u003c");
    let mut out: Vec<char> = Vec::new();
    let mut i: usize = 0;
    assert(cs@.take(0) =~= Seq::empty());
    while i < cs.len()
        invariant
            i <= cs@.len(),
            by@ == "\\u003c"@,
            out@ == escaped(cs@.take(i as int)),
        decreases cs.len() - i,
    {
        proof {
            assert(cs@.take(i + 1).drop_last() =~= cs@.take(i as int));
            assert(cs@.take(i + 1).last() == cs@[i as int]);
        }
        if cs[i] == '<' {
            push_chars(&mut out, by.as_slice());
        } else {
            out.push(cs[i]);
        }
        i = i + 1;
    }
    assert(cs@.take(cs@.len() as int) =~= cs@);
    string_of(out.as_slice())
}

/// A page template with the payload in the place of its token.
pub fn fill_template(template: &str, payload: &str) -> (r: String)
    ensures
        r@ == page(template@, payload@),
{
    proof {
        reveal_strlit("__OKF_DATA__");
    }
    let s = chars_of(template);
    let token = chars_of("__OKF_DATA__");
    let by = chars_of(payload);
    let mut out: Vec<char> = Vec::new();
    let mut i: usize = 0;
    loop
        invariant_except_break
            i <= s@.len(),
            s@ == template@,
            token@ == "__OKF_DATA__"@,
            token@.len() == 12,
            by@ == payload@,
            out@ + replaced_from(s@, token@, by@, i as int) == page(template@, payload@),
        ensures
            out@ == page(template@, payload@),
        decreases s@.len() - i,
    {
        let ghost before = out@;
        match position_from(s.as_slice(), token.as_slice(), i) {
            Some(k) => {
                proof {
                    lemma_find_from(s@, token@, i as int);
                }
                push_chars(&mut out, slice_subrange(s.as_slice(), i, k));
                push_chars(&mut out, by.as_slice());
                proof {
                    let more = replaced_from(s@, token@, by@, k + token@.len());
                    let piece = s@.subrange(i as int, k as int);
                    assert(before + (piece + by@ + more) =~= out@ + more);
                }
                assert(k + token.len() <= s.len());
                i = k + token.len();
            },
            None => {
                let rest = slice_subrange(s.as_slice(), i, s.len());
                push_chars(&mut out, rest);
                assert(rest@ =~= s@.skip(i as int));
                break ;
            },
        }
    }
    string_of(out.as_slice())
}

/// Whether a bundle is rendered as a page, or not at all.
pub open spec fn rendered(
    root: Seq<char>,
    files: Seq<(String, String)>,
    name: Seq<char>,
    template: Seq<char>,
    r: Result<VizDoc, OkfError>,
) -> bool {
    let cs = concepts_of(root, files);
    exists|types: Seq<Seq<char>>|
        #![trigger graph_json(cs, types)]
        are_types(types, cs) && {
            let text = json_text(payload_json(name, graph_json(cs, types)));
            match r {
                Ok(doc) => {
                    &&& text is Some
                    &&& doc.html@ == page(template, escaped(text->0))
                    &&& doc.stats.concepts == cs.len()
                    &&& doc.stats.edges == edges_of(cs, cs.len() as int).len()
                    &&& doc.stats.bytes == byte_len(doc.html@)
                },
                Err(e) => e is Json && text is None,
            }
        }
}

/// The page of a bundle's files, under a name.
pub fn render_bundle(
    bundle_root: &str,
    files: &SortedMap<String>,
    name: &str,
    template: &str,
) -> (r: Result<VizDoc, OkfError>)
    ensures
        rendered(bundle_root@, files.entries@, name@, template@, r),
{
    let cs = walk_concepts(bundle_root, files);
    let ghost all = concepts_view(cs@);
    let es = edges(&cs);
    let types = types_of(&cs);
    let graph = build_graph(&cs, &es, &types);
    let mut items: Vec<(String, serde_json::Value)> = Vec::new();
    assert(pairs_view(items@) =~= Seq::empty());
    push_pair(&mut items, "name", string_value(name));
    push_pair(&mut items, "graph", graph);
    assert(pairs_view(items@) =~= seq![
        ("name"@, Json::Text(name@)),
        ("graph"@, graph_json(all, texts(types@))),
    ]);
    let payload = object_value(items);
    proof {
        assert(all.len() == cs@.len());
        assert(edges_view(es@).len() == es@.len());
        assert(are_types(texts(types@), all));
        let chosen = graph_json(all, texts(types@));
    }
    match write_json(&payload) {
        Ok(text) => {
            let html = fill_template(template, escape_markup(text.as_str()).as_str());
            let bytes: usize = byte_length(html.as_str());
            Ok(VizDoc { html, stats: VizStats { concepts: cs.len(), edges: es.len(), bytes } })
        },
        Err(e) => Err(OkfError::Json(e)),
    }
}

/// The name of a bundle: the one that is given, else that of its directory.
pub open spec fn bundle_name_of(
    root: Seq<char>,
    given: Option<Seq<char>>,
    canonical: Option<Seq<char>>,
) -> Seq<char> {
    match given {
        Some(n) => n,
        None => match name_of(
            match canonical {
                Some(c) => c,
                None => root,
            },
        ) {
            Some(n) => n,
            None => Seq::empty(),
        },
    }
}

/// A text that may be missing, as a plain value.
pub open spec fn maybe_text(t: Option<&str>) -> Option<Seq<char>> {
    match t {
        Some(s) => Some(s@),
        None => None,
    }
}

/// The page of the bundle in a directory, of which the files and the canonical path were
/// read; `files` is `None` where there is no such directory.
pub fn render_visualization(
    bundle_root: &str,
    files: Option<&SortedMap<String>>,
    bundle_name: Option<&str>,
    canonical: Option<&str>,
    template: &str,
) -> (r: Result<VizDoc, OkfError>)
    ensures
        match files {
            None => r matches Err(OkfError::BundleNotFound { path }) && path@ == bundle_root@,
            Some(f) => rendered(
                bundle_root@,
                f.entries@,
                bundle_name_of(bundle_root@, maybe_text(bundle_name), maybe_text(canonical)),
                template@,
                r,
            ),
        },
{
    let files = match files {
        Some(f) => f,
        None => {
            return Err(OkfError::BundleNotFound { path: bundle_root.to_owned() });
        },
    };
    let name = match bundle_name {
        Some(n) => n.to_owned(),
        None => {
            let dir = match canonical {
                Some(c) => c,
                None => bundle_root,
            };
            match file_name(dir) {
                Some(n) => n,
                None => {
                    let e = String::new();
                    assert(e@ =~= Seq::empty());
                    e
                },
            }
        },
    };
    render_bundle(bundle_root, files, name.as_str(), template)
}

// -------------------------------------------------------------------------- laws

/// No `<` stands in what is written into the page, so that no document can end the
/// element that holds it.
pub proof fn payload_holds_no_markup(s: Seq<char>, i: int)
    requires
        0 <= i < escaped(s).len(),
    ensures
        escaped(s)[i] != '<',
    decreases s.len(),
{
    reveal_strlit("\\u003c");
    let rest = escaped(s.drop_last());
    if i < rest.len() {
        payload_holds_no_markup(s.drop_last(), i);
    } else if s.last() == '<' {
        assert(escaped(s)[i] == "\\u003c"@[i - rest.len()]);
    }
}

/// No edge leads from a concept to itself or out of the bundle, and none occurs twice.
pub proof fn edges_join_different_concepts(all: Seq<ConceptView>, n: int, k: int)
    requires
        0 <= n <= all.len(),
        0 <= k < edges_of(all, n).len(),
    ensures
        ({
            let e = edges_of(all, n)[k];
            &&& e.0 != e.1
            &&& has_concept(all, e.0)
            &&& has_concept(all, e.1)
            &&& forall|m: int| 0 <= m < k ==> #[trigger] edges_of(all, n)[m] != e
        }),
    decreases n,
{
    let c = all[n - 1];
    let before = edges_of(all, n - 1);
    assert(has_concept(all, c.id));
    assert forall|m: int| 0 <= m < before.len() implies proper_edge(all, before, m) by {
        edges_join_different_concepts(all, n - 1, m);
    }
    lemma_edges_with(all, before, c, c.links_to.len() as int);
    assert(proper_edge(all, edges_of(all, n), k));
}

spec fn proper_edge(
    all: Seq<ConceptView>,
    es: Seq<(Seq<char>, Seq<char>)>,
    k: int,
) -> bool {
    &&& es[k].0 != es[k].1
    &&& has_concept(all, es[k].0)
    &&& has_concept(all, es[k].1)
    &&& forall|m: int| 0 <= m < k ==> #[trigger] es[m] != es[k]
}

proof fn lemma_edges_with(
    all: Seq<ConceptView>,
    before: Seq<(Seq<char>, Seq<char>)>,
    c: ConceptView,
    n: int,
)
    requires
        0 <= n <= c.links_to.len(),
        has_concept(all, c.id),
        forall|k: int| 0 <= k < before.len() ==> proper_edge(all, before, k),
    ensures
        forall|k: int|
            0 <= k < edges_with(all, before, c, n).len() ==> proper_edge(
                all,
                edges_with(all, before, c, n),
                k,
            ),
    decreases n,
{
    if n > 0 {
        lemma_edges_with(all, before, c, n - 1);
        let so_far = edges_with(all, before, c, n - 1);
        let es = edges_with(all, before, c, n);
        assert forall|k: int| 0 <= k < es.len() implies proper_edge(all, es, k) by {
            if k < so_far.len() {
                assert(proper_edge(all, so_far, k));
                assert(es[k] == so_far[k]);
                assert forall|m: int| 0 <= m < k implies #[trigger] es[m] != es[k] by {
                    assert(so_far[m] != so_far[k]);
                }
            } else {
                assert forall|m: int| 0 <= m < k implies #[trigger] es[m] != es[k] by {
                    assert(so_far[m] == es[m]);
                    assert(so_far.contains(so_far[m]));
                }
            }
        }
    }
}

} // verus!
