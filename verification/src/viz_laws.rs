//! What the graph of a bundle is for: every document is a node, every link between two of them
//! an edge, and the page holds all of it.

use crate::bundle::text_at;
use crate::frontmatter::document;
use crate::json::{members, object, Json};
use crate::path::{components, name_of};
use crate::path_laws::{
    are_components, paths_are_called_by_their_last_component,
    paths_have_the_components_they_are_made_of,
};
use crate::text::{contains, ends, find, find_from, join, lemma_find_from, occurs_at, CharSet};
use crate::text_laws::{lemma_last_index_before, made_of, trimming_the_start_takes_off};
use crate::viz::{
    bundle_name_of, captured, color_of, concept_id_of, concept_of, concepts_of, edge_data, edges_of,
    edges_with, element, escaped, graph_json, graph_parts, has_concept, linked_ids, links_of,
    node_data, node_tags, page, palette, replaced_from, size_of, tag_text, target_id, ConceptView,
    LINK_PATTERN,
};
use crate::yaml::{value_of, Pairs, Yaml};
use vstd::prelude::*;

verus! {

// ------------------------------------------------------------------------------- edges

proof fn lemma_edges_kept(
    all: Seq<ConceptView>,
    before: Seq<(Seq<char>, Seq<char>)>,
    c: ConceptView,
    n: int,
    e: (Seq<char>, Seq<char>),
)
    requires
        before.contains(e),
    ensures
        edges_with(all, before, c, n).contains(e),
    decreases n,
{
    if n > 0 {
        lemma_edges_kept(all, before, c, n - 1, e);
        let so_far = edges_with(all, before, c, n - 1);
        let i = choose|i: int| 0 <= i < so_far.len() && so_far[i] == e;
        assert(edges_with(all, before, c, n)[i] == e);
    }
}

proof fn lemma_edge_of_link(
    all: Seq<ConceptView>,
    before: Seq<(Seq<char>, Seq<char>)>,
    c: ConceptView,
    n: int,
    j: int,
)
    requires
        0 <= j < n <= c.links_to.len(),
        c.links_to[j] != c.id,
        has_concept(all, c.links_to[j]),
    ensures
        edges_with(all, before, c, n).contains((c.id, c.links_to[j])),
    decreases n,
{
    let so_far = edges_with(all, before, c, n - 1);
    let e = (c.id, c.links_to[j]);
    if j < n - 1 {
        lemma_edge_of_link(all, before, c, n - 1, j);
        let i = choose|i: int| 0 <= i < so_far.len() && so_far[i] == e;
        assert(edges_with(all, before, c, n)[i] == e);
    } else if !so_far.contains(e) {
        assert(edges_with(all, before, c, n)[so_far.len() as int] == e);
    }
}

proof fn lemma_edges_of_kept(all: Seq<ConceptView>, m: int, n: int, e: (Seq<char>, Seq<char>))
    requires
        m <= n,
        edges_of(all, m).contains(e),
    ensures
        edges_of(all, n).contains(e),
    decreases n - m,
{
    if m < n {
        lemma_edges_of_kept(all, m, n - 1, e);
        if n > 0 {
            lemma_edges_kept(
                all,
                edges_of(all, n - 1),
                all[n - 1],
                all[n - 1].links_to.len() as int,
                e,
            );
        }
    }
}

/// Every link of a concept to another concept of the bundle is an edge of the graph.
pub proof fn every_link_is_an_edge(all: Seq<ConceptView>, i: int, j: int, k: int)
    requires
        0 <= i < all.len(),
        0 <= j < all[i].links_to.len(),
        0 <= k < all.len(),
        all[i].links_to[j] == all[k].id,
        all[k].id != all[i].id,
    ensures
        edges_of(all, all.len() as int).contains((all[i].id, all[k].id)),
{
    let c = all[i];
    let before = edges_of(all, i);
    assert(has_concept(all, all[k].id));
    lemma_edge_of_link(all, before, c, c.links_to.len() as int, j);
    assert(edges_of(all, i + 1).contains((c.id, all[k].id)));
    lemma_edges_of_kept(all, i + 1, all.len() as int, (c.id, all[k].id));
}

proof fn lemma_edge_has_link(
    all: Seq<ConceptView>,
    before: Seq<(Seq<char>, Seq<char>)>,
    c: ConceptView,
    n: int,
    e: (Seq<char>, Seq<char>),
)
    requires
        n <= c.links_to.len(),
        edges_with(all, before, c, n).contains(e),
    ensures
        before.contains(e) || (e.0 == c.id && c.links_to.contains(e.1)),
    decreases n,
{
    if n > 0 {
        let so_far = edges_with(all, before, c, n - 1);
        let es = edges_with(all, before, c, n);
        let i = choose|i: int| 0 <= i < es.len() && es[i] == e;
        if i < so_far.len() {
            assert(so_far[i] == e);
            lemma_edge_has_link(all, before, c, n - 1, e);
        } else {
            assert(c.links_to[n - 1] == e.1);
        }
    }
}

/// Every edge of the graph is a link of the concept that it comes from.
pub proof fn every_edge_is_a_link(all: Seq<ConceptView>, n: int, e: (Seq<char>, Seq<char>))
    requires
        0 <= n <= all.len(),
        edges_of(all, n).contains(e),
    ensures
        exists|i: int|
            0 <= i < n && (#[trigger] all[i]).id == e.0 && all[i].links_to.contains(e.1),
    decreases n,
{
    if n > 0 {
        let c = all[n - 1];
        lemma_edge_has_link(all, edges_of(all, n - 1), c, c.links_to.len() as int, e);
        if edges_of(all, n - 1).contains(e) {
            every_edge_is_a_link(all, n - 1, e);
            let i = choose|i: int|
                0 <= i < n - 1 && (#[trigger] all[i]).id == e.0 && all[i].links_to.contains(e.1);
            assert(all[i].id == e.0);
        } else {
            assert(all[n - 1].id == e.0);
        }
    }
}

// ------------------------------------------------------------------------------- links

/// A link target names the concept whose file it is: all of its path without the slashes before
/// it and without `.md`.
pub proof fn targets_name_their_concept(slashes: Seq<char>, id: Seq<char>)
    requires
        made_of(slashes, CharSet::Only('/')),
        id.len() > 0,
        id[0] != '/',
    ensures
        target_id(slashes + id + ".md"@) == id,
        !ends(id, ".md"@) ==> target_id(slashes + id) == id,
{
    let t = id + ".md"@;
    assert(slashes + id + ".md"@ =~= slashes + t);
    trimming_the_start_takes_off(slashes, t, CharSet::Only('/'));
    assert(t.subrange(t.len() - ".md"@.len(), t.len() as int) =~= ".md"@);
    assert(t.take(t.len() - ".md"@.len()) =~= id);
    trimming_the_start_takes_off(slashes, id, CharSet::Only('/'));
}

/// Whether some target names a concept.
pub open spec fn names(targets: Seq<Seq<char>>, id: Seq<char>) -> bool {
    exists|k: int| 0 <= k < targets.len() && target_id(#[trigger] targets[k]) == id
}

/// Every concept that a target names is among those that a body links to, and there is no other;
/// none is there twice.
pub proof fn every_target_is_linked(targets: Seq<Seq<char>>)
    ensures
        forall|k: int|
            0 <= k < targets.len() && target_id(#[trigger] targets[k]).len() > 0 ==> linked_ids(
                targets,
            ).contains(target_id(targets[k])),
        forall|i: int|
            0 <= i < linked_ids(targets).len() ==> names(
                targets,
                #[trigger] linked_ids(targets)[i],
            ),
        linked_ids(targets).no_duplicates(),
    decreases targets.len(),
{
    if targets.len() > 0 {
        let rest = targets.drop_last();
        every_target_is_linked(rest);
        let before = linked_ids(rest);
        let all = linked_ids(targets);
        assert forall|k: int|
            0 <= k < targets.len() && target_id(#[trigger] targets[k]).len()
                > 0 implies all.contains(target_id(targets[k])) by {
            let id = target_id(targets[k]);
            if k < rest.len() {
                assert(rest[k] == targets[k]);
                let i = choose|i: int| 0 <= i < before.len() && before[i] == id;
                assert(all[i] == id);
            } else if !before.contains(id) {
                assert(all[before.len() as int] == id);
            }
        }
        assert forall|i: int| 0 <= i < all.len() implies names(targets, #[trigger] all[i]) by {
            if i < before.len() {
                assert(all[i] == before[i]);
                assert(names(rest, before[i]));
                let k = choose|k: int|
                    0 <= k < rest.len() && target_id(#[trigger] rest[k]) == before[i];
                assert(target_id(targets[k]) == all[i]);
            } else {
                assert(target_id(targets[targets.len() - 1]) == all[i]);
            }
        }
    }
}

/// A bundle whose documents link to each other: where a target in the body of one names another,
/// there is an edge between the two. `targets` is what the body's links lead to.
pub proof fn links_between_documents_are_edges(
    all: Seq<ConceptView>,
    i: int,
    targets: Seq<Seq<char>>,
    slashes: Seq<char>,
    k: int,
)
    requires
        0 <= i < all.len(),
        all[i].links_to == linked_ids(targets),
        0 <= k < all.len(),
        made_of(slashes, CharSet::Only('/')),
        all[k].id.len() > 0,
        all[k].id[0] != '/',
        targets.contains(slashes + all[k].id + ".md"@),
        all[k].id != all[i].id,
    ensures
        edges_of(all, all.len() as int).contains((all[i].id, all[k].id)),
{
    let id = all[k].id;
    targets_name_their_concept(slashes, id);
    every_target_is_linked(targets);
    let n = choose|n: int| 0 <= n < targets.len() && targets[n] == slashes + id + ".md"@;
    assert(target_id(targets[n]) == id);
    let j = choose|j: int| 0 <= j < all[i].links_to.len() && all[i].links_to[j] == id;
    every_link_is_an_edge(all, i, j, k);
}

// ---------------------------------------------------------------------------- concepts

/// What a concept says of a document: what its frontmatter says, and where that is silent, that
/// it is of no known type and is called by its id.
pub proof fn concepts_say_what_documents_say(
    root: Seq<char>,
    path: Seq<char>,
    content: Seq<char>,
)
    ensures
        ({
            let c = concept_of(root, path, content);
            let doc = document(content);
            let fm = doc.frontmatter;
            &&& c.body == doc.body
            &&& text_at(fm, "type"@) matches Some(t) ==> c.ty == t
            &&& text_at(fm, "type"@) is None ==> c.ty == "Unknown"@
            &&& text_at(fm, "title"@) matches Some(t) ==> c.title == t
            &&& text_at(fm, "title"@) is None ==> c.title == c.id
            &&& text_at(fm, "description"@) matches Some(t) ==> c.description == t
            &&& text_at(fm, "description"@) is None ==> c.description.len() == 0
            &&& text_at(fm, "resource"@) matches Some(t) ==> c.resource == t
            &&& text_at(fm, "resource"@) is None ==> c.resource.len() == 0
            &&& c.links_to == links_of(doc.body)
        }),
{
}

/// The tags of a node are those that the frontmatter lists, all of them and in their order, or
/// the one that it gives.
pub proof fn nodes_have_every_tag(fm: Pairs, tags: Seq<Seq<char>>, one: Seq<char>)
    ensures
        value_of(fm, Yaml::Text("tags"@)) == Some(
            Yaml::Sequence(Seq::new(tags.len(), |i: int| Yaml::Text(tags[i]))),
        ) ==> node_tags(fm) == tags,
        value_of(fm, Yaml::Text("tags"@)) == Some(Yaml::Text(one)) ==> node_tags(fm) == seq![one],
        value_of(fm, Yaml::Text("tags"@)) is None ==> node_tags(fm).len() == 0,
{
    let items = Seq::new(tags.len(), |i: int| Yaml::Text(tags[i]));
    assert(items.map_values(|v: Yaml| tag_text(v)) =~= tags);
}

/// A file of a bundle is the concept of its path in the bundle, without `.md`.
pub proof fn files_are_called_by_their_path(
    root: Seq<char>,
    dirs: Seq<Seq<char>>,
    stem: Seq<char>,
)
    requires
        root.len() > 0,
        are_components(dirs),
        stem.len() > 0,
        stem != "."@,
        !stem.contains('/'),
    ensures
        concept_id_of(
            root,
            root + seq!['/'] + join(dirs.push(stem + ".md"@), seq!['/']),
        ) == join(dirs.push(stem), "/"@),
{
    reveal_strlit(".md");
    reveal_strlit(".");
    reveal_strlit("/");
    let name = stem + ".md"@;
    let names = dirs.push(name);
    assert forall|k: int| 0 <= k < names.len() implies (#[trigger] names[k]).len() > 0 && names[k]
        != "."@ && !names[k].contains('/') by {
        if k < dirs.len() {
            assert(names[k] == dirs[k]);
        } else if name.contains('/') {
            let i = choose|i: int| 0 <= i < name.len() && name[i] == '/';
            if i < stem.len() {
                assert(stem[i] == '/');
            } else {
                assert(".md"@[i - stem.len()] == '/');
            }
        }
    }
    paths_have_the_components_they_are_made_of(root, names);
    let path = root + seq!['/'] + join(names, seq!['/']);
    assert(components(root) =~= components(path).subrange(0, components(root).len() as int));
    assert(components(path).skip(components(root).len() as int) =~= names);
    let ext = "md"@;
    reveal_strlit("md");
    assert(name =~= stem + seq!['.'] + ext);
    assert(!ext.contains('.'));
    lemma_last_index_before(stem, '.', ext);
    assert(name.take(stem.len() as int) =~= stem);
    assert(names.drop_last() =~= dirs);
    assert("/"@ =~= seq!['/']);
}

/// The files of a bundle that are not indexes, by their places.
pub open spec fn documents_among(files: Seq<(String, String)>) -> Seq<int>
    decreases files.len(),
{
    if files.len() == 0 {
        Seq::empty()
    } else {
        let before = documents_among(files.drop_last());
        if name_of(files.last().0@) == Some("index.md"@) {
            before
        } else {
            before.push(files.len() - 1)
        }
    }
}

/// Every file but an index is one concept, in the order of the files.
pub proof fn every_document_is_a_concept(root: Seq<char>, files: Seq<(String, String)>)
    ensures
        ({
            let cs = concepts_of(root, files);
            let at = documents_among(files);
            &&& cs.len() == at.len()
            &&& forall|i: int|
                0 <= i < at.len() ==> 0 <= #[trigger] at[i] < files.len() && cs[i] == concept_of(
                    root,
                    files[at[i]].0@,
                    files[at[i]].1@,
                )
            &&& forall|k: int|
                0 <= k < files.len() && name_of((#[trigger] files[k]).0@) != Some("index.md"@)
                    ==> at.contains(k)
            &&& forall|k: int|
                0 <= k < files.len() && name_of((#[trigger] files[k]).0@) == Some("index.md"@)
                    ==> !at.contains(k)
        }),
    decreases files.len(),
{
    if files.len() > 0 {
        let rest = files.drop_last();
        every_document_is_a_concept(root, rest);
        let before = documents_among(rest);
        let at = documents_among(files);
        let cs = concepts_of(root, files);
        assert forall|i: int| 0 <= i < at.len() implies 0 <= #[trigger] at[i] < files.len()
            && cs[i] == concept_of(root, files[at[i]].0@, files[at[i]].1@) by {
            if i < before.len() {
                assert(at[i] == before[i]);
                assert(rest[before[i]] == files[before[i]]);
            }
        }
        assert forall|k: int|
            0 <= k < files.len() && name_of((#[trigger] files[k]).0@) != Some(
                "index.md"@,
            ) implies at.contains(k) by {
            if k < rest.len() {
                assert(rest[k] == files[k]);
                let i = choose|i: int| 0 <= i < before.len() && before[i] == k;
                assert(at[i] == k);
            } else {
                assert(at[before.len() as int] == k);
            }
        }
        assert forall|k: int|
            0 <= k < files.len() && name_of((#[trigger] files[k]).0@) == Some(
                "index.md"@,
            ) implies !at.contains(k) by {
            if at.contains(k) {
                let i = choose|i: int| 0 <= i < at.len() && at[i] == k;
                if i < before.len() {
                    assert(before[i] == k);
                    assert(before.contains(k));
                    assert(rest[k] == files[k]);
                }
            }
        }
    }
}

// ------------------------------------------------------------------------------- graph

proof fn lemma_member(ps: Seq<(Seq<char>, Json)>, i: int)
    requires
        0 <= i < ps.len(),
        forall|j: int| i < j < ps.len() ==> (#[trigger] ps[j]).0 != ps[i].0,
    ensures
        members(ps).dom().contains(ps[i].0),
        members(ps)[ps[i].0] == ps[i].1,
    decreases ps.len(),
{
    if i < ps.len() - 1 {
        let rest = ps.drop_last();
        assert forall|j: int| i < j < rest.len() implies (#[trigger] rest[j]).0 != rest[i].0 by {
            assert(rest[j] == ps[j]);
        }
        lemma_member(rest, i);
        assert(ps[ps.len() - 1].0 != ps[i].0);
    }
}

/// What an object says of a key.
pub open spec fn said_of(j: Json, key: Seq<char>) -> Option<Json> {
    match j {
        Json::Object(m) => if m.dom().contains(key) {
            Some(m[key])
        } else {
            None
        },
        _ => None,
    }
}

/// The node of a concept says what the concept is: its id, what it is called, its type, what it
/// is about, its tags, and how it is drawn.
pub proof fn nodes_say_what_concepts_are(c: ConceptView)
    ensures
        ({
            let node = said_of(element(node_data(c)), "data"@);
            &&& node is Some
            &&& said_of(node->0, "id"@) == Some(Json::Text(c.id))
            &&& c.title.len() > 0 ==> said_of(node->0, "label"@) == Some(Json::Text(c.title))
            &&& c.title.len() == 0 ==> said_of(node->0, "label"@) == Some(Json::Text(c.id))
            &&& said_of(node->0, "type"@) == Some(Json::Text(c.ty))
            &&& said_of(node->0, "description"@) == Some(Json::Text(c.description))
            &&& said_of(node->0, "resource"@) == Some(Json::Text(c.resource))
            &&& said_of(node->0, "tags"@) == Some(
                Json::Array(Seq::new(c.tags.len(), |i: int| Json::Text(c.tags[i]))),
            )
            &&& said_of(node->0, "color"@) == Some(Json::Text(color_of(c.ty)))
            &&& said_of(node->0, "size"@) == Some(Json::Number(size_of(c.body)))
        }),
{
    reveal_strlit("id");
    reveal_strlit("label");
    reveal_strlit("type");
    reveal_strlit("description");
    reveal_strlit("resource");
    reveal_strlit("tags");
    reveal_strlit("color");
    reveal_strlit("size");
    let d = node_data(c);
    assert("id"@.len() == 2 && "description"@.len() == 11 && "resource"@.len() == 8);
    assert("label"@[0] == 'l' && "color"@[0] == 'c');
    assert("type"@.len() == 4 && "tags"@.len() == 4 && "size"@.len() == 4);
    assert("type"@[1] == 'y' && "tags"@[1] == 'a' && "size"@[1] == 'i');
    lemma_member(d, 0);
    lemma_member(d, 1);
    lemma_member(d, 2);
    lemma_member(d, 3);
    lemma_member(d, 4);
    lemma_member(d, 5);
    lemma_member(d, 6);
    lemma_member(d, 7);
    lemma_member(seq![("data"@, object(d))], 0);
    assert(c.tags.map_values(|t: Seq<char>| Json::Text(t)) =~= Seq::new(
        c.tags.len(),
        |i: int| Json::Text(c.tags[i]),
    ));
}

/// The edge of a link says where it comes from and where it leads.
pub proof fn edges_say_where_they_lead(e: (Seq<char>, Seq<char>))
    ensures
        ({
            let edge = said_of(element(edge_data(e)), "data"@);
            &&& edge is Some
            &&& said_of(edge->0, "source"@) == Some(Json::Text(e.0))
            &&& said_of(edge->0, "target"@) == Some(Json::Text(e.1))
            &&& said_of(edge->0, "id"@) == Some(Json::Text(e.0 + "__"@ + e.1))
        }),
{
    reveal_strlit("id");
    reveal_strlit("source");
    reveal_strlit("target");
    assert("source"@[0] == 's' && "target"@[0] == 't' && "id"@.len() == 2 && "source"@.len() == 6);
    let d = edge_data(e);
    lemma_member(d, 0);
    lemma_member(d, 1);
    lemma_member(d, 2);
    lemma_member(seq![("data"@, object(d))], 0);
}

/// The graph has a node for every concept and an edge for every link, in order, the body of every
/// concept under its id, and the types.
pub proof fn the_graph_holds_the_bundle(cs: Seq<ConceptView>, types: Seq<Seq<char>>)
    ensures
        ({
            let g = graph_json(cs, types);
            let links = edges_of(cs, cs.len() as int);
            &&& said_of(g, "nodes"@) == Some(
                Json::Array(Seq::new(cs.len(), |i: int| element(node_data(cs[i])))),
            )
            &&& said_of(g, "edges"@) == Some(
                Json::Array(Seq::new(links.len(), |i: int| element(edge_data(links[i])))),
            )
            &&& said_of(g, "types"@) == Some(
                Json::Array(Seq::new(types.len(), |i: int| Json::Text(types[i]))),
            )
            &&& said_of(g, "palette"@) is Some
            &&& said_of(g, "bodies"@) is Some
            &&& forall|i: int|
                0 <= i < cs.len() && (forall|j: int| i < j < cs.len() ==> (#[trigger] cs[j]).id
                    != cs[i].id) ==> said_of(
                    said_of(g, "bodies"@)->0,
                    (#[trigger] cs[i]).id,
                ) == Some(Json::Text(cs[i].body))
        }),
{
    reveal_strlit("nodes");
    reveal_strlit("edges");
    reveal_strlit("bodies");
    reveal_strlit("types");
    reveal_strlit("palette");
    assert("nodes"@[0] == 'n' && "edges"@[0] == 'e' && "types"@[0] == 't');
    assert("bodies"@.len() == 6 && "palette"@.len() == 7 && "nodes"@.len() == 5);
    assert("edges"@.len() == 5 && "types"@.len() == 5);
    let links = edges_of(cs, cs.len() as int);
    let ps = graph_parts(cs, types);
    lemma_member(ps, 0);
    lemma_member(ps, 1);
    lemma_member(ps, 2);
    lemma_member(ps, 3);
    lemma_member(ps, 4);
    assert(cs.map_values(|c: ConceptView| element(node_data(c))) =~= Seq::new(
        cs.len(),
        |i: int| element(node_data(cs[i])),
    ));
    assert(links.map_values(|e: (Seq<char>, Seq<char>)| element(edge_data(e))) =~= Seq::new(
        links.len(),
        |i: int| element(edge_data(links[i])),
    ));
    assert(types.map_values(|t: Seq<char>| Json::Text(t)) =~= Seq::new(
        types.len(),
        |i: int| Json::Text(types[i]),
    ));
    let bs = cs.map_values(|c: ConceptView| (c.id, Json::Text(c.body)));
    assert forall|i: int|
        0 <= i < cs.len() && (forall|j: int| i < j < cs.len() ==> (#[trigger] cs[j]).id
            != cs[i].id) implies said_of(
        said_of(graph_json(cs, types), "bodies"@)->0,
        (#[trigger] cs[i]).id,
    ) == Some(Json::Text(cs[i].body)) by {
        assert forall|j: int| i < j < bs.len() implies (#[trigger] bs[j]).0 != bs[i].0 by {
            assert(cs[j].id != cs[i].id);
        }
        lemma_member(bs, i);
    }
}

/// A node grows by one with every two hundred characters of its document, to a limit.
pub proof fn nodes_grow_with_their_body(body: Seq<char>, n: nat, rest: nat)
    requires
        body.len() == 200 * n + rest,
        rest < 200,
    ensures
        n <= 60 ==> size_of(body) == 30 + n,
        n >= 60 ==> size_of(body) == 90,
{
}

// -------------------------------------------------------------------------------- page

/// The payload stands in the place of its token in the template, and all else of the template
/// stays.
pub proof fn the_page_is_the_template_with_the_payload(
    before: Seq<char>,
    after: Seq<char>,
    payload: Seq<char>,
)
    requires
        find(before + "__OKF_DATA__"@ + after, "__OKF_DATA__"@) == Some(before.len() as int),
        !contains(after, "__OKF_DATA__"@),
    ensures
        page(before + "__OKF_DATA__"@ + after, payload) == before + payload + after,
{
    reveal_strlit("__OKF_DATA__");
    let token = "__OKF_DATA__"@;
    let s = before + token + after;
    let n = before.len() as int;
    let m = n + token.len();
    lemma_find_from(s, token, m);
    lemma_find_from(after, token, 0);
    if let Some(k) = find_from(s, token, m) {
        assert(after.subrange(k - m, k - m + token.len()) =~= s.subrange(k, k + token.len()));
        assert(occurs_at(after, token, k - m));
    }
    assert(replaced_from(s, token, payload, m) == s.skip(m));
    assert(s.skip(m) =~= after);
    assert(s.subrange(0, n) =~= before);
    assert(page(s, payload) =~= before + payload + after);
}

/// What is written into the page keeps every character, but for `<`, which becomes its escape.
pub proof fn escaping_keeps_all_else(a: Seq<char>, b: Seq<char>)
    ensures
        escaped(a + b) == escaped(a) + escaped(b),
        !a.contains('<') ==> escaped(a) == a,
        escaped(seq!['<']) == "\\u003c"@,
    decreases b.len(), a.len(),
{
    let e = Seq::<char>::empty();
    assert(escaped(e) =~= e);
    if b.len() == 0 {
        assert(a + b =~= a);
        assert(b =~= e);
        assert(escaped(a) + escaped(b) =~= escaped(a));
    } else {
        escaping_keeps_all_else(a, b.drop_last());
        assert((a + b).drop_last() =~= a + b.drop_last());
        assert((a + b).last() == b.last());
        if b.last() == '<' {
            assert(escaped(a) + escaped(b.drop_last()) + "\\u003c"@ =~= escaped(a) + escaped(b));
        } else {
            assert((escaped(a) + escaped(b.drop_last())).push(b.last()) =~= escaped(a) + escaped(
                b,
            ));
        }
    }
    if !a.contains('<') && a.len() > 0 {
        let rest = a.drop_last();
        assert(!rest.contains('<')) by {
            if rest.contains('<') {
                let i = choose|i: int| 0 <= i < rest.len() && rest[i] == '<';
                assert(a[i] == '<');
            }
        }
        assert(a.last() != '<') by {
            assert(a[a.len() - 1] == a.last());
        }
        escaping_keeps_all_else(rest, e);
        assert(rest.push(a.last()) =~= a);
    } else if a.len() == 0 {
        assert(a =~= e);
    }
    assert(seq!['<'].drop_last() =~= e);
    assert(e + "\\u003c"@ =~= "\\u003c"@);
}

/// A number or a truth value that is a tag is read as it is written; and a bundle is called as is
/// said, or by its directory.
pub proof fn tags_and_bundles_are_called_as_written(
    n: Seq<char>,
    base: Seq<char>,
    name: Seq<char>,
    given: Seq<char>,
    canonical: Option<Seq<char>>,
)
    requires
        base.len() > 0,
        name.len() > 0,
        !name.contains('/'),
        !name.contains('.'),
    ensures
        tag_text(Yaml::Number(n)) == n,
        tag_text(Yaml::Text(n)) == n,
        tag_text(Yaml::Bool(true)) == "true"@,
        tag_text(Yaml::Bool(false)) == "false"@,
        bundle_name_of(base, Some(given), canonical) == given,
        bundle_name_of(base + seq!['/'] + name, None, None) == name,
        bundle_name_of(given, None, Some(base + seq!['/'] + name)) == name,
{
    reveal_strlit("..");
    assert(seq!['a'] + seq!['.'] + seq!['b'] != ".."@) by {
        assert((seq!['a'] + seq!['.'] + seq!['b']).len() == 3);
    }
    paths_are_called_by_their_last_component(base, seq!['a'], seq!['b'], name);
}

/// No edge is there twice, and none leads from a concept to itself or to what is no concept.
pub proof fn edges_are_there_once(all: Seq<ConceptView>, n: int)
    requires
        0 <= n <= all.len(),
    ensures
        edges_of(all, n).no_duplicates(),
        forall|k: int|
            0 <= k < edges_of(all, n).len() ==> (#[trigger] edges_of(all, n)[k]).0 != edges_of(
                all,
                n,
            )[k].1 && is_a_concept(all, edges_of(all, n)[k].1),
    decreases n,
{
    if n > 0 {
        edges_are_there_once(all, n - 1);
        let c = all[n - 1];
        lemma_edges_once(all, edges_of(all, n - 1), c, c.links_to.len() as int);
    }
}

/// Whether one of some concepts has an id.
pub open spec fn is_a_concept(all: Seq<ConceptView>, id: Seq<char>) -> bool {
    exists|k: int| 0 <= k < all.len() && (#[trigger] all[k]).id == id
}

proof fn lemma_edges_once(
    all: Seq<ConceptView>,
    before: Seq<(Seq<char>, Seq<char>)>,
    c: ConceptView,
    n: int,
)
    requires
        before.no_duplicates(),
        forall|k: int|
            0 <= k < before.len() ==> (#[trigger] before[k]).0 != before[k].1 && is_a_concept(
                all,
                before[k].1,
            ),
    ensures
        edges_with(all, before, c, n).no_duplicates(),
        forall|k: int|
            0 <= k < edges_with(all, before, c, n).len() ==> (#[trigger] edges_with(
                all,
                before,
                c,
                n,
            )[k]).0 != edges_with(all, before, c, n)[k].1 && is_a_concept(
                all,
                edges_with(all, before, c, n)[k].1,
            ),
    decreases n,
{
    if n > 0 {
        lemma_edges_once(all, before, c, n - 1);
        let so_far = edges_with(all, before, c, n - 1);
        let now = edges_with(all, before, c, n);
        let e = (c.id, c.links_to[n - 1]);
        if now != so_far {
            assert(now == so_far.push(e));
            assert(!so_far.contains(e));
            assert(has_concept(all, e.1));
            assert(is_a_concept(all, e.1));
            assert forall|i: int, j: int| 0 <= i < now.len() && 0 <= j < now.len() && i
                != j implies now[i] != now[j] by {
                if i < so_far.len() && j < so_far.len() {
                    assert(so_far[i] != so_far[j]);
                } else if i < so_far.len() {
                    assert(so_far[i] != e);
                } else {
                    assert(so_far[j] != e);
                }
            }
            assert forall|k: int| 0 <= k < now.len() implies (#[trigger] now[k]).0 != now[k].1
                && is_a_concept(all, now[k].1) by {
                if k < so_far.len() {
                    assert(now[k] == so_far[k]);
                }
            }
        }
    }
}

/// Whether a type has a colour of its own in the palette.
pub open spec fn in_palette(ty: Seq<char>) -> bool {
    exists|i: int| 0 <= i < palette().len() && (#[trigger] palette()[i]).0 == ty
}

/// A node has the colour that the palette gives its type; all types that are not in it share
/// one.
pub proof fn nodes_have_the_colours_of_the_palette(i: int, a: Seq<char>, b: Seq<char>)
    requires
        0 <= i < palette().len(),
        !in_palette(a),
        !in_palette(b),
    ensures
        palette()[i].1 == Json::Text(color_of(palette()[i].0)),
        color_of(a) == color_of(b),
{
    reveal_strlit("BigQuery Dataset");
    reveal_strlit("BigQuery Table");
    reveal_strlit("Reference");
    assert("BigQuery Table"@ != "BigQuery Dataset"@) by {
        assert("BigQuery Table"@.len() != "BigQuery Dataset"@.len());
    }
    assert("Reference"@.len() != "BigQuery Dataset"@.len());
    assert("Reference"@.len() != "BigQuery Table"@.len());
    assert(palette()[0].0 == "BigQuery Dataset"@);
    assert(palette()[1].0 == "BigQuery Table"@);
    assert(palette()[2].0 == "Reference"@);
}

/// A body links to every concept that a link in it names, the first named first.
pub proof fn bodies_link_to_every_target(
    body: Seq<char>,
    a: Seq<Seq<char>>,
    b: Seq<Seq<char>>,
    k: int,
)
    requires
        0 <= k < a.len(),
        target_id(a[k]).len() > 0,
    ensures
        captured(LINK_PATTERN@, body) == Some(a + b) ==> links_of(body).contains(target_id(a[k]))
            && linked_ids(a).is_prefix_of(links_of(body)),
{
    let all = a + b;
    every_target_is_linked(all);
    assert(all[k] == a[k]);
    assert(linked_ids(all).contains(target_id(all[k])));
    lemma_linked_prefix(a, b);
}

proof fn lemma_linked_prefix(a: Seq<Seq<char>>, b: Seq<Seq<char>>)
    ensures
        linked_ids(a).is_prefix_of(linked_ids(a + b)),
    decreases b.len(),
{
    let first = linked_ids(a);
    if b.len() == 0 {
        assert(a + b =~= a);
        assert(first =~= first.subrange(0, first.len() as int));
    } else {
        lemma_linked_prefix(a, b.drop_last());
        assert((a + b).drop_last() =~= a + b.drop_last());
        let before = linked_ids(a + b.drop_last());
        let all = linked_ids(a + b);
        assert(first =~= before.subrange(0, first.len() as int));
        assert(all.subrange(0, first.len() as int) =~= before.subrange(0, first.len() as int));
    }
}

} // verus!
