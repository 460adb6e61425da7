//! What the workspace store is for: the id that a workspace gets, the workspace that an id
//! finds, the folders that are offered, and the names of links.

use crate::ipc::{EngineChangeKind, LinkConfig, LinkNaming, LinkTargetKind};
use crate::lifecycle::told_kind;
use crate::linking::{dir_name, is_for, link_name, settings, settings_from, targets, Target};
use crate::path::{joined_path, lower_ascii, lowered, name_of};
use crate::path_laws::{are_components, paths_have_the_components_they_are_made_of};
use crate::scan::ChangeKind;
use crate::sorted::SortedMap;
use crate::text::{decimal, join, texts, trim_white};
use crate::workspace::{
    base_id, candidate_of, index_of_id, is_alnum, is_first_free, is_taken, nth_id, slug, words_from,
    FolderEntry, Workspace,
};
use vstd::prelude::*;

verus! {

// -------------------------------------------------------------------------------- slugs

/// Whether a text is made of letters and digits.
pub open spec fn is_plain(w: Seq<char>) -> bool {
    w.len() > 0 && forall|i: int| 0 <= i < w.len() ==> is_alnum(#[trigger] w[i])
}

proof fn lemma_word_read(w: Seq<char>, current: Seq<char>, rest: Seq<char>)
    requires
        forall|i: int| 0 <= i < w.len() ==> is_alnum(#[trigger] w[i]),
    ensures
        words_from(w + rest, current) == words_from(rest, current + lowered(w)),
    decreases w.len(),
{
    if w.len() == 0 {
        assert(w + rest =~= rest);
        assert(current + lowered(w) =~= current);
    } else {
        assert((w + rest)[0] == w[0]);
        assert((w + rest).drop_first() =~= w.drop_first() + rest);
        lemma_word_read(w.drop_first(), current.push(lower_ascii(w[0])), rest);
        assert(current.push(lower_ascii(w[0])) + lowered(w.drop_first()) =~= current + lowered(w));
    }
}

/// A slug holds every word of a name, in small letters and in their order, with one dash between
/// each two; whatever is neither letter nor digit parts them.
pub proof fn slugs_hold_every_word(word: Seq<char>, gap: char, rest: Seq<char>)
    requires
        is_plain(word),
        !is_alnum(gap),
    ensures
        slug(word) == lowered(word),
        slug(seq![gap] + rest) == slug(rest),
        slug(word + seq![gap] + rest) == if slug(rest).len() == 0 {
            lowered(word)
        } else {
            lowered(word) + "-"@ + slug(rest)
        },
{
    let e = Seq::<char>::empty();
    let small = lowered(word);
    lemma_word_read(word, e, e);
    assert(word + e =~= word);
    assert(e + small =~= small);
    assert(small.len() == word.len());
    assert(words_from(e, small) =~= seq![small]);
    assert(slug(word) == join(seq![small], "-"@));
    assert((seq![gap] + rest).drop_first() =~= rest);
    assert(words_from(seq![gap] + rest, e) =~= words_from(rest, e));
    lemma_word_read(word, e, seq![gap] + rest);
    assert(word + seq![gap] + rest =~= word + (seq![gap] + rest));
    let more = words_from(rest, e);
    let all = words_from(word + seq![gap] + rest, e);
    assert(all =~= seq![small] + more);
    assert(all.drop_first() =~= more);
    lemma_joined_len(more);
    lemma_words_full(rest, e);
    if more.len() == 0 {
        assert(slug(rest) =~= e);
    }
}

proof fn lemma_words_full(s: Seq<char>, current: Seq<char>)
    ensures
        forall|i: int|
            0 <= i < words_from(s, current).len() ==> (#[trigger] words_from(s, current)[i]).len()
                > 0,
    decreases s.len(),
{
    let ws = words_from(s, current);
    let done = if current.len() > 0 {
        seq![current]
    } else {
        Seq::empty()
    };
    assert forall|i: int| 0 <= i < ws.len() implies (#[trigger] ws[i]).len() > 0 by {
        if s.len() == 0 {
            assert(ws == done);
            assert(done[i] == current);
        } else if is_alnum(s[0]) {
            let more = current.push(lower_ascii(s[0]));
            lemma_words_full(s.drop_first(), more);
            assert(ws[i] == words_from(s.drop_first(), more)[i]);
        } else {
            let e: Seq<char> = Seq::empty();
            let rest = words_from(s.drop_first(), e);
            lemma_words_full(s.drop_first(), e);
            assert(ws == done + rest);
            if i < done.len() {
                assert(ws[i] == done[i]);
                assert(done[i] == current);
            } else {
                assert(ws[i] == rest[i - done.len()]);
            }
        }
    }
}

proof fn lemma_joined_len(parts: Seq<Seq<char>>)
    ensures
        parts.len() > 0 && parts[0].len() > 0 ==> join(parts, "-"@).len() > 0,
{
}

// ---------------------------------------------------------------------------------- ids

/// A new workspace gets the slug of its name for an id, or `workspace` where that is empty; where
/// that is taken, the first of `-2`, `-3` and so on behind it that is free.
pub proof fn ids_count_up(ws: Seq<Workspace>, name: Seq<char>, id: Seq<char>, n: nat)
    requires
        is_first_free(ws, base_id(name), id),
        n >= 2,
    ensures
        slug(name).len() > 0 ==> base_id(name) == slug(name),
        slug(name).len() == 0 ==> base_id(name) == "workspace"@,
        !is_taken(ws, id),
        !is_taken(ws, base_id(name)) ==> id == base_id(name),
        is_taken(ws, base_id(name)) && (forall|m: nat|
            2 <= m < n ==> #[trigger] is_taken(ws, base_id(name) + "-"@ + decimal(m)))
            && !is_taken(ws, base_id(name) + "-"@ + decimal(n)) ==> id == base_id(name) + "-"@
            + decimal(n),
{
    let base = base_id(name);
    let k = choose|k: nat|
        1 <= k && id == #[trigger] nth_id(base, k) && !is_taken(ws, id) && forall|m: nat|
            1 <= m < k ==> is_taken(ws, #[trigger] nth_id(base, m));
    assert(nth_id(base, 1) == base);
    if k > 1 {
        assert(is_taken(ws, nth_id(base, 1)));
    }
    if is_taken(ws, base) && (forall|m: nat|
        2 <= m < n ==> #[trigger] is_taken(ws, base + "-"@ + decimal(m))) && !is_taken(
        ws,
        base + "-"@ + decimal(n),
    ) {
        assert(nth_id(base, n) == base + "-"@ + decimal(n));
        assert(k != 1);
        if k < n {
            assert(is_taken(ws, base + "-"@ + decimal(k)));
        } else if k > n {
            assert(is_taken(ws, nth_id(base, n)));
        }
    }
}

/// An id finds the first workspace that has it.
pub proof fn ids_find_their_workspace(ws: Seq<Workspace>, id: Seq<char>, i: int)
    requires
        0 <= i < ws.len(),
    ensures
        ws[i].id.0@ == id && (forall|j: int| 0 <= j < i ==> (#[trigger] ws[j]).id.0@ != id)
            ==> index_of_id(ws, id, 0) == i,
        !is_taken(ws, id) ==> index_of_id(ws, id, 0) == ws.len(),
{
    if ws[i].id.0@ == id && (forall|j: int| 0 <= j < i ==> (#[trigger] ws[j]).id.0@ != id) {
        lemma_index_of_id(ws, id, i, 0);
    }
    if !is_taken(ws, id) {
        assert forall|j: int| 0 <= j < ws.len() implies (#[trigger] ws[j]).id.0@ != id by {}
        lemma_index_of_id(ws, id, ws.len() as int, 0);
    }
}

proof fn lemma_index_of_id(ws: Seq<Workspace>, id: Seq<char>, i: int, from: int)
    requires
        0 <= from <= i <= ws.len(),
        i < ws.len() ==> ws[i].id.0@ == id,
        forall|j: int| from <= j < i ==> (#[trigger] ws[j]).id.0@ != id,
    ensures
        index_of_id(ws, id, from) == i,
    decreases i - from,
{
    if from < i {
        assert(ws[from].id.0@ != id);
        lemma_index_of_id(ws, id, i, from + 1);
    }
}

// --------------------------------------------------------------------------- candidates

/// Every directory is offered, under its name, with its path and what was found of it, but for
/// `.git`, `node_modules` and `target`; nothing else is.
pub proof fn directories_are_offered(e: FolderEntry, name: Seq<char>)
    requires
        name_of(e.path@) == Some(name),
    ensures
        e.is_dir && e.file_name@ != ".git"@ && e.file_name@ != "node_modules"@ && e.file_name@
            != "target"@ ==> (candidate_of(e) matches Some(c) && c.name == name && c.path == e.path@
            && c.is_git_repo == e.is_git_repo && c.has_markdown == e.has_markdown),
        !e.is_dir || e.file_name@ == ".git"@ || e.file_name@ == "node_modules"@ || e.file_name@
            == "target"@ ==> candidate_of(e) is None,
{
}

// -------------------------------------------------------------------------------- links

/// The targets of links are the knowledge base and every specs folder, in their order.
pub proof fn targets_are_the_index_and_the_specs(w: Workspace, i: int)
    requires
        0 <= i < w.linking.specs_folders@.len(),
    ensures
        targets(w).len() == w.linking.specs_folders@.len() + 1,
        targets(w)[0] == (Target {
            kind: LinkTargetKind::Kb,
            specs_folder: None,
            path: w.kb_dir@,
        }),
        targets(w)[i + 1] == (Target {
            kind: LinkTargetKind::Specs,
            specs_folder: Some(w.linking.specs_folders@[i]@),
            path: w.linking.specs_folders@[i]@,
        }),
{
}

/// Whether the settings at a place are the first for a host and target.
pub open spec fn first_for(links: Seq<LinkConfig>, host: Seq<char>, t: Target, k: int) -> bool {
    &&& 0 <= k < links.len()
    &&& is_for(links[k], host, t)
    &&& forall|j: int| 0 <= j < k ==> !is_for(#[trigger] links[j], host, t)
}

/// A link is called as its settings say: by the name of the directory, by the one that git knows,
/// or by one that was chosen, unless it is blank. Without settings the knowledge base is `kb`, and
/// a specs folder is called by its directory.
pub proof fn links_are_called_as_configured(
    links: Seq<LinkConfig>,
    host: Seq<char>,
    t: Target,
    true_names: SortedMap<String>,
    k: int,
    base: Seq<char>,
    name: Seq<char>,
)
    requires
        base.len() > 0,
        name.len() > 0,
        !name.contains('/'),
        name != "."@,
        name != ".."@,
        t.path == base + seq!['/'] + name,
    ensures
        ({
            let called = link_name(links, host, t, true_names);
            &&& first_for(links, host, t, k) ==> {
                let cfg = links[k];
                &&& cfg.naming == LinkNaming::LocalDirName ==> called == name
                &&& cfg.naming == LinkNaming::GitTrueName && true_names.lookup(
                    t.path,
                ) is Some ==> called == true_names.lookup(t.path)->0@
                &&& cfg.naming == LinkNaming::GitTrueName && true_names.lookup(
                    t.path,
                ) is None ==> called == name
                &&& cfg.naming == LinkNaming::Custom && cfg.custom_name is Some && trim_white(
                    cfg.custom_name->0@,
                ).len() > 0 ==> called == cfg.custom_name->0@
                &&& cfg.naming == LinkNaming::Custom && (cfg.custom_name is None || trim_white(
                    cfg.custom_name->0@,
                ).len() == 0) ==> called == name
            }
            &&& (forall|j: int| 0 <= j < links.len() ==> !is_for(#[trigger] links[j], host, t))
                ==> called == if t.kind == LinkTargetKind::Kb {
                "kb"@
            } else {
                name
            }
        }),
{
    reveal_strlit("/");
    let names = seq![name];
    assert(are_components(names));
    paths_have_the_components_they_are_made_of(base, names);
    assert(join(names, seq!['/']) == name);
    assert((crate::path::components(base) + names).last() == name);
    if name == "/"@ {
        assert(name[0] == '/');
        assert(name.contains('/'));
    }
    assert(dir_name(t.path) == name);
    if first_for(links, host, t, k) {
        lemma_settings(links, host, t, k, 0);
    }
    if forall|j: int| 0 <= j < links.len() ==> !is_for(#[trigger] links[j], host, t) {
        lemma_settings(links, host, t, links.len() as int, 0);
    }
}

proof fn lemma_settings(links: Seq<LinkConfig>, host: Seq<char>, t: Target, k: int, i: int)
    requires
        0 <= i <= k <= links.len(),
        k < links.len() ==> is_for(links[k], host, t),
        forall|j: int| i <= j < k ==> !is_for(#[trigger] links[j], host, t),
    ensures
        settings_from(links, host, t, i) == k,
    decreases k - i,
{
    if i < k {
        assert(!is_for(links[i], host, t));
        lemma_settings(links, host, t, k, i + 1);
    }
}

/// A workspace passes over its knowledge base, and the link to it in each of its folders, and
/// nothing else.
pub proof fn the_index_and_its_links_are_excluded(w: Workspace, i: int)
    requires
        0 <= i < w.folders@.len(),
    ensures
        w.exclusions().len() == 1 + w.folders@.len(),
        w.exclusions()[0] == w.kb_dir@,
        w.exclusions()[1 + i] == joined_path(w.folders@[i]@, "kb"@),
{
    assert(texts(w.folders@)[i] == w.folders@[i]@);
}

/// A change is told as what it is.
pub proof fn changes_are_told_as_they_are(a: ChangeKind, b: ChangeKind)
    ensures
        told_kind(a) == told_kind(b) ==> a == b,
        told_kind(ChangeKind::Created) == EngineChangeKind::Created,
        told_kind(ChangeKind::Modified) == EngineChangeKind::Modified,
        told_kind(ChangeKind::Removed) == EngineChangeKind::Removed,
        told_kind(ChangeKind::Moved) == EngineChangeKind::Moved,
{
}

} // verus!
