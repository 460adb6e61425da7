//! What the command line tells and asks: all that happened, all that is there, and only what was
//! not given.

use crate::activity::change_name;
use crate::cli::{
    creation_of, event_line, expanded, folder_at, goes_by, lines_until, list_of, summary_members,
    workspace_lines, Asked, GivenFolder, Known, Said,
};
use crate::ipc::{EngineChangeKind, EngineEvent};
use crate::json::Json;
use crate::path::components;
use crate::path_laws::{are_components, joined_paths_lie_under_their_base};
use crate::text::{contains, decimal, join, starts, CharSet};
use crate::text_laws::{
    bare, blank, contained_texts_are_parts, lemma_bare_is_trimmed, trimming_takes_off,
};
use crate::workspace::Workspace;
use vstd::prelude::*;

verus! {

/// A path behind `~/` lies in the home directory, where that is known; any other path is taken
/// as it is.
pub proof fn home_paths_lie_in_the_home_directory(
    home: Seq<char>,
    names: Seq<Seq<char>>,
    other: Seq<char>,
)
    requires
        home.len() > 0,
        names.len() > 0,
        are_components(names),
        !starts(other, "~/"@),
    ensures
        components(expanded("~/"@ + join(names, seq!['/']), Some(home))) == components(home)
            + names,
        expanded(other, Some(home)) == other,
        expanded(other, None) == other,
        expanded("~/"@ + join(names, seq!['/']), None) == "~/"@ + join(names, seq!['/']),
{
    reveal_strlit("~/");
    let rest = join(names, seq!['/']);
    let input = "~/"@ + rest;
    assert(input.subrange(0, 2) =~= "~/"@);
    assert(input.skip(2) =~= rest);
    joined_paths_lie_under_their_base(home, names, seq!['/']);
}

/// The line of an event holds what the event is about; those of other workspaces have none.
pub proof fn event_lines_say_what_happened(
    wid: String,
    other: String,
    path: String,
    title: String,
    labels: Vec<String>,
    kind: EngineChangeKind,
    n: u32,
    m: u32,
)
    requires
        other@ != wid@,
    ensures
        ({
            let e = EngineEvent::DocIndexed {
                workspace_id: wid,
                concept_id: other,
                okf_id: other,
                path,
                title,
                labels,
            };
            event_line(e, wid@) matches Some(l) && starts(l, "indexed: "@ + title@) && contains(
                l,
                path@,
            ) && event_line(e, other@) is None
        }),
        ({
            let e = EngineEvent::DocRemoved { workspace_id: wid, path };
            event_line(e, wid@) == Some("removed: "@ + path@) && event_line(e, other@) is None
        }),
        ({
            let e = EngineEvent::FileChanged { workspace_id: wid, path, kind };
            event_line(e, wid@) matches Some(l) && starts(l, "changed ["@ + change_name(kind))
                && contains(l, path@) && event_line(e, other@) is None
        }),
        ({
            let e = EngineEvent::Warning { workspace_id: wid, message: title };
            event_line(e, wid@) == Some("warning: "@ + title@) && event_line(e, other@) is None
        }),
        ({
            let e = EngineEvent::ScanStarted { workspace_id: wid, total: n };
            event_line(e, wid@) matches Some(l) && starts(l, "scan: "@ + decimal(n as nat))
                && event_line(e, other@) is None
        }),
        ({
            let e = EngineEvent::ScanCompleted { workspace_id: wid, indexed: n, removed: m };
            event_line(e, wid@) matches Some(l) && starts(
                l,
                "scan complete: "@ + decimal(n as nat) + " indexed, "@ + decimal(m as nat),
            ) && event_line(e, other@) is None
        }),
{
    let i = "indexed: "@ + title@ + "  ("@ + path@ + ")"@;
    let begun = "indexed: "@ + title@;
    assert(i.subrange(0, begun.len() as int) =~= begun);
    contained_texts_are_parts(i, path@);
    assert(i =~= ("indexed: "@ + title@ + "  ("@) + path@ + ")"@);
    let c = "changed ["@ + change_name(kind) + "]: "@ + path@;
    let begun = "changed ["@ + change_name(kind);
    assert(c.subrange(0, begun.len() as int) =~= begun);
    contained_texts_are_parts(c, path@);
    let e = Seq::<char>::empty();
    assert(c =~= ("changed ["@ + change_name(kind) + "]: "@) + path@ + e);
    let s = "scan: "@ + decimal(n as nat) + " change(s) to apply…"@;
    let begun = "scan: "@ + decimal(n as nat);
    assert(s.subrange(0, begun.len() as int) =~= begun);
    let d = "scan complete: "@ + decimal(n as nat) + " indexed, "@ + decimal(m as nat)
        + " removed"@;
    let begun = "scan complete: "@ + decimal(n as nat) + " indexed, "@ + decimal(m as nat);
    assert(d.subrange(0, begun.len() as int) =~= begun);
}

/// What was given is not asked for, and what is missing is.
pub proof fn only_what_is_missing_is_asked(k: Known)
    ensures
        k.name is None <==> k.begun() is Name,
        k.folders.len() > 0 ==> !(k.after_name() is Candidates) && !(k.after_name() is Parent)
            && !(k.after_name() is Folder) && k.after_name() == k.after_folders(),
        k.folders.len() == 0 && k.discover is Some ==> k.after_name() == Asked::Candidates(
            k.discover->0,
        ),
        k.folders.len() == 0 && k.discover is None ==> k.after_name() is Parent,
        k.folders.len() > 0 && k.specs_folders.len() == 0 ==> k.after_folders() is Specs,
        k.specs_folders.len() > 0 ==> k.after_folders() == k.after_specs(),
        k.kb_dir is None ==> k.after_specs() is KbDir,
        k.kb_dir is Some ==> k.after_specs() is Done,
{
}

/// An answer is kept as it was given, without the white space round a path and with the home
/// directory in it, and the next question is asked; what was known before stays.
pub proof fn answers_are_kept(
    k: Known,
    gap: Seq<char>,
    t: Seq<char>,
    tail: Seq<char>,
    picked: Seq<Seq<char>>,
    home: Option<Seq<char>>,
)
    requires
        blank(gap),
        blank(tail),
        bare(t),
        picked.len() > 0,
        expanded(t, home).len() > 0,
    ensures
        ({
            let typed = Said::Text(gap + t + tail);
            let p = expanded(t, home);
            &&& k.question is Name ==> k.answered(typed, home).name == Some(gap + t + tail)
                && k.answered(typed, home).question == k.after_name()
            &&& k.question is Parent ==> k.answered(typed, home) == (Known {
                question: Asked::Candidates(p),
                ..k
            })
            &&& k.question is Folder ==> k.answered(typed, home) == (Known {
                question: Asked::IsFolder(p),
                ..k
            })
            &&& k.question is KbDir ==> k.answered(typed, home) == (Known {
                kb_dir: Some(p),
                question: Asked::Done,
                ..k
            })
            &&& k.question is Candidates ==> {
                let after = k.answered(Said::Picked(picked), home);
                &&& after.folders == picked && after.name == k.name && after.kb_dir == k.kb_dir
                &&& after.question == (Known { folders: picked, ..k }).after_folders()
            }
            &&& k.question is Specs ==> {
                let after = k.answered(Said::Picked(picked), home);
                &&& after.specs_folders == picked && after.folders == k.folders
                &&& after.question == k.after_specs()
            }
            &&& k.question is IsFolder ==> {
                let yes = k.answered(Said::Yes(true), home);
                &&& yes.folders == k.folders.push(k.question->IsFolder_0)
                &&& yes.question is Another
                &&& k.answered(Said::Yes(false), home) == (Known { question: Asked::Folder, ..k })
            }
            &&& k.question is Another ==> {
                &&& k.answered(Said::Yes(true), home) == (Known { question: Asked::Folder, ..k })
                &&& k.answered(Said::Yes(false), home) == (Known {
                    question: k.after_folders(),
                    ..k
                })
            }
        }),
{
    trimming_takes_off(gap, t, tail, CharSet::White);
    lemma_bare_is_trimmed(t);
}

/// What will be created is told in full: its name, its places, every folder and every specs
/// folder.
pub proof fn creations_are_told_in_full(
    name: Seq<char>,
    store: Seq<char>,
    kb_dir: Seq<char>,
    folders: Seq<Seq<char>>,
    specs: Seq<Seq<char>>,
    i: int,
    k: int,
)
    requires
        0 <= i < folders.len(),
        0 <= k < specs.len(),
    ensures
        ({
            let lines = creation_of(name, store, kb_dir, folders, specs);
            &&& lines.contains("  name:    "@ + name)
            &&& lines.contains("  store:   "@ + store)
            &&& lines.contains("  kb_dir:  "@ + kb_dir)
            &&& lines.contains("    - "@ + folders[i])
            &&& lines.contains("    - "@ + specs[k])
            &&& lines.len() == 7 + folders.len() + specs.len()
        }),
{
    let lines = creation_of(name, store, kb_dir, folders, specs);
    assert(lines[2] == "  name:    "@ + name);
    assert(lines[3] == "  store:   "@ + store);
    assert(lines[4] == "  kb_dir:  "@ + kb_dir);
    assert(lines[6 + i] == "    - "@ + folders[i]);
    assert(lines[7 + folders.len() + k] == "    - "@ + specs[k]);
}

/// Every workspace is listed, one behind the other, with its name, its id and every folder; and
/// their number.
pub proof fn every_workspace_is_listed(all: Seq<Workspace>, store: Seq<char>, k: int, f: int)
    requires
        0 <= k < all.len(),
        0 <= f < all[k].folders@.len(),
    ensures
        starts(list_of(all, store)[0], decimal(all.len())),
        exists|at: int|
            {
                &&& 1 <= at
                &&& at + workspace_lines(all[k]).len() <= list_of(all, store).len()
                &&& #[trigger] list_of(all, store).subrange(
                    at,
                    at + workspace_lines(all[k]).len() as int,
                ) == workspace_lines(all[k])
            },
        workspace_lines(all[k])[1] == "  "@ + all[k].name@ + " ("@ + all[k].id.0@ + ")"@,
        workspace_lines(all[k])[2] == "    kb_dir:     "@ + all[k].kb_dir@,
        workspace_lines(all[k])[5 + f] == "      - "@ + all[k].folders@[f]@,
        workspace_lines(all[k]).len() == 5 + all[k].folders@.len(),
{
    let n = decimal(all.len());
    let head = n + " workspace(s) in "@ + store + ":"@;
    assert(head.subrange(0, n.len() as int) =~= n);
    let ls = list_of(all, store);
    assert(ls[0] == head);
    let w = workspace_lines(all[k]);
    lemma_lines_until(all, k as nat, all.len());
    let before = lines_until(all, k as nat);
    let tail = lines_until(all, all.len());
    let at = 1 + before.len() as int;
    assert(ls.subrange(at, at + w.len() as int) =~= tail.subrange(
        before.len() as int,
        before.len() + w.len() as int,
    ));
}

proof fn lemma_lines_until(all: Seq<Workspace>, k: nat, n: nat)
    requires
        k < n <= all.len(),
    ensures
        ({
            let before = lines_until(all, k);
            let w = workspace_lines(all[k as int]);
            let ls = lines_until(all, n);
            &&& before.len() + w.len() <= ls.len()
            &&& ls.subrange(before.len() as int, before.len() + w.len() as int) == w
        }),
    decreases n,
{
    let before = lines_until(all, k);
    let w = workspace_lines(all[k as int]);
    let ls = lines_until(all, n);
    if k + 1 < n {
        lemma_lines_until(all, k, (n - 1) as nat);
        let prior = lines_until(all, (n - 1) as nat);
        assert(ls.subrange(before.len() as int, before.len() + w.len() as int) =~= prior.subrange(
            before.len() as int,
            before.len() + w.len() as int,
        ));
    } else {
        assert(ls.subrange(before.len() as int, before.len() + w.len() as int) =~= w);
    }
}

/// A scan is summed up with what it did, how many documents there are and where.
pub proof fn scans_are_summed_up(indexed: u32, removed: u32, docs: usize, kb_dir: Seq<char>)
    ensures
        ({
            let m = summary_members(indexed, removed, docs, kb_dir);
            &&& m.contains(("event"@, Json::Text("scan_complete"@)))
            &&& m.contains(("indexed"@, Json::Number(indexed as nat)))
            &&& m.contains(("removed"@, Json::Number(removed as nat)))
            &&& m.contains(("doc_count"@, Json::Number(docs as nat)))
            &&& m.contains(("kb_dir"@, Json::Text(kb_dir)))
            &&& m.len() == 5
        }),
{
    let m = summary_members(indexed, removed, docs, kb_dir);
    assert(m[0] == ("event"@, Json::Text("scan_complete"@)));
    assert(m[1] == ("indexed"@, Json::Number(indexed as nat)));
    assert(m[2] == ("removed"@, Json::Number(removed as nat)));
    assert(m[3] == ("doc_count"@, Json::Number(docs as nat)));
    assert(m[4] == ("kb_dir"@, Json::Text(kb_dir)));
}

/// A given path is a folder where it resolves to a directory, and then it is what it resolves
/// to; else the path is told that is none.
pub proof fn given_folders_are_what_they_resolve_to(f: GivenFolder, at: String)
    ensures
        f.canonical == Some(at) && f.is_dir ==> folder_at(f) == Ok::<Seq<char>, Seq<char>>(at@),
        f.canonical == Some(at) && !f.is_dir ==> folder_at(f) == Err::<Seq<char>, Seq<char>>(at@),
        f.canonical is None ==> folder_at(f) == Err::<Seq<char>, Seq<char>>(f.given@),
{
}

/// A workspace goes by its name and by its id, and by nothing else.
pub proof fn workspaces_go_by_name_and_id(w: Workspace, other: Seq<char>)
    ensures
        goes_by(w, w.name@),
        goes_by(w, w.id.0@),
        other != w.name@ && other != w.id.0@ ==> !goes_by(w, other),
{
}

} // verus!
