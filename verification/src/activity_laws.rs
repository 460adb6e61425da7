//! What the activity view is for: it shows what happens in a workspace, latest first.

use crate::activity::{
    after_event, after_key, best_folder, change_name, in_code_after, in_range, is_fence,
    list_title_of, look_of, pushed, quits, row_pieces, selected_path, shown_path, status_pieces,
    title_pieces, Focus, Key, LineLook, Row, RowKind, Screen, Status,
};
use crate::ipc::{EngineChangeKind, EngineEvent};
use crate::path::{
    after_components, components, from_component, head, is_component, is_under, proper,
    to_component,
};
use crate::path_laws::{
    are_components, lemma_proper_concat, lemma_split_concat,
    paths_have_the_components_they_are_made_of,
};
use crate::text::{
    byte_len, contains, decimal, is_white, join, lemma_join_split, lemma_run, lemma_split_nonempty,
    run, split, starts, trim_start, CharSet,
};
use crate::text_laws::{contained_texts_are_parts, made_of, trimming_the_start_takes_off};
use vstd::prelude::*;

verus! {

/// A new row stands on top, and all others below it in their order, as many as are kept.
pub proof fn new_rows_come_on_top(s: Screen, row: Row)
    requires
        in_range(s),
    ensures
        ({
            let after = pushed(s, row);
            &&& after.rows[0] == row
            &&& after.rows.len() == if s.rows.len() < 1000 {
                s.rows.len() + 1
            } else {
                1000
            }
            &&& forall|i: int|
                0 < i < after.rows.len() ==> #[trigger] after.rows[i] == s.rows[i - 1]
            &&& after.focus == s.focus && after.status == s.status && after.doc_count
                == s.doc_count
        }),
{
}

/// What an event of the workspace makes of the view: each document that was indexed or removed,
/// each change and each warning is a row on top with the time and what it says; a scan sets the
/// status, and its end the counts.
pub proof fn events_are_shown(
    s: Screen,
    wid: String,
    other: String,
    text: String,
    title: String,
    labels: Vec<String>,
    kind: EngineChangeKind,
    n: u32,
    m: u32,
    docs: usize,
    time: Seq<char>,
)
    requires
        in_range(s),
    ensures
        ({
            let e = EngineEvent::DocIndexed {
                workspace_id: wid,
                concept_id: other,
                okf_id: other,
                path: text,
                title,
                labels,
            };
            let after = after_event(s, e, wid@, docs, time);
            &&& after.doc_count == docs
            &&& after.rows[0] == (Row {
                time,
                kind: RowKind::Indexed,
                title: title@,
                detail: shown_path(text@, s.folders),
                path: Some(text@),
            })
        }),
        ({
            let e = EngineEvent::DocRemoved { workspace_id: wid, path: text };
            let row = after_event(s, e, wid@, docs, time).rows[0];
            &&& row.kind == RowKind::Removed && row.time == time
            &&& row.detail == shown_path(text@, s.folders) && row.path is None
        }),
        ({
            let e = EngineEvent::FileChanged { workspace_id: wid, path: text, kind };
            let row = after_event(s, e, wid@, docs, time).rows[0];
            &&& row.kind == RowKind::Changed && row.time == time && row.title == change_name(kind)
            &&& row.detail == shown_path(text@, s.folders) && row.path == Some(text@)
        }),
        ({
            let e = EngineEvent::Warning { workspace_id: wid, message: text };
            let row = after_event(s, e, wid@, docs, time).rows[0];
            &&& row.kind == RowKind::Warn && row.time == time && row.detail == text@
        }),
        ({
            let e = EngineEvent::ScanStarted { workspace_id: wid, total: n };
            after_event(s, e, wid@, docs, time) == (Screen {
                status: Status::Scanning,
                doc_count: docs,
                ..s
            })
        }),
        ({
            let e = EngineEvent::ScanCompleted { workspace_id: wid, indexed: n, removed: m };
            after_event(s, e, wid@, docs, time) == (Screen {
                status: Status::Watching,
                indexed: n,
                removed: m,
                doc_count: docs,
                ..s
            })
        }),
        other@ != wid@ ==> after_event(
            s,
            EngineEvent::Warning { workspace_id: other, message: text },
            wid@,
            docs,
            time,
        ) == (Screen { doc_count: docs, ..s }),
{
}

/// Moving down and up again comes back, and so does opening the list and leaving it.
pub proof fn moving_back_comes_back(s: Screen)
    requires
        in_range(s),
    ensures
        s.focus == Focus::List && s.selected + 1 < s.rows.len() ==> after_key(s, Key::Down).selected
            == s.selected + 1 && after_key(after_key(s, Key::Down), Key::Up) == s,
        s.focus == Focus::List ==> after_key(s, Key::Char('j')) == after_key(s, Key::Down)
            && after_key(s, Key::Char('k')) == after_key(s, Key::Up),
        s.focus == Focus::Feed && s.scroll + 1 < s.rows.len() ==> after_key(s, Key::Up).scroll
            == s.scroll + 1 && after_key(after_key(s, Key::Up), Key::Down) == s,
        s.focus == Focus::Feed ==> after_key(s, Key::Char('g')).scroll == 0,
        s.focus == Focus::Feed ==> after_key(after_key(s, Key::Tab), Key::Esc) == s,
        s.focus == Focus::Viewer ==> after_key(s, Key::Esc) == (Screen { focus: Focus::List, ..s }),
        s.focus == Focus::Viewer && s.view_scroll + 10 <= u16::MAX ==> after_key(
            s,
            Key::PageDown,
        ).view_scroll == s.view_scroll + 10 && after_key(
            after_key(s, Key::PageDown),
            Key::PageUp,
        ) == s && after_key(s, Key::Down).view_scroll == s.view_scroll + 1 && after_key(
            after_key(s, Key::Down),
            Key::Up,
        ) == s,
        s.rows.len() > 0 ==> selected_path(s) == s.rows[s.selected].path,
{
}

/// Of the folders that a path is under, the one counts that no other is longer than.
pub proof fn the_longest_folder_counts(path: Seq<char>, folders: Seq<Seq<char>>, n: nat)
    requires
        n <= folders.len(),
    ensures
        match best_folder(path, folders, n) {
            Some(i) => 0 <= i < n && is_under(path, folders[i]) && forall|j: int|
                0 <= j < n && is_under(path, #[trigger] folders[j]) ==> byte_len(folders[j])
                    <= byte_len(folders[i]),
            None => forall|j: int| 0 <= j < n ==> !is_under(path, #[trigger] folders[j]),
        },
    decreases n,
{
    if n > 0 {
        the_longest_folder_counts(path, folders, (n - 1) as nat);
    }
}

proof fn lemma_after_components(a: Seq<Seq<char>>, names: Seq<Seq<char>>)
    requires
        names.len() > 0,
        is_component(names[0]),
    ensures
        from_component(after_components(a + names, proper(a).len())) == names,
    decreases a.len(),
{
    let all = a + names;
    if a.len() == 0 {
        assert(all =~= names);
    } else {
        let rest = a.drop_first();
        let one = seq![a[0]];
        assert(a =~= one + rest);
        lemma_proper_concat(one, rest);
        assert(one.drop_last() =~= Seq::empty());
        assert(all.drop_first() =~= rest + names);
        assert(all[0] == a[0]);
        assert(proper(Seq::<Seq<char>>::empty()) =~= Seq::<Seq<char>>::empty());
        if is_component(a[0]) {
            assert(proper(one) =~= one);
            assert(proper(a).len() == 1 + proper(rest).len());
        } else {
            assert(proper(one) =~= Seq::<Seq<char>>::empty());
            assert(proper(a).len() == proper(rest).len());
        }
        lemma_after_components(rest, names);
        if !is_component(a[0]) && proper(a).len() == 0 {
            assert(after_components(all, 0) == all);
            assert(after_components(rest + names, 0) == rest + names);
            assert(from_component(all) == from_component(rest + names));
        }
    }
}

/// A path below a folder is shown by what stands behind the folder, where no other folder that
/// it is under is longer; a path under no folder is shown as it is.
pub proof fn paths_are_shown_from_their_folder(
    folders: Seq<Seq<char>>,
    k: int,
    names: Seq<Seq<char>>,
    elsewhere: Seq<char>,
)
    requires
        0 <= k < folders.len(),
        folders[k].len() > 0,
        names.len() > 0,
        are_components(names),
        ({
            let path = folders[k] + seq!['/'] + join(names, seq!['/']);
            forall|j: int|
                0 <= j < folders.len() && j != k && is_under(path, #[trigger] folders[j])
                    ==> byte_len(folders[j]) < byte_len(folders[k])
        }),
        components(folders[k]).len() > 0,
        forall|j: int| 0 <= j < folders.len() ==> !is_under(elsewhere, #[trigger] folders[j]),
    ensures
        shown_path(folders[k] + seq!['/'] + join(names, seq!['/']), folders) == join(
            names,
            seq!['/'],
        ),
        shown_path(elsewhere, folders) == elsewhere,
{
    reveal_strlit("/");
    assert("/"@ =~= seq!['/']);
    let f = folders[k];
    let rest = join(names, seq!['/']);
    let path = f + seq!['/'] + rest;
    paths_have_the_components_they_are_made_of(f, names);
    assert(components(path) == components(f) + names);
    assert(is_under(path, f)) by {
        assert(components(f).is_prefix_of(components(path)));
    }
    the_longest_folder_counts(path, folders, folders.len());
    the_longest_folder_counts(elsewhere, folders, folders.len());
    let best = best_folder(path, folders, folders.len())->0;
    assert(is_under(path, folders[best]));
    assert(byte_len(folders[k]) <= byte_len(folders[best]));
    assert(best == k);
    lemma_split_concat(f, '/', rest);
    lemma_join_split(names, '/');
    lemma_split_nonempty(f, '/');
    let pieces = split(path, '/');
    assert(pieces =~= split(f, '/') + names);
    assert(path[0] == f[0]);
    assert(pieces[0] == split(f, '/')[0]);
    assert(head(path) == head(f));
    assert(is_component(names[0])) by {
        assert(names[0].len() > 0 && names[0] != "."@);
    }
    assert(components(f).len() - head(path).len() == proper(split(f, '/')).len());
    lemma_after_components(split(f, '/'), names);
    let last = names[names.len() - 1];
    assert(last.len() > 0 && last != "."@);
    assert(to_component(names) == names);
}

/// The line of a row holds its time, its title and its detail; that of the status how many
/// documents there are and what the scan did; and the title the workspace.
pub proof fn lines_say_what_they_are_about(r: Row, s: Screen)
    ensures
        ({
            let ps = row_pieces(r);
            &&& starts(ps[0].0, r.time)
            &&& r.title.len() > 0 ==> ps.len() == 4 && starts(ps[2].0, r.title)
            &&& ps.last().0 == r.detail
        }),
        contains(status_pieces(s)[0].0, s.status.text()),
        contains(status_pieces(s)[1].0, decimal(s.doc_count as nat)),
        contains(status_pieces(s)[2].0, decimal(s.indexed as nat)),
        contains(status_pieces(s)[2].0, decimal(s.removed as nat)),
        contains(status_pieces(s)[3].0, s.kb_dir),
        contains(title_pieces(s)[1].0, s.label),
        contains(title_pieces(s)[2].0, decimal(s.folders.len())),
{
    let e = Seq::<char>::empty();
    let ps = row_pieces(r);
    assert((r.time + " "@).subrange(0, r.time.len() as int) =~= r.time);
    assert((r.title + "  "@).subrange(0, r.title.len() as int) =~= r.title);
    let st = status_pieces(s);
    contained_texts_are_parts(st[0].0, s.status.text());
    contained_texts_are_parts(st[1].0, decimal(s.doc_count as nat));
    let i = decimal(s.indexed as nat);
    let d = decimal(s.removed as nat);
    contained_texts_are_parts(st[2].0, i);
    contained_texts_are_parts(st[2].0, d);
    assert(st[2].0 =~= "   (scan: +"@ + i + (" / -"@ + d + ")"@));
    assert(st[2].0 =~= ("   (scan: +"@ + i + " / -"@) + d + ")"@);
    contained_texts_are_parts(st[3].0, s.kb_dir);
    assert(st[3].0 =~= "   index → "@ + s.kb_dir + e);
    let t = title_pieces(s);
    contained_texts_are_parts(t[1].0, s.label);
    assert(t[1].0 =~= "  "@ + s.label + e);
    let n = decimal(s.folders.len());
    contained_texts_are_parts(t[2].0, n);
    assert(t[2].0 =~= "  ("@ + n + (" folder"@ + crate::activity::plural_of(s.folders.len())
        + ")"@));
}

/// A line of one to six `#` and a space is shown as a heading of that level, outside code; what
/// stands between two fences is code, and what stands behind them is not.
pub proof fn headings_and_code_are_told_apart(level: nat, text: Seq<char>, ls: Seq<Seq<char>>, n: nat)
    requires
        1 <= level <= 6,
        n < ls.len(),
    ensures
        look_of(hashes(level) + seq![' '] + text, false) == LineLook::Heading(level as usize),
        look_of(hashes(level) + seq![' '] + text, true) == LineLook::Code,
        is_fence(ls[n as int]) ==> in_code_after(ls, n + 1) != in_code_after(ls, n) && look_of(
            ls[n as int],
            in_code_after(ls, n),
        ) == LineLook::Fence,
        !is_fence(ls[n as int]) ==> in_code_after(ls, n + 1) == in_code_after(ls, n),
        !is_fence(ls[n as int]) && in_code_after(ls, n) ==> look_of(ls[n as int], true)
            == LineLook::Code,
        !in_code_after(ls, 0),
{
    reveal_strlit("```");
    let line = hashes(level) + seq![' '] + text;
    let set = CharSet::Only('#');
    assert(line[0] == '#');
    assert(trim_start(line, CharSet::White) == line);
    lemma_run(line, set);
    let k = run(line, set);
    if k < level {
        assert(line[k as int] == '#');
    }
    if k > level {
        assert(line[level as int] == ' ');
    }
    if starts(line, "```"@) {
        assert(line.subrange(0, 3)[0] == '`');
    }
}

/// A number of `#`.
pub open spec fn hashes(n: nat) -> Seq<char> {
    Seq::new(n, |i: int| '#')
}

/// Outside code a line behind `> ` is a quote, one behind four spaces or a tab is code, and one
/// that begins with a letter is plain. The rows are counted in their title.
pub proof fn other_lines_are_told_apart(c: char, text: Seq<char>, s: Screen)
    requires
        !is_white(c),
        c != '#',
        c != '>',
        c != '`',
    ensures
        look_of("> "@ + text, false) == LineLook::Quote,
        look_of(seq![c] + text, false) == LineLook::Plain,
        look_of("    "@ + (seq![c] + text), false) == LineLook::Code,
        look_of("\t"@ + (seq![c] + text), false) == LineLook::Code,
        contains(list_title_of(s), decimal(s.rows.len())),
        quits(Key::Char('q'), false) && quits(Key::Char('c'), true) && !quits(
            Key::Char('c'),
            false,
        ),
{
    reveal_strlit("> ");
    reveal_strlit("    ");
    reveal_strlit("\t");
    reveal_strlit("```");
    let hash = CharSet::Only('#');
    let quote = "> "@ + text;
    assert(quote[0] == '>');
    assert(trim_start(quote, CharSet::White) == quote);
    assert(quote.subrange(0, 2) =~= "> "@);
    if starts(quote, "```"@) {
        assert(quote.subrange(0, 3)[0] == '`');
    }
    assert(run(quote, hash) == 0);
    let plain = seq![c] + text;
    assert(plain[0] == c);
    assert(trim_start(plain, CharSet::White) == plain);
    if starts(plain, "```"@) {
        assert(plain.subrange(0, 3)[0] == '`');
    }
    if starts(plain, "> "@) {
        assert(plain.subrange(0, 2)[0] == '>');
    }
    if starts(plain, "    "@) {
        assert(plain.subrange(0, 4)[0] == ' ');
    }
    if starts(plain, "\t"@) {
        assert(plain.subrange(0, 1)[0] == '\t');
    }
    assert(run(plain, hash) == 0);
    let deep = "    "@ + plain;
    assert(made_of("    "@, CharSet::White)) by {
        assert(is_white(' '));
    }
    trimming_the_start_takes_off("    "@, plain, CharSet::White);
    assert(deep.subrange(0, 4) =~= "    "@);
    let tabbed = "\t"@ + plain;
    assert(made_of("\t"@, CharSet::White)) by {
        assert(is_white('\t'));
    }
    trimming_the_start_takes_off("\t"@, plain, CharSet::White);
    assert(tabbed.subrange(0, 1) =~= "\t"@);
    let n = decimal(s.rows.len());
    let t = list_title_of(s);
    contained_texts_are_parts(t, n);
    let tail = if s.focus == Focus::List {
        ") — browsing "@
    } else {
        ") "@
    };
    assert(t =~= " Recent activity ("@ + n + tail);
}

} // verus!
