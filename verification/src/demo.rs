//! Demo activity: a marker that is put behind a document's text to change it, and its removal.

use crate::path::{extension, extension_of};
use crate::text::{
    chars_of, decimal, decimal_of, ends, ends_with, join, joined,
    lemma_join_push, lemma_join_split, lemma_lines_concat, lemma_lines_hold_no_feed,
    lemma_lines_of_joined, lemma_lines_push_feed, lemma_one_line, lemma_split_join, lemma_trim_end,
    lemma_trim_end_concat, lemma_trim_of_trimmed_end, lemma_trim_without_return, lines, lines_of,
    occurs_at, same, split, starts, starts_with, string_of, texts, trim_end, trim_start,
    trim_white, trimmed, trimmed_end, without_return, CharSet,
};
use vstd::prelude::*;

verus! {

/// Whether a line, trimmed, is a marker.
pub open spec fn marks(line: Seq<char>) -> bool {
    starts(line, "<!-- looper demo tick"@) && ends(line, "-->"@)
}

/// Whether a line, trimmed, is a marker.
pub fn is_marker(line: &str) -> (r: bool)
    ensures
        r == marks(line@),
{
    let cs = chars_of(line);
    starts_with(&cs, &chars_of("<!-- looper demo tick")) && ends_with(&cs, &chars_of("-->"))
}

/// The lines that are no markers.
pub open spec fn kept(ls: Seq<Seq<char>>) -> Seq<Seq<char>>
    decreases ls.len(),
{
    if ls.len() == 0 {
        Seq::empty()
    } else if marks(trim_white(ls.last())) {
        kept(ls.drop_last())
    } else {
        kept(ls.drop_last()).push(ls.last())
    }
}

/// A text without its markers, and with one line feed at its end.
pub open spec fn stripped(content: Seq<char>) -> Seq<char> {
    trim_end(join(kept(lines(content)), "\n"@), CharSet::White).push('\n')
}

/// Removes the markers of a text; it then ends with one line feed.
pub fn strip_markers(content: &str) -> (r: String)
    ensures
        r@ == stripped(content@),
{
    let ls = lines_of(&chars_of(content));
    let ghost all = lines(content@);
    let mut body: Vec<String> = Vec::new();
    let mut i: usize = 0;
    assert(all.take(0) =~= Seq::empty());
    assert(texts(body@) =~= kept(all.take(0)));
    while i < ls.len()
        invariant
            i <= ls@.len(),
            texts(ls@) == all,
            texts(body@) == kept(all.take(i as int)),
        decreases ls.len() - i,
    {
        let ghost before = texts(body@);
        proof {
            assert(all.take(i + 1).drop_last() =~= all.take(i as int));
            assert(all.take(i + 1).last() == ls@[i as int]@);
        }
        let line = string_of(trimmed(&chars_of(ls[i].as_str()), CharSet::White));
        if !is_marker(line.as_str()) {
            body.push(ls[i].clone());
            assert(texts(body@) =~= before.push(all[i as int]));
        }
        i = i + 1;
    }
    assert(all.take(all.len() as int) =~= all);
    let text = chars_of(joined(&body, "\n").as_str());
    let mut out = string_of(trimmed_end(&text, CharSet::White));
    out.push('\n');
    out
}

/// The text of a file that is reset; `None` where nothing changes.
pub fn reset_text(content: &str) -> (r: Option<String>)
    ensures
        match r {
            Some(s) => s@ == stripped(content@) && s@ != content@,
            None => stripped(content@) == content@,
        },
{
    let cleaned = strip_markers(content);
    if same(cleaned.as_str(), content) {
        None
    } else {
        Some(cleaned)
    }
}

/// A marker with a number.
pub open spec fn marker(count: nat) -> Seq<char> {
    "<!-- looper demo tick "@ + decimal(count) + " -->"@
}

/// What is put behind a document's text.
pub open spec fn tick(count: nat) -> Seq<char> {
    "\n"@ + marker(count) + "\n"@
}

/// Which of `docs` documents the edit of a number changes, and what is put behind its text.
pub fn edit(count: usize, docs: usize) -> (r: (usize, String))
    requires
        docs > 0,
    ensures
        r.0 == count % docs,
        r.1@ == tick(count as nat),
{
    let mut m = "<!-- looper demo tick ".to_owned();
    m.append(decimal_of(count as u64).as_str());
    m.append(" -->");
    let mut s = "\n".to_owned();
    s.append(m.as_str());
    s.append("\n");
    (count % docs, s)
}

/// Whether a file is a document of the demo.
pub fn is_doc(path: &str) -> (r: bool)
    ensures
        r == (extension_of(path@) == Some("md"@)),
{
    match extension(path) {
        Some(e) => same(e.as_str(), "md"),
        None => false,
    }
}

proof fn lemma_kept_push(ls: Seq<Seq<char>>, l: Seq<char>)
    ensures
        kept(ls.push(l)) == if marks(trim_white(l)) {
            kept(ls)
        } else {
            kept(ls).push(l)
        },
{
    assert(ls.push(l).drop_last() =~= ls);
}

proof fn lemma_kept(ls: Seq<Seq<char>>)
    requires
        forall|k: int| 0 <= k < ls.len() ==> !(#[trigger] ls[k]).contains('\n'),
    ensures
        forall|k: int|
            0 <= k < kept(ls).len() ==> !(#[trigger] kept(ls)[k]).contains('\n') && !marks(
                trim_white(kept(ls)[k]),
            ),
    decreases ls.len(),
{
    if ls.len() > 0 {
        let rest = ls.drop_last();
        assert forall|k: int| 0 <= k < rest.len() implies !(#[trigger] rest[k]).contains('\n') by {
            assert(rest[k] == ls[k]);
        }
        lemma_kept(rest);
        let l = ls[ls.len() - 1];
        assert(!l.contains('\n'));
        assert forall|k: int| 0 <= k < kept(ls).len() implies !(#[trigger] kept(ls)[k]).contains(
            '\n',
        ) && !marks(trim_white(kept(ls)[k])) by {
            if k < kept(rest).len() {
                assert(kept(ls)[k] == kept(rest)[k]);
            }
        }
    }
}

proof fn lemma_nothing_marked(ls: Seq<Seq<char>>)
    requires
        forall|k: int| 0 <= k < ls.len() ==> !marks(trim_white(#[trigger] ls[k])),
    ensures
        kept(ls) == ls,
    decreases ls.len(),
{
    if ls.len() > 0 {
        let rest = ls.drop_last();
        assert forall|k: int| 0 <= k < rest.len() implies !marks(
            trim_white(#[trigger] rest[k]),
        ) by {
            assert(rest[k] == ls[k]);
        }
        lemma_nothing_marked(rest);
        assert(rest.push(ls.last()) =~= ls);
    } else {
        assert(ls =~= Seq::empty());
    }
}

proof fn lemma_digits(n: nat)
    ensures
        !decimal(n).contains('\n'),
    decreases n,
{
    reveal(decimal);
    if n >= 10 {
        lemma_digits(n / 10);
    }
    assert forall|i: int| 0 <= i < decimal(n).len() implies decimal(n)[i] != '\n' by {
        if n >= 10 {
            if i < decimal(n / 10).len() {
                assert(decimal(n)[i] == decimal(n / 10)[i]);
                assert(decimal(n / 10).contains(decimal(n / 10)[i]));
            }
        }
    }
}

proof fn lemma_marker(count: nat)
    ensures
        !marker(count).contains('\n'),
        without_return(marker(count)) == marker(count),
        marks(trim_white(marker(count))),
{
    reveal_strlit("<!-- looper demo tick ");
    reveal_strlit("<!-- looper demo tick");
    reveal_strlit(" -->");
    reveal_strlit("-->");
    lemma_digits(count);
    let m = marker(count);
    let a = "<!-- looper demo tick "@;
    let d = decimal(count);
    assert forall|i: int| 0 <= i < m.len() implies m[i] != '\n' by {
        if a.len() <= i < a.len() + d.len() {
            assert(m[i] == d[i - a.len()]);
            assert(d.contains(d[i - a.len()]));
        }
    }
    assert(m.last() == '>');
    assert(m[0] == '<');
    assert(trim_start(m, CharSet::White) == m);
    assert(trim_end(m, CharSet::White) == m);
    assert(m.subrange(0, "<!-- looper demo tick"@.len() as int) =~= "<!-- looper demo tick"@);
    assert(m.subrange(m.len() - 3, m.len() as int) =~= "-->"@);
}

/// One line feed more at the end of a text does not count once it is stripped.
proof fn lemma_stripped_feed(content: Seq<char>)
    ensures
        stripped(content.push('\n')) == stripped(content),
{
    reveal_strlit("\n");
    reveal_strlit("<!-- looper demo tick");
    let feed = "\n"@;
    let all = lines(content);
    let ks = kept(all);
    lemma_lines_push_feed(content);
    let none = Seq::<char>::empty();
    assert(!marks(trim_white(none)));
    if content.len() == 0 {
        assert(seq![none] =~= Seq::<Seq<char>>::empty().push(none));
        lemma_kept_push(Seq::empty(), none);
        assert(all =~= Seq::<Seq<char>>::empty());
        assert(kept(seq![none]) =~= seq![none]);
        assert(join(seq![none], feed) =~= join(ks, feed));
    } else if content.last() == '\n' {
        lemma_kept_push(all, none);
        lemma_join_push(ks, none, feed);
        lemma_trim_end_concat(join(ks, feed), feed, CharSet::White);
        assert(feed.drop_last() =~= none);
        assert(trim_end(feed, CharSet::White) == trim_end(none, CharSet::White));
        assert(join(ks, feed) + feed + none =~= join(ks, feed) + feed);
        assert(ks.len() == 0 ==> join(ks, feed) =~= none);
    } else {
        let init = all.drop_last();
        let l = all.last();
        let w = without_return(l);
        lemma_trim_without_return(l);
        lemma_kept_push(init, l);
        lemma_kept_push(init, w);
        assert(init.push(l) =~= all);
        if !marks(trim_white(l)) {
            let hs = kept(init);
            lemma_join_push(hs, l, feed);
            lemma_join_push(hs, w, feed);
            if l.len() > 0 && l.last() == '\r' {
                let a = join(hs.push(l), feed);
                assert(a.drop_last() =~= join(hs.push(w), feed));
            }
        }
    }
}

/// Stripping a text that a marker was put behind gives what stripping the text itself gives.
pub proof fn stripping_undoes_an_edit(content: Seq<char>, count: nat)
    ensures
        stripped(content + tick(count)) == stripped(content),
{
    reveal_strlit("\n");
    lemma_marker(count);
    lemma_stripped_feed(content);
    let m = marker(count);
    let head = content.push('\n');
    assert(content + tick(count) =~= head + m.push('\n'));
    lemma_lines_concat(head, m.push('\n'));
    lemma_one_line(m);
    assert(lines(head) + seq![m] =~= lines(head).push(m));
    lemma_kept_push(lines(head), m);
}

/// Every piece of joined lines whose end was trimmed is no marker, where the lines are none.
proof fn lemma_pieces_unmarked(ps: Seq<Seq<char>>)
    requires
        forall|k: int|
            0 <= k < ps.len() ==> !(#[trigger] ps[k]).contains('\n') && !marks(trim_white(ps[k])),
    ensures
        ({
            let t = split(trim_end(join(ps, "\n"@), CharSet::White), '\n');
            forall|k: int| 0 <= k < t.len() ==> !marks(trim_white(#[trigger] t[k]))
        }),
    decreases ps.len(),
{
    reveal_strlit("\n");
    reveal_strlit("<!-- looper demo tick");
    let feed = "\n"@;
    let none = Seq::<char>::empty();
    assert(feed =~= seq!['\n']);
    if ps.len() == 0 {
        assert(join(ps, feed) =~= none);
        assert(trim_end(none, CharSet::White) =~= none);
        assert(split(none, '\n') =~= seq![none]);
        assert(!marks(trim_white(none)));
    } else {
        let l = ps.last();
        let qs = ps.drop_last();
        assert(qs.push(l) =~= ps);
        assert forall|k: int| 0 <= k < qs.len() implies !(#[trigger] qs[k]).contains('\n')
            && !marks(trim_white(qs[k])) by {
            assert(qs[k] == ps[k]);
        }
        lemma_join_push(qs, l, feed);
        let before = if qs.len() == 0 {
            none
        } else {
            join(qs, feed) + feed
        };
        assert(join(ps, feed) =~= before + l);
        lemma_trim_end_concat(before, l, CharSet::White);
        let t = trim_end(l, CharSet::White);
        lemma_trim_end(l, CharSet::White);
        if t.len() > 0 {
            lemma_join_push(qs, t, feed);
            assert(before + t =~= join(qs.push(t), feed));
            lemma_trim_of_trimmed_end(l, CharSet::White);
            assert(!ps[ps.len() - 1].contains('\n'));
            if t.contains('\n') {
                let j = choose|j: int| 0 <= j < t.len() && t[j] == '\n';
                assert(l[j] == '\n');
                assert(l.contains('\n'));
            }
            assert forall|k: int| 0 <= k < qs.push(t).len() implies !(#[trigger] qs.push(
                t,
            )[k]).contains('\n') by {
                if k < qs.len() {
                    assert(qs.push(t)[k] == qs[k]);
                }
            }
            lemma_join_split(qs.push(t), '\n');
        } else {
            lemma_pieces_unmarked(qs);
            lemma_trim_end_concat(join(qs, feed), feed, CharSet::White);
            assert(feed.drop_last() =~= none);
            assert(trim_end(feed, CharSet::White) == trim_end(none, CharSet::White));
            if qs.len() == 0 {
                assert(join(qs, feed) =~= none);
            }
        }
    }
}

/// A carriage return at the end of one of joined lines stands before a line feed.
proof fn lemma_return_before_feed(ls: Seq<Seq<char>>, k: int)
    requires
        0 <= k < ls.len(),
        ls[k].len() > 0,
        ls[k].last() == '\r',
    ensures
        exists|i: int| occurs_at(join(ls, "\n"@).push('\n'), "\r\n"@, i),
    decreases ls.len(),
{
    reveal_strlit("\n");
    reveal_strlit("\r\n");
    let feed = "\n"@;
    let crlf = "\r\n"@;
    let whole = join(ls, feed).push('\n');
    if k == 0 {
        let i = ls[0].len() - 1;
        assert(whole[i] == '\r');
        assert(whole[i + 1] == '\n');
        assert(whole.subrange(i, i + 2) =~= crlf);
        assert(occurs_at(whole, crlf, i));
    } else {
        let rest = ls.drop_first();
        lemma_return_before_feed(rest, k - 1);
        let tail = join(rest, feed).push('\n');
        let j = choose|i: int| occurs_at(tail, crlf, i);
        let n = ls[0].len() + 1;
        assert(whole =~= ls[0] + feed + tail);
        assert(whole.subrange(n + j, n + j + 2) =~= tail.subrange(j, j + 2));
        assert(occurs_at(whole, crlf, n + j));
    }
}

/// Stripping a stripped text changes nothing, where the stripped text has no carriage return
/// before a line feed.
pub proof fn stripping_twice_is_stripping_once(content: Seq<char>)
    requires
        forall|i: int| !occurs_at(stripped(content), "\r\n"@, i),
    ensures
        stripped(stripped(content)) == stripped(content),
{
    reveal_strlit("\n");
    let feed = "\n"@;
    assert(feed =~= seq!['\n']);
    let all = lines(content);
    let ks = kept(all);
    assert forall|k: int| 0 <= k < all.len() implies !(#[trigger] all[k]).contains('\n') by {
        lemma_lines_hold_no_feed(content, k);
    }
    lemma_kept(all);
    lemma_pieces_unmarked(ks);
    let t = trim_end(join(ks, feed), CharSet::White);
    lemma_trim_end(join(ks, feed), CharSet::White);
    let ls = split(t, '\n');
    lemma_split_join(t, '\n');
    assert forall|k: int| 0 <= k < ls.len() implies !(#[trigger] ls[k]).contains('\n') by {
        if ls[k].contains('\n') {
            let j = choose|j: int| 0 <= j < ls[k].len() && ls[k][j] == '\n';
            assert(split(t, '\n')[k][j] != '\n');
        }
    }
    lemma_lines_of_joined(ls);
    let f = |l: Seq<char>| without_return(l);
    assert forall|k: int| 0 <= k < ls.len() implies without_return(#[trigger] ls[k]) == ls[k] by {
        if ls[k].len() > 0 && ls[k].last() == '\r' {
            lemma_return_before_feed(ls, k);
            assert(join(ls, feed).push('\n') == stripped(content));
            let i = choose|i: int| occurs_at(join(ls, feed).push('\n'), "\r\n"@, i);
            assert(occurs_at(stripped(content), "\r\n"@, i));
        }
    }
    assert(ls.map_values(f) =~= ls);
    lemma_nothing_marked(ls);
}

} // verus!
