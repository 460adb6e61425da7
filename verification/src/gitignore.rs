//! Lines of a repository's `.gitignore` for links that are generated in it.
//!
//! A link that is to be ignored has one anchored line (`/kb`, say), which matches the
//! entry at the top of the repository and nothing else.

use crate::text::{
    chars_of, join, joined, lemma_lines_concat, lemma_lines_hold_no_feed, lemma_lines_of_joined,
    lemma_one_line, lemma_trim_without_return, lines, lines_of, same_chars, texts, trim_white,
    trimmed, without_return, CharSet,
};
use vstd::prelude::*;

verus! {

/// The anchored line for a link.
pub open spec fn anchored(name: Seq<char>) -> Seq<char> {
    "/"@ + name
}

/// Whether a text has a line that is, trimmed, the given one.
pub open spec fn has_line(content: Seq<char>, line: Seq<char>) -> bool {
    exists|i: int| 0 <= i < lines(content).len() && trim_white(#[trigger] lines(content)[i]) == line
}

/// The lines that are not, trimmed, the given one.
pub open spec fn other_lines(ls: Seq<Seq<char>>, line: Seq<char>) -> Seq<Seq<char>>
    decreases ls.len(),
{
    if ls.len() == 0 {
        ls
    } else if trim_white(ls.last()) == line {
        other_lines(ls.drop_last(), line)
    } else {
        other_lines(ls.drop_last(), line).push(ls.last())
    }
}

/// Whether all lines are blank.
pub open spec fn all_blank(ls: Seq<Seq<char>>) -> bool {
    forall|i: int| 0 <= i < ls.len() ==> trim_white(#[trigger] ls[i]).len() == 0
}

/// A text with a line break at its end, unless it is empty.
pub open spec fn whole_lines(s: Seq<char>) -> Seq<char> {
    if s.len() > 0 && s.last() != '\n' {
        s.push('\n')
    } else {
        s
    }
}

/// What is to be done with the file.
pub enum EditView {
    Keep,
    Write(Seq<char>),
    Delete,
}

/// What is to be done with a file of some content, so that it has the line of a link, or
/// has not.
pub open spec fn edit_for(content: Seq<char>, name: Seq<char>, enabled: bool) -> EditView {
    let line = anchored(name);
    let kept = other_lines(lines(content), line);
    if has_line(content, line) == enabled {
        EditView::Keep
    } else if enabled {
        EditView::Write(whole_lines(content) + line + "\n"@)
    } else if all_blank(kept) {
        EditView::Delete
    } else {
        EditView::Write(join(kept, "\n"@) + "\n"@)
    }
}

/// The content of a file after what is to be done with it; a deleted one counts as empty.
pub open spec fn after_edit(content: Seq<char>, edit: EditView) -> Seq<char> {
    match edit {
        EditView::Keep => content,
        EditView::Write(s) => s,
        EditView::Delete => Seq::empty(),
    }
}

/// What is to be done with a `.gitignore` file.
#[derive(Debug)]
pub enum GitignoreEdit {
    /// It is as it should be.
    Keep,
    /// It is to be written with this content.
    Write(String),
    /// Nothing is left in it: it is to be deleted.
    Delete,
}

impl View for GitignoreEdit {
    type V = EditView;

    open spec fn view(&self) -> EditView {
        match self {
            GitignoreEdit::Keep => EditView::Keep,
            GitignoreEdit::Write(s) => EditView::Write(s@),
            GitignoreEdit::Delete => EditView::Delete,
        }
    }
}

/// The anchored `.gitignore` line for a generated link at the top of a repository.
pub fn line_for(name: &str) -> (r: String)
    ensures
        r@ == anchored(name@),
{
    let mut line = "/".to_owned();
    line.append(name);
    line
}

fn trimmed_is(line: &str, wanted: &[char]) -> (r: bool)
    ensures
        r == (trim_white(line@) == wanted@),
{
    same_chars(trimmed(chars_of(line).as_slice(), CharSet::White), wanted)
}

fn holds_line(ls: &Vec<String>, wanted: &[char]) -> (r: bool)
    ensures
        r == exists|i: int|
            0 <= i < texts(ls@).len() && trim_white(#[trigger] texts(ls@)[i]) == wanted@,
{
    let mut i: usize = 0;
    while i < ls.len()
        invariant
            i <= ls@.len(),
            forall|k: int| 0 <= k < i ==> trim_white(#[trigger] texts(ls@)[k]) != wanted@,
        decreases ls.len() - i,
    {
        if trimmed_is(ls[i].as_str(), wanted) {
            assert(trim_white(texts(ls@)[i as int]) == wanted@);
            return true;
        }
        i = i + 1;
    }
    assert(texts(ls@).len() == ls@.len());
    false
}

/// Whether a `.gitignore` file has the anchored line for `name`; one that cannot be read
/// (`None`) has not.
pub fn contains(content: Option<&str>, name: &str) -> (r: bool)
    ensures
        r == match content {
            Some(c) => has_line(c@, anchored(name@)),
            None => false,
        },
{
    match content {
        Some(c) => {
            let ls = lines_of(chars_of(c).as_slice());
            holds_line(&ls, chars_of(line_for(name).as_str()).as_slice())
        },
        None => false,
    }
}

/// What is to be done with a `.gitignore` file (`None` where there is none), so that it
/// has the anchored line for `name` when `enabled`, and has not when not. A new line goes
/// to the end; other lines stay; a file with nothing left is deleted.
pub fn apply(content: Option<&str>, name: &str, enabled: bool) -> (r: GitignoreEdit)
    ensures
        r@ == edit_for(
            match content {
                Some(c) => c@,
                None => Seq::empty(),
            },
            name@,
            enabled,
        ),
{
    let existing = match content {
        Some(c) => c.to_owned(),
        None => String::new(),
    };
    let line = line_for(name);
    let wanted = chars_of(line.as_str());
    let cs = chars_of(existing.as_str());
    let ls = lines_of(cs.as_slice());
    let has = holds_line(&ls, wanted.as_slice());
    if has == enabled {
        return GitignoreEdit::Keep;
    }
    if enabled {
        let mut body = existing;
        if cs.len() > 0 && cs[cs.len() - 1] != '\n' {
            body.push('\n');
        }
        body.append(line.as_str());
        body.append("\n");
        return GitignoreEdit::Write(body);
    }
    let ghost all = texts(ls@);
    let mut kept: Vec<String> = Vec::new();
    let mut blank = true;
    let mut i: usize = 0;
    proof {
        assert(all.take(0) =~= Seq::empty());
        assert(texts(kept@) =~= other_lines(all.take(0), wanted@));
    }
    while i < ls.len()
        invariant
            i <= ls@.len(),
            all == texts(ls@),
            texts(kept@) == other_lines(all.take(i as int), wanted@),
            blank == all_blank(texts(kept@)),
        decreases ls.len() - i,
    {
        let ghost before = kept@;
        proof {
            assert(all.take(i + 1).drop_last() =~= all.take(i as int));
            assert(all.take(i + 1).last() == ls@[i as int]@);
        }
        if !trimmed_is(ls[i].as_str(), wanted.as_slice()) {
            let empty = trimmed(chars_of(ls[i].as_str()).as_slice(), CharSet::White).len() == 0;
            kept.push(ls[i].clone());
            proof {
                let was = texts(before);
                let now = texts(kept@);
                assert(now =~= was.push(ls@[i as int]@));
                if blank && empty {
                    assert forall|k: int| 0 <= k < now.len() implies trim_white(
                        #[trigger] now[k],
                    ).len() == 0 by {
                        if k < was.len() {
                            assert(now[k] == was[k]);
                        }
                    }
                } else if !blank {
                    let k = choose|k: int|
                        0 <= k < was.len() && trim_white(#[trigger] was[k]).len() != 0;
                    assert(now[k] == was[k]);
                } else {
                    assert(now[was.len() as int] == ls@[i as int]@);
                }
            }
            blank = blank && empty;
        }
        i = i + 1;
    }
    assert(all.take(all.len() as int) =~= all);
    if blank {
        return GitignoreEdit::Delete;
    }
    let mut body = joined(kept.as_slice(), "\n");
    body.append("\n");
    GitignoreEdit::Write(body)
}

// -------------------------------------------------------------------------- laws

/// Whether a name gives a line that is found again: it has no line break, and no white
/// space at its end.
pub open spec fn is_line_name(name: Seq<char>) -> bool {
    !anchored(name).contains('\n') && trim_white(anchored(name)) == anchored(name)
        && without_return(anchored(name)) == anchored(name)
}

/// Enabling adds the line behind all the others, or leaves a file that has it.
pub proof fn enabling_appends_the_line(content: Seq<char>, name: Seq<char>)
    requires
        is_line_name(name),
    ensures
        has_line(content, anchored(name)) ==> edit_for(content, name, true) == EditView::Keep,
        !has_line(content, anchored(name)) ==> lines(
            after_edit(content, edit_for(content, name, true)),
        ) == lines(whole_lines(content)).push(anchored(name)),
        has_line(after_edit(content, edit_for(content, name, true)), anchored(name)),
{
    reveal_strlit("\n");
    let line = anchored(name);
    let base = whole_lines(content);
    let out = base + line + "\n"@;
    let tail = line.push('\n');
    assert(out =~= base + tail);
    lemma_lines_concat(base, tail);
    lemma_one_line(line);
    assert(lines(out) =~= lines(base).push(line));
    assert(lines(out)[lines(base).len() as int] == line);
}

proof fn lemma_other_lines(ls: Seq<Seq<char>>, line: Seq<char>)
    ensures
        forall|k: int|
            0 <= k < other_lines(ls, line).len() ==> trim_white(
                #[trigger] other_lines(ls, line)[k],
            ) != line && ls.contains(other_lines(ls, line)[k]),
    decreases ls.len(),
{
    if ls.len() > 0 {
        let rest = ls.drop_last();
        lemma_other_lines(rest, line);
        let r = other_lines(ls, line);
        let before = other_lines(rest, line);
        assert forall|k: int| 0 <= k < r.len() implies trim_white(#[trigger] r[k]) != line
            && ls.contains(r[k]) by {
            if k < before.len() {
                assert(r[k] == before[k]);
                let j = choose|j: int| 0 <= j < rest.len() && rest[j] == before[k];
                assert(ls[j] == r[k]);
            } else {
                assert(ls[ls.len() - 1] == r[k]);
            }
        }
    }
}

/// Disabling takes the line out and keeps all the others: what is left are those, but for
/// a carriage return at the end of one, or nothing where they are blank.
pub proof fn disabling_removes_only_the_line(content: Seq<char>, name: Seq<char>)
    requires
        has_line(content, anchored(name)),
    ensures
        ({
            let out = after_edit(content, edit_for(content, name, false));
            let kept = other_lines(lines(content), anchored(name));
            &&& lines(out) == if all_blank(kept) {
                Seq::empty()
            } else {
                kept.map_values(|l: Seq<char>| without_return(l))
            }
            &&& !has_line(out, anchored(name))
        }),
{
    reveal_strlit("\n");
    let line = anchored(name);
    let all = lines(content);
    let kept = other_lines(all, line);
    let f = |l: Seq<char>| without_return(l);
    lemma_other_lines(all, line);
    let out = after_edit(content, edit_for(content, name, false));
    if all_blank(kept) {
        assert(lines(out) =~= Seq::empty());
    } else {
        assert("\n"@ =~= seq!['\n']);
        assert forall|k: int| 0 <= k < kept.len() implies !(#[trigger] kept[k]).contains('\n') by {
            let j = choose|j: int| 0 <= j < all.len() && all[j] == kept[k];
            lemma_lines_hold_no_feed(content, j);
        }
        lemma_lines_of_joined(kept);
        assert(out =~= join(kept, seq!['\n']).push('\n'));
        let shown = kept.map_values(f);
        assert(lines(out) == shown);
        assert forall|i: int| 0 <= i < shown.len() implies trim_white(#[trigger] shown[i])
            != line by {
            lemma_trim_without_return(kept[i]);
        }
    }
}

/// Doing the same twice changes nothing more.
pub proof fn applying_twice_is_applying_once(content: Seq<char>, name: Seq<char>, enabled: bool)
    requires
        is_line_name(name),
    ensures
        edit_for(after_edit(content, edit_for(content, name, enabled)), name, enabled)
            == EditView::Keep,
{
    if has_line(content, anchored(name)) != enabled {
        if enabled {
            enabling_appends_the_line(content, name);
        } else {
            disabling_removes_only_the_line(content, name);
        }
    }
}

} // verus!
