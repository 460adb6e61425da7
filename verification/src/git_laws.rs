//! What is told of git: the names of repositories, the lines of ignore files, and failures.

use crate::git::{is_pruned_dir, last_segment, remote_name};
use crate::gitignore::{after_edit, all_blank, anchored, edit_for, other_lines};
use crate::path::{last_index_of, lemma_last_index_of, lowered};
use crate::sync::{code_text, failure_text, printed, tells_of_auth, Failure, Output, Reply};
use crate::text::{contains, ends, join, lines, starts, trim_end, trim_white, CharSet};
use crate::text_laws::{
    bare, blank, contained_texts_are_parts, lemma_bare_is_trimmed, lemma_contains_part,
    lemma_last_index_before, made_of, trimming_takes_off, trimming_the_end_takes_off,
};
use vstd::prelude::*;

verus! {

/// The repository at an address is called by what stands behind the last slash or colon,
/// without `.git`.
pub proof fn repositories_are_called_by_their_address(base: Seq<char>, sep: char, name: Seq<char>)
    requires
        bare(base),
        bare(name),
        sep == '/' || sep == ':',
        !name.contains('/'),
        !name.contains(':'),
        !ends(name, ".git"@),
    ensures
        remote_name(base + seq![sep] + name) == name,
        remote_name(base + seq![sep] + name + ".git"@) == name,
        remote_name(base + seq![sep] + name + ".git/"@) == name,
{
    reveal_strlit(".git");
    reveal_strlit(".git/");
    let s = base + seq![sep] + name;
    lemma_segment(base, sep, name);
    lemma_bare_is_trimmed(name);
    let e = Seq::<char>::empty();
    // as it stands
    assert(bare(s));
    lemma_bare_is_trimmed(s);
    assert(s.last() == name.last());
    assert(name.contains(name.last()));
    lemma_no_slash_at_end(s);
    assert(!ends(s, ".git"@)) by {
        if ends(s, ".git"@) {
            lemma_ends_in_name(base, sep, name);
        }
    }
    // with the extension
    let t = s + ".git"@;
    assert(bare(t));
    lemma_bare_is_trimmed(t);
    lemma_no_slash_at_end(t);
    assert(t.subrange(t.len() - 4, t.len() as int) =~= ".git"@);
    assert(t.take(t.len() - 4) =~= s);
    // and with a slash
    let u = s + ".git/"@;
    assert(u =~= t + seq!['/']);
    assert(bare(u));
    lemma_bare_is_trimmed(u);
    assert(made_of(seq!['/'], CharSet::Only('/')));
    trimming_the_end_takes_off(t, seq!['/'], CharSet::Only('/'));
}

proof fn lemma_no_slash_at_end(s: Seq<char>)
    requires
        s.len() > 0,
        s.last() != '/',
    ensures
        trim_end(s, CharSet::Only('/')) == s,
{
}

proof fn lemma_segment(base: Seq<char>, sep: char, name: Seq<char>)
    requires
        sep == '/' || sep == ':',
        !name.contains('/'),
        !name.contains(':'),
    ensures
        last_segment(base + seq![sep] + name) == name,
{
    let s = base + seq![sep] + name;
    lemma_last_index_before(base, sep, name);
    let other = if sep == '/' {
        ':'
    } else {
        '/'
    };
    lemma_last_index_of(s, other);
    let i = last_index_of(s, other);
    if i > base.len() {
        assert(s[i] == name[i - base.len() - 1]);
        assert(name.contains(other));
    }
    assert(s.skip(base.len() as int + 1) =~= name);
}

proof fn lemma_ends_in_name(base: Seq<char>, sep: char, name: Seq<char>)
    requires
        sep == '/' || sep == ':',
        name.len() > 0,
        ends(base + seq![sep] + name, ".git"@),
    ensures
        ends(name, ".git"@),
{
    reveal_strlit(".git");
    let s = base + seq![sep] + name;
    let n = s.len() as int;
    let p = s.subrange(n - 4, n);
    assert(p[0] == '.' && p[1] == 'g' && p[2] == 'i' && p[3] == 't');
    if name.len() < 4 {
        let at = base.len() - (n - 4);
        assert(p[at] == s[base.len() as int]);
        assert(s[base.len() as int] == sep);
    } else {
        assert(name.subrange(name.len() - 4, name.len() as int) =~= p);
    }
}

// -------------------------------------------------------------------------- ignore files

/// Every line but the given one stays, in its order.
pub proof fn other_lines_stay(a: Seq<Seq<char>>, b: Seq<Seq<char>>, line: Seq<char>)
    ensures
        other_lines(a + b, line) == other_lines(a, line) + other_lines(b, line),
        forall|i: int|
            0 <= i < a.len() && trim_white(#[trigger] a[i]) != line ==> other_lines(
                a,
                line,
            ).contains(a[i]),
        forall|k: int|
            0 <= k < other_lines(a, line).len() ==> trim_white(#[trigger] other_lines(a, line)[k])
                != line && a.contains(other_lines(a, line)[k]),
    decreases a.len() + b.len(),
{
    if b.len() > 0 {
        other_lines_stay(a, b.drop_last(), line);
        assert((a + b).drop_last() =~= a + b.drop_last());
        assert((a + b).last() == b.last());
        assert(other_lines(a + b, line) =~= other_lines(a, line) + other_lines(b, line));
    } else {
        assert(a + b =~= a);
        assert(other_lines(a, line) + other_lines(b, line) =~= other_lines(a, line));
        if a.len() > 0 {
            let rest = a.drop_last();
            other_lines_stay(rest, b, line);
            let before = other_lines(rest, line);
            let all = other_lines(a, line);
            assert forall|i: int|
                0 <= i < a.len() && trim_white(#[trigger] a[i]) != line implies all.contains(
                a[i],
            ) by {
                if i < rest.len() {
                    assert(rest[i] == a[i]);
                    let k = choose|k: int| 0 <= k < before.len() && before[k] == a[i];
                    assert(all[k] == a[i]);
                } else {
                    assert(all[before.len() as int] == a[i]);
                }
            }
            assert forall|k: int| 0 <= k < all.len() implies trim_white(#[trigger] all[k]) != line
                && a.contains(all[k]) by {
                if k < before.len() {
                    assert(all[k] == before[k]);
                    assert(rest.contains(before[k]));
                    let i = choose|i: int| 0 <= i < rest.len() && rest[i] == before[k];
                    assert(a[i] == all[k]);
                } else {
                    assert(a[a.len() - 1] == all[k]);
                }
            }
        }
    }
}

/// An ignore file that gets a line keeps all that it held before; and one is only deleted where
/// nothing else to see is in it.
pub proof fn ignore_files_keep_what_they_held(content: Seq<char>, name: Seq<char>)
    ensures
        edit_for(content, name, true) !is Delete,
        starts(after_edit(content, edit_for(content, name, true)), content),
        edit_for(content, name, false) is Delete ==> forall|i: int|
            0 <= i < lines(content).len() ==> trim_white(#[trigger] lines(content)[i]).len() == 0
                || trim_white(lines(content)[i]) == anchored(name),
{
    let out = after_edit(content, edit_for(content, name, true));
    assert(out.subrange(0, content.len() as int) =~= content);
    let ls = lines(content);
    let line = anchored(name);
    other_lines_stay(ls, Seq::empty(), line);
    if edit_for(content, name, false) is Delete {
        let kept = other_lines(ls, line);
        assert(all_blank(kept));
        assert forall|i: int| 0 <= i < ls.len() implies trim_white(#[trigger] ls[i]).len() == 0
            || trim_white(ls[i]) == line by {
            if trim_white(ls[i]) != line {
                assert(kept.contains(ls[i]));
                let k = choose|k: int| 0 <= k < kept.len() && kept[k] == ls[i];
                assert(trim_white(kept[k]).len() == 0);
            }
        }
    }
}

// ------------------------------------------------------------------------------ failures

/// What git says of a failed authentication.
pub open spec fn is_auth_phrase(s: Seq<char>) -> bool {
    s == "authentication failed"@ || s == "could not read username"@ || s == "permission denied"@
        || s == "publickey"@ || s == "invalid username or password"@
}

/// A command that failed with such words, in capital letters or small ones and whatever stands
/// round them, failed to authenticate, and what it printed is told.
pub proof fn failed_authentication_is_told(
    dir: Seq<char>,
    args: Seq<Seq<char>>,
    before: Seq<char>,
    phrase: Seq<char>,
    after: Seq<char>,
    code: Option<i32>,
    stdout: Seq<char>,
)
    requires
        is_auth_phrase(lowered(phrase)),
    ensures
        ({
            let stderr = before + phrase + after;
            let out = Output { success: false, code, stdout, stderr };
            &&& printed(dir, args, Reply::Ran(out)) == Err::<Seq<char>, Failure>(
                Failure::Auth(dir, stderr),
            )
        }),
{
    let stderr = before + phrase + after;
    assert(lowered(stderr) =~= lowered(before) + lowered(phrase) + lowered(after));
    lemma_contains_part(lowered(before), lowered(phrase), lowered(after));
}

/// A command that ran with success gave what it printed, without the white space round it. One
/// that failed, not for want of authentication, is told by its words, its exit code and what it
/// printed; and one that did not run by the reason.
pub proof fn commands_give_what_they_printed(
    dir: Seq<char>,
    args: Seq<Seq<char>>,
    out: Output,
    gap: Seq<char>,
    text: Seq<char>,
    tail: Seq<char>,
    reason: Seq<char>,
)
    requires
        bare(text),
        blank(gap),
        blank(tail),
        out.stdout == gap + text + tail,
    ensures
        out.success ==> printed(dir, args, Reply::Ran(out)) == Ok::<Seq<char>, Failure>(text),
        !out.success && !tells_of_auth(out.stderr) ==> printed(dir, args, Reply::Ran(out)) == Err::<
            Seq<char>,
            Failure,
        >(Failure::GitCli(join(args, " "@), out.code, out.stderr)),
        printed(dir, args, Reply::Failed(reason)) == Err::<Seq<char>, Failure>(
            Failure::Io(reason),
        ),
{
    trimming_takes_off(gap, text, tail, CharSet::White);
    lemma_bare_is_trimmed(text);
}

/// What a failure says holds all that it is about.
pub proof fn failures_say_what_they_are_about(
    a: Seq<char>,
    b: Seq<char>,
    code: Option<i32>,
)
    ensures
        contains(failure_text(Failure::NotARepo(a)), a),
        contains(failure_text(Failure::NoRemote(a)), a),
        contains(failure_text(Failure::NotOnSyncBranch(a, b)), a),
        contains(failure_text(Failure::NotOnSyncBranch(a, b)), b),
        contains(failure_text(Failure::GitCli(a, code, b)), a),
        contains(failure_text(Failure::GitCli(a, code, b)), b),
        contains(failure_text(Failure::GitCli(a, code, b)), code_text(code)),
        contains(failure_text(Failure::Auth(a, b)), a),
        contains(failure_text(Failure::Auth(a, b)), b),
        contains(failure_text(Failure::Timeout(a)), a),
        failure_text(Failure::Io(a)) == a,
{
    let e = Seq::<char>::empty();
    let t = failure_text(Failure::NotARepo(a));
    contained_texts_are_parts(t, a);
    assert(t =~= e + a + " is not a git repository"@);
    let t = failure_text(Failure::NoRemote(a));
    contained_texts_are_parts(t, a);
    assert(t =~= "no git remote configured for "@ + a + e);
    let t = failure_text(Failure::NotOnSyncBranch(a, b));
    contained_texts_are_parts(t, a);
    contained_texts_are_parts(t, b);
    assert(t =~= ("folder is on branch "@ + b + ", expected "@) + a + e);
    assert(t =~= "folder is on branch "@ + b + (", expected "@ + a));
    let t = failure_text(Failure::GitCli(a, code, b));
    contained_texts_are_parts(t, a);
    contained_texts_are_parts(t, b);
    contained_texts_are_parts(t, code_text(code));
    assert(t =~= "git "@ + a + (" failed (exit "@ + code_text(code) + "): "@ + b));
    assert(t =~= ("git "@ + a + " failed (exit "@) + code_text(code) + ("): "@ + b));
    assert(t =~= ("git "@ + a + " failed (exit "@ + code_text(code) + "): "@) + b + e);
    let t = failure_text(Failure::Auth(a, b));
    contained_texts_are_parts(t, a);
    contained_texts_are_parts(t, b);
    assert(t =~= "git authentication failed for "@ + a + (": "@ + b));
    assert(t =~= ("git authentication failed for "@ + a + ": "@) + b + e);
    let t = failure_text(Failure::Timeout(a));
    contained_texts_are_parts(t, a);
    assert(t =~= "git operation timed out: "@ + a + e);
}

/// Hidden directories are not searched for repositories, and only `node_modules` and `target` of
/// the others are not.
pub proof fn hidden_directories_are_not_searched(name: Seq<char>)
    ensures
        name.len() > 0 && name[0] == '.' ==> is_pruned_dir(name),
        is_pruned_dir("node_modules"@) && is_pruned_dir("target"@),
        (name.len() == 0 || name[0] != '.') && name != "node_modules"@ && name != "target"@
            ==> !is_pruned_dir(name),
{
    reveal_strlit(".");
    if name.len() > 0 && name[0] == '.' {
        assert(name.subrange(0, 1) =~= "."@);
    }
    if starts(name, "."@) {
        assert(name.subrange(0, 1)[0] == name[0]);
    }
}

} // verus!
