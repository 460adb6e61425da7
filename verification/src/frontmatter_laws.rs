//! What frontmatter is: what stands between the first line, of three dashes, and the next such
//! line; the rest is the body.

use crate::frontmatter::{after_open, document, sections, split_once};
use crate::text::{contains, find, lemma_find_from, occurs_at, starts};
use crate::yaml::parsed;
use vstd::prelude::*;

verus! {

/// The place of a text behind one that it does not end earlier with.
pub proof fn lemma_found_behind(s: Seq<char>, p: Seq<char>, t: Seq<char>)
    requires
        p.len() > 0,
        !contains((s + p).drop_last(), p),
    ensures
        split_once(s + p + t, p) == Some((s, t)),
{
    let all = s + p + t;
    let head = (s + p).drop_last();
    let n = s.len() as int;
    lemma_find_from(all, p, 0);
    lemma_find_from(head, p, 0);
    assert(all.subrange(n, n + p.len()) =~= p);
    assert(occurs_at(all, p, n));
    let k = find(all, p)->0;
    assert(k <= n);
    if k < n {
        assert(head.subrange(k, k + p.len()) =~= all.subrange(k, k + p.len()));
        assert(occurs_at(head, p, k));
    }
    assert(all.take(n) =~= s);
    assert(all.skip(n + p.len()) =~= t);
}

/// The first line of a text with frontmatter.
pub open spec fn opens(line: Seq<char>) -> bool {
    line == "---\n"@ || line == "---\r\n"@
}

pub proof fn lemma_opened(line: Seq<char>, rest: Seq<char>)
    requires
        opens(line),
    ensures
        after_open(line + rest) == Some(rest),
{
    reveal_strlit("---\n");
    reveal_strlit("---\r\n");
    let s = line + rest;
    assert(s.subrange(0, line.len() as int) =~= line);
    assert(s.skip(line.len() as int) =~= rest);
    if line == "---\r\n"@ {
        assert(s[3] == '\r');
        if starts(s, "---\n"@) {
            assert(s.subrange(0, 4)[3] == '\n');
        }
    }
}

/// Frontmatter is all that stands between its lines, and the body all that stands behind them,
/// however the lines end.
pub proof fn frontmatter_stands_between_its_lines(
    line: Seq<char>,
    yaml: Seq<char>,
    body: Seq<char>,
)
    requires
        opens(line),
    ensures
        !contains((yaml + "\n---\n"@).drop_last(), "\n---\n"@) ==> sections(
            line + (yaml + "\n---\n"@ + body),
        ) == Some((yaml, body)),
        !contains(yaml + "\n---\r\n"@ + body, "\n---\n"@) && !contains(
            (yaml + "\n---\r\n"@).drop_last(),
            "\n---\r\n"@,
        ) ==> sections(line + (yaml + "\n---\r\n"@ + body)) == Some((yaml, body)),
        !contains(yaml + "\n---"@, "\n---\n"@) && !contains(yaml + "\n---"@, "\n---\r\n"@)
            ==> sections(line + (yaml + "\n---"@)) == Some((yaml, Seq::<char>::empty())),
{
    reveal_strlit("\n---\n");
    reveal_strlit("\n---\r\n");
    reveal_strlit("\n---");
    lemma_opened(line, yaml + "\n---\n"@ + body);
    lemma_opened(line, yaml + "\n---\r\n"@ + body);
    lemma_opened(line, yaml + "\n---"@);
    if !contains((yaml + "\n---\n"@).drop_last(), "\n---\n"@) {
        lemma_found_behind(yaml, "\n---\n"@, body);
    }
    if !contains((yaml + "\n---\r\n"@).drop_last(), "\n---\r\n"@) {
        lemma_found_behind(yaml, "\n---\r\n"@, body);
    }
    let closed = yaml + "\n---"@;
    assert(closed.subrange(closed.len() - 4, closed.len() as int) =~= "\n---"@);
    assert(closed.take(closed.len() - 4) =~= yaml);
}

/// The document that a text holds: what its frontmatter is read as, and its body; without
/// frontmatter all of the text.
pub proof fn documents_are_read_from_their_sections(content: Seq<char>)
    ensures
        sections(content) matches Some((yaml, body)) ==> {
            &&& document(content).body == body
            &&& parsed(yaml) matches Some(m) ==> document(content).frontmatter == m
            &&& parsed(yaml) is None ==> document(content).frontmatter.len() == 0
        },
        sections(content) is None ==> document(content).body == content && document(
            content,
        ).frontmatter.len() == 0,
        !starts(content, "---\n"@) && !starts(content, "---\r\n"@) ==> sections(content) is None,
        !contains(content, "\n---"@) ==> sections(content) is None,
{
    if !contains(content, "\n---"@) {
        if let Some(rest) = after_open(content) {
            reveal_strlit("\n---\n");
            reveal_strlit("\n---\r\n");
            reveal_strlit("\n---");
            lemma_find_from(content, "\n---"@, 0);
            lemma_find_from(rest, "\n---\n"@, 0);
            lemma_find_from(rest, "\n---\r\n"@, 0);
            let d = content.len() - rest.len();
            assert forall|k: int| !occurs_at(rest, "\n---"@, k) by {
                if occurs_at(rest, "\n---"@, k) {
                    assert(content.subrange(k + d, k + d + 4) =~= rest.subrange(k, k + 4));
                    assert(occurs_at(content, "\n---"@, k + d));
                }
            }
            if let Some(k) = find(rest, "\n---\n"@) {
                assert(rest.subrange(k, k + 4) =~= rest.subrange(k, k + 5).take(4));
                assert("\n---\n"@.take(4) =~= "\n---"@);
                assert(occurs_at(rest, "\n---"@, k));
            }
            if let Some(k) = find(rest, "\n---\r\n"@) {
                assert(rest.subrange(k, k + 4) =~= rest.subrange(k, k + 6).take(4));
                assert("\n---\r\n"@.take(4) =~= "\n---"@);
                assert(occurs_at(rest, "\n---"@, k));
            }
        }
    }
}

} // verus!
