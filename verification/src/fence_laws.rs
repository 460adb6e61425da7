//! What holds of fenced regions, and of a body without its producer-owned ones, whatever the
//! body is.

use crate::bundle::{carried, with_regions};
use crate::fence::{
    any_preserved, brace_body, closer_line, closes_div, found, found_from, has_any_class, has_class,
    info_text, lemma_closer_line, lemma_found, lemma_line_pos, lemma_line_pos_shift,
    lemma_line_start, lemma_line_text, lemma_lines_fill_chars, lemma_pair_bounds,
    lemma_without_first_shorter, line_pos, line_start, opener_info_of, opens_region,
    preserved_classes, region_offsets_delimit_its_text, region_span, region_stop, region_text,
    region_texts, regions, shield_after, shield_opened, shielded, spliced, spliced_holds_no_region,
    stripped, tokens, without_first, without_indent, Shield,
};
use crate::frontmatter::{document, DocumentView};
use crate::text::{
    byte_len, index_of, is_white, lemma_byte_len_at_least, lemma_byte_len_concat, lemma_index_of,
    lemma_run, lemma_split_join, lemma_trim_start_push, run, split, trim_end, trim_start,
    trim_white, CharSet,
};
use vstd::prelude::*;

verus! {

// -------------------------------------------------------------- where regions stand

/// Whether a line stands in one of some regions, each given by its first and last line.
pub open spec fn in_region(rs: Seq<(int, int)>, k: int) -> bool {
    exists|m: int| 0 <= m < rs.len() && (#[trigger] rs[m]).0 <= k <= rs[m].1
}

/// The code block that is open before a line.
pub open spec fn code_before(lines: Seq<Seq<char>>, k: int) -> Option<Shield>
    decreases k,
{
    if k <= 0 {
        None
    } else {
        shield_after(lines[k - 1], code_before(lines, k - 1))
    }
}

proof fn lemma_closer_code(lines: Seq<Seq<char>>, j: int, depth: nat, shield: Option<Shield>)
    requires
        0 <= j <= lines.len(),
        shield == code_before(lines, j),
    ensures
        closer_line(lines, j, depth, shield) < lines.len() ==> code_before(
            lines,
            closer_line(lines, j, depth, shield) + 1,
        ) is None,
    decreases lines.len() - j,
{
    if j < lines.len() {
        let line = lines[j];
        assert(code_before(lines, j + 1) == shield_after(line, shield));
        if shielded(line, shield) {
            lemma_closer_code(lines, j + 1, depth, shield_after(line, shield));
        } else if opener_info_of(line) is Some {
            lemma_closer_code(lines, j + 1, depth + 1, None);
        } else if closes_div(line) {
            if depth > 1 {
                lemma_closer_code(lines, j + 1, (depth - 1) as nat, None);
            }
        } else {
            lemma_closer_code(lines, j + 1, depth, None);
        }
    }
}

proof fn lemma_cover(
    lines: Seq<Seq<char>>,
    i: int,
    shield: Option<Shield>,
    classes: Seq<Seq<char>>,
    k: int,
)
    requires
        0 <= i <= k < lines.len(),
        shield == code_before(lines, i),
        !shielded(lines[k], code_before(lines, k)),
        opens_region(lines[k], classes),
    ensures
        in_region(found_from(lines, i, shield, classes), k),
    decreases lines.len() - i,
{
    assert(code_before(lines, i + 1) == shield_after(lines[i], shield));
    if shielded(lines[i], shield) {
        lemma_cover(lines, i + 1, shield_after(lines[i], shield), classes, k);
    } else if opens_region(lines[i], classes) {
        let j = closer_line(lines, i + 1, 1, None);
        lemma_closer_line(lines, i + 1, 1, None);
        lemma_closer_code(lines, i + 1, 1, None);
        let more = found_from(lines, j + 1, None, classes);
        let all = found_from(lines, i, shield, classes);
        assert(all =~= seq![(i, j)] + more);
        if k <= j {
            assert(all[0] == (i, j));
        } else {
            lemma_cover(lines, j + 1, None, classes, k);
            let m = choose|m: int| 0 <= m < more.len() && (#[trigger] more[m]).0 <= k <= more[m].1;
            assert(all[m + 1] == more[m]);
        }
    } else {
        lemma_cover(lines, i + 1, None, classes, k);
    }
}

/// Every opener of the classes that stands at the start of a line outside of code blocks lies
/// inside a region: it opens one, or another that is open holds it.
pub proof fn regions_cover_every_opener(body: Seq<char>, classes: Seq<Seq<char>>, k: int)
    requires
        0 <= k < split(body, '\n').len(),
        !shielded(split(body, '\n')[k], code_before(split(body, '\n'), k)),
        opens_region(split(body, '\n')[k], classes),
    ensures
        exists|m: int|
            0 <= m < regions(body, classes).len() && (#[trigger] regions(body, classes)[m]).start
                <= line_start(split(body, '\n'), k) < regions(body, classes)[m].end,
{
    let lines = split(body, '\n');
    let f = found(body, classes);
    lemma_cover(lines, 0, None, classes, k);
    lemma_found(lines, 0, None, classes);
    let m = choose|m: int| 0 <= m < f.len() && (#[trigger] f[m]).0 <= k <= f[m].1;
    let (i, j) = f[m];
    lemma_line_start(lines, i, k);
    lemma_run(lines[k], CharSet::Only(':'));
    lemma_byte_len_at_least(lines[k]);
    lemma_line_start(lines, k, lines.len() as int);
    if k < j && j < lines.len() {
        lemma_line_start(lines, k, j);
    }
    assert(regions(body, classes)[m] == region_span(lines, i, j));
}

/// The lines from line `m` on are those of the text from there on, and before it stand the
/// lines before it.
proof fn lemma_split_at(body: Seq<char>, m: int, x: Seq<char>)
    requires
        0 <= m < split(body, '\n').len(),
    ensures
        ({
            let lines = split(body, '\n');
            let p = line_pos(lines, m);
            &&& 0 <= p <= body.len()
            &&& m > 0 ==> p > 0 && body[p - 1] == '\n'
            &&& split(body.skip(p), '\n') == lines.skip(m)
            &&& split(body.take(p) + x, '\n') == lines.take(m) + split(x, '\n')
        }),
    decreases body.len(),
{
    let lines = split(body, '\n');
    let at = index_of(body, '\n');
    lemma_index_of(body, '\n');
    if m == 0 {
        assert(body.skip(0) =~= body);
        assert(lines.skip(0) =~= lines);
        assert(body.take(0) + x =~= x);
        assert(lines.take(0) + split(x, '\n') =~= split(x, '\n'));
    } else {
        let first = body.take(at);
        let rest = body.skip(at + 1);
        let more = split(rest, '\n');
        assert(lines == seq![first] + more);
        lemma_split_at(rest, m - 1, x);
        lemma_line_pos_shift(first, more, m - 1);
        let q = line_pos(more, m - 1);
        let p = line_pos(lines, m);
        assert(p == at + 1 + q);
        assert(body.skip(p) =~= rest.skip(q));
        assert(lines.skip(m) =~= more.skip(m - 1));
        let y = body.take(p) + x;
        assert(y[at] == '\n');
        lemma_index_of(y, '\n');
        assert forall|i: int| 0 <= i < at implies y[i] != '\n' by {
            assert(y[i] == body[i]);
        }
        assert(index_of(y, '\n') == at);
        assert(y.take(at) =~= first);
        assert(y.skip(at + 1) =~= rest.take(q) + x);
        assert(lines.take(m) + split(x, '\n') =~= seq![first] + (more.take(m - 1) + split(
            x,
            '\n',
        )));
        if m > 1 {
            assert(body[p - 1] == rest[q - 1]);
        }
    }
}

/// Every region begins where a line begins that opens it, and ends where a line ends.
pub proof fn regions_are_whole_lines(body: Seq<char>, classes: Seq<Seq<char>>, m: int)
    requires
        0 <= m < regions(body, classes).len(),
    ensures
        exists|p: int, q: int|
            {
                &&& 0 <= p < q <= body.len()
                &&& regions(body, classes)[m].start == byte_len(#[trigger] body.take(p))
                &&& regions(body, classes)[m].end == byte_len(#[trigger] body.take(q))
                &&& p == 0 || body[p - 1] == '\n'
                &&& q == body.len() || body[q] == '\n'
                &&& opens_region(split(body.skip(p), '\n')[0], classes)
            },
{
    let lines = split(body, '\n');
    let n = lines.len() as int;
    let (i, j) = found(body, classes)[m];
    lemma_found(lines, 0, None, classes);
    region_offsets_delimit_its_text(body, classes, m);
    lemma_pair_bounds(body, i, j);
    lemma_lines_fill_chars(body);
    lemma_split_at(body, i, Seq::empty());
    let p = line_pos(lines, i);
    let q = region_stop(lines, j);
    let text = region_text(body, (i, j));
    assert(body.take(q) =~= body.take(p) + text);
    lemma_byte_len_concat(body.take(p), text);
    lemma_run(lines[i], CharSet::Only(':'));
    lemma_line_pos(lines, i, j);
    assert(lines.skip(i)[0] == lines[i]);
    if j + 1 < n {
        lemma_split_at(body, j + 1, Seq::empty());
        assert(line_pos(lines, j + 1) == q + 1);
    }
    assert(regions(body, classes)[m].start == byte_len(body.take(p)));
    assert(regions(body, classes)[m].end == byte_len(body.take(q)));
}

// ------------------------------------------------------------------ what stays

/// The lines from `k` on that stand in none of some regions.
pub open spec fn outside_from(lines: Seq<Seq<char>>, rs: Seq<(int, int)>, k: int) -> Seq<Seq<char>>
    decreases lines.len() - k,
{
    if k < 0 || k >= lines.len() {
        Seq::empty()
    } else if in_region(rs, k) {
        outside_from(lines, rs, k + 1)
    } else {
        seq![lines[k]] + outside_from(lines, rs, k + 1)
    }
}

/// The lines of a body outside of its producer-owned regions.
pub open spec fn outside(body: Seq<char>) -> Seq<Seq<char>> {
    outside_from(split(body, '\n'), found(body, preserved_classes()), 0)
}

/// The lines that are not blank, each without the white space at its end.
pub open spec fn contents(lines: Seq<Seq<char>>) -> Seq<Seq<char>>
    decreases lines.len(),
{
    if lines.len() == 0 {
        Seq::empty()
    } else {
        let line = trim_end(lines[0], CharSet::White);
        let rest = contents(lines.drop_first());
        if line.len() == 0 {
            rest
        } else {
            seq![line] + rest
        }
    }
}

/// Whether every line is empty or begins with something to see.
pub open spec fn flush_left(lines: Seq<Seq<char>>) -> bool {
    forall|i: int| 0 <= i < lines.len() ==> (#[trigger] lines[i]).len() == 0 || !is_white(lines[i][0])
}

/// Whether a line is passed over in the search of a producer-owned region.
spec fn passed(line: Seq<char>, shield: Option<Shield>) -> bool {
    shielded(line, shield) || !opens_region(line, preserved_classes())
}

/// The first producer-owned region of some lines.
spec fn first_region(ls: Seq<Seq<char>>, shield: Option<Shield>) -> Option<(int, int)>
    decreases ls.len(),
{
    if ls.len() == 0 {
        None
    } else if passed(ls[0], shield) {
        match first_region(ls.drop_first(), shield_after(ls[0], shield)) {
            Some((i, j)) => Some((i + 1, j + 1)),
            None => None,
        }
    } else {
        Some((0, closer_line(ls, 1, 1, None)))
    }
}

/// Some lines without their producer-owned regions.
spec fn author(ls: Seq<Seq<char>>, shield: Option<Shield>) -> Seq<Seq<char>>
    decreases ls.len(),
{
    if ls.len() == 0 {
        Seq::empty()
    } else if passed(ls[0], shield) {
        seq![ls[0]] + author(ls.drop_first(), shield_after(ls[0], shield))
    } else {
        proof {
            lemma_closer_line(ls, 1, 1, None);
        }
        let j = closer_line(ls, 1, 1, None);
        if 1 <= j < ls.len() {
            author(ls.skip(j + 1), None)
        } else {
            Seq::empty()
        }
    }
}

proof fn lemma_closer_shift(
    lines: Seq<Seq<char>>,
    k: int,
    j: int,
    depth: nat,
    shield: Option<Shield>,
)
    requires
        0 <= k <= lines.len(),
        0 <= j <= lines.len() - k,
    ensures
        closer_line(lines.skip(k), j, depth, shield) + k == closer_line(
            lines,
            j + k,
            depth,
            shield,
        ),
    decreases lines.len() - k - j,
{
    let ls = lines.skip(k);
    if j < ls.len() {
        let line = lines[j + k];
        assert(ls[j] == line);
        if shielded(line, shield) {
            lemma_closer_shift(lines, k, j + 1, depth, shield_after(line, shield));
        } else if opener_info_of(line) is Some {
            lemma_closer_shift(lines, k, j + 1, depth + 1, None);
        } else if closes_div(line) {
            if depth > 1 {
                lemma_closer_shift(lines, k, j + 1, (depth - 1) as nat, None);
            }
        } else {
            lemma_closer_shift(lines, k, j + 1, depth, None);
        }
    }
}

proof fn lemma_first(lines: Seq<Seq<char>>, k: int, shield: Option<Shield>)
    requires
        0 <= k <= lines.len(),
    ensures
        ({
            let f = found_from(lines, k, shield, preserved_classes());
            &&& f.len() > 0 <==> first_region(lines.skip(k), shield) is Some
            &&& first_region(lines.skip(k), shield) matches Some(r) ==> f[0] == (r.0 + k, r.1 + k)
        }),
    decreases lines.len() - k,
{
    let ls = lines.skip(k);
    if k < lines.len() {
        assert(ls[0] == lines[k]);
        assert(ls.drop_first() =~= lines.skip(k + 1));
        if passed(lines[k], shield) {
            lemma_first(lines, k + 1, shield_after(lines[k], shield));
        } else {
            lemma_closer_shift(lines, k, 1, 1, None);
        }
    }
}

proof fn lemma_author_first(ls: Seq<Seq<char>>, shield: Option<Shield>, x: Seq<Seq<char>>)
    requires
        first_region(ls, shield) is Some,
    ensures
        ({
            let (i, j) = first_region(ls, shield)->0;
            &&& 0 <= i < j <= ls.len()
            &&& author(ls, shield) == ls.take(i) + (if j < ls.len() {
                author(ls.skip(j + 1), None)
            } else {
                Seq::empty()
            })
            &&& author(ls.take(i) + x, shield) == ls.take(i) + author(x, None)
        }),
    decreases ls.len(),
{
    let (i, j) = first_region(ls, shield)->0;
    if passed(ls[0], shield) {
        let rest = ls.drop_first();
        let after = shield_after(ls[0], shield);
        lemma_author_first(rest, after, x);
        assert(ls.take(i) =~= seq![ls[0]] + rest.take(i - 1));
        if j < ls.len() {
            assert(rest.skip(j) =~= ls.skip(j + 1));
            assert(author(ls, shield) =~= ls.take(i) + author(ls.skip(j + 1), None));
        } else {
            assert(author(ls, shield) =~= ls.take(i) + Seq::<Seq<char>>::empty());
        }
        let y = ls.take(i) + x;
        assert(y[0] == ls[0]);
        assert(y.drop_first() =~= rest.take(i - 1) + x);
        assert(author(y, shield) =~= ls.take(i) + author(x, None));
    } else {
        lemma_closer_line(ls, 1, 1, None);
        assert(ls.take(0) + x =~= x);
        assert(ls.take(0) + author(x, None) =~= author(x, None));
        if j < ls.len() {
            assert(ls.take(0) + author(ls.skip(j + 1), None) =~= author(ls.skip(j + 1), None));
        } else {
            assert(ls.take(0) + Seq::<Seq<char>>::empty() =~= Seq::<Seq<char>>::empty());
        }
    }
}

proof fn lemma_author_all(ls: Seq<Seq<char>>, shield: Option<Shield>)
    requires
        first_region(ls, shield) is None,
    ensures
        author(ls, shield) == ls,
    decreases ls.len(),
{
    if ls.len() > 0 {
        lemma_author_all(ls.drop_first(), shield_after(ls[0], shield));
        assert(seq![ls[0]] + ls.drop_first() =~= ls);
    } else {
        assert(author(ls, shield) =~= ls);
    }
}

proof fn lemma_contents_concat(a: Seq<Seq<char>>, b: Seq<Seq<char>>)
    ensures
        contents(a + b) == contents(a) + contents(b),
    decreases a.len(),
{
    if a.len() == 0 {
        assert(a + b =~= b);
        assert(contents(a) + contents(b) =~= contents(b));
    } else {
        lemma_contents_concat(a.drop_first(), b);
        assert((a + b)[0] == a[0]);
        assert((a + b).drop_first() =~= a.drop_first() + b);
        assert(contents(a + b) =~= contents(a) + contents(b));
    }
}

proof fn lemma_empty_line()
    ensures
        !shielded(Seq::empty(), None),
        !opens_region(Seq::empty(), preserved_classes()),
        forall|s: Option<Shield>| passed(Seq::empty(), s),
        shield_after(Seq::empty(), None) is None,
        trim_end(Seq::empty(), CharSet::White) == Seq::<char>::empty(),
        split(Seq::empty(), '\n') == seq![Seq::<char>::empty()],
        contents(seq![Seq::<char>::empty()]) == Seq::<Seq<char>>::empty(),
{
    let e = Seq::<char>::empty();
    assert(seq![e].drop_first() =~= Seq::<Seq<char>>::empty());
    assert(contents(Seq::<Seq<char>>::empty()) =~= Seq::<Seq<char>>::empty());
    assert(without_indent(e) =~= e);
    assert(opener_info_of(e) is None);
    assert(split(e, '\n') =~= seq![e]);
}

proof fn lemma_leading_empty(ls: Seq<Seq<char>>)
    ensures
        author(seq![Seq::<char>::empty()] + ls, None) == seq![Seq::<char>::empty()] + author(
            ls,
            None,
        ),
        contents(seq![Seq::<char>::empty()] + ls) == contents(ls),
        first_region(seq![Seq::<char>::empty()] + ls, None) is None <==> first_region(
            ls,
            None,
        ) is None,
        flush_left(seq![Seq::<char>::empty()] + ls) ==> flush_left(ls),
{
    let e = Seq::<char>::empty();
    let all = seq![e] + ls;
    lemma_empty_line();
    assert(all[0] == e);
    assert(all.drop_first() =~= ls);
    if flush_left(all) {
        assert forall|i: int| 0 <= i < ls.len() implies (#[trigger] ls[i]).len() == 0 || !is_white(
            ls[i][0],
        ) by {
            assert(all[i + 1] == ls[i]);
        }
    }
}

proof fn lemma_split_feed(y: Seq<char>)
    requires
        y.len() > 0,
        y[0] == '\n',
    ensures
        split(y, '\n') == seq![Seq::<char>::empty()] + split(y.drop_first(), '\n'),
{
    assert(index_of(y, '\n') == 0);
    assert(y.take(0) =~= Seq::empty());
    assert(y.skip(1) =~= y.drop_first());
}

proof fn lemma_skip_feeds(y: Seq<char>)
    ensures
        ({
            let t = trim_start(y, CharSet::Only('\n'));
            &&& contents(author(split(t, '\n'), None)) == contents(author(split(y, '\n'), None))
            &&& flush_left(split(y, '\n')) ==> flush_left(split(t, '\n'))
        }),
    decreases y.len(),
{
    if y.len() > 0 && y[0] == '\n' {
        let rest = y.drop_first();
        lemma_skip_feeds(rest);
        lemma_split_feed(y);
        lemma_leading_empty(split(rest, '\n'));
        lemma_leading_empty(author(split(rest, '\n'), None));
    }
}

proof fn lemma_without_first(body: Seq<char>)
    requires
        any_preserved(body),
    ensures
        contents(author(split(without_first(body), '\n'), None)) == contents(
            author(split(body, '\n'), None),
        ),
        flush_left(split(body, '\n')) ==> flush_left(split(without_first(body), '\n')),
{
    let lines = split(body, '\n');
    let n = lines.len() as int;
    assert(lines.skip(0) =~= lines);
    lemma_first(lines, 0, None);
    let (i, j) = first_region(lines, None)->0;
    lemma_found(lines, 0, None, preserved_classes());
    lemma_pair_bounds(body, i, j);
    lemma_lines_fill_chars(body);
    let stop = region_stop(lines, j);
    let y = body.skip(stop);
    let t = trim_start(y, CharSet::Only('\n'));
    lemma_split_at(body, i, t);
    let kept = lines.take(i);
    let more = split(t, '\n');
    lemma_author_first(lines, None, more);
    assert(split(without_first(body), '\n') == kept + more);
    lemma_skip_feeds(y);
    lemma_contents_concat(kept, author(more, None));
    lemma_empty_line();
    let e = Seq::<char>::empty();
    if j + 1 < n {
        lemma_split_at(body, j + 1, e);
        assert(line_pos(lines, j + 1) == stop + 1);
        assert(y[0] == body[stop]);
        assert(y.drop_first() =~= body.skip(stop + 1));
        lemma_split_feed(y);
        lemma_leading_empty(lines.skip(j + 1));
        lemma_leading_empty(author(lines.skip(j + 1), None));
        lemma_contents_concat(kept, author(lines.skip(j + 1), None));
    } else {
        assert(y =~= e);
        assert(seq![e] =~= seq![e] + Seq::<Seq<char>>::empty());
        lemma_leading_empty(Seq::empty());
        lemma_leading_empty(author(Seq::empty(), None));
        assert(author(Seq::<Seq<char>>::empty(), None) =~= Seq::<Seq<char>>::empty());
        let behind = if j < n {
            author(lines.skip(j + 1), None)
        } else {
            Seq::empty()
        };
        assert(behind =~= Seq::<Seq<char>>::empty()) by {
            if j < n {
                assert(lines.skip(j + 1) =~= Seq::<Seq<char>>::empty());
            }
        }
        lemma_contents_concat(kept, behind);
    }
    if flush_left(lines) {
        assert forall|k: int| 0 <= k < split(y, '\n').len() implies (#[trigger] split(
            y,
            '\n',
        )[k]).len() == 0 || !is_white(split(y, '\n')[k][0]) by {
            if k > 0 {
                assert(split(y, '\n')[k] == lines.skip(j + 1)[k - 1]);
                assert(lines.skip(j + 1)[k - 1] == lines[j + k]);
            }
        }
        let all = kept + more;
        assert forall|k: int| 0 <= k < all.len() implies (#[trigger] all[k]).len() == 0 || !is_white(
            all[k][0],
        ) by {
            if k < i {
                assert(all[k] == lines[k]);
            } else {
                assert(all[k] == more[k - i]);
            }
        }
    }
}

proof fn lemma_spliced(body: Seq<char>)
    ensures
        contents(split(spliced(body), '\n')) == contents(author(split(body, '\n'), None)),
        flush_left(split(body, '\n')) ==> flush_left(split(spliced(body), '\n')),
    decreases body.len(),
{
    if any_preserved(body) {
        lemma_without_first_shorter(body);
        lemma_without_first(body);
        lemma_spliced(without_first(body));
    } else {
        let lines = split(body, '\n');
        assert(lines.skip(0) =~= lines);
        lemma_first(lines, 0, None);
        lemma_author_all(lines, None);
    }
}

proof fn lemma_outside_same(
    lines: Seq<Seq<char>>,
    a: Seq<(int, int)>,
    b: Seq<(int, int)>,
    k: int,
)
    requires
        0 <= k,
        forall|q: int| k <= q < lines.len() ==> in_region(a, q) == in_region(b, q),
    ensures
        outside_from(lines, a, k) == outside_from(lines, b, k),
    decreases lines.len() - k,
{
    if k < lines.len() {
        lemma_outside_same(lines, a, b, k + 1);
    }
}

proof fn lemma_outside_skip(lines: Seq<Seq<char>>, rs: Seq<(int, int)>, k: int, q: int)
    requires
        0 <= k <= q,
        forall|p: int| k <= p < q && p < lines.len() ==> in_region(rs, p),
    ensures
        outside_from(lines, rs, k) == outside_from(lines, rs, q),
    decreases q - k,
{
    if k < q && k < lines.len() {
        lemma_outside_skip(lines, rs, k + 1, q);
    }
}

proof fn lemma_outside(lines: Seq<Seq<char>>, k: int, shield: Option<Shield>)
    requires
        0 <= k <= lines.len(),
    ensures
        author(lines.skip(k), shield) == outside_from(
            lines,
            found_from(lines, k, shield, preserved_classes()),
            k,
        ),
    decreases lines.len() - k,
{
    let ls = lines.skip(k);
    let rs = found_from(lines, k, shield, preserved_classes());
    let classes = preserved_classes();
    lemma_found(lines, k, shield, classes);
    if k == lines.len() {
        assert(author(ls, shield) =~= outside_from(lines, rs, k));
    } else {
        assert(ls[0] == lines[k]);
        assert(ls.drop_first() =~= lines.skip(k + 1));
        if passed(lines[k], shield) {
            let after = shield_after(lines[k], shield);
            lemma_outside(lines, k + 1, after);
            assert(rs == found_from(lines, k + 1, after, classes));
            lemma_found(lines, k + 1, after, classes);
            assert(!in_region(rs, k));
        } else {
            let j = closer_line(lines, k + 1, 1, None);
            lemma_closer_line(lines, k + 1, 1, None);
            lemma_closer_shift(lines, k, 1, 1, None);
            let more = found_from(lines, j + 1, None, classes);
            lemma_found(lines, j + 1, None, classes);
            assert(rs =~= seq![(k, j)] + more);
            assert forall|p: int| k <= p < j + 1 && p < lines.len() implies in_region(rs, p) by {
                assert(rs[0] == (k, j));
            }
            lemma_outside_skip(lines, rs, k, j + 1);
            assert forall|q: int| j + 1 <= q < lines.len() implies in_region(rs, q) == in_region(
                more,
                q,
            ) by {
                if in_region(more, q) {
                    let m = choose|m: int|
                        0 <= m < more.len() && (#[trigger] more[m]).0 <= q <= more[m].1;
                    assert(rs[m + 1] == more[m]);
                }
                if in_region(rs, q) {
                    let m = choose|m: int| 0 <= m < rs.len() && (#[trigger] rs[m]).0 <= q <= rs[m].1;
                    assert(rs[m] == more[m - 1]);
                }
            }
            lemma_outside_same(lines, rs, more, j + 1);
            if j < lines.len() {
                lemma_outside(lines, j + 1, None);
                assert(ls.skip(j - k + 1) =~= lines.skip(j + 1));
            }
        }
    }
}

// -------------------------------------------------------------------- trimming

proof fn lemma_trim_front(s: Seq<char>)
    requires
        flush_left(split(s, '\n')),
    ensures
        ({
            let t = trim_start(s, CharSet::White);
            &&& flush_left(split(t, '\n'))
            &&& contents(split(t, '\n')) == contents(split(s, '\n'))
            &&& first_region(split(t, '\n'), None) is None <==> first_region(
                split(s, '\n'),
                None,
            ) is None
        }),
    decreases s.len(),
{
    if s.len() > 0 && is_white(s[0]) {
        lemma_index_of(s, '\n');
        let lines = split(s, '\n');
        if s[0] != '\n' {
            assert(lines[0].len() > 0 && lines[0][0] == s[0]);
        }
        lemma_split_feed(s);
        lemma_leading_empty(split(s.drop_first(), '\n'));
        lemma_trim_front(s.drop_first());
    }
}

proof fn lemma_split_push(r: Seq<char>, c: char)
    ensures
        ({
            let ls = split(r, '\n');
            split(r.push(c), '\n') == if c == '\n' {
                ls.push(Seq::empty())
            } else {
                ls.drop_last().push(ls.last().push(c))
            }
        }),
    decreases r.len(),
{
    let s = r.push(c);
    let at = index_of(r, '\n');
    let ls = split(r, '\n');
    lemma_index_of(r, '\n');
    lemma_index_of(s, '\n');
    lemma_empty_line();
    if at < r.len() {
        assert(s[at] == '\n');
        assert forall|i: int| 0 <= i < at implies s[i] != '\n' by {
            assert(s[i] == r[i]);
        }
        assert(index_of(s, '\n') == at);
        let rest = r.skip(at + 1);
        lemma_split_push(rest, c);
        assert(s.skip(at + 1) =~= rest.push(c));
        assert(s.take(at) =~= r.take(at));
        let more = split(rest, '\n');
        assert(ls.last() == more.last());
        assert(split(s, '\n') =~= if c == '\n' {
            ls.push(Seq::empty())
        } else {
            ls.drop_last().push(ls.last().push(c))
        });
    } else {
        assert(ls =~= seq![r]);
        assert forall|i: int| 0 <= i < r.len() implies s[i] != '\n' by {
            assert(s[i] == r[i]);
        }
        if c == '\n' {
            assert(s[r.len() as int] == '\n');
            assert(index_of(s, '\n') == r.len());
            assert(s.take(r.len() as int) =~= r);
            assert(s.skip(r.len() as int + 1) =~= Seq::empty());
            assert(split(s, '\n') =~= ls.push(Seq::empty()));
        } else {
            assert(index_of(s, '\n') == s.len()) by {
                if index_of(s, '\n') < s.len() {
                    let i = index_of(s, '\n');
                    assert(s[i] == '\n');
                }
            }
            assert(split(s, '\n') =~= seq![s]);
            assert(ls.drop_last().push(ls.last().push(c)) =~= seq![s]);
        }
    }
}

proof fn lemma_run_push(s: Seq<char>, c: char, set: CharSet)
    requires
        !set.has(c),
    ensures
        run(s.push(c), set) == run(s, set),
    decreases s.len(),
{
    let t = s.push(c);
    if s.len() > 0 {
        assert(t[0] == s[0]);
        assert(t.drop_first() =~= s.drop_first().push(c));
        lemma_run_push(s.drop_first(), c, set);
    }
}

proof fn lemma_trim_push(s: Seq<char>, c: char)
    requires
        is_white(c),
    ensures
        trim_white(s.push(c)) == trim_white(s),
{
    lemma_trim_start_push(s, c, CharSet::White);
    let t = trim_start(s, CharSet::White);
    if t.len() > 0 {
        assert(t.push(c).drop_last() =~= t);
    } else {
        assert(trim_end(Seq::<char>::empty(), CharSet::White) =~= Seq::<char>::empty());
        assert(t =~= Seq::<char>::empty());
    }
}

proof fn lemma_shield_push(x: Seq<char>, c: char)
    requires
        is_white(c),
    ensures
        shield_opened(x.push(c)) is Some == shield_opened(x) is Some,
{
    let y = x.push(c);
    let spaces = CharSet::Only(' ');
    lemma_run(x, spaces);
    lemma_run(y, spaces);
    let n = run(x, spaces) as int;
    if n < x.len() {
        let k = if n > 3 {
            3
        } else {
            n
        };
        assert(y[n] == x[n]);
        assert(run(y, spaces) == n) by {
            let m = run(y, spaces) as int;
            if m > n {
                assert(spaces.has(y[n]));
            } else if m < n {
                assert(y[m] == x[m]);
            }
        }
        let s = x.skip(k);
        assert(y.skip(k) =~= s.push(c));
        assert(s.push(c)[0] == s[0]);
        if s[0] == '`' || s[0] == '~' {
            lemma_run_push(s, c, CharSet::Only(s[0]));
        }
    } else {
        let s = without_indent(x);
        let u = without_indent(y);
        if s.len() > 0 {
            assert(s[0] == ' ');
        }
        if u.len() > 0 {
            let m = run(y, spaces) as int;
            let k = if m > 3 {
                3
            } else {
                m
            };
            assert(u[0] == y[k]);
            assert(is_white(y[k])) by {
                if k < x.len() {
                    assert(y[k] == x[k]);
                }
            }
        }
    }
}

proof fn lemma_info_push(x: Seq<char>, c: char)
    requires
        is_white(c),
    ensures
        opener_info_of(x.push(c)) is Some == opener_info_of(x) is Some,
        opens_region(x.push(c), preserved_classes()) == opens_region(x, preserved_classes()),
{
    let y = x.push(c);
    lemma_run_push(x, c, CharSet::Only(':'));
    lemma_run(x, CharSet::Only(':'));
    let n = run(x, CharSet::Only(':')) as int;
    let info = x.skip(n);
    assert(y.skip(n) =~= info.push(c));
    lemma_trim_push(info, c);
    let classes = preserved_classes();
    assert forall|i: int| 0 <= i < classes.len() implies has_class(
        info.push(c),
        #[trigger] classes[i],
    ) == has_class(info, classes[i]) by {
        assert(info_text(info.push(c)) == info_text(info));
        assert(brace_body(info.push(c)) == brace_body(info));
        assert(tokens(info.push(c)) == tokens(info));
    }
    assert(has_any_class(info.push(c), classes) == has_any_class(info, classes));
}

proof fn lemma_passed_push(x: Seq<char>, c: char, shield: Option<Shield>)
    requires
        is_white(c),
    ensures
        passed(x.push(c), shield) == passed(x, shield),
{
    lemma_shield_push(x, c);
    lemma_info_push(x, c);
}

proof fn lemma_last_line(
    ls: Seq<Seq<char>>,
    a: Seq<char>,
    b: Seq<char>,
    shield: Option<Shield>,
)
    requires
        forall|s: Option<Shield>| passed(a, s) == passed(b, s),
    ensures
        first_region(ls.push(a), shield) is None <==> first_region(ls.push(b), shield) is None,
    decreases ls.len(),
{
    let x = ls.push(a);
    let y = ls.push(b);
    if ls.len() > 0 {
        assert(x[0] == ls[0] && y[0] == ls[0]);
        assert(x.drop_first() =~= ls.drop_first().push(a));
        assert(y.drop_first() =~= ls.drop_first().push(b));
        lemma_last_line(ls.drop_first(), a, b, shield_after(ls[0], shield));
    } else {
        assert(x.drop_first() =~= Seq::<Seq<char>>::empty());
        assert(y.drop_first() =~= Seq::<Seq<char>>::empty());
        assert(passed(a, shield) == passed(b, shield));
        assert(first_region(x.drop_first(), shield_after(a, shield)) is None);
        assert(first_region(y.drop_first(), shield_after(b, shield)) is None);
    }
}

proof fn lemma_last_empty(ls: Seq<Seq<char>>, shield: Option<Shield>)
    ensures
        first_region(ls.push(Seq::empty()), shield) is None <==> first_region(ls, shield) is None,
    decreases ls.len(),
{
    let e = Seq::<char>::empty();
    let x = ls.push(e);
    lemma_empty_line();
    if ls.len() > 0 {
        assert(x[0] == ls[0]);
        assert(x.drop_first() =~= ls.drop_first().push(e));
        lemma_last_empty(ls.drop_first(), shield_after(ls[0], shield));
    } else {
        assert(x.drop_first() =~= Seq::<Seq<char>>::empty());
        assert(passed(e, shield));
        assert(first_region(x.drop_first(), shield_after(e, shield)) is None);
    }
}

proof fn lemma_contents_push(ls: Seq<Seq<char>>, a: Seq<char>)
    ensures
        contents(ls.push(a)) == contents(ls) + contents(seq![a]),
{
    assert(ls.push(a) =~= ls + seq![a]);
    lemma_contents_concat(ls, seq![a]);
}

proof fn lemma_trim_back(s: Seq<char>)
    ensures
        ({
            let t = trim_end(s, CharSet::White);
            &&& contents(split(t, '\n')) == contents(split(s, '\n'))
            &&& first_region(split(t, '\n'), None) is None <==> first_region(
                split(s, '\n'),
                None,
            ) is None
        }),
    decreases s.len(),
{
    if s.len() > 0 && is_white(s.last()) {
        let r = s.drop_last();
        let c = s.last();
        assert(s =~= r.push(c));
        lemma_split_push(r, c);
        let ls = split(r, '\n');
        lemma_empty_line();
        let e = Seq::<char>::empty();
        if c == '\n' {
            lemma_last_empty(ls, None);
            lemma_contents_push(ls, e);
            assert(contents(ls) + contents(seq![e]) =~= contents(ls));
        } else {
            let front = ls.drop_last();
            let x = ls.last();
            let y = x.push(c);
            assert(ls =~= front.push(x));
            assert forall|sh: Option<Shield>| passed(y, sh) == passed(x, sh) by {
                lemma_passed_push(x, c, sh);
            }
            lemma_last_line(front, y, x, None);
            lemma_contents_push(front, x);
            lemma_contents_push(front, y);
            assert(y.drop_last() =~= x);
            assert(seq![x].drop_first() =~= Seq::<Seq<char>>::empty());
            assert(seq![y].drop_first() =~= Seq::<Seq<char>>::empty());
            assert(contents(seq![y]) == contents(seq![x]));
        }
        lemma_trim_back(r);
    }
}

proof fn lemma_trim_end_kept(s: Seq<char>, set: CharSet)
    ensures
        ({
            let t = trim_end(s, set);
            &&& t.len() <= s.len()
            &&& t == s.take(t.len() as int)
            &&& t.len() > 0 ==> !set.has(t.last())
        }),
    decreases s.len(),
{
    if s.len() > 0 && set.has(s.last()) {
        lemma_trim_end_kept(s.drop_last(), set);
        let t = trim_end(s, set);
        assert(s.drop_last().take(t.len() as int) =~= s.take(t.len() as int));
    } else {
        assert(s.take(s.len() as int) =~= s);
    }
}

proof fn lemma_trim_again(s: Seq<char>)
    ensures
        trim_white(trim_white(s)) == trim_white(s),
{
    let u = trim_start(s, CharSet::White);
    let t = trim_white(s);
    lemma_run(s, CharSet::White);
    lemma_trim_end_kept(u, CharSet::White);
    if t.len() > 0 {
        assert(t[0] == u[0]);
    }
}

/// Where every line of a body is empty or begins with something to see: what is left when it
/// is stripped holds no producer-owned region, stripping that again changes nothing, and its
/// lines that are not blank are, in order and up to white space at their ends, exactly those
/// of the body that stand in no producer-owned region.
pub proof fn stripping_keeps_what_the_author_wrote(body: Seq<char>)
    requires
        flush_left(split(body, '\n')),
    ensures
        !any_preserved(stripped(body)),
        stripped(stripped(body)) == stripped(body),
        contents(split(stripped(body), '\n')) == contents(outside(body)),
{
    let lines = split(body, '\n');
    let s = spliced(body);
    assert(lines.skip(0) =~= lines);
    lemma_outside(lines, 0, None);
    lemma_spliced(body);
    spliced_holds_no_region(body);
    assert(split(s, '\n').skip(0) =~= split(s, '\n'));
    lemma_first(split(s, '\n'), 0, None);
    lemma_trim_front(s);
    lemma_trim_back(trim_start(s, CharSet::White));
    let t = trim_white(s);
    let r = stripped(body);
    lemma_trim_again(s);
    lemma_empty_line();
    let e = Seq::<char>::empty();
    if t.len() > 0 {
        lemma_split_push(t, '\n');
        lemma_last_empty(split(t, '\n'), None);
        lemma_contents_push(split(t, '\n'), e);
        assert(contents(split(r, '\n')) =~= contents(split(t, '\n')));
        lemma_trim_push(t, '\n');
    }
    assert(split(r, '\n').skip(0) =~= split(r, '\n'));
    lemma_first(split(r, '\n'), 0, None);
    spliced_holds_no_region(r);
}

// ------------------------------------------------------------------- carrying over

/// The producer-owned regions of some lines, each as its lines.
spec fn blocks(ls: Seq<Seq<char>>, shield: Option<Shield>) -> Seq<Seq<Seq<char>>>
    decreases ls.len(),
{
    if ls.len() == 0 {
        Seq::empty()
    } else if passed(ls[0], shield) {
        blocks(ls.drop_first(), shield_after(ls[0], shield))
    } else {
        proof {
            lemma_closer_line(ls, 1, 1, None);
        }
        let j = closer_line(ls, 1, 1, None);
        if 1 <= j < ls.len() {
            seq![ls.take(j + 1)] + blocks(ls.skip(j + 1), None)
        } else {
            seq![ls]
        }
    }
}

/// The code block that is open after some lines.
pub open spec fn code_after(ls: Seq<Seq<char>>, shield: Option<Shield>) -> Option<Shield>
    decreases ls.len(),
{
    if ls.len() == 0 {
        shield
    } else {
        code_after(ls.drop_first(), shield_after(ls[0], shield))
    }
}

proof fn lemma_blocks_behind(a: Seq<Seq<char>>, b: Seq<Seq<char>>, shield: Option<Shield>)
    requires
        first_region(a, shield) is None,
    ensures
        blocks(a + b, shield) == blocks(b, code_after(a, shield)),
    decreases a.len(),
{
    if a.len() == 0 {
        assert(a + b =~= b);
    } else {
        assert((a + b)[0] == a[0]);
        assert((a + b).drop_first() =~= a.drop_first() + b);
        lemma_blocks_behind(a.drop_first(), b, shield_after(a[0], shield));
    }
}

/// Lines behind the closer of a div do not count for where it closes.
proof fn lemma_closer_front(
    a: Seq<Seq<char>>,
    b: Seq<Seq<char>>,
    j: int,
    depth: nat,
    shield: Option<Shield>,
)
    requires
        0 <= j <= a.len(),
    ensures
        ({
            let c = closer_line(a, j, depth, shield);
            let more = closer_line(a + b, j, depth, shield);
            &&& c < a.len() ==> more == c
            &&& c == a.len() ==> more >= c
        }),
    decreases a.len() - j,
{
    let all = a + b;
    if j < a.len() {
        let line = a[j];
        assert(all[j] == line);
        if shielded(line, shield) {
            lemma_closer_front(a, b, j + 1, depth, shield_after(line, shield));
        } else if opener_info_of(line) is Some {
            lemma_closer_front(a, b, j + 1, depth + 1, None);
        } else if closes_div(line) {
            if depth > 1 {
                lemma_closer_front(a, b, j + 1, (depth - 1) as nat, None);
            }
        } else {
            lemma_closer_front(a, b, j + 1, depth, None);
        }
    } else {
        lemma_closer_line(all, j, depth, shield);
    }
}

/// Whether lines are those of one region that is closed by its last line.
spec fn is_closed(ls: Seq<Seq<char>>) -> bool {
    ls.len() > 1 && !passed(ls[0], None) && closer_line(ls, 1, 1, None) == ls.len() - 1
}

/// Whether lines are those of one region that is not closed.
spec fn is_open(ls: Seq<Seq<char>>) -> bool {
    ls.len() > 0 && !passed(ls[0], None) && closer_line(ls, 1, 1, None) == ls.len()
}

proof fn lemma_closed_block(ls: Seq<Seq<char>>, b: Seq<Seq<char>>)
    requires
        is_closed(ls),
    ensures
        blocks(ls + b, None) == seq![ls] + blocks(b, None),
{
    let all = ls + b;
    lemma_closer_front(ls, b, 1, 1, None);
    assert(all[0] == ls[0]);
    assert(all.take(ls.len() as int) =~= ls);
    assert(all.skip(ls.len() as int) =~= b);
}

proof fn lemma_closer_end(lines: Seq<Seq<char>>, depth: nat, shield: Option<Shield>)
    ensures
        closer_line(lines, lines.len() as int, depth, shield) == lines.len(),
        closer_line(lines, lines.len() as int, depth, None) == lines.len(),
        closer_line(lines, lines.len() as int, depth + 1, None) == lines.len(),
        depth > 0 ==> closer_line(lines, lines.len() as int, (depth - 1) as nat, None)
            == lines.len(),
{
}

/// What the last line is does not count for where a div closes, where it is taken for the
/// same.
proof fn lemma_closer_last(
    ls: Seq<Seq<char>>,
    a: Seq<char>,
    b: Seq<char>,
    j: int,
    depth: nat,
    shield: Option<Shield>,
)
    requires
        0 <= j <= ls.len(),
        shield_opened(a) is Some == shield_opened(b) is Some,
        opener_info_of(a) is Some == opener_info_of(b) is Some,
        closes_div(a) == closes_div(b),
    ensures
        closer_line(ls.push(a), j, depth, shield) == closer_line(ls.push(b), j, depth, shield),
    decreases ls.len() - j,
{
    let x = ls.push(a);
    let y = ls.push(b);
    if j < ls.len() {
        let line = ls[j];
        assert(x[j] == line && y[j] == line);
        if shielded(line, shield) {
            lemma_closer_last(ls, a, b, j + 1, depth, shield_after(line, shield));
        } else if opener_info_of(line) is Some {
            lemma_closer_last(ls, a, b, j + 1, depth + 1, None);
        } else if closes_div(line) {
            if depth > 1 {
                lemma_closer_last(ls, a, b, j + 1, (depth - 1) as nat, None);
            }
        } else {
            lemma_closer_last(ls, a, b, j + 1, depth, None);
        }
    } else {
        assert(x[j] == a && y[j] == b);
        lemma_closer_end(x, depth, shield_after(a, shield));
        lemma_closer_end(y, depth, shield_after(b, shield));
    }
}

/// A last line that is empty does not close a div, nor open one.
proof fn lemma_closer_empty(ls: Seq<Seq<char>>, j: int, depth: nat, shield: Option<Shield>)
    requires
        0 <= j <= ls.len(),
    ensures
        ({
            let more = closer_line(ls.push(Seq::empty()), j, depth, shield);
            let c = closer_line(ls, j, depth, shield);
            more == if c < ls.len() {
                c
            } else {
                ls.len() as int + 1
            }
        }),
    decreases ls.len() - j,
{
    let e = Seq::<char>::empty();
    let x = ls.push(e);
    lemma_closer_line(ls, j, depth, shield);
    if j < ls.len() {
        let line = ls[j];
        assert(x[j] == line);
        if shielded(line, shield) {
            lemma_closer_empty(ls, j + 1, depth, shield_after(line, shield));
        } else if opener_info_of(line) is Some {
            lemma_closer_empty(ls, j + 1, depth + 1, None);
        } else if closes_div(line) {
            if depth > 1 {
                lemma_closer_empty(ls, j + 1, (depth - 1) as nat, None);
            }
        } else {
            lemma_closer_empty(ls, j + 1, depth, None);
        }
    } else {
        lemma_empty_line();
        assert(x[j] == e);
        assert(opener_info_of(e) is None);
        assert(!closes_div(e));
        lemma_closer_end(x, depth, shield_after(e, shield));
    }
}

/// Trimming the text of a region at its end leaves it one, closed or not as it was.
proof fn lemma_trim_block(t: Seq<char>)
    requires
        is_closed(split(t, '\n')) || is_open(split(t, '\n')),
    ensures
        is_closed(split(t, '\n')) == is_closed(split(trim_end(t, CharSet::White), '\n')),
        is_open(split(t, '\n')) == is_open(split(trim_end(t, CharSet::White), '\n')),
    decreases t.len(),
{
    if t.len() > 0 && is_white(t.last()) {
        let r = t.drop_last();
        let c = t.last();
        assert(t =~= r.push(c));
        lemma_split_push(r, c);
        lemma_empty_line();
        let lines = split(t, '\n');
        let ls = split(r, '\n');
        let e = Seq::<char>::empty();
        if c == '\n' {
            assert(lines[0] == if ls.len() > 0 {
                ls[0]
            } else {
                e
            });
            lemma_closer_line(ls, 1, 1, None);
            lemma_closer_empty(ls, 1, 1, None);
            if is_closed(lines) {
                assert(lines[lines.len() - 1] == e);
                lemma_closes(lines, 1, 1, None);
            }
        } else {
            let front = ls.drop_last();
            let x = ls.last();
            let y = x.push(c);
            assert(ls =~= front.push(x));
            assert(y.drop_last() =~= x);
            lemma_shield_push(x, c);
            lemma_info_push(x, c);
            if front.len() > 0 {
                lemma_closer_last(front, y, x, 1, 1, None);
                assert(lines[0] == ls[0]);
            } else {
                lemma_passed_push(x, c, None);
                assert(lines[0] == y && ls[0] == x);
            }
        }
        lemma_trim_block(r);
    }
}

/// A line that closes a div is a closer.
proof fn lemma_closes(lines: Seq<Seq<char>>, j: int, depth: nat, shield: Option<Shield>)
    requires
        0 <= j <= lines.len(),
        closer_line(lines, j, depth, shield) < lines.len(),
    ensures
        closes_div(lines[closer_line(lines, j, depth, shield)]),
    decreases lines.len() - j,
{
    if j < lines.len() {
        let line = lines[j];
        if shielded(line, shield) {
            lemma_closes(lines, j + 1, depth, shield_after(line, shield));
        } else if opener_info_of(line) is Some {
            lemma_closes(lines, j + 1, depth + 1, None);
        } else if closes_div(line) {
            if depth > 1 {
                lemma_closes(lines, j + 1, (depth - 1) as nat, None);
            }
        } else {
            lemma_closes(lines, j + 1, depth, None);
        }
    }
}

/// The lines of a text, a line break and another text are those of the one and the other.
proof fn lemma_split_join_feed(a: Seq<char>, b: Seq<char>)
    ensures
        split(a + seq!['\n'] + b, '\n') == split(a, '\n') + split(b, '\n'),
    decreases a.len(),
{
    let y = a + seq!['\n'] + b;
    let at = index_of(a, '\n');
    lemma_index_of(a, '\n');
    lemma_index_of(y, '\n');
    if at < a.len() {
        let rest = a.skip(at + 1);
        lemma_split_join_feed(rest, b);
        assert(y[at] == '\n');
        assert forall|i: int| 0 <= i < at implies y[i] != '\n' by {
            assert(y[i] == a[i]);
        }
        assert(index_of(y, '\n') == at);
        assert(y.take(at) =~= a.take(at));
        assert(y.skip(at + 1) =~= rest + seq!['\n'] + b);
        assert(split(y, '\n') =~= split(a, '\n') + split(b, '\n'));
    } else {
        assert forall|i: int| 0 <= i < a.len() implies y[i] != '\n' by {
            assert(y[i] == a[i]);
        }
        assert(y[a.len() as int] == '\n');
        assert(index_of(y, '\n') == a.len());
        assert(y.take(a.len() as int) =~= a);
        assert(y.skip(a.len() as int + 1) =~= b);
        assert(split(a, '\n') =~= seq![a]);
    }
}

/// The lines of the text of a region.
proof fn lemma_region_lines(body: Seq<char>, i: int, j: int)
    requires
        0 <= i < j <= split(body, '\n').len(),
    ensures
        split(region_text(body, (i, j)), '\n') == split(body, '\n').subrange(
            i,
            if j < split(body, '\n').len() {
                j + 1
            } else {
                j
            },
        ),
{
    let lines = split(body, '\n');
    let n = lines.len() as int;
    lemma_pair_bounds(body, i, j);
    lemma_lines_fill_chars(body);
    let p = line_pos(lines, i);
    let q = region_stop(lines, j);
    let e = Seq::<char>::empty();
    if j < n {
        let x = lines[j];
        lemma_split_at(body, j, x);
        lemma_line_text(body, j);
        let front = body.take(q);
        assert(front =~= body.take(line_pos(lines, j)) + x);
        lemma_split_join(body, '\n');
        lemma_index_of(x, '\n');
        if index_of(x, '\n') < x.len() {
            assert(lines[j][index_of(x, '\n')] != '\n');
        }
        assert(split(x, '\n') =~= seq![x]);
        let ls = split(front, '\n');
        assert(ls =~= lines.take(j + 1));
        lemma_split_at(front, i, e);
        lemma_line_pos_front(lines, ls, i);
        assert(front.skip(p) =~= region_text(body, (i, j)));
        assert(ls.skip(i) =~= lines.subrange(i, j + 1));
    } else {
        lemma_split_at(body, i, e);
        assert(body.skip(p) =~= region_text(body, (i, j)));
        assert(lines.skip(i) =~= lines.subrange(i, n));
    }
}

proof fn lemma_line_pos_front(a: Seq<Seq<char>>, b: Seq<Seq<char>>, i: int)
    requires
        0 <= i <= a.len(),
        i <= b.len(),
        forall|k: int| 0 <= k < i ==> a[k] == b[k],
    ensures
        line_pos(a, i) == line_pos(b, i),
    decreases i,
{
    if i > 0 {
        lemma_line_pos_front(a, b, i - 1);
    }
}

/// The blocks of lines are the lines of the regions that are found in them.
proof fn lemma_blocks(lines: Seq<Seq<char>>, k: int, shield: Option<Shield>)
    requires
        0 <= k <= lines.len(),
    ensures
        blocks(lines.skip(k), shield) == found_from(
            lines,
            k,
            shield,
            preserved_classes(),
        ).map_values(
            |p: (int, int)|
                lines.subrange(
                    p.0,
                    if p.1 < lines.len() {
                        p.1 + 1
                    } else {
                        p.1
                    },
                ),
        ),
    decreases lines.len() - k,
{
    let ls = lines.skip(k);
    let classes = preserved_classes();
    let f = |p: (int, int)|
        lines.subrange(
            p.0,
            if p.1 < lines.len() {
                p.1 + 1
            } else {
                p.1
            },
        );
    let rs = found_from(lines, k, shield, classes);
    if k == lines.len() {
        assert(blocks(ls, shield) =~= rs.map_values(f));
    } else {
        assert(ls[0] == lines[k]);
        assert(ls.drop_first() =~= lines.skip(k + 1));
        if passed(lines[k], shield) {
            lemma_blocks(lines, k + 1, shield_after(lines[k], shield));
        } else {
            let j = closer_line(lines, k + 1, 1, None);
            lemma_closer_line(lines, k + 1, 1, None);
            lemma_closer_shift(lines, k, 1, 1, None);
            let more = found_from(lines, j + 1, None, classes);
            assert(rs =~= seq![(k, j)] + more);
            if j < lines.len() {
                lemma_blocks(lines, j + 1, None);
                assert(ls.skip(j - k + 1) =~= lines.skip(j + 1));
                assert(ls.take(j - k + 1) =~= lines.subrange(k, j + 1));
            } else {
                assert(more =~= Seq::<(int, int)>::empty());
                assert(ls =~= lines.subrange(k, j));
            }
            assert(blocks(ls, shield) =~= rs.map_values(f));
        }
    }
}

/// The lines of the texts of the regions of a body are its blocks.
proof fn lemma_region_texts(body: Seq<char>)
    ensures
        region_texts(body).map_values(|t: Seq<char>| split(t, '\n')) == blocks(
            split(body, '\n'),
            None,
        ),
{
    let lines = split(body, '\n');
    let f = found(body, preserved_classes());
    assert(lines.skip(0) =~= lines);
    lemma_blocks(lines, 0, None);
    lemma_found(lines, 0, None, preserved_classes());
    let a = region_texts(body).map_values(|t: Seq<char>| split(t, '\n'));
    assert forall|k: int| 0 <= k < f.len() implies #[trigger] a[k] == blocks(lines, None)[k] by {
        lemma_region_lines(body, f[k].0, f[k].1);
    }
    assert(a =~= blocks(lines, None));
}

/// All blocks but the last are closed.
proof fn lemma_block_kinds(ls: Seq<Seq<char>>, shield: Option<Shield>, k: int)
    requires
        0 <= k < blocks(ls, shield).len(),
    ensures
        is_closed(blocks(ls, shield)[k]) || is_open(blocks(ls, shield)[k]),
        k < blocks(ls, shield).len() - 1 ==> is_closed(blocks(ls, shield)[k]),
    decreases ls.len(),
{
    if passed(ls[0], shield) {
        lemma_block_kinds(ls.drop_first(), shield_after(ls[0], shield), k);
    } else {
        let j = closer_line(ls, 1, 1, None);
        lemma_closer_line(ls, 1, 1, None);
        if j < ls.len() {
            let first = ls.take(j + 1);
            let rest = ls.skip(j + 1);
            assert(ls =~= first + rest);
            lemma_closer_line(first, 1, 1, None);
            lemma_closer_front(first, rest, 1, 1, None);
            assert(first[0] == ls[0]);
            assert(is_closed(first));
            assert(blocks(ls, shield) == seq![first] + blocks(rest, None));
            if k > 0 {
                assert(blocks(ls, shield)[k] == blocks(rest, None)[k - 1]);
                lemma_block_kinds(rest, None, k - 1);
            }
        } else {
            assert(blocks(ls, shield) == seq![ls]);
            assert(is_open(ls));
        }
    }
}

proof fn lemma_blank_block(b: Seq<Seq<char>>)
    ensures
        blocks(seq![Seq::<char>::empty()] + b, None) == blocks(b, None),
        blocks(seq![Seq::<char>::empty()], None) == Seq::<Seq<Seq<char>>>::empty(),
{
    let e = Seq::<char>::empty();
    lemma_empty_line();
    assert(seq![e].drop_first() =~= Seq::<Seq<char>>::empty());
    assert(first_region(Seq::<Seq<char>>::empty(), None) is None);
    assert(first_region(seq![e], None) is None);
    assert(code_after(Seq::<Seq<char>>::empty(), None) is None);
    assert(code_after(seq![e], None) is None);
    lemma_blocks_behind(seq![e], b, None);
    assert(blocks(Seq::<Seq<char>>::empty(), None) =~= Seq::<Seq<Seq<char>>>::empty());
}

/// The lines of a body with one more region behind it.
proof fn lemma_region_behind(before: Seq<char>, last: Seq<char>)
    ensures
        split(before + "\n\n"@ + last, '\n') == split(before, '\n') + (seq![Seq::<char>::empty()]
            + split(last, '\n')),
{
    let e = Seq::<char>::empty();
    reveal_strlit("\n\n");
    lemma_empty_line();
    let half = before + seq!['\n'] + e;
    assert(before + "\n\n"@ + last =~= half + seq!['\n'] + last);
    lemma_split_join_feed(half, last);
    lemma_split_join_feed(before, e);
    assert(split(before, '\n') + seq![e] + split(last, '\n') =~= split(before, '\n') + (seq![e]
        + split(last, '\n')));
}

proof fn lemma_with_regions(
    base: Seq<char>,
    regions: Seq<Seq<char>>,
    n: int,
    b: Seq<Seq<char>>,
)
    requires
        0 <= n <= regions.len(),
        first_region(split(base, '\n'), None) is None,
        code_after(split(base, '\n'), None) is None,
        forall|k: int| 0 <= k < n ==> is_closed(split(#[trigger] regions[k], '\n')),
    ensures
        blocks(split(with_regions(base, regions.take(n)), '\n') + b, None) == regions.take(
            n,
        ).map_values(|r: Seq<char>| split(trim_end(r, CharSet::White), '\n')) + blocks(b, None),
    decreases n,
{
    let f = |r: Seq<char>| split(trim_end(r, CharSet::White), '\n');
    let t = regions.take(n);
    if n == 0 {
        lemma_blocks_behind(split(base, '\n'), b, None);
        assert(t.map_values(f) + blocks(b, None) =~= blocks(b, None));
    } else {
        let before = with_regions(base, t.drop_last());
        let last = trim_end(t.last(), CharSet::White);
        let e = Seq::<char>::empty();
        assert(t.drop_last() =~= regions.take(n - 1));
        assert(t.last() == regions[n - 1]);
        lemma_region_behind(before, last);
        let more = split(last, '\n') + b;
        assert(split(with_regions(base, t), '\n') + b =~= split(before, '\n') + (seq![e] + more));
        lemma_with_regions(base, regions, n - 1, seq![e] + more);
        lemma_blank_block(more);
        lemma_trim_block(regions[n - 1]);
        lemma_closed_block(split(last, '\n'), b);
        assert(t.map_values(f) =~= regions.take(n - 1).map_values(f).push(f(regions[n - 1])));
        assert(t.map_values(f) + blocks(b, None) =~= regions.take(n - 1).map_values(f) + (seq![
            split(last, '\n'),
        ] + blocks(b, None)));
    }
}

proof fn lemma_same_lines(a: Seq<char>, b: Seq<char>)
    requires
        split(a, '\n') == split(b, '\n'),
    ensures
        a == b,
{
    lemma_split_join(a, '\n');
    lemma_split_join(b, '\n');
}

proof fn lemma_with_trimmed(base: Seq<char>, a: Seq<Seq<char>>, b: Seq<Seq<char>>)
    requires
        a.len() == b.len(),
        forall|k: int|
            0 <= k < a.len() ==> trim_end(#[trigger] a[k], CharSet::White) == trim_end(
                b[k],
                CharSet::White,
            ),
    ensures
        with_regions(base, a) == with_regions(base, b),
    decreases a.len(),
{
    if a.len() > 0 {
        let (x, y) = (a.drop_last(), b.drop_last());
        assert forall|k: int| 0 <= k < x.len() implies trim_end(#[trigger] x[k], CharSet::White)
            == trim_end(y[k], CharSet::White) by {
            assert(x[k] == a[k] && y[k] == b[k]);
        }
        lemma_with_trimmed(base, x, y);
        assert(a[a.len() - 1] == a.last() && b[b.len() - 1] == b.last());
    }
}

/// A regenerated document has exactly the producer-owned regions of the bundle before it, in
/// their order and up to white space at their ends, where its own body has none and does not
/// end inside a code block; and regenerating it from itself leaves its body as it is.
pub proof fn regeneration_keeps_the_regions(doc: DocumentView, previous: Seq<char>)
    requires
        !any_preserved(doc.body),
        any_preserved(document(previous).body),
        code_after(split(trim_end(doc.body, CharSet::White), '\n'), None) is None,
    ensures
        ({
            let body = carried(doc, Some(previous)).body;
            let was = region_texts(document(previous).body);
            &&& region_texts(body).len() == was.len()
            &&& forall|k: int|
                0 <= k < was.len() ==> trim_end(#[trigger] region_texts(body)[k], CharSet::White)
                    == trim_end(was[k], CharSet::White)
            &&& forall|text: Seq<char>|
                (#[trigger] document(text)).body == body ==> carried(doc, Some(text)).body == body
        }),
{
    let prev = document(previous).body;
    let was = region_texts(prev);
    let n = was.len() as int;
    let base = trim_end(doc.body, CharSet::White);
    let lines = split(doc.body, '\n');
    let f = |r: Seq<char>| split(trim_end(r, CharSet::White), '\n');
    let g = |t: Seq<char>| split(t, '\n');
    let e = Seq::<char>::empty();
    assert(lines.skip(0) =~= lines);
    lemma_first(lines, 0, None);
    lemma_trim_back(doc.body);
    lemma_region_texts(prev);
    let bs = blocks(split(prev, '\n'), None);
    assert forall|i: int| 0 <= i < n implies split(#[trigger] was[i], '\n') == bs[i] by {
        assert(was.map_values(g)[i] == bs[i]);
    }
    assert forall|i: int| 0 <= i < n - 1 implies is_closed(split(#[trigger] was[i], '\n')) by {
        lemma_block_kinds(split(prev, '\n'), None, i);
    }
    lemma_block_kinds(split(prev, '\n'), None, n - 1);
    let whole = with_regions(base, was);
    let body = whole.push('\n');
    lemma_split_push(whole, '\n');
    lemma_region_texts(body);
    let now = region_texts(body);
    let last = trim_end(was[n - 1], CharSet::White);
    lemma_trim_block(was[n - 1]);
    lemma_blank_block(Seq::empty());
    assert(was.take(n) =~= was);
    assert(split(body, '\n') =~= split(whole, '\n') + seq![e]);
    if is_closed(bs[n - 1]) {
        lemma_with_regions(base, was, n, seq![e]);
        assert(now.map_values(g) =~= was.map_values(f));
    } else {
        let before = with_regions(base, was.take(n - 1));
        assert(was.drop_last() =~= was.take(n - 1));
        lemma_region_behind(before, last);
        let block = split(last, '\n').push(e);
        assert(split(last, '\n') + seq![e] =~= block);
        assert(split(body, '\n') =~= split(before, '\n') + (seq![e] + block));
        lemma_with_regions(base, was, n - 1, seq![e] + block);
        lemma_blank_block(block);
        lemma_closer_empty(split(last, '\n'), 1, 1, None);
        assert(block[0] == split(last, '\n')[0]);
        assert(blocks(block, None) == seq![block]);
        lemma_split_push(last, '\n');
        assert(now.map_values(g) =~= was.take(n - 1).map_values(f).push(block));
    }
    assert forall|i: int| 0 <= i < n implies trim_end(#[trigger] now[i], CharSet::White)
        == trim_end(was[i], CharSet::White) by {
        let t = trim_end(was[i], CharSet::White);
        lemma_trim_end_kept(was[i], CharSet::White);
        assert(now.map_values(g)[i] == split(now[i], '\n'));
        assert(trim_end(t, CharSet::White) == t);
        if is_closed(bs[n - 1]) || i < n - 1 {
            assert(split(now[i], '\n') == f(was[i]));
            lemma_same_lines(now[i], t);
        } else {
            lemma_same_lines(now[i], last.push('\n'));
            assert(last.push('\n').drop_last() =~= last);
            assert(CharSet::White.has(last.push('\n').last()));
            assert(trim_end(now[i], CharSet::White) == trim_end(last, CharSet::White));
        }
    }
    assert(now.len() == now.map_values(g).len());
    assert(body == carried(doc, Some(previous)).body);
    assert forall|text: Seq<char>| (#[trigger] document(text)).body == body implies carried(
        doc,
        Some(text),
    ).body == body by {
        assert(found(body, preserved_classes()).len() == now.len());
        lemma_with_trimmed(base, now, was);
    }
}

} // verus!
