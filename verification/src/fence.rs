//! Fenced divs in bundle documents, and the **producer-owned regions** they mark.
//!
//! A producer (an enricher, say) marks what it owns with a fenced div,
//! `::: {.enrichment key="value"}` to `:::`, so that the region can be told from
//! author content: indexing carries preserved regions forward when a source edit
//! regenerates the bundle, and what goes back to a source file is stripped of them.
//!
//! An opener is a line of three or more colons at column 0 with a non-empty info
//! segment behind them (an attribute block in braces, or a bare word; trailing
//! colons are allowed). A closer is a line of three or more colons and nothing
//! else. Regions are matched by depth, and inside a fenced code block a line of
//! colons is plain text.

use crate::fence_laws::{contents, flush_left, outside, stripping_keeps_what_the_author_wrote};
use crate::text::{
    byte_len, byte_length, char_width, chars_of, index_from, index_of, lemma_byte_len_concat,
    lemma_byte_len_at_least, lemma_index_of, lemma_run, pieces, push_chars, run,
    run_length, same_chars, split, starts, starts_with, string_of, texts, trim, trim_end, trim_start,
    trim_white, trimmed, trimmed_end, trimmed_start, width, CharSet,
};
use vstd::prelude::*;
use vstd::slice::slice_subrange;

verus! {

/// Fence classes whose regions are producer-owned and preserved across bundle
/// regeneration. `enrichment` is the enrichers' region class.
pub const PRESERVED_CLASSES: [&'static str; 1] = ["enrichment"];

/// The fence classes whose regions are producer-owned.
pub open spec fn preserved_classes() -> Seq<Seq<char>> {
    seq!["enrichment"@]
}

/// Byte range of a fenced region within a body: the whole region (from the start
/// of the opener line to the end of the closer line, or to the end of input where
/// it is not closed), and the inner content.
#[derive(Debug, Clone, Copy, PartialEq, Eq, Structural)]
pub struct Region {
    /// Byte offset of the opener line's first character.
    pub start: usize,
    /// Byte offset just past the opener line's newline (inner content start).
    pub inner_start: usize,
    /// Byte offset of the inner content's end (before the closer's newline).
    pub inner_end: usize,
    /// Byte offset just past the closer line (or end of input when unclosed).
    pub end: usize,
}

/// What a [`Region`] says, in unbounded numbers.
pub struct Span {
    pub start: int,
    pub inner_start: int,
    pub inner_end: int,
    pub end: int,
}

impl View for Region {
    type V = Span;

    open spec fn view(&self) -> Span {
        Span {
            start: self.start as int,
            inner_start: self.inner_start as int,
            inner_end: self.inner_end as int,
            end: self.end as int,
        }
    }
}

/// The spans that a sequence of regions stands for.
pub open spec fn spans_of(v: Seq<Region>) -> Seq<Span> {
    v.map_values(|r: Region| r@)
}

// ----------------------------------------------------------------- fence lines

/// Whether a text is made of colons alone.
pub open spec fn all_colons(s: Seq<char>) -> bool {
    forall|i: int| 0 <= i < s.len() ==> s[i] == ':'
}

/// The info segment of an opener line: what stands behind the colons. `None` where
/// the line is no opener (fewer than three colons, or no info beside colons).
pub open spec fn opener_info_of(line: Seq<char>) -> Option<Seq<char>> {
    let colons = run(line, CharSet::Only(':'));
    let info = line.skip(colons as int);
    let meat = trim_white(info);
    if colons < 3 || meat.len() == 0 || all_colons(meat) {
        None
    } else {
        Some(info)
    }
}

/// Whether a line is a closer: three or more colons and nothing else.
pub open spec fn closes_div(line: Seq<char>) -> bool {
    let t = trim_end(line, CharSet::White);
    t.len() >= 3 && all_colons(t)
}

/// The text of an info segment, without white space and closing colons.
pub open spec fn info_text(info: Seq<char>) -> Seq<char> {
    trim_end(trim_white(info), CharSet::OnlyOrWhite(':'))
}

/// What stands in the braces of an info segment; `None` for a bare word.
pub open spec fn brace_body(info: Seq<char>) -> Option<Seq<char>> {
    let meat = info_text(info);
    if meat.len() > 0 && meat[0] == '{' {
        let inner = meat.drop_first();
        Some(
            if inner.len() > 0 && inner.last() == '}' {
                inner.drop_last()
            } else {
                inner
            },
        )
    } else {
        None
    }
}

/// The tokens of `s`, where `current` has been read of the first one and `quote`
/// is the quote that is open.
pub open spec fn tokens_from(s: Seq<char>, current: Seq<char>, quote: Option<char>) -> Seq<
    Seq<char>,
>
    decreases s.len(),
{
    let done = if current.len() > 0 {
        seq![current]
    } else {
        Seq::empty()
    };
    if s.len() == 0 {
        done
    } else {
        let c = s[0];
        let rest = s.drop_first();
        match quote {
            Some(q) => tokens_from(
                rest,
                current.push(c),
                if c == q {
                    None
                } else {
                    quote
                },
            ),
            None => if CharSet::Quote.has(c) {
                tokens_from(rest, current.push(c), Some(c))
            } else if CharSet::White.has(c) {
                done + tokens_from(rest, Seq::empty(), None)
            } else {
                tokens_from(rest, current.push(c), None)
            },
        }
    }
}

/// The tokens of an info segment's attribute block; none for a bare word.
pub open spec fn tokens(info: Seq<char>) -> Seq<Seq<char>> {
    match brace_body(info) {
        Some(body) => tokens_from(body, Seq::empty(), None),
        None => Seq::empty(),
    }
}

/// How many characters at the start of `s` are not white space.
pub open spec fn word_len(s: Seq<char>) -> nat
    decreases s.len(),
{
    if s.len() > 0 && !CharSet::White.has(s[0]) {
        1 + word_len(s.drop_first())
    } else {
        0
    }
}

/// The first word of `s`.
pub open spec fn first_word(s: Seq<char>) -> Option<Seq<char>> {
    let t = trim_start(s, CharSet::White);
    if t.len() == 0 {
        None
    } else {
        Some(t.take(word_len(t) as int))
    }
}

/// Whether a token names a class.
pub open spec fn names_class(token: Seq<char>, class: Seq<char>) -> bool {
    token.len() > 0 && token[0] == '.' && token.drop_first() == class
}

/// Whether an info segment carries a class: `.name` among its tokens, or the bare
/// word itself.
pub open spec fn has_class(info: Seq<char>, class: Seq<char>) -> bool {
    let ts = tokens(info);
    if ts.len() == 0 {
        let meat = info_text(info);
        !(meat.len() > 0 && meat[0] == '{') && first_word(meat) == Some(class)
    } else {
        exists|i: int| 0 <= i < ts.len() && names_class(#[trigger] ts[i], class)
    }
}

/// Whether an info segment carries one of several classes.
pub open spec fn has_any_class(info: Seq<char>, classes: Seq<Seq<char>>) -> bool {
    exists|i: int| 0 <= i < classes.len() && has_class(info, #[trigger] classes[i])
}

/// A fenced code block that is open: its fence character and how many of it.
pub struct Shield {
    pub ch: char,
    pub len: nat,
}

/// A line without up to three spaces at its start.
pub open spec fn without_indent(line: Seq<char>) -> Seq<char> {
    let n = run(line, CharSet::Only(' '));
    line.skip(
        if n > 3 {
            3
        } else {
            n as int
        },
    )
}

/// The code block that a line opens.
pub open spec fn shield_opened(line: Seq<char>) -> Option<Shield> {
    let s = without_indent(line);
    if s.len() == 0 || (s[0] != '`' && s[0] != '~') || run(s, CharSet::Only(s[0])) < 3 {
        None
    } else {
        Some(Shield { ch: s[0], len: run(s, CharSet::Only(s[0])) })
    }
}

/// Whether a line closes a code block.
pub open spec fn shield_closed(line: Seq<char>, shield: Shield) -> bool {
    let s = without_indent(line);
    let n = run(s, CharSet::Only(shield.ch));
    n >= shield.len && trim_white(s.skip(n as int)).len() == 0
}

/// The code block that is open after a line, given the one before it.
pub open spec fn shield_after(line: Seq<char>, shield: Option<Shield>) -> Option<Shield> {
    match shield {
        Some(f) => if shield_closed(line, f) {
            None
        } else {
            shield
        },
        None => shield_opened(line),
    }
}

/// Whether a line is plain text to the div grammar: it stands in a code block, or
/// opens one.
pub open spec fn shielded(line: Seq<char>, shield: Option<Shield>) -> bool {
    shield is Some || shield_opened(line) is Some
}

// -------------------------------------------------------------------- regions

/// The line, from `j` on, that closes a div `depth` deep; the number of lines
/// where none does.
pub open spec fn closer_line(
    lines: Seq<Seq<char>>,
    j: int,
    depth: nat,
    shield: Option<Shield>,
) -> int
    decreases lines.len() - j,
{
    if j < 0 || j >= lines.len() {
        lines.len() as int
    } else if shielded(lines[j], shield) {
        closer_line(lines, j + 1, depth, shield_after(lines[j], shield))
    } else if opener_info_of(lines[j]) is Some {
        closer_line(lines, j + 1, depth + 1, None)
    } else if closes_div(lines[j]) {
        if depth <= 1 {
            j
        } else {
            closer_line(lines, j + 1, (depth - 1) as nat, None)
        }
    } else {
        closer_line(lines, j + 1, depth, None)
    }
}

pub proof fn lemma_closer_line(
    lines: Seq<Seq<char>>,
    j: int,
    depth: nat,
    shield: Option<Shield>,
)
    requires
        0 <= j <= lines.len(),
    ensures
        j <= closer_line(lines, j, depth, shield) <= lines.len(),
    decreases lines.len() - j,
{
    if j < lines.len() {
        let line = lines[j];
        if shielded(line, shield) {
            lemma_closer_line(lines, j + 1, depth, shield_after(line, shield));
        } else if opener_info_of(line) is Some {
            lemma_closer_line(lines, j + 1, depth + 1, None);
        } else if closes_div(line) {
            if depth > 1 {
                lemma_closer_line(lines, j + 1, (depth - 1) as nat, None);
            }
        } else {
            lemma_closer_line(lines, j + 1, depth, None);
        }
    }
}

/// Whether a line opens a region of one of the classes.
pub open spec fn opens_region(line: Seq<char>, classes: Seq<Seq<char>>) -> bool {
    match opener_info_of(line) {
        Some(info) => has_any_class(info, classes),
        None => false,
    }
}

/// The regions of the classes from line `i` on, each as its opener line and its
/// closer line (the number of lines where it is not closed).
pub open spec fn found_from(
    lines: Seq<Seq<char>>,
    i: int,
    shield: Option<Shield>,
    classes: Seq<Seq<char>>,
) -> Seq<(int, int)>
    decreases lines.len() + 1 - i,
{
    if i < 0 || i >= lines.len() {
        Seq::empty()
    } else if shielded(lines[i], shield) {
        found_from(lines, i + 1, shield_after(lines[i], shield), classes)
    } else if opens_region(lines[i], classes) {
        let j = closer_line(lines, i + 1, 1, None);
        proof {
            lemma_closer_line(lines, i + 1, 1, None);
        }
        seq![(i, j)] + found_from(lines, j + 1, None, classes)
    } else {
        found_from(lines, i + 1, None, classes)
    }
}

/// The regions of the classes in a body, as lines.
pub open spec fn found(body: Seq<char>, classes: Seq<Seq<char>>) -> Seq<(int, int)> {
    found_from(split(body, '\n'), 0, None, classes)
}

/// The byte offset at which line `i` starts.
pub open spec fn line_start(lines: Seq<Seq<char>>, i: int) -> int
    decreases i,
{
    if i <= 0 {
        0
    } else {
        line_start(lines, i - 1) + byte_len(lines[i - 1]) + 1
    }
}

/// The span of a region that opens on line `i` and closes on line `j`.
pub open spec fn region_span(lines: Seq<Seq<char>>, i: int, j: int) -> Span {
    let total = line_start(lines, lines.len() as int) - 1;
    let past_opener = line_start(lines, i + 1);
    let inner_start = if past_opener < total {
        past_opener
    } else {
        total
    };
    if j < lines.len() {
        let before_closer = line_start(lines, j) - 1;
        Span {
            start: line_start(lines, i),
            inner_start,
            inner_end: if before_closer > inner_start {
                before_closer
            } else {
                inner_start
            },
            end: line_start(lines, j) + byte_len(lines[j]),
        }
    } else {
        Span { start: line_start(lines, i), inner_start, inner_end: total, end: total }
    }
}

/// The regions of the classes in a body.
pub open spec fn regions(body: Seq<char>, classes: Seq<Seq<char>>) -> Seq<Span> {
    let lines = split(body, '\n');
    found(body, classes).map_values(|p: (int, int)| region_span(lines, p.0, p.1))
}

/// Whether a body holds a producer-owned region.
pub open spec fn any_preserved(body: Seq<char>) -> bool {
    found(body, preserved_classes()).len() > 0
}

// --------------------------------------------------------------- line recognisers

fn is_all_colons(s: &[char]) -> (r: bool)
    ensures
        r == all_colons(s@),
{
    let mut i: usize = 0;
    while i < s.len()
        invariant
            i <= s.len(),
            forall|k: int| 0 <= k < i ==> s@[k] == ':',
        decreases s.len() - i,
    {
        if s[i] != ':' {
            return false;
        }
        i = i + 1;
    }
    true
}

/// The info segment of an opener line, or `None` where the line is no opener (no
/// run of three colons, empty info, or info that is all colons).
pub fn opener_info(line: &[char]) -> (r: Option<&[char]>)
    ensures
        r is Some == opener_info_of(line@) is Some,
        r matches Some(info) ==> opener_info_of(line@) == Some(info@),
{
    let colons: usize = run_length(line, CharSet::Only(':'));
    if colons < 3 {
        return None;
    }
    let info = slice_subrange(line, colons, line.len());
    assert(info@ =~= line@.skip(colons as int));
    let meat = trimmed(info, CharSet::White);
    if meat.len() == 0 || is_all_colons(meat) {
        return None;
    }
    Some(info)
}

/// Whether a line is a closer: three or more colons and nothing else.
pub fn is_closer(line: &[char]) -> (r: bool)
    ensures
        r == closes_div(line@),
{
    let t = trimmed_end(line, CharSet::White);
    t.len() >= 3 && is_all_colons(t)
}

/// The tokens of a brace-form info segment, split at white space, with quoted
/// values (which may hold spaces) kept whole. A bare-word opener has none.
pub fn tokens_of_info(info: &str) -> (r: Vec<String>)
    ensures
        texts(r@) == tokens(info@),
{
    let cs = chars_of(info);
    info_tokens(cs.as_slice())
}

fn info_tokens(info: &[char]) -> (r: Vec<String>)
    ensures
        texts(r@) == tokens(info@),
{
    let meat = trimmed_end(trimmed(info, CharSet::White), CharSet::OnlyOrWhite(':'));
    let mut out: Vec<String> = Vec::new();
    if meat.len() == 0 || meat[0] != '{' {
        assert(texts(out@) =~= tokens(info@));
        return out;
    }
    let stop: usize = if meat.len() > 1 && meat[meat.len() - 1] == '}' {
        meat.len() - 1
    } else {
        meat.len()
    };
    let inner = slice_subrange(meat, 1, stop);
    proof {
        assert(inner@ =~= brace_body(info@)->Some_0);
        assert(inner@.skip(0) =~= inner@);
    }
    let mut current: Vec<char> = Vec::new();
    let mut quote: Option<char> = None;
    let mut i: usize = 0;
    assert(texts(out@) + tokens_from(inner@.skip(0), current@, quote) =~= tokens(info@));
    while i < inner.len()
        invariant
            i <= inner.len(),
            texts(out@) + tokens_from(inner@.skip(i as int), current@, quote) == tokens(info@),
        decreases inner.len() - i,
    {
        let c = inner[i];
        let ghost before = out@;
        let ghost read = current@;
        assert(inner@.skip(i as int).drop_first() =~= inner@.skip(i + 1));
        match quote {
            Some(q) => {
                current.push(c);
                if c == q {
                    quote = None;
                }
            },
            None => {
                if CharSet::Quote.holds(c) {
                    current.push(c);
                    quote = Some(c);
                } else if CharSet::White.holds(c) {
                    if current.len() > 0 {
                        let token = string_of(current.as_slice());
                        out.push(token);
                        assert(texts(out@) =~= texts(before).push(read));
                        current = Vec::new();
                    }
                    proof {
                        let done = if read.len() > 0 {
                            seq![read]
                        } else {
                            Seq::empty()
                        };
                        assert(current@ =~= Seq::empty());
                        assert(texts(out@) =~= texts(before) + done);
                        let more = tokens_from(inner@.skip(i + 1), Seq::empty(), None);
                        assert(texts(before) + (done + more) =~= texts(before) + done + more);
                    }
                } else {
                    current.push(c);
                }
            },
        }
        i = i + 1;
    }
    let ghost before = out@;
    if current.len() > 0 {
        let token = string_of(current.as_slice());
        out.push(token);
        assert(texts(out@) =~= texts(before) + seq![current@]);
    } else {
        assert(texts(out@) =~= texts(before) + Seq::empty());
    }
    out
}

fn first_word_is(s: &[char], class: &[char]) -> (r: bool)
    ensures
        r == (first_word(s@) == Some(class@)),
{
    let t = trimmed_start(s, CharSet::White);
    if t.len() == 0 {
        return false;
    }
    let mut i: usize = 0;
    assert(t@.skip(0) =~= t@);
    while i < t.len() && !CharSet::White.holds(t[i])
        invariant
            i <= t.len(),
            word_len(t@) == i + word_len(t@.skip(i as int)),
        decreases t.len() - i,
    {
        assert(t@.skip(i as int).drop_first() =~= t@.skip(i + 1));
        i = i + 1;
    }
    let word = slice_subrange(t, 0, i);
    assert(word@ =~= t@.take(i as int));
    same_chars(word, class)
}

/// Whether an opener's info segment carries the given class (`{.name ..}`, or the
/// bare word itself).
pub fn info_has_class(info: &[char], class: &[char]) -> (r: bool)
    ensures
        r == has_class(info@, class@),
{
    let ts = info_tokens(info);
    assert(texts(ts@).len() == ts@.len());
    if ts.len() == 0 {
        let meat = trimmed_end(trimmed(info, CharSet::White), CharSet::OnlyOrWhite(':'));
        return !(meat.len() > 0 && meat[0] == '{') && first_word_is(meat, class);
    }
    let mut i: usize = 0;
    while i < ts.len()
        invariant
            i <= ts.len(),
            ts@.len() > 0,
            texts(ts@) == tokens(info@),
            forall|k: int| 0 <= k < i ==> !names_class(#[trigger] tokens(info@)[k], class@),
        decreases ts.len() - i,
    {
        let token = chars_of(ts[i].as_str());
        assert(token@ == tokens(info@)[i as int]);
        if token.len() > 0 && token[0] == '.' {
            let name = slice_subrange(token.as_slice(), 1, token.len());
            assert(name@ =~= token@.drop_first());
            if same_chars(name, class) {
                return true;
            }
        }
        i = i + 1;
    }
    false
}

fn info_has_any_class(info: &[char], classes: &[String]) -> (r: bool)
    ensures
        r == has_any_class(info@, texts(classes@)),
{
    let mut i: usize = 0;
    while i < classes.len()
        invariant
            i <= classes.len(),
            forall|k: int| 0 <= k < i ==> !has_class(info@, #[trigger] texts(classes@)[k]),
        decreases classes.len() - i,
    {
        let class = chars_of(classes[i].as_str());
        assert(class@ == texts(classes@)[i as int]);
        if info_has_class(info, class.as_slice()) {
            return true;
        }
        i = i + 1;
    }
    false
}

/// A fenced code block that is open.
#[derive(Clone, Copy)]
pub struct CodeFence {
    pub ch: char,
    pub len: usize,
}

impl View for CodeFence {
    type V = Shield;

    open spec fn view(&self) -> Shield {
        Shield { ch: self.ch, len: self.len as nat }
    }
}

/// The shield that an open code block, if any, stands for.
pub open spec fn shield_of(code: Option<CodeFence>) -> Option<Shield> {
    match code {
        Some(f) => Some(f@),
        None => None,
    }
}

fn unindented(line: &[char]) -> (r: &[char])
    ensures
        r@ == without_indent(line@),
{
    let n: usize = run_length(line, CharSet::Only(' '));
    let k: usize = if n > 3 {
        3
    } else {
        n
    };
    let r = slice_subrange(line, k, line.len());
    assert(r@ =~= line@.skip(k as int));
    r
}

/// The code block that a line opens: three or more backticks or tildes, indented by
/// at most three spaces.
pub fn code_fence_open(line: &[char]) -> (r: Option<CodeFence>)
    ensures
        shield_of(r) == shield_opened(line@),
{
    let s = unindented(line);
    if s.len() == 0 {
        return None;
    }
    let first = s[0];
    if first != '`' && first != '~' {
        return None;
    }
    let len: usize = run_length(s, CharSet::Only(first));
    if len >= 3 {
        Some(CodeFence { ch: first, len })
    } else {
        None
    }
}

/// Whether a line closes a code block: at least as many of its fence character, and
/// nothing else.
pub fn code_fence_closes(line: &[char], fence: CodeFence) -> (r: bool)
    ensures
        r == shield_closed(line@, fence@),
{
    let s = unindented(line);
    let n: usize = run_length(s, CharSet::Only(fence.ch));
    let rest = slice_subrange(s, n, s.len());
    assert(rest@ =~= s@.skip(n as int));
    n >= fence.len && trimmed(rest, CharSet::White).len() == 0
}

fn code_after(line: &[char], code: Option<CodeFence>) -> (r: Option<CodeFence>)
    ensures
        shield_of(r) == shield_after(line@, shield_of(code)),
{
    match code {
        Some(f) => if code_fence_closes(line, f) {
            None
        } else {
            code
        },
        None => code_fence_open(line),
    }
}

// ---------------------------------------------------------------- region search

/// The line, from `from` on, that closes a div one deep.
fn closer_from(lines: &Vec<String>, from: usize) -> (r: usize)
    requires
        1 <= from <= lines@.len(),
    ensures
        r == closer_line(texts(lines@), from as int, 1, None),
        from <= r <= lines@.len(),
{
    let ghost all = texts(lines@);
    proof {
        lemma_closer_line(all, from as int, 1, None);
    }
    let mut j: usize = from;
    let mut depth: usize = 1;
    let mut code: Option<CodeFence> = None;
    while j < lines.len()
        invariant
            all == texts(lines@),
            1 <= from <= j <= lines@.len(),
            1 <= depth <= 1 + (j - from),
            closer_line(all, from as int, 1, None) == closer_line(
                all,
                j as int,
                depth as nat,
                shield_of(code),
            ),
        decreases lines.len() - j,
    {
        let line = chars_of(lines[j].as_str());
        assert(line@ == all[j as int]);
        let after = code_after(line.as_slice(), code);
        if code.is_some() || after.is_some() {
            code = after;
        } else if opener_info(line.as_slice()).is_some() {
            depth = depth + 1;
        } else if is_closer(line.as_slice()) {
            if depth == 1 {
                return j;
            }
            depth = depth - 1;
        }
        j = j + 1;
    }
    j
}

/// The regions of the classes, each as its opener line and its closer line.
fn regions_matching(lines: &Vec<String>, classes: &[String]) -> (r: Vec<(usize, usize)>)
    ensures
        r@.map_values(|p: (usize, usize)| (p.0 as int, p.1 as int)) == found_from(
            texts(lines@),
            0,
            None,
            texts(classes@),
        ),
        forall|k: int|
            0 <= k < r@.len() ==> (#[trigger] r@[k]).0 < r@[k].1 <= lines@.len(),
{
    let ghost all = texts(lines@);
    let ghost wanted = texts(classes@);
    let mut out: Vec<(usize, usize)> = Vec::new();
    let ghost as_ints = |p: (usize, usize)| (p.0 as int, p.1 as int);
    let mut i: usize = 0;
    let mut code: Option<CodeFence> = None;
    assert(out@.map_values(as_ints) + found_from(all, 0, None, wanted) =~= found_from(
        all,
        0,
        None,
        wanted,
    ));
    while i < lines.len()
        invariant
            all == texts(lines@),
            wanted == texts(classes@),
            as_ints == (|p: (usize, usize)| (p.0 as int, p.1 as int)),
            out@.map_values(as_ints) + found_from(all, i as int, shield_of(code), wanted)
                == found_from(all, 0, None, wanted),
            forall|k: int|
                0 <= k < out@.len() ==> (#[trigger] out@[k]).0 < out@[k].1 <= lines@.len(),
        decreases lines.len() - i,
    {
        let line = chars_of(lines[i].as_str());
        assert(line@ == all[i as int]);
        let after = code_after(line.as_slice(), code);
        if code.is_some() || after.is_some() {
            code = after;
            i = i + 1;
            continue ;
        }
        let opens = match opener_info(line.as_slice()) {
            Some(info) => info_has_any_class(info, classes),
            None => false,
        };
        if !opens {
            i = i + 1;
            continue ;
        }
        let j: usize = closer_from(lines, i + 1);
        let ghost before = out@;
        out.push((i, j));
        proof {
            let more = found_from(all, j + 1, None, wanted);
            assert(out@.map_values(as_ints) =~= before.map_values(as_ints).push(
                (i as int, j as int),
            ));
            assert(before.map_values(as_ints) + (seq![(i as int, j as int)] + more)
                =~= out@.map_values(as_ints) + more);
        }
        if j == lines.len() {
            proof {
                assert(found_from(all, j + 1, None, wanted) =~= Seq::empty());
                assert(out@.map_values(as_ints) =~= out@.map_values(as_ints) + Seq::empty());
            }
            return out;
        }
        i = j + 1;
    }
    assert(out@.map_values(as_ints) =~= out@.map_values(as_ints) + Seq::empty());
    out
}

pub proof fn lemma_line_start(lines: Seq<Seq<char>>, i: int, j: int)
    requires
        0 <= i <= j,
    ensures
        i <= line_start(lines, i),
        i < j ==> line_start(lines, i) + byte_len(lines[i]) < line_start(lines, j),
        line_start(lines, i) <= line_start(lines, j),
    decreases j,
{
    if i < j {
        lemma_line_start(lines, i, j - 1);
    } else if i > 0 {
        lemma_line_start(lines, i - 1, i - 1);
    }
}

proof fn lemma_line_start_shift(first: Seq<char>, rest: Seq<Seq<char>>, k: int)
    requires
        0 <= k <= rest.len(),
    ensures
        line_start(seq![first] + rest, k + 1) == byte_len(first) + 1 + line_start(rest, k),
    decreases k,
{
    let all = seq![first] + rest;
    if k > 0 {
        lemma_line_start_shift(first, rest, k - 1);
        assert(all[k] == rest[k - 1]);
    } else {
        assert(line_start(all, 0) == 0);
        assert(all[0] == first);
    }
}

/// The lines of a body fill it: with one line break between each two they are as
/// long as it is.
pub proof fn lemma_lines_fill(body: Seq<char>)
    ensures
        line_start(split(body, '\n'), split(body, '\n').len() as int) == byte_len(body) + 1,
    decreases body.len(),
{
    let i = index_of(body, '\n');
    let all = split(body, '\n');
    lemma_index_of(body, '\n');
    if i < body.len() {
        let rest = body.skip(i + 1);
        lemma_lines_fill(rest);
        lemma_line_start_shift(body.take(i), split(rest, '\n'), split(rest, '\n').len() as int);
        assert(body =~= body.take(i) + (seq!['\n'] + rest));
        lemma_byte_len_concat(body.take(i), seq!['\n'] + rest);
        lemma_byte_len_concat(seq!['\n'], rest);
        assert(seq!['\n'].drop_first() =~= Seq::empty());
        assert(byte_len(seq!['\n']) == 1 + byte_len(Seq::empty()));
    } else {
        assert(all =~= seq![body]);
        assert(line_start(all, 1) == line_start(all, 0) + byte_len(all[0]) + 1);
    }
}

/// The byte offset at which each line starts.
fn line_offsets(lines: &Vec<String>, total: usize) -> (r: Vec<usize>)
    requires
        lines@.len() > 0,
        line_start(texts(lines@), lines@.len() as int) == total + 1,
    ensures
        r@.len() == lines@.len(),
        forall|k: int| 0 <= k < r@.len() ==> #[trigger] r@[k] == line_start(texts(lines@), k),
{
    let ghost all = texts(lines@);
    let mut out: Vec<usize> = Vec::new();
    out.push(0);
    let mut i: usize = 1;
    while i < lines.len()
        invariant
            all == texts(lines@),
            1 <= i <= lines@.len(),
            out@.len() == i,
            line_start(all, lines@.len() as int) == total + 1,
            forall|k: int| 0 <= k < out@.len() ==> #[trigger] out@[k] == line_start(all, k),
        decreases lines.len() - i,
    {
        let len: usize = byte_length(lines[i - 1].as_str());
        proof {
            assert(all[i - 1] == lines@[i - 1]@);
            lemma_line_start(all, i as int, lines@.len() as int);
            assert(out@[i - 1] == line_start(all, i - 1));
        }
        out.push(out[i - 1] + len + 1);
        i = i + 1;
    }
    out
}

/// The byte spans of the regions of the classes in `body`.
fn regions_of(body: &str, classes: &[String]) -> (r: Vec<Region>)
    ensures
        spans_of(r@) == regions(body@, texts(classes@)),
{
    let cs = chars_of(body);
    let lines = pieces(cs.as_slice(), '\n');
    let ghost all = texts(lines@);
    let total: usize = byte_length(body);
    proof {
        lemma_lines_fill(body@);
        assert(all.len() == lines@.len());
    }
    let offsets = line_offsets(&lines, total);
    let pairs = regions_matching(&lines, classes);
    let ghost as_ints = |p: (usize, usize)| (p.0 as int, p.1 as int);
    let ghost wanted = found(body@, texts(classes@));
    let mut out: Vec<Region> = Vec::new();
    let mut k: usize = 0;
    while k < pairs.len()
        invariant
            all == texts(lines@),
            all == split(body@, '\n'),
            wanted == found(body@, texts(classes@)),
            wanted == pairs@.map_values(as_ints),
            as_ints == (|p: (usize, usize)| (p.0 as int, p.1 as int)),
            k <= pairs@.len(),
            out@.len() == k,
            offsets@.len() == lines@.len(),
            line_start(all, lines@.len() as int) == total + 1,
            forall|n: int| 0 <= n < offsets@.len() ==> #[trigger] offsets@[n] == line_start(all, n),
            forall|n: int|
                0 <= n < pairs@.len() ==> (#[trigger] pairs@[n]).0 < pairs@[n].1 <= lines@.len(),
            forall|n: int|
                0 <= n < k ==> (#[trigger] out@[n])@ == region_span(all, wanted[n].0, wanted[n].1),
        decreases pairs.len() - k,
    {
        let (i, j) = pairs[k];
        let n: usize = lines.len();
        proof {
            assert(wanted[k as int] == (i as int, j as int));
            lemma_line_start(all, i as int + 1, n as int);
            lemma_line_start(all, i as int, i as int + 1);
        }
        let inner_start: usize = if i + 1 < n {
            offsets[i + 1]
        } else {
            total
        };
        let region = if j < n {
            proof {
                assert(all[j as int] == lines@[j as int]@);
                lemma_line_start(all, j as int, n as int);
                lemma_line_start(all, i as int, j as int);
            }
            let before: usize = offsets[j] - 1;
            Region {
                start: offsets[i],
                inner_start,
                inner_end: if before > inner_start {
                    before
                } else {
                    inner_start
                },
                end: offsets[j] + byte_length(lines[j].as_str()),
            }
        } else {
            Region { start: offsets[i], inner_start, inner_end: total, end: total }
        };
        out.push(region);
        k = k + 1;
    }
    proof {
        assert(spans_of(out@) =~= regions(body@, texts(classes@)));
    }
    out
}

/// All fenced regions carrying `class`, in document order.
pub fn regions_with_class(body: &str, class: &str) -> (r: Vec<Region>)
    ensures
        spans_of(r@) == regions(body@, seq![class@]),
        forall|k: int| 0 <= k < r@.len() ==> is_boundary(body@, (#[trigger] r@[k]).start as int),
{
    let mut classes: Vec<String> = Vec::new();
    classes.push(class.to_owned());
    assert(texts(classes@) =~= seq![class@]);
    let found = regions_of(body, classes.as_slice());
    proof {
        regions_start_on_boundaries(body@, seq![class@]);
        assert forall|k: int| 0 <= k < found@.len() implies is_boundary(
            body@,
            (#[trigger] found@[k]).start as int,
        ) by {
            assert(spans_of(found@)[k] == found@[k]@);
        }
    }
    found
}

/// All producer-owned regions, in document order.
pub fn preserved_regions(body: &str) -> (r: Vec<Region>)
    ensures
        spans_of(r@) == regions(body@, preserved_classes()),
        forall|k: int| 0 <= k < r@.len() ==> is_boundary(body@, (#[trigger] r@[k]).start as int),
{
    regions_with_class(body, PRESERVED_CLASSES[0])
}

/// Whether `body` holds any producer-owned region.
pub fn has_preserved(body: &str) -> (r: bool)
    ensures
        r == any_preserved(body@),
{
    let found = preserved_regions(body);
    proof {
        assert(spans_of(found@).len() == found@.len());
    }
    found.len() > 0
}

// ------------------------------------------------------------------- attributes

/// Whether byte offset `n` of a text falls between two characters.
pub open spec fn is_boundary(s: Seq<char>, n: int) -> bool
    decreases s.len(),
{
    n == 0 || (s.len() > 0 && n >= width(s[0]) && is_boundary(s.drop_first(), n - width(s[0])))
}

/// A text from byte offset `n` on.
pub open spec fn from_byte(s: Seq<char>, n: int) -> Seq<char>
    decreases s.len(),
{
    if n <= 0 || s.len() == 0 {
        s
    } else {
        from_byte(s.drop_first(), n - width(s[0]))
    }
}

proof fn lemma_boundary_after(first: Seq<char>, rest: Seq<char>, n: int)
    requires
        is_boundary(rest, n),
        0 <= n,
    ensures
        is_boundary(first + rest, byte_len(first) + n),
    decreases first.len(),
{
    if first.len() == 0 {
        assert(first + rest =~= rest);
    } else {
        lemma_boundary_after(first.drop_first(), rest, n);
        assert((first + rest).drop_first() =~= first.drop_first() + rest);
    }
}

/// A line starts between two characters.
pub proof fn lemma_line_start_boundary(body: Seq<char>, i: int)
    requires
        0 <= i < split(body, '\n').len(),
    ensures
        is_boundary(body, line_start(split(body, '\n'), i)),
    decreases body.len(),
{
    let at = index_of(body, '\n');
    lemma_index_of(body, '\n');
    if i > 0 {
        let first = body.take(at);
        let rest = body.skip(at + 1);
        let lines = split(rest, '\n');
        assert(split(body, '\n') == seq![first] + lines);
        lemma_line_start_boundary(rest, i - 1);
        lemma_line_start_shift(first, lines, i - 1);
        lemma_line_start(lines, 0, i - 1);
        lemma_boundary_after(seq!['\n'], rest, line_start(lines, i - 1));
        assert(seq!['\n'].drop_first() =~= Seq::empty());
        assert(byte_len(seq!['\n']) == 1 + byte_len(Seq::empty()));
        lemma_boundary_after(first, seq!['\n'] + rest, 1 + line_start(lines, i - 1));
        assert(body =~= first + (seq!['\n'] + rest));
    }
}

/// The regions of a body start between two characters of it.
pub proof fn regions_start_on_boundaries(body: Seq<char>, classes: Seq<Seq<char>>)
    ensures
        forall|k: int|
            0 <= k < regions(body, classes).len() ==> is_boundary(
                body,
                (#[trigger] regions(body, classes)[k]).start,
            ),
{
    let lines = split(body, '\n');
    lemma_found(lines, 0, None, classes);
    assert forall|k: int| 0 <= k < regions(body, classes).len() implies is_boundary(
        body,
        (#[trigger] regions(body, classes)[k]).start,
    ) by {
        let (i, j) = found(body, classes)[k];
        lemma_line_start_boundary(body, i);
    }
}

/// The value that a token gives to `key`, without its quotes.
pub open spec fn token_value(token: Seq<char>, key: Seq<char>) -> Option<Seq<char>> {
    if starts(token, key) && token.len() > key.len() && token[key.len() as int] == '=' {
        Some(trim(token.skip(key.len() as int + 1), CharSet::Quote))
    } else {
        None
    }
}

/// The value of the first token that gives one to `key`.
pub open spec fn first_value(ts: Seq<Seq<char>>, key: Seq<char>) -> Option<Seq<char>>
    decreases ts.len(),
{
    if ts.len() == 0 {
        None
    } else if token_value(ts[0], key) is Some {
        token_value(ts[0], key)
    } else {
        first_value(ts.drop_first(), key)
    }
}

/// The value of an attribute on the opener line that starts at byte `start`.
pub open spec fn attr_at(body: Seq<char>, start: int, key: Seq<char>) -> Option<Seq<char>> {
    let rest = from_byte(body, start);
    match opener_info_of(rest.take(index_of(rest, '\n'))) {
        Some(info) => first_value(tokens(info), key),
        None => None,
    }
}

/// The unquoted value of a `key="value"` attribute on a region's opener line, if
/// present.
pub fn opener_attr(body: &str, region: &Region, key: &str) -> (r: Option<String>)
    requires
        is_boundary(body@, region.start as int),
    ensures
        r is Some == attr_at(body@, region.start as int, key@) is Some,
        r matches Some(v) ==> attr_at(body@, region.start as int, key@) == Some(v@),
{
    let cs = chars_of(body);
    let name = chars_of(key);
    let mut at: usize = 0;
    let mut left: usize = region.start;
    assert(cs@.skip(0) =~= cs@);
    while left > 0
        invariant
            at <= cs@.len(),
            is_boundary(cs@.skip(at as int), left as int),
            from_byte(cs@, region.start as int) == from_byte(cs@.skip(at as int), left as int),
        decreases left,
    {
        assert(at < cs.len());
        assert(cs@.skip(at as int).drop_first() =~= cs@.skip(at + 1));
        left = left - char_width(cs[at]);
        at = at + 1;
    }
    let end: usize = index_from(cs.as_slice(), '\n', at);
    let line = slice_subrange(cs.as_slice(), at, end);
    let ghost rest = cs@.skip(at as int);
    assert(line@ =~= rest.take(index_of(rest, '\n')));
    let ts = match opener_info(line) {
        Some(info) => info_tokens(info),
        None => {
            return None;
        },
    };
    let ghost all = texts(ts@);
    let mut i: usize = 0;
    assert(all.skip(0) =~= all);
    while i < ts.len()
        invariant
            i <= ts@.len(),
            all == texts(ts@),
            name@ == key@,
            first_value(all, key@) == first_value(all.skip(i as int), key@),
            attr_at(body@, region.start as int, key@) == first_value(all, key@),
        decreases ts.len() - i,
    {
        let token = chars_of(ts[i].as_str());
        proof {
            assert(all.skip(i as int)[0] == token@);
            assert(all.skip(i as int).drop_first() =~= all.skip(i + 1));
        }
        if starts_with(token.as_slice(), name.as_slice()) && token.len() > name.len()
            && token[name.len()] == '=' {
            let value = slice_subrange(token.as_slice(), name.len() + 1, token.len());
            assert(value@ =~= token@.skip(name@.len() as int + 1));
            return Some(string_of(trimmed(value, CharSet::Quote)));
        }
        i = i + 1;
    }
    None
}

// -------------------------------------------------------------------- stripping

/// The index, in characters, at which line `i` starts.
pub open spec fn line_pos(lines: Seq<Seq<char>>, i: int) -> int
    decreases i,
{
    if i <= 0 {
        0
    } else {
        line_pos(lines, i - 1) + lines[i - 1].len() + 1
    }
}

/// The index, in characters, just past a region that closes on line `j`.
pub open spec fn region_stop(lines: Seq<Seq<char>>, j: int) -> int {
    if j < lines.len() {
        line_pos(lines, j) + lines[j].len()
    } else {
        line_pos(lines, lines.len() as int) - 1
    }
}

/// A body without its first producer-owned region and the line breaks behind it.
pub open spec fn without_first(body: Seq<char>) -> Seq<char> {
    let lines = split(body, '\n');
    let first = found(body, preserved_classes())[0];
    body.take(line_pos(lines, first.0)) + trim_start(
        body.skip(region_stop(lines, first.1)),
        CharSet::Only('\n'),
    )
}

/// A body without its producer-owned regions.
pub open spec fn spliced(body: Seq<char>) -> Seq<char>
    decreases body.len(),
{
    if any_preserved(body) {
        proof {
            lemma_without_first_shorter(body);
        }
        spliced(without_first(body))
    } else {
        body
    }
}

/// The author content of a body: what is left without its producer-owned regions,
/// trimmed, and one line break where that is not empty.
pub open spec fn stripped(body: Seq<char>) -> Seq<char> {
    let t = trim_white(spliced(body));
    if t.len() == 0 {
        t
    } else {
        t.push('\n')
    }
}

/// The regions come in order, none inside another, each opened by an opener line
/// of the classes.
pub proof fn lemma_found(
    lines: Seq<Seq<char>>,
    i: int,
    shield: Option<Shield>,
    classes: Seq<Seq<char>>,
)
    requires
        0 <= i,
    ensures
        ({
            let f = found_from(lines, i, shield, classes);
            &&& forall|k: int|
                0 <= k < f.len() ==> i <= (#[trigger] f[k]).0 < f[k].1 <= lines.len()
                    && opens_region(lines[f[k].0], classes)
            &&& forall|k: int, m: int|
                0 <= k < m < f.len() ==> (#[trigger] f[k]).1 < (#[trigger] f[m]).0
        }),
    decreases lines.len() + 1 - i,
{
    if i < lines.len() {
        if shielded(lines[i], shield) {
            lemma_found(lines, i + 1, shield_after(lines[i], shield), classes);
            assert(found_from(lines, i, shield, classes) == found_from(
                lines,
                i + 1,
                shield_after(lines[i], shield),
                classes,
            ));
        } else if opens_region(lines[i], classes) {
            lemma_closer_line(lines, i + 1, 1, None);
            let j = closer_line(lines, i + 1, 1, None);
            lemma_found(lines, j + 1, None, classes);
            let more = found_from(lines, j + 1, None, classes);
            let f = found_from(lines, i, shield, classes);
            assert(f =~= seq![(i, j)] + more);
            assert forall|k: int| 0 <= k < f.len() implies i <= (#[trigger] f[k]).0 < f[k].1
                <= lines.len() && opens_region(lines[f[k].0], classes) by {
                if k > 0 {
                    assert(f[k] == more[k - 1]);
                }
            }
            assert forall|k: int, m: int| 0 <= k < m < f.len() implies (#[trigger] f[k]).1 < (
            #[trigger] f[m]).0 by {
                assert(f[m] == more[m - 1]);
                if k > 0 {
                    assert(f[k] == more[k - 1]);
                }
            }
        } else {
            lemma_found(lines, i + 1, None, classes);
            assert(found_from(lines, i, shield, classes) == found_from(
                lines,
                i + 1,
                None,
                classes,
            ));
        }
    }
}

pub proof fn lemma_line_pos(lines: Seq<Seq<char>>, i: int, j: int)
    requires
        0 <= i <= j,
    ensures
        i <= line_pos(lines, i),
        i < j ==> line_pos(lines, i) + lines[i].len() < line_pos(lines, j),
        line_pos(lines, i) <= line_pos(lines, j),
    decreases j,
{
    if i < j {
        lemma_line_pos(lines, i, j - 1);
    } else if i > 0 {
        lemma_line_pos(lines, i - 1, i - 1);
    }
}

pub proof fn lemma_line_pos_shift(first: Seq<char>, rest: Seq<Seq<char>>, k: int)
    requires
        0 <= k <= rest.len(),
    ensures
        line_pos(seq![first] + rest, k + 1) == first.len() + 1 + line_pos(rest, k),
    decreases k,
{
    let all = seq![first] + rest;
    if k > 0 {
        lemma_line_pos_shift(first, rest, k - 1);
        assert(all[k] == rest[k - 1]);
    } else {
        assert(line_pos(all, 0) == 0);
        assert(all[0] == first);
    }
}

pub proof fn lemma_lines_fill_chars(body: Seq<char>)
    ensures
        line_pos(split(body, '\n'), split(body, '\n').len() as int) == body.len() + 1,
    decreases body.len(),
{
    let i = index_of(body, '\n');
    let all = split(body, '\n');
    lemma_index_of(body, '\n');
    if i < body.len() {
        let rest = body.skip(i + 1);
        lemma_lines_fill_chars(rest);
        lemma_line_pos_shift(body.take(i), split(rest, '\n'), split(rest, '\n').len() as int);
    } else {
        assert(all =~= seq![body]);
        assert(line_pos(all, 1) == line_pos(all, 0) + all[0].len() + 1);
    }
}

proof fn lemma_region_bounds(body: Seq<char>)
    requires
        any_preserved(body),
    ensures
        ({
            let lines = split(body, '\n');
            let first = found(body, preserved_classes())[0];
            &&& 0 <= first.0 < first.1 <= lines.len()
            &&& 0 <= line_pos(lines, first.0) < region_stop(lines, first.1) <= body.len()
        }),
{
    let lines = split(body, '\n');
    lemma_found(lines, 0, None, preserved_classes());
    lemma_lines_fill_chars(body);
    let (i, j) = found(body, preserved_classes())[0];
    lemma_run(lines[i], CharSet::Only(':'));
    lemma_line_pos(lines, i, j);
    lemma_line_pos(lines, i, lines.len() as int);
    lemma_line_pos(lines, j, lines.len() as int);
}

/// Taking a region out makes a body shorter.
pub proof fn lemma_without_first_shorter(body: Seq<char>)
    requires
        any_preserved(body),
    ensures
        without_first(body).len() < body.len(),
{
    lemma_region_bounds(body);
    let lines = split(body, '\n');
    let first = found(body, preserved_classes())[0];
    lemma_run(body.skip(region_stop(lines, first.1)), CharSet::Only('\n'));
}

/// The index, in characters, at which line `i` starts.
fn line_position(lines: &Vec<String>, i: usize, limit: usize) -> (r: usize)
    requires
        i <= lines@.len(),
        line_pos(texts(lines@), i as int) <= limit,
    ensures
        r == line_pos(texts(lines@), i as int),
{
    let ghost all = texts(lines@);
    let mut k: usize = 0;
    let mut pos: usize = 0;
    while k < i
        invariant
            k <= i <= lines@.len(),
            all == texts(lines@),
            pos == line_pos(all, k as int),
            line_pos(all, i as int) <= limit,
        decreases i - k,
    {
        let line = chars_of(lines[k].as_str());
        proof {
            assert(all[k as int] == line@);
            lemma_line_pos(all, k as int + 1, i as int);
        }
        pos = pos + line.len() + 1;
        k = k + 1;
    }
    pos
}

/// `body` with every producer-owned region removed (what goes back to a source
/// file), trimmed of the blank lines that this leaves at the edges.
pub fn strip_preserved(body: &str) -> (r: String)
    ensures
        r@ == stripped(body@),
        flush_left(split(body@, '\n')) ==> !any_preserved(r@) && contents(split(r@, '\n'))
            == contents(outside(body@)),
{
    proof {
        if flush_left(split(body@, '\n')) {
            stripping_keeps_what_the_author_wrote(body@);
        }
    }
    let mut classes: Vec<String> = Vec::new();
    classes.push("enrichment".to_owned());
    assert(texts(classes@) =~= preserved_classes());
    let mut out = chars_of(body);
    loop
        invariant
            texts(classes@) == preserved_classes(),
            spliced(out@) == spliced(body@),
        ensures
            out@ == spliced(body@),
        decreases out@.len(),
    {
        let lines = pieces(out.as_slice(), '\n');
        let ghost all = texts(lines@);
        let pairs = regions_matching(&lines, classes.as_slice());
        let ghost as_ints = |p: (usize, usize)| (p.0 as int, p.1 as int);
        let ghost first = found(out@, preserved_classes())[0];
        proof {
            assert(pairs@.map_values(as_ints) == found(out@, preserved_classes()));
            assert(pairs@.map_values(as_ints).len() == pairs@.len());
        }
        if pairs.len() == 0 {
            break ;
        }
        let (i, j) = pairs[0];
        proof {
            assert(first == (i as int, j as int));
            lemma_region_bounds(out@);
            lemma_lines_fill_chars(out@);
            lemma_without_first_shorter(out@);
        }
        let start: usize = line_position(&lines, i, out.len());
        let stop: usize = if j < lines.len() {
            proof {
                lemma_line_pos(all, j as int, all.len() as int);
                assert(all[j as int] == lines@[j as int]@);
            }
            let len: usize = chars_of(lines[j].as_str()).len();
            line_position(&lines, j, out.len()) + len
        } else {
            out.len()
        };
        let rest = slice_subrange(out.as_slice(), stop, out.len());
        assert(rest@ =~= out@.skip(stop as int));
        let mut next: Vec<char> = Vec::new();
        push_chars(&mut next, slice_subrange(out.as_slice(), 0, start));
        push_chars(&mut next, trimmed_start(rest, CharSet::Only('\n')));
        assert(next@ =~= without_first(out@));
        out = next;
    }
    let t = trimmed(out.as_slice(), CharSet::White);
    let mut r = string_of(t);
    if t.len() > 0 {
        r.push('\n');
    }
    r
}

/// The text of a region that opens on line `p.0` and closes on line `p.1`.
pub open spec fn region_text(body: Seq<char>, p: (int, int)) -> Seq<char> {
    let lines = split(body, '\n');
    body.subrange(line_pos(lines, p.0), region_stop(lines, p.1))
}

/// The texts of the producer-owned regions of a body, in document order.
pub open spec fn region_texts(body: Seq<char>) -> Seq<Seq<char>> {
    found(body, preserved_classes()).map_values(|p: (int, int)| region_text(body, p))
}

pub proof fn lemma_pair_bounds(body: Seq<char>, i: int, j: int)
    requires
        0 <= i < j <= split(body, '\n').len(),
    ensures
        0 <= line_pos(split(body, '\n'), i) <= region_stop(split(body, '\n'), j) <= body.len(),
{
    let lines = split(body, '\n');
    lemma_lines_fill_chars(body);
    lemma_line_pos(lines, i, j);
    lemma_line_pos(lines, i, lines.len() as int);
    lemma_line_pos(lines, j, lines.len() as int);
}

/// The texts of the producer-owned regions of a body, in document order.
pub fn preserved_texts(body: &str) -> (r: Vec<String>)
    ensures
        texts(r@) == region_texts(body@),
{
    let mut classes: Vec<String> = Vec::new();
    classes.push("enrichment".to_owned());
    assert(texts(classes@) =~= preserved_classes());
    let cs = chars_of(body);
    let lines = pieces(cs.as_slice(), '\n');
    let ghost all = texts(lines@);
    let pairs = regions_matching(&lines, classes.as_slice());
    let ghost as_ints = |p: (usize, usize)| (p.0 as int, p.1 as int);
    let ghost wanted = found(body@, preserved_classes());
    let mut out: Vec<String> = Vec::new();
    let mut k: usize = 0;
    while k < pairs.len()
        invariant
            k <= pairs@.len(),
            cs@ == body@,
            all == texts(lines@),
            all == split(body@, '\n'),
            as_ints == (|p: (usize, usize)| (p.0 as int, p.1 as int)),
            wanted == pairs@.map_values(as_ints),
            out@.len() == k,
            forall|n: int|
                0 <= n < pairs@.len() ==> (#[trigger] pairs@[n]).0 < pairs@[n].1 <= lines@.len(),
            forall|n: int|
                0 <= n < k ==> (#[trigger] out@[n])@ == region_text(body@, wanted[n]),
        decreases pairs.len() - k,
    {
        let (i, j) = pairs[k];
        proof {
            assert(wanted[k as int] == (i as int, j as int));
            lemma_pair_bounds(body@, i as int, j as int);
            lemma_lines_fill_chars(body@);
            assert(all.len() == lines@.len());
        }
        let start: usize = line_position(&lines, i, cs.len());
        let stop: usize = if j < lines.len() {
            proof {
                lemma_line_pos(all, j as int, all.len() as int);
                assert(all[j as int] == lines@[j as int]@);
            }
            let len: usize = chars_of(lines[j].as_str()).len();
            line_position(&lines, j, cs.len()) + len
        } else {
            cs.len()
        };
        out.push(string_of(slice_subrange(cs.as_slice(), start, stop)));
        k = k + 1;
    }
    assert(texts(out@) =~= region_texts(body@));
    out
}

// ------------------------------------------------------------------------- laws

proof fn lemma_line_offsets_agree(body: Seq<char>, i: int)
    requires
        0 <= i < split(body, '\n').len(),
    ensures
        0 <= line_pos(split(body, '\n'), i) <= body.len(),
        line_start(split(body, '\n'), i) == byte_len(body.take(line_pos(split(body, '\n'), i))),
    decreases body.len(),
{
    let at = index_of(body, '\n');
    lemma_index_of(body, '\n');
    if i > 0 {
        let first = body.take(at);
        let rest = body.skip(at + 1);
        let lines = split(rest, '\n');
        assert(split(body, '\n') == seq![first] + lines);
        lemma_line_offsets_agree(rest, i - 1);
        lemma_line_start_shift(first, lines, i - 1);
        lemma_line_pos_shift(first, lines, i - 1);
        let p = line_pos(lines, i - 1);
        assert(body.take(at + 1 + p) =~= first + (seq!['\n'] + rest.take(p)));
        lemma_byte_len_concat(first, seq!['\n'] + rest.take(p));
        lemma_byte_len_concat(seq!['\n'], rest.take(p));
        assert(seq!['\n'].drop_first() =~= Seq::empty());
        assert(byte_len(seq!['\n']) == 1 + byte_len(Seq::empty()));
    } else {
        assert(body.take(0) =~= Seq::empty());
    }
}

/// The byte offsets of a region are those of its text: as many bytes of the body stand
/// before it as its `start` says, and it is as long as `end` less `start`.
pub proof fn region_offsets_delimit_its_text(body: Seq<char>, classes: Seq<Seq<char>>, k: int)
    requires
        0 <= k < found(body, classes).len(),
    ensures
        ({
            let lines = split(body, '\n');
            let p = found(body, classes)[k];
            let span = regions(body, classes)[k];
            &&& span.start == byte_len(body.take(line_pos(lines, p.0)))
            &&& span.end - span.start == byte_len(region_text(body, p))
        }),
{
    let lines = split(body, '\n');
    let n = lines.len() as int;
    lemma_found(lines, 0, None, classes);
    let (i, j) = found(body, classes)[k];
    lemma_pair_bounds(body, i, j);
    lemma_line_offsets_agree(body, i);
    lemma_lines_fill(body);
    lemma_lines_fill_chars(body);
    let from = line_pos(lines, i);
    let stop = region_stop(lines, j);
    let text = region_text(body, (i, j));
    assert(body.take(stop) =~= body.take(from) + text);
    lemma_byte_len_concat(body.take(from), text);
    if j < n {
        lemma_line_offsets_agree(body, j);
        lemma_line_text(body, j);
        let pos = line_pos(lines, j);
        assert(body.take(stop) =~= body.take(pos) + lines[j]);
        lemma_byte_len_concat(body.take(pos), lines[j]);
    } else {
        assert(body.take(stop) =~= body);
    }
}

pub proof fn lemma_line_text(body: Seq<char>, i: int)
    requires
        0 <= i < split(body, '\n').len(),
    ensures
        0 <= line_pos(split(body, '\n'), i),
        line_pos(split(body, '\n'), i) + split(body, '\n')[i].len() <= body.len(),
        body.subrange(
            line_pos(split(body, '\n'), i),
            line_pos(split(body, '\n'), i) + split(body, '\n')[i].len(),
        ) == split(body, '\n')[i],
    decreases body.len(),
{
    let at = index_of(body, '\n');
    lemma_index_of(body, '\n');
    if at < body.len() {
        let first = body.take(at);
        let rest = body.skip(at + 1);
        let lines = split(rest, '\n');
        assert(split(body, '\n') == seq![first] + lines);
        if i > 0 {
            lemma_line_text(rest, i - 1);
            lemma_line_pos_shift(first, lines, i - 1);
            let p = line_pos(lines, i - 1);
            let len = lines[i - 1].len();
            assert(body.subrange(at + 1 + p, at + 1 + p + len) =~= rest.subrange(p, p + len));
        } else {
            assert(body.subrange(0, at) =~= first);
        }
    } else {
        assert(split(body, '\n') =~= seq![body]);
        assert(body.subrange(0, body.len() as int) =~= body);
    }
}

/// Every region of a body lies inside it, its inner content lies inside the
/// region, and each region ends before the next one starts.
pub proof fn regions_are_ordered_and_disjoint(body: Seq<char>, classes: Seq<Seq<char>>)
    ensures
        ({
            let rs = regions(body, classes);
            &&& forall|k: int|
                0 <= k < rs.len() ==> 0 <= (#[trigger] rs[k]).start < rs[k].inner_start
                    <= rs[k].inner_end <= rs[k].end <= byte_len(body)
            &&& forall|k: int, m: int|
                0 <= k < m < rs.len() ==> (#[trigger] rs[k]).end < (#[trigger] rs[m]).start
        }),
{
    let lines = split(body, '\n');
    let n = lines.len() as int;
    let f = found(body, classes);
    let rs = regions(body, classes);
    lemma_found(lines, 0, None, classes);
    lemma_lines_fill(body);
    assert forall|k: int| 0 <= k < rs.len() implies 0 <= (#[trigger] rs[k]).start
        < rs[k].inner_start <= rs[k].inner_end <= rs[k].end <= byte_len(body) by {
        let (i, j) = f[k];
        lemma_run(lines[i], CharSet::Only(':'));
        lemma_byte_len_at_least(lines[i]);
        lemma_line_start(lines, i, j);
        lemma_line_start(lines, i, n);
        lemma_line_start(lines, i + 1, j);
        lemma_line_start(lines, i + 1, n);
        lemma_line_start(lines, j, n);
    }
    assert forall|k: int, m: int| 0 <= k < m < rs.len() implies (#[trigger] rs[k]).end < (
    #[trigger] rs[m]).start by {
        let (i, j) = f[k];
        let (i2, j2) = f[m];
        lemma_line_start(lines, j, i2);
    }
}

/// What is left when the producer-owned regions are taken out holds none.
pub proof fn spliced_holds_no_region(body: Seq<char>)
    ensures
        !any_preserved(spliced(body)),
        !any_preserved(body) ==> spliced(body) == body,
    decreases body.len(),
{
    if any_preserved(body) {
        lemma_without_first_shorter(body);
        spliced_holds_no_region(without_first(body));
    }
}

} // verus!
