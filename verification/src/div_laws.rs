//! What the lines of fenced divs mean: which classes and attributes an opener has, where its
//! region ends, and what is passed over on the way.

use crate::fence::{
    closer_line, closes_div, first_value, found_from, has_class, info_text, line_start, names_class,
    opener_info_of, opens_region, region_span, shield_after, shield_closed, shield_opened, shielded,
    token_value, tokens, tokens_from, without_indent, word_len, Shield,
};
use crate::text::{
    byte_len, is_white, join, lemma_run, run, starts, trim, trim_end, trim_start, trim_white,
    CharSet,
};
use crate::text_laws::{
    bare, blank, lemma_bare_is_trimmed, trimming_takes_off, trimming_the_end_takes_off,
};
use vstd::prelude::*;

verus! {

/// A number of one character.
pub open spec fn many(c: char, n: nat) -> Seq<char> {
    Seq::new(n, |i: int| c)
}

/// Whether a text is a word: it has no white space and no quote.
pub open spec fn is_word(w: Seq<char>) -> bool {
    w.len() > 0 && forall|i: int|
        0 <= i < w.len() ==> !is_white(#[trigger] w[i]) && w[i] != '"' && w[i] != '\''
}

/// Whether texts are words.
pub open spec fn are_words(ws: Seq<Seq<char>>) -> bool {
    forall|i: int| 0 <= i < ws.len() ==> is_word(#[trigger] ws[i])
}

/// The line that opens a div with an info segment.
pub open spec fn opener(n: nat, info: Seq<char>) -> Seq<char> {
    many(':', n) + seq![' '] + info
}

/// An info segment with words in braces.
pub open spec fn block(text: Seq<char>) -> Seq<char> {
    seq!['{'] + text + seq!['}']
}

proof fn lemma_run_of(c: char, n: nat, rest: Seq<char>)
    requires
        rest.len() > 0 ==> rest[0] != c,
    ensures
        run(many(c, n) + rest, CharSet::Only(c)) == n,
        (many(c, n) + rest).skip(n as int) == rest,
{
    let s = many(c, n) + rest;
    lemma_run(s, CharSet::Only(c));
    let k = run(s, CharSet::Only(c));
    if k < n {
        assert(s[k as int] == c);
    }
    if k > n {
        assert(s[n as int] == rest[0]);
    }
    assert(s.skip(n as int) =~= rest);
}

/// A line of three or more colons and an info segment opens a div, with that segment.
proof fn lemma_opener(n: nat, info: Seq<char>)
    requires
        n >= 3,
        bare(info),
        info[0] != ':',
    ensures
        opener_info_of(opener(n, info)) == Some(seq![' '] + info),
        trim_white(seq![' '] + info) == info,
        !shielded(opener(n, info), None),
        !closes_div(opener(n, info)),
{
    let line = opener(n, info);
    let tail = seq![' '] + info;
    assert(line =~= many(':', n) + tail);
    lemma_run_of(':', n, tail);
    let e = Seq::<char>::empty();
    trimming_takes_off(seq![' '], info, e, CharSet::White);
    lemma_bare_is_trimmed(info);
    assert(seq![' '] + info + e =~= tail);
    assert(line[0] == ':');
    assert(without_indent(line)[0] == ':') by {
        lemma_run(line, CharSet::Only(' '));
        assert(line.skip(0) =~= line);
    }
    assert(line.last() == info.last());
    assert(trim_end(line, CharSet::White) == line);
    assert(line[n as int] == ' ');
}

proof fn lemma_token_read(w: Seq<char>, current: Seq<char>, rest: Seq<char>)
    requires
        forall|i: int|
            0 <= i < w.len() ==> !is_white(#[trigger] w[i]) && w[i] != '"' && w[i] != '\'',
    ensures
        tokens_from(w + rest, current, None) == tokens_from(rest, current + w, None),
    decreases w.len(),
{
    if w.len() == 0 {
        assert(w + rest =~= rest);
        assert(current + w =~= current);
    } else {
        let all = w + rest;
        assert(all[0] == w[0]);
        assert(all.drop_first() =~= w.drop_first() + rest);
        assert(current + w =~= current.push(w[0]) + w.drop_first());
        lemma_token_read(w.drop_first(), current.push(w[0]), rest);
    }
}

proof fn lemma_quote_read(v: Seq<char>, q: char, current: Seq<char>, rest: Seq<char>)
    requires
        !v.contains(q),
    ensures
        tokens_from(v + seq![q] + rest, current, Some(q)) == tokens_from(
            rest,
            current + v + seq![q],
            None,
        ),
    decreases v.len(),
{
    let all = v + seq![q] + rest;
    if v.len() == 0 {
        assert(all[0] == q);
        assert(all.drop_first() =~= rest);
        assert(current + v + seq![q] =~= current.push(q));
    } else {
        assert(all[0] == v[0]);
        assert(v.contains(v[0]));
        assert(all.drop_first() =~= v.drop_first() + seq![q] + rest);
        assert(current + v + seq![q] =~= current.push(v[0]) + v.drop_first() + seq![q]);
        assert(!v.drop_first().contains(q)) by {
            if v.drop_first().contains(q) {
                let i = choose|i: int| 0 <= i < v.len() - 1 && v.drop_first()[i] == q;
                assert(v[i + 1] == q);
            }
        }
        lemma_quote_read(v.drop_first(), q, current.push(v[0]), rest);
    }
}

proof fn lemma_words_read(ws: Seq<Seq<char>>)
    requires
        are_words(ws),
    ensures
        tokens_from(join(ws, seq![' ']), Seq::empty(), None) == ws,
    decreases ws.len(),
{
    let e = Seq::<char>::empty();
    if ws.len() == 0 {
        assert(join(ws, seq![' ']) =~= e);
        assert(tokens_from(e, e, None) =~= ws);
    } else if ws.len() == 1 {
        assert(is_word(ws[0]));
        lemma_token_read(ws[0], e, e);
        assert(ws[0] + e =~= ws[0]);
        assert(e + ws[0] =~= ws[0]);
        assert(tokens_from(ws[0], e, None) =~= ws);
    } else {
        let rest = ws.drop_first();
        assert forall|i: int| 0 <= i < rest.len() implies is_word(#[trigger] rest[i]) by {
            assert(rest[i] == ws[i + 1]);
        }
        lemma_words_read(rest);
        assert(is_word(ws[0]));
        let tail = seq![' '] + join(rest, seq![' ']);
        assert(join(ws, seq![' ']) =~= ws[0] + tail);
        lemma_token_read(ws[0], e, tail);
        assert(e + ws[0] =~= ws[0]);
        assert(tail[0] == ' ');
        assert(tail.drop_first() =~= join(rest, seq![' ']));
        assert(tokens_from(tail, ws[0], None) =~= seq![ws[0]] + rest);
        assert(seq![ws[0]] + rest =~= ws);
    }
}

proof fn lemma_block_tokens(text: Seq<char>)
    ensures
        tokens(seq![' '] + block(text)) == tokens_from(text, Seq::empty(), None),
        bare(block(text)),
{
    let b = block(text);
    let e = Seq::<char>::empty();
    assert(b[0] == '{');
    assert(b.last() == '}');
    lemma_bare_is_trimmed(b);
    trimming_takes_off(seq![' '], b, e, CharSet::White);
    assert(seq![' '] + b + e =~= seq![' '] + b);
    assert(trim_end(b, CharSet::OnlyOrWhite(':')) == b);
    assert(info_text(seq![' '] + b) == b);
    assert(b.drop_first().drop_last() =~= text);
    assert(b.drop_first().last() == '}');
}

/// A div with words in braces has exactly the classes that stand there behind a dot, whichever
/// of the words they are; and one with a bare word has that class alone.
pub proof fn openers_have_their_classes(
    n: nat,
    ws: Seq<Seq<char>>,
    bare_word: Seq<char>,
    class: Seq<char>,
    classes: Seq<Seq<char>>,
)
    requires
        n >= 3,
        ws.len() > 0,
        are_words(ws),
        is_word(bare_word),
        bare_word[0] != '{',
        bare_word[0] != ':',
        bare_word.last() != ':',
    ensures
        ({
            let line = opener(n, block(join(ws, seq![' '])));
            let info = opener_info_of(line)->0;
            &&& opener_info_of(line) is Some
            &&& has_class(info, class) <==> ws.contains(seq!['.'] + class)
            &&& classes.contains(class) && ws.contains(seq!['.'] + class) ==> opens_region(
                line,
                classes,
            )
            &&& opens_region(line, classes) ==> exists|k: int|
                0 <= k < classes.len() && ws.contains(seq!['.'] + #[trigger] classes[k])
        }),
        ({
            let line = opener(n, bare_word);
            &&& opener_info_of(line) is Some
            &&& has_class(opener_info_of(line)->0, class) <==> class == bare_word
        }),
{
    let text = join(ws, seq![' ']);
    let line = opener(n, block(text));
    lemma_block_tokens(text);
    lemma_words_read(ws);
    lemma_opener(n, block(text));
    let info = seq![' '] + block(text);
    assert(tokens(info) == ws);
    lemma_names(ws, class);
    if classes.contains(class) && ws.contains(seq!['.'] + class) {
        let k = choose|k: int| 0 <= k < classes.len() && classes[k] == class;
        assert(has_class(info, classes[k]));
    }
    if opens_region(line, classes) {
        let k = choose|k: int| 0 <= k < classes.len() && has_class(info, #[trigger] classes[k]);
        lemma_names(ws, classes[k]);
        assert(ws.contains(seq!['.'] + classes[k]));
    }
    lemma_opener(n, bare_word);
    let info = seq![' '] + bare_word;
    assert(trim_end(bare_word, CharSet::OnlyOrWhite(':')) == bare_word);
    assert(info_text(info) == bare_word);
    assert(tokens(info) =~= Seq::empty());
    assert(trim_start(bare_word, CharSet::White) == bare_word);
    lemma_word_len(bare_word);
    assert(bare_word.take(bare_word.len() as int) =~= bare_word);
}

proof fn lemma_word_len(w: Seq<char>)
    requires
        forall|i: int|
            0 <= i < w.len() ==> !is_white(#[trigger] w[i]) && w[i] != '"' && w[i] != '\'',
    ensures
        word_len(w) == w.len(),
    decreases w.len(),
{
    if w.len() > 0 {
        lemma_word_len(w.drop_first());
    }
}

proof fn lemma_names(ws: Seq<Seq<char>>, class: Seq<char>)
    ensures
        (exists|i: int| 0 <= i < ws.len() && names_class(#[trigger] ws[i], class)) <==> ws.contains(
            seq!['.'] + class,
        ),
{
    let dotted = seq!['.'] + class;
    if ws.contains(dotted) {
        let i = choose|i: int| 0 <= i < ws.len() && ws[i] == dotted;
        assert(dotted.drop_first() =~= class);
        assert(names_class(ws[i], class));
    }
    if exists|i: int| 0 <= i < ws.len() && names_class(#[trigger] ws[i], class) {
        let i = choose|i: int| 0 <= i < ws.len() && names_class(#[trigger] ws[i], class);
        assert(ws[i] =~= dotted);
    }
}

/// The value of an attribute is all that stands in its quotes, white space too.
pub proof fn attributes_are_read_whole(
    n: nat,
    class: Seq<char>,
    key: Seq<char>,
    value: Seq<char>,
)
    requires
        n >= 3,
        is_word(class),
        is_word(key),
        key[0] != '.',
        !key.contains('='),
        value.len() > 0,
        !value.contains('"'),
        !value.contains('\''),
    ensures
        ({
            let text = seq!['.'] + class + seq![' '] + (key + seq!['=', '"'] + value + seq!['"']);
            let info = opener_info_of(opener(n, block(text)))->0;
            &&& opener_info_of(opener(n, block(text))) is Some
            &&& has_class(info, class)
            &&& first_value(tokens(info), key) == Some(value)
        }),
{
    let given = key + seq!['=', '"'] + value + seq!['"'];
    let dotted = seq!['.'] + class;
    let text = dotted + seq![' '] + given;
    let e = Seq::<char>::empty();
    lemma_block_tokens(text);
    lemma_opener(n, block(text));
    let info = seq![' '] + block(text);
    let tail = seq![' '] + given;
    assert(text =~= dotted + tail);
    assert forall|i: int| 0 <= i < dotted.len() implies !is_white(#[trigger] dotted[i]) && dotted[i]
        != '"' && dotted[i] != '\'' by {
        if i > 0 {
            assert(dotted[i] == class[i - 1]);
        }
    }
    lemma_token_read(dotted, e, tail);
    assert(e + dotted =~= dotted);
    assert(tail[0] == ' ');
    assert(tail.drop_first() =~= given);
    assert(tokens_from(tail, dotted, None) == seq![dotted] + tokens_from(given, e, None));
    let named = key.push('=');
    let quoted = seq!['"'] + (value + seq!['"'] + e);
    assert(given =~= named + quoted);
    assert forall|i: int| 0 <= i < named.len() implies !is_white(#[trigger] named[i]) && named[i]
        != '"' && named[i] != '\'' by {
        if i < key.len() {
            assert(named[i] == key[i]);
        }
    }
    lemma_token_read(named, e, quoted);
    assert(e + named =~= named);
    assert(quoted[0] == '"');
    assert(quoted.drop_first() =~= value + seq!['"'] + e);
    lemma_quote_read(value, '"', named.push('"'), e);
    assert(named.push('"') + value + seq!['"'] =~= given);
    assert(tokens_from(e, given, None) =~= seq![given]);
    let ts = tokens(info);
    assert(ts =~= seq![dotted, given]);
    lemma_names(ts, class);
    assert(ts[0] == dotted);
    assert(ts.contains(dotted));
    // the first token gives no value, the second all of it
    assert(token_value(dotted, key) is None) by {
        if starts(dotted, key) {
            assert(dotted.subrange(0, key.len() as int)[0] == '.');
        }
    }
    assert(given.subrange(0, key.len() as int) =~= key);
    assert(given[key.len() as int] == '=');
    let rest = given.skip(key.len() as int + 1);
    assert(rest =~= seq!['"'] + value + seq!['"']);
    assert(value.contains(value[0]));
    assert(value.contains(value.last()));
    trimming_takes_off(seq!['"'], value, seq!['"'], CharSet::Quote);
    assert(trim_start(value, CharSet::Quote) == value);
    assert(trim_end(value, CharSet::Quote) == value);
    assert(trim(value, CharSet::Quote) == value);
    assert(ts.drop_first() =~= seq![given]);
    assert(first_value(ts.drop_first(), key) == Some(value));
}

// -------------------------------------------------------------------------------- regions

/// Whether a line is plain: it begins with no colon, no code fence and no space.
pub open spec fn is_plain(line: Seq<char>) -> bool {
    line.len() > 0 ==> line[0] != ':' && line[0] != '`' && line[0] != '~' && line[0] != ' '
}

/// Whether lines are plain.
pub open spec fn are_plain(ls: Seq<Seq<char>>) -> bool {
    forall|i: int| 0 <= i < ls.len() ==> is_plain(#[trigger] ls[i])
}

/// Whether a line closes a div: three or more colons, and white space.
pub open spec fn is_closing(line: Seq<char>, n: nat, tail: Seq<char>) -> bool {
    n >= 3 && blank(tail) && line == many(':', n) + tail
}

proof fn lemma_plain(line: Seq<char>)
    requires
        is_plain(line),
    ensures
        !shielded(line, None),
        opener_info_of(line) is None,
        !closes_div(line),
{
    lemma_run(line, CharSet::Only(':'));
    lemma_run(line, CharSet::Only(' '));
    assert(line.skip(0) =~= line);
    if closes_div(line) {
        let t = trim_end(line, CharSet::White);
        crate::text::lemma_trim_end(line, CharSet::White);
        assert(t[0] == line[0]);
    }
}

proof fn lemma_closing(line: Seq<char>, n: nat, tail: Seq<char>)
    requires
        is_closing(line, n, tail),
    ensures
        !shielded(line, None),
        opener_info_of(line) is None,
        closes_div(line),
{
    let cs = many(':', n);
    trimming_the_end_takes_off(cs, tail, CharSet::White);
    assert(cs.last() == ':');
    assert(trim_end(cs, CharSet::White) == cs);
    lemma_run(line, CharSet::Only(' '));
    assert(line[0] == ':');
    assert(line.skip(0) =~= line);
    if tail.len() > 0 {
        assert(is_white(tail[0]));
    }
    lemma_run_of(':', n, tail);
    let e = Seq::<char>::empty();
    trimming_takes_off(tail, e, e, CharSet::White);
    assert(tail + e + e =~= tail);
    assert(trim_white(e) =~= e);
}

proof fn lemma_pass_plain(
    lines: Seq<Seq<char>>,
    j: int,
    k: nat,
    depth: nat,
    classes: Seq<Seq<char>>,
)
    requires
        0 <= j,
        j + k <= lines.len(),
        are_plain(lines.subrange(j, j + k)),
    ensures
        closer_line(lines, j, depth, None) == closer_line(lines, j + k, depth, None),
        found_from(lines, j, None, classes) == found_from(lines, j + k, None, classes),
    decreases k,
{
    if k > 0 {
        let part = lines.subrange(j, j + k);
        assert(part[0] == lines[j]);
        assert(is_plain(part[0]));
        lemma_plain(lines[j]);
        let rest = lines.subrange(j + 1, j + k);
        assert forall|i: int| 0 <= i < rest.len() implies is_plain(#[trigger] rest[i]) by {
            assert(rest[i] == part[i + 1]);
        }
        lemma_pass_plain(lines, j + 1, (k - 1) as nat, depth, classes);
    }
}

/// A region reaches from the line that opens it to the next line that closes it, over plain
/// lines; behind it the search goes on. A line that is not closed opens a region to the end.
pub proof fn regions_end_at_their_closer(
    before: Seq<Seq<char>>,
    n: nat,
    info: Seq<char>,
    inner: Seq<Seq<char>>,
    close: Seq<char>,
    m: nat,
    tail: Seq<char>,
    after: Seq<Seq<char>>,
    classes: Seq<Seq<char>>,
)
    requires
        n >= 3,
        bare(info),
        info[0] != ':',
        are_plain(before),
        are_plain(inner),
        is_closing(close, m, tail),
        opens_region(opener(n, info), classes),
    ensures
        ({
            let lines = before + seq![opener(n, info)] + inner + seq![close] + after;
            let i = before.len() as int;
            let j = i + 1 + inner.len();
            &&& found_from(lines, 0, None, classes) == seq![(i, j)] + found_from(
                lines,
                j + 1,
                None,
                classes,
            )
            &&& region_span(lines, i, j).start == line_start(lines, i)
            &&& region_span(lines, i, j).end == line_start(lines, j) + byte_len(close)
        }),
        ({
            let lines = before + seq![opener(n, info)] + inner;
            found_from(lines, 0, None, classes) == seq![
                (before.len() as int, lines.len() as int),
            ]
        }),
{
    let line = opener(n, info);
    lemma_opener(n, info);
    lemma_closing(close, m, tail);
    let i = before.len() as int;
    let k = inner.len();
    let lines = before + seq![line] + inner + seq![close] + after;
    let j = i + 1 + k;
    assert(lines.subrange(0, i) =~= before);
    lemma_pass_plain(lines, 0, before.len(), 1, classes);
    assert(lines[i] == line);
    assert(lines.subrange(i + 1, i + 1 + k) =~= inner);
    lemma_pass_plain(lines, i + 1, k, 1, classes);
    assert(lines[j] == close);
    assert(closer_line(lines, i + 1, 1, None) == j);
    let open = before + seq![line] + inner;
    assert(open.subrange(0, i) =~= before);
    lemma_pass_plain(open, 0, before.len(), 1, classes);
    assert(open[i] == line);
    assert(open.subrange(i + 1, i + 1 + k) =~= inner);
    lemma_pass_plain(open, i + 1, k, 1, classes);
    assert(closer_line(open, i + 1, 1, None) == open.len());
    assert(found_from(open, open.len() as int + 1, None, classes) =~= Seq::empty());
    assert(found_from(open, 0, None, classes) =~= seq![(i, open.len() as int)]);
}

/// A div in a div is passed over, from its opener to its closer, whatever its class.
pub proof fn divs_nest(
    lines: Seq<Seq<char>>,
    j: int,
    n: nat,
    info: Seq<char>,
    k: nat,
    m: nat,
    tail: Seq<char>,
    depth: nat,
)
    requires
        0 <= j,
        j + 1 + k < lines.len(),
        depth >= 1,
        n >= 3,
        bare(info),
        info[0] != ':',
        lines[j] == opener(n, info),
        are_plain(lines.subrange(j + 1, j + 1 + k)),
        is_closing(lines[j + 1 + k], m, tail),
    ensures
        closer_line(lines, j, depth, None) == closer_line(lines, j + 2 + k, depth, None),
{
    lemma_opener(n, info);
    lemma_closing(lines[j + 1 + k], m, tail);
    lemma_pass_plain(lines, j + 1, k, depth + 1, Seq::empty());
}

/// Whether lines neither close a block of code nor are indented.
pub open spec fn are_code(ls: Seq<Seq<char>>, c: char) -> bool {
    forall|i: int|
        0 <= i < ls.len() && (#[trigger] ls[i]).len() > 0 ==> ls[i][0] != c && ls[i][0] != ' '
}

proof fn lemma_unindented(line: Seq<char>)
    requires
        line.len() > 0 ==> line[0] != ' ',
    ensures
        without_indent(line) == line,
{
    lemma_run(line, CharSet::Only(' '));
    assert(line.skip(0) =~= line);
}

proof fn lemma_pass_code(
    lines: Seq<Seq<char>>,
    j: int,
    k: nat,
    s: Shield,
    depth: nat,
    classes: Seq<Seq<char>>,
)
    requires
        0 <= j,
        j + k <= lines.len(),
        s.len >= 3,
        are_code(lines.subrange(j, j + k), s.ch),
    ensures
        closer_line(lines, j, depth, Some(s)) == closer_line(lines, j + k, depth, Some(s)),
        found_from(lines, j, Some(s), classes) == found_from(lines, j + k, Some(s), classes),
    decreases k,
{
    if k > 0 {
        let part = lines.subrange(j, j + k);
        let line = lines[j];
        assert(part[0] == line);
        lemma_unindented(line);
        lemma_run(line, CharSet::Only(s.ch));
        assert(!shield_closed(line, s));
        let rest = lines.subrange(j + 1, j + k);
        assert forall|i: int| 0 <= i < rest.len() && (#[trigger] rest[i]).len() > 0 implies rest[i][0]
            != s.ch && rest[i][0] != ' ' by {
            assert(rest[i] == part[i + 1]);
        }
        lemma_pass_code(lines, j + 1, (k - 1) as nat, s, depth, classes);
    }
}

proof fn lemma_pass_shielded(
    lines: Seq<Seq<char>>,
    j: int,
    shield: Option<Shield>,
    depth: nat,
    classes: Seq<Seq<char>>,
)
    requires
        0 <= j < lines.len(),
        shielded(lines[j], shield),
    ensures
        closer_line(lines, j, depth, shield) == closer_line(
            lines,
            j + 1,
            depth,
            shield_after(lines[j], shield),
        ),
        found_from(lines, j, shield, classes) == found_from(
            lines,
            j + 1,
            shield_after(lines[j], shield),
            classes,
        ),
{
}

/// A block of code is passed over whatever its lines hold: from three or more backticks or
/// tildes to as many or more of the same.
pub proof fn code_is_passed_over(
    lines: Seq<Seq<char>>,
    j: int,
    c: char,
    n: nat,
    lang: Seq<char>,
    k: nat,
    m: nat,
    tail: Seq<char>,
    depth: nat,
    classes: Seq<Seq<char>>,
)
    requires
        c == '`' || c == '~',
        3 <= n <= m,
        lang.len() > 0 ==> lang[0] != c,
        blank(tail),
        0 <= j,
        j + 1 + k < lines.len(),
        lines[j] == many(c, n) + lang,
        are_code(lines.subrange(j + 1, j + 1 + k), c),
        lines[j + 1 + k] == many(c, m) + tail,
    ensures
        closer_line(lines, j, depth, None) == closer_line(lines, j + 2 + k, depth, None),
        found_from(lines, j, None, classes) == found_from(lines, j + 2 + k, None, classes),
{
    let open = lines[j];
    let close = lines[j + 1 + k];
    assert(open[0] == c);
    assert(close[0] == c);
    lemma_unindented(open);
    lemma_unindented(close);
    lemma_run_of(c, n, lang);
    if tail.len() > 0 {
        assert(is_white(tail[0]));
    }
    lemma_run_of(c, m, tail);
    let s = Shield { ch: c, len: n };
    assert(shield_opened(open) == Some(s));
    let e = Seq::<char>::empty();
    trimming_takes_off(tail, e, e, CharSet::White);
    assert(tail + e + e =~= tail);
    assert(trim_white(e) =~= e);
    assert(shield_closed(close, s));
    assert(shield_after(open, None) == Some(s));
    assert(shield_after(close, Some(s)) is None);
    assert(shielded(open, None) && shielded(close, Some(s)));
    lemma_pass_shielded(lines, j, None, depth, classes);
    lemma_pass_code(lines, j + 1, k, s, depth, classes);
    lemma_pass_shielded(lines, j + 1 + k, Some(s), depth, classes);
}

} // verus!
