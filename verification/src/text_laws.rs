//! What the functions on texts are for: what trimming, splitting into words and reading a
//! number give back of a text that was put together.

use crate::path::{last_index_of, lemma_last_index_of};
use crate::text::{
    contains, decimal, digit, digits_value, find, index_of, is_digit, is_white, join,
    lemma_find_from, lemma_index_of, lemma_lines_concat, lemma_one_line, lines, number,
    number_digits, occurs_at, pad_left, pad_right, signed_decimal, trim, trim_end, trim_start,
    trim_white, white_words, white_words_from, without_return, CharSet,
};
use vstd::prelude::*;

verus! {

/// Whether a text is made of the characters of a set alone.
pub open spec fn made_of(s: Seq<char>, set: CharSet) -> bool {
    forall|i: int| 0 <= i < s.len() ==> set.has(#[trigger] s[i])
}

/// Whether a text is white space alone.
pub open spec fn blank(s: Seq<char>) -> bool {
    made_of(s, CharSet::White)
}

/// Whether a text, which is not empty, neither begins nor ends with white space.
pub open spec fn bare(s: Seq<char>) -> bool {
    s.len() > 0 && !is_white(s[0]) && !is_white(s.last())
}

/// Trimming the start takes off what belongs to the set there, and nothing else.
pub proof fn trimming_the_start_takes_off(before: Seq<char>, s: Seq<char>, set: CharSet)
    requires
        made_of(before, set),
        s.len() > 0 ==> !set.has(s[0]),
    ensures
        trim_start(before + s, set) == s,
    decreases before.len(),
{
    if before.len() == 0 {
        assert(before + s =~= s);
    } else {
        assert((before + s)[0] == before[0]);
        assert((before + s).drop_first() =~= before.drop_first() + s);
        trimming_the_start_takes_off(before.drop_first(), s, set);
    }
}

/// Trimming the end takes off what belongs to the set there, and nothing else.
pub proof fn trimming_the_end_takes_off(s: Seq<char>, after: Seq<char>, set: CharSet)
    requires
        made_of(after, set),
        s.len() > 0 ==> !set.has(s.last()),
    ensures
        trim_end(s + after, set) == s,
    decreases after.len(),
{
    if after.len() == 0 {
        assert(s + after =~= s);
    } else {
        assert((s + after).last() == after.last());
        assert((s + after).drop_last() =~= s + after.drop_last());
        trimming_the_end_takes_off(s, after.drop_last(), set);
    }
}

/// Trimming takes off what belongs to the set at either end, and keeps the text between them
/// whole, whatever stands in it.
pub proof fn trimming_takes_off(before: Seq<char>, s: Seq<char>, after: Seq<char>, set: CharSet)
    requires
        made_of(before, set),
        made_of(after, set),
        s.len() > 0 ==> !set.has(s[0]) && !set.has(s.last()),
    ensures
        trim(before + s + after, set) == s,
{
    if s.len() > 0 {
        assert((s + after)[0] == s[0]);
        assert(before + s + after =~= before + (s + after));
        trimming_the_start_takes_off(before, s + after, set);
        trimming_the_end_takes_off(s, after, set);
    } else {
        let all = before + after;
        assert(before + s + after =~= all + s);
        assert(made_of(all, set));
        trimming_the_start_takes_off(all, s, set);
        assert(s + Seq::<char>::empty() =~= s);
    }
}

/// What trimming gives is a part of the text with nothing of the set at its ends, and what it
/// takes off belongs to the set.
pub proof fn trimming_keeps_the_middle(s: Seq<char>, set: CharSet)
    ensures
        exists|before: Seq<char>, after: Seq<char>|
            made_of(before, set) && made_of(after, set) && s == #[trigger] (before + trim(s, set)
                + after),
        trim(s, set).len() > 0 ==> !set.has(trim(s, set)[0]) && !set.has(trim(s, set).last()),
{
    let (before, rest) = lemma_cut_start(s, set);
    let after = lemma_cut_end(rest, set);
    let t = trim(s, set);
    assert(s =~= before + t + after);
    if t.len() > 0 {
        assert(t[0] == rest[0]);
    }
}

proof fn lemma_cut_start(s: Seq<char>, set: CharSet) -> (r: (Seq<char>, Seq<char>))
    ensures
        r.1 == trim_start(s, set),
        s == r.0 + r.1,
        made_of(r.0, set),
        r.1.len() > 0 ==> !set.has(r.1[0]),
    decreases s.len(),
{
    if s.len() > 0 && set.has(s[0]) {
        let (a, b) = lemma_cut_start(s.drop_first(), set);
        let before = seq![s[0]] + a;
        assert(s =~= seq![s[0]] + s.drop_first());
        assert(s =~= before + b);
        (before, b)
    } else {
        assert(s =~= Seq::empty() + s);
        (Seq::empty(), s)
    }
}

proof fn lemma_cut_end(s: Seq<char>, set: CharSet) -> (r: Seq<char>)
    ensures
        s == trim_end(s, set) + r,
        made_of(r, set),
        trim_end(s, set).len() > 0 ==> !set.has(trim_end(s, set).last()),
    decreases s.len(),
{
    if s.len() > 0 && set.has(s.last()) {
        let a = lemma_cut_end(s.drop_last(), set);
        let after = a.push(s.last());
        assert(s =~= s.drop_last().push(s.last()));
        assert(s =~= trim_end(s, set) + after);
        after
    } else {
        assert(s =~= s + Seq::empty());
        Seq::empty()
    }
}

/// A text without white space at its ends is trimmed already.
pub proof fn lemma_bare_is_trimmed(s: Seq<char>)
    requires
        s.len() > 0 ==> bare(s),
    ensures
        trim_white(s) == s,
{
    let e = Seq::<char>::empty();
    assert(e + s + e =~= s);
    trimming_takes_off(e, s, e, CharSet::White);
}

/// A text stands in another exactly where the other is made of it and of what stands before and
/// behind it.
pub proof fn contained_texts_are_parts(s: Seq<char>, p: Seq<char>)
    ensures
        contains(s, p) <==> exists|a: Seq<char>, b: Seq<char>| s == #[trigger] (a + p + b),
{
    lemma_find_from(s, p, 0);
    if contains(s, p) {
        let k = find(s, p)->0;
        let a = s.take(k);
        let b = s.skip(k + p.len());
        assert(s =~= a + p + b) by {
            assert forall|i: int| k <= i < k + p.len() implies s[i] == p[i - k] by {
                assert(s.subrange(k, k + p.len())[i - k] == s[i]);
            }
        }
    }
    if exists|a: Seq<char>, b: Seq<char>| s == #[trigger] (a + p + b) {
        let (a, b) = choose|a: Seq<char>, b: Seq<char>| s == #[trigger] (a + p + b);
        assert(s.subrange(a.len() as int, (a.len() + p.len()) as int) =~= p);
        assert(occurs_at(s, p, a.len() as int));
    }
}

/// What stands in a part of a text stands in the text.
pub proof fn lemma_contains_through(a: Seq<char>, s: Seq<char>, b: Seq<char>, p: Seq<char>)
    requires
        contains(s, p),
    ensures
        contains(a + s + b, p),
{
    contained_texts_are_parts(s, p);
    let (x, y) = choose|x: Seq<char>, y: Seq<char>| s == #[trigger] (x + p + y);
    contained_texts_are_parts(a + s + b, p);
    assert(a + s + b =~= (a + x) + p + (y + b));
}

/// A text stands in a text that is made with it.
pub proof fn lemma_contains_part(a: Seq<char>, p: Seq<char>, b: Seq<char>)
    ensures
        contains(a + p + b, p),
{
    contained_texts_are_parts(a + p + b, p);
}

/// Each of some texts stands in what they are joined to.
pub proof fn lemma_contains_joined(parts: Seq<Seq<char>>, sep: Seq<char>, k: int) -> (r: (
    Seq<char>,
    Seq<char>,
))
    requires
        0 <= k < parts.len(),
    ensures
        join(parts, sep) == r.0 + parts[k] + r.1,
        k > 0 ==> r.0.len() >= sep.len() && r.0.skip(r.0.len() - sep.len()) == sep,
        k == 0 ==> r.0.len() == 0,
        k < parts.len() - 1 ==> r.1.len() >= sep.len() && r.1.take(sep.len() as int) == sep,
        k == parts.len() - 1 ==> r.1.len() == 0,
    decreases parts.len(),
{
    let e = Seq::<char>::empty();
    if parts.len() == 1 {
        assert(parts[0] =~= e + parts[0] + e);
        (e, e)
    } else if k == 0 {
        let tail = sep + join(parts.drop_first(), sep);
        assert(join(parts, sep) =~= e + parts[0] + tail);
        assert(tail.take(sep.len() as int) =~= sep);
        (e, tail)
    } else {
        let (a, b) = lemma_contains_joined(parts.drop_first(), sep, k - 1);
        let front = parts[0] + sep + a;
        assert(join(parts, sep) =~= front + parts[k] + b);
        if k == 1 {
            assert(front.skip(front.len() - sep.len()) =~= sep);
        } else {
            assert(front.skip(front.len() - sep.len()) =~= a.skip(a.len() - sep.len()));
        }
        (front, b)
    }
}

/// The first line of a text is what stands before its first line feed; the others are those of
/// the rest.
pub proof fn lines_begin_with_the_first(line: Seq<char>, rest: Seq<char>)
    requires
        !line.contains('\n'),
    ensures
        lines(line + seq!['\n'] + rest) == seq![without_return(line)] + lines(rest),
        line.len() > 0 ==> lines(line) == seq![line],
{
    lemma_one_line(line);
    let head = line.push('\n');
    lemma_lines_concat(head, rest);
    assert(line + seq!['\n'] + rest =~= head + rest);
    lemma_index_of(line, '\n');
    if index_of(line, '\n') < line.len() {
        assert(line.contains(line[index_of(line, '\n')]));
    }
}

/// A text without one character begins where that character first comes behind it.
pub proof fn lemma_index_behind(a: Seq<char>, c: char, b: Seq<char>)
    requires
        !a.contains(c),
    ensures
        index_of(a + seq![c] + b, c) == a.len(),
{
    let s = a + seq![c] + b;
    lemma_index_of(s, c);
    let i = index_of(s, c);
    if i < a.len() {
        assert(a[i] == s[i]);
        assert(a.contains(c));
    } else if i > a.len() {
        assert(s[a.len() as int] == c);
    }
}

/// A text without one character ends where that character last comes before it.
pub proof fn lemma_last_index_before(a: Seq<char>, c: char, b: Seq<char>)
    requires
        !b.contains(c),
    ensures
        last_index_of(a + seq![c] + b, c) == a.len(),
{
    let s = a + seq![c] + b;
    lemma_last_index_of(s, c);
    let i = last_index_of(s, c);
    assert(s[a.len() as int] == c);
    if i > a.len() {
        assert(b[i - a.len() - 1] == s[i]);
        assert(b.contains(c));
    }
}

/// A character that a text does not hold has no last place in it.
pub proof fn lemma_no_last_index(s: Seq<char>, c: char)
    requires
        !s.contains(c),
    ensures
        last_index_of(s, c) == -1,
{
    lemma_last_index_of(s, c);
    if last_index_of(s, c) >= 0 {
        assert(s.contains(s[last_index_of(s, c)]));
    }
}

// ------------------------------------------------------------------------------- numbers

/// The number in decimal reads back as the number.
pub proof fn decimals_read_back(n: nat)
    ensures
        number(decimal(n)) == Some(n),
        decimal(n).len() > 0,
        forall|i: int| 0 <= i < decimal(n).len() ==> is_digit(#[trigger] decimal(n)[i]),
        digits_value(decimal(n)) == n,
        bare(decimal(n)),
        forall|i: int| 0 <= i < decimal(n).len() ==> !is_white(#[trigger] decimal(n)[i]),
    decreases n,
{
    let s = decimal(n);
    if n >= 10 {
        decimals_read_back(n / 10);
        assert(s.drop_last() =~= decimal(n / 10));
        assert(s.last() == digit(n % 10));
        assert forall|i: int| 0 <= i < s.len() implies is_digit(#[trigger] s[i]) by {
            if i < s.len() - 1 {
                assert(s[i] == decimal(n / 10)[i]);
            }
        }
        assert(digits_value(s) == n);
    } else {
        assert(s.drop_last() =~= Seq::empty());
        assert(digits_value(s.drop_last()) == 0);
        assert(s.last() == digit(n));
    }
    assert(is_digit(s[0]));
    assert(number_digits(s) == s);
}

proof fn lemma_word_read(s: Seq<char>, current: Seq<char>, rest: Seq<char>)
    requires
        forall|i: int| 0 <= i < s.len() ==> !is_white(#[trigger] s[i]),
    ensures
        white_words_from(s + rest, current) == white_words_from(rest, current + s),
    decreases s.len(),
{
    if s.len() == 0 {
        assert(s + rest =~= rest);
        assert(current + s =~= current);
    } else {
        let all = s + rest;
        assert(all[0] == s[0]);
        assert(all.drop_first() =~= s.drop_first() + rest);
        assert(current + s =~= current.push(s[0]) + s.drop_first());
        lemma_word_read(s.drop_first(), current.push(s[0]), rest);
    }
}

/// A word and white space behind it: the words are that word and those of the rest.
pub proof fn words_begin_with_the_first(word: Seq<char>, gap: char, rest: Seq<char>)
    requires
        word.len() > 0,
        forall|i: int| 0 <= i < word.len() ==> !is_white(#[trigger] word[i]),
        is_white(gap),
    ensures
        white_words(word + seq![gap] + rest) == seq![word] + white_words(rest),
        white_words(word) == seq![word],
{
    let e = Seq::<char>::empty();
    lemma_word_read(word, e, seq![gap] + rest);
    assert(word + seq![gap] + rest =~= word + (seq![gap] + rest));
    assert((seq![gap] + rest).drop_first() =~= rest);
    assert(e + word =~= word);
    lemma_word_read(word, e, e);
    assert(word + e =~= word);
}

/// A padded text holds the text, at the end or at the start, and what pads it elsewhere; it is as
/// long as is asked, or as the text where that is longer.
pub proof fn padding_keeps_the_text(s: Seq<char>, c: char, width: nat)
    ensures
        ({
            let l = pad_left(s, c, width);
            let r = pad_right(s, width);
            let n: nat = if s.len() >= width {
                s.len()
            } else {
                width
            };
            &&& l.len() == n && r.len() == n
            &&& l.skip(n - s.len()) == s
            &&& r.take(s.len() as int) == s
            &&& forall|i: int| 0 <= i < n - s.len() ==> #[trigger] l[i] == c
            &&& forall|i: int| s.len() <= i < n ==> #[trigger] r[i] == ' '
        }),
    decreases width - s.len(),
{
    if s.len() < width {
        let before = seq![c] + s;
        let behind = s.push(' ');
        padding_keeps_the_text(before, c, width);
        padding_keeps_the_text(behind, c, width);
        let l = pad_left(s, c, width);
        let r = pad_right(s, width);
        assert(l == pad_left(before, c, width));
        assert(r == pad_right(behind, width));
        assert(l.skip(width - s.len()) =~= l.skip(width - before.len()).skip(1));
        assert(before.skip(1) =~= s);
        assert(l[width - before.len()] == l.skip(width - before.len())[0]);
        assert(r.take(s.len() as int) =~= r.take(behind.len() as int).take(s.len() as int));
        assert(behind.take(s.len() as int) =~= s);
        assert(r[s.len() as int] == r.take(behind.len() as int)[s.len() as int]);
    } else {
        assert(s.skip(0) =~= s);
        assert(s.take(s.len() as int) =~= s);
    }
}

/// A number with a sign is written as the number, behind a minus where it is below nought.
pub proof fn signed_numbers_read_back(n: nat)
    ensures
        number(signed_decimal(n as int)) == Some(n),
        n > 0 ==> signed_decimal(-(n as int)) == seq!['-'] + decimal(n),
{
    reveal_strlit("-");
    decimals_read_back(n);
    assert("-"@ =~= seq!['-']);
}

} // verus!
