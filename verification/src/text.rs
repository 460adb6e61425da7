//! Text as sequences of characters: the searching, splitting and trimming that
//! the rest of the library is written with, each over a mathematical model.

use vstd::prelude::*;
use vstd::slice::slice_subrange;

verus! {

/// `String::push` appends one character.
pub assume_specification[ String::push ](s: &mut String, c: char)
    ensures
        final(s)@ == old(s)@.push(c),
;

/// What `str::to_lowercase` gives for a text: Unicode's full lowercase mapping.
pub uninterp spec fn lowercase(s: Seq<char>) -> Seq<char>;

/// `str::to_lowercase`: a function of the text alone, named [`lowercase`].
#[verifier::external_body]
pub(crate) fn lowercase_of(s: &str) -> (r: String)
    ensures
        r@ == lowercase(s@),
{
    s.to_lowercase()
}

/// Unicode's `White_Space` property.
pub open spec fn is_white(c: char) -> bool {
    let u = c as u32;
    ||| 0x9 <= u <= 0xd
    ||| u == 0x20
    ||| u == 0x85
    ||| u == 0xa0
    ||| u == 0x1680
    ||| 0x2000 <= u <= 0x200a
    ||| u == 0x2028
    ||| u == 0x2029
    ||| u == 0x202f
    ||| u == 0x205f
    ||| u == 0x3000
}

/// A set of characters that text is trimmed of.
#[derive(Clone, Copy)]
pub enum CharSet {
    /// White space.
    White,
    /// One character.
    Only(char),
    /// One character, and white space.
    OnlyOrWhite(char),
    /// Single and double quotes.
    Quote,
}

impl CharSet {
    /// The characters of the set.
    pub open spec fn has(self, c: char) -> bool {
        match self {
            CharSet::White => is_white(c),
            CharSet::Only(d) => c == d,
            CharSet::OnlyOrWhite(d) => c == d || is_white(c),
            CharSet::Quote => c == '"' || c == '\'',
        }
    }

    pub fn holds(&self, c: char) -> (r: bool)
        ensures
            r == self.has(c),
    {
        match self {
            CharSet::White => is_whitespace(c),
            CharSet::Only(d) => c == *d,
            CharSet::OnlyOrWhite(d) => c == *d || is_whitespace(c),
            CharSet::Quote => c == '"' || c == '\'',
        }
    }
}

/// Whether a character is white space.
pub fn is_whitespace(c: char) -> (r: bool)
    ensures
        r == is_white(c),
{
    let u: u32 = c as u32;
    (0x9 <= u && u <= 0xd) || u == 0x20 || u == 0x85 || u == 0xa0 || u == 0x1680 || (0x2000 <= u
        && u <= 0x200a) || u == 0x2028 || u == 0x2029 || u == 0x202f || u == 0x205f || u == 0x3000
}

/// The texts that a sequence of strings holds.
pub open spec fn texts(v: Seq<String>) -> Seq<Seq<char>> {
    v.map_values(|s: String| s@)
}

/// A copy of some texts.
pub fn copy_texts(v: &Vec<String>) -> (r: Vec<String>)
    ensures
        texts(r@) == texts(v@),
{
    let mut out: Vec<String> = Vec::new();
    let mut i: usize = 0;
    while i < v.len()
        invariant
            i <= v@.len(),
            out@.len() == i,
            forall|k: int| 0 <= k < i ==> (#[trigger] out@[k])@ == v@[k]@,
        decreases v.len() - i,
    {
        out.push(v[i].clone());
        i = i + 1;
    }
    assert(texts(out@) =~= texts(v@));
    out
}

/// Whether a text is among some.
pub fn has_text(v: &Vec<String>, s: &str) -> (r: bool)
    ensures
        r == texts(v@).contains(s@),
{
    let mut i: usize = 0;
    while i < v.len()
        invariant
            i <= v@.len(),
            forall|k: int| 0 <= k < i ==> texts(v@)[k] != s@,
        decreases v.len() - i,
    {
        if same(v[i].as_str(), s) {
            assert(texts(v@)[i as int] == s@);
            return true;
        }
        i = i + 1;
    }
    assert(texts(v@).len() == v@.len());
    false
}

// ---------------------------------------------------------------- conversion

/// The characters of a string.
pub fn chars_of(s: &str) -> (r: Vec<char>)
    ensures
        r@ == s@,
{
    let mut out: Vec<char> = Vec::new();
    for c in it: s.chars()
        invariant
            it.seq() == s@,
            out@ == s@.take(it.index() as int),
    {
        out.push(c);
        assert(out@ =~= s@.take(it.index() + 1));
    }
    assert(s@.take(s@.len() as int) =~= s@);
    out
}

/// The string of some characters.
pub fn string_of(cs: &[char]) -> (r: String)
    ensures
        r@ == cs@,
{
    let mut out = String::new();
    let mut i: usize = 0;
    while i < cs.len()
        invariant
            i <= cs.len(),
            out@ == cs@.take(i as int),
        decreases cs.len() - i,
    {
        out.push(cs[i]);
        i = i + 1;
        assert(out@ =~= cs@.take(i as int));
    }
    assert(cs@.take(cs@.len() as int) =~= cs@);
    out
}

/// `extend`ing a vector of characters with a text.
pub fn push_chars(out: &mut Vec<char>, cs: &[char])
    ensures
        final(out)@ == old(out)@ + cs@,
{
    let mut i: usize = 0;
    let ghost before = out@;
    while i < cs.len()
        invariant
            i <= cs.len(),
            out@ == before + cs@.take(i as int),
        decreases cs.len() - i,
    {
        out.push(cs[i]);
        i = i + 1;
        assert(out@ =~= before + cs@.take(i as int));
    }
    assert(cs@.take(cs@.len() as int) =~= cs@);
}

// ---------------------------------------------------------------- comparison

/// Whether two character slices hold the same text.
pub fn same_chars(a: &[char], b: &[char]) -> (r: bool)
    ensures
        r == (a@ == b@),
{
    if a.len() != b.len() {
        return false;
    }
    let mut i: usize = 0;
    while i < a.len()
        invariant
            i <= a.len(),
            a.len() == b.len(),
            a@.take(i as int) == b@.take(i as int),
        decreases a.len() - i,
    {
        if a[i] != b[i] {
            return false;
        }
        i = i + 1;
        assert(a@.take(i as int) =~= b@.take(i as int)) by {
            assert(a@.take(i as int) =~= a@.take(i - 1).push(a@[i - 1]));
            assert(b@.take(i as int) =~= b@.take(i - 1).push(b@[i - 1]));
        }
    }
    assert(a@.take(i as int) =~= a@);
    assert(b@.take(i as int) =~= b@);
    true
}

/// Whether two strings hold the same text.
pub fn same(a: &str, b: &str) -> (r: bool)
    ensures
        r == (a@ == b@),
{
    let x = chars_of(a);
    let y = chars_of(b);
    same_chars(x.as_slice(), y.as_slice())
}

/// The order of strings: by the first character in which they differ, a proper
/// prefix before what it is a prefix of.
pub open spec fn text_lt(a: Seq<char>, b: Seq<char>) -> bool
    decreases a.len(),
{
    if b.len() == 0 {
        false
    } else if a.len() == 0 {
        true
    } else if a[0] != b[0] {
        (a[0] as u32) < (b[0] as u32)
    } else {
        text_lt(a.drop_first(), b.drop_first())
    }
}

/// Whether `a` stands before `b` in the order of strings.
pub fn less_chars(a: &[char], b: &[char]) -> (r: bool)
    ensures
        r == text_lt(a@, b@),
{
    let mut i: usize = 0;
    assert(a@.skip(0) =~= a@);
    assert(b@.skip(0) =~= b@);
    while i < a.len() && i < b.len()
        invariant
            i <= a.len(),
            i <= b.len(),
            text_lt(a@, b@) == text_lt(a@.skip(i as int), b@.skip(i as int)),
        decreases a.len() - i,
    {
        if a[i] != b[i] {
            return (a[i] as u32) < (b[i] as u32);
        }
        assert(a@.skip(i as int).drop_first() =~= a@.skip(i + 1));
        assert(b@.skip(i as int).drop_first() =~= b@.skip(i + 1));
        i = i + 1;
    }
    i < b.len()
}

/// Whether `a` stands before `b` in the order of strings.
pub fn less(a: &str, b: &str) -> (r: bool)
    ensures
        r == text_lt(a@, b@),
{
    let x = chars_of(a);
    let y = chars_of(b);
    less_chars(x.as_slice(), y.as_slice())
}

/// The order of strings is irreflexive.
pub proof fn lemma_text_lt_irreflexive(a: Seq<char>)
    ensures
        !text_lt(a, a),
    decreases a.len(),
{
    if a.len() > 0 {
        lemma_text_lt_irreflexive(a.drop_first());
    }
}

/// The order of strings is transitive.
pub proof fn lemma_text_lt_transitive(a: Seq<char>, b: Seq<char>, c: Seq<char>)
    requires
        text_lt(a, b),
        text_lt(b, c),
    ensures
        text_lt(a, c),
    decreases a.len(),
{
    if a.len() > 0 && a[0] == b[0] && b[0] == c[0] {
        lemma_text_lt_transitive(a.drop_first(), b.drop_first(), c.drop_first());
    }
}

/// Of two different strings one stands before the other.
pub proof fn lemma_text_lt_total(a: Seq<char>, b: Seq<char>)
    ensures
        a == b || text_lt(a, b) || text_lt(b, a),
    decreases a.len(),
{
    if a.len() > 0 && b.len() > 0 {
        vstd::utf8::char_u32_cast(a[0], a[0] as u32);
        vstd::utf8::char_u32_cast(b[0], b[0] as u32);
    }
    if a.len() > 0 && b.len() > 0 && a[0] == b[0] {
        lemma_text_lt_total(a.drop_first(), b.drop_first());
        if a.drop_first() == b.drop_first() {
            assert(a =~= seq![a[0]] + a.drop_first());
            assert(b =~= seq![b[0]] + b.drop_first());
        }
    } else if a.len() == 0 && b.len() == 0 {
        assert(a =~= b);
    }
}

/// Two texts, one behind the other.
pub fn two(a: &str, b: &str) -> (r: String)
    ensures
        r@ == a@ + b@,
{
    let mut s = a.to_owned();
    s.append(b);
    s
}

/// Four texts, one behind the other.
pub fn four(a: &str, b: &str, c: &str, d: &str) -> (r: String)
    ensures
        r@ == a@ + b@ + c@ + d@,
{
    let mut s = a.to_owned();
    s.append(b);
    s.append(c);
    s.append(d);
    s
}

// ------------------------------------------------------------------ trimming

/// `s` without the characters of `set` at its start.
pub open spec fn trim_start(s: Seq<char>, set: CharSet) -> Seq<char>
    decreases s.len(),
{
    if s.len() > 0 && set.has(s[0]) {
        trim_start(s.drop_first(), set)
    } else {
        s
    }
}

/// `s` without the characters of `set` at its end.
pub open spec fn trim_end(s: Seq<char>, set: CharSet) -> Seq<char>
    decreases s.len(),
{
    if s.len() > 0 && set.has(s.last()) {
        trim_end(s.drop_last(), set)
    } else {
        s
    }
}

/// `s` without the characters of `set` at either end.
pub open spec fn trim(s: Seq<char>, set: CharSet) -> Seq<char> {
    trim_end(trim_start(s, set), set)
}

/// `s` without white space at either end.
pub open spec fn trim_white(s: Seq<char>) -> Seq<char> {
    trim(s, CharSet::White)
}

/// How many characters at the start of `s` are in `set`.
pub open spec fn run(s: Seq<char>, set: CharSet) -> nat
    decreases s.len(),
{
    if s.len() > 0 && set.has(s[0]) {
        1 + run(s.drop_first(), set)
    } else {
        0
    }
}

pub proof fn lemma_run(s: Seq<char>, set: CharSet)
    ensures
        run(s, set) <= s.len(),
        trim_start(s, set) == s.skip(run(s, set) as int),
        forall|i: int| 0 <= i < run(s, set) ==> set.has(#[trigger] s[i]),
        run(s, set) < s.len() ==> !set.has(s[run(s, set) as int]),
    decreases s.len(),
{
    if s.len() > 0 && set.has(s[0]) {
        lemma_run(s.drop_first(), set);
        let n = run(s.drop_first(), set);
        assert(s.drop_first().skip(n as int) =~= s.skip(n as int + 1));
        assert forall|i: int| 0 <= i < n + 1 implies set.has(#[trigger] s[i]) by {
            if i > 0 {
                assert(s.drop_first()[i - 1] == s[i]);
            }
        }
    } else {
        assert(s.skip(0) =~= s);
    }
}

/// How many characters at the start of `s` are in `set`.
pub fn run_length(s: &[char], set: CharSet) -> (r: usize)
    ensures
        r == run(s@, set),
        r <= s@.len(),
{
    let mut i: usize = 0;
    assert(s@.skip(0) =~= s@);
    proof {
        lemma_run(s@, set);
    }
    while i < s.len() && set.holds(s[i])
        invariant
            i <= s.len(),
            run(s@, set) == i + run(s@.skip(i as int), set),
        decreases s.len() - i,
    {
        assert(s@.skip(i as int).drop_first() =~= s@.skip(i + 1));
        i = i + 1;
    }
    i
}

/// `s` without the characters of `set` at its start.
pub fn trimmed_start(s: &[char], set: CharSet) -> (r: &[char])
    ensures
        r@ == trim_start(s@, set),
{
    let n: usize = run_length(s, set);
    proof {
        lemma_run(s@, set);
        assert(s@.subrange(n as int, s@.len() as int) =~= s@.skip(n as int));
    }
    slice_subrange(s, n, s.len())
}

/// `s` without the characters of `set` at its end.
pub fn trimmed_end(s: &[char], set: CharSet) -> (r: &[char])
    ensures
        r@ == trim_end(s@, set),
{
    let mut n: usize = s.len();
    assert(s@.take(n as int) =~= s@);
    while n > 0 && set.holds(s[n - 1])
        invariant
            n <= s.len(),
            trim_end(s@, set) == trim_end(s@.take(n as int), set),
        decreases n,
    {
        assert(s@.take(n as int).drop_last() =~= s@.take(n - 1));
        n = n - 1;
    }
    assert(s@.subrange(0, n as int) =~= s@.take(n as int));
    slice_subrange(s, 0, n)
}

/// `s` without the characters of `set` at either end.
pub fn trimmed(s: &[char], set: CharSet) -> (r: &[char])
    ensures
        r@ == trim(s@, set),
{
    trimmed_end(trimmed_start(s, set), set)
}

// ------------------------------------------------------------------ searching

/// Whether `p` stands in `s` at index `i`.
pub open spec fn occurs_at(s: Seq<char>, p: Seq<char>, i: int) -> bool {
    &&& 0 <= i
    &&& i + p.len() <= s.len()
    &&& s.subrange(i, i + p.len()) == p
}

/// The first index from `i` on at which `p` stands in `s`.
pub open spec fn find_from(s: Seq<char>, p: Seq<char>, i: int) -> Option<int>
    decreases s.len() + 1 - i,
{
    if i < 0 || i + p.len() > s.len() {
        None
    } else if occurs_at(s, p, i) {
        Some(i)
    } else {
        find_from(s, p, i + 1)
    }
}

/// The first index at which `p` stands in `s`.
pub open spec fn find(s: Seq<char>, p: Seq<char>) -> Option<int> {
    find_from(s, p, 0)
}

/// Whether `p` stands anywhere in `s`.
pub open spec fn contains(s: Seq<char>, p: Seq<char>) -> bool {
    find(s, p) is Some
}

/// Whether `s` begins with `p`.
pub open spec fn starts(s: Seq<char>, p: Seq<char>) -> bool {
    occurs_at(s, p, 0)
}

/// Whether `s` ends with `p`.
pub open spec fn ends(s: Seq<char>, p: Seq<char>) -> bool {
    occurs_at(s, p, s.len() - p.len())
}

pub proof fn lemma_find_from(s: Seq<char>, p: Seq<char>, i: int)
    requires
        0 <= i,
    ensures
        find_from(s, p, i) matches Some(k) ==> i <= k && occurs_at(s, p, k),
        find_from(s, p, i) is None ==> forall|k: int| i <= k ==> !occurs_at(s, p, k),
        find_from(s, p, i) matches Some(k) ==> forall|j: int|
            i <= j < k ==> !occurs_at(s, p, j),
    decreases s.len() + 1 - i,
{
    if i + p.len() <= s.len() && !occurs_at(s, p, i) {
        lemma_find_from(s, p, i + 1);
    }
}

/// Whether `p` stands in `s` at index `i`.
pub fn is_at(s: &[char], p: &[char], i: usize) -> (r: bool)
    ensures
        r == occurs_at(s@, p@, i as int),
{
    if i > s.len() || p.len() > s.len() - i {
        return false;
    }
    same_chars(slice_subrange(s, i, i + p.len()), p)
}

/// Whether `s` begins with `p`.
pub fn starts_with(s: &[char], p: &[char]) -> (r: bool)
    ensures
        r == starts(s@, p@),
{
    is_at(s, p, 0)
}

/// Whether `s` ends with `p`.
pub fn ends_with(s: &[char], p: &[char]) -> (r: bool)
    ensures
        r == ends(s@, p@),
{
    if p.len() > s.len() {
        return false;
    }
    is_at(s, p, s.len() - p.len())
}

/// The first index from `start` on at which `p` stands in `s`.
pub fn position_from(s: &[char], p: &[char], start: usize) -> (r: Option<usize>)
    ensures
        r is Some == find_from(s@, p@, start as int) is Some,
        r matches Some(i) ==> find_from(s@, p@, start as int) == Some(i as int) && start <= i && i
            + p@.len() <= s@.len(),
{
    let mut i: usize = start;
    while i <= s.len() && p.len() <= s.len() - i
        invariant
            start <= i,
            find_from(s@, p@, start as int) == find_from(s@, p@, i as int),
        decreases s.len() + 1 - i,
    {
        if is_at(s, p, i) {
            return Some(i);
        }
        if i == usize::MAX {
            assert(find_from(s@, p@, i + 1) is None);
            return None;
        }
        i = i + 1;
    }
    None
}

/// The first index at which `p` stands in `s`.
pub fn position(s: &[char], p: &[char]) -> (r: Option<usize>)
    ensures
        r is Some == find(s@, p@) is Some,
        r matches Some(i) ==> find(s@, p@) == Some(i as int) && i + p@.len() <= s@.len(),
{
    position_from(s, p, 0)
}

/// Whether `p` stands anywhere in `s`.
pub fn has(s: &[char], p: &[char]) -> (r: bool)
    ensures
        r == contains(s@, p@),
{
    position(s, p).is_some()
}

/// The first index of `c` in `s`; the length of `s` where there is none.
pub open spec fn index_of(s: Seq<char>, c: char) -> int
    decreases s.len(),
{
    if s.len() == 0 || s[0] == c {
        0
    } else {
        1 + index_of(s.drop_first(), c)
    }
}

pub proof fn lemma_index_of(s: Seq<char>, c: char)
    ensures
        0 <= index_of(s, c) <= s.len(),
        index_of(s, c) < s.len() ==> s[index_of(s, c)] == c,
        forall|i: int| 0 <= i < index_of(s, c) ==> s[i] != c,
    decreases s.len(),
{
    if s.len() > 0 && s[0] != c {
        lemma_index_of(s.drop_first(), c);
        assert forall|i: int| 0 <= i < index_of(s, c) implies s[i] != c by {
            if i > 0 {
                assert(s.drop_first()[i - 1] == s[i]);
            }
        }
    }
}

/// The first index of `c` in `s` from `start` on; the length of `s` where there
/// is none.
pub fn index_from(s: &[char], c: char, start: usize) -> (r: usize)
    requires
        start <= s@.len(),
    ensures
        start <= r <= s@.len(),
        r == start + index_of(s@.skip(start as int), c),
{
    let mut i: usize = start;
    while i < s.len() && s[i] != c
        invariant
            start <= i <= s.len(),
            start + index_of(s@.skip(start as int), c) == i + index_of(s@.skip(i as int), c),
        decreases s.len() - i,
    {
        assert(s@.skip(i as int).drop_first() =~= s@.skip(i + 1));
        i = i + 1;
    }
    i
}

// ------------------------------------------------------------------ splitting

/// The pieces of `s` between the occurrences of `c`.
pub open spec fn split(s: Seq<char>, c: char) -> Seq<Seq<char>>
    decreases s.len(),
{
    let i = index_of(s, c);
    if 0 <= i < s.len() {
        seq![s.take(i)] + split(s.skip(i + 1), c)
    } else {
        seq![s]
    }
}

/// The texts joined, with `sep` between each two.
pub open spec fn join(parts: Seq<Seq<char>>, sep: Seq<char>) -> Seq<char>
    decreases parts.len(),
{
    if parts.len() == 0 {
        seq![]
    } else if parts.len() == 1 {
        parts[0]
    } else {
        parts[0] + sep + join(parts.drop_first(), sep)
    }
}

pub proof fn lemma_split_nonempty(s: Seq<char>, c: char)
    ensures
        split(s, c).len() >= 1,
{
}

/// Joining the pieces of a split restores the text.
pub proof fn lemma_split_join(s: Seq<char>, c: char)
    ensures
        join(split(s, c), seq![c]) == s,
        forall|k: int, i: int|
            0 <= k < split(s, c).len() && 0 <= i < split(s, c)[k].len() ==> split(s, c)[k][i] != c,
    decreases s.len(),
{
    lemma_index_of(s, c);
    let i = index_of(s, c);
    if i < s.len() {
        let rest = s.skip(i + 1);
        lemma_split_join(rest, c);
        assert(split(s, c).drop_first() =~= split(rest, c));
        assert(split(s, c).len() >= 2);
        assert(s =~= s.take(i) + seq![c] + rest);
        assert forall|k: int, j: int|
            0 <= k < split(s, c).len() && 0 <= j < split(s, c)[k].len() implies split(
            s,
            c,
        )[k][j] != c by {
            if k > 0 {
                assert(split(s, c)[k] == split(rest, c)[k - 1]);
            }
        }
    } else {
        assert(s.take(s.len() as int) =~= s);
    }
}

/// The pieces of `s` between the occurrences of `c`.
pub fn pieces(s: &[char], c: char) -> (r: Vec<String>)
    ensures
        texts(r@) == split(s@, c),
{
    let mut out: Vec<String> = Vec::new();
    let mut start: usize = 0;
    assert(s@.skip(0) =~= s@);
    assert(texts(out@) + split(s@.skip(0), c) =~= split(s@, c));
    loop
        invariant_except_break
            start <= s.len(),
            texts(out@) + split(s@.skip(start as int), c) == split(s@, c),
        ensures
            texts(out@) == split(s@, c),
        decreases s.len() - start,
    {
        let end: usize = index_from(s, c, start);
        let piece = string_of(slice_subrange(s, start, end));
        let ghost rest = s@.skip(start as int);
        let ghost before = out@;
        proof {
            assert(piece@ =~= rest.take(end - start));
        }
        out.push(piece);
        assert(texts(out@) =~= texts(before).push(piece@));
        if end == s.len() {
            proof {
                assert(rest.take(end - start) =~= rest);
                assert(texts(before) + seq![rest] =~= texts(out@));
            }
            break;
        }
        proof {
            assert(rest.skip(end - start + 1) =~= s@.skip(end + 1));
            assert(texts(before) + (seq![piece@] + split(s@.skip(end + 1), c)) =~= texts(out@)
                + split(s@.skip(end + 1), c));
        }
        start = end + 1;
    }
    out
}

/// The texts joined, with `sep` between each two.
pub fn joined(parts: &[String], sep: &str) -> (r: String)
    ensures
        r@ == join(texts(parts@), sep@),
{
    let mut out = String::new();
    let mut i: usize = parts.len();
    proof {
        assert(texts(parts@).skip(i as int) =~= Seq::<Seq<char>>::empty());
    }
    while i > 0
        invariant
            i <= parts.len(),
            out@ == join(texts(parts@).skip(i as int), sep@),
        decreases i,
    {
        let ghost all = texts(parts@);
        let mut head = parts[i - 1].clone();
        if i < parts.len() {
            head.append(sep);
            head.append(out.as_str());
        }
        proof {
            assert(all.skip(i - 1).drop_first() =~= all.skip(i as int));
            assert(all.skip(i - 1)[0] == parts@[i - 1]@);
        }
        out = head;
        i = i - 1;
    }
    proof {
        assert(texts(parts@).skip(0) =~= texts(parts@));
    }
    out
}

/// The lines of `s`: what stands between its line feeds, without the carriage
/// return before one; an empty rest after the last line feed is no line.
pub open spec fn lines(s: Seq<char>) -> Seq<Seq<char>>
    decreases s.len(),
{
    let i = index_of(s, '\n');
    if s.len() == 0 {
        seq![]
    } else if 0 <= i < s.len() {
        seq![without_return(s.take(i))] + lines(s.skip(i + 1))
    } else {
        seq![s]
    }
}

/// `s` without a carriage return at its end.
pub open spec fn without_return(s: Seq<char>) -> Seq<char> {
    if s.len() > 0 && s.last() == '\r' {
        s.drop_last()
    } else {
        s
    }
}

/// The lines of `s`.
pub fn lines_of(s: &[char]) -> (r: Vec<String>)
    ensures
        texts(r@) == lines(s@),
{
    let mut out: Vec<String> = Vec::new();
    let mut start: usize = 0;
    assert(s@.skip(0) =~= s@);
    assert(texts(out@) + lines(s@.skip(0)) =~= lines(s@));
    while start < s.len()
        invariant
            start <= s.len(),
            texts(out@) + lines(s@.skip(start as int)) == lines(s@),
        decreases s.len() - start,
    {
        let end: usize = index_from(s, '\n', start);
        let ghost rest = s@.skip(start as int);
        let ghost before = out@;
        if end == s.len() {
            let piece = string_of(slice_subrange(s, start, end));
            out.push(piece);
            proof {
                assert(piece@ =~= rest);
                assert(texts(out@) =~= texts(before).push(piece@));
                assert(texts(before) + seq![rest] =~= texts(out@));
            }
            return out;
        }
        let stop: usize = if end > start && s[end - 1] == '\r' {
            end - 1
        } else {
            end
        };
        let piece = string_of(slice_subrange(s, start, stop));
        out.push(piece);
        proof {
            assert(piece@ =~= without_return(rest.take(end - start)));
            assert(texts(out@) =~= texts(before).push(piece@));
            assert(rest.skip(end - start + 1) =~= s@.skip(end + 1));
            assert(texts(before) + (seq![piece@] + lines(s@.skip(end + 1))) =~= texts(out@)
                + lines(s@.skip(end + 1)));
        }
        start = end + 1;
    }
    proof {
        assert(s@.skip(start as int) =~= Seq::<char>::empty());
        assert(texts(out@) + lines(s@.skip(start as int)) =~= texts(out@));
    }
    out
}

proof fn lemma_index_of_concat(s: Seq<char>, t: Seq<char>, c: char)
    ensures
        index_of(s, c) < s.len() ==> index_of(s + t, c) == index_of(s, c),
        index_of(s, c) >= s.len() ==> index_of(s + t, c) == s.len() + index_of(t, c),
    decreases s.len(),
{
    if s.len() == 0 {
        assert(s + t =~= t);
    } else if s[0] != c {
        lemma_index_of_concat(s.drop_first(), t, c);
        assert((s + t).drop_first() =~= s.drop_first() + t);
        lemma_index_of(s, c);
    }
}

/// The lines of whole lines and a text behind them are those of the one and of the other.
pub proof fn lemma_lines_concat(s: Seq<char>, t: Seq<char>)
    requires
        s.len() == 0 || s.last() == '\n',
    ensures
        lines(s + t) == lines(s) + lines(t),
    decreases s.len(),
{
    lemma_index_of(s, '\n');
    let i = index_of(s, '\n');
    if s.len() == 0 {
        assert(s + t =~= t);
        assert(lines(s) + lines(t) =~= lines(t));
    } else {
        assert(i < s.len()) by {
            if i == s.len() {
                assert(s[s.len() - 1] == '\n');
            }
        }
        lemma_index_of_concat(s, t, '\n');
        let rest = s.skip(i + 1);
        assert((s + t).take(i) =~= s.take(i));
        assert((s + t).skip(i + 1) =~= rest + t);
        if rest.len() > 0 {
            assert(rest.last() == s.last());
        }
        lemma_lines_concat(rest, t);
        let first = seq![without_return(s.take(i))];
        assert(first + (lines(rest) + lines(t)) =~= first + lines(rest) + lines(t));
    }
}

/// A line holds no line feed.
pub proof fn lemma_lines_hold_no_feed(s: Seq<char>, k: int)
    requires
        0 <= k < lines(s).len(),
    ensures
        !lines(s)[k].contains('\n'),
    decreases s.len(),
{
    lemma_index_of(s, '\n');
    let i = index_of(s, '\n');
    if i < s.len() {
        if k == 0 {
            let first = without_return(s.take(i));
            assert(lines(s)[0] == first);
            if first.contains('\n') {
                let j = choose|j: int| 0 <= j < first.len() && first[j] == '\n';
                assert(s[j] == '\n');
            }
        } else {
            lemma_lines_hold_no_feed(s.skip(i + 1), k - 1);
        }
    } else if s.contains('\n') {
        let j = choose|j: int| 0 <= j < s.len() && s[j] == '\n';
        assert(s[j] == '\n');
    }
}

/// A text without line feeds, ended by one, is one line.
pub proof fn lemma_one_line(s: Seq<char>)
    requires
        !s.contains('\n'),
    ensures
        lines(s.push('\n')) == seq![without_return(s)],
{
    let t = s.push('\n');
    lemma_index_of(s, '\n');
    if index_of(s, '\n') < s.len() {
        assert(s.contains(s[index_of(s, '\n')]));
    }
    lemma_index_of_concat(s, seq!['\n'], '\n');
    assert(s + seq!['\n'] =~= t);
    assert(index_of(seq!['\n'], '\n') == 0);
    let i = index_of(t, '\n');
    assert(i == s.len());
    assert(t.take(i) =~= s);
    assert(t.skip(i + 1) =~= Seq::empty());
    assert(lines(Seq::<char>::empty()) =~= Seq::<Seq<char>>::empty());
    assert(lines(t) =~= seq![without_return(s)]);
}

/// Joining lines by line feeds, with one at the end, gives text of those lines, but for a
/// carriage return at the end of one.
pub proof fn lemma_lines_of_joined(ls: Seq<Seq<char>>)
    requires
        ls.len() > 0,
        forall|k: int| 0 <= k < ls.len() ==> !(#[trigger] ls[k]).contains('\n'),
    ensures
        lines(join(ls, seq!['\n']).push('\n')) == ls.map_values(|l: Seq<char>| without_return(l)),
    decreases ls.len(),
{
    let f = |l: Seq<char>| without_return(l);
    if ls.len() == 1 {
        lemma_one_line(ls[0]);
        assert(ls.map_values(f) =~= seq![without_return(ls[0])]);
    } else {
        let rest = ls.drop_first();
        assert forall|k: int| 0 <= k < rest.len() implies !(#[trigger] rest[k]).contains('\n') by {
            assert(rest[k] == ls[k + 1]);
        }
        lemma_lines_of_joined(rest);
        lemma_one_line(ls[0]);
        let head = ls[0].push('\n');
        let tail = join(rest, seq!['\n']).push('\n');
        lemma_lines_concat(head, tail);
        assert(join(ls, seq!['\n']).push('\n') =~= head + tail);
        assert(ls.map_values(f) =~= seq![without_return(ls[0])] + rest.map_values(f));
    }
}

pub proof fn lemma_trim_start_push(s: Seq<char>, c: char, set: CharSet)
    ensures
        trim_start(s.push(c), set) == if trim_start(s, set).len() > 0 {
            trim_start(s, set).push(c)
        } else if set.has(c) {
            Seq::empty()
        } else {
            seq![c]
        },
    decreases s.len(),
{
    let t = s.push(c);
    if s.len() == 0 {
        assert(t.drop_first() =~= Seq::empty());
        assert(trim_start(Seq::<char>::empty(), set) =~= Seq::<char>::empty());
        assert(t =~= seq![c]);
    } else {
        assert(t.drop_first() =~= s.drop_first().push(c));
        if set.has(s[0]) {
            lemma_trim_start_push(s.drop_first(), c, set);
        }
    }
}

/// A carriage return at the end does not count for a trimmed text.
pub proof fn lemma_trim_without_return(s: Seq<char>)
    ensures
        trim_white(without_return(s)) == trim_white(s),
{
    if s.len() > 0 && s.last() == '\r' {
        let rest = s.drop_last();
        lemma_trim_start_push(rest, '\r', CharSet::White);
        assert(s =~= rest.push('\r'));
        let t = trim_start(rest, CharSet::White);
        assert(t.push('\r').drop_last() =~= t);
    }
}

/// Trimming the end of a text first does not count for a trimmed text.
pub proof fn lemma_trim_of_trimmed_end(s: Seq<char>, set: CharSet)
    ensures
        trim(trim_end(s, set), set) == trim(s, set),
    decreases s.len(),
{
    if s.len() > 0 && set.has(s.last()) {
        let rest = s.drop_last();
        lemma_trim_of_trimmed_end(rest, set);
        lemma_trim_start_push(rest, s.last(), set);
        assert(s =~= rest.push(s.last()));
        let t = trim_start(rest, set);
        assert(t.push(s.last()).drop_last() =~= t);
    }
}

/// The end of two texts, trimmed.
pub proof fn lemma_trim_end_concat(a: Seq<char>, b: Seq<char>, set: CharSet)
    ensures
        trim_end(a + b, set) == if trim_end(b, set).len() > 0 {
            a + trim_end(b, set)
        } else {
            trim_end(a, set)
        },
    decreases b.len(),
{
    if b.len() == 0 {
        assert(a + b =~= a);
    } else {
        assert((a + b).last() == b.last());
        if set.has(b.last()) {
            assert((a + b).drop_last() =~= a + b.drop_last());
            lemma_trim_end_concat(a, b.drop_last(), set);
        }
    }
}

/// A trimmed end is a text's beginning, and is trimmed.
pub proof fn lemma_trim_end(s: Seq<char>, set: CharSet)
    ensures
        trim_end(s, set).len() <= s.len(),
        trim_end(s, set) == s.take(trim_end(s, set).len() as int),
        trim_end(trim_end(s, set), set) == trim_end(s, set),
        trim_end(s, set).len() > 0 ==> !set.has(trim_end(s, set).last()),
    decreases s.len(),
{
    if s.len() > 0 && set.has(s.last()) {
        let rest = s.drop_last();
        lemma_trim_end(rest, set);
        let n = trim_end(rest, set).len() as int;
        assert(rest.take(n) =~= s.take(n));
    } else {
        assert(s.take(s.len() as int) =~= s);
    }
}

/// Texts joined with one more behind them.
pub proof fn lemma_join_push(parts: Seq<Seq<char>>, last: Seq<char>, sep: Seq<char>)
    ensures
        join(parts.push(last), sep) == if parts.len() == 0 {
            last
        } else {
            join(parts, sep) + sep + last
        },
    decreases parts.len(),
{
    let all = parts.push(last);
    if parts.len() > 0 {
        let rest = parts.drop_first();
        lemma_join_push(rest, last, sep);
        assert(all.drop_first() =~= rest.push(last));
        if rest.len() == 0 {
            assert(rest.push(last).len() == 1);
            assert(join(parts, sep) == parts[0]);
        } else {
            assert(parts[0] + sep + (join(rest, sep) + sep + last) =~= parts[0] + sep + join(
                rest,
                sep,
            ) + sep + last);
        }
    }
}

/// Splitting joined texts gives them back.
pub proof fn lemma_join_split(parts: Seq<Seq<char>>, c: char)
    requires
        parts.len() > 0,
        forall|k: int| 0 <= k < parts.len() ==> !(#[trigger] parts[k]).contains(c),
    ensures
        split(join(parts, seq![c]), c) == parts,
    decreases parts.len(),
{
    let first = parts[0];
    lemma_index_of(first, c);
    assert(index_of(first, c) == first.len()) by {
        if index_of(first, c) < first.len() {
            assert(first.contains(first[index_of(first, c)]));
        }
    }
    if parts.len() == 1 {
        assert(split(first, c) =~= parts);
    } else {
        let rest = parts.drop_first();
        assert forall|k: int| 0 <= k < rest.len() implies !(#[trigger] rest[k]).contains(c) by {
            assert(rest[k] == parts[k + 1]);
        }
        lemma_join_split(rest, c);
        let tail = join(rest, seq![c]);
        let all = first + seq![c] + tail;
        lemma_index_of_concat(first, seq![c] + tail, c);
        assert(first + (seq![c] + tail) =~= all);
        assert((seq![c] + tail)[0] == c);
        assert(index_of(all, c) == first.len());
        assert(all.take(first.len() as int) =~= first);
        assert(all.skip(first.len() as int + 1) =~= tail);
        assert(seq![first] + rest =~= parts);
    }
}

/// The lines of a text with one more line feed at its end.
pub proof fn lemma_lines_push_feed(s: Seq<char>)
    ensures
        s.len() > 0 ==> lines(s).len() > 0,
        lines(s.push('\n')) == if s.len() == 0 {
            seq![Seq::empty()]
        } else if s.last() == '\n' {
            lines(s).push(Seq::empty())
        } else {
            lines(s).drop_last().push(without_return(lines(s).last()))
        },
    decreases s.len(),
{
    lemma_index_of(s, '\n');
    let i = index_of(s, '\n');
    if s.len() == 0 {
        assert(!s.contains('\n'));
        lemma_one_line(s);
        assert(s =~= Seq::empty());
    } else if i < s.len() {
        let rest = s.skip(i + 1);
        let first = seq![without_return(s.take(i))];
        lemma_lines_push_feed(rest);
        lemma_index_of_concat(s, seq!['\n'], '\n');
        assert(s + seq!['\n'] =~= s.push('\n'));
        assert(s.push('\n').take(i) =~= s.take(i));
        assert(s.push('\n').skip(i + 1) =~= rest.push('\n'));
        if rest.len() == 0 {
            assert(rest =~= Seq::empty());
            assert(s.last() == s[i]);
            assert(first + seq![Seq::<char>::empty()] =~= lines(s).push(Seq::empty()));
        } else if s.last() == '\n' {
            assert(rest.last() == s.last());
            assert(first + lines(rest).push(Seq::empty()) =~= lines(s).push(Seq::empty()));
        } else {
            assert(rest.last() == s.last());
            assert(lines(s).last() == lines(rest).last());
            assert(first + lines(rest).drop_last() =~= lines(s).drop_last());
            assert(first + lines(rest).drop_last().push(without_return(lines(rest).last()))
                =~= lines(s).drop_last().push(without_return(lines(s).last())));
        }
    } else {
        if s.contains('\n') {
            let j = choose|j: int| 0 <= j < s.len() && s[j] == '\n';
            assert(s[j] == '\n');
        }
        lemma_one_line(s);
        assert(lines(s) =~= seq![s]);
        assert(s.last() != '\n');
        assert(lines(s).drop_last().push(without_return(s)) =~= seq![without_return(s)]);
    }
}

// -------------------------------------------------------------------- lengths

/// The bytes that the UTF-8 form of a character takes.
pub open spec fn width(c: char) -> nat {
    let u = c as u32;
    if u < 0x80 {
        1
    } else if u < 0x800 {
        2
    } else if u < 0x10000 {
        3
    } else {
        4
    }
}

/// The bytes that the UTF-8 form of a text takes.
pub open spec fn byte_len(s: Seq<char>) -> nat
    decreases s.len(),
{
    if s.len() == 0 {
        0
    } else {
        width(s[0]) + byte_len(s.drop_first())
    }
}

/// [`byte_len`] is the length of the encoded text.
pub proof fn lemma_byte_len_is_encoded_len(s: Seq<char>)
    ensures
        byte_len(s) == vstd::utf8::encode_utf8(s).len(),
    decreases s.len(),
{
    if s.len() > 0 {
        lemma_byte_len_is_encoded_len(s.drop_first());
        vstd::utf8::char_is_scalar(s[0]);
        assert(vstd::utf8::encode_scalar(s[0] as u32).len() == width(s[0]));
    }
}

pub proof fn lemma_byte_len_concat(a: Seq<char>, b: Seq<char>)
    ensures
        byte_len(a + b) == byte_len(a) + byte_len(b),
    decreases a.len(),
{
    if a.len() == 0 {
        assert(a + b =~= b);
    } else {
        lemma_byte_len_concat(a.drop_first(), b);
        assert((a + b).drop_first() =~= a.drop_first() + b);
    }
}

pub proof fn lemma_byte_len_at_least(s: Seq<char>)
    ensures
        byte_len(s) >= s.len(),
    decreases s.len(),
{
    if s.len() > 0 {
        lemma_byte_len_at_least(s.drop_first());
    }
}

/// The bytes that the UTF-8 form of a character takes.
pub fn char_width(c: char) -> (r: usize)
    ensures
        r == width(c),
{
    let u: u32 = c as u32;
    if u < 0x80 {
        1
    } else if u < 0x800 {
        2
    } else if u < 0x10000 {
        3
    } else {
        4
    }
}

/// The bytes that the UTF-8 form of a string takes.
pub fn byte_length(s: &str) -> (r: usize)
    ensures
        r == byte_len(s@),
{
    proof {
        lemma_byte_len_is_encoded_len(s@);
    }
    s.as_bytes().len()
}

// -------------------------------------------------------------------- numbers

/// The decimal digit of a number below ten.
pub open spec fn digit(n: nat) -> char {
    if n == 0 {
        '0'
    } else if n == 1 {
        '1'
    } else if n == 2 {
        '2'
    } else if n == 3 {
        '3'
    } else if n == 4 {
        '4'
    } else if n == 5 {
        '5'
    } else if n == 6 {
        '6'
    } else if n == 7 {
        '7'
    } else if n == 8 {
        '8'
    } else {
        '9'
    }
}

/// A number in decimal.
pub open spec fn decimal(n: nat) -> Seq<char>
    decreases n,
{
    if n < 10 {
        seq![digit(n)]
    } else {
        decimal(n / 10).push(digit(n % 10))
    }
}

/// Different numbers are written differently.
pub proof fn lemma_decimal_injective(a: nat, b: nat)
    requires
        decimal(a) == decimal(b),
    ensures
        a == b,
    decreases a,
{
    let x = decimal(a);
    let y = decimal(b);
    if a >= 10 {
        assert(decimal(a / 10).len() >= 1);
        assert(x.drop_last() =~= decimal(a / 10));
        assert(x.last() == digit(a % 10));
    } else {
        assert(x.last() == digit(a));
    }
    if b >= 10 {
        assert(decimal(b / 10).len() >= 1);
        assert(y.drop_last() =~= decimal(b / 10));
        assert(y.last() == digit(b % 10));
    } else {
        assert(y.last() == digit(b));
    }
    if a >= 10 && b >= 10 {
        lemma_decimal_injective(a / 10, b / 10);
    }
}

fn digit_char(n: u64) -> (r: char)
    requires
        n < 10,
    ensures
        r == digit(n as nat),
{
    if n == 0 {
        '0'
    } else if n == 1 {
        '1'
    } else if n == 2 {
        '2'
    } else if n == 3 {
        '3'
    } else if n == 4 {
        '4'
    } else if n == 5 {
        '5'
    } else if n == 6 {
        '6'
    } else if n == 7 {
        '7'
    } else if n == 8 {
        '8'
    } else {
        '9'
    }
}

/// A number in decimal.
pub fn decimal_of(n: u64) -> (r: String)
    ensures
        r@ == decimal(n as nat),
    decreases n,
{
    if n < 10 {
        let mut s = String::new();
        s.push(digit_char(n));
        assert(s@ =~= seq![digit(n as nat)]);
        s
    } else {
        let mut s = decimal_of(n / 10);
        s.push(digit_char(n % 10));
        s
    }
}

/// `s` padded at the front with `c` to at least `width` characters.
pub open spec fn pad_left(s: Seq<char>, c: char, width: nat) -> Seq<char>
    decreases width - s.len(),
{
    if s.len() >= width {
        s
    } else {
        pad_left(seq![c] + s, c, width)
    }
}

/// `s` padded at the front with zeros to at least `width` characters.
pub fn zero_padded(s: String, width: usize) -> (r: String)
    ensures
        r@ == pad_left(s@, '0', width as nat),
{
    let mut out = s;
    let mut n: usize = chars_of(out.as_str()).len();
    while n < width
        invariant
            n == out@.len(),
            pad_left(s@, '0', width as nat) == pad_left(out@, '0', width as nat),
        decreases width - n,
    {
        let mut longer = String::new();
        longer.push('0');
        longer.append(out.as_str());
        assert(longer@ =~= seq!['0'] + out@);
        out = longer;
        n = n + 1;
    }
    out
}

/// `s` padded at the end with spaces to at least `width` characters.
pub open spec fn pad_right(s: Seq<char>, width: nat) -> Seq<char>
    decreases width - s.len(),
{
    if s.len() >= width {
        s
    } else {
        pad_right(s.push(' '), width)
    }
}

/// `s` padded at the end with spaces to at least `width` characters.
pub fn padded_right(s: &str, width: usize) -> (r: String)
    ensures
        r@ == pad_right(s@, width as nat),
{
    let mut out = s.to_owned();
    let mut n: usize = chars_of(s).len();
    while n < width
        invariant
            n == out@.len(),
            pad_right(s@, width as nat) == pad_right(out@, width as nat),
        decreases width - n,
    {
        out.push(' ');
        n = n + 1;
    }
    out
}

// -------------------------------------------------------------------- words and numbers

/// The words of a text that are left to read, with the characters of the current one.
pub open spec fn white_words_from(s: Seq<char>, current: Seq<char>) -> Seq<Seq<char>>
    decreases s.len(),
{
    let done = if current.len() > 0 {
        seq![current]
    } else {
        Seq::empty()
    };
    if s.len() == 0 {
        done
    } else if is_white(s[0]) {
        done + white_words_from(s.drop_first(), Seq::empty())
    } else {
        white_words_from(s.drop_first(), current.push(s[0]))
    }
}

/// The parts of a text between white space.
pub open spec fn white_words(s: Seq<char>) -> Seq<Seq<char>> {
    white_words_from(s, Seq::empty())
}

/// The parts of a text between white space.
pub fn words_of(s: &[char]) -> (r: Vec<String>)
    ensures
        texts(r@) == white_words(s@),
{
    let mut words: Vec<String> = Vec::new();
    let mut current: Vec<char> = Vec::new();
    let mut i: usize = 0;
    proof {
        assert(s@.skip(0) =~= s@);
        assert(texts(words@) + white_words_from(s@.skip(0), current@) =~= white_words(s@));
    }
    while i < s.len()
        invariant
            i <= s@.len(),
            texts(words@) + white_words_from(s@.skip(i as int), current@) == white_words(s@),
        decreases s.len() - i,
    {
        let ghost before = words@;
        let ghost read = current@;
        assert(s@.skip(i as int).drop_first() =~= s@.skip(i + 1));
        if is_whitespace(s[i]) {
            if current.len() > 0 {
                words.push(string_of(&current));
                assert(texts(words@) =~= texts(before).push(read));
            }
            current = Vec::new();
            proof {
                let done = if read.len() > 0 {
                    seq![read]
                } else {
                    Seq::empty()
                };
                assert(current@ =~= Seq::empty());
                assert(texts(words@) =~= texts(before) + done);
                let more = white_words_from(s@.skip(i + 1), Seq::empty());
                assert(texts(before) + (done + more) =~= texts(before) + done + more);
            }
        } else {
            current.push(s[i]);
        }
        i = i + 1;
    }
    let ghost before = words@;
    if current.len() > 0 {
        words.push(string_of(&current));
        assert(texts(words@) =~= texts(before).push(current@));
    }
    proof {
        assert(s@.skip(s@.len() as int) =~= Seq::empty());
        let rest = white_words_from(Seq::empty(), current@);
        assert(texts(words@) =~= texts(before) + rest);
    }
    words
}

/// Whether a character is a decimal digit.
pub open spec fn is_digit(c: char) -> bool {
    '0' <= c && c <= '9'
}

/// The number that decimal digits stand for.
pub open spec fn digits_value(s: Seq<char>) -> nat
    decreases s.len(),
{
    if s.len() == 0 {
        0
    } else {
        (digits_value(s.drop_last()) * 10 + (s.last() as u32 - '0' as u32)) as nat
    }
}

/// A number's digits, behind a plus sign or alone.
pub open spec fn number_digits(s: Seq<char>) -> Seq<char> {
    if s.len() > 0 && s[0] == '+' {
        s.drop_first()
    } else {
        s
    }
}

/// The unsigned number that a text is: decimal digits, perhaps behind a plus sign.
pub open spec fn number(s: Seq<char>) -> Option<nat> {
    let ds = number_digits(s);
    if ds.len() > 0 && forall|i: int| 0 <= i < ds.len() ==> is_digit(#[trigger] ds[i]) {
        Some(digits_value(ds))
    } else {
        None
    }
}

/// The number that a text is, where it is at most `max`.
pub fn parse_number(s: &[char], max: u64) -> (r: Option<u64>)
    ensures
        match number(s@) {
            Some(n) => if n <= max {
                r == Some(n as u64)
            } else {
                r is None
            },
            None => r is None,
        },
{
    let start: usize = if s.len() > 0 && s[0] == '+' {
        1
    } else {
        0
    };
    let ghost ds = number_digits(s@);
    assert(ds =~= s@.skip(start as int));
    if start >= s.len() {
        return None;
    }
    let mut i: usize = start;
    let mut n: u128 = 0;
    let mut over = false;
    assert(ds.take(0) =~= Seq::empty());
    while i < s.len()
        invariant
            start <= i <= s@.len(),
            ds == number_digits(s@),
            ds =~= s@.skip(start as int),
            forall|k: int| 0 <= k < i - start ==> is_digit(#[trigger] ds[k]),
            !over ==> n == digits_value(ds.take(i - start)) && n <= max,
            over ==> digits_value(ds.take(i - start)) > max,
        decreases s.len() - i,
    {
        let c = s[i];
        assert(ds[i - start] == c);
        if !('0' <= c && c <= '9') {
            assert(!is_digit(ds[i - start]));
            return None;
        }
        proof {
            let k = i - start;
            assert(ds.take(k + 1).drop_last() =~= ds.take(k));
            assert(ds.take(k + 1).last() == c);
        }
        let d: u32 = c as u32 - '0' as u32;
        if !over {
            let m: u128 = n * 10 + d as u128;
            if m > max as u128 {
                over = true;
            } else {
                n = m;
            }
        }
        i = i + 1;
    }
    assert(ds.take(ds.len() as int) =~= ds);
    if over {
        None
    } else {
        Some(n as u64)
    }
}

/// The decimal digits of an integer, behind a minus sign where it is negative.
pub open spec fn signed_decimal(n: int) -> Seq<char> {
    if n < 0 {
        "-"@ + decimal((-n) as nat)
    } else {
        decimal(n as nat)
    }
}

/// The decimal digits of an integer, behind a minus sign where it is negative.
pub fn signed_decimal_of(n: i32) -> (r: String)
    ensures
        r@ == signed_decimal(n as int),
{
    if n < 0 {
        let mut s = "-".to_owned();
        let m: i64 = -(n as i64);
        s.append(decimal_of(m as u64).as_str());
        s
    } else {
        decimal_of(n as u64)
    }
}

} // verus!
