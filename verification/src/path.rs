//! File paths, as text with Unix meaning: two texts are one path when they have
//! the same components.

use crate::text::{
    chars_of, join, joined, less, lemma_text_lt_irreflexive, lemma_text_lt_total,
    lemma_text_lt_transitive,
    pieces, same, split, string_of, text_lt, texts,
};
use vstd::prelude::*;
use vstd::slice::slice_subrange;

verus! {

/// Whether a piece between two slashes is a component: empty pieces and `.` are not.
pub open spec fn is_component(piece: Seq<char>) -> bool {
    piece.len() > 0 && piece != "."@
}

/// The pieces that are components.
pub open spec fn proper(pieces: Seq<Seq<char>>) -> Seq<Seq<char>>
    decreases pieces.len(),
{
    if pieces.len() == 0 {
        pieces
    } else if is_component(pieces.last()) {
        proper(pieces.drop_last()).push(pieces.last())
    } else {
        proper(pieces.drop_last())
    }
}

/// The first component of a rooted path (`/`) or of one that starts with `.`.
pub open spec fn head(p: Seq<char>) -> Seq<Seq<char>> {
    if p.len() > 0 && p[0] == '/' {
        seq!["/"@]
    } else if split(p, '/')[0] == "."@ {
        seq!["."@]
    } else {
        seq![]
    }
}

/// The components of a path: `/` for the root, `.` at the start, `..`, and names.
pub open spec fn components(p: Seq<char>) -> Seq<Seq<char>> {
    head(p) + proper(split(p, '/'))
}

/// The components of a path.
pub fn components_of(p: &str) -> (r: Vec<String>)
    ensures
        texts(r@) == components(p@),
{
    let cs = chars_of(p);
    let parts = pieces(cs.as_slice(), '/');
    let ghost all = texts(parts@);
    let mut out: Vec<String> = Vec::new();
    assert(all.len() == parts@.len());
    assert(all[0] == parts@[0]@);
    if cs.len() > 0 && cs[0] == '/' {
        out.push("/".to_owned());
    } else if same(parts[0].as_str(), ".") {
        out.push(".".to_owned());
    }
    let mut i: usize = 0;
    proof {
        assert(texts(out@) =~= head(p@));
        assert(all.take(0) =~= Seq::empty());
        assert(texts(out@) =~= head(p@) + proper(all.take(0)));
    }
    while i < parts.len()
        invariant
            i <= parts@.len(),
            all == texts(parts@),
            texts(out@) == head(p@) + proper(all.take(i as int)),
        decreases parts.len() - i,
    {
        let ghost before = out@;
        proof {
            assert(all.take(i + 1).drop_last() =~= all.take(i as int));
            assert(all.take(i + 1).last() == parts@[i as int]@);
        }
        let piece = parts[i].clone();
        if chars_of(piece.as_str()).len() > 0 && !same(piece.as_str(), ".") {
            out.push(piece);
            assert(texts(out@) =~= texts(before).push(piece@));
            assert(texts(out@) =~= head(p@) + proper(all.take(i + 1)));
        }
        i = i + 1;
    }
    assert(all.take(all.len() as int) =~= all);
    out
}

/// Whether two texts are the same path.
pub open spec fn path_eq(a: Seq<char>, b: Seq<char>) -> bool {
    components(a) == components(b)
}

/// Whether two lists of texts are the same.
pub fn same_texts(a: &[String], b: &[String]) -> (r: bool)
    ensures
        r == (texts(a@) == texts(b@)),
{
    assert(texts(a@).len() == a@.len());
    assert(texts(b@).len() == b@.len());
    if a.len() != b.len() {
        return false;
    }
    let mut i: usize = 0;
    while i < a.len()
        invariant
            i <= a@.len(),
            a@.len() == b@.len(),
            forall|k: int| 0 <= k < i ==> texts(a@)[k] == texts(b@)[k],
        decreases a.len() - i,
    {
        if !same(a[i].as_str(), b[i].as_str()) {
            assert(texts(a@)[i as int] != texts(b@)[i as int]);
            return false;
        }
        i = i + 1;
    }
    assert(texts(a@) =~= texts(b@));
    true
}

/// Whether two texts are the same path.
pub fn paths_equal(a: &str, b: &str) -> (r: bool)
    ensures
        r == path_eq(a@, b@),
{
    same_texts(components_of(a).as_slice(), components_of(b).as_slice())
}

/// Whether a path lies at or under another.
pub open spec fn is_under(path: Seq<char>, base: Seq<char>) -> bool {
    components(base).is_prefix_of(components(path))
}

/// The components by which `path` goes beyond `base`.
pub open spec fn beyond(path: Seq<char>, base: Seq<char>) -> Seq<Seq<char>> {
    components(path).skip(components(base).len() as int)
}

/// The components by which `path` goes beyond `base`; `None` where it does not lie
/// at or under it.
pub fn relative_components(path: &str, base: &str) -> (r: Option<Vec<String>>)
    ensures
        r is Some == is_under(path@, base@),
        r matches Some(v) ==> texts(v@) == beyond(path@, base@),
{
    let p = components_of(path);
    let b = components_of(base);
    let ghost pc = texts(p@);
    let ghost bc = texts(b@);
    assert(pc.len() == p@.len() && bc.len() == b@.len());
    if b.len() > p.len() {
        return None;
    }
    let mut i: usize = 0;
    while i < b.len()
        invariant
            i <= b@.len() <= p@.len(),
            pc == texts(p@),
            bc == texts(b@),
            pc == components(path@),
            bc == components(base@),
            forall|k: int| 0 <= k < i ==> pc[k] == bc[k],
        decreases b.len() - i,
    {
        if !same(p[i].as_str(), b[i].as_str()) {
            proof {
                assert(pc[i as int] != bc[i as int]);
                assert(!(bc =~= pc.subrange(0, bc.len() as int))) by {
                    assert(pc.subrange(0, bc.len() as int)[i as int] == pc[i as int]);
                }
            }
            return None;
        }
        i = i + 1;
    }
    assert(bc =~= pc.subrange(0, bc.len() as int));
    let mut out: Vec<String> = Vec::new();
    while i < p.len()
        invariant
            b@.len() <= i <= p@.len(),
            pc == texts(p@),
            texts(out@) == pc.subrange(b@.len() as int, i as int),
        decreases p.len() - i,
    {
        let ghost before = out@;
        let part = p[i].clone();
        out.push(part);
        proof {
            assert(texts(out@) =~= texts(before).push(part@));
            assert(part@ == pc[i as int]);
            assert(texts(out@) =~= pc.subrange(b@.len() as int, i + 1));
        }
        i = i + 1;
    }
    assert(pc.subrange(b@.len() as int, pc.len() as int) =~= pc.skip(bc.len() as int));
    Some(out)
}

/// Whether a path lies at or under another.
pub fn under(path: &str, base: &str) -> (r: bool)
    ensures
        r == is_under(path@, base@),
{
    relative_components(path, base).is_some()
}

/// Whether a component is a name: not the root, `.` or `..`.
pub open spec fn is_name(c: Seq<char>) -> bool {
    c != "/"@ && c != "."@ && c != ".."@
}

/// Whether a component is a name.
pub fn is_normal(c: &str) -> (r: bool)
    ensures
        r == is_name(c@),
{
    !same(c, "/") && !same(c, ".") && !same(c, "..")
}

/// The last component of a path, where that is a name.
pub open spec fn name_of(p: Seq<char>) -> Option<Seq<char>> {
    let c = components(p);
    if c.len() > 0 && is_name(c.last()) {
        Some(c.last())
    } else {
        None
    }
}

/// The last component of a path, where that is a name.
pub fn file_name(p: &str) -> (r: Option<String>)
    ensures
        r is Some == name_of(p@) is Some,
        r matches Some(n) ==> name_of(p@) == Some(n@),
{
    let mut c = components_of(p);
    let ghost all = texts(c@);
    assert(all.len() == c@.len());
    match c.pop() {
        Some(last) => {
            assert(all.last() == last@);
            if is_normal(last.as_str()) {
                Some(last)
            } else {
                None
            }
        },
        None => None,
    }
}

/// The last index of `c` in `s`; -1 where there is none.
pub open spec fn last_index_of(s: Seq<char>, c: char) -> int
    decreases s.len(),
{
    if s.len() == 0 {
        -1
    } else if s.last() == c {
        s.len() - 1
    } else {
        last_index_of(s.drop_last(), c)
    }
}

pub proof fn lemma_last_index_of(s: Seq<char>, c: char)
    ensures
        -1 <= last_index_of(s, c) < s.len(),
        last_index_of(s, c) >= 0 ==> s[last_index_of(s, c)] == c,
        forall|i: int| last_index_of(s, c) < i < s.len() ==> s[i] != c,
    decreases s.len(),
{
    if s.len() > 0 && s.last() != c {
        lemma_last_index_of(s.drop_last(), c);
        assert forall|i: int| last_index_of(s, c) < i < s.len() implies s[i] != c by {
            if i < s.len() - 1 {
                assert(s.drop_last()[i] == s[i]);
            }
        }
    }
}

/// The last index of `c` in `s`.
pub fn last_index(s: &[char], c: char) -> (r: Option<usize>)
    ensures
        r is Some == (last_index_of(s@, c) >= 0),
        r matches Some(i) ==> i == last_index_of(s@, c) && i < s@.len(),
{
    let mut n: usize = s.len();
    assert(s@.take(n as int) =~= s@);
    while n > 0
        invariant
            n <= s.len(),
            last_index_of(s@, c) == last_index_of(s@.take(n as int), c),
        decreases n,
    {
        if s[n - 1] == c {
            return Some(n - 1);
        }
        assert(s@.take(n as int).drop_last() =~= s@.take(n - 1));
        n = n - 1;
    }
    None
}

/// The extension of a path: what stands behind the last dot of its name, unless
/// that dot begins the name.
pub open spec fn extension_of(p: Seq<char>) -> Option<Seq<char>> {
    match name_of(p) {
        Some(name) => {
            let dot = last_index_of(name, '.');
            if dot <= 0 {
                None
            } else {
                Some(name.skip(dot + 1))
            }
        },
        None => None,
    }
}

/// The extension of a path.
pub fn extension(p: &str) -> (r: Option<String>)
    ensures
        r is Some == extension_of(p@) is Some,
        r matches Some(e) ==> extension_of(p@) == Some(e@),
{
    match file_name(p) {
        Some(name) => {
            let cs = chars_of(name.as_str());
            match last_index(cs.as_slice(), '.') {
                Some(dot) => {
                    if dot == 0 {
                        None
                    } else {
                        assert(dot < cs.len());
                        let e = slice_subrange(cs.as_slice(), dot + 1, cs.len());
                        assert(e@ =~= name@.skip(dot + 1));
                        Some(string_of(e))
                    }
                },
                None => None,
            }
        },
        None => None,
    }
}

/// `base` with `name` appended; `name` alone where that is rooted.
pub open spec fn joined_path(base: Seq<char>, name: Seq<char>) -> Seq<char> {
    if name.len() > 0 && name[0] == '/' {
        name
    } else if base.len() == 0 || base.last() == '/' {
        base + name
    } else {
        base.push('/') + name
    }
}

/// `base` with `name` appended.
pub fn join_path(base: &str, name: &str) -> (r: String)
    ensures
        r@ == joined_path(base@, name@),
{
    let b = chars_of(base);
    let n = chars_of(name);
    if n.len() > 0 && n[0] == '/' {
        return name.to_owned();
    }
    let mut out = base.to_owned();
    if b.len() > 0 && b[b.len() - 1] != '/' {
        out.push('/');
    }
    out.append(name);
    out
}

/// The character with an ASCII capital made small.
pub open spec fn lower_ascii(c: char) -> char {
    if 'A' <= c && c <= 'Z' {
        ((c as u32) + 32) as char
    } else {
        c
    }
}

/// Whether two texts agree but for the case of ASCII letters.
pub open spec fn same_ignoring_case(a: Seq<char>, b: Seq<char>) -> bool {
    a.len() == b.len() && forall|i: int|
        0 <= i < a.len() ==> lower_ascii(#[trigger] a[i]) == lower_ascii(b[i])
}

/// The character with an ASCII capital made small.
pub fn to_lower_ascii(c: char) -> (r: char)
    ensures
        r == lower_ascii(c),
{
    if 'A' <= c && c <= 'Z' {
        let u: u8 = c as u8;
        (u + 32) as char
    } else {
        c
    }
}

/// Whether two texts agree but for the case of ASCII letters.
pub fn eq_ignore_case(a: &str, b: &str) -> (r: bool)
    ensures
        r == same_ignoring_case(a@, b@),
{
    let x = chars_of(a);
    let y = chars_of(b);
    if x.len() != y.len() {
        return false;
    }
    let mut i: usize = 0;
    while i < x.len()
        invariant
            i <= x@.len(),
            x@ == a@,
            y@ == b@,
            x@.len() == y@.len(),
            forall|k: int| 0 <= k < i ==> lower_ascii(#[trigger] x@[k]) == lower_ascii(y@[k]),
        decreases x.len() - i,
    {
        if to_lower_ascii(x[i]) != to_lower_ascii(y[i]) {
            return false;
        }
        i = i + 1;
    }
    true
}

// ----------------------------------------------------------------------- order

/// The kinds of component in their order: root, `.`, `..`, names.
pub open spec fn rank(c: Seq<char>) -> int {
    if c == "/"@ {
        0
    } else if c == "."@ {
        1
    } else if c == ".."@ {
        2
    } else {
        3
    }
}

/// The order of components: by kind, then names as strings.
pub open spec fn component_lt(a: Seq<char>, b: Seq<char>) -> bool {
    rank(a) < rank(b) || (rank(a) == 3 && rank(b) == 3 && text_lt(a, b))
}

/// The order of paths: by the first component in which they differ.
pub open spec fn components_lt(a: Seq<Seq<char>>, b: Seq<Seq<char>>) -> bool
    decreases a.len(),
{
    if b.len() == 0 {
        false
    } else if a.len() == 0 {
        true
    } else if a[0] != b[0] {
        component_lt(a[0], b[0])
    } else {
        components_lt(a.drop_first(), b.drop_first())
    }
}

fn rank_of(c: &str) -> (r: u8)
    ensures
        r == rank(c@),
{
    if same(c, "/") {
        0
    } else if same(c, ".") {
        1
    } else if same(c, "..") {
        2
    } else {
        3
    }
}

fn less_component(a: &str, b: &str) -> (r: bool)
    ensures
        r == component_lt(a@, b@),
{
    let x: u8 = rank_of(a);
    let y: u8 = rank_of(b);
    x < y || (x == 3 && y == 3 && less(a, b))
}

/// Whether path `a` stands before path `b`.
pub fn less_path(a: &str, b: &str) -> (r: bool)
    ensures
        r == components_lt(components(a@), components(b@)),
{
    let x = components_of(a);
    let y = components_of(b);
    let ghost xc = texts(x@);
    let ghost yc = texts(y@);
    let mut i: usize = 0;
    assert(xc.skip(0) =~= xc);
    assert(yc.skip(0) =~= yc);
    assert(xc.len() == x@.len() && yc.len() == y@.len());
    while i < x.len() && i < y.len()
        invariant
            i <= x@.len(),
            i <= y@.len(),
            xc == texts(x@),
            yc == texts(y@),
            xc == components(a@),
            yc == components(b@),
            components_lt(xc, yc) == components_lt(xc.skip(i as int), yc.skip(i as int)),
        decreases x.len() - i,
    {
        proof {
            assert(xc.skip(i as int)[0] == x@[i as int]@);
            assert(yc.skip(i as int)[0] == y@[i as int]@);
            assert(xc.skip(i as int).drop_first() =~= xc.skip(i + 1));
            assert(yc.skip(i as int).drop_first() =~= yc.skip(i + 1));
        }
        if !same(x[i].as_str(), y[i].as_str()) {
            return less_component(x[i].as_str(), y[i].as_str());
        }
        i = i + 1;
    }
    i < y.len()
}

/// The order of paths is irreflexive.
pub proof fn lemma_components_lt_irreflexive(a: Seq<Seq<char>>)
    ensures
        !components_lt(a, a),
    decreases a.len(),
{
    if a.len() > 0 {
        lemma_components_lt_irreflexive(a.drop_first());
    }
}

proof fn lemma_component_order(a: Seq<char>, b: Seq<char>, c: Seq<char>)
    ensures
        !component_lt(a, a),
        component_lt(a, b) && component_lt(b, c) ==> component_lt(a, c),
        a == b || component_lt(a, b) || component_lt(b, a),
{
    lemma_text_lt_irreflexive(a);
    lemma_text_lt_total(a, b);
    if text_lt(a, b) && text_lt(b, c) {
        lemma_text_lt_transitive(a, b, c);
    }
}

/// The order of paths is transitive.
pub proof fn lemma_components_lt_transitive(
    a: Seq<Seq<char>>,
    b: Seq<Seq<char>>,
    c: Seq<Seq<char>>,
)
    requires
        components_lt(a, b),
        components_lt(b, c),
    ensures
        components_lt(a, c),
    decreases a.len(),
{
    if a.len() > 0 {
        lemma_component_order(a[0], b[0], c[0]);
        lemma_component_order(b[0], a[0], b[0]);
        if a[0] == b[0] && b[0] == c[0] {
            lemma_components_lt_transitive(a.drop_first(), b.drop_first(), c.drop_first());
        } else if a[0] == c[0] {
            lemma_component_order(a[0], b[0], a[0]);
        }
    }
}

/// Of two different paths one stands before the other.
pub proof fn lemma_components_lt_total(a: Seq<Seq<char>>, b: Seq<Seq<char>>)
    ensures
        a == b || components_lt(a, b) || components_lt(b, a),
    decreases a.len(),
{
    if a.len() > 0 && b.len() > 0 {
        lemma_component_order(a[0], b[0], b[0]);
        if a[0] == b[0] {
            lemma_components_lt_total(a.drop_first(), b.drop_first());
            if a.drop_first() == b.drop_first() {
                assert(a =~= seq![a[0]] + a.drop_first());
                assert(b =~= seq![b[0]] + b.drop_first());
            }
        }
    } else if a.len() == 0 && b.len() == 0 {
        assert(a =~= b);
    }
}

/// A text with its ASCII capitals in small letters.
pub open spec fn lowered(s: Seq<char>) -> Seq<char> {
    s.map_values(|c: char| lower_ascii(c))
}

/// A text with its ASCII capitals in small letters.
pub fn to_lower(s: &[char]) -> (r: Vec<char>)
    ensures
        r@ == lowered(s@),
{
    let mut out: Vec<char> = Vec::new();
    let mut i: usize = 0;
    while i < s.len()
        invariant
            i <= s@.len(),
            out@ == lowered(s@).take(i as int),
        decreases s.len() - i,
    {
        let ghost before = out@;
        out.push(to_lower_ascii(s[i]));
        assert(lowered(s@).take(i + 1) =~= before.push(lower_ascii(s@[i as int])));
        i = i + 1;
    }
    assert(lowered(s@).take(s@.len() as int) =~= lowered(s@));
    out
}

/// Pieces of a path without a number of components at their front.
pub open spec fn after_components(pieces: Seq<Seq<char>>, n: nat) -> Seq<Seq<char>>
    decreases pieces.len(),
{
    if n == 0 || pieces.len() == 0 {
        pieces
    } else if is_component(pieces[0]) {
        after_components(pieces.drop_first(), (n - 1) as nat)
    } else {
        after_components(pieces.drop_first(), n)
    }
}

/// Pieces of a path without those at their front that are no components.
pub open spec fn from_component(pieces: Seq<Seq<char>>) -> Seq<Seq<char>>
    decreases pieces.len(),
{
    if pieces.len() > 0 && !is_component(pieces[0]) {
        from_component(pieces.drop_first())
    } else {
        pieces
    }
}

/// Pieces of a path without those at their end that are no components.
pub open spec fn to_component(pieces: Seq<Seq<char>>) -> Seq<Seq<char>>
    decreases pieces.len(),
{
    if pieces.len() > 0 && !is_component(pieces.last()) {
        to_component(pieces.drop_last())
    } else {
        pieces
    }
}

/// The text of a path behind a number of its components, which is at least one: slashes
/// and dots in its middle stay.
pub open spec fn text_behind(path: Seq<char>, n: nat) -> Seq<char> {
    let skip = (n - head(path).len()) as nat;
    join(to_component(from_component(after_components(split(path, '/'), skip))), "/"@)
}

/// The text of a path without what stands behind its last component: slashes and dots at its
/// front and in its middle stay.
pub open spec fn to_last_component(path: Seq<char>) -> Seq<char> {
    let kept = to_component(split(path, '/'));
    if kept.len() > 0 {
        join(kept, "/"@)
    } else {
        join(head(path), "/"@)
    }
}

/// The text of a path without what stands behind its last component.
pub fn without_end(path: &str) -> (r: String)
    ensures
        r@ == to_last_component(path@),
{
    let cs = chars_of(path);
    let mut parts = pieces(&cs, '/');
    let ghost all = texts(parts@);
    proof {
        crate::text::lemma_split_nonempty(cs@, '/');
        assert(all[0] == parts@[0]@);
    }
    let rooted = cs.len() > 0 && cs[0] == '/';
    let dotted = !rooted && same(parts[0].as_str(), ".");
    while parts.len() > 0 && !is_part(parts[parts.len() - 1].as_str())
        invariant
            to_component(all) == to_component(texts(parts@)),
        decreases parts@.len(),
    {
        let ghost before = texts(parts@);
        proof {
            assert(before.last() == parts@.last()@);
        }
        let gone = parts.pop();
        assert(texts(parts@) =~= before.drop_last());
    }
    proof {
        let kept = texts(parts@);
        if parts@.len() > 0 {
            assert(kept.last() == parts@.last()@);
        }
        assert(to_component(all) == kept);
    }
    if parts.len() > 0 {
        return joined(parts.as_slice(), "/");
    }
    let mut front: Vec<String> = Vec::new();
    if rooted {
        front.push("/".to_owned());
    } else if dotted {
        front.push(".".to_owned());
    }
    assert(texts(front@) =~= head(path@));
    joined(front.as_slice(), "/")
}

/// The text of a path relative to a base that it is under.
pub fn relative_text(path: &str, base: &str) -> (r: String)
    requires
        is_under(path@, base@),
        components(base@).len() > 0,
    ensures
        r@ == text_behind(path@, components(base@).len()),
{
    let cs = chars_of(path);
    let parts = pieces(&cs, '/');
    let ghost all = texts(parts@);
    let names = components_of(base);
    let count: usize = names.len();
    let ghost total = components(base@).len();
    assert(texts(names@).len() == names@.len());
    let heads: usize = if cs.len() > 0 && cs[0] == '/' {
        1
    } else {
        proof {
            crate::text::lemma_split_nonempty(cs@, '/');
        }
        assert(all[0] == parts@[0]@);
        if same(parts[0].as_str(), ".") {
            1
        } else {
            0
        }
    };
    assert(heads == head(path@).len());
    assert(count == total);
    let mut n: usize = if count >= heads {
        count - heads
    } else {
        0
    };
    let ghost skip = (total - head(path@).len()) as nat;
    assert(n == skip);
    let mut from: usize = 0;
    assert(all.skip(0) =~= all);
    while from < parts.len() && n > 0
        invariant
            from <= parts@.len(),
            all == texts(parts@),
            after_components(all, skip) == after_components(all.skip(from as int), n as nat),
        decreases parts.len() - from,
    {
        proof {
            assert(all.skip(from as int)[0] == all[from as int]);
            assert(all.skip(from as int).drop_first() =~= all.skip(from + 1));
        }
        if is_part(parts[from].as_str()) {
            n = n - 1;
        }
        from = from + 1;
    }
    let ghost rest = after_components(all, skip);
    assert(rest == all.skip(from as int));
    while from < parts.len() && !is_part(parts[from].as_str())
        invariant
            from <= parts@.len(),
            all == texts(parts@),
            from_component(rest) == from_component(all.skip(from as int)),
        decreases parts.len() - from,
    {
        proof {
            assert(all.skip(from as int)[0] == all[from as int]);
            assert(all.skip(from as int).drop_first() =~= all.skip(from + 1));
        }
        from = from + 1;
    }
    proof {
        if from < parts@.len() {
            assert(all.skip(from as int)[0] == all[from as int]);
        }
    }
    let ghost kept = from_component(rest);
    assert(kept == all.skip(from as int));
    let mut to: usize = parts.len();
    assert(all.subrange(from as int, to as int) =~= kept);
    while to > from && !is_part(parts[to - 1].as_str())
        invariant
            from <= to <= parts@.len(),
            all == texts(parts@),
            to_component(kept) == to_component(all.subrange(from as int, to as int)),
        decreases to,
    {
        proof {
            let s = all.subrange(from as int, to as int);
            assert(s.last() == all[to - 1]);
            assert(s.drop_last() =~= all.subrange(from as int, to - 1));
        }
        to = to - 1;
    }
    let ghost last = all.subrange(from as int, to as int);
    proof {
        if to > from {
            assert(last.last() == all[to - 1]);
        }
        assert(to_component(kept) == last);
    }
    let mut out: Vec<String> = Vec::new();
    let mut i: usize = from;
    assert(texts(out@) =~= all.subrange(from as int, from as int));
    while i < to
        invariant
            from <= i <= to <= parts@.len(),
            all == texts(parts@),
            texts(out@) == all.subrange(from as int, i as int),
        decreases to - i,
    {
        let ghost before = texts(out@);
        out.push(parts[i].clone());
        proof {
            assert(texts(out@) =~= before.push(all[i as int]));
            assert(all.subrange(from as int, i + 1) =~= before.push(all[i as int]));
        }
        i = i + 1;
    }
    joined(&out, "/")
}

fn is_part(piece: &str) -> (r: bool)
    ensures
        r == is_component(piece@),
{
    chars_of(piece).len() > 0 && !same(piece, ".")
}

} // verus!
