//! What preparing AsciiDoc is for: the title, the attributes and the tags of a header are those
//! of the frontmatter, whole.

use crate::frontmatter::{after_open, document};
use crate::ingest::{
    attribute, attributes, doctitle, first_doctitle, from_header, has_white, header_lines, lifted,
    lifted_from, names_tags, prepared, tag_list, text_items, until_blank,
};
use crate::path::same_ignoring_case;
use crate::text::{
    index_of, is_white, join, lemma_join_split, lines, split, starts, trim_white, without_return,
    CharSet,
};
use crate::text_laws::{
    bare, blank, lemma_bare_is_trimmed, lemma_index_behind, lemma_last_index_before,
    lines_begin_with_the_first, trimming_takes_off,
};
use crate::yaml::{emitted, lemma_with_value, value_of, Yaml};
use vstd::prelude::*;

verus! {

// -------------------------------------------------------------------------------- lines

/// A document title gives all of its text, without the white space around it; a deeper heading
/// gives none.
pub proof fn doctitles_give_their_text(gap: Seq<char>, t: Seq<char>, tail: Seq<char>)
    requires
        blank(gap),
        bare(t),
        blank(tail),
    ensures
        doctitle("= "@ + gap + t + tail) == Some(t),
        doctitle("= "@ + t) == Some(t),
        doctitle("=="@ + t) is None,
{
    reveal_strlit("= ");
    reveal_strlit("==");
    let line = "= "@ + gap + t + tail;
    assert(line.subrange(0, 2) =~= "= "@);
    assert(line.skip(2) =~= gap + t + tail);
    trimming_takes_off(gap, t, tail, CharSet::White);
    let plain = "= "@ + t;
    assert(plain.subrange(0, 2) =~= "= "@);
    assert(plain.skip(2) =~= t);
    lemma_bare_is_trimmed(t);
    let deep = "=="@ + t;
    if starts(deep, "= "@) {
        assert(deep.subrange(0, 2)[1] == deep[1]);
    }
}

/// Whether a text can be the name of an attribute that is set.
pub open spec fn is_attribute_name(name: Seq<char>) -> bool {
    &&& name.len() > 0
    &&& !name.contains(':')
    &&& name[0] != '!'
    &&& name.last() != '!'
    &&& forall|i: int| 0 <= i < name.len() ==> !is_white(#[trigger] name[i])
}

/// A line `:name: value` sets the attribute to the value, all of it, without the white space
/// around it.
pub proof fn attribute_lines_give_their_value(
    name: Seq<char>,
    gap: Seq<char>,
    value: Seq<char>,
    tail: Seq<char>,
)
    requires
        is_attribute_name(name),
        blank(gap),
        value.len() > 0 ==> bare(value),
        blank(tail),
    ensures
        attribute(":"@ + name + ":"@ + gap + value + tail) == Some((name, value)),
{
    reveal_strlit(":");
    let line = ":"@ + name + ":"@ + gap + value + tail;
    let rest = line.skip(1);
    assert(":"@ =~= seq![':']);
    assert(rest =~= name + seq![':'] + (gap + value + tail));
    lemma_index_behind(name, ':', gap + value + tail);
    assert(rest.take(name.len() as int) =~= name);
    assert(rest.skip(name.len() as int + 1) =~= gap + value + tail);
    trimming_takes_off(gap, value, tail, CharSet::White);
    assert(!has_white(name));
}

/// A line that unsets an attribute sets none, nor does a line that does not begin with a colon or
/// has no second one.
pub proof fn other_lines_set_nothing(name: Seq<char>, rest: Seq<char>, line: Seq<char>)
    requires
        !name.contains(':'),
        line.len() == 0 || line[0] != ':',
    ensures
        attribute(":!"@ + name + ":"@ + rest) is None,
        attribute(":"@ + name + "!:"@ + rest) is None,
        attribute(":"@ + name) is None,
        attribute(line) is None,
{
    reveal_strlit(":!");
    reveal_strlit(":");
    reveal_strlit("!:");
    let unset = ":!"@ + name + ":"@ + rest;
    let bang = seq!['!'] + name;
    assert(!bang.contains(':')) by {
        if bang.contains(':') {
            let i = choose|i: int| 0 <= i < bang.len() && bang[i] == ':';
            assert(name[i - 1] == ':');
        }
    }
    lemma_index_behind(bang, ':', rest);
    assert(unset.skip(1) =~= bang + seq![':'] + rest);
    assert(unset.skip(1).take(bang.len() as int) =~= bang);
    let late = ":"@ + name + "!:"@ + rest;
    let banged = name.push('!');
    assert(!banged.contains(':')) by {
        if banged.contains(':') {
            let i = choose|i: int| 0 <= i < banged.len() && banged[i] == ':';
            if i < name.len() {
                assert(name[i] == ':');
            }
        }
    }
    lemma_index_behind(banged, ':', rest);
    assert(late.skip(1) =~= banged + seq![':'] + rest);
    assert(late.skip(1).take(banged.len() as int) =~= banged);
    let open = ":"@ + name;
    assert(open.skip(1) =~= name);
    crate::text::lemma_index_of(name, ':');
    if index_of(name, ':') < name.len() {
        assert(name.contains(name[index_of(name, ':')]));
    }
}

// ------------------------------------------------------------------------------- header

/// Whether a line stands before the header: it is blank or a comment.
pub open spec fn before_header(line: Seq<char>) -> bool {
    trim_white(line).len() == 0 || starts(trim_white(line), "//"@)
}

/// The header goes from the first line that is neither blank nor a comment to the next blank one:
/// all of its lines, trimmed.
pub proof fn the_header_ends_at_a_blank_line(
    raw: Seq<char>,
    before: Seq<Seq<char>>,
    header: Seq<Seq<char>>,
    rest: Seq<Seq<char>>,
)
    requires
        lines(raw) == before + header + rest,
        forall|i: int| 0 <= i < before.len() ==> before_header(#[trigger] before[i]),
        header.len() > 0,
        !before_header(header[0]),
        forall|i: int| 0 <= i < header.len() ==> trim_white(#[trigger] header[i]).len() > 0,
        rest.len() > 0 ==> trim_white(rest[0]).len() == 0,
    ensures
        header_lines(raw) == Seq::new(header.len(), |i: int| trim_white(header[i])),
{
    lemma_from_header(before, header + rest);
    assert(before + header + rest =~= before + (header + rest));
    assert((header + rest)[0] == header[0]);
    lemma_until_blank(header, rest);
}

proof fn lemma_from_header(before: Seq<Seq<char>>, rest: Seq<Seq<char>>)
    requires
        forall|i: int| 0 <= i < before.len() ==> before_header(#[trigger] before[i]),
        rest.len() > 0,
        !before_header(rest[0]),
    ensures
        from_header(before + rest) == rest,
    decreases before.len(),
{
    if before.len() == 0 {
        assert(before + rest =~= rest);
    } else {
        assert(before_header(before[0]));
        assert((before + rest)[0] == before[0]);
        assert((before + rest).drop_first() =~= before.drop_first() + rest);
        let more = before.drop_first();
        assert forall|i: int| 0 <= i < more.len() implies before_header(#[trigger] more[i]) by {
            assert(more[i] == before[i + 1]);
        }
        lemma_from_header(more, rest);
    }
}

proof fn lemma_until_blank(header: Seq<Seq<char>>, rest: Seq<Seq<char>>)
    requires
        forall|i: int| 0 <= i < header.len() ==> trim_white(#[trigger] header[i]).len() > 0,
        rest.len() > 0 ==> trim_white(rest[0]).len() == 0,
    ensures
        until_blank(header + rest) == Seq::new(header.len(), |i: int| trim_white(header[i])),
    decreases header.len(),
{
    let all = header + rest;
    let want = Seq::new(header.len(), |i: int| trim_white(header[i]));
    if header.len() == 0 {
        assert(all =~= rest);
        assert(until_blank(all) =~= want);
    } else {
        assert(all[0] == header[0]);
        let more = header.drop_first();
        assert(all.drop_first() =~= more + rest);
        assert forall|i: int| 0 <= i < more.len() implies trim_white(#[trigger] more[i]).len()
            > 0 by {
            assert(more[i] == header[i + 1]);
        }
        lemma_until_blank(more, rest);
        assert(until_blank(all) =~= want);
    }
}

/// The title is that of the first title line, and every line that sets an attribute counts, in
/// order.
pub proof fn header_lines_are_all_read(ls: Seq<Seq<char>>, k: int)
    requires
        0 <= k < ls.len(),
    ensures
        doctitle(ls[k]) is Some && (forall|j: int|
            0 <= j < k ==> doctitle(#[trigger] ls[j]) is None) ==> first_doctitle(ls) == doctitle(
            ls[k],
        ),
        (forall|j: int| 0 <= j < ls.len() ==> doctitle(#[trigger] ls[j]) is None)
            ==> first_doctitle(ls) is None,
        attributes(ls) == attributes(ls.take(k)) + (match attribute(ls[k]) {
            Some(a) => seq![a],
            None => Seq::empty(),
        }) + attributes(ls.skip(k + 1)),
    decreases ls.len(),
{
    if doctitle(ls[k]) is Some && (forall|j: int| 0 <= j < k ==> doctitle(#[trigger] ls[j]) is None) {
        lemma_first_doctitle(ls, k);
    }
    if forall|j: int| 0 <= j < ls.len() ==> doctitle(#[trigger] ls[j]) is None {
        lemma_no_doctitle(ls);
    }
    let a = ls.take(k);
    let b = seq![ls[k]];
    let c = ls.skip(k + 1);
    assert(ls =~= a + (b + c));
    lemma_attributes_concat(a, b + c);
    lemma_attributes_concat(b, c);
    assert(b.drop_last() =~= Seq::empty());
    assert(attributes(b.drop_last()) =~= Seq::empty());
    assert(b.last() == ls[k]);
    let one = match attribute(ls[k]) {
        Some(x) => seq![x],
        None => Seq::empty(),
    };
    assert(attributes(b) =~= one);
    assert(attributes(a) + (one + attributes(c)) =~= attributes(a) + one + attributes(c));
}

proof fn lemma_attributes_concat(a: Seq<Seq<char>>, b: Seq<Seq<char>>)
    ensures
        attributes(a + b) == attributes(a) + attributes(b),
    decreases b.len(),
{
    if b.len() == 0 {
        assert(a + b =~= a);
        assert(attributes(a) + attributes(b) =~= attributes(a));
    } else {
        assert((a + b).drop_last() =~= a + b.drop_last());
        assert((a + b).last() == b.last());
        lemma_attributes_concat(a, b.drop_last());
        if let Some(x) = attribute(b.last()) {
            assert((attributes(a) + attributes(b.drop_last())).push(x) =~= attributes(a)
                + attributes(b));
        }
    }
}

proof fn lemma_first_doctitle(ls: Seq<Seq<char>>, k: int)
    requires
        0 <= k < ls.len(),
        doctitle(ls[k]) is Some,
        forall|j: int| 0 <= j < k ==> doctitle(#[trigger] ls[j]) is None,
    ensures
        first_doctitle(ls) == doctitle(ls[k]),
    decreases k,
{
    if k > 0 {
        assert(doctitle(ls[0]) is None);
        let rest = ls.drop_first();
        assert forall|j: int| 0 <= j < k - 1 implies doctitle(#[trigger] rest[j]) is None by {
            assert(rest[j] == ls[j + 1]);
        }
        lemma_first_doctitle(rest, k - 1);
    }
}

proof fn lemma_no_doctitle(ls: Seq<Seq<char>>)
    requires
        forall|j: int| 0 <= j < ls.len() ==> doctitle(#[trigger] ls[j]) is None,
    ensures
        first_doctitle(ls) is None,
    decreases ls.len(),
{
    if ls.len() > 0 {
        assert(doctitle(ls[0]) is None);
        let rest = ls.drop_first();
        assert forall|j: int| 0 <= j < rest.len() implies doctitle(#[trigger] rest[j]) is None by {
            assert(rest[j] == ls[j + 1]);
        }
        lemma_no_doctitle(rest);
    }
}

// -------------------------------------------------------------------------- frontmatter

/// The key that an attribute is lifted to.
pub open spec fn lifted_key(name: Seq<char>) -> Seq<char> {
    if names_tags(name) {
        "tags"@
    } else {
        name
    }
}

proof fn lemma_later(title: Seq<char>, attrs: Seq<(Seq<char>, Seq<char>)>, n: int, key: Seq<char>)
    requires
        0 <= n <= attrs.len(),
        forall|j: int|
            n <= j < attrs.len() ==> lifted_key((#[trigger] attrs[j]).0) != key,
    ensures
        value_of(lifted_from(title, attrs), Yaml::Text(key)) == value_of(
            lifted_from(title, attrs.take(n)),
            Yaml::Text(key),
        ),
    decreases attrs.len(),
{
    if n == attrs.len() {
        assert(attrs.take(n) =~= attrs);
    } else {
        let rest = attrs.drop_last();
        let last = attrs.last();
        assert(lifted_key(attrs[attrs.len() - 1].0) != key);
        assert forall|j: int| n <= j < rest.len() implies lifted_key((#[trigger] rest[j]).0)
            != key by {
            assert(rest[j] == attrs[j]);
        }
        lemma_later(title, rest, n, key);
        assert(rest.take(n) =~= attrs.take(n));
        let m = lifted_from(title, rest);
        if names_tags(last.0) {
            lemma_with_value(m, "tags"@, text_items(tag_list(split(last.1, ','))), key);
        } else {
            lemma_with_value(m, last.0, Yaml::Text(last.1), key);
        }
    }
}

/// An attribute that lists no tags is lifted under its name with its value, whole, where no later
/// one has the same name; and the title is the document's, where no attribute is called so.
pub proof fn attributes_are_lifted_whole(
    title: Seq<char>,
    attrs: Seq<(Seq<char>, Seq<char>)>,
    k: int,
)
    requires
        0 <= k < attrs.len(),
        !names_tags(attrs[k].0),
        forall|j: int| k < j < attrs.len() ==> (#[trigger] attrs[j]).0 != attrs[k].0,
    ensures
        value_of(lifted_from(title, attrs), Yaml::Text(attrs[k].0)) == Some(
            Yaml::Text(attrs[k].1),
        ),
{
    let key = attrs[k].0;
    let upto = attrs.take(k + 1);
    assert(!names_tags(key) ==> key != "tags"@) by {
        assert(same_ignoring_case("tags"@, "tags"@));
    }
    lemma_later(title, attrs, k + 1, key);
    assert(upto.drop_last() =~= attrs.take(k));
    assert(upto.last() == attrs[k]);
    lemma_with_value(lifted_from(title, attrs.take(k)), key, Yaml::Text(attrs[k].1), key);
}

/// The title of a document is lifted, where no attribute of that name takes its place.
pub proof fn the_title_is_lifted(title: Seq<char>, attrs: Seq<(Seq<char>, Seq<char>)>)
    requires
        forall|j: int| 0 <= j < attrs.len() ==> (#[trigger] attrs[j]).0 != "title"@,
    ensures
        value_of(lifted_from(title, attrs), Yaml::Text("title"@)) == Some(Yaml::Text(title)),
{
    reveal_strlit("title");
    reveal_strlit("tags");
    assert("title"@.len() == 5 && "tags"@.len() == 4);
    assert forall|j: int| 0 <= j < attrs.len() implies lifted_key((#[trigger] attrs[j]).0)
        != "title"@ by {}
    lemma_later(title, attrs, 0, "title"@);
    assert(attrs.take(0) =~= Seq::empty());
    lemma_with_value(Seq::empty(), "title"@, Yaml::Text(title), "title"@);
}

/// An attribute that lists tags is lifted as the list of all of them, in their order and each
/// without the white space around it, where no later one lists tags.
pub proof fn every_tag_is_lifted(
    title: Seq<char>,
    attrs: Seq<(Seq<char>, Seq<char>)>,
    k: int,
    tags: Seq<Seq<char>>,
    parts: Seq<Seq<char>>,
)
    requires
        0 <= k < attrs.len(),
        same_ignoring_case(attrs[k].0, "tags"@) || same_ignoring_case(attrs[k].0, "keywords"@),
        tags.len() > 0,
        parts.len() == tags.len(),
        forall|i: int| 0 <= i < tags.len() ==> bare(#[trigger] tags[i]),
        forall|i: int|
            0 <= i < parts.len() ==> trim_white(#[trigger] parts[i]) == tags[i] && !parts[i].contains(
                ',',
            ),
        attrs[k].1 == join(parts, seq![',']),
        forall|j: int| k < j < attrs.len() ==> !names_tags((#[trigger] attrs[j]).0),
    ensures
        value_of(lifted_from(title, attrs), Yaml::Text("tags"@)) == Some(
            Yaml::Sequence(Seq::new(tags.len(), |i: int| Yaml::Text(tags[i]))),
        ),
{
    let upto = attrs.take(k + 1);
    assert forall|j: int| k + 1 <= j < attrs.len() implies lifted_key((#[trigger] attrs[j]).0)
        != "tags"@ by {
        assert(same_ignoring_case("tags"@, "tags"@));
    }
    lemma_later(title, attrs, k + 1, "tags"@);
    assert(upto.drop_last() =~= attrs.take(k));
    assert(upto.last() == attrs[k]);
    lemma_join_split(parts, ',');
    lemma_tag_list(parts, tags);
    lemma_with_value(lifted_from(title, attrs.take(k)), "tags"@, text_items(tags), "tags"@);
    assert(tags.map_values(|t: Seq<char>| Yaml::Text(t)) =~= Seq::new(
        tags.len(),
        |i: int| Yaml::Text(tags[i]),
    ));
}

proof fn lemma_tag_list(parts: Seq<Seq<char>>, tags: Seq<Seq<char>>)
    requires
        parts.len() == tags.len(),
        forall|i: int| 0 <= i < tags.len() ==> bare(#[trigger] tags[i]),
        forall|i: int| 0 <= i < parts.len() ==> trim_white(#[trigger] parts[i]) == tags[i],
    ensures
        tag_list(parts) == tags,
    decreases parts.len(),
{
    if parts.len() > 0 {
        let ps = parts.drop_last();
        let ts = tags.drop_last();
        assert forall|i: int| 0 <= i < ts.len() implies bare(#[trigger] ts[i]) by {
            assert(ts[i] == tags[i]);
        }
        assert forall|i: int| 0 <= i < ps.len() implies trim_white(#[trigger] ps[i]) == ts[i] by {
            assert(ps[i] == parts[i]);
        }
        lemma_tag_list(ps, ts);
        let n = parts.len() - 1;
        assert(trim_white(parts[n]) == tags[n]);
        assert(bare(tags[n]));
        assert(ts.push(tags.last()) =~= tags);
    } else {
        assert(tag_list(parts) =~= tags);
    }
}

/// A document of a title line, one attribute and a body: its frontmatter has the title and the
/// value of the attribute, both whole, and the body is kept with all of it.
pub proof fn a_header_is_lifted(
    t: Seq<char>,
    name: Seq<char>,
    value: Seq<char>,
    body: Seq<char>,
    concept_id: Seq<char>,
)
    requires
        bare(t),
        !t.contains('\n'),
        is_attribute_name(name),
        !names_tags(name),
        name != "title"@,
        bare(value),
        !value.contains('\n'),
    ensures
        ({
            let raw = "= "@ + t + seq!['\n'] + (":"@ + name + ": "@ + value) + seq!['\n']
                + seq!['\n'] + body;
            let fm = lifted(raw, concept_id);
            &&& value_of(fm, Yaml::Text("title"@)) == Some(Yaml::Text(t))
            &&& value_of(fm, Yaml::Text(name)) == Some(Yaml::Text(value))
        }),
{
    reveal_strlit("= ");
    reveal_strlit(":");
    reveal_strlit(": ");
    reveal_strlit("//");
    let e = Seq::<char>::empty();
    let first = "= "@ + t;
    let second = ":"@ + name + ": "@ + value;
    let raw = first + seq!['\n'] + second + seq!['\n'] + seq!['\n'] + body;
    assert(raw =~= first + seq!['\n'] + (second + seq!['\n'] + (e + seq!['\n'] + body)));
    assert(!first.contains('\n')) by {
        if first.contains('\n') {
            let i = choose|i: int| 0 <= i < first.len() && first[i] == '\n';
            assert(t[i - 2] == '\n');
        }
    }
    assert(!second.contains('\n')) by {
        if second.contains('\n') {
            let i = choose|i: int| 0 <= i < second.len() && second[i] == '\n';
            if 1 <= i < 1 + name.len() {
                assert(name[i - 1] == '\n');
                assert(is_white('\n'));
            } else if i >= name.len() + 3 {
                assert(value[i - name.len() - 3] == '\n');
            }
        }
    }
    lines_begin_with_the_first(first, second + seq!['\n'] + (e + seq!['\n'] + body));
    lines_begin_with_the_first(second, e + seq!['\n'] + body);
    lines_begin_with_the_first(e, body);
    assert(first.last() == t.last() && second.last() == value.last());
    assert(without_return(first) == first);
    assert(without_return(second) == second);
    let header = seq![first, second];
    let rest = seq![e] + lines(body);
    let none = Seq::<Seq<char>>::empty();
    assert(lines(raw) =~= none + header + rest);
    lemma_bare_is_trimmed(first);
    lemma_bare_is_trimmed(second);
    lemma_bare_is_trimmed(e);
    if starts(first, "//"@) {
        assert(first.subrange(0, 2)[0] == '=');
    }
    assert(rest[0] == e);
    the_header_ends_at_a_blank_line(raw, none, header, rest);
    let h = header_lines(raw);
    assert(h =~= header);
    doctitles_give_their_text(e, t, e);
    let gap = seq![' '];
    attribute_lines_give_their_value(name, gap, value, e);
    assert(":"@ + name + ":"@ + gap + value + e =~= second);
    assert(attribute(first) is None) by {
        assert(first[0] == '=');
    }
    header_lines_are_all_read(h, 0);
    assert(h.take(0) =~= none);
    assert(h.skip(1) =~= seq![second]);
    header_lines_are_all_read(seq![second], 0);
    assert(seq![second].take(0) =~= none);
    assert(seq![second].skip(1) =~= none);
    assert(attributes(none) =~= Seq::empty());
    let attrs = attributes(h);
    assert(attrs =~= seq![(name, value)]);
    attributes_are_lifted_whole(t, attrs, 0);
    the_title_is_lifted(t, attrs);
}

/// A document without a title line is called by its file name, without the extension.
pub proof fn the_file_name_stands_in_for_the_title(
    raw: Seq<char>,
    dir: Seq<char>,
    name: Seq<char>,
    ext: Seq<char>,
)
    requires
        first_doctitle(header_lines(raw)) is None,
        forall|j: int|
            0 <= j < attributes(header_lines(raw)).len() ==> (#[trigger] attributes(
                header_lines(raw),
            )[j]).0 != "title"@,
        name.len() > 0,
        !name.contains('/'),
        !ext.contains('/'),
        !ext.contains('.'),
    ensures
        value_of(
            lifted(raw, dir + seq!['/'] + (name + seq!['.'] + ext)),
            Yaml::Text("title"@),
        ) == Some(Yaml::Text(name)),
{
    let full = name + seq!['.'] + ext;
    assert(!full.contains('/')) by {
        if full.contains('/') {
            let i = choose|i: int| 0 <= i < full.len() && full[i] == '/';
            if i < name.len() {
                assert(name[i] == '/');
            } else {
                assert(ext[i - name.len() - 1] == '/');
            }
        }
    }
    lemma_last_index_before(dir, '/', full);
    assert((dir + seq!['/'] + full).skip(dir.len() as int + 1) =~= full);
    lemma_last_index_before(name, '.', ext);
    assert(full.take(name.len() as int) =~= name);
    the_title_is_lifted(name, attributes(header_lines(raw)));
}

/// Markdown, and whatever is no AsciiDoc, is passed through; AsciiDoc is, where it has
/// frontmatter of its own, and else is given the lifted frontmatter with all of it behind.
pub proof fn only_bare_asciidoc_is_changed(
    extension: Seq<char>,
    raw: Seq<char>,
    concept_id: Seq<char>,
)
    ensures
        !same_ignoring_case(extension, "adoc"@) && !same_ignoring_case(extension, "asciidoc"@)
            ==> prepared(extension, raw, concept_id) == Some(raw),
        after_open(raw) is Some ==> prepared(extension, raw, concept_id) == Some(raw),
        (same_ignoring_case(extension, "adoc"@) || same_ignoring_case(extension, "asciidoc"@))
            && after_open(raw) is None ==> {
            match emitted(lifted(raw, concept_id)) {
                Some(text) => prepared(extension, raw, concept_id) == Some(
                    "---\n"@ + text + "---\n"@ + raw,
                ),
                None => prepared(extension, raw, concept_id) is None,
            }
        },
{
}

} // verus!
