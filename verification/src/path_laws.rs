//! What the functions on paths are for: the components of a path that was put together, and
//! what its last one is called.

use crate::path::{
    beyond, components, components_lt, extension_of, head, is_component, is_name, is_under,
    joined_path, name_of, path_eq, proper,
};
use crate::text::{
    index_of, join, lemma_index_of, lemma_join_split, lemma_split_nonempty, split, text_lt,
};
use crate::text_laws::{lemma_index_behind, lemma_last_index_before, lemma_no_last_index};
use vstd::prelude::*;

verus! {

/// Whether some texts are components that a path can be made of.
pub open spec fn are_components(names: Seq<Seq<char>>) -> bool {
    forall|k: int|
        0 <= k < names.len() ==> (#[trigger] names[k]).len() > 0 && names[k] != "."@
            && !names[k].contains('/')
}

pub proof fn lemma_split_concat(a: Seq<char>, c: char, b: Seq<char>)
    ensures
        split(a + seq![c] + b, c) == split(a, c) + split(b, c),
    decreases a.len(),
{
    let s = a + seq![c] + b;
    lemma_index_of(a, c);
    let i = index_of(a, c);
    if i < a.len() {
        let front = a.take(i);
        let rest = a.skip(i + 1);
        assert(!front.contains(c));
        lemma_index_behind(front, c, rest + seq![c] + b);
        assert(s =~= front + seq![c] + (rest + seq![c] + b));
        lemma_split_concat(rest, c, b);
        assert(s.take(i) =~= front);
        assert(s.skip(i + 1) =~= rest + seq![c] + b);
        assert(seq![front] + (split(rest, c) + split(b, c)) =~= (seq![front] + split(rest, c))
            + split(b, c));
    } else {
        if a.contains(c) {
            let j = choose|j: int| 0 <= j < a.len() && a[j] == c;
            assert(a[j] == c);
        }
        lemma_index_behind(a, c, b);
        assert(s.take(a.len() as int) =~= a);
        assert(s.skip(a.len() as int + 1) =~= b);
    }
}

pub proof fn lemma_proper_concat(a: Seq<Seq<char>>, b: Seq<Seq<char>>)
    ensures
        proper(a + b) == proper(a) + proper(b),
    decreases b.len(),
{
    if b.len() == 0 {
        assert(a + b =~= a);
        assert(proper(a) + proper(b) =~= proper(a));
    } else {
        assert((a + b).drop_last() =~= a + b.drop_last());
        assert((a + b).last() == b.last());
        lemma_proper_concat(a, b.drop_last());
        if is_component(b.last()) {
            assert((proper(a) + proper(b.drop_last())).push(b.last()) =~= proper(a) + proper(b));
        }
    }
}

proof fn lemma_not_proper(piece: Seq<char>)
    requires
        !is_component(piece),
    ensures
        proper(seq![piece]) == Seq::<Seq<char>>::empty(),
{
    assert(seq![piece].drop_last() =~= Seq::<Seq<char>>::empty());
    assert(seq![piece].last() == piece);
    assert(proper(Seq::<Seq<char>>::empty()) =~= Seq::<Seq<char>>::empty());
}

proof fn lemma_proper_names(names: Seq<Seq<char>>)
    requires
        are_components(names),
    ensures
        proper(names) == names,
    decreases names.len(),
{
    if names.len() > 0 {
        let rest = names.drop_last();
        assert forall|k: int| 0 <= k < rest.len() implies (#[trigger] rest[k]).len() > 0
            && rest[k] != "."@ && !rest[k].contains('/') by {
            assert(rest[k] == names[k]);
        }
        lemma_proper_names(rest);
        assert(names.last() == names[names.len() - 1]);
        assert(rest.push(names.last()) =~= names);
    }
}

/// A path put together of another and of components behind it has the components of the other
/// and those, in their order.
pub proof fn paths_have_the_components_they_are_made_of(base: Seq<char>, names: Seq<Seq<char>>)
    requires
        base.len() > 0,
        names.len() > 0,
        are_components(names),
    ensures
        components(base + seq!['/'] + join(names, seq!['/'])) == components(base) + names,
        components(seq!['/'] + join(names, seq!['/'])) == seq!["/"@] + names,
        components(join(names, seq!['/'])) == names,
{
    let rest = join(names, seq!['/']);
    lemma_join_split(names, '/');
    lemma_proper_names(names);
    let path = base + seq!['/'] + rest;
    lemma_split_concat(base, '/', rest);
    lemma_proper_concat(split(base, '/'), names);
    lemma_split_nonempty(base, '/');
    assert(path[0] == base[0]);
    assert(split(path, '/')[0] == split(base, '/')[0]);
    assert(head(path) == head(base));
    assert(components(path) =~= components(base) + names);
    let e = Seq::<char>::empty();
    let rooted = seq!['/'] + rest;
    lemma_split_concat(e, '/', rest);
    assert(e + seq!['/'] + rest =~= rooted);
    assert(split(e, '/') =~= seq![e]);
    lemma_proper_concat(seq![e], names);
    lemma_not_proper(e);
    assert(rooted[0] == '/');
    assert(components(rooted) =~= seq!["/"@] + names);
    assert(names[0].len() > 0 && names[0] != "."@);
    assert(rest[0] == names[0][0]) by {
        if names.len() > 1 {
            assert(rest == names[0] + seq!['/'] + join(names.drop_first(), seq!['/']));
        }
    }
    assert(rest[0] != '/') by {
        if names[0][0] == '/' {
            assert(names[0].contains('/'));
        }
    }
    assert(components(rest) =~= names);
}

/// A path that is joined to a directory lies under it, and goes beyond it by what was joined; a
/// rooted one stands for itself.
pub proof fn joined_paths_lie_under_their_base(
    base: Seq<char>,
    names: Seq<Seq<char>>,
    rooted: Seq<char>,
)
    requires
        base.len() > 0,
        names.len() > 0,
        are_components(names),
        rooted.len() > 0 && rooted[0] == '/',
    ensures
        ({
            let path = joined_path(base, join(names, seq!['/']));
            &&& components(path) == components(base) + names
            &&& is_under(path, base)
            &&& beyond(path, base) == names
        }),
        joined_path(base, rooted) == rooted,
        is_under(base, base),
        beyond(base, base).len() == 0,
{
    let rest = join(names, seq!['/']);
    paths_have_the_components_they_are_made_of(base, names);
    assert(rest.len() > 0 && rest[0] != '/') by {
        assert(names[0].len() > 0);
        if names.len() > 1 {
            assert(rest == names[0] + seq!['/'] + join(names.drop_first(), seq!['/']));
        }
        assert(rest[0] == names[0][0]);
        if names[0][0] == '/' {
            assert(names[0].contains('/'));
        }
    }
    let path = joined_path(base, rest);
    if base.last() == '/' {
        lemma_slash_at_the_end(base.drop_last(), rest);
        assert(base =~= base.drop_last().push('/'));
        assert(path =~= base.drop_last() + seq!['/'] + rest);
        lemma_join_split(names, '/');
        lemma_proper_names(names);
        assert(components(path) =~= components(base) + names);
    } else {
        assert(path =~= base + seq!['/'] + rest);
    }
    assert(components(base) =~= components(path).subrange(0, components(base).len() as int));
    assert(components(path).skip(components(base).len() as int) =~= names);
    assert(components(base) =~= components(base).subrange(0, components(base).len() as int));
}

proof fn lemma_slash_at_the_end(a: Seq<char>, rest: Seq<char>)
    ensures
        components(a + seq!['/'] + rest) == components(a.push('/')) + proper(split(rest, '/')),
{
    let e = Seq::<char>::empty();
    let s = a + seq!['/'] + rest;
    let d = a.push('/');
    lemma_split_concat(a, '/', rest);
    lemma_split_concat(a, '/', e);
    assert(a + seq!['/'] + e =~= d);
    assert(split(e, '/') =~= seq![e]);
    lemma_proper_concat(split(a, '/'), split(rest, '/'));
    lemma_proper_concat(split(a, '/'), seq![e]);
    lemma_not_proper(e);
    assert(proper(split(d, '/')) =~= proper(split(a, '/')));
    lemma_split_nonempty(a, '/');
    assert(s[0] == d[0]);
    assert(split(s, '/')[0] == split(a, '/')[0]);
    assert(split(d, '/')[0] == split(a, '/')[0]);
    assert(head(s) == head(d));
    assert(components(s) =~= components(d) + proper(split(rest, '/')));
}

/// Slashes that are doubled or stand at the end, and `.` between slashes, do not change a path.
pub proof fn spellings_of_a_path_are_one(a: Seq<char>, b: Seq<char>)
    requires
        a.len() > 0,
    ensures
        path_eq(a + seq!['/'] + (seq!['/'] + b), a + seq!['/'] + b),
        path_eq(a + seq!['/'] + ("./"@ + b), a + seq!['/'] + b),
        path_eq(a.push('/'), a),
{
    reveal_strlit("./");
    reveal_strlit(".");
    let e = Seq::<char>::empty();
    let plain = a + seq!['/'] + b;
    let doubled = a + seq!['/'] + (seq!['/'] + b);
    let dotted = a + seq!['/'] + ("./"@ + b);
    lemma_split_concat(a, '/', b);
    lemma_split_concat(a, '/', seq!['/'] + b);
    lemma_split_concat(a, '/', "./"@ + b);
    lemma_split_concat(e, '/', b);
    assert(e + seq!['/'] + b =~= seq!['/'] + b);
    lemma_split_concat("."@, '/', b);
    assert("."@ + seq!['/'] + b =~= "./"@ + b);
    assert(split(e, '/') =~= seq![e]);
    assert(!"."@.contains('/'));
    lemma_index_of("."@, '/');
    if index_of("."@, '/') < "."@.len() {
        assert("."@[index_of("."@, '/')] == '/');
    }
    assert(split("."@, '/') =~= seq!["."@]);
    lemma_proper_concat(split(a, '/'), split(b, '/'));
    lemma_proper_concat(split(a, '/'), seq![e] + split(b, '/'));
    lemma_proper_concat(seq![e], split(b, '/'));
    lemma_proper_concat(split(a, '/'), seq!["."@] + split(b, '/'));
    lemma_proper_concat(seq!["."@], split(b, '/'));
    lemma_not_proper(e);
    lemma_not_proper("."@);
    assert(proper(split(doubled, '/')) =~= proper(split(plain, '/')));
    assert(proper(split(dotted, '/')) =~= proper(split(plain, '/')));
    lemma_split_nonempty(a, '/');
    assert(split(doubled, '/')[0] == split(a, '/')[0]);
    assert(split(dotted, '/')[0] == split(a, '/')[0]);
    assert(split(plain, '/')[0] == split(a, '/')[0]);
    assert(doubled[0] == a[0] && dotted[0] == a[0] && plain[0] == a[0]);
    lemma_slash_at_the_end(a, e);
    assert(a + seq!['/'] + e =~= a.push('/'));
    lemma_split_concat(a, '/', e);
    lemma_proper_concat(split(a, '/'), seq![e]);
    assert(split(a.push('/'), '/')[0] == split(a, '/')[0]);
    assert(a.push('/')[0] == a[0]);
    assert(components(a.push('/')) =~= components(a));
}

/// The name of a path is its last component, and its extension is what stands behind the last
/// dot of the name, unless that dot begins it.
pub proof fn paths_are_called_by_their_last_component(
    base: Seq<char>,
    stem: Seq<char>,
    ext: Seq<char>,
    name: Seq<char>,
)
    requires
        base.len() > 0,
        stem.len() > 0,
        !stem.contains('/'),
        !ext.contains('/'),
        !ext.contains('.'),
        stem + seq!['.'] + ext != ".."@,
        name.len() > 0,
        !name.contains('/'),
        !name.contains('.'),
    ensures
        name_of(base + seq!['/'] + (stem + seq!['.'] + ext)) == Some(stem + seq!['.'] + ext),
        extension_of(base + seq!['/'] + (stem + seq!['.'] + ext)) == Some(ext),
        name_of(base + seq!['/'] + name) == Some(name),
        extension_of(base + seq!['/'] + name) is None,
        extension_of(base + seq!['/'] + (seq!['.'] + name)) is None,
{
    reveal_strlit(".");
    reveal_strlit("..");
    reveal_strlit("/");
    let full = stem + seq!['.'] + ext;
    assert(!full.contains('/')) by {
        if full.contains('/') {
            let i = choose|i: int| 0 <= i < full.len() && full[i] == '/';
            if i < stem.len() {
                assert(stem[i] == '/');
            } else {
                assert(ext[i - stem.len() - 1] == '/');
            }
        }
    }
    assert(full.len() >= 2);
    lemma_named(base, full);
    lemma_last_index_before(stem, '.', ext);
    assert(full.skip(stem.len() as int + 1) =~= ext);
    assert(name[0] != '/' && name[0] != '.') by {
        assert(name.contains(name[0]));
    }
    lemma_named(base, name);
    lemma_no_last_index(name, '.');
    let hidden = seq!['.'] + name;
    assert(!hidden.contains('/')) by {
        if hidden.contains('/') {
            let i = choose|i: int| 0 <= i < hidden.len() && hidden[i] == '/';
            assert(name[i - 1] == '/');
        }
    }
    assert(hidden[1] == name[0]);
    lemma_named(base, hidden);
    let e = Seq::<char>::empty();
    lemma_last_index_before(e, '.', name);
    assert(e + seq!['.'] + name =~= hidden);
}

proof fn lemma_named(base: Seq<char>, name: Seq<char>)
    requires
        base.len() > 0,
        name.len() > 0,
        !name.contains('/'),
        name != "."@,
        name != ".."@,
    ensures
        name_of(base + seq!['/'] + name) == Some(name),
{
    reveal_strlit("/");
    let names = seq![name];
    assert(join(names, seq!['/']) == name);
    paths_have_the_components_they_are_made_of(base, names);
    assert((components(base) + names).last() == name);
    if name == "/"@ {
        assert(name.contains('/')) by {
            assert(name[0] == '/');
        }
    }
}

/// Paths are in the order of the first component in which they differ, names by their letters,
/// and a path comes before all that lies below it.
pub proof fn paths_are_ordered_by_their_components(
    front: Seq<Seq<char>>,
    a: Seq<char>,
    b: Seq<char>,
    x: Seq<Seq<char>>,
    y: Seq<Seq<char>>,
)
    requires
        is_name(a),
        is_name(b),
        a != b,
    ensures
        components_lt(front + (seq![a] + x), front + (seq![b] + y)) == text_lt(a, b),
        components_lt(front, front + (seq![a] + x)),
        !components_lt(front + (seq![a] + x), front),
    decreases front.len(),
{
    let s = seq![a] + x;
    let t = seq![b] + y;
    if front.len() == 0 {
        assert(front + s =~= s);
        assert(front + t =~= t);
        assert(s[0] == a && t[0] == b);
    } else {
        paths_are_ordered_by_their_components(front.drop_first(), a, b, x, y);
        assert((front + s).drop_first() =~= front.drop_first() + s);
        assert((front + t).drop_first() =~= front.drop_first() + t);
        assert((front + s)[0] == front[0] && (front + t)[0] == front[0]);
    }
}

/// Texts are in the order of the first letter in which they differ, and a text comes before all
/// longer ones that begin with it.
pub proof fn texts_are_ordered_by_their_letters(
    front: Seq<char>,
    a: char,
    b: char,
    x: Seq<char>,
    y: Seq<char>,
)
    requires
        a != b,
    ensures
        text_lt(front + (seq![a] + x), front + (seq![b] + y)) == (a < b),
        text_lt(front, front + (seq![a] + x)),
    decreases front.len(),
{
    let s = seq![a] + x;
    let t = seq![b] + y;
    if front.len() == 0 {
        assert(front + s =~= s);
        assert(front + t =~= t);
        assert(s[0] == a && t[0] == b);
    } else {
        texts_are_ordered_by_their_letters(front.drop_first(), a, b, x, y);
        assert((front + s).drop_first() =~= front.drop_first() + s);
        assert((front + t).drop_first() =~= front.drop_first() + t);
        assert((front + s)[0] == front[0] && (front + t)[0] == front[0]);
    }
}

} // verus!
