//! What the steps of linking are for: carrying them out makes the links that are desired.

use crate::link::{
    ensured, is_wanted, link_steps, same_place, state_in, with_link, LinkState, Standing, Step,
};
use crate::path::path_eq;
use crate::sorted::SortedMap;
use vstd::prelude::*;

verus! {

/// A folder's contents once a step has been carried out.
pub open spec fn after_step(m: Map<Seq<char>, Standing>, s: Step) -> Map<Seq<char>, Standing> {
    match s {
        Step::Create(name, target) => m.insert(name, Standing::Link(Some(target))),
        Step::Remove(name) => m.remove(name),
    }
}

/// A folder's contents once some steps have been carried out, one after the other.
pub open spec fn after_steps(m: Map<Seq<char>, Standing>, steps: Seq<Step>) -> Map<
    Seq<char>,
    Standing,
>
    decreases steps.len(),
{
    if steps.len() == 0 {
        m
    } else {
        after_step(after_steps(m, steps.drop_last()), steps.last())
    }
}

proof fn lemma_after_concat(m: Map<Seq<char>, Standing>, a: Seq<Step>, b: Seq<Step>)
    ensures
        after_steps(m, a + b) == after_steps(after_steps(m, a), b),
    decreases b.len(),
{
    if b.len() == 0 {
        assert(a + b =~= a);
    } else {
        lemma_after_concat(m, a, b.drop_last());
        assert((a + b).drop_last() =~= a + b.drop_last());
        assert((a + b).last() == b.last());
    }
}

proof fn lemma_link_steps(
    m: Map<Seq<char>, Standing>,
    canonical: SortedMap<String>,
    name: Seq<char>,
    target: Seq<char>,
)
    ensures
        after_steps(m, link_steps(m, canonical, name, target)) == with_link(
            m,
            canonical,
            name,
            target,
        ),
{
    let none = Seq::<Step>::empty();
    assert(after_steps(m, none) == m);
    let steps = link_steps(m, canonical, name, target);
    let create = Step::Create(name, target);
    match state_in(m, canonical, name, target) {
        LinkState::Missing => {
            assert(steps.drop_last() =~= none);
            assert(steps.last() == create);
        },
        LinkState::Mismatched => {
            let first = seq![Step::Remove(name)];
            assert(steps.drop_last() =~= first);
            assert(first.drop_last() =~= none);
            assert(after_steps(m, first) == m.remove(name));
            assert(m.remove(name).insert(name, Standing::Link(Some(target))) =~= m.insert(
                name,
                Standing::Link(Some(target)),
            ));
        },
        _ => {},
    }
}

/// Whether two folders have the same under a name.
pub open spec fn alike_at(
    a: Map<Seq<char>, Standing>,
    b: Map<Seq<char>, Standing>,
    name: Seq<char>,
) -> bool {
    a.dom().contains(name) == b.dom().contains(name) && (a.dom().contains(name) ==> a[name]
        == b[name])
}

/// Carrying out the steps gives the contents that are reckoned with, and only the names of
/// desired links are touched.
pub proof fn steps_make_the_links(
    m: Map<Seq<char>, Standing>,
    canonical: SortedMap<String>,
    links: Seq<(Seq<char>, Seq<char>)>,
)
    ensures
        after_steps(m, ensured(m, canonical, links).steps) == ensured(m, canonical, links).contents,
        forall|n: Seq<char>|
            !is_wanted(links, n) ==> #[trigger] alike_at(m, ensured(m, canonical, links).contents, n),
    decreases links.len(),
{
    if links.len() > 0 {
        let rest = links.drop_last();
        steps_make_the_links(m, canonical, rest);
        let before = ensured(m, canonical, rest);
        let (name, target) = links.last();
        if before.stuck is None && state_in(before.contents, canonical, name, target)
            != LinkState::Occupied {
            lemma_link_steps(before.contents, canonical, name, target);
            lemma_after_concat(
                m,
                before.steps,
                link_steps(before.contents, canonical, name, target),
            );
        }
        let now = ensured(m, canonical, links).contents;
        assert forall|n: Seq<char>| !is_wanted(links, n) implies #[trigger] alike_at(m, now, n) by {
            if is_wanted(rest, n) {
                let i = choose|i: int| 0 <= i < rest.len() && (#[trigger] rest[i]).0 == n;
                assert(links[i].0 == n);
            }
            assert(alike_at(m, before.contents, n));
            if name == n {
                assert(links[links.len() - 1].0 == n);
            }
        }
    }
}

/// A link is there where it leads to the place of its target; it is to be made where nothing
/// stands, and made anew where a link leads elsewhere; and whatever else stands there is left.
pub proof fn links_stand_as_they_lead(
    m: Map<Seq<char>, Standing>,
    canonical: SortedMap<String>,
    name: Seq<char>,
    target: Seq<char>,
)
    ensures
        !m.dom().contains(name) ==> state_in(m, canonical, name, target) == LinkState::Missing,
        m.dom().contains(name) && m[name] is Real ==> state_in(m, canonical, name, target)
            == LinkState::Occupied,
        m.dom().contains(name) && m[name] == Standing::Link(Some(target)) ==> state_in(
            m,
            canonical,
            name,
            target,
        ) == LinkState::Linked,
        forall|t: Seq<char>|
            m.dom().contains(name) && m[name] == Standing::Link(Some(t)) && !same_place(
                canonical,
                t,
                target,
            ) ==> #[trigger] state_in(m.insert(name, Standing::Link(Some(t))), canonical, name, target)
                == LinkState::Mismatched,
        same_place(canonical, name, target) == same_place(canonical, target, name),
        canonical.lookup(name) is None ==> same_place(canonical, name, target) == path_eq(
            name,
            target,
        ),
{
}

} // verus!
