//! What resetting a demo document leaves: every line but the markers.

use crate::demo::{kept, marks};
use crate::text::trim_white;
use vstd::prelude::*;

verus! {

/// Every line that is no marker stays, in its order, and no marker does.
pub proof fn other_lines_are_kept(a: Seq<Seq<char>>, b: Seq<Seq<char>>)
    ensures
        kept(a + b) == kept(a) + kept(b),
        forall|i: int|
            0 <= i < a.len() && !marks(trim_white(#[trigger] a[i])) ==> kept(a).contains(a[i]),
        forall|k: int|
            0 <= k < kept(a).len() ==> !marks(trim_white(#[trigger] kept(a)[k])) && a.contains(
                kept(a)[k],
            ),
    decreases a.len() + b.len(),
{
    if b.len() > 0 {
        other_lines_are_kept(a, b.drop_last());
        assert((a + b).drop_last() =~= a + b.drop_last());
        assert((a + b).last() == b.last());
        assert(kept(a + b) =~= kept(a) + kept(b));
    } else {
        assert(a + b =~= a);
        assert(kept(a) + kept(b) =~= kept(a));
        if a.len() > 0 {
            let rest = a.drop_last();
            other_lines_are_kept(rest, b);
            let before = kept(rest);
            let all = kept(a);
            assert forall|i: int|
                0 <= i < a.len() && !marks(trim_white(#[trigger] a[i])) implies all.contains(
                a[i],
            ) by {
                if i < rest.len() {
                    assert(rest[i] == a[i]);
                    let k = choose|k: int| 0 <= k < before.len() && before[k] == a[i];
                    assert(all[k] == a[i]);
                } else {
                    assert(all[before.len() as int] == a[i]);
                }
            }
            assert forall|k: int| 0 <= k < all.len() implies !marks(trim_white(#[trigger] all[k]))
                && a.contains(all[k]) by {
                if k < before.len() {
                    assert(all[k] == before[k]);
                    assert(rest.contains(before[k]));
                    let i = choose|i: int| 0 <= i < rest.len() && rest[i] == before[k];
                    assert(a[i] == all[k]);
                } else {
                    assert(a[a.len() - 1] == all[k]);
                }
            }
        }
    }
}

} // verus!
