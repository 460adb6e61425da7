//! A map kept in the order of its keys, which are texts or paths.

use crate::path::{
    components, components_lt, less_path, lemma_components_lt_irreflexive,
    lemma_components_lt_total, lemma_components_lt_transitive, paths_equal,
};
use crate::text::{
    less, lemma_text_lt_irreflexive, lemma_text_lt_total, lemma_text_lt_transitive, same, text_lt,
};
use vstd::prelude::*;

verus! {

/// How the keys of a map are compared.
#[derive(Debug, Clone, Copy, PartialEq, Eq, Structural)]
pub enum KeyOrder {
    /// As strings.
    Text,
    /// As paths, component by component.
    Path,
}

/// Whether two texts are one key.
pub open spec fn key_eq(order: KeyOrder, a: Seq<char>, b: Seq<char>) -> bool {
    match order {
        KeyOrder::Text => a == b,
        KeyOrder::Path => components(a) == components(b),
    }
}

/// Whether key `a` stands before key `b`.
pub open spec fn key_lt(order: KeyOrder, a: Seq<char>, b: Seq<char>) -> bool {
    match order {
        KeyOrder::Text => text_lt(a, b),
        KeyOrder::Path => components_lt(components(a), components(b)),
    }
}

/// Keys are in a total order: of two keys they are one, or one stands before the
/// other, and only that one.
pub proof fn lemma_key_order(order: KeyOrder, a: Seq<char>, b: Seq<char>)
    ensures
        key_eq(order, a, b) || key_lt(order, a, b) || key_lt(order, b, a),
        !(key_eq(order, a, b) && key_lt(order, a, b)),
        !(key_lt(order, a, b) && key_lt(order, b, a)),
{
    match order {
        KeyOrder::Text => {
            lemma_text_lt_total(a, b);
            lemma_text_lt_irreflexive(a);
            if text_lt(a, b) && text_lt(b, a) {
                lemma_text_lt_transitive(a, b, a);
            }
        },
        KeyOrder::Path => {
            let x = components(a);
            let y = components(b);
            lemma_components_lt_total(x, y);
            lemma_components_lt_irreflexive(x);
            if components_lt(x, y) && components_lt(y, x) {
                lemma_components_lt_transitive(x, y, x);
            }
        },
    }
}

pub proof fn lemma_key_lt_transitive(order: KeyOrder, a: Seq<char>, b: Seq<char>, c: Seq<char>)
    requires
        key_lt(order, a, b),
        key_lt(order, b, c),
    ensures
        key_lt(order, a, c),
{
    match order {
        KeyOrder::Text => lemma_text_lt_transitive(a, b, c),
        KeyOrder::Path => lemma_components_lt_transitive(
            components(a),
            components(b),
            components(c),
        ),
    }
}

fn same_key(order: KeyOrder, a: &str, b: &str) -> (r: bool)
    ensures
        r == key_eq(order, a@, b@),
{
    match order {
        KeyOrder::Text => same(a, b),
        KeyOrder::Path => paths_equal(a, b),
    }
}

fn less_key(order: KeyOrder, a: &str, b: &str) -> (r: bool)
    ensures
        r == key_lt(order, a@, b@),
{
    match order {
        KeyOrder::Text => less(a, b),
        KeyOrder::Path => less_path(a, b),
    }
}

/// A map from texts to values, its entries in the order of their keys.
#[derive(Debug, Clone, PartialEq, Eq)]
pub struct SortedMap<V> {
    pub order: KeyOrder,
    pub entries: Vec<(String, V)>,
}

impl<V> SortedMap<V> {
    /// Every key stands before the ones behind it, so no key occurs twice.
    pub open spec fn wf(&self) -> bool {
        forall|i: int, j: int|
            0 <= i < j < self.entries@.len() ==> key_lt(
                self.order,
                (#[trigger] self.entries@[i]).0@,
                (#[trigger] self.entries@[j]).0@,
            )
    }

    /// Whether entry `i` is the one of key `k`.
    pub open spec fn holds_at(&self, k: Seq<char>, i: int) -> bool {
        0 <= i < self.entries@.len() && key_eq(self.order, self.entries@[i].0@, k)
    }

    /// Whether the map has an entry for `k`.
    pub open spec fn has_key(&self, k: Seq<char>) -> bool {
        exists|i: int| self.holds_at(k, i)
    }

    /// The value of `k`.
    pub open spec fn lookup(&self, k: Seq<char>) -> Option<V> {
        if self.has_key(k) {
            Some(self.entries@[choose|i: int| self.holds_at(k, i)].1)
        } else {
            None
        }
    }

    /// A key has one entry.
    pub proof fn lemma_entry(&self, k: Seq<char>, i: int)
        requires
            self.wf(),
            self.holds_at(k, i),
        ensures
            self.lookup(k) == Some(self.entries@[i].1),
            forall|j: int| self.holds_at(k, j) ==> j == i,
    {
        assert forall|j: int| self.holds_at(k, j) implies j == i by {
            lemma_key_order(self.order, self.entries@[i].0@, self.entries@[j].0@);
            lemma_key_order(self.order, self.entries@[j].0@, self.entries@[i].0@);
        }
    }

    /// One key has one value, however it is spelled.
    pub proof fn lemma_same_key(&self, a: Seq<char>, b: Seq<char>)
        requires
            self.wf(),
            key_eq(self.order, a, b),
        ensures
            self.lookup(a) == self.lookup(b),
            self.has_key(a) == self.has_key(b),
    {
        if self.has_key(a) {
            let i = choose|i: int| self.holds_at(a, i);
            assert(self.holds_at(b, i));
            self.lemma_entry(a, i);
            self.lemma_entry(b, i);
        } else if self.has_key(b) {
            let i = choose|i: int| self.holds_at(b, i);
            assert(self.holds_at(a, i));
        }
    }

    pub fn new(order: KeyOrder) -> (r: Self)
        ensures
            r.wf(),
            r.order == order,
            r.entries@.len() == 0,
            forall|k: Seq<char>| r.lookup(k) is None,
    {
        SortedMap { order, entries: Vec::new() }
    }

    /// Where `k` is, or would go: the index of its entry, or of the first entry
    /// behind it.
    fn find(&self, k: &str) -> (r: (bool, usize))
        requires
            self.wf(),
        ensures
            r.0 ==> self.holds_at(k@, r.1 as int),
            !r.0 ==> r.1 <= self.entries@.len(),
            !r.0 ==> forall|i: int|
                0 <= i < r.1 ==> key_lt(self.order, (#[trigger] self.entries@[i]).0@, k@),
            !r.0 ==> forall|i: int|
                r.1 <= i < self.entries@.len() ==> key_lt(
                    self.order,
                    k@,
                    (#[trigger] self.entries@[i]).0@,
                ),
            r.0 == self.has_key(k@),
    {
        let mut lo: usize = 0;
        let mut hi: usize = self.entries.len();
        while lo < hi
            invariant
                self.wf(),
                lo <= hi <= self.entries@.len(),
                forall|i: int|
                    0 <= i < lo ==> key_lt(self.order, (#[trigger] self.entries@[i]).0@, k@),
                forall|i: int|
                    hi <= i < self.entries@.len() ==> key_lt(
                        self.order,
                        k@,
                        (#[trigger] self.entries@[i]).0@,
                    ),
            decreases hi - lo,
        {
            let mid: usize = lo + (hi - lo) / 2;
            let key = self.entries[mid].0.as_str();
            if same_key(self.order, key, k) {
                assert(self.holds_at(k@, mid as int));
                return (true, mid);
            }
            proof {
                lemma_key_order(self.order, key@, k@);
            }
            if less_key(self.order, key, k) {
                assert forall|i: int| 0 <= i < mid + 1 implies key_lt(
                    self.order,
                    (#[trigger] self.entries@[i]).0@,
                    k@,
                ) by {
                    if i < mid {
                        lemma_key_lt_transitive(
                            self.order,
                            self.entries@[i].0@,
                            self.entries@[mid as int].0@,
                            k@,
                        );
                    }
                }
                lo = mid + 1;
            } else {
                assert forall|i: int| mid <= i < self.entries@.len() implies key_lt(
                    self.order,
                    k@,
                    (#[trigger] self.entries@[i]).0@,
                ) by {
                    if i > mid {
                        lemma_key_lt_transitive(
                            self.order,
                            k@,
                            self.entries@[mid as int].0@,
                            self.entries@[i].0@,
                        );
                    }
                }
                hi = mid;
            }
        }
        proof {
            assert forall|i: int| !self.holds_at(k@, i) by {
                if 0 <= i < self.entries@.len() {
                    lemma_key_order(self.order, self.entries@[i].0@, k@);
                    lemma_key_order(self.order, k@, self.entries@[i].0@);
                }
            }
        }
        (false, lo)
    }

    /// Whether the map has an entry for `k`.
    pub fn contains_key(&self, k: &str) -> (r: bool)
        requires
            self.wf(),
        ensures
            r == self.has_key(k@),
            r == self.lookup(k@) is Some,
    {
        self.find(k).0
    }

    /// The value of `k`.
    pub fn get(&self, k: &str) -> (r: Option<&V>)
        requires
            self.wf(),
        ensures
            r is Some == self.lookup(k@) is Some,
            r matches Some(v) ==> self.lookup(k@) == Some(*v),
    {
        let (found, i) = self.find(k);
        if found {
            proof {
                self.lemma_entry(k@, i as int);
            }
            Some(&self.entries[i].1)
        } else {
            None
        }
    }

    /// Gives `k` the value `v`. A key that is there keeps its spelling.
    pub fn insert(&mut self, k: String, v: V)
        requires
            old(self).wf(),
        ensures
            final(self).wf(),
            final(self).order == old(self).order,
            forall|x: Seq<char>|
                #[trigger] final(self).lookup(x) == if key_eq(old(self).order, k@, x) {
                    Some(v)
                } else {
                    old(self).lookup(x)
                },
            final(self).entries@.len() == old(self).entries@.len() + if old(self).has_key(k@) {
                0int
            } else {
                1
            },
            forall|i: int|
                0 <= i < final(self).entries@.len() ==> (#[trigger] final(self).entries@[i]).0@
                    == k@ || exists|j: int|
                    0 <= j < old(self).entries@.len() && old(self).entries@[j].0@
                        == final(self).entries@[i].0@,
            old(self).has_key(k@) ==> forall|i: int|
                0 <= i < final(self).entries@.len() ==> (#[trigger] final(self).entries@[i]).0@
                    == old(self).entries@[i].0@,
            !old(self).has_key(k@) ==> exists|at: int|
                0 <= at <= old(self).entries@.len() && final(self).entries@ == #[trigger] old(
                    self,
                ).entries@.insert(at, (k, v)),
    {
        let ghost before = *self;
        let ghost (key, value) = (k, v);
        let (found, i) = self.find(k.as_str());
        if found {
            let key = self.entries[i].0.clone();
            self.entries[i] = (key, v);
            proof {
                let order = before.order;
                assert forall|x: Seq<char>| #[trigger] self.lookup(x) == if key_eq(order, k@, x) {
                    Some(v)
                } else {
                    before.lookup(x)
                } by {
                    assert forall|j: int| self.holds_at(x, j) == before.holds_at(x, j) by {}
                    if key_eq(order, k@, x) {
                        assert(self.holds_at(x, i as int));
                        self.lemma_entry(x, i as int);
                    } else if before.has_key(x) {
                        let j = choose|j: int| before.holds_at(x, j);
                        before.lemma_entry(x, j);
                        assert(self.holds_at(x, j));
                        self.lemma_entry(x, j);
                    } else if self.has_key(x) {
                        let j = choose|j: int| self.holds_at(x, j);
                        assert(before.holds_at(x, j));
                    }
                }
                assert forall|n: int| 0 <= n < self.entries@.len() implies exists|j: int|
                    0 <= j < before.entries@.len() && before.entries@[j].0@ == (
                    #[trigger] self.entries@[n]).0@ by {
                    assert(before.entries@[n].0@ == self.entries@[n].0@);
                }
            }
        } else {
            self.entries.insert(i, (k, v));
            assert(self.entries@ == before.entries@.insert(i as int, (key, value)));
            proof {
                let order = before.order;
                let at = i as int;
                assert forall|a: int, b: int| 0 <= a < b < self.entries@.len() implies key_lt(
                    order,
                    (#[trigger] self.entries@[a]).0@,
                    (#[trigger] self.entries@[b]).0@,
                ) by {
                    let x = if a < at {
                        a
                    } else {
                        a - 1
                    };
                    let y = if b < at {
                        b
                    } else {
                        b - 1
                    };
                    if a != at {
                        assert(self.entries@[a] == before.entries@[x]);
                    }
                    if b != at {
                        assert(self.entries@[b] == before.entries@[y]);
                    }
                }
                assert forall|x: Seq<char>| #[trigger] self.lookup(x) == if key_eq(order, k@, x) {
                    Some(v)
                } else {
                    before.lookup(x)
                } by {
                    if key_eq(order, k@, x) {
                        assert(self.holds_at(x, at));
                        self.lemma_entry(x, at);
                    } else if before.has_key(x) {
                        let j = choose|j: int| before.holds_at(x, j);
                        before.lemma_entry(x, j);
                        let n = if j < at {
                            j
                        } else {
                            j + 1
                        };
                        assert(self.entries@[n] == before.entries@[j]);
                        assert(self.holds_at(x, n));
                        self.lemma_entry(x, n);
                    } else if self.has_key(x) {
                        let n = choose|n: int| self.holds_at(x, n);
                        assert(n != at);
                        let j = if n < at {
                            n
                        } else {
                            n - 1
                        };
                        assert(before.entries@[j] == self.entries@[n]);
                        assert(before.holds_at(x, j));
                    }
                }
                assert forall|n: int| 0 <= n < self.entries@.len() implies (
                #[trigger] self.entries@[n]).0@ == k@ || exists|j: int|
                    0 <= j < before.entries@.len() && before.entries@[j].0@
                        == self.entries@[n].0@ by {
                    if n < at {
                        assert(before.entries@[n].0@ == self.entries@[n].0@);
                    } else if n > at {
                        assert(before.entries@[n - 1].0@ == self.entries@[n].0@);
                    }
                }
            }
        }
    }

    /// Takes the entry of `k` out.
    pub fn remove(&mut self, k: &str) -> (r: Option<V>)
        requires
            old(self).wf(),
        ensures
            final(self).wf(),
            final(self).order == old(self).order,
            r == old(self).lookup(k@),
            forall|x: Seq<char>|
                #[trigger] final(self).lookup(x) == if key_eq(old(self).order, k@, x) {
                    None
                } else {
                    old(self).lookup(x)
                },
            r is None ==> *final(self) == *old(self),
            final(self).entries@.len() == old(self).entries@.len() - if old(self).has_key(k@) {
                1int
            } else {
                0
            },
    {
        let ghost before = *self;
        let (found, i) = self.find(k);
        if !found {
            proof {
                assert forall|x: Seq<char>| key_eq(before.order, k@, x) implies
                    #[trigger] before.lookup(x) is None by {
                    if before.has_key(x) {
                        let j = choose|j: int| before.holds_at(x, j);
                        assert(before.holds_at(k@, j));
                    }
                }
            }
            return None;
        }
        proof {
            before.lemma_entry(k@, i as int);
        }
        let (key, v) = self.entries.remove(i);
        proof {
            let order = before.order;
            let at = i as int;
            assert forall|a: int, b: int| 0 <= a < b < self.entries@.len() implies key_lt(
                order,
                (#[trigger] self.entries@[a]).0@,
                (#[trigger] self.entries@[b]).0@,
            ) by {
                let x = if a < at {
                    a
                } else {
                    a + 1
                };
                let y = if b < at {
                    b
                } else {
                    b + 1
                };
                assert(self.entries@[a] == before.entries@[x]);
                assert(self.entries@[b] == before.entries@[y]);
            }
            assert forall|x: Seq<char>| #[trigger] self.lookup(x) == if key_eq(order, k@, x) {
                None
            } else {
                before.lookup(x)
            } by {
                if self.has_key(x) {
                    let n = choose|n: int| self.holds_at(x, n);
                    let j = if n < at {
                        n
                    } else {
                        n + 1
                    };
                    assert(self.entries@[n] == before.entries@[j]);
                    assert(before.holds_at(x, j));
                    before.lemma_entry(x, j);
                    self.lemma_entry(x, n);
                    if key_eq(order, k@, x) {
                        assert(before.holds_at(x, at));
                    }
                } else if before.has_key(x) && !key_eq(order, k@, x) {
                    let j = choose|j: int| before.holds_at(x, j);
                    assert(j != at);
                    let n = if j < at {
                        j
                    } else {
                        j - 1
                    };
                    assert(self.entries@[n] == before.entries@[j]);
                    assert(self.holds_at(x, n));
                }
            }
        }
        Some(v)
    }

    /// How many entries the map has.
    pub fn len(&self) -> (r: usize)
        ensures
            r == self.entries@.len(),
    {
        self.entries.len()
    }
}

} // verus!
