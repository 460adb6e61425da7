//! What the natural order is for: numbers in names count by their value, and letters whatever
//! their case.

use crate::natural::{
    digits, head_key, head_len, is_digit, keys, keys_order, natural_order, number, small, Order,
};
use vstd::prelude::*;

verus! {

/// Whether a text is made of digits.
pub open spec fn is_number(s: Seq<u8>) -> bool {
    s.len() > 0 && forall|i: int| 0 <= i < s.len() ==> is_digit(#[trigger] s[i])
}

/// Whether what stands behind a text begins no run of digits with it.
pub open spec fn parts(a: Seq<u8>, b: Seq<u8>) -> bool {
    a.len() == 0 || b.len() == 0 || !is_digit(a.last()) || !is_digit(b[0])
}

proof fn lemma_digits(s: Seq<u8>)
    ensures
        digits(s) <= s.len(),
        forall|i: int| 0 <= i < digits(s) ==> is_digit(#[trigger] s[i]),
        digits(s) < s.len() ==> !is_digit(s[digits(s) as int]),
    decreases s.len(),
{
    if s.len() > 0 && is_digit(s[0]) {
        let rest = s.drop_first();
        lemma_digits(rest);
        assert forall|i: int| 0 <= i < digits(s) implies is_digit(#[trigger] s[i]) by {
            if i > 0 {
                assert(rest[i - 1] == s[i]);
            }
        }
    }
}

proof fn lemma_digits_concat(a: Seq<u8>, b: Seq<u8>)
    requires
        parts(a, b),
        a.len() > 0,
    ensures
        digits(a + b) == digits(a),
    decreases a.len(),
{
    let s = a + b;
    assert(s[0] == a[0]);
    if is_digit(a[0]) {
        let rest = a.drop_first();
        assert(s.drop_first() =~= rest + b);
        if rest.len() > 0 {
            assert(rest.last() == a.last());
            lemma_digits_concat(rest, b);
        } else {
            assert(rest + b =~= b);
            assert(a.last() == a[0]);
            assert(digits(b) == 0);
            assert(digits(rest) == 0);
        }
    }
}

proof fn lemma_keys_concat(a: Seq<u8>, b: Seq<u8>)
    requires
        parts(a, b),
    ensures
        keys(a + b) == keys(a) + keys(b),
    decreases a.len(),
{
    if a.len() == 0 {
        assert(a + b =~= b);
        assert(keys(a) + keys(b) =~= keys(b));
    } else {
        let s = a + b;
        assert(s[0] == a[0]);
        lemma_digits(a);
        lemma_digits(s);
        lemma_digits_concat(a, b);
        let n = head_len(a);
        assert(0 < n <= a.len()) by {
            if is_digit(a[0]) {
                assert(digits(a) > 0);
            }
        }
        assert(head_len(s) == n);
        assert(s.take(n) =~= a.take(n));
        assert(head_key(s) == head_key(a));
        assert(s.skip(n) =~= a.skip(n) + b);
        let rest = a.skip(n);
        if rest.len() > 0 {
            assert(rest.last() == a.last());
        }
        lemma_keys_concat(rest, b);
        assert(seq![head_key(a)] + (keys(rest) + keys(b)) =~= keys(a) + keys(b));
    }
}

proof fn lemma_order_concat(
    p: Seq<(int, nat, nat)>,
    a: Seq<(int, nat, nat)>,
    b: Seq<(int, nat, nat)>,
)
    ensures
        keys_order(p + a, p + b) == keys_order(a, b),
    decreases p.len(),
{
    if p.len() == 0 {
        assert(p + a =~= a);
        assert(p + b =~= b);
    } else {
        assert((p + a)[0] == p[0] && (p + b)[0] == p[0]);
        assert((p + a).drop_first() =~= p.drop_first() + a);
        assert((p + b).drop_first() =~= p.drop_first() + b);
        lemma_order_concat(p.drop_first(), a, b);
    }
}

/// Names that are the same up to a number are in the order of the numbers, whatever follows.
pub proof fn numbers_count_by_their_value(
    front: Seq<u8>,
    a: Seq<u8>,
    b: Seq<u8>,
    x: Seq<u8>,
    y: Seq<u8>,
)
    requires
        front.len() > 0 ==> !is_digit(front.last()),
        is_number(a),
        is_number(b),
        x.len() > 0 ==> !is_digit(x[0]),
        y.len() > 0 ==> !is_digit(y[0]),
        number(a) < number(b),
    ensures
        natural_order(front + (a + x), front + (b + y)) == Order::Before,
        natural_order(front + (b + y), front + (a + x)) == Order::After,
{
    lemma_keys_concat(front, a + x);
    lemma_keys_concat(front, b + y);
    lemma_number_head(a, x);
    lemma_number_head(b, y);
    lemma_order_concat(keys(front), keys(a + x), keys(b + y));
    lemma_order_concat(keys(front), keys(b + y), keys(a + x));
}

proof fn lemma_number_head(a: Seq<u8>, x: Seq<u8>)
    requires
        is_number(a),
        x.len() > 0 ==> !is_digit(x[0]),
    ensures
        keys(a + x).len() > 0,
        keys(a + x)[0].0 == 48,
        keys(a + x)[0].1 == number(a),
        keys(a + x)[0].2 == a.len(),
{
    let s = a + x;
    lemma_digits(a);
    assert(digits(a) == a.len());
    lemma_digits_concat(a, x);
    assert(s[0] == a[0]);
    assert(s.take(a.len() as int) =~= a);
}

/// Names that are the same up to a letter are in the order of the letters, whatever their case
/// and whatever follows; and a name comes before every longer one that begins with it.
pub proof fn letters_count_whatever_their_case(
    front: Seq<u8>,
    a: u8,
    b: u8,
    x: Seq<u8>,
    y: Seq<u8>,
)
    requires
        !is_digit(a),
        !is_digit(b),
    ensures
        small(a) < small(b) ==> natural_order(front + (seq![a] + x), front + (seq![b] + y))
            == Order::Before,
        small(a) == small(b) ==> natural_order(front + (seq![a] + x), front + (seq![b] + x))
            == Order::Same,
        natural_order(front, front + (seq![a] + x)) == Order::Before,
{
    let s = seq![a] + x;
    let t = seq![b] + y;
    let u = seq![b] + x;
    lemma_keys_concat(front, s);
    lemma_keys_concat(front, t);
    lemma_keys_concat(front, u);
    lemma_order_concat(keys(front), keys(s), keys(t));
    lemma_order_concat(keys(front), keys(s), keys(u));
    assert(s.skip(1) =~= x && t.skip(1) =~= y && u.skip(1) =~= x);
    assert(keys(s) == seq![head_key(s)] + keys(x));
    assert(keys(u) == seq![head_key(u)] + keys(x));
    assert(keys(t) == seq![head_key(t)] + keys(y));
    lemma_order_same(keys(x));
    if small(a) == small(b) {
        assert(keys(s) =~= keys(u));
        lemma_order_same(keys(s));
    }
    let none = Seq::<(int, nat, nat)>::empty();
    lemma_order_concat(keys(front), none, keys(s));
    assert(keys(front) + none =~= keys(front));
}

proof fn lemma_order_same(a: Seq<(int, nat, nat)>)
    ensures
        keys_order(a, a) == Order::Same,
    decreases a.len(),
{
    if a.len() > 0 {
        lemma_order_same(a.drop_first());
    }
}

/// Of names that are the same but for zeros before a number, the one with fewer comes first.
pub proof fn fewer_zeros_come_first(
    front: Seq<u8>,
    a: Seq<u8>,
    b: Seq<u8>,
    x: Seq<u8>,
    y: Seq<u8>,
)
    requires
        front.len() > 0 ==> !is_digit(front.last()),
        is_number(a),
        is_number(b),
        x.len() > 0 ==> !is_digit(x[0]),
        y.len() > 0 ==> !is_digit(y[0]),
        number(a) == number(b),
        a.len() < b.len(),
    ensures
        natural_order(front + (a + x), front + (b + y)) == Order::Before,
        natural_order(front + (b + y), front + (a + x)) == Order::After,
{
    lemma_keys_concat(front, a + x);
    lemma_keys_concat(front, b + y);
    lemma_number_head(a, x);
    lemma_number_head(b, y);
    lemma_order_concat(keys(front), keys(a + x), keys(b + y));
    lemma_order_concat(keys(front), keys(b + y), keys(a + x));
}

} // verus!
