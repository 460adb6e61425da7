//! Natural order of names: digits count as numbers, letters whatever their case.

use vstd::prelude::*;
use vstd::slice::slice_subrange;
use vstd::utf8::encode_utf8;

verus! {

/// How one thing stands to another in an order.
#[derive(Debug, Clone, Copy, PartialEq, Eq, Structural)]
pub enum Order {
    Before,
    Same,
    After,
}

/// Whether a byte is a decimal digit.
pub open spec fn is_digit(b: u8) -> bool {
    48 <= b <= 57
}

/// A byte with a capital letter made small.
pub open spec fn small(b: u8) -> u8 {
    if 65 <= b <= 90 {
        (b + 32) as u8
    } else {
        b
    }
}

/// How many digits a text starts with.
pub open spec fn digits(s: Seq<u8>) -> nat
    decreases s.len(),
{
    if s.len() > 0 && is_digit(s[0]) {
        1 + digits(s.drop_first())
    } else {
        0
    }
}

/// The number that digits stand for.
pub open spec fn number(s: Seq<u8>) -> nat
    decreases s.len(),
{
    if s.len() == 0 {
        0
    } else {
        number(s.drop_last()) * 10 + (s.last() - 48) as nat
    }
}

/// What the first part of a name is ordered by: a run of digits by its number, then by
/// its length; any other character by itself, whatever its case.
pub open spec fn head_key(s: Seq<u8>) -> (int, nat, nat) {
    if is_digit(s[0]) {
        (48, number(s.take(digits(s) as int)), digits(s))
    } else {
        (small(s[0]) as int, 0, 0)
    }
}

/// How long the first part of a name is.
pub open spec fn head_len(s: Seq<u8>) -> int {
    if is_digit(s[0]) {
        digits(s) as int
    } else {
        1
    }
}

/// What a name is ordered by, part by part.
pub open spec fn keys(s: Seq<u8>) -> Seq<(int, nat, nat)>
    decreases s.len(),
{
    if s.len() == 0 {
        Seq::empty()
    } else if 0 < head_len(s) <= s.len() {
        seq![head_key(s)] + keys(s.skip(head_len(s)))
    } else {
        Seq::empty()
    }
}

/// Whether a key stands before another.
pub open spec fn key_before(a: (int, nat, nat), b: (int, nat, nat)) -> bool {
    a.0 < b.0 || (a.0 == b.0 && (a.1 < b.1 || (a.1 == b.1 && a.2 < b.2)))
}

/// The order of key lists: by the first key in which they differ, a proper prefix first.
pub open spec fn keys_order(a: Seq<(int, nat, nat)>, b: Seq<(int, nat, nat)>) -> Order
    decreases a.len(),
{
    if a.len() == 0 && b.len() == 0 {
        Order::Same
    } else if a.len() == 0 {
        Order::Before
    } else if b.len() == 0 {
        Order::After
    } else if key_before(a[0], b[0]) {
        Order::Before
    } else if key_before(b[0], a[0]) {
        Order::After
    } else {
        keys_order(a.drop_first(), b.drop_first())
    }
}

/// The natural order of two names, given by their bytes.
pub open spec fn natural_order(a: Seq<u8>, b: Seq<u8>) -> Order {
    keys_order(keys(a), keys(b))
}

pub open spec fn power(n: nat) -> nat
    decreases n,
{
    if n == 0 {
        1
    } else {
        10 * power((n - 1) as nat)
    }
}

spec fn all_digits(s: Seq<u8>) -> bool {
    forall|i: int| 0 <= i < s.len() ==> is_digit(#[trigger] s[i])
}

proof fn lemma_digits(s: Seq<u8>)
    ensures
        digits(s) <= s.len(),
        forall|i: int| 0 <= i < digits(s) ==> is_digit(#[trigger] s[i]),
        digits(s) < s.len() ==> !is_digit(s[digits(s) as int]),
    decreases s.len(),
{
    if s.len() > 0 && is_digit(s[0]) {
        lemma_digits(s.drop_first());
        assert forall|i: int| 0 <= i < digits(s) implies is_digit(#[trigger] s[i]) by {
            if i > 0 {
                assert(s.drop_first()[i - 1] == s[i]);
            }
        }
    }
}

/// A number of `n` digits is below ten to the `n`, and not below ten to the `n - 1` where
/// its first digit is not zero.
proof fn lemma_number_bounds(s: Seq<u8>)
    requires
        all_digits(s),
    ensures
        number(s) < power(s.len()),
        s.len() > 0 && s[0] != 48 ==> power((s.len() - 1) as nat) <= number(s),
    decreases s.len(),
{
    if s.len() > 0 {
        let rest = s.drop_last();
        assert forall|i: int| 0 <= i < rest.len() implies is_digit(#[trigger] rest[i]) by {
            assert(rest[i] == s[i]);
        }
        lemma_number_bounds(rest);
        assert(is_digit(s[s.len() - 1]));
        if rest.len() > 0 {
            assert(rest[0] == s[0]);
        } else {
            assert(number(rest) == 0);
        }
    }
}

proof fn lemma_power_grows(m: nat, n: nat)
    requires
        m <= n,
    ensures
        power(m) <= power(n),
        power(m) > 0,
    decreases n,
{
    if m < n {
        lemma_power_grows(m, (n - 1) as nat);
    } else if n > 0 {
        lemma_power_grows((n - 1) as nat, (n - 1) as nat);
    }
}

/// Zeros before a number do not count.
proof fn lemma_leading_zeros(s: Seq<u8>, z: int)
    requires
        0 <= z <= s.len(),
        forall|i: int| 0 <= i < z ==> s[i] == 48,
    ensures
        number(s) == number(s.skip(z)),
    decreases s.len(),
{
    if s.len() > z {
        let rest = s.drop_last();
        lemma_leading_zeros(rest, z);
        assert(rest.skip(z) =~= s.skip(z).drop_last());
    } else if s.len() > 0 {
        let rest = s.drop_last();
        lemma_leading_zeros(rest, z - 1);
        assert(rest.skip(z - 1) =~= Seq::empty());
        assert(s.skip(z) =~= Seq::empty());
        assert(s.last() == 48);
    } else {
        assert(s.skip(z) =~= s);
    }
}

/// A smaller beginning makes a smaller number of the same length.
proof fn lemma_prefix_decides(a: Seq<u8>, b: Seq<u8>, k: int)
    requires
        a.len() == b.len(),
        all_digits(a),
        all_digits(b),
        0 <= k <= a.len(),
        number(a.take(k)) < number(b.take(k)),
    ensures
        number(a) < number(b),
    decreases a.len() - k,
{
    if k < a.len() {
        assert(a.take(k + 1).drop_last() =~= a.take(k));
        assert(b.take(k + 1).drop_last() =~= b.take(k));
        assert(is_digit(a[k]) && is_digit(b[k]));
        lemma_prefix_decides(a, b, k + 1);
    } else {
        assert(a.take(k) =~= a);
        assert(b.take(k) =~= b);
    }
}

fn digit_run(s: &[u8], from: usize) -> (r: usize)
    requires
        from <= s@.len(),
    ensures
        from <= r <= s@.len(),
        r == from + digits(s@.skip(from as int)),
{
    let mut i: usize = from;
    while i < s.len() && s[i] >= 48 && s[i] <= 57
        invariant
            from <= i <= s.len(),
            from + digits(s@.skip(from as int)) == i + digits(s@.skip(i as int)),
        decreases s.len() - i,
    {
        assert(s@.skip(i as int).drop_first() =~= s@.skip(i + 1));
        i = i + 1;
    }
    i
}

fn zeros(s: &[u8]) -> (r: usize)
    ensures
        r <= s@.len(),
        forall|i: int| 0 <= i < r ==> s@[i] == 48,
        r < s@.len() ==> s@[r as int] != 48,
{
    let mut i: usize = 0;
    while i < s.len() && s[i] == 48
        invariant
            i <= s.len(),
            forall|k: int| 0 <= k < i ==> s@[k] == 48,
        decreases s.len() - i,
    {
        i = i + 1;
    }
    i
}

/// How the numbers of two runs of digits stand to each other.
fn compare_numbers(a: &[u8], b: &[u8]) -> (r: Order)
    requires
        all_digits(a@),
        all_digits(b@),
    ensures
        match r {
            Order::Before => number(a@) < number(b@),
            Order::Same => number(a@) == number(b@),
            Order::After => number(a@) > number(b@),
        },
{
    let za: usize = zeros(a);
    let zb: usize = zeros(b);
    let x = slice_subrange(a, za, a.len());
    let y = slice_subrange(b, zb, b.len());
    proof {
        lemma_leading_zeros(a@, za as int);
        lemma_leading_zeros(b@, zb as int);
        assert(x@ =~= a@.skip(za as int));
        assert(y@ =~= b@.skip(zb as int));
        assert forall|i: int| 0 <= i < x@.len() implies is_digit(#[trigger] x@[i]) by {
            assert(x@[i] == a@[za + i]);
        }
        assert forall|i: int| 0 <= i < y@.len() implies is_digit(#[trigger] y@[i]) by {
            assert(y@[i] == b@[zb + i]);
        }
        lemma_number_bounds(x@);
        lemma_number_bounds(y@);
    }
    if x.len() < y.len() {
        proof {
            lemma_power_grows(x@.len(), (y@.len() - 1) as nat);
        }
        return Order::Before;
    }
    if y.len() < x.len() {
        proof {
            lemma_power_grows(y@.len(), (x@.len() - 1) as nat);
        }
        return Order::After;
    }
    let mut i: usize = 0;
    assert(x@.take(0) =~= y@.take(0));
    while i < x.len()
        invariant
            i <= x@.len(),
            x@.len() == y@.len(),
            all_digits(x@),
            all_digits(y@),
            number(x@) == number(a@),
            number(y@) == number(b@),
            x@.take(i as int) == y@.take(i as int),
        decreases x.len() - i,
    {
        proof {
            assert(x@.take(i + 1).drop_last() =~= x@.take(i as int));
            assert(y@.take(i + 1).drop_last() =~= y@.take(i as int));
            assert(is_digit(x@[i as int]) && is_digit(y@[i as int]));
        }
        if x[i] < y[i] {
            proof {
                lemma_prefix_decides(x@, y@, i + 1);
            }
            return Order::Before;
        }
        if y[i] < x[i] {
            proof {
                lemma_prefix_decides(y@, x@, i + 1);
            }
            return Order::After;
        }
        assert(x@.take(i + 1) =~= y@.take(i + 1));
        i = i + 1;
    }
    assert(x@.take(i as int) =~= x@);
    assert(y@.take(i as int) =~= y@);
    Order::Same
}

fn to_small(b: u8) -> (r: u8)
    ensures
        r == small(b),
{
    if b >= 65 && b <= 90 {
        b + 32
    } else {
        b
    }
}

/// The natural order of two names: runs of digits by their numbers, everything else
/// character by character, whatever the case of ASCII letters.
pub fn alphanumeric_order(a: &str, b: &str) -> (r: Order)
    ensures
        r == natural_order(encode_utf8(a@), encode_utf8(b@)),
{
    let x = a.as_bytes();
    let y = b.as_bytes();
    let mut i: usize = 0;
    assert(x@.skip(0) =~= x@);
    assert(y@.skip(0) =~= y@);
    while i < x.len() && i < y.len()
        invariant
            i <= x@.len(),
            i <= y@.len(),
            x@ == encode_utf8(a@),
            y@ == encode_utf8(b@),
            natural_order(x@, y@) == natural_order(x@.skip(i as int), y@.skip(i as int)),
        decreases x.len() - i,
    {
        let ghost s = x@.skip(i as int);
        let ghost t = y@.skip(i as int);
        proof {
            assert(s[0] == x@[i as int]);
            assert(t[0] == y@[i as int]);
            lemma_digits(s);
            lemma_digits(t);
            assert(keys(s) == seq![head_key(s)] + keys(s.skip(head_len(s))));
            assert(keys(t) == seq![head_key(t)] + keys(t.skip(head_len(t))));
            assert(keys(s).drop_first() =~= keys(s.skip(head_len(s))));
            assert(keys(t).drop_first() =~= keys(t.skip(head_len(t))));
        }
        if x[i] >= 48 && x[i] <= 57 && y[i] >= 48 && y[i] <= 57 {
            let m: usize = digit_run(x, i);
            let n: usize = digit_run(y, i);
            let p = slice_subrange(x, i, m);
            let q = slice_subrange(y, i, n);
            proof {
                assert(p@ =~= s.take(digits(s) as int));
                assert(q@ =~= t.take(digits(t) as int));
                assert forall|k: int| 0 <= k < p@.len() implies is_digit(#[trigger] p@[k]) by {
                    assert(p@[k] == s[k]);
                }
                assert forall|k: int| 0 <= k < q@.len() implies is_digit(#[trigger] q@[k]) by {
                    assert(q@[k] == t[k]);
                }
            }
            match compare_numbers(p, q) {
                Order::Before => {
                    return Order::Before;
                },
                Order::After => {
                    return Order::After;
                },
                Order::Same => {},
            }
            if m < n {
                return Order::Before;
            }
            if n < m {
                return Order::After;
            }
            proof {
                assert(s.skip(head_len(s)) =~= x@.skip(m as int));
                assert(t.skip(head_len(t)) =~= y@.skip(m as int));
            }
            i = m;
        } else {
            let c: u8 = to_small(x[i]);
            let d: u8 = to_small(y[i]);
            if c < d {
                return Order::Before;
            }
            if d < c {
                return Order::After;
            }
            proof {
                assert(s.skip(1) =~= x@.skip(i + 1));
                assert(t.skip(1) =~= y@.skip(i + 1));
            }
            i = i + 1;
        }
    }
    proof {
        let s = x@.skip(i as int);
        let t = y@.skip(i as int);
        lemma_digits(s);
        lemma_digits(t);
        if s.len() > 0 {
            assert(keys(s).len() >= 1);
        }
        if t.len() > 0 {
            assert(keys(t).len() >= 1);
        }
    }
    if i < y.len() {
        Order::Before
    } else if i < x.len() {
        Order::After
    } else {
        Order::Same
    }
}

/// What comes before, seen from the other side.
pub open spec fn reversed(o: Order) -> Order {
    match o {
        Order::Before => Order::After,
        Order::Same => Order::Same,
        Order::After => Order::Before,
    }
}

proof fn lemma_keys_reversed(a: Seq<(int, nat, nat)>, b: Seq<(int, nat, nat)>)
    ensures
        keys_order(b, a) == reversed(keys_order(a, b)),
    decreases a.len(),
{
    if a.len() > 0 && b.len() > 0 {
        lemma_keys_reversed(a.drop_first(), b.drop_first());
    }
}

proof fn lemma_keys_transitive(
    a: Seq<(int, nat, nat)>,
    b: Seq<(int, nat, nat)>,
    c: Seq<(int, nat, nat)>,
)
    requires
        keys_order(a, b) != Order::After,
        keys_order(b, c) != Order::After,
    ensures
        keys_order(a, c) != Order::After,
        keys_order(a, c) == Order::Same ==> keys_order(a, b) == Order::Same && keys_order(b, c)
            == Order::Same,
    decreases a.len(),
{
    if a.len() > 0 && b.len() > 0 && c.len() > 0 && a[0] == b[0] && b[0] == c[0] {
        lemma_keys_transitive(a.drop_first(), b.drop_first(), c.drop_first());
    }
}

/// The natural order is the same seen from either side, and every name stands where it
/// stands itself.
pub proof fn natural_order_is_symmetric(a: Seq<u8>, b: Seq<u8>)
    ensures
        natural_order(b, a) == reversed(natural_order(a, b)),
        natural_order(a, a) == Order::Same,
{
    lemma_keys_reversed(keys(a), keys(b));
    lemma_keys_reversed(keys(a), keys(a));
}

/// The natural order is transitive.
pub proof fn natural_order_is_transitive(a: Seq<u8>, b: Seq<u8>, c: Seq<u8>)
    requires
        natural_order(a, b) != Order::After,
        natural_order(b, c) != Order::After,
    ensures
        natural_order(a, c) != Order::After,
        natural_order(a, c) == Order::Same ==> natural_order(a, b) == Order::Same
            && natural_order(b, c) == Order::Same,
{
    lemma_keys_transitive(keys(a), keys(b), keys(c));
}

/// A name with its capital letters made small.
pub open spec fn lowered(s: Seq<u8>) -> Seq<u8> {
    s.map_values(|b: u8| small(b))
}

proof fn lemma_keys_same(a: Seq<(int, nat, nat)>, b: Seq<(int, nat, nat)>)
    ensures
        keys_order(a, b) == Order::Same <==> a == b,
    decreases a.len(),
{
    if a.len() > 0 && b.len() > 0 {
        lemma_keys_same(a.drop_first(), b.drop_first());
        assert(a =~= seq![a[0]] + a.drop_first());
        assert(b =~= seq![b[0]] + b.drop_first());
        if a[0] == b[0] && a.drop_first() == b.drop_first() {
            assert(a =~= b);
        }
    } else if a.len() == 0 && b.len() == 0 {
        assert(a =~= b);
    }
}

/// Of one length, one number is written in one way.
proof fn lemma_number_written(a: Seq<u8>, b: Seq<u8>)
    requires
        a.len() == b.len(),
        all_digits(a),
        all_digits(b),
        number(a) == number(b),
    ensures
        a == b,
    decreases a.len(),
{
    if a.len() > 0 {
        let (x, y) = (a.drop_last(), b.drop_last());
        assert(is_digit(a[a.len() - 1]) && is_digit(b[b.len() - 1]));
        assert forall|i: int| 0 <= i < x.len() implies is_digit(#[trigger] x[i]) by {
            assert(x[i] == a[i]);
        }
        assert forall|i: int| 0 <= i < y.len() implies is_digit(#[trigger] y[i]) by {
            assert(y[i] == b[i]);
        }
        lemma_number_written(x, y);
        assert(a =~= x.push(a.last()));
        assert(b =~= y.push(b.last()));
    } else {
        assert(a =~= b);
    }
}

proof fn lemma_lowered_digits(a: Seq<u8>, b: Seq<u8>)
    requires
        lowered(a) == lowered(b),
    ensures
        digits(a) == digits(b),
        a.take(digits(a) as int) == b.take(digits(b) as int),
    decreases a.len(),
{
    assert(lowered(a).len() == a.len() && lowered(b).len() == b.len());
    if a.len() > 0 {
        assert(lowered(a)[0] == small(a[0]) && lowered(b)[0] == small(b[0]));
        if is_digit(a[0]) {
            let (x, y) = (a.drop_first(), b.drop_first());
            assert(lowered(x) =~= lowered(a).drop_first());
            assert(lowered(y) =~= lowered(b).drop_first());
            lemma_lowered_digits(x, y);
            lemma_digits(a);
            lemma_digits(b);
            let n = digits(a) as int;
            assert(a.take(n) =~= seq![a[0]] + x.take(n - 1));
            assert(b.take(n) =~= seq![b[0]] + y.take(n - 1));
        } else {
            assert(a.take(0) =~= b.take(0));
        }
    } else {
        assert(a.take(0) =~= b.take(0));
    }
}

/// The natural order holds two names to be the same exactly where they agree but for the case
/// of their ASCII letters.
pub proof fn same_names_agree_but_for_case(a: Seq<u8>, b: Seq<u8>)
    ensures
        natural_order(a, b) == Order::Same <==> lowered(a) == lowered(b),
    decreases a.len(),
{
    lemma_keys_same(keys(a), keys(b));
    assert(lowered(a).len() == a.len() && lowered(b).len() == b.len());
    lemma_digits(a);
    lemma_digits(b);
    if a.len() == 0 || b.len() == 0 {
        if a.len() > 0 {
            assert(keys(a).len() >= 1);
        }
        if b.len() > 0 {
            assert(keys(b).len() >= 1);
        }
        if a.len() == 0 && b.len() == 0 {
            assert(keys(a) =~= keys(b));
            assert(lowered(a) =~= lowered(b));
        }
    } else {
        let (m, n) = (head_len(a), head_len(b));
        let (x, y) = (a.skip(m), b.skip(n));
        same_names_agree_but_for_case(x, y);
        lemma_keys_same(keys(x), keys(y));
        assert(keys(a) == seq![head_key(a)] + keys(x));
        assert(keys(b) == seq![head_key(b)] + keys(y));
        assert(keys(a)[0] == head_key(a) && keys(b)[0] == head_key(b));
        assert(keys(a).drop_first() =~= keys(x));
        assert(keys(b).drop_first() =~= keys(y));
        assert(lowered(a) =~= lowered(a.take(m)) + lowered(x));
        assert(lowered(b) =~= lowered(b.take(n)) + lowered(y));
        assert(lowered(a)[0] == small(a[0]) && lowered(b)[0] == small(b[0]));
        if keys(a) == keys(b) {
            if is_digit(a[0]) {
                lemma_number_written(a.take(m), b.take(n));
            }
            assert(lowered(a.take(m)) =~= lowered(b.take(n)));
        }
        if lowered(a) == lowered(b) {
            lemma_lowered_digits(a, b);
            assert(lowered(x) =~= lowered(a).skip(m));
            assert(lowered(y) =~= lowered(b).skip(n));
            assert(head_key(a) == head_key(b));
        }
    }
}

} // verus!
