//! What a time stamp is for: the moment can be read from it.

use crate::activity::{clock_of, two_digits};
use crate::calendar::{is_date, padded, stamp};
use crate::text::{decimal, digits_value, pad_left};
use crate::text_laws::decimals_read_back;
use vstd::prelude::*;

verus! {

/// The number in some characters of a text.
pub open spec fn number_at(s: Seq<char>, from: int, to: int) -> nat {
    digits_value(s.subrange(from, to))
}

proof fn lemma_zero_before(s: Seq<char>)
    ensures
        digits_value(seq!['0'] + s) == digits_value(s),
    decreases s.len(),
{
    let z = seq!['0'] + s;
    if s.len() == 0 {
        assert(z.drop_last() =~= Seq::empty());
        assert(digits_value(z.drop_last()) == 0);
        assert(z.last() == '0');
    } else {
        lemma_zero_before(s.drop_last());
        assert(z.drop_last() =~= seq!['0'] + s.drop_last());
        assert(z.last() == s.last());
    }
}

proof fn lemma_padded_value(s: Seq<char>, width: nat)
    ensures
        digits_value(pad_left(s, '0', width)) == digits_value(s),
        s.len() <= width ==> pad_left(s, '0', width).len() == width,
    decreases width - s.len(),
{
    if s.len() < width {
        lemma_zero_before(s);
        lemma_padded_value(seq!['0'] + s, width);
    }
}

proof fn lemma_decimal_len(n: nat)
    ensures
        n < 100 ==> decimal(n).len() <= 2,
        n < 10_000 ==> decimal(n).len() <= 4,
{
    reveal_with_fuel(decimal, 5);
    decimals_read_back(n);
}

proof fn lemma_two(n: nat)
    requires
        n < 100,
    ensures
        pad_left(decimal(n), '0', 2).len() == 2,
        digits_value(pad_left(decimal(n), '0', 2)) == n,
{
    lemma_decimal_len(n);
    decimals_read_back(n);
    lemma_padded_value(decimal(n), 2);
}

/// The year, the month, the day and the time of day are read back from a stamp, in UTC.
pub proof fn stamps_read_back(year: int, month: int, day: int, time: int)
    requires
        0 <= year < 10_000,
        is_date(year, month, day),
        0 <= time < 86_400,
    ensures
        ({
            let s = stamp(year, month, day, time);
            &&& s.len() == 25
            &&& number_at(s, 0, 4) == year
            &&& number_at(s, 5, 7) == month
            &&& number_at(s, 8, 10) == day
            &&& number_at(s, 11, 13) * 3600 + number_at(s, 14, 16) * 60 + number_at(s, 17, 19)
                == time
            &&& number_at(s, 14, 16) < 60
            &&& number_at(s, 17, 19) < 60
            &&& s[4] == '-' && s[7] == '-' && s[10] == 'T' && s[13] == ':' && s[16] == ':'
            &&& s.skip(19) == "+00:00"@
        }),
{
    reveal_strlit("-");
    reveal_strlit("T");
    reveal_strlit(":");
    reveal_strlit("+00:00");
    let y = padded(year, 4);
    lemma_decimal_len(year as nat);
    decimals_read_back(year as nat);
    lemma_padded_value(decimal(year as nat), 4);
    let mo = padded(month, 2);
    let d = padded(day, 2);
    let h = padded(time / 3600, 2);
    let mi = padded(time % 3600 / 60, 2);
    let se = padded(time % 60, 2);
    lemma_two(month as nat);
    lemma_two(day as nat);
    lemma_two((time / 3600) as nat);
    lemma_two((time % 3600 / 60) as nat);
    lemma_two((time % 60) as nat);
    let s = stamp(year, month, day, time);
    assert(s.subrange(0, 4) =~= y);
    assert(s.subrange(5, 7) =~= mo);
    assert(s.subrange(8, 10) =~= d);
    assert(s.subrange(11, 13) =~= h);
    assert(s.subrange(14, 16) =~= mi);
    assert(s.subrange(17, 19) =~= se);
    assert(s.skip(19) =~= "+00:00"@);
}

/// The hours, the minutes and the seconds of a moment are read back from its time of day.
pub proof fn clocks_read_back(secs: u64)
    ensures
        ({
            let s = clock_of(secs);
            &&& s.len() == 8
            &&& number_at(s, 0, 2) < 24
            &&& number_at(s, 3, 5) < 60
            &&& number_at(s, 6, 8) < 60
            &&& number_at(s, 0, 2) * 3600 + number_at(s, 3, 5) * 60 + number_at(s, 6, 8) == secs
                % 86_400
            &&& s[2] == ':' && s[5] == ':'
        }),
{
    reveal_strlit(":");
    let t = secs % 86_400;
    lemma_two((t / 3600) as nat);
    lemma_two(((t % 3600) / 60) as nat);
    lemma_two((t % 60) as nat);
    let s = clock_of(secs);
    assert(s.subrange(0, 2) =~= two_digits(t / 3600));
    assert(s.subrange(3, 5) =~= two_digits((t % 3600) / 60));
    assert(s.subrange(6, 8) =~= two_digits(t % 60));
}

} // verus!
