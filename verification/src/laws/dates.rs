//! A moment has the date and the time of day that a calendar and a clock show.
use crate::dates::{
    date_of, day_number, day_of, is_date, lemma_civil_is, lemma_next_date, time_of,
};
use crate::decimal::padded;
use vstd::prelude::*;

verus! {

/// The time of day is the hours and the minutes that have passed since midnight.
pub proof fn lemma_time_told(ts: u64, day: int, h: int, m: int, rest: int)
    requires
        0 <= day,
        0 <= h < 24,
        0 <= m < 60,
        0 <= rest < 60_000,
        ts == day * 86_400_000 + h * 3_600_000 + m * 60_000 + rest,
    ensures
        time_of(ts) == padded(h as nat, 2) + ":"@ + padded(m as nat, 2),
{
    reveal_strlit(":");
    assert(":"@ =~= seq![':']);
    let n = ts as int / 60_000;
    assert(n == day * 1440 + h * 60 + m);
    assert(n % 1440 == h * 60 + m);
}

/// A day of the Gregorian calendar.
pub open spec fn is_day(y: int, m: int, d: int) -> bool {
    let leap = y % 400 == 0 || (y % 4 == 0 && y % 100 != 0);
    &&& 1 <= m <= 12
    &&& 1 <= d <= 31
    &&& m == 4 || m == 6 || m == 9 || m == 11 ==> d <= 30
    &&& m == 2 ==> d <= 29
    &&& m == 2 && !leap ==> d <= 28
}

/// A moment has a date.
pub open spec fn falls_on(ts: u64, y: int, m: int, d: int) -> bool {
    date_of(ts) == padded(y as nat, 4) + "-"@ + padded(m as nat, 2) + "-"@ + padded(d as nat, 2)
}

/// The first day is the first of January 1970. From then on, a moment a day later falls
/// on the next day of the month while the month has one, and otherwise on the first of
/// the next month, that of January behind December.
pub proof fn lemma_date_told(ts: u64, later: u64, y: int, m: int, d: int)
    requires
        later == ts + 86_400_000,
        is_day(y, m, d),
        day_number(y, m, d) == ts as int / 86_400_000,
    ensures
        ts < 86_400_000 ==> falls_on(ts, 1970, 1, 1),
        falls_on(ts, y, m, d),
        is_day(y, m, d + 1) ==> falls_on(later, y, m, d + 1),
        !is_day(y, m, d + 1) && m < 12 ==> falls_on(later, y, m + 1, 1),
        !is_day(y, m, d + 1) && m == 12 ==> falls_on(later, y + 1, 1, 1),
{
    reveal_strlit("-");
    assert("-"@ =~= seq!['-']);
    assert(is_date(y, m, d));
    lemma_civil_is(day_of(ts), y, m, d);
    lemma_next_date(day_of(ts));
    assert(day_of(later) == day_of(ts) + 1);
    if ts < 86_400_000 {
        assert(is_date(1970, 1, 1));
        assert(day_number(1970, 1, 1) == 0);
        lemma_civil_is(0, 1970, 1, 1);
    }
}

} // verus!
