//! Calendar days and times of day out of milliseconds since 1970.
use crate::decimal::{is_digit, lemma_padded_form, padded, write_padded};
use vstd::prelude::*;

verus! {

/// A leap year of the Gregorian calendar.
pub open spec fn is_leap(y: int) -> bool {
    y % 4 == 0 && (y % 100 != 0 || y % 400 == 0)
}

/// How many days a month has.
pub open spec fn days_in_month(y: int, m: int) -> int {
    if m == 2 {
        if is_leap(y) {
            29
        } else {
            28
        }
    } else if m == 4 || m == 6 || m == 9 || m == 11 {
        30
    } else {
        31
    }
}

/// A day of the calendar.
pub open spec fn is_date(y: int, m: int, d: int) -> bool {
    1 <= m <= 12 && 1 <= d <= days_in_month(y, m)
}

/// How many days lie between the first day of year 1 and the first day of a
/// year.
pub open spec fn days_before_year(y: int) -> int {
    365 * (y - 1) + (y - 1) / 4 - (y - 1) / 100 + (y - 1) / 400
}

/// How many days of its year lie before a month.
pub open spec fn days_before_month(y: int, m: int) -> int
    decreases m,
{
    if m <= 1 {
        0
    } else {
        days_before_month(y, m - 1) + days_in_month(y, m - 1)
    }
}

/// How many days a date lies after the first of January 1970.
pub open spec fn day_number(y: int, m: int, d: int) -> int {
    days_before_year(y) + days_before_month(y, m) + (d - 1) - days_before_year(1970)
}

/// The year within a span of 400 years that begin in March, out of the day
/// within it.
proof fn lemma_year_of_era(doe: u32)
    by (bit_vector)
    requires
        doe <= 146096,
    ensures
        ({
            let a = doe - doe / 1460 + doe / 36524 - doe / 146096;
            let yoe = a / 365;
            &&& 0 <= a
            &&& yoe <= 399
            &&& 365 * yoe + yoe / 4 - yoe / 100 <= doe
            &&& doe - (365 * yoe + yoe / 4 - yoe / 100) <= 365
            &&& doe - (365 * yoe + yoe / 4 - yoe / 100) == 365 ==> (yoe + 1) % 4 == 0 && ((yoe + 1)
                % 100 != 0 || yoe + 1 == 400)
        }),
{
}

/// The days of a year that begins in March, before its months.
spec fn march_start(mp: int) -> int {
    (153 * mp + 2) / 5
}

proof fn lemma_month_of_day(doy: int)
    requires
        0 <= doy <= 365,
    ensures
        ({
            let mp = (5 * doy + 2) / 153;
            let d = doy - march_start(mp) + 1;
            &&& 0 <= mp <= 11
            &&& 1 <= d
            &&& d <= 31
            &&& (mp == 1 || mp == 3 || mp == 6 || mp == 8) ==> d <= 30
            &&& mp == 11 ==> d <= 29
            &&& mp == 11 && d == 29 ==> doy == 365
        }),
{
}

proof fn lemma_days_before_month(y: int, m: int)
    requires
        1 <= m <= 12,
    ensures
        m <= 2 ==> days_before_month(y, m) == march_start(m + 9) - 306,
        m >= 3 ==> days_before_month(y, m) == 59 + (if is_leap(y) {
            1int
        } else {
            0int
        }) + march_start(m - 3),
{
    reveal_with_fuel(days_before_month, 13);
}

proof fn lemma_days_before_march(y: int)
    ensures
        days_before_year(y) + 59 + (if is_leap(y) {
            1int
        } else {
            0int
        }) == 365 * y + y / 4 - y / 100 + y / 400 - 306,
        days_before_year(y + 1) == days_before_year(y) + 365 + (if is_leap(y) {
            1int
        } else {
            0int
        }),
{
}

proof fn lemma_era(era: int, yoe: int)
    requires
        0 <= yoe <= 399,
    ensures
        ({
            let y = 400 * era + yoe;
            365 * y + y / 4 - y / 100 + y / 400 == 146097 * era + 365 * yoe + yoe / 4 - yoe / 100
        }),
        is_leap(400 * era + yoe + 1) == ((yoe + 1) % 4 == 0 && ((yoe + 1) % 100 != 0 || yoe + 1
            == 400)),
{
}

/// The year within a span of 400 years that begin in March, and the day within
/// that year.
fn split_era(doe: i64) -> (r: (i64, i64))
    requires
        0 <= doe <= 146096,
    ensures
        0 <= r.0 <= 399,
        0 <= r.1 <= 365,
        doe == 365 * r.0 + r.0 as int / 4 - r.0 as int / 100 + r.1,
        r.1 == 365 ==> (r.0 + 1) % 4 == 0 && ((r.0 + 1) % 100 != 0 || r.0 + 1 == 400),
{
    proof {
        lemma_year_of_era(doe as u32);
    }
    let yoe: i64 = (doe - doe / 1460 + doe / 36524 - doe / 146096) / 365;
    let doy: i64 = doe - (365 * yoe + yoe / 4 - yoe / 100);
    (yoe, doy)
}

/// The month within a year that begins in March, and the day within that month.
fn split_year(doy: i64) -> (r: (i64, i64))
    requires
        0 <= doy <= 365,
    ensures
        0 <= r.0 <= 11,
        1 <= r.1 <= 31,
        doy == march_start(r.0 as int) + r.1 - 1,
        (r.0 == 1 || r.0 == 3 || r.0 == 6 || r.0 == 8) ==> r.1 <= 30,
        r.0 == 11 ==> r.1 <= 29,
        r.0 == 11 && r.1 == 29 ==> doy == 365,
{
    proof {
        lemma_month_of_day(doy as int);
    }
    let mp: i64 = (5 * doy + 2) / 153;
    let d: i64 = doy - (153 * mp + 2) / 5 + 1;
    (mp, d)
}

proof fn lemma_civil(era: int, yoe: int, doy: int, mp: int, d: int)
    requires
        0 <= yoe <= 399,
        0 <= doy <= 365,
        doy == 365 ==> (yoe + 1) % 4 == 0 && ((yoe + 1) % 100 != 0 || yoe + 1 == 400),
        0 <= mp <= 11,
        1 <= d <= 31,
        doy == march_start(mp) + d - 1,
        (mp == 1 || mp == 3 || mp == 6 || mp == 8) ==> d <= 30,
        mp == 11 ==> d <= 29,
        mp == 11 && d == 29 ==> doy == 365,
    ensures
        ({
            let y = 400 * era + yoe;
            let m = if mp < 10 {
                mp + 3
            } else {
                mp - 9
            };
            let year = if m <= 2 {
                y + 1
            } else {
                y
            };
            &&& is_date(year, m, d)
            &&& day_number(year, m, d) == 146097 * era + 365 * yoe + yoe / 4 - yoe / 100 + doy
                - 719468
        }),
{
    let y = 400 * era + yoe;
    let m = if mp < 10 {
        mp + 3
    } else {
        mp - 9
    };
    let year = if m <= 2 {
        y + 1
    } else {
        y
    };
    lemma_era(era, yoe);
    lemma_days_before_march(y);
    lemma_days_before_month(year, m);
    assert(days_before_year(1970) == 719162);
}

/// The date of a day, counted from the first of January 1970.
pub fn civil_from_days(z: i64) -> (r: (i64, u32, u32))
    requires
        z <= i64::MAX - 719468,
        z >= i64::MIN + 146096,
    ensures
        is_date(r.0 as int, r.1 as int, r.2 as int),
        day_number(r.0 as int, r.1 as int, r.2 as int) == z,
{
    let shifted: i64 = z + 719468;
    let era: i64 = if shifted >= 0 {
        shifted / 146097
    } else {
        -((146096 - shifted) / 146097)
    };
    let doe: i64 = shifted - era * 146097;
    let (yoe, doy) = split_era(doe);
    let (mp, d) = split_year(doy);
    proof {
        lemma_civil(era as int, yoe as int, doy as int, mp as int, d as int);
    }
    let y: i64 = yoe + era * 400;
    let m: i64 = if mp < 10 {
        mp + 3
    } else {
        mp - 9
    };
    let year: i64 = if m <= 2 {
        y + 1
    } else {
        y
    };
    (year, m as u32, d as u32)
}

/// A day has one date.
pub proof fn lemma_date_unique(y1: int, m1: int, d1: int, y2: int, m2: int, d2: int)
    requires
        is_date(y1, m1, d1),
        is_date(y2, m2, d2),
        day_number(y1, m1, d1) == day_number(y2, m2, d2),
    ensures
        y1 == y2,
        m1 == m2,
        d1 == d2,
{
    lemma_year_bounds(y1, m1, d1);
    lemma_year_bounds(y2, m2, d2);
    if y1 < y2 {
        lemma_years_grow(y1 + 1, y2);
    }
    if y2 < y1 {
        lemma_years_grow(y2 + 1, y1);
    }
    if m1 < m2 {
        lemma_months_grow(y1, m1 + 1, m2);
    }
    if m2 < m1 {
        lemma_months_grow(y1, m2 + 1, m1);
    }
}

proof fn lemma_months_grow(y: int, a: int, b: int)
    requires
        1 <= a <= b,
    ensures
        days_before_month(y, a) <= days_before_month(y, b),
    decreases b,
{
    if a < b {
        lemma_months_grow(y, a, b - 1);
    }
}

proof fn lemma_years_grow(a: int, b: int)
    requires
        a <= b,
    ensures
        days_before_year(a) <= days_before_year(b),
    decreases b - a,
{
    if a < b {
        lemma_years_grow(a, b - 1);
        lemma_days_before_march(b - 1);
    }
}

proof fn lemma_year_bounds(y: int, m: int, d: int)
    requires
        is_date(y, m, d),
    ensures
        0 <= days_before_month(y, m) + (d - 1),
        days_before_year(y) + days_before_month(y, m) + (d - 1) < days_before_year(y + 1),
{
    lemma_days_before_month(y, m);
    lemma_days_before_march(y);
}

/// The year, month and day of a day, counted from the first of January 1970.
pub open spec fn civil(days: int) -> (int, int, int) {
    choose|t: (int, int, int)|
        #![trigger is_date(t.0, t.1, t.2)]
        is_date(t.0, t.1, t.2) && day_number(t.0, t.1, t.2) == days
}

/// The date with a day number is the date of that day.
pub proof fn lemma_civil_is(days: int, y: int, m: int, d: int)
    requires
        is_date(y, m, d),
        day_number(y, m, d) == days,
    ensures
        civil(days) == (y, m, d),
{
    let t = (y, m, d);
    assert(is_date(t.0, t.1, t.2));
    let c = civil(days);
    lemma_date_unique(c.0, c.1, c.2, y, m, d);
}

proof fn lemma_year_after_1970(y: int, m: int, d: int)
    requires
        is_date(y, m, d),
        day_number(y, m, d) >= 0,
    ensures
        y >= 1970,
{
    if y < 1970 {
        lemma_year_bounds(y, m, d);
        lemma_years_grow(y + 1, 1970);
    }
}

/// A date as `YYYY-MM-DD`.
pub open spec fn date_text(t: (int, int, int)) -> Seq<char> {
    padded(t.0 as nat, 4) + seq!['-'] + padded(t.1 as nat, 2) + seq!['-'] + padded(t.2 as nat, 2)
}

/// The day on which a moment falls, counted from the first of January 1970.
pub open spec fn day_of(ts: u64) -> int {
    ts as int / 86_400_000
}

/// The date on which a moment falls.
pub open spec fn date_of(ts: u64) -> Seq<char> {
    date_text(civil(day_of(ts)))
}

/// The date, in universal time, of a moment in milliseconds since 1970.
pub fn date_from_ts(ts: u64) -> (r: String)
    ensures
        r@ == date_of(ts),
{
    let days: i64 = (ts / 86_400_000) as i64;
    let (y, m, d) = civil_from_days(days);
    proof {
        lemma_civil_is(days as int, y as int, m as int, d as int);
        lemma_year_after_1970(y as int, m as int, d as int);
    }
    let mut s = write_padded(y as u64, 4);
    s.push('-');
    s.push_str(write_padded(m as u64, 2).as_str());
    s.push('-');
    s.push_str(write_padded(d as u64, 2).as_str());
    assert(s@ =~= date_of(ts));
    s
}

/// A moment as a signed number of milliseconds.
pub open spec fn signed_ms(ts: u64) -> int {
    if ts <= i64::MAX {
        ts as int
    } else {
        ts - 0x1_0000_0000_0000_0000
    }
}

/// An offset from universal time that can be added to a moment.
pub open spec fn offset_fits(ts: u64, offset_secs: i64) -> bool {
    &&& i64::MIN <= offset_secs * 1000 <= i64::MAX
    &&& i64::MIN <= signed_ms(ts) + offset_secs * 1000 <= i64::MAX
}

/// A moment shifted by an offset, at 0 when it would lie before 1970.
pub open spec fn shifted(ts: u64, offset_secs: i64) -> u64 {
    let t = signed_ms(ts) + offset_secs * 1000;
    if t < 0 {
        0
    } else {
        t as u64
    }
}

/// Shifts a moment by an offset in seconds.
pub fn saturating_add_offset_ms(ts: u64, offset_secs: i64) -> (r: u64)
    requires
        offset_fits(ts, offset_secs),
    ensures
        r == shifted(ts, offset_secs),
{
    let t: i64 = if ts <= i64::MAX as u64 {
        ts as i64
    } else {
        -((u64::MAX - ts) as i64) - 1
    };
    let sum: i64 = t + offset_secs * 1000;
    if sum < 0 {
        0
    } else {
        sum as u64
    }
}

/// The local date of a moment.
pub fn date_from_ts_local(ts: u64, offset_secs: i64) -> (r: String)
    requires
        offset_fits(ts, offset_secs),
    ensures
        r@ == date_of(shifted(ts, offset_secs)),
{
    date_from_ts(saturating_add_offset_ms(ts, offset_secs))
}

/// The time of day at a moment, as `HH:MM`.
pub open spec fn time_of(ts: u64) -> Seq<char> {
    let minutes = ts as int / 60_000 % 1440;
    padded((minutes / 60) as nat, 2) + seq![':'] + padded((minutes % 60) as nat, 2)
}

proof fn lemma_whole_minutes(ms: int)
    requires
        ms >= 0,
    ensures
        ms / 60_000 == ms / 1000 / 60,
{
    let s = ms / 1000;
    assert(ms == 1000 * s + ms % 1000);
    assert(s == 60 * (s / 60) + s % 60);
}

proof fn lemma_minutes_of_day(secs: int)
    requires
        secs >= 0,
    ensures
        secs % 86400 / 3600 == secs / 60 % 1440 / 60,
        secs % 86400 % 3600 / 60 == secs / 60 % 1440 % 60,
{
    let q = secs / 86400;
    let r = secs % 86400;
    assert(secs == 86400 * q + r);
    let n = r / 60;
    assert(0 <= n < 1440);
    assert(secs / 60 == 1440 * q + n);
    assert(secs / 60 % 1440 == n);
    assert(r == 60 * n + r % 60);
    assert(r / 3600 == n / 60);
    assert(r % 3600 / 60 == n % 60);
}

/// The local time of day of a moment.
pub fn time_hhmm_from_ts_local(ts: u64, offset_secs: i64) -> (r: String)
    requires
        offset_fits(ts, offset_secs),
    ensures
        r@ == time_of(shifted(ts, offset_secs)),
{
    let biased: u64 = saturating_add_offset_ms(ts, offset_secs);
    let in_day: u64 = biased / 1000 % 86400;
    let h: u64 = in_day / 3600;
    let m: u64 = in_day % 3600 / 60;
    proof {
        lemma_minutes_of_day(biased as int / 1000);
        lemma_whole_minutes(biased as int);
    }
    let mut s = write_padded(h, 2);
    s.push(':');
    s.push_str(write_padded(m, 2).as_str());
    assert(s@ =~= time_of(biased));
    s
}

/// The offset of local time from universal time, in seconds, of a time zone as
/// Windows tells it: so many minutes from local to universal time, and so many more
/// in standard time, whose id is 1, and in summer time, whose id is 2.
pub fn zone_offset_secs(id: u32, bias: i32, standard: i32, daylight: i32) -> (r: i64)
    ensures
        r == -60 * (bias + if id == 2 {
            daylight as int
        } else if id == 1 {
            standard as int
        } else {
            0
        }),
{
    let more: i64 = if id == 2 {
        daylight as i64
    } else if id == 1 {
        standard as i64
    } else {
        0
    };
    -(bias as i64 + more) * 60
}

/// The offset of local time from universal time, in seconds, where the system's time
/// zone is not read: local time is universal time.
pub fn local_offset_secs() -> (r: i64)
    ensures
        r == 0,
{
    0
}

/// A later day has a later date.
pub proof fn lemma_days_in_order(a: u64, b: u64)
    requires
        day_of(a) < day_of(b),
    ensures
        ({
            let x = civil(day_of(a));
            let y = civil(day_of(b));
            x.0 < y.0 || (x.0 == y.0 && (x.1 < y.1 || (x.1 == y.1 && x.2 < y.2)))
        }),
{
    lemma_civil_exists(day_of(a));
    lemma_civil_exists(day_of(b));
    let x = civil(day_of(a));
    let y = civil(day_of(b));
    lemma_year_bounds(x.0, x.1, x.2);
    lemma_year_bounds(y.0, y.1, y.2);
    if y.0 < x.0 {
        lemma_years_grow(y.0 + 1, x.0);
    }
    if x.0 == y.0 && y.1 < x.1 {
        lemma_months_grow(x.0, y.1 + 1, x.1);
    }
}

/// Each day from 1970 on has a date.
pub proof fn lemma_civil_exists(days: int)
    requires
        days >= 0,
    ensures
        is_date(civil(days).0, civil(days).1, civil(days).2),
        day_number(civil(days).0, civil(days).1, civil(days).2) == days,
{
    let z = days + 719468;
    let era = z / 146097;
    let doe = z % 146097;
    lemma_year_of_era(doe as u32);
    let yoe = (doe - doe / 1460 + doe / 36524 - doe / 146096) / 365;
    let doy = doe - (365 * yoe + yoe / 4 - yoe / 100);
    lemma_month_of_day(doy);
    let mp = (5 * doy + 2) / 153;
    let d = doy - march_start(mp) + 1;
    lemma_civil(era, yoe, doy, mp, d);
    let m = if mp < 10 {
        mp + 3
    } else {
        mp - 9
    };
    let y = 400 * era + yoe;
    let year = if m <= 2 {
        y + 1
    } else {
        y
    };
    lemma_civil_is(days, year, m, d);
}

/// The date after a date.
pub open spec fn date_after(t: (int, int, int)) -> (int, int, int) {
    if t.2 < days_in_month(t.0, t.1) {
        (t.0, t.1, t.2 + 1)
    } else if t.1 < 12 {
        (t.0, t.1 + 1, 1)
    } else {
        (t.0 + 1, 1, 1)
    }
}

/// The next day has the next date of the calendar.
pub proof fn lemma_next_date(days: int)
    requires
        days >= 0,
    ensures
        civil(days + 1) == date_after(civil(days)),
{
    lemma_civil_exists(days);
    let t = civil(days);
    let n = date_after(t);
    if t.1 == 12 {
        lemma_days_before_month(t.0, 12);
        lemma_days_before_march(t.0);
        assert(days_before_month(n.0, 1) == 0);
    }
    assert(is_date(n.0, n.1, n.2));
    assert(day_number(n.0, n.1, n.2) == days + 1);
    lemma_civil_is(days + 1, n.0, n.1, n.2);
}

/// All moments of one day have one date, and a moment a day later has the next date of
/// the calendar.
pub proof fn lemma_day_by_day(a: u64, b: u64)
    ensures
        day_of(a) == day_of(b) ==> date_of(a) == date_of(b),
        b == a + 86_400_000 ==> date_of(b) == date_text(date_after(civil(day_of(a)))),
{
    if b == a + 86_400_000 {
        assert(day_of(b) == day_of(a) + 1);
        lemma_next_date(day_of(a));
    }
}

/// Up to the year 9999 a date has four digits, two and two, with dashes between them.
pub proof fn lemma_date_form(ts: u64)
    requires
        civil(day_of(ts)).0 <= 9999,
    ensures
        date_of(ts).len() == 10,
        forall|i: int|
            0 <= i < 10 ==> if i == 4 || i == 7 {
                #[trigger] date_of(ts)[i] == '-'
            } else {
                is_digit(date_of(ts)[i])
            },
{
    lemma_civil_exists(day_of(ts));
    let t = civil(day_of(ts));
    lemma_year_after_1970(t.0, t.1, t.2);
    lemma_padded_form(t.0 as nat, 4);
    lemma_padded_form(t.1 as nat, 2);
    lemma_padded_form(t.2 as nat, 2);
}

/// A time of day has two digits for the hours, up to 23, and two for the minutes, up to
/// 59.
pub proof fn lemma_time_form(ts: u64)
    ensures
        exists|h: nat, m: nat|
            h <= 23 && m <= 59 && time_of(ts) == #[trigger] padded(h, 2) + seq![':']
                + #[trigger] padded(m, 2),
        time_of(ts).len() == 5,
{
    let minutes = ts as int / 60_000 % 1440;
    let h = (minutes / 60) as nat;
    let m = (minutes % 60) as nat;
    lemma_padded_form(h, 2);
    lemma_padded_form(m, 2);
    assert(time_of(ts) == padded(h, 2) + seq![':'] + padded(m, 2));
}

/// An offset from universal time is a shift of the time: with it a moment has the time
/// of day that the shifted moment has without it.
pub proof fn lemma_offset_shifts(ts: u64, offset_secs: i64)
    requires
        offset_fits(ts, offset_secs),
        signed_ms(ts) + offset_secs * 1000 >= 0,
    ensures
        shifted(ts, offset_secs) == signed_ms(ts) + offset_secs * 1000,
        offset_fits(shifted(ts, offset_secs), 0),
        time_of(shifted(shifted(ts, offset_secs), 0)) == time_of(shifted(ts, offset_secs)),
{
}

proof fn lemma_minutes_later(a: int)
    ensures
        (a + 86_400_000) / 60_000 % 1440 == a / 60_000 % 1440,
{
    assert((a + 86_400_000) / 60_000 == a / 60_000 + 1440);
    let m = a / 60_000;
    assert((m + 1440) % 1440 == m % 1440);
}

/// A day later it is the same time of day.
pub proof fn lemma_same_time_next_day(ts: u64, offset_secs: i64)
    requires
        offset_fits(ts, offset_secs),
        signed_ms(ts) + offset_secs * 1000 >= 0,
        ts + 86_400_000 <= i64::MAX || (ts > i64::MAX && ts + 86_400_000 <= u64::MAX),
        offset_fits((ts + 86_400_000) as u64, offset_secs),
    ensures
        time_of(shifted((ts + 86_400_000) as u64, offset_secs)) == time_of(
            shifted(ts, offset_secs),
        ),
{
    let a = shifted(ts, offset_secs);
    let b = shifted((ts + 86_400_000) as u64, offset_secs);
    assert(b == a + 86_400_000);
    lemma_minutes_later(a as int);
}

} // verus!
