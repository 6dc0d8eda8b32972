//! Proleptic Gregorian calendar arithmetic, zone-agnostic.
//!
//! Instants are counted in seconds from the epoch 1970-01-01 00:00:00.
//! Internally, days are also counted from a year-zero origin 0000-01-01
//! (the epoch is day 719528 of that count), which keeps every formula a
//! plain floor-division expression that works for negative years too.

use vstd::prelude::*;

verus! {

use vstd::arithmetic::div_mod::lemma_fundamental_div_mod;
use vstd::arithmetic::div_mod::lemma_fundamental_div_mod_converse;
use vstd::arithmetic::div_mod::lemma_mod_bound;

/// Days from 0000-01-01 to 1970-01-01.
pub const EPOCH_DAY: i64 = 719528;

/// Smallest supported year (inclusive): the exact lower bound of what the
/// `i32` year-minus-1900 field of a broken-down time can carry.
pub const YEAR_MIN: i64 = -2_147_481_748;

/// Largest supported year (exclusive): one past the exact upper bound of the
/// `i32` year-minus-1900 field.
pub const YEAR_MAX: i64 = 2_147_485_548;

/// `days_before_year(YEAR_MIN)`: smallest supported year-zero-based day (inclusive).
pub const ABS_DAY_MIN: i64 = -784_351_602_344;

/// `days_before_year(YEAR_MAX)`: largest supported year-zero-based day (exclusive).
pub const ABS_DAY_MAX: i64 = 784_352_990_265;

pub open spec fn is_leap_year(y: int) -> bool {
    y % 4 == 0 && (y % 100 != 0 || y % 400 == 0)
}

/// Leap years in `[0, y)` for `y >= 0`, and minus the number in `[y, 0)` for `y < 0`.
pub open spec fn leap_count_through(y: int) -> int {
    (y + 3) / 4 - (y + 99) / 100 + (y + 399) / 400
}

/// Days from 0000-01-01 to the start of year `y` (negative for years before zero).
pub open spec fn days_before_year(y: int) -> int {
    365 * y + leap_count_through(y)
}

/// Cumulative days before month `m` (0 = January) in a common year; `m == 12`
/// gives the length of a common year.
pub open spec fn month_table(m: int) -> int {
    if m <= 0 {
        0
    } else if m == 1 {
        31
    } else if m == 2 {
        59
    } else if m == 3 {
        90
    } else if m == 4 {
        120
    } else if m == 5 {
        151
    } else if m == 6 {
        181
    } else if m == 7 {
        212
    } else if m == 8 {
        243
    } else if m == 9 {
        273
    } else if m == 10 {
        304
    } else if m == 11 {
        334
    } else {
        365
    }
}

/// Days from the start of year `y` to the start of month `m` of that year.
pub open spec fn days_before_month(y: int, m: int) -> int {
    month_table(m) + if m >= 2 && is_leap_year(y) {
        1int
    } else {
        0int
    }
}

pub open spec fn days_in_year(y: int) -> int {
    365 + if is_leap_year(y) {
        1int
    } else {
        0int
    }
}

pub open spec fn days_in_month(y: int, m: int) -> int {
    days_before_month(y, m + 1) - days_before_month(y, m)
}

/// Epoch-based day number of the civil date (`y`, `m`, `d`), month 0-based, day 1-based.
pub open spec fn day_of_epoch(y: int, m: int, d: int) -> int {
    days_before_year(y) + days_before_month(y, m) + d - 1 - EPOCH_DAY
}

/// Epoch-based instant of a civil date and time of day.
pub open spec fn civil_secs(y: int, m: int, d: int, h: int, mi: int, s: int) -> int {
    86400 * day_of_epoch(y, m, d) + 3600 * h + 60 * mi + s
}

/// Day of the week of epoch day `z` (0 = Sunday); the epoch itself was a Thursday.
pub open spec fn weekday_of_day(z: int) -> int {
    (z + 4) % 7
}

proof fn lemma_div_in_i64_range(a: int, b: int)
    requires
        2 <= b <= 1_000_000,
        -0x8000_0000_0000_0000 <= a < 0x8000_0000_0000_0000,
    ensures
        -0x8000_0000_0000_0000 <= a / b < 0x8000_0000_0000_0000,
        0 <= a % b < b,
        a == b * (a / b) + a % b,
{
    lemma_fundamental_div_mod(a, b);
    lemma_mod_bound(a, b);
    let q = a / b;
    let r = a % b;
    assert(-0x8000_0000_0000_0000 <= q < 0x8000_0000_0000_0000) by (nonlinear_arith)
        requires
            a == b * q + r,
            0 <= r < b,
            2 <= b <= 1_000_000,
            -0x8000_0000_0000_0000 <= a < 0x8000_0000_0000_0000,
    ;
}

/// Floor division by a small positive constant, exactly the `/` of specifications.
pub fn fdiv(a: i64, b: i64) -> (q: i64)
    requires
        2 <= b <= 1_000_000,
    ensures
        q as int == a as int / b as int,
        b as int * q as int <= a as int,
        (a as int) < b as int * q as int + b as int,
{
    proof {
        lemma_div_in_i64_range(a as int, b as int);
    }
    match a.checked_div_euclid(b) {
        Some(q) => q,
        None => {
            proof {
                assert(false);
            }
            0
        },
    }
}

/// Floor remainder by a small positive constant, exactly the `%` of specifications.
pub fn fmod(a: i64, b: i64) -> (m: i64)
    requires
        2 <= b <= 1_000_000,
    ensures
        m as int == a as int % b as int,
        0 <= m < b,
        a as int == b as int * (a as int / b as int) + m as int,
{
    proof {
        lemma_div_in_i64_range(a as int, b as int);
    }
    match a.checked_rem_euclid(b) {
        Some(m) => m,
        None => {
            proof {
                assert(false);
            }
            0
        },
    }
}

proof fn lemma_div_shift(y: int, c: int)
    requires
        c >= 1,
    ensures
        (y + c) / c == y / c + 1,
        (y + c - 1) / c == y / c + if y % c == 0 {
            0int
        } else {
            1int
        },
{
    lemma_fundamental_div_mod(y, c);
    lemma_mod_bound(y, c);
    let q = y / c;
    let r = y % c;
    assert((q + 1) * c == c * q + c) by (nonlinear_arith);
    assert(q * c == c * q) by (nonlinear_arith);
    lemma_fundamental_div_mod_converse(y + c, c, q + 1, r);
    if r == 0 {
        lemma_fundamental_div_mod_converse(y + c - 1, c, q, c - 1);
    } else {
        lemma_fundamental_div_mod_converse(y + c - 1, c, q + 1, r - 1);
    }
}

proof fn lemma_divisibility_chain(y: int)
    ensures
        y % 400 == 0 ==> y % 100 == 0,
        y % 100 == 0 ==> y % 4 == 0,
{
    if y % 400 == 0 {
        lemma_fundamental_div_mod(y, 400);
        let q = y / 400;
        assert((4 * q) * 100 == 400 * q) by (nonlinear_arith);
        lemma_fundamental_div_mod_converse(y, 100, 4 * q, 0);
    }
    if y % 100 == 0 {
        lemma_fundamental_div_mod(y, 100);
        let q = y / 100;
        assert((25 * q) * 4 == 100 * q) by (nonlinear_arith);
        lemma_fundamental_div_mod_converse(y, 4, 25 * q, 0);
    }
}

/// A year's day count is its 365 days plus its leap day, and the cumulative
/// count `days_before_year` steps by exactly that.
pub proof fn lemma_year_delta(y: int)
    ensures
        days_before_year(y + 1) == days_before_year(y) + days_in_year(y),
{
    lemma_div_shift(y, 4);
    lemma_div_shift(y, 100);
    lemma_div_shift(y, 400);
    lemma_divisibility_chain(y);
}

/// The cumulative day count never decreases as years advance.
pub proof fn lemma_dby_monotone(y1: int, y2: int)
    requires
        y1 <= y2,
    ensures
        days_before_year(y1) <= days_before_year(y2),
    decreases y2 - y1,
{
    if y1 < y2 {
        lemma_year_delta(y2 - 1);
        lemma_dby_monotone(y1, y2 - 1);
    }
}

/// Evaluates `days_before_year`.
pub fn days_before_year_x(y: i64) -> (r: i64)
    requires
        -2_500_000_000 <= y <= 2_500_000_000,
    ensures
        r as int == days_before_year(y as int),
{
    let a = 365 * y;
    let b4 = fdiv(y + 3, 4);
    let b100 = fdiv(y + 99, 100);
    let b400 = fdiv(y + 399, 400);
    a + b4 - b100 + b400
}

/// Evaluates `is_leap_year`.
pub fn is_leap_year_x(y: i64) -> (r: bool)
    requires
        -2_500_000_000 <= y <= 2_500_000_000,
    ensures
        r == is_leap_year(y as int),
{
    fmod(y, 4) == 0 && (fmod(y, 100) != 0 || fmod(y, 400) == 0)
}

/// Evaluates `days_before_month`.
pub fn days_before_month_x(y: i64, m: i64) -> (r: i64)
    requires
        -2_500_000_000 <= y <= 2_500_000_000,
        0 <= m <= 12,
    ensures
        r as int == days_before_month(y as int, m as int),
        0 <= r <= 366,
{
    let base: i64 = if m <= 0 {
        0
    } else if m == 1 {
        31
    } else if m == 2 {
        59
    } else if m == 3 {
        90
    } else if m == 4 {
        120
    } else if m == 5 {
        151
    } else if m == 6 {
        181
    } else if m == 7 {
        212
    } else if m == 8 {
        243
    } else if m == 9 {
        273
    } else if m == 10 {
        304
    } else if m == 11 {
        334
    } else {
        365
    };
    if m >= 2 && is_leap_year_x(y) {
        base + 1
    } else {
        base
    }
}

/// Epoch-based day number of a civil date whose day-of-month may lie far
/// outside its month: the excess simply carries into the day count.
pub fn civil_days_x(y: i64, mon: i64, mday: i64) -> (r: i64)
    requires
        -2_500_000_000 <= y <= 2_500_000_000,
        0 <= mon < 12,
        -2_200_000_000 <= mday <= 2_200_000_000,
    ensures
        r as int == day_of_epoch(y as int, mon as int, mday as int),
{
    days_before_year_x(y) + days_before_month_x(y, mon) + (mday - 1) - EPOCH_DAY
}

/// One broken-down civil date and time of day, plus its derived weekday and
/// day of the year. The year is absolute (not offset by 1900) and the month
/// is 0-based.
pub struct Fields {
    pub year: i64,
    pub mon: i64,
    pub mday: i64,
    pub hour: i64,
    pub min: i64,
    pub sec: i64,
    pub wday: i64,
    pub yday: i64,
}

/// Every field within its calendar range, and the derived fields consistent
/// with the date.
pub open spec fn fields_wf(f: Fields) -> bool {
    &&& YEAR_MIN <= f.year < YEAR_MAX
    &&& 0 <= f.mon < 12
    &&& 1 <= f.mday <= days_in_month(f.year as int, f.mon as int)
    &&& 0 <= f.hour < 24
    &&& 0 <= f.min < 60
    &&& 0 <= f.sec < 60
    &&& f.wday == weekday_of_day(day_of_epoch(f.year as int, f.mon as int, f.mday as int))
    &&& f.yday == days_before_month(f.year as int, f.mon as int) + f.mday - 1
}

/// The instant a well-formed `Fields` denotes.
pub open spec fn fields_secs(f: Fields) -> int {
    civil_secs(f.year as int, f.mon as int, f.mday as int, f.hour as int, f.min as int, f.sec as int)
}

/// Whether an instant's civil date falls inside the supported year range.
pub open spec fn representable_secs(t: int) -> bool {
    ABS_DAY_MIN <= t / 86400 + EPOCH_DAY < ABS_DAY_MAX
}

/// Decomposes an instant into civil fields: the exact inverse of
/// `fields_secs` on the supported range, found by binary search over the
/// year and a linear scan over the months.
pub fn break_down(t: i64) -> (r: Option<Fields>)
    ensures
        r is Some <==> representable_secs(t as int),
        r is Some ==> fields_wf(r->0) && fields_secs(r->0) == t as int,
{
    let z = fdiv(t, 86400);
    let sod = fmod(t, 86400);
    if z < ABS_DAY_MIN - EPOCH_DAY || z >= ABS_DAY_MAX - EPOCH_DAY {
        return None;
    }
    let a = z + EPOCH_DAY;
    proof {
        assert(days_before_year(YEAR_MIN as int) == ABS_DAY_MIN as int);
        assert(days_before_year(YEAR_MAX as int) == ABS_DAY_MAX as int);
    }
    let mut lo: i64 = YEAR_MIN;
    let mut hi: i64 = YEAR_MAX;
    while hi - lo > 1
        invariant
            YEAR_MIN <= lo < hi <= YEAR_MAX,
            days_before_year(lo as int) <= a as int,
            (a as int) < days_before_year(hi as int),
            a == z + EPOCH_DAY,
        decreases hi - lo,
    {
        let mid = lo + fdiv(hi - lo, 2);
        let d = days_before_year_x(mid);
        if d <= a {
            lo = mid;
        } else {
            hi = mid;
        }
    }
    let y = lo;
    proof {
        lemma_year_delta(y as int);
    }
    let doy = a - days_before_year_x(y);
    let mut m: i64 = 0;
    while m < 11 && days_before_month_x(y, m + 1) <= doy
        invariant
            0 <= m <= 11,
            -2_500_000_000 <= y <= 2_500_000_000,
            days_before_month(y as int, m as int) <= doy as int,
            0 <= doy < 366,
        decreases 11 - m,
    {
        m += 1;
    }
    let mday = doy - days_before_month_x(y, m) + 1;
    let hour = fdiv(sod, 3600);
    let rem = fmod(sod, 3600);
    let min = fdiv(rem, 60);
    let sec = fmod(rem, 60);
    let wday = fmod(z + 4, 7);
    Some(Fields { year: y, mon: m, mday, hour, min, sec, wday, yday: doy })
}

} // verus!
