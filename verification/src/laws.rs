//! The guarantees that hold across the conversions, stated and proved over
//! the same specification functions the conversions' contracts use.

use vstd::prelude::*;

verus! {

use crate::calendar::day_of_epoch;
use crate::calendar::lemma_dby_monotone;
use crate::calendar::lemma_year_delta;
use crate::calendar::representable_secs;
use crate::calendar::ABS_DAY_MAX;
use crate::calendar::ABS_DAY_MIN;
use crate::calendar::EPOCH_DAY;
use crate::calendar::YEAR_MAX;
use crate::calendar::YEAR_MIN;
use crate::table::idx_le;
use crate::table::leap_keys;
use crate::table::leap_whens;
use crate::table::lemma_idx_le;
use crate::table::TransitionTable;
use crate::timezone::cand_instant;
use crate::timezone::cand_valid;
use crate::timezone::localtime_post;
use crate::timezone::mktime_post;
use crate::tm_fields_wf;
use crate::tm_norm_ok;
use crate::tm_norm_secs;
use crate::tm_utc_secs;
use crate::Error;
use crate::TimeT;
use crate::Tm;
use vstd::arithmetic::div_mod::lemma_fundamental_div_mod_converse;

/// On fields already in their calendar ranges, normalization is the
/// identity: the normalized instant is the instant the fields denote, and it
/// is representable exactly when that instant is.
pub proof fn lemma_norm_of_wf(tm: Tm)
    requires
        tm_fields_wf(tm),
    ensures
        tm_norm_secs(tm) == tm_utc_secs(tm),
        tm_norm_ok(tm) <==> representable_secs(tm_utc_secs(tm)),
{
    let tot = tm.tm_sec + 60 * tm.tm_min + 3600 * tm.tm_hour;
    assert(0 <= tot < 86400);
    lemma_fundamental_div_mod_converse(tot, 86400, 0, tot);
    lemma_fundamental_div_mod_converse(tm.tm_mon as int, 12, 0, tm.tm_mon as int);
    let d = day_of_epoch(1900 + tm.tm_year, tm.tm_mon as int, tm.tm_mday as int);
    lemma_fundamental_div_mod_converse(tm_utc_secs(tm), 86400, d, tot);
}

/// A date whose fields lie in the supported calendar ranges always denotes a
/// representable instant.
pub proof fn lemma_wf_fields_representable(tm: Tm)
    requires
        tm_fields_wf(tm),
    ensures
        representable_secs(tm_utc_secs(tm)),
{
    let y = 1900 + tm.tm_year;
    let tot = tm.tm_sec + 60 * tm.tm_min + 3600 * tm.tm_hour;
    let d = day_of_epoch(y, tm.tm_mon as int, tm.tm_mday as int);
    lemma_dby_monotone(YEAR_MIN as int, y);
    lemma_year_delta(y);
    lemma_dby_monotone(y + 1, YEAR_MAX as int);
    assert(ABS_DAY_MIN <= d + EPOCH_DAY < ABS_DAY_MAX);
    lemma_fundamental_div_mod_converse(tm_utc_secs(tm), 86400, d, tot);
}

/// Converting an instant to civil time in UTC and back returns the instant:
/// whenever broken-down fields denote `t` and the inverse conversion obeys
/// its contract, it succeeds with exactly `t`.
pub proof fn lemma_timegm_gmtime_round_trip(t: int, tm: Tm, r: Result<TimeT, Error>)
    requires
        tm_fields_wf(tm),
        tm_utc_secs(tm) == t,
        r is Ok <==> tm_norm_ok(tm),
        r is Ok ==> r->Ok_0 as int == tm_norm_secs(tm),
    ensures
        r is Ok,
        r->Ok_0 as int == t,
{
    lemma_norm_of_wf(tm);
    lemma_wf_fields_representable(tm);
}

/// Converting an instant to zoned civil time and back returns the instant,
/// provided no earlier instant shows the same civil time with the same
/// daylight flag (distinct fall-back duplicates always differ in the flag;
/// only a table whose transitions repeat a flag while shifting the offset
/// could produce such a tie, and then the earlier instant is returned).
pub proof fn lemma_mktime_localtime_round_trip(
    t: TransitionTable,
    x: int,
    tm: Tm,
    r: Result<TimeT, Error>,
)
    requires
        t.wf(),
        localtime_post(t, x, tm),
        mktime_post(t, tm, r),
        forall|c: int|
            t.utoff_at(c) == x + t.utoff_at(x) - c && t.isdst_at(c) == t.isdst_at(x) ==> x <= c,
    ensures
        r is Ok,
        r->Ok_0 as int == x,
{
    let g = tm_norm_secs(tm);
    lemma_norm_of_wf(tm);
    lemma_wf_fields_representable(tm);
    assert(g == x + t.utoff_at(x));
    let i0 = t.type_at(x);
    t.lemma_type_at_in_range(x);
    assert(t.types@[i0].utoff as int == t.utoff_at(x));
    assert(cand_instant(t, g, i0) == x);
    assert(cand_valid(t, g, i0));
    assert(r is Ok);
    let v = r->Ok_0 as int;
    assert(t.utoff_at(v) == g - v);
    let want = tm.tm_isdst > 0;
    assert(want == t.isdst_at(x));
    assert(t.isdst_at(cand_instant(t, g, i0)) == want);
    assert(t.isdst_at(v) == want && v <= cand_instant(t, g, i0));
    assert(x <= v);
}

/// The POSIX round trip: removing the leap correction from the instant that
/// a POSIX value maps to gives back that value, for tables whose records
/// each insert one second.
pub proof fn lemma_leap_round_trip(t: TransitionTable, x: int)
    requires
        t.wf(),
        forall|i: int| 0 <= i < t.leaps@.len() ==> (#[trigger] t.leaps@[i].corr) == i + 1,
    ensures
        t.t2p_spec(t.p2t_spec(x)) == x,
{
    let ks = leap_keys(t);
    let ws = leap_whens(t);
    lemma_idx_le(ks, x);
    let i = idx_le(ks, x);
    if i < 0 {
        lemma_idx_le(ws, x);
        let j = idx_le(ws, x);
        if j >= 0 {
            assert(ks[j] == t.leaps@[j].when - t.leaps@[j].corr);
            assert(ks[j] <= x);
        }
    } else {
        let v = x + t.leaps@[i].corr;
        lemma_idx_le(ws, v);
        let j = idx_le(ws, v);
        assert(ws[i] == t.leaps@[i].when);
        assert(ws[i] <= v);
        assert(j >= i);
        if j > i {
            assert(ws[j] <= v);
            assert(!(ks[j] <= x));
            assert(ws[j] == ks[j] + j + 1);
        }
        assert(j == i);
    }
}

/// Broken-down fields in their calendar ranges are determined by the
/// instant they denote: civil decomposition is unique.
pub proof fn lemma_fields_unique(a: Tm, b: Tm)
    requires
        tm_fields_wf(a),
        tm_fields_wf(b),
        tm_utc_secs(a) == tm_utc_secs(b),
    ensures
        a.tm_sec == b.tm_sec,
        a.tm_min == b.tm_min,
        a.tm_hour == b.tm_hour,
        a.tm_mday == b.tm_mday,
        a.tm_mon == b.tm_mon,
        a.tm_year == b.tm_year,
        a.tm_wday == b.tm_wday,
        a.tm_yday == b.tm_yday,
{
    let t = tm_utc_secs(a);
    let da = day_of_epoch(1900 + a.tm_year, a.tm_mon as int, a.tm_mday as int);
    let db = day_of_epoch(1900 + b.tm_year, b.tm_mon as int, b.tm_mday as int);
    let ta = a.tm_sec + 60 * a.tm_min + 3600 * a.tm_hour;
    let tb = b.tm_sec + 60 * b.tm_min + 3600 * b.tm_hour;
    lemma_fundamental_div_mod_converse(t, 86400, da, ta);
    lemma_fundamental_div_mod_converse(t, 86400, db, tb);
    assert(da == db && ta == tb);
    lemma_fundamental_div_mod_converse(ta, 3600, a.tm_hour as int, a.tm_sec + 60 * a.tm_min);
    lemma_fundamental_div_mod_converse(ta, 3600, b.tm_hour as int, b.tm_sec + 60 * b.tm_min);
    lemma_fundamental_div_mod_converse(
        a.tm_sec + 60 * a.tm_min,
        60,
        a.tm_min as int,
        a.tm_sec as int,
    );
    lemma_fundamental_div_mod_converse(
        b.tm_sec + 60 * b.tm_min,
        60,
        b.tm_min as int,
        b.tm_sec as int,
    );
    let ya = 1900 + a.tm_year;
    let yb = 1900 + b.tm_year;
    lemma_year_delta(ya);
    lemma_year_delta(yb);
    if ya < yb {
        lemma_dby_monotone(ya + 1, yb);
        assert(false);
    }
    if yb < ya {
        lemma_dby_monotone(yb + 1, ya);
        assert(false);
    }
}

/// Converting the result of a successful zoned civil-to-instant conversion
/// back to civil time reproduces the normalized date and time-of-day fields.
pub proof fn lemma_localtime_of_mktime(
    t: TransitionTable,
    tm: Tm,
    r: Result<TimeT, Error>,
    tm2: Tm,
)
    requires
        t.wf(),
        mktime_post(t, tm, r),
        r is Ok,
        localtime_post(t, r->Ok_0 as int, tm2),
        tm_fields_wf(tm),
    ensures
        tm2.tm_sec == tm.tm_sec,
        tm2.tm_min == tm.tm_min,
        tm2.tm_hour == tm.tm_hour,
        tm2.tm_mday == tm.tm_mday,
        tm2.tm_mon == tm.tm_mon,
        tm2.tm_year == tm.tm_year,
{
    let v = r->Ok_0 as int;
    lemma_norm_of_wf(tm);
    assert(t.utoff_at(v) == tm_norm_secs(tm) - v);
    assert(tm_utc_secs(tm2) == tm_utc_secs(tm));
    lemma_fields_unique(tm, tm2);
}

/// A civil time repeated by a fall-back transition resolves, under an
/// unknown daylight hint, to the earlier of its instants.
pub proof fn lemma_fall_back_prefers_earlier(
    t: TransitionTable,
    tm: Tm,
    r: Result<TimeT, Error>,
    i: int,
    j: int,
)
    requires
        t.wf(),
        mktime_post(t, tm, r),
        tm.tm_isdst < 0,
        tm_norm_ok(tm),
        cand_valid(t, tm_norm_secs(tm), i),
        cand_valid(t, tm_norm_secs(tm), j),
        cand_instant(t, tm_norm_secs(tm), i) < cand_instant(t, tm_norm_secs(tm), j),
    ensures
        r is Ok,
        r->Ok_0 <= cand_instant(t, tm_norm_secs(tm), i),
        r->Ok_0 < cand_instant(t, tm_norm_secs(tm), j),
{
}

/// A civil time that no instant of the zone shows — one inside a
/// spring-forward gap — is rejected as invalid.
pub proof fn lemma_gap_rejected(t: TransitionTable, tm: Tm, r: Result<TimeT, Error>)
    requires
        t.wf(),
        mktime_post(t, tm, r),
        forall|c: int| c + t.utoff_at(c) != tm_norm_secs(tm),
    ensures
        r == Err::<TimeT, Error>(Error::InvalidCivilTime),
{
    if r is Ok {
        let v = r->Ok_0 as int;
        assert(t.utoff_at(v) == tm_norm_secs(tm) - v);
        assert(v + t.utoff_at(v) != tm_norm_secs(tm));
        assert(false);
    }
}

} // verus!
