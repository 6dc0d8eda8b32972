//! The long-lived handle for one loaded zone: it owns the transition table
//! and answers the local-time conversions and the POSIX mapping against it.

use vstd::prelude::*;

verus! {

use crate::calendar::break_down;
use crate::calendar::representable_secs;
use crate::parse::be32u;
use crate::parse::block_loaded;
use crate::parse::has_magic;
use crate::parse::legacy_size;
use crate::parse::parse_tzfile;
use crate::parse::tzfile_ok;
use crate::parse::version_ok;
use crate::table::TransitionTable;
use crate::tm_fields_wf;
use crate::tm_norm_ok;
use crate::tm_norm_secs;
use crate::tm_normalize;
use crate::tm_utc_secs;
use crate::Error;
use crate::TimeT;
use crate::Tm;
use vstd::string::StringSliceAdditionalSpecFns;

/// Exclusive owner of one loaded rule table; immutable after load, shared
/// read-only by any number of concurrent conversions.
pub struct Timezone {
    pub table: TransitionTable,
}

/// The zone identifier is plain text without an embedded NUL byte.
pub open spec fn name_ok(name: &str) -> bool {
    forall|i: int| 0 <= i < name.spec_bytes().len() ==> #[trigger] name.spec_bytes()[i] != 0
}

/// Offset `off` is a working guess for civil value `g`: subtracting it lands
/// on an instant that really is governed by that offset.
pub open spec fn cand_ok(t: TransitionTable, g: int, off: int) -> bool {
    t.utoff_at(g - off) == off
}

/// Record `i` of the table yields a working candidate for civil value `g`.
pub open spec fn cand_valid(t: TransitionTable, g: int, i: int) -> bool {
    &&& 0 <= i < t.types@.len()
    &&& cand_ok(t, g, t.types@[i].utoff as int)
}

/// The candidate instant record `i` yields for civil value `g`.
pub open spec fn cand_instant(t: TransitionTable, g: int, i: int) -> int {
    g - t.types@[i].utoff
}

/// What `localtime` promises of its result: fields in range denoting the
/// offset-shifted instant, and offset, daylight flag and abbreviation taken
/// from the record governing `x`.
pub open spec fn localtime_post(t: TransitionTable, x: int, tm: Tm) -> bool {
    &&& tm_fields_wf(tm)
    &&& tm_utc_secs(tm) == x + t.utoff_at(x)
    &&& tm.tm_gmtoff == t.utoff_at(x)
    &&& tm.tm_isdst == if t.isdst_at(x) {
        1int
    } else {
        0int
    }
    &&& tm.tm_zone@ == t.abbr_at(x)
}

/// What `mktime` promises: failure exactly when the normalized fields leave
/// the representable range or no record yields a working candidate; success
/// yields a working candidate, the earliest one when the daylight hint is
/// negative, and otherwise the earliest among those matching the hint if any
/// matches it, the earliest overall if none does.
pub open spec fn mktime_post(t: TransitionTable, tm: Tm, r: Result<TimeT, Error>) -> bool {
    let g = tm_norm_secs(tm);
    &&& (r is Err ==> r == Err::<TimeT, Error>(Error::InvalidCivilTime))
    &&& (!tm_norm_ok(tm) ==> r is Err)
    &&& (tm_norm_ok(tm) && (exists|i: int| cand_valid(t, g, i)) ==> r is Ok)
    &&& (r is Ok ==> exists|i: int|
        cand_valid(t, g, i) && r->Ok_0 == cand_instant(t, g, i))
    &&& (r is Ok ==> t.utoff_at(r->Ok_0 as int) == g - r->Ok_0)
    &&& (r is Ok && tm.tm_isdst < 0 ==> forall|i: int|
        cand_valid(t, g, i) ==> r->Ok_0 <= cand_instant(t, g, i))
    &&& (r is Ok && tm.tm_isdst >= 0 ==> {
        let want = tm.tm_isdst > 0;
        if exists|i: int| cand_valid(t, g, i) && t.isdst_at(cand_instant(t, g, i)) == want {
            t.isdst_at(r->Ok_0 as int) == want && forall|i: int|
                cand_valid(t, g, i) && t.isdst_at(cand_instant(t, g, i)) == want
                    ==> r->Ok_0 <= cand_instant(t, g, i)
        } else {
            forall|i: int| cand_valid(t, g, i) ==> r->Ok_0 <= cand_instant(t, g, i)
        }
    })
}

impl Timezone {
    pub open spec fn wf(self) -> bool {
        self.table.wf()
    }

    /// Loads a zone from its rule bytes. The name is an opaque identifier
    /// chosen by the caller; resolving it to bytes (filesystem lookup,
    /// defaults) is the caller's concern and the bytes alone govern.
    pub fn new(name: &str, bytes: &Vec<u8>) -> (r: Result<Timezone, Error>)
        ensures
            r is Ok ==> r->Ok_0.wf(),
            !name_ok(name) ==> r == Err::<Timezone, Error>(Error::EncodingError),
            name_ok(name) && bytes@.len() < 4 ==> r == Err::<Timezone, Error>(
                Error::TruncatedInput,
            ),
            name_ok(name) && bytes@.len() >= 4 && !has_magic(bytes@, 0) ==> r == Err::<
                Timezone,
                Error,
            >(Error::BadMagic),
            name_ok(name) && bytes@.len() >= 5 && has_magic(bytes@, 0) && !version_ok(bytes@[4])
                ==> r == Err::<Timezone, Error>(Error::UnsupportedVersion),
            r is Ok ==> name_ok(name) && bytes@.len() >= 5 && has_magic(bytes@, 0) && version_ok(
                bytes@[4],
            ),
            r is Ok && bytes@[4] == 0 ==> block_loaded(bytes@, 0, false, r->Ok_0.table)
                && r->Ok_0.table.trans@.len() == be32u(bytes@, 32),
            r is Ok && bytes@[4] != 0 ==> block_loaded(
                bytes@,
                legacy_size(bytes@),
                true,
                r->Ok_0.table,
            ),
            r is Ok <==> name_ok(name) && tzfile_ok(bytes@),
    {
        let nb = name.as_bytes();
        let mut i: usize = 0;
        while i < nb.len()
            invariant
                i <= nb@.len(),
                nb@ == name.spec_bytes(),
                forall|q: int| 0 <= q < i ==> #[trigger] nb@[q] != 0,
            decreases nb@.len() - i,
        {
            if nb[i] == 0 {
                return Err(Error::EncodingError);
            }
            i = i + 1;
        }
        match parse_tzfile(bytes) {
            Ok(table) => Ok(Timezone { table }),
            Err(e) => Err(e),
        }
    }

    /// Loads the caller's default zone from pre-resolved rule bytes; which
    /// bytes are the default (an environment override, a system file) is
    /// decided outside this crate.
    pub fn default(bytes: &Vec<u8>) -> (r: Result<Timezone, Error>)
        ensures
            r is Ok ==> r->Ok_0.wf(),
            bytes@.len() < 4 ==> r == Err::<Timezone, Error>(Error::TruncatedInput),
            bytes@.len() >= 4 && !has_magic(bytes@, 0) ==> r == Err::<Timezone, Error>(
                Error::BadMagic,
            ),
            r is Ok ==> bytes@.len() >= 5 && has_magic(bytes@, 0) && version_ok(bytes@[4]),
            r is Ok && bytes@[4] == 0 ==> block_loaded(bytes@, 0, false, r->Ok_0.table),
            r is Ok && bytes@[4] != 0 ==> block_loaded(
                bytes@,
                legacy_size(bytes@),
                true,
                r->Ok_0.table,
            ),
            r is Ok <==> tzfile_ok(bytes@),
    {
        match parse_tzfile(bytes) {
            Ok(table) => Ok(Timezone { table }),
            Err(e) => Err(e),
        }
    }

    /// Converts an instant to civil time in this zone: the governing record's
    /// offset is added and the sum broken down; no ambiguity, every instant
    /// maps to exactly one civil time.
    pub fn localtime(&self, time: TimeT) -> (r: Result<Tm, Error>)
        requires
            self.wf(),
        ensures
            r is Ok <==> representable_secs(time + self.table.utoff_at(time as int)),
            r is Err ==> r == Err::<Tm, Error>(Error::Overflow),
            r is Ok ==> localtime_post(self.table, time as int, r->Ok_0),
    {
        let ti = self.table.resolve(time);
        let off = self.table.types[ti].utoff as i64;
        if time < -80_000_000_000_000_000 || time > 80_000_000_000_000_000 {
            proof {
                lemma_far_out(time + self.table.utoff_at(time as int));
            }
            return Err(Error::Overflow);
        }
        let loc = time + off;
        match break_down(loc) {
            None => Err(Error::Overflow),
            Some(f) => {
                let isdst: i32 = if self.table.types[ti].isdst {
                    1
                } else {
                    0
                };
                let zone = self.table.types[ti].abbr.clone();
                Ok(crate::assemble_tm(f, isdst, off, zone))
            },
        }
    }

    /// Converts civil time in this zone to an instant. The fields are
    /// normalized; each offset record of the table is tried as a guess, and
    /// the guesses that land on an instant really governed by their offset
    /// are the candidates. The daylight hint picks among them: negative
    /// resolves a duplicated (fall-back) hour to the earlier instant; zero or
    /// positive prefers the earliest standard-time or daylight-time
    /// candidate. A civil time inside a spring-forward gap has no candidate
    /// and is rejected.
    #[verifier::loop_isolation(false)]
    pub fn mktime(&self, tm: &Tm) -> (r: Result<TimeT, Error>)
        requires
            self.wf(),
        ensures
            mktime_post(self.table, *tm, r),
    {
        let (days, sod) = tm_normalize(tm);
        if days < crate::calendar::ABS_DAY_MIN - crate::calendar::EPOCH_DAY || days
            >= crate::calendar::ABS_DAY_MAX - crate::calendar::EPOCH_DAY {
            return Err(Error::InvalidCivilTime);
        }
        let g: i64 = 86400 * days + sod;
        let ghost gi = g as int;
        let want_dst: bool = tm.tm_isdst > 0;
        let use_hint: bool = tm.tm_isdst >= 0;
        let mut best: Option<i64> = None;
        let mut best_hint: Option<i64> = None;
        let n = self.table.types.len();
        let mut i: usize = 0;
        while i < n
            invariant
                self.wf(),
                n == self.table.types@.len(),
                i <= n,
                gi == tm_norm_secs(*tm),
                -80_000_000_000_000_000 <= g <= 80_000_000_000_000_000,
                best is Some ==> exists|k: int|
                    cand_valid(self.table, gi, k) && best->0 == cand_instant(self.table, gi, k),
                best is Some ==> self.table.utoff_at(best->0 as int) == gi - best->0,
                best is Some ==> forall|k: int|
                    0 <= k < i && cand_valid(self.table, gi, k) ==> best->0 <= cand_instant(
                        self.table,
                        gi,
                        k,
                    ),
                best is None ==> forall|k: int| 0 <= k < i ==> !cand_valid(self.table, gi, k),
                best_hint is Some ==> exists|k: int|
                    cand_valid(self.table, gi, k) && best_hint->0 == cand_instant(
                        self.table,
                        gi,
                        k,
                    ),
                best_hint is Some ==> self.table.utoff_at(best_hint->0 as int) == gi
                    - best_hint->0 && self.table.isdst_at(best_hint->0 as int) == want_dst,
                best_hint is Some ==> forall|k: int|
                    0 <= k < i && cand_valid(self.table, gi, k) && self.table.isdst_at(
                        cand_instant(self.table, gi, k),
                    ) == want_dst ==> best_hint->0 <= cand_instant(self.table, gi, k),
                best_hint is None ==> forall|k: int|
                    0 <= k < i && cand_valid(self.table, gi, k) ==> self.table.isdst_at(
                        cand_instant(self.table, gi, k),
                    ) != want_dst,
            decreases n - i,
        {
            let off = self.table.types[i].utoff as i64;
            let c = g - off;
            let k = self.table.resolve(c);
            if self.table.types[k].utoff as i64 == off {
                proof {
                    assert(self.table.utoff_at(c as int) == off as int);
                    assert(cand_valid(self.table, gi, i as int));
                    assert(c as int == cand_instant(self.table, gi, i as int));
                }
                let dst_here = self.table.types[k].isdst;
                match best {
                    None => {
                        best = Some(c);
                    },
                    Some(b) => {
                        if c < b {
                            best = Some(c);
                        }
                    },
                }
                if dst_here == want_dst {
                    match best_hint {
                        None => {
                            best_hint = Some(c);
                        },
                        Some(b) => {
                            if c < b {
                                best_hint = Some(c);
                            }
                        },
                    }
                }
            }
            i = i + 1;
        }
        if use_hint {
            match best_hint {
                Some(v) => {
                    return Ok(v);
                },
                None => {},
            }
        }
        match best {
            Some(v) => Ok(v),
            None => Err(Error::InvalidCivilTime),
        }
    }

    /// Converts a leap-second-aware instant to its POSIX value by removing
    /// the cumulative leap correction in force; during an inserted leap
    /// second the POSIX value repeats the prior second.
    pub fn time2posix(&self, time: TimeT) -> (r: TimeT)
        requires
            self.wf(),
            -9_000_000_000_000_000_000 <= time <= 9_000_000_000_000_000_000,
        ensures
            r as int == self.table.t2p_spec(time as int),
    {
        self.table.time_to_posix(time)
    }

    /// Converts a POSIX value to a leap-second-aware instant by adding back
    /// the cumulative correction for its position among the leap boundaries.
    pub fn posix2time(&self, time: TimeT) -> (r: TimeT)
        requires
            self.wf(),
            -9_000_000_000_000_000_000 <= time <= 9_000_000_000_000_000_000,
        ensures
            r as int == self.table.p2t_spec(time as int),
    {
        self.table.posix_to_time(time)
    }
}

/// Instants this far out have no representable civil date.
proof fn lemma_far_out(loc: int)
    requires
        loc <= -70_000_000_000_000_000 || loc >= 70_000_000_000_000_000,
    ensures
        !representable_secs(loc),
{
    if loc >= 70_000_000_000_000_000 {
        vstd::arithmetic::div_mod::lemma_div_is_ordered(70_000_000_000_000_000, loc, 86400);
        assert(70_000_000_000_000_000int / 86400 == 810185185185);
    } else {
        vstd::arithmetic::div_mod::lemma_div_is_ordered(loc, -70_000_000_000_000_000, 86400);
        assert((-70_000_000_000_000_000int) / 86400 == -810185185186);
    }
}

} // verus!
