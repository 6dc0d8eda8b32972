//! Parser for the standard binary timezone rule-file format: one or two
//! concatenated blocks (a legacy block with 32-bit timestamps and, for
//! versions 2 and 3, a second block with 64-bit timestamps), each holding
//! big-endian counts, transition times, record indices, offset records, an
//! abbreviation pool and leap-second records. The output is a fully
//! populated table or an error; never partial state.

use vstd::prelude::*;

verus! {

use crate::table::LeapRecord;
use crate::table::Transition;
use crate::table::TransitionTable;
use crate::table::TType;
use crate::Error;

/// The four magic identifier bytes stand at `off`.
pub open spec fn has_magic(b: Seq<u8>, off: int) -> bool {
    &&& b[off] == 0x54u8
    &&& b[off + 1] == 0x5au8
    &&& b[off + 2] == 0x69u8
    &&& b[off + 3] == 0x66u8
}

/// Recognized version bytes: NUL (the original format), '2' and '3'.
pub open spec fn version_ok(v: u8) -> bool {
    v == 0 || v == 0x32 || v == 0x33
}

/// Big-endian unsigned 32-bit value at `i`.
pub open spec fn be32u(s: Seq<u8>, i: int) -> int {
    s[i] * 0x100_0000 + s[i + 1] * 0x1_0000 + s[i + 2] * 0x100 + s[i + 3]
}

/// Big-endian signed (two's-complement) 32-bit value at `i`.
pub open spec fn be32s(s: Seq<u8>, i: int) -> int {
    if be32u(s, i) < 0x8000_0000 {
        be32u(s, i)
    } else {
        be32u(s, i) - 0x1_0000_0000
    }
}

/// Big-endian unsigned 64-bit value at `i`.
pub open spec fn be64u(s: Seq<u8>, i: int) -> int {
    be32u(s, i) * 0x1_0000_0000 + be32u(s, i + 4)
}

/// Big-endian signed (two's-complement) 64-bit value at `i`.
pub open spec fn be64s(s: Seq<u8>, i: int) -> int {
    if be64u(s, i) < 0x8000_0000_0000_0000 {
        be64u(s, i)
    } else {
        be64u(s, i) - 0x1_0000_0000_0000_0000
    }
}

fn read_be32u(b: &Vec<u8>, off: u64) -> (r: u64)
    requires
        off + 4 <= b@.len(),
    ensures
        r == be32u(b@, off as int),
        r < 0x1_0000_0000,
{
    let _len_bound = b.len();
    let i = off as usize;
    let b0 = b[i] as u64;
    let b1 = b[i + 1] as u64;
    let b2 = b[i + 2] as u64;
    let b3 = b[i + 3] as u64;
    b0 * 0x100_0000 + b1 * 0x1_0000 + b2 * 0x100 + b3
}

fn read_be32s(b: &Vec<u8>, off: u64) -> (r: i64)
    requires
        off + 4 <= b@.len(),
    ensures
        r as int == be32s(b@, off as int),
{
    let u = read_be32u(b, off);
    if u >= 0x8000_0000 {
        (u as i64) - 0x1_0000_0000
    } else {
        u as i64
    }
}

fn read_be64s(b: &Vec<u8>, off: u64) -> (r: i64)
    requires
        off + 8 <= b@.len(),
    ensures
        r as int == be64s(b@, off as int),
{
    let _len_bound = b.len();
    let hi = read_be32u(b, off);
    let lo = read_be32u(b, off + 4);
    let u: u64 = hi * 0x1_0000_0000 + lo;
    if u >= 0x8000_0000_0000_0000 {
        -((0xFFFF_FFFF_FFFF_FFFFu64 - u) as i64) - 1
    } else {
        u as i64
    }
}

/// Relies on std's `String::from_utf8`: bytes in the printable ASCII range
/// decode to exactly the corresponding characters.
#[verifier::external_body]
fn ascii_string(bytes: Vec<u8>) -> (r: String)
    requires
        forall|i: int| 0 <= i < bytes@.len() ==> 0x20 <= #[trigger] bytes@[i] < 0x7f,
    ensures
        r@ == bytes@.map(|i: int, b: u8| b as char),
{
    match String::from_utf8(bytes) {
        Ok(s) => s,
        Err(_) => String::new(),
    }
}

/// Size in bytes of the legacy block, from its counts.
pub open spec fn legacy_size(b: Seq<u8>) -> int {
    44 + be32u(b, 32) * 5 + be32u(b, 36) * 6 + be32u(b, 40) + be32u(b, 28) * 8 + be32u(b, 24)
        + be32u(b, 20)
}

/// Size in bytes of the block at `hdr`, from its counts.
pub open spec fn block_size(b: Seq<u8>, hdr: int, wide: bool) -> int {
    let tsz: int = if wide {
        8
    } else {
        4
    };
    44 + be32u(b, hdr + 32) * (tsz + 1) + be32u(b, hdr + 36) * 6 + be32u(b, hdr + 40) + be32u(
        b,
        hdr + 28,
    ) * (tsz + 4) + be32u(b, hdr + 24) + be32u(b, hdr + 20)
}

/// The table carries the block at `hdr`: its leading transitions, records
/// and leap records are exactly the block's, read from their byte
/// positions. (A rule-line footer may append further records after them.)
pub open spec fn block_loaded(b: Seq<u8>, hdr: int, wide: bool, t: TransitionTable) -> bool {
    let leapcnt = be32u(b, hdr + 28);
    let timecnt = be32u(b, hdr + 32);
    let typecnt = be32u(b, hdr + 36);
    let charcnt = be32u(b, hdr + 40);
    let tsz: int = if wide {
        8
    } else {
        4
    };
    let time_off = hdr + 44;
    let idx_off = time_off + timecnt * tsz;
    let rec_off = idx_off + timecnt;
    let leap_off = rec_off + typecnt * 6 + charcnt;
    &&& t.types@.len() >= typecnt
    &&& t.trans@.len() >= timecnt
    &&& t.leaps@.len() == leapcnt
    &&& forall|i: int|
        0 <= i < timecnt ==> (#[trigger] t.trans@[i].when) as int == trans_time_at(
            b,
            time_off,
            wide,
            i,
        )
    &&& forall|i: int|
        0 <= i < timecnt ==> (#[trigger] t.trans@[i].ttype) as int == b[idx_off + i]
    &&& forall|j: int|
        0 <= j < typecnt ==> (#[trigger] t.types@[j].utoff) as int == be32s(b, rec_off + 6 * j)
    &&& forall|j: int|
        0 <= j < typecnt ==> ((#[trigger] t.types@[j].isdst) <==> b[rec_off + 6 * j + 4] == 1)
    &&& forall|l: int|
        0 <= l < leapcnt ==> (#[trigger] t.leaps@[l].when) as int == leap_when_at(
            b,
            leap_off,
            wide,
            l,
        )
    &&& forall|l: int|
        0 <= l < leapcnt ==> (#[trigger] t.leaps@[l].corr) as int == leap_corr_at(
            b,
            leap_off,
            wide,
            l,
        )
}


/// Transition time `i` of the block whose times start at `time_off`.
pub open spec fn trans_time_at(b: Seq<u8>, time_off: int, wide: bool, i: int) -> int {
    if wide {
        be64s(b, time_off + 8 * i)
    } else {
        be32s(b, time_off + 4 * i)
    }
}

/// Instant of leap record `l` of the block whose leap records start at `leap_off`.
pub open spec fn leap_when_at(b: Seq<u8>, leap_off: int, wide: bool, l: int) -> int {
    if wide {
        be64s(b, leap_off + 12 * l)
    } else {
        be32s(b, leap_off + 8 * l)
    }
}

/// Correction of leap record `l`.
pub open spec fn leap_corr_at(b: Seq<u8>, leap_off: int, wide: bool, l: int) -> int {
    if wide {
        be32s(b, leap_off + 12 * l + 8)
    } else {
        be32s(b, leap_off + 8 * l + 4)
    }
}

/// Scanning the abbreviation pool from position `k` reaches a NUL over
/// printable bytes before the pool ends.
pub open spec fn abbr_scan_ok(b: Seq<u8>, pool_off: int, charcnt: int, k: int) -> bool
    decreases charcnt - k,
{
    if k >= charcnt {
        false
    } else if b[pool_off + k] == 0 {
        true
    } else if !(0x20 <= b[pool_off + k] < 0x7f) {
        false
    } else {
        abbr_scan_ok(b, pool_off, charcnt, k + 1)
    }
}

/// Offset record `j` is acceptable: offset within a day's magnitude, a
/// boolean daylight byte, and an abbreviation index heading a NUL-terminated
/// printable run of the pool.
pub open spec fn rec_ok(b: Seq<u8>, rec_off: int, pool_off: int, charcnt: int, j: int) -> bool {
    &&& -100000 < be32s(b, rec_off + 6 * j) < 100000
    &&& b[rec_off + 6 * j + 4] <= 1
    &&& abbr_scan_ok(b, pool_off, charcnt, b[rec_off + 6 * j + 5] as int)
}

/// Leap record `l` is acceptable: instant within bounds; the first record's
/// correction is one second either way, and each later record comes at least
/// two seconds after its predecessor and steps the correction by one.
pub open spec fn leap_ok(b: Seq<u8>, leap_off: int, wide: bool, l: int) -> bool {
    &&& -0x4000_0000_0000_0000 < leap_when_at(b, leap_off, wide, l) < 0x4000_0000_0000_0000
    &&& if l == 0 {
        leap_corr_at(b, leap_off, wide, l) == 1 || leap_corr_at(b, leap_off, wide, l) == -1
    } else {
        &&& leap_when_at(b, leap_off, wide, l) >= leap_when_at(b, leap_off, wide, l - 1) + 2
        &&& (leap_corr_at(b, leap_off, wide, l) == leap_corr_at(b, leap_off, wide, l - 1) + 1
            || leap_corr_at(b, leap_off, wide, l) == leap_corr_at(b, leap_off, wide, l - 1) - 1)
    }
}

/// Every offset record of the block is acceptable.
pub open spec fn types_all_ok(
    b: Seq<u8>,
    rec_off: int,
    pool_off: int,
    charcnt: int,
    typecnt: int,
) -> bool {
    forall|j: int| 0 <= j < typecnt ==> #[trigger] rec_ok(b, rec_off, pool_off, charcnt, j)
}

/// Every transition's record index selects an existing record.
pub open spec fn idxs_all_ok(b: Seq<u8>, idx_off: int, timecnt: int, typecnt: int) -> bool {
    forall|i: int| 0 <= i < timecnt ==> (#[trigger] b[idx_off + i]) < typecnt
}

/// The transition times are nondecreasing.
pub open spec fn times_all_sorted(b: Seq<u8>, time_off: int, wide: bool, timecnt: int) -> bool {
    forall|i: int|
        1 <= i < timecnt ==> trans_time_at(b, time_off, wide, i - 1) <= #[trigger] trans_time_at(
            b,
            time_off,
            wide,
            i,
        )
}

/// Every leap record of the block is acceptable.
pub open spec fn leaps_all_ok(b: Seq<u8>, leap_off: int, wide: bool, leapcnt: int) -> bool {
    forall|l: int| 0 <= l < leapcnt ==> #[trigger] leap_ok(b, leap_off, wide, l)
}

/// The block at `hdr` is acceptable: sane counts, enough bytes for every
/// declared count, every record and leap record acceptable, record indices
/// in range, and transition times nondecreasing.
pub open spec fn block_ok(b: Seq<u8>, hdr: int, wide: bool) -> bool {
    let leapcnt = be32u(b, hdr + 28);
    let timecnt = be32u(b, hdr + 32);
    let typecnt = be32u(b, hdr + 36);
    let charcnt = be32u(b, hdr + 40);
    let tsz: int = if wide {
        8
    } else {
        4
    };
    let time_off = hdr + 44;
    let idx_off = time_off + timecnt * tsz;
    let rec_off = idx_off + timecnt;
    let pool_off = rec_off + typecnt * 6;
    let leap_off = pool_off + charcnt;
    &&& hdr + 44 <= b.len()
    &&& 1 <= typecnt <= 1000
    &&& leapcnt <= 1_000_000
    &&& hdr + block_size(b, hdr, wide) <= b.len()
    &&& types_all_ok(b, rec_off, pool_off, charcnt, typecnt)
    &&& idxs_all_ok(b, idx_off, timecnt, typecnt)
    &&& times_all_sorted(b, time_off, wide, timecnt)
    &&& leaps_all_ok(b, leap_off, wide, leapcnt)
}

/// The whole byte buffer is an acceptable rule file: magic and a known
/// version, then an acceptable block — the only one for the original
/// version, the 64-bit one (itself headed by magic and a known version,
/// after the legacy block) for versions 2 and 3.
pub open spec fn tzfile_ok(b: Seq<u8>) -> bool {
    &&& b.len() >= 5
    &&& has_magic(b, 0)
    &&& version_ok(b[4])
    &&& b.len() >= 44
    &&& if b[4] == 0 {
        block_ok(b, 0, false)
    } else {
        &&& legacy_size(b) + 44 <= b.len()
        &&& has_magic(b, legacy_size(b))
        &&& version_ok(b[legacy_size(b) + 4])
        &&& block_ok(b, legacy_size(b), true)
    }
}

proof fn lemma_trans_sorted_chain(s: Seq<Transition>, i: int, j: int)
    requires
        forall|k: int| 1 <= k < s.len() ==> s[k - 1].when <= (#[trigger] s[k].when),
        0 <= i <= j < s.len(),
    ensures
        s[i].when <= s[j].when,
    decreases j - i,
{
    if i < j {
        lemma_trans_sorted_chain(s, i, j - 1);
    }
}

/// Reads the offset records with their abbreviations; accepts exactly when
/// every record is acceptable.
#[verifier::loop_isolation(false)]
#[verifier::rlimit(60)]
fn parse_types(bytes: &Vec<u8>, rec_off: u64, pool_off: u64, charcnt: u64, typecnt: u64) -> (r:
    Result<Vec<TType>, Error>)
    requires
        1 <= typecnt <= 1000,
        charcnt < 0x1_0000_0000,
        pool_off == rec_off + typecnt * 6,
        pool_off + charcnt <= bytes@.len(),
    ensures
        r is Ok <==> types_all_ok(bytes@, rec_off as int, pool_off as int, charcnt as int, typecnt as int),
        r is Ok ==> r->Ok_0@.len() == typecnt,
        r is Ok ==> forall|k: int|
            0 <= k < typecnt ==> -100000 < (#[trigger] r->Ok_0@[k].utoff) < 100000,
        r is Ok ==> forall|k: int|
            0 <= k < typecnt ==> (#[trigger] r->Ok_0@[k].utoff) as int == be32s(
                bytes@,
                rec_off as int + 6 * k,
            ),
        r is Ok ==> forall|k: int|
            0 <= k < typecnt ==> ((#[trigger] r->Ok_0@[k].isdst) <==> bytes@[rec_off as int + 6
                * k + 4] == 1),
{
    let _len_bound = bytes.len();
    let mut types: Vec<TType> = Vec::new();
    let mut j: u64 = 0;
    while j < typecnt
        invariant
            j <= typecnt,
            types@.len() == j,
            forall|k: int|
                0 <= k < types@.len() ==> -100000 < (#[trigger] types@[k].utoff) < 100000,
            forall|k: int|
                0 <= k < types@.len() ==> (#[trigger] types@[k].utoff) as int == be32s(
                    bytes@,
                    rec_off as int + 6 * k,
                ),
            forall|k: int|
                0 <= k < types@.len() ==> ((#[trigger] types@[k].isdst) <==> bytes@[rec_off as int
                    + 6 * k + 4] == 1),
            forall|k: int|
                0 <= k < j ==> #[trigger] rec_ok(
                    bytes@,
                    rec_off as int,
                    pool_off as int,
                    charcnt as int,
                    k,
                ),
        decreases typecnt - j,
    {
        let base = rec_off + j * 6;
        let utoff = read_be32s(bytes, base);
        if utoff <= -100000 || utoff >= 100000 {
            proof {
                assert(!rec_ok(bytes@, rec_off as int, pool_off as int, charcnt as int, j as int));
            }
            return Err(Error::MalformedData);
        }
        let dst_byte = bytes[(base + 4) as usize];
        if dst_byte > 1 {
            proof {
                assert(!rec_ok(bytes@, rec_off as int, pool_off as int, charcnt as int, j as int));
            }
            return Err(Error::MalformedData);
        }
        let abbrind = bytes[(base + 5) as usize] as u64;
        if abbrind >= charcnt {
            proof {
                assert(!abbr_scan_ok(bytes@, pool_off as int, charcnt as int, abbrind as int));
                assert(!rec_ok(bytes@, rec_off as int, pool_off as int, charcnt as int, j as int));
            }
            return Err(Error::MalformedAbbreviation);
        }
        let mut ab: Vec<u8> = Vec::new();
        let mut k: u64 = abbrind;
        let mut done: bool = false;
        let mut bad: bool = false;
        while !done && k < charcnt
            invariant
                abbrind <= k <= charcnt,
                forall|q: int| 0 <= q < ab@.len() ==> 0x20 <= #[trigger] ab@[q] < 0x7f,
                !done ==> !bad,
                !done ==> abbr_scan_ok(bytes@, pool_off as int, charcnt as int, abbrind as int)
                    == abbr_scan_ok(bytes@, pool_off as int, charcnt as int, k as int),
                done ==> (abbr_scan_ok(bytes@, pool_off as int, charcnt as int, abbrind as int)
                    <==> !bad),
            decreases charcnt - k,
        {
            let byte = bytes[(pool_off + k) as usize];
            if byte == 0 {
                done = true;
            } else if byte < 0x20 || byte >= 0x7f {
                bad = true;
                done = true;
            } else {
                ab.push(byte);
            }
            k = k + 1;
        }
        if bad || !done {
            proof {
                assert(!abbr_scan_ok(bytes@, pool_off as int, charcnt as int, abbrind as int));
                assert(!rec_ok(bytes@, rec_off as int, pool_off as int, charcnt as int, j as int));
            }
            return Err(Error::MalformedAbbreviation);
        }
        types.push(TType { utoff: utoff as i32, isdst: dst_byte == 1, abbr: ascii_string(ab) });
        j = j + 1;
    }
    Ok(types)
}

/// Reads the transition times and their record indices; accepts exactly
/// when the indices are in range and the times nondecreasing.
#[verifier::loop_isolation(false)]
#[verifier::rlimit(60)]
fn parse_trans(
    bytes: &Vec<u8>,
    time_off: u64,
    idx_off: u64,
    timecnt: u64,
    typecnt: u64,
    wide: bool,
) -> (r: Result<Vec<Transition>, Error>)
    requires
        wide ==> idx_off == time_off + timecnt * 8,
        !wide ==> idx_off == time_off + timecnt * 4,
        idx_off + timecnt <= bytes@.len(),
        1 <= typecnt <= 1000,
        timecnt < 0x1_0000_0000,
    ensures
        r is Ok <==> idxs_all_ok(bytes@, idx_off as int, timecnt as int, typecnt as int)
            && times_all_sorted(bytes@, time_off as int, wide, timecnt as int),
        r is Ok ==> r->Ok_0@.len() == timecnt,
        r is Ok ==> forall|k: int|
            0 <= k < timecnt ==> (#[trigger] r->Ok_0@[k].ttype) < typecnt,
        r is Ok ==> forall|k: int|
            1 <= k < timecnt ==> r->Ok_0@[k - 1].when <= (#[trigger] r->Ok_0@[k].when),
        r is Ok ==> forall|k: int|
            0 <= k < timecnt ==> (#[trigger] r->Ok_0@[k].when) as int == trans_time_at(
                bytes@,
                time_off as int,
                wide,
                k,
            ),
        r is Ok ==> forall|k: int|
            0 <= k < timecnt ==> (#[trigger] r->Ok_0@[k].ttype) as int == bytes@[idx_off as int
                + k],
{
    let _len_bound = bytes.len();
    let mut trans: Vec<Transition> = Vec::new();
    let mut i: u64 = 0;
    while i < timecnt
        invariant
            i <= timecnt,
            trans@.len() == i,
            forall|k: int|
                0 <= k < trans@.len() ==> (#[trigger] trans@[k].ttype) < typecnt,
            forall|k: int|
                1 <= k < trans@.len() ==> trans@[k - 1].when <= (#[trigger] trans@[k].when),
            forall|k: int|
                0 <= k < trans@.len() ==> (#[trigger] trans@[k].when) as int == trans_time_at(
                    bytes@,
                    time_off as int,
                    wide,
                    k,
                ),
            forall|k: int|
                0 <= k < trans@.len() ==> (#[trigger] trans@[k].ttype) as int == bytes@[idx_off
                    as int + k],
        decreases timecnt - i,
    {
        let when: i64 = if wide {
            read_be64s(bytes, time_off + i * 8)
        } else {
            read_be32s(bytes, time_off + i * 4)
        };
        proof {
            assert(when as int == trans_time_at(bytes@, time_off as int, wide, i as int));
        }
        if i > 0 && when < trans[(i - 1) as usize].when {
            proof {
                assert(trans@[i as int - 1].when as int == trans_time_at(
                    bytes@,
                    time_off as int,
                    wide,
                    i as int - 1,
                ));
            }
            return Err(Error::MalformedData);
        }
        let tt = bytes[(idx_off + i) as usize] as u64;
        if tt >= typecnt {
            proof {
                assert(bytes@[idx_off as int + i as int] == tt);
            }
            return Err(Error::MalformedData);
        }
        trans.push(Transition { when, ttype: tt as usize });
        i = i + 1;
    }
    proof {
        assert forall|i2: int|
            0 <= i2 < timecnt implies (#[trigger] bytes@[idx_off as int + i2]) < typecnt by {
            assert(trans@[i2].ttype < typecnt);
            assert(trans@[i2].ttype as int == bytes@[idx_off as int + i2]);
        }
        assert forall|i2: int|
            1 <= i2 < timecnt implies trans_time_at(bytes@, time_off as int, wide, i2 - 1)
            <= #[trigger] trans_time_at(bytes@, time_off as int, wide, i2) by {
            assert(trans@[i2 - 1].when as int == trans_time_at(
                bytes@,
                time_off as int,
                wide,
                i2 - 1,
            ));
            assert(trans@[i2].when as int == trans_time_at(bytes@, time_off as int, wide, i2));
            assert(trans@[i2 - 1].when <= trans@[i2].when);
        }
    }
    Ok(trans)
}

/// Reads the leap-second records; accepts exactly when every record is
/// acceptable.
#[verifier::loop_isolation(false)]
#[verifier::rlimit(60)]
fn parse_leaps(bytes: &Vec<u8>, leap_off: u64, leapcnt: u64, wide: bool) -> (r: Result<
    Vec<LeapRecord>,
    Error,
>)
    requires
        wide ==> leap_off + leapcnt * 12 <= bytes@.len(),
        !wide ==> leap_off + leapcnt * 8 <= bytes@.len(),
        leapcnt <= 1_000_000,
    ensures
        r is Ok <==> leaps_all_ok(bytes@, leap_off as int, wide, leapcnt as int),
        r is Ok ==> r->Ok_0@.len() == leapcnt,
        r is Ok ==> forall|k: int|
            0 <= k < leapcnt ==> -1_000_000 <= (#[trigger] r->Ok_0@[k].corr) <= 1_000_000,
        r is Ok ==> forall|k: int|
            0 <= k < leapcnt ==> -0x4000_0000_0000_0000 < (#[trigger] r->Ok_0@[k].when)
                < 0x4000_0000_0000_0000,
        r is Ok ==> forall|k: int|
            1 <= k < leapcnt ==> (#[trigger] r->Ok_0@[k].when) >= r->Ok_0@[k - 1].when + 2,
        r is Ok ==> forall|k: int|
            1 <= k < leapcnt ==> (#[trigger] r->Ok_0@[k].corr) == r->Ok_0@[k - 1].corr + 1
                || r->Ok_0@[k].corr == r->Ok_0@[k - 1].corr - 1,
        r is Ok && leapcnt > 0 ==> (r->Ok_0@[0].corr == 1 || r->Ok_0@[0].corr == -1),
        r is Ok ==> forall|k: int|
            0 <= k < leapcnt ==> (#[trigger] r->Ok_0@[k].when) as int == leap_when_at(
                bytes@,
                leap_off as int,
                wide,
                k,
            ),
        r is Ok ==> forall|k: int|
            0 <= k < leapcnt ==> (#[trigger] r->Ok_0@[k].corr) as int == leap_corr_at(
                bytes@,
                leap_off as int,
                wide,
                k,
            ),
{
    let _len_bound = bytes.len();
    let mut leaps: Vec<LeapRecord> = Vec::new();
    let mut l: u64 = 0;
    while l < leapcnt
        invariant
            l <= leapcnt,
            leaps@.len() == l,
            forall|k: int|
                0 <= k < leaps@.len() ==> -1_000_000 <= (#[trigger] leaps@[k].corr) <= 1_000_000,
            forall|k: int|
                0 <= k < leaps@.len() ==> -(0x4000_0000_0000_0000) < (#[trigger] leaps@[k].when)
                    < 0x4000_0000_0000_0000,
            forall|k: int|
                1 <= k < leaps@.len() ==> (#[trigger] leaps@[k].when) >= leaps@[k - 1].when + 2,
            forall|k: int|
                1 <= k < leaps@.len() ==> (#[trigger] leaps@[k].corr) == leaps@[k - 1].corr + 1
                    || leaps@[k].corr == leaps@[k - 1].corr - 1,
            leaps@.len() > 0 ==> (leaps@[0].corr == 1 || leaps@[0].corr == -1),
            forall|k: int|
                0 <= k < leaps@.len() ==> -(#[trigger] leaps@[k].corr) <= k + 1 && leaps@[k].corr
                    <= k + 1,
            forall|k: int|
                0 <= k < leaps@.len() ==> (#[trigger] leaps@[k].when) as int == leap_when_at(
                    bytes@,
                    leap_off as int,
                    wide,
                    k,
                ),
            forall|k: int|
                0 <= k < leaps@.len() ==> (#[trigger] leaps@[k].corr) as int == leap_corr_at(
                    bytes@,
                    leap_off as int,
                    wide,
                    k,
                ),
        decreases leapcnt - l,
    {
        let when: i64 = if wide {
            read_be64s(bytes, leap_off + l * 12)
        } else {
            read_be32s(bytes, leap_off + l * 8)
        };
        let corr: i64 = if wide {
            read_be32s(bytes, leap_off + l * 12 + 8)
        } else {
            read_be32s(bytes, leap_off + l * 8 + 4)
        };
        proof {
            assert(when as int == leap_when_at(bytes@, leap_off as int, wide, l as int));
            assert(corr as int == leap_corr_at(bytes@, leap_off as int, wide, l as int));
            if l > 0 {
                assert(leaps@[l as int - 1].when as int == leap_when_at(
                    bytes@,
                    leap_off as int,
                    wide,
                    l as int - 1,
                ));
                assert(leaps@[l as int - 1].corr as int == leap_corr_at(
                    bytes@,
                    leap_off as int,
                    wide,
                    l as int - 1,
                ));
            }
        }
        if when <= -0x4000_0000_0000_0000 || when >= 0x4000_0000_0000_0000 {
            proof {
                assert(!leap_ok(bytes@, leap_off as int, wide, l as int));
            }
            return Err(Error::MalformedData);
        }
        if l == 0 {
            if corr != 1 && corr != -1 {
                proof {
                    assert(!leap_ok(bytes@, leap_off as int, wide, l as int));
                }
                return Err(Error::MalformedData);
            }
        } else {
            let prev = leaps[(l - 1) as usize].when;
            let prev_corr = leaps[(l - 1) as usize].corr;
            if when < prev + 2 {
                proof {
                    assert(!leap_ok(bytes@, leap_off as int, wide, l as int));
                }
                return Err(Error::MalformedData);
            }
            if corr != prev_corr + 1 && corr != prev_corr - 1 {
                proof {
                    assert(!leap_ok(bytes@, leap_off as int, wide, l as int));
                }
                return Err(Error::MalformedData);
            }
        }
        leaps.push(LeapRecord { when, corr });
        l = l + 1;
    }
    proof {
        assert forall|l2: int|
            0 <= l2 < leapcnt implies #[trigger] leap_ok(bytes@, leap_off as int, wide, l2) by {
            assert(leaps@[l2].when as int == leap_when_at(bytes@, leap_off as int, wide, l2));
            assert(leaps@[l2].corr as int == leap_corr_at(bytes@, leap_off as int, wide, l2));
            if l2 > 0 {
                assert(leaps@[l2 - 1].when as int == leap_when_at(
                    bytes@,
                    leap_off as int,
                    wide,
                    l2 - 1,
                ));
                assert(leaps@[l2 - 1].corr as int == leap_corr_at(
                    bytes@,
                    leap_off as int,
                    wide,
                    l2 - 1,
                ));
            }
        }
    }
    Ok(leaps)
}

/// Parses one block at byte offset `hdr`, with 8-byte transition timestamps
/// when `wide` is set and 4-byte ones otherwise; succeeds exactly when the
/// block is acceptable.
#[verifier::loop_isolation(false)]
#[verifier::rlimit(100)]
fn parse_block(bytes: &Vec<u8>, hdr: u64, wide: bool) -> (r: Result<(TransitionTable, u64), Error>)
    requires
        hdr + 44 <= bytes@.len(),
    ensures
        r is Ok ==> r->Ok_0.0.wf() && r->Ok_0.1 <= bytes@.len(),
        r is Ok ==> r->Ok_0.1 == hdr + block_size(bytes@, hdr as int, wide),
        r is Ok ==> block_loaded(bytes@, hdr as int, wide, r->Ok_0.0),
        r is Ok ==> r->Ok_0.0.trans@.len() == be32u(bytes@, hdr as int + 32)
            && r->Ok_0.0.types@.len() == be32u(bytes@, hdr as int + 36),
        r is Ok <==> block_ok(bytes@, hdr as int, wide),
{
    let _len_bound = bytes.len();
    let isutcnt = read_be32u(bytes, hdr + 20);
    let isstdcnt = read_be32u(bytes, hdr + 24);
    let leapcnt = read_be32u(bytes, hdr + 28);
    let timecnt = read_be32u(bytes, hdr + 32);
    let typecnt = read_be32u(bytes, hdr + 36);
    let charcnt = read_be32u(bytes, hdr + 40);
    if typecnt == 0 || typecnt > 1000 {
        return Err(Error::MalformedData);
    }
    if leapcnt > 1_000_000 {
        return Err(Error::MalformedData);
    }
    let tbytes: u64 = if wide {
        timecnt * 8
    } else {
        timecnt * 4
    };
    let lbytes: u64 = if wide {
        leapcnt * 12
    } else {
        leapcnt * 8
    };
    let need: u64 = 44 + tbytes + timecnt + typecnt * 6 + charcnt + lbytes + isstdcnt + isutcnt;
    let len: u64 = bytes.len() as u64;
    proof {
        if wide {
            assert(tbytes == timecnt * 8);
            assert(lbytes == leapcnt * 12);
            assert(need == 44 + timecnt * 9 + typecnt * 6 + charcnt + leapcnt * 12 + isstdcnt
                + isutcnt);
            assert(need == block_size(bytes@, hdr as int, true));
        } else {
            assert(tbytes == timecnt * 4);
            assert(lbytes == leapcnt * 8);
            assert(need == 44 + timecnt * 5 + typecnt * 6 + charcnt + leapcnt * 8 + isstdcnt
                + isutcnt);
            assert(need == block_size(bytes@, hdr as int, false));
        }
    }
    if hdr > len || need > len - hdr {
        return Err(Error::TruncatedInput);
    }
    let time_off: u64 = hdr + 44;
    let idx_off: u64 = time_off + tbytes;
    let rec_off: u64 = idx_off + timecnt;
    let pool_off: u64 = rec_off + typecnt * 6;
    let leap_off: u64 = pool_off + charcnt;
    proof {
        assert(idx_off as int == hdr + 44 + be32u(bytes@, hdr as int + 32) * (if wide {
            8int
        } else {
            4int
        }));
    }
    let types = match parse_types(bytes, rec_off, pool_off, charcnt, typecnt) {
        Ok(v) => v,
        Err(e) => {
            proof {
                if wide {
                    assert(tbytes == timecnt * 8);
                    assert(!block_ok(bytes@, hdr as int, true));
                } else {
                    assert(tbytes == timecnt * 4);
                    assert(!block_ok(bytes@, hdr as int, false));
                }
            }
            return Err(e);
        },
    };
    let trans = match parse_trans(bytes, time_off, idx_off, timecnt, typecnt, wide) {
        Ok(v) => v,
        Err(e) => {
            proof {
                if wide {
                    assert(tbytes == timecnt * 8);
                    assert(!block_ok(bytes@, hdr as int, true));
                } else {
                    assert(tbytes == timecnt * 4);
                    assert(!block_ok(bytes@, hdr as int, false));
                }
            }
            return Err(e);
        },
    };
    let leaps = match parse_leaps(bytes, leap_off, leapcnt, wide) {
        Ok(v) => v,
        Err(e) => {
            proof {
                if wide {
                    assert(tbytes == timecnt * 8);
                    assert(!block_ok(bytes@, hdr as int, true));
                } else {
                    assert(tbytes == timecnt * 4);
                    assert(!block_ok(bytes@, hdr as int, false));
                }
            }
            return Err(e);
        },
    };
    let table = TransitionTable { types, trans, leaps };
    proof {
        assert forall|a: int, b: int|
            0 <= a < b < table.trans@.len() implies (#[trigger] table.trans@[a].when)
            <= (#[trigger] table.trans@[b].when) by {
            lemma_trans_sorted_chain(table.trans@, a, b);
        }
        if wide {
            assert(tbytes == timecnt * 8);
            assert(block_ok(bytes@, hdr as int, true));
        } else {
            assert(tbytes == timecnt * 4);
            assert(block_ok(bytes@, hdr as int, false));
        }
    }
    Ok((table, hdr + need))
}


/// Reads a zone-abbreviation name of a rule line: either letters, or any
/// printable characters between angle brackets.
#[verifier::loop_isolation(false)]
fn parse_name(b: &Vec<u8>, pos: usize, end: usize) -> (r: (bool, Vec<u8>, usize))
    requires
        pos <= end <= b@.len(),
    ensures
        pos <= r.2 <= end,
        forall|q: int| 0 <= q < r.1@.len() ==> 0x20 <= #[trigger] r.1@[q] < 0x7f,
{
    let mut out: Vec<u8> = Vec::new();
    let mut p = pos;
    if p < end && b[p] == 0x3c {
        p = p + 1;
        while p < end && b[p] != 0x3e
            invariant
                pos < p <= end,
                forall|q: int| 0 <= q < out@.len() ==> 0x20 <= #[trigger] out@[q] < 0x7f,
            decreases end - p,
        {
            let c = b[p];
            if c < 0x20 || c >= 0x7f {
                return (false, out, p);
            }
            out.push(c);
            p = p + 1;
        }
        if p >= end {
            return (false, out, p);
        }
        p = p + 1;
    } else {
        while p < end && ((b[p] >= 0x41 && b[p] <= 0x5a) || (b[p] >= 0x61 && b[p] <= 0x7a))
            invariant
                pos <= p <= end,
                forall|q: int| 0 <= q < out@.len() ==> 0x20 <= #[trigger] out@[q] < 0x7f,
            decreases end - p,
        {
            out.push(b[p]);
            p = p + 1;
        }
    }
    if out.len() < 3 {
        return (false, out, p);
    }
    (true, out, p)
}

/// Reads an unsigned decimal number no larger than `maxv`.
#[verifier::loop_isolation(false)]
fn parse_num(b: &Vec<u8>, pos: usize, end: usize, maxv: i64) -> (r: (bool, i64, usize))
    requires
        pos <= end <= b@.len(),
        0 <= maxv <= 1_000_000,
    ensures
        pos <= r.2 <= end,
        r.0 ==> 0 <= r.1 <= maxv,
{
    let mut p = pos;
    let mut v: i64 = 0;
    let mut any: bool = false;
    while p < end && b[p] >= 0x30 && b[p] <= 0x39
        invariant
            pos <= p <= end,
            0 <= v <= maxv,
        decreases end - p,
    {
        v = v * 10 + (b[p] - 0x30) as i64;
        if v > maxv {
            return (false, 0, p);
        }
        any = true;
        p = p + 1;
    }
    (any, v, p)
}

/// Reads an `[+-]hh[:mm[:ss]]` amount, in seconds.
fn parse_amount(b: &Vec<u8>, pos: usize, end: usize) -> (r: (bool, i64, usize))
    requires
        pos <= end <= b@.len(),
    ensures
        pos <= r.2 <= end,
        r.0 ==> -604799 <= r.1 <= 604799,
{
    let mut p = pos;
    let mut neg: bool = false;
    if p < end && (b[p] == 0x2d || b[p] == 0x2b) {
        neg = b[p] == 0x2d;
        p = p + 1;
    }
    let (ok, h, p2) = parse_num(b, p, end, 167);
    if !ok {
        return (false, 0, p2);
    }
    let mut p = p2;
    let mut m: i64 = 0;
    let mut sec: i64 = 0;
    if p < end && b[p] == 0x3a {
        let (ok, mv, p3) = parse_num(b, p + 1, end, 59);
        if !ok {
            return (false, 0, p3);
        }
        m = mv;
        p = p3;
        if p < end && b[p] == 0x3a {
            let (ok, sv, p4) = parse_num(b, p + 1, end, 59);
            if !ok {
                return (false, 0, p4);
            }
            sec = sv;
            p = p4;
        }
    }
    let total = h * 3600 + m * 60 + sec;
    (true, if neg {
        -total
    } else {
        total
    }, p)
}

/// Reads one transition-date rule: `Jn` (a leap-day-blind year day), a plain
/// zero-based year day, or `Mm.w.d` (day `d` of week `w` of month `m`), each
/// with an optional `/time`.
fn parse_rule(b: &Vec<u8>, pos: usize, end: usize) -> (r: (bool, u8, i64, i64, i64, i64, usize))
    requires
        pos <= end <= b@.len(),
    ensures
        pos <= r.6 <= end,
        r.0 ==> r.1 <= 2,
        r.0 && r.1 == 0 ==> 1 <= r.2 <= 365,
        r.0 && r.1 == 1 ==> 0 <= r.2 <= 365,
        r.0 && r.1 == 2 ==> 1 <= r.2 <= 12 && 1 <= r.3 <= 5 && 0 <= r.4 <= 6,
        r.0 ==> -604799 <= r.5 <= 604799,
{
    let mut p = pos;
    let kind: u8;
    let f1: i64;
    let mut f2: i64 = 1;
    let mut f3: i64 = 0;
    if p < end && b[p] == 0x4a {
        let (ok, v, p2) = parse_num(b, p + 1, end, 365);
        if !ok || v < 1 {
            return (false, 0, 0, 0, 0, 0, p2);
        }
        kind = 0;
        f1 = v;
        p = p2;
    } else if p < end && b[p] == 0x4d {
        let (ok, mo, p2) = parse_num(b, p + 1, end, 12);
        if !ok || mo < 1 {
            return (false, 0, 0, 0, 0, 0, p2);
        }
        if p2 >= end || b[p2] != 0x2e {
            return (false, 0, 0, 0, 0, 0, p2);
        }
        let (ok, w, p3) = parse_num(b, p2 + 1, end, 5);
        if !ok || w < 1 {
            return (false, 0, 0, 0, 0, 0, p3);
        }
        if p3 >= end || b[p3] != 0x2e {
            return (false, 0, 0, 0, 0, 0, p3);
        }
        let (ok, d, p4) = parse_num(b, p3 + 1, end, 6);
        if !ok {
            return (false, 0, 0, 0, 0, 0, p4);
        }
        kind = 2;
        f1 = mo;
        f2 = w;
        f3 = d;
        p = p4;
    } else {
        let (ok, v, p2) = parse_num(b, p, end, 365);
        if !ok {
            return (false, 0, 0, 0, 0, 0, p2);
        }
        kind = 1;
        f1 = v;
        p = p2;
    }
    let mut time: i64 = 7200;
    if p < end && b[p] == 0x2f {
        let (ok, t, p2) = parse_amount(b, p + 1, end);
        if !ok {
            return (false, 0, 0, 0, 0, 0, p2);
        }
        time = t;
        p = p2;
    }
    (true, kind, f1, f2, f3, time, p)
}

/// The epoch day a rule selects in year `y`.
fn rule_day(kind: u8, f1: i64, f2: i64, f3: i64, y: i64) -> (r: (bool, i64))
    requires
        -2_200_000_000 <= y <= 2_200_000_000,
        kind <= 2,
        kind == 0 ==> 1 <= f1 <= 365,
        kind == 1 ==> 0 <= f1 <= 365,
        kind == 2 ==> 1 <= f1 <= 12 && 1 <= f2 <= 5 && 0 <= f3 <= 6,
    ensures
        r.0 ==> -900_000_000_100 <= r.1 <= 900_000_000_100,
{
    if kind == 2 {
        let first = crate::calendar::civil_days_x(y, f1 - 1, 1);
        if first < -900_000_000_000 || first > 900_000_000_000 {
            return (false, 0);
        }
        let wd0 = crate::calendar::fmod(first + 4, 7);
        let delta = crate::calendar::fmod(f3 - wd0, 7);
        let mut dom: i64 = 1 + delta + 7 * (f2 - 1);
        let mlen = crate::calendar::days_before_month_x(y, f1) - crate::calendar::days_before_month_x(
            y,
            f1 - 1,
        );
        if dom > mlen {
            dom = dom - 7;
        }
        (true, first + dom - 1)
    } else {
        let day = if kind == 0 {
            f1
        } else {
            f1 + 1
        };
        let d0 = crate::calendar::civil_days_x(y, 0, day);
        if d0 < -900_000_000_000 || d0 > 900_000_000_000 {
            return (false, 0);
        }
        if kind == 0 && f1 >= 60 && crate::calendar::is_leap_year_x(y) {
            (true, d0 + 1)
        } else {
            (true, d0)
        }
    }
}

/// Interprets the rule line that may follow the last data block: a standard
/// offset and, when a daylight name and a pair of yearly rules are given,
/// the schedule for instants beyond the last explicit transition, which is
/// materialized as explicit transitions over a four-century horizon. The
/// approximations this brings: past the horizon the last materialized
/// record persists instead of the yearly schedule; a yearly schedule starts
/// at the last explicit transition's year, or at the epoch's year for a
/// table with no explicit transition; and a constant rule is applied only
/// when an explicit transition anchors it. A line that cannot be
/// interpreted leaves the table as parsed.
#[verifier::loop_isolation(false)]
#[verifier::rlimit(80)]
fn apply_footer(bytes: &Vec<u8>, data_end: u64, table: TransitionTable) -> (r: TransitionTable)
    requires
        table.wf(),
        data_end <= bytes@.len(),
    ensures
        r.wf(),
        (data_end as int >= bytes@.len() || bytes@[data_end as int] != 0x0a) ==> r == table,
        r.leaps@ == table.leaps@,
        r.trans@.len() >= table.trans@.len(),
        r.types@.len() >= table.types@.len(),
        forall|i: int| 0 <= i < table.trans@.len() ==> (#[trigger] r.trans@[i]) == table.trans@[i],
        forall|j: int| 0 <= j < table.types@.len() ==> (#[trigger] r.types@[j]) == table.types@[j],
{
    let mut table = table;
    let ghost orig_trans = table.trans@;
    let ghost orig_types = table.types@;
    let blen = bytes.len();
    let mut pos = data_end as usize;
    if pos >= blen || bytes[pos] != 0x0a {
        return table;
    }
    pos = pos + 1;
    let mut end = pos;
    while end < blen && bytes[end] != 0x0a
        invariant
            pos <= end <= blen,
        decreases blen - end,
    {
        end = end + 1;
    }
    if end >= blen {
        return table;
    }
    let (ok, std_name, p1) = parse_name(bytes, pos, end);
    if !ok {
        return table;
    }
    let (ok, std_west, p2) = parse_amount(bytes, p1, end);
    if !ok {
        return table;
    }
    let std_off = -std_west;
    if std_off <= -99999 || std_off >= 99999 {
        return table;
    }
    if p2 == end {
        // A constant rule: from just past the last explicit transition on,
        // the standard offset governs.
        if table.trans.len() == 0 || table.types.len() > 999 {
            return table;
        }
        let lw = table.trans[table.trans.len() - 1].when;
        if lw >= 0x3FFF_FFFF_FFFF_FFFF {
            return table;
        }
        let idx = table.types.len();
        table.types.push(
            TType { utoff: std_off as i32, isdst: false, abbr: ascii_string(std_name) },
        );
        table.trans.push(Transition { when: lw + 1, ttype: idx });
        proof {
            assert forall|a: int, b: int|
                0 <= a < b < table.trans@.len() implies (#[trigger] table.trans@[a].when)
                <= (#[trigger] table.trans@[b].when) by {
                lemma_trans_sorted_chain(table.trans@, a, b);
            }
        }
        return table;
    }
    let (ok, dst_name, p3) = parse_name(bytes, p2, end);
    if !ok {
        return table;
    }
    let mut p = p3;
    let mut dst_off: i64 = std_off + 3600;
    if p < end && bytes[p] != 0x2c {
        let (ok, dst_west, p4) = parse_amount(bytes, p, end);
        if !ok {
            return table;
        }
        dst_off = -dst_west;
        p = p4;
    }
    if dst_off <= -99999 || dst_off >= 99999 {
        return table;
    }
    if p >= end || bytes[p] != 0x2c {
        return table;
    }
    let (ok, sk, sf1, sf2, sf3, st, p5) = parse_rule(bytes, p + 1, end);
    if !ok {
        return table;
    }
    if p5 >= end || bytes[p5] != 0x2c {
        return table;
    }
    let (ok, ek, ef1, ef2, ef3, et, p6) = parse_rule(bytes, p5 + 1, end);
    if !ok || p6 != end {
        return table;
    }
    if table.types.len() > 998 {
        return table;
    }
    // Starting year: that of the last explicit transition, else the epoch's.
    let mut ystart: i64 = 1970;
    let mut has_last: bool = false;
    let mut last_when: i64 = 0;
    if table.trans.len() > 0 {
        last_when = table.trans[table.trans.len() - 1].when;
        has_last = true;
        match crate::calendar::break_down(last_when) {
            None => {
                return table;
            },
            Some(f) => {
                ystart = f.year;
            },
        }
    }
    let std_idx = table.types.len();
    table.types.push(TType { utoff: std_off as i32, isdst: false, abbr: ascii_string(std_name) });
    let dst_idx = table.types.len();
    table.types.push(TType { utoff: dst_off as i32, isdst: true, abbr: ascii_string(dst_name) });
    let ghost gtypes = table.types@;
    let ghost gleaps = table.leaps@;
    let tlen = table.types.len();
    let mut n: i64 = 0;
    while n < 401
        invariant
            0 <= n <= 401,
            -2_147_481_748 <= ystart < 2_147_485_548,
            table.types@ == gtypes,
            table.leaps@ == gleaps,
            tlen == table.types@.len(),
            std_idx < tlen,
            dst_idx < tlen,
            forall|k: int|
                0 <= k < table.trans@.len() ==> (#[trigger] table.trans@[k].ttype) < tlen,
            forall|k: int|
                1 <= k < table.trans@.len() ==> table.trans@[k - 1].when
                    <= (#[trigger] table.trans@[k].when),
            has_last ==> table.trans@.len() > 0 && last_when == table.trans@[table.trans@.len()
                - 1].when,
            !has_last ==> table.trans@.len() == 0,
            table.trans@.len() >= orig_trans.len(),
            forall|k: int|
                0 <= k < orig_trans.len() ==> (#[trigger] table.trans@[k]) == orig_trans[k],
        decreases 401 - n,
    {
        let y = ystart + n;
        let (ok1, sd) = rule_day(sk, sf1, sf2, sf3, y);
        let (ok2, ed) = rule_day(ek, ef1, ef2, ef3, y);
        if ok1 && ok2 {
            let s_inst = sd * 86400 + st - std_off;
            let e_inst = ed * 86400 + et - dst_off;
            let (w1, t1, w2, t2) = if s_inst <= e_inst {
                (s_inst, dst_idx, e_inst, std_idx)
            } else {
                (e_inst, std_idx, s_inst, dst_idx)
            };
            if !has_last || w1 > last_when {
                table.trans.push(Transition { when: w1, ttype: t1 });
                last_when = w1;
                has_last = true;
            }
            if w2 > last_when {
                table.trans.push(Transition { when: w2, ttype: t2 });
                last_when = w2;
            }
        }
        n = n + 1;
    }
    proof {
        assert forall|a: int, b: int|
            0 <= a < b < table.trans@.len() implies (#[trigger] table.trans@[a].when)
            <= (#[trigger] table.trans@[b].when) by {
            lemma_trans_sorted_chain(table.trans@, a, b);
        }
    }
    table
}

/// Parses a complete rule file. For versions 2 and 3 the legacy block is
/// skipped and the 64-bit block governs; the optional rule line after it is
/// interpreted and its schedule appended to the table (see `apply_footer`).
pub fn parse_tzfile(bytes: &Vec<u8>) -> (r: Result<TransitionTable, Error>)
    ensures
        r is Ok ==> r->Ok_0.wf(),
        bytes@.len() < 4 ==> r == Err::<TransitionTable, Error>(Error::TruncatedInput),
        bytes@.len() >= 4 && !has_magic(bytes@, 0) ==> r == Err::<TransitionTable, Error>(
            Error::BadMagic,
        ),
        bytes@.len() >= 5 && has_magic(bytes@, 0) && !version_ok(bytes@[4]) ==> r == Err::<
            TransitionTable,
            Error,
        >(Error::UnsupportedVersion),
        r is Ok ==> bytes@.len() >= 5 && has_magic(bytes@, 0) && version_ok(bytes@[4]),
        r is Ok && bytes@[4] == 0 ==> block_loaded(bytes@, 0, false, r->Ok_0)
            && r->Ok_0.trans@.len() == be32u(bytes@, 32) && r->Ok_0.types@.len() == be32u(
            bytes@,
            36,
        ),
        r is Ok && bytes@[4] != 0 ==> block_loaded(bytes@, legacy_size(bytes@), true, r->Ok_0),
        r is Ok <==> tzfile_ok(bytes@),
{
    if bytes.len() < 4 {
        return Err(Error::TruncatedInput);
    }
    if !(bytes[0] == 0x54 && bytes[1] == 0x5a && bytes[2] == 0x69 && bytes[3] == 0x66) {
        return Err(Error::BadMagic);
    }
    if bytes.len() < 5 {
        return Err(Error::TruncatedInput);
    }
    let version = bytes[4];
    if !(version == 0 || version == 0x32 || version == 0x33) {
        return Err(Error::UnsupportedVersion);
    }
    if bytes.len() < 44 {
        return Err(Error::TruncatedInput);
    }
    if version == 0 {
        return match parse_block(bytes, 0, false) {
            Ok((table, _)) => Ok(table),
            Err(e) => Err(e),
        };
    }
    // Size of the legacy block, to skip it.
    let isutcnt = read_be32u(bytes, 20);
    let isstdcnt = read_be32u(bytes, 24);
    let leapcnt = read_be32u(bytes, 28);
    let timecnt = read_be32u(bytes, 32);
    let typecnt = read_be32u(bytes, 36);
    let charcnt = read_be32u(bytes, 40);
    let v1size: u64 = 44 + timecnt * 5 + typecnt * 6 + charcnt + leapcnt * 8 + isstdcnt + isutcnt;
    let len: u64 = bytes.len() as u64;
    proof {
        assert(v1size == legacy_size(bytes@));
    }
    if v1size > len || len - v1size < 44 {
        return Err(Error::TruncatedInput);
    }
    let hdr = v1size;
    let m0 = bytes[hdr as usize];
    let m1 = bytes[(hdr + 1) as usize];
    let m2 = bytes[(hdr + 2) as usize];
    let m3 = bytes[(hdr + 3) as usize];
    if !(m0 == 0x54 && m1 == 0x5a && m2 == 0x69 && m3 == 0x66) {
        return Err(Error::BadMagic);
    }
    let v2 = bytes[(hdr + 4) as usize];
    if !(v2 == 0 || v2 == 0x32 || v2 == 0x33) {
        return Err(Error::UnsupportedVersion);
    }
    match parse_block(bytes, hdr, true) {
        Ok((table, data_end)) => Ok(apply_footer(bytes, data_end, table)),
        Err(e) => Err(e),
    }
}

} // verus!
