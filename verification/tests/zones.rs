use libtz::{Error, TimeT, Timezone, Tm};

/// Builds a version-1 rule file from counts and raw record data.
fn tzfile(
    trans: &[(i64, u8)],
    types: &[(i32, u8, u8)],
    chars: &[u8],
    leaps: &[(i64, i32)],
) -> Vec<u8> {
    let mut b: Vec<u8> = Vec::new();
    b.extend_from_slice(b"TZif");
    b.push(0);
    b.extend_from_slice(&[0u8; 15]);
    b.extend_from_slice(&0u32.to_be_bytes()); // isutcnt
    b.extend_from_slice(&0u32.to_be_bytes()); // isstdcnt
    b.extend_from_slice(&(leaps.len() as u32).to_be_bytes());
    b.extend_from_slice(&(trans.len() as u32).to_be_bytes());
    b.extend_from_slice(&(types.len() as u32).to_be_bytes());
    b.extend_from_slice(&(chars.len() as u32).to_be_bytes());
    for &(when, _) in trans {
        b.extend_from_slice(&(when as i32).to_be_bytes());
    }
    for &(_, idx) in trans {
        b.push(idx);
    }
    for &(utoff, isdst, abbrind) in types {
        b.extend_from_slice(&utoff.to_be_bytes());
        b.push(isdst);
        b.push(abbrind);
    }
    b.extend_from_slice(chars);
    for &(when, corr) in leaps {
        b.extend_from_slice(&(when as i32).to_be_bytes());
        b.extend_from_slice(&corr.to_be_bytes());
    }
    b
}

/// A Pacific-style zone: standard time -28800 ("PST"), daylight -25200
/// ("PDT"), with the transitions surrounding the turn of the millennium.
fn pacific() -> Vec<u8> {
    tzfile(
        &[
            (923220000, 1),  // daylight on, spring 1999
            (941360400, 0),  // fall back 1999: 02:00 PDT -> 01:00 PST
            (954669600, 1),  // spring forward 2000: 02:00 PST -> 03:00 PDT
            (972810000, 0),  // fall back 2000
        ],
        &[(-28800, 0, 0), (-25200, 1, 4)],
        b"PST\0PDT\0",
        &[],
    )
}

fn utc() -> Vec<u8> {
    tzfile(&[], &[(0, 0, 0)], b"UTC\0", &[])
}

#[test]
fn basics() {
    let tz = Timezone::new("US/Pacific", &pacific()).expect("timezone alloc");
    let time = 946713600;
    let tm = tz.localtime(time).expect("localtime");
    assert_eq!(
        tm,
        Tm {
            tm_sec: 0,
            tm_min: 0,
            tm_hour: 0,
            tm_mday: 1,
            tm_mon: 0,
            tm_year: 100,
            tm_wday: 6,
            tm_yday: 0,
            tm_isdst: 0,
            tm_gmtoff: -28800,
            tm_zone: "PST".to_string()
        }
    );
    assert_eq!(tz.mktime(&tm).expect("unix time"), time); // Round trip
}

#[test]
fn posix_conversions() {
    let tz = Timezone::new("UTC", &utc()).expect("timezone alloc");
    let posixtime: TimeT = 536457599;
    let time = tz.posix2time(posixtime);
    let tm = tz.localtime(time).expect("localtime");
    assert_eq!(
        tm,
        Tm {
            tm_sec: 59,
            tm_min: 59,
            tm_hour: 23,
            tm_mday: 31,
            tm_mon: 11,
            tm_year: 86,
            tm_wday: 3,
            tm_yday: 364,
            tm_isdst: 0,
            tm_gmtoff: 0,
            tm_zone: "UTC".to_string()
        }
    );
    assert_eq!(tz.time2posix(time), posixtime); // Round Trip
}

#[test]
fn local_round_trip_across_transitions() {
    // mktime(localtime(t)) == t, including both sides of each transition.
    let tz = Timezone::new("US/Pacific", &pacific()).expect("load");
    let samples: [i64; 10] = [
        923219999, 923220000, 941360399, 941360400, 941364000, 954669599, 954669600, 946713600,
        0, 100000000,
    ];
    for &t in samples.iter() {
        let tm = tz.localtime(t).expect("localtime");
        assert_eq!(tz.mktime(&tm).expect("mktime"), t);
    }
}

fn civil(sec: i32, min: i32, hour: i32, mday: i32, mon: i32, year: i32, isdst: i32) -> Tm {
    Tm {
        tm_sec: sec,
        tm_min: min,
        tm_hour: hour,
        tm_mday: mday,
        tm_mon: mon,
        tm_year: year,
        tm_wday: 0,
        tm_yday: 0,
        tm_isdst: isdst,
        tm_gmtoff: 0,
        tm_zone: String::new(),
    }
}

#[test]
fn fall_back_duplicate_resolves_to_earlier() {
    // 1999-10-31 01:30 local happens twice; the unknown hint picks the
    // earlier (daylight) instant, and each explicit hint picks its side.
    let tz = Timezone::new("US/Pacific", &pacific()).expect("load");
    let ambiguous = civil(0, 30, 1, 31, 9, 99, -1);
    assert_eq!(tz.mktime(&ambiguous).unwrap(), 941358600);
    let as_dst = civil(0, 30, 1, 31, 9, 99, 1);
    assert_eq!(tz.mktime(&as_dst).unwrap(), 941358600);
    let as_std = civil(0, 30, 1, 31, 9, 99, 0);
    assert_eq!(tz.mktime(&as_std).unwrap(), 941362200);
}

#[test]
fn spring_forward_gap_rejected() {
    // 2000-04-02 02:30 local never happens.
    let tz = Timezone::new("US/Pacific", &pacific()).expect("load");
    let gap = civil(0, 30, 2, 2, 3, 100, -1);
    assert_eq!(tz.mktime(&gap), Err(Error::InvalidCivilTime));
}

#[test]
fn leap_second_mapping() {
    // Two inserted leap seconds; boundaries follow the records.
    let with_leaps = tzfile(
        &[],
        &[(0, 0, 0)],
        b"UTC\0",
        &[(78796800, 1), (94694400, 2)],
    );
    let tz = Timezone::new("UTC", &with_leaps).expect("load");
    assert_eq!(tz.time2posix(78796799), 78796799);
    assert_eq!(tz.time2posix(78796800), 78796799); // the inserted second repeats
    assert_eq!(tz.time2posix(78796801), 78796800);
    assert_eq!(tz.posix2time(78796798), 78796798);
    assert_eq!(tz.posix2time(78796799), 78796800);
    assert_eq!(tz.posix2time(94694399), 94694401);
    // Round trip over the boundaries.
    for &x in [78796798i64, 78796799, 78796800, 94694397, 94694398, 94694399].iter() {
        assert_eq!(tz.time2posix(tz.posix2time(x)), x);
    }
}

#[test]
fn malformed_inputs_rejected() {
    let mut wrong_magic = utc();
    wrong_magic[0] = b'X';
    assert!(matches!(Timezone::new("bad", &wrong_magic), Err(Error::BadMagic)));
    // Every load attempt fails the same way; nothing partial survives.
    assert!(matches!(Timezone::new("bad", &wrong_magic), Err(Error::BadMagic)));

    assert!(matches!(Timezone::new("empty", &Vec::new()), Err(Error::TruncatedInput)));
    assert!(matches!(Timezone::new("short", &b"TZi".to_vec()), Err(Error::TruncatedInput)));

    let mut bad_version = utc();
    bad_version[4] = b'9';
    assert!(matches!(Timezone::new("v9", &bad_version), Err(Error::UnsupportedVersion)));

    let mut truncated = utc();
    truncated.truncate(50);
    assert!(matches!(Timezone::new("cut", &truncated), Err(Error::TruncatedInput)));

    // An abbreviation index outside the pool.
    let bad_abbr = tzfile(&[], &[(0, 0, 200)], b"UTC\0", &[]);
    assert!(matches!(Timezone::new("abbr", &bad_abbr), Err(Error::MalformedAbbreviation)));

    // A pool whose string never terminates.
    let no_nul = tzfile(&[], &[(0, 0, 0)], b"UTC!", &[]);
    assert!(matches!(Timezone::new("nul", &no_nul), Err(Error::MalformedAbbreviation)));

    // No offset records at all.
    let no_types = tzfile(&[], &[], b"", &[]);
    assert!(matches!(Timezone::new("none", &no_types), Err(Error::MalformedData)));

    // Transition times out of order.
    let unsorted = tzfile(&[(100, 0), (50, 0)], &[(0, 0, 0)], b"UTC\0", &[]);
    assert!(matches!(Timezone::new("order", &unsorted), Err(Error::MalformedData)));
}

#[test]
fn version_two_block_governs() {
    // A version-2 file: legacy block, then a 64-bit block whose data is the
    // one actually used, then a footer line, which is tolerated.
    let mut b: Vec<u8> = Vec::new();
    for pass in 0..2 {
        b.extend_from_slice(b"TZif");
        b.push(b'2');
        b.extend_from_slice(&[0u8; 15]);
        b.extend_from_slice(&0u32.to_be_bytes());
        b.extend_from_slice(&0u32.to_be_bytes());
        b.extend_from_slice(&0u32.to_be_bytes()); // leapcnt
        b.extend_from_slice(&1u32.to_be_bytes()); // timecnt
        b.extend_from_slice(&2u32.to_be_bytes()); // typecnt
        b.extend_from_slice(&8u32.to_be_bytes()); // charcnt
        if pass == 0 {
            b.extend_from_slice(&100i32.to_be_bytes());
        } else {
            b.extend_from_slice(&100i64.to_be_bytes());
        }
        b.push(1);
        b.extend_from_slice(&(-3600i32).to_be_bytes());
        b.push(0);
        b.push(0);
        b.extend_from_slice(&7200i32.to_be_bytes());
        b.push(1);
        b.push(4);
        b.extend_from_slice(b"AAA\0BBB\0");
    }
    b.extend_from_slice(b"\nAAA1\n");
    let tz = Timezone::new("two", &b).expect("load");
    let before = tz.localtime(0).expect("localtime");
    assert_eq!(before.tm_gmtoff, -3600);
    assert_eq!(before.tm_zone, "AAA");
    let after = tz.localtime(100).expect("localtime");
    assert_eq!(after.tm_gmtoff, 7200);
    assert_eq!(after.tm_zone, "BBB");
    assert_eq!(after.tm_isdst, 1);
}

#[test]
fn localtime_attaches_zone_data() {
    let tz = Timezone::new("US/Pacific", &pacific()).expect("load");
    let summer = tz.localtime(960000000).expect("localtime"); // June 2000
    assert_eq!(summer.tm_gmtoff, -25200);
    assert_eq!(summer.tm_isdst, 1);
    assert_eq!(summer.tm_zone, "PDT");
    let winter = tz.localtime(946713600).expect("localtime");
    assert_eq!(winter.tm_zone, "PST");
}

#[test]
fn footer_rule_extends_table() {
    // A version-2 file whose rule line carries the schedule for instants
    // beyond its single explicit transition.
    let mut b: Vec<u8> = Vec::new();
    for pass in 0..2 {
        b.extend_from_slice(b"TZif");
        b.push(b'2');
        b.extend_from_slice(&[0u8; 15]);
        b.extend_from_slice(&0u32.to_be_bytes());
        b.extend_from_slice(&0u32.to_be_bytes());
        b.extend_from_slice(&0u32.to_be_bytes()); // leapcnt
        b.extend_from_slice(&1u32.to_be_bytes()); // timecnt
        b.extend_from_slice(&1u32.to_be_bytes()); // typecnt
        b.extend_from_slice(&4u32.to_be_bytes()); // charcnt
        if pass == 0 {
            b.extend_from_slice(&100i32.to_be_bytes());
        } else {
            b.extend_from_slice(&100i64.to_be_bytes());
        }
        b.push(0);
        b.extend_from_slice(&(-14400i32).to_be_bytes());
        b.push(0);
        b.push(0);
        b.extend_from_slice(b"AST\0");
    }
    b.extend_from_slice(b"\nAST4ADT,M3.2.0,M11.1.0\n");
    let tz = Timezone::new("rule", &b).expect("load");

    // May 2020 falls between the second Sunday in March and the first
    // Sunday in November: daylight time.
    let summer = tz.localtime(1590000000).expect("localtime");
    assert_eq!(summer.tm_gmtoff, -10800);
    assert_eq!(summer.tm_isdst, 1);
    assert_eq!(summer.tm_zone, "ADT");
    // January 2021: standard time.
    let winter = tz.localtime(1610000000).expect("localtime");
    assert_eq!(winter.tm_gmtoff, -14400);
    assert_eq!(winter.tm_isdst, 0);
    assert_eq!(winter.tm_zone, "AST");
    // The exact instants of the 2020 changes.
    assert_eq!(tz.localtime(1583647199).expect("localtime").tm_zone, "AST");
    assert_eq!(tz.localtime(1583647200).expect("localtime").tm_zone, "ADT");
    assert_eq!(tz.localtime(1604206799).expect("localtime").tm_zone, "ADT");
    assert_eq!(tz.localtime(1604206800).expect("localtime").tm_zone, "AST");
    // Round trips through the rule-governed region.
    for &t in [1583647199i64, 1583647200, 1590000000, 1604206799, 1604206800].iter() {
        let tm = tz.localtime(t).expect("localtime");
        assert_eq!(tz.mktime(&tm).expect("mktime"), t);
    }
}

#[test]
fn name_with_nul_rejected() {
    let tz = Timezone::new("US/\0Pacific", &utc());
    assert!(matches!(tz, Err(Error::EncodingError)));
}

#[test]
fn constant_footer_governs_beyond_last_transition() {
    // A version-2 file whose rule line names a fixed standard offset: from
    // just past the last explicit transition on, that offset applies.
    let mut b: Vec<u8> = Vec::new();
    for pass in 0..2 {
        b.extend_from_slice(b"TZif");
        b.push(b'2');
        b.extend_from_slice(&[0u8; 15]);
        b.extend_from_slice(&0u32.to_be_bytes());
        b.extend_from_slice(&0u32.to_be_bytes());
        b.extend_from_slice(&0u32.to_be_bytes());
        b.extend_from_slice(&1u32.to_be_bytes()); // timecnt
        b.extend_from_slice(&1u32.to_be_bytes()); // typecnt
        b.extend_from_slice(&4u32.to_be_bytes()); // charcnt
        if pass == 0 {
            b.extend_from_slice(&1000i32.to_be_bytes());
        } else {
            b.extend_from_slice(&1000i64.to_be_bytes());
        }
        b.push(0);
        b.extend_from_slice(&3600i32.to_be_bytes());
        b.push(0);
        b.push(0);
        b.extend_from_slice(b"AAA\0");
    }
    b.extend_from_slice(b"\nBBB5\n");
    let tz = Timezone::new("const", &b).expect("load");
    let before = tz.localtime(1000).expect("localtime");
    assert_eq!(before.tm_gmtoff, 3600);
    assert_eq!(before.tm_zone, "AAA");
    let after = tz.localtime(2000).expect("localtime");
    assert_eq!(after.tm_gmtoff, -18000);
    assert_eq!(after.tm_zone, "BBB");
}

#[test]
fn far_future_localtime() {
    // Year two billion fits the year field, so a zoned conversion succeeds.
    let tz = Timezone::new("UTC", &utc()).expect("load");
    let t: i64 = 63113841832780800;
    let tm = tz.localtime(t).expect("localtime");
    assert_eq!(tm.tm_year, 1999998100);
    assert_eq!(tz.mktime(&tm).expect("mktime"), t);
}
