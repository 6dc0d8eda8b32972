use libtz::{gmtime, timegm, Error, Tm};

fn tm(
    sec: i32,
    min: i32,
    hour: i32,
    mday: i32,
    mon: i32,
    year: i32,
    isdst: i32,
) -> Tm {
    Tm {
        tm_sec: sec,
        tm_min: min,
        tm_hour: hour,
        tm_mday: mday,
        tm_mon: mon,
        tm_year: year,
        tm_wday: 0,
        tm_yday: 0,
        tm_isdst: isdst,
        tm_gmtoff: 0,
        tm_zone: String::new(),
    }
}

#[test]
fn gmtime_test() {
    let time = 283996800;
    let tm = gmtime(time).expect("gmtime");
    assert_eq!(
        tm,
        Tm {
            tm_sec: 0,
            tm_min: 0,
            tm_hour: 0,
            tm_mday: 1,
            tm_mon: 0,
            tm_year: 79,
            tm_wday: 1,
            tm_yday: 0,
            tm_isdst: 0,
            tm_gmtoff: 0,
            tm_zone: "UTC".to_string()
        }
    );
    assert_eq!(timegm(&tm).expect("timegm"), time);
}

#[test]
fn gmtime_epoch() {
    let tm = gmtime(0).expect("gmtime");
    assert_eq!(
        (tm.tm_year, tm.tm_mon, tm.tm_mday, tm.tm_hour, tm.tm_min, tm.tm_sec),
        (70, 0, 1, 0, 0, 0)
    );
    assert_eq!(tm.tm_wday, 4); // the epoch was a Thursday
    assert_eq!(tm.tm_yday, 0);
    assert_eq!(tm.tm_zone, "UTC");
}

#[test]
fn gmtime_negative_instants() {
    let tm = gmtime(-1).expect("gmtime");
    assert_eq!(
        (tm.tm_year, tm.tm_mon, tm.tm_mday, tm.tm_hour, tm.tm_min, tm.tm_sec),
        (69, 11, 31, 23, 59, 59)
    );
    assert_eq!(tm.tm_wday, 3);
    assert_eq!(tm.tm_yday, 364);
}

#[test]
fn gmtime_overflow_rejected() {
    assert_eq!(gmtime(i64::MAX), Err(Error::Overflow));
    assert_eq!(gmtime(i64::MIN), Err(Error::Overflow));
}

#[test]
fn utc_round_trip_many() {
    // timegm(gmtime(t)) == t across leap years, century rules and negatives.
    let samples: [i64; 12] = [
        0,
        -1,
        1,
        951868799,  // 2000-02-29 23:59:59
        951868800,  // 2000-03-01
        68255999,   // 1972-02-29 23:59:59
        -2203891200, // 1900-03-01 (1900 is not a leap year)
        253402300799, // 9999-12-31 23:59:59
        -62167219200, // year 0
        86400,
        946684800,
        283996800,
    ];
    for &t in samples.iter() {
        let tm = gmtime(t).expect("gmtime");
        assert_eq!(timegm(&tm).expect("timegm"), t);
        assert_eq!(tm.tm_gmtoff, 0);
        assert_eq!(tm.tm_isdst, 0);
        assert_eq!(tm.tm_zone, "UTC");
    }
}

#[test]
fn timegm_normalizes_fields() {
    // Month 12 carries into the next year.
    assert_eq!(timegm(&tm(0, 0, 0, 1, 12, 70, 0)).unwrap(), 31536000);
    // Day 32 of January carries into February.
    assert_eq!(timegm(&tm(0, 0, 0, 32, 0, 70, 0)).unwrap(), 2678400);
    // Second -1 borrows from the last day of 1969.
    assert_eq!(timegm(&tm(-1, 0, 0, 1, 0, 70, 0)).unwrap(), -1);
    // Second 60 (a leap second on input) carries into the next minute.
    assert_eq!(timegm(&tm(60, 59, 23, 31, 11, 69, 0)).unwrap(), 0);
    // Hour 24 is the next day's hour 0.
    assert_eq!(timegm(&tm(0, 0, 24, 1, 0, 70, 0)).unwrap(), 86400);
}

#[test]
fn timegm_out_of_range_rejected() {
    // The last representable year still converts...
    let last = tm(0, 0, 0, 1, 0, i32::MAX, 0);
    let t = timegm(&last).expect("timegm");
    let back = gmtime(t).expect("gmtime");
    assert_eq!(back.tm_year, i32::MAX);
    // ...but carrying past it is rejected.
    let past = tm(0, 0, 0, 400, 0, i32::MAX, 0);
    assert_eq!(timegm(&past), Err(Error::InvalidCivilTime));
    let first = tm(0, 0, 0, 1, 0, i32::MIN, 0);
    let t0 = timegm(&first).expect("timegm");
    assert_eq!(gmtime(t0).expect("gmtime").tm_year, i32::MIN);
    let before = tm(0, 0, 0, -400, 0, i32::MIN, 0);
    assert_eq!(timegm(&before), Err(Error::InvalidCivilTime));
}

#[test]
fn far_future_years_fit_the_field() {
    // Year two billion: its year-minus-1900 still fits the field, so the
    // conversion succeeds.
    let t: i64 = 63113841832780800;
    let tm = gmtime(t).expect("gmtime");
    assert_eq!((tm.tm_year, tm.tm_mon, tm.tm_mday), (1999998100, 0, 1));
    assert_eq!((tm.tm_hour, tm.tm_min, tm.tm_sec), (0, 0, 0));
    assert_eq!(timegm(&tm).expect("timegm"), t);
}
