use aside::clock::{push_clock, push_long_clock, Timestamp};

fn t(secs: i64, nanos: u32) -> Timestamp {
    Timestamp { secs, nanos }
}

#[test]
fn differences_round_toward_zero() {
    assert_eq!(t(10, 0).secs_since(&t(8, 0)), 2);
    assert_eq!(t(10, 0).secs_since(&t(8, 1)), 1);
    assert_eq!(t(8, 1).secs_since(&t(10, 0)), -1);
    assert_eq!(t(8, 0).secs_since(&t(10, 0)), -2);
    assert_eq!(t(8, 0).secs_since(&t(8, 999_999_999)), 0);
    assert_eq!(t(10, 5_000_000).millis_since(&t(8, 4_000_001)), 2000);
    assert_eq!(t(10, 5_000_000).millis_since(&t(8, 4_000_000)), 2001);
    assert_eq!(t(10, 4_000_000).millis_since(&t(8, 5_000_000)), 1999);
    assert_eq!(t(8, 5_000_000).millis_since(&t(10, 4_000_000)), -1999);
    assert_eq!(t(8, 4_000_000).millis_since(&t(10, 5_000_001)), -2001);
    assert_eq!(t(8, 0).millis_since(&t(8, 999_999)), 0);
}

#[test]
fn differences_as_chrono_has_them() {
    // The last three lie in leap seconds, at the end of a minute and of a day.
    let instants = [t(0, 0), t(-1, 999_999_999), t(5, 1), t(5, 999_999_999), t(7, 500_000_000), t(-3, 499_999_999), t(120, 0), t(86400, 5),
        t(59, 1_300_000_000), t(119, 1_999_999_999), t(86399, 1_000_000_000)];
    for a in instants {
        for b in instants {
            let d = chrono::DateTime::from_timestamp(a.secs, a.nanos).unwrap()
                - chrono::DateTime::from_timestamp(b.secs, b.nanos).unwrap();
            assert_eq!(a.secs_since(&b), d.num_seconds());
            assert_eq!(a.millis_since(&b), d.num_milliseconds());
        }
    }
}

#[test]
fn later_instants_as_chrono_has_them() {
    for a in [t(5, 7), t(-1, 999_999_999), t(59, 1_300_000_000), t(86399, 1_000_000_000)] {
        for c in [0, 1, -1, 5, 59, 60, -60, 86400, -86400, 100_000] {
            let d = chrono::DateTime::from_timestamp(a.secs, a.nanos).unwrap() + chrono::Duration::seconds(c);
            let b = a.plus_secs(c);
            assert_eq!((b.secs, b.nanos), (d.timestamp(), d.timestamp_subsec_nanos()));
        }
    }
    // Two minutes past the hour, from a start in the leap second before its first minute.
    let start = t(36059, 1_300_000_000);
    assert_eq!(t(36120, 0).secs_since(&start), 60);
    assert_eq!(t(36120, 0).millis_since(&start), 60_700);
}

#[test]
fn later_instants() {
    assert_eq!(t(5, 7).plus_secs(10), t(15, 7));
    assert_eq!(t(5, 7).plus_secs(-10), t(-5, 7));
}

#[test]
fn limits_are_those_of_the_calendar() {
    assert_eq!(chrono::DateTime::<chrono::Utc>::MIN_UTC.timestamp(), aside::clock::MIN_SECS);
    assert_eq!(chrono::DateTime::<chrono::Utc>::MAX_UTC.timestamp(), aside::clock::MAX_SECS);
}

#[test]
fn clocks() {
    let mut out = String::from("=");
    push_clock(&mut out, 65);
    assert_eq!(out, "=01:05");
    let mut out = String::new();
    push_clock(&mut out, 3661);
    assert_eq!(out, "01:01:01");
    let mut out = String::new();
    push_long_clock(&mut out, 65);
    assert_eq!(out, "00:01:05");
}
