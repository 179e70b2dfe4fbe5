//! Message dates.

use b2fmsg::date;

#[test]
fn known_dates() {
    assert_eq!(date::format(0), "1970/01/01 00:00");
    assert_eq!(date::format(951_782_400), "2000/02/29 00:00");
    assert_eq!(date::format(1_790_246_700), "2026/09/24 10:45");
    assert_eq!(date::parse("2026/09/24 10:45"), Some(1_790_246_700));
    assert_eq!(date::parse("2026.09.24 10:45"), Some(1_790_246_700));
    assert_eq!(date::parse("2026/13/24 10:45"), None);
    assert_eq!(date::parse("garbage"), None);
}

#[test]
fn roundtrip_many() {
    for t in (0..4_000_000_000i64).step_by(7_777_777) {
        let minute = t - t % 60;
        assert_eq!(date::parse(&date::format(minute)), Some(minute));
    }
}

#[test]
fn hours_and_minutes_are_in_range() {
    assert_eq!(date::parse("2026/09/24 -1:00"), None);
    assert_eq!(date::parse("2026/09/24 10:-5"), None);
    assert_eq!(date::parse("2026/09/24 24:00"), None);
    assert_eq!(date::parse("2026/09/24 10:60"), None);
    assert_eq!(date::parse("2026/09/24 00:00"), Some(1_790_208_000));
    assert_eq!(date::parse("2026/09/24 23:59"), Some(1_790_294_340));
}

#[test]
fn separators_may_be_slashes_stops_or_dashes() {
    for t in (0..253_402_300_799i64).step_by(7_777_777_777) {
        for sep in ["/", ".", "-"] {
            let text = date::format(t).replace('/', sep);
            assert_eq!(date::parse(&text), Some(t - t % 60), "{text}");
        }
    }
}
