use querykey_server::calendar::{
    add_months, expand, occurrences, parse_rrule, parse_u32, parse_until, Freq, RRule, UtcDateTime,
};

fn dt(s: &str) -> UtcDateTime {
    parse_until(s).unwrap()
}

fn utc(year: i32, month: u32, day: u32, hour: u32, minute: u32, second: u32) -> UtcDateTime {
    UtcDateTime { year, month, day, hour, minute, second, nano: 0 }
}

#[test]
fn parses_subset_and_ignores_unsupported() {
    let r = parse_rrule("FREQ=WEEKLY;INTERVAL=2;COUNT=5;BYDAY=MO").unwrap();
    assert_eq!(r.freq, Freq::Weekly);
    assert_eq!(r.interval, 2);
    assert_eq!(r.count, Some(5));
    assert!(r.until.is_none());
    assert!(parse_rrule("INTERVAL=2").is_none()); // no FREQ
    assert!(parse_rrule("FREQ=FORTNIGHTLY").is_none());
}

#[test]
fn weekly_count_is_window_independent() {
    let start = dt("2026-05-04T09:00:00+00:00"); // Mon
    let occ = occurrences(
        &start,
        Some("FREQ=WEEKLY;COUNT=3"),
        &dt("2026-05-11T00:00:00+00:00"),
        &dt("2027-01-01T00:00:00+00:00"),
    );
    // 3 total in the series (May 4/11/18); window excludes the
    // first, so 2 land in [May 11, …].
    assert_eq!(occ, vec![dt("2026-05-11T09:00:00+00:00"), dt("2026-05-18T09:00:00+00:00")]);
}

#[test]
fn daily_until_inclusive() {
    let occ = occurrences(
        &dt("2026-05-01T08:00:00+00:00"),
        Some("FREQ=DAILY;UNTIL=20260503T080000Z"),
        &dt("2026-01-01T00:00:00+00:00"),
        &dt("2026-12-31T00:00:00+00:00"),
    );
    assert_eq!(occ.len(), 3); // May 1, 2, 3 (UNTIL inclusive)
}

#[test]
fn monthly_clamps_short_months() {
    let occ = occurrences(
        &dt("2026-01-31T12:00:00+00:00"),
        Some("FREQ=MONTHLY;COUNT=3"),
        &dt("2026-01-01T00:00:00+00:00"),
        &dt("2026-12-31T00:00:00+00:00"),
    );
    assert_eq!(
        occ,
        vec![
            dt("2026-01-31T12:00:00+00:00"),
            dt("2026-02-28T12:00:00+00:00"), // clamped
            dt("2026-03-31T12:00:00+00:00"),
        ]
    );
}

#[test]
fn non_recurring_passthrough() {
    let s = dt("2026-06-01T10:00:00+00:00");
    assert_eq!(
        occurrences(&s, None, &dt("2026-05-01T00:00:00+00:00"), &dt("2026-07-01T00:00:00+00:00")),
        vec![s]
    );
    assert!(occurrences(
        &s,
        None,
        &dt("2026-07-01T00:00:00+00:00"),
        &dt("2026-08-01T00:00:00+00:00")
    )
    .is_empty());
}

#[test]
fn rfc3339_offsets_are_converted_to_utc() {
    assert_eq!(dt("2026-05-04T09:00:00+02:00"), utc(2026, 5, 4, 7, 0, 0));
    assert_eq!(dt("2026-05-04T23:30:00-01:00"), utc(2026, 5, 5, 0, 30, 0));
}

#[test]
fn until_forms() {
    assert_eq!(parse_until("20260503T080000Z"), Some(utc(2026, 5, 3, 8, 0, 0)));
    assert_eq!(parse_until("20260503T080000"), Some(utc(2026, 5, 3, 8, 0, 0)));
    assert_eq!(parse_until("20260503"), Some(utc(2026, 5, 3, 0, 0, 0)));
    assert_eq!(parse_until("20260503Z"), Some(utc(2026, 5, 3, 0, 0, 0)));
    assert_eq!(parse_until("next tuesday"), None);
}

#[test]
fn rrule_keys_are_case_insensitive_and_later_parts_win() {
    let r = parse_rrule(" freq = daily ; interval=3;;FREQ=YEARLY").unwrap();
    assert_eq!(r.freq, Freq::Yearly);
    assert_eq!(r.interval, 3);
    assert_eq!(r.count, None);
    let r = parse_rrule("FREQ=DAILY;UNTIL=20260503").unwrap();
    assert_eq!(r.until, Some(utc(2026, 5, 3, 0, 0, 0)));
}

#[test]
fn rrule_malformed_parts_fail() {
    assert!(parse_rrule("FREQ=DAILY;INTERVAL=0").is_none());
    assert!(parse_rrule("FREQ=DAILY;INTERVAL=x").is_none());
    assert!(parse_rrule("FREQ=DAILY;COUNT=-1").is_none());
    assert!(parse_rrule("FREQ=DAILY;UNTIL=soon").is_none());
    assert!(parse_rrule("FREQ=DAILY;BYDAY").is_none()); // no '='
    assert!(parse_rrule("").is_none());
}

#[test]
fn u32_parsing_matches_str_parse() {
    let p = |s: &str| parse_u32(&s.chars().collect::<Vec<char>>());
    assert_eq!(p("42"), Some(42));
    assert_eq!(p("+7"), Some(7));
    assert_eq!(p("007"), Some(7));
    assert_eq!(p("4294967295"), Some(4294967295));
    assert_eq!(p("4294967296"), None);
    assert_eq!(p(""), None);
    assert_eq!(p("+"), None);
    assert_eq!(p("-1"), None);
    assert_eq!(p("1 2"), None);
}

#[test]
fn add_months_clamps_and_keeps_time() {
    let jan31 = utc(2024, 1, 31, 12, 0, 0);
    assert_eq!(add_months(&jan31, 1), utc(2024, 2, 29, 12, 0, 0)); // leap year
    assert_eq!(add_months(&jan31, 13), utc(2025, 2, 28, 12, 0, 0));
    assert_eq!(add_months(&jan31, -2), utc(2023, 11, 30, 12, 0, 0));
    assert_eq!(add_months(&utc(1900, 1, 29, 0, 0, 0), 1), utc(1900, 2, 28, 0, 0, 0));
    assert_eq!(add_months(&utc(2000, 1, 29, 0, 0, 0), 1), utc(2000, 2, 29, 0, 0, 0));
    // out of range: the input comes back
    let far = utc(262142, 12, 1, 0, 0, 0);
    assert_eq!(add_months(&far, 1), far);
}

#[test]
fn expand_respects_cap_and_yearly_steps() {
    let start = utc(2020, 2, 29, 6, 0, 0);
    let rule = RRule { freq: Freq::Yearly, interval: 1, count: None, until: None };
    let out = expand(&start, &rule, &start, &utc(2030, 1, 1, 0, 0, 0), 2);
    assert_eq!(
        out,
        vec![utc(2020, 2, 29, 6, 0, 0), utc(2021, 2, 28, 6, 0, 0), utc(2022, 2, 28, 6, 0, 0)]
    );
    let rule = RRule { freq: Freq::Daily, interval: 2, count: Some(4), until: None };
    let out = expand(&utc(2026, 12, 30, 0, 0, 0), &rule, &utc(2026, 1, 1, 0, 0, 0), &utc(2027, 12, 1, 0, 0, 0), 100);
    assert_eq!(
        out,
        vec![
            utc(2026, 12, 30, 0, 0, 0),
            utc(2027, 1, 1, 0, 0, 0),
            utc(2027, 1, 3, 0, 0, 0),
            utc(2027, 1, 5, 0, 0, 0)
        ]
    );
}
