use rinha_fraude_vetorial::timestamp::{
    day_of_week_monday0, hour_utc, parse_utc_timestamp, UtcTimestamp,
};

#[test]
fn extracts_utc_hour() {
    assert_eq!(hour_utc("2026-03-11T20:23:35Z").unwrap(), 20);
}

#[test]
fn calculates_day_of_week_with_monday_as_zero() {
    assert_eq!(day_of_week_monday0("2026-03-11T20:23:35Z").unwrap(), 2);
}

#[test]
fn reads_the_instant_in_utc() {
    assert_eq!(
        parse_utc_timestamp("1970-01-01T00:00:01.25Z").unwrap(),
        UtcTimestamp { seconds: 1, nanos: 250_000_000 }
    );
    assert_eq!(
        parse_utc_timestamp("2026-03-11T23:30:00-03:00").unwrap(),
        parse_utc_timestamp("2026-03-12T02:30:00Z").unwrap()
    );
    assert_eq!(hour_utc("2026-03-11T23:30:00-03:00").unwrap(), 2);
    assert_eq!(day_of_week_monday0("2026-03-11T23:30:00-03:00").unwrap(), 3);
}

#[test]
fn days_of_the_week_follow_each_other() {
    assert_eq!(day_of_week_monday0("2026-03-09T00:00:00Z").unwrap(), 0);
    assert_eq!(day_of_week_monday0("2026-03-15T23:59:59Z").unwrap(), 6);
    assert_eq!(day_of_week_monday0("1970-01-01T00:00:00Z").unwrap(), 3);
    assert_eq!(day_of_week_monday0("1969-12-31T23:59:59Z").unwrap(), 2);
    assert_eq!(day_of_week_monday0("0000-01-01T00:00:00Z").unwrap(), 5);
    assert_eq!(day_of_week_monday0("9999-12-31T23:59:59Z").unwrap(), 4);
}

#[test]
fn hours_before_the_epoch_count_from_midnight() {
    assert_eq!(hour_utc("1969-12-31T23:59:59Z").unwrap(), 23);
    assert_eq!(hour_utc("1969-12-31T00:00:00Z").unwrap(), 0);
    assert_eq!(hour_utc("2016-12-31T23:59:60Z").unwrap(), 23);
}

#[test]
fn an_invalid_timestamp_is_named_with_its_text() {
    for text in ["", "yesterday", "2026-02-30T00:00:00Z", "2026-03-11 20:23", "2026-03-11T24:00:00Z"] {
        let error = parse_utc_timestamp(text).unwrap_err();
        assert_eq!(error.field, "timestamp");
        assert_eq!(error.value, text);
        assert_eq!(error.message(), format!("invalid timestamp in timestamp: {text}"));
        assert!(hour_utc(text).is_err());
        assert!(day_of_week_monday0(text).is_err());
    }
}

#[test]
fn elapsed_time_reverses() {
    let noon = parse_utc_timestamp("2026-03-11T12:00:00Z").unwrap();
    let later = parse_utc_timestamp("2026-03-11T12:00:01.9Z").unwrap();
    assert_eq!(later.seconds_since(&noon), 1);
    assert_eq!(noon.seconds_since(&later), -1);
    assert_eq!(noon.seconds_since(&noon), 0);
}

#[test]
fn leap_seconds_count_between_times_of_day() {
    let leap = parse_utc_timestamp("2016-12-31T23:59:60Z").unwrap();
    assert_eq!(leap, UtcTimestamp { seconds: 1_483_228_799, nanos: 1_000_000_000 });
    let before = parse_utc_timestamp("2016-12-31T23:59:59Z").unwrap();
    let next_day = parse_utc_timestamp("2017-01-01T00:00:00Z").unwrap();
    assert_eq!(leap.seconds_since(&before), 1);
    let early = parse_utc_timestamp("2016-12-31T12:00:60.5Z");
    assert!(early.is_ok());
    let noon_leap = early.unwrap();
    let evening = parse_utc_timestamp("2016-12-31T18:00:00Z").unwrap();
    assert_eq!(noon_leap.nanos, 1_500_000_000);
    assert_eq!(evening.seconds_since(&noon_leap), 21_540);
    assert_eq!(noon_leap.seconds_since(&evening), -21_540);
    assert_eq!(next_day.seconds_since(&leap), 0);
}
