use chrono::{FixedOffset, Local, NaiveDateTime, TimeZone};
use lkml_core::filter::{
    day_bounds, join_ends, local_to_utc, located, next_midnight, previous_midnight, range_form,
    DateRange, DateRangeError, RangeForm, TimeError,
};
use lkml_core::mail::Mail;
use lkml_core::time::{instant, MailDate, Timestamp, DAY_SECS, MAX_SECS, MIN_SECS};

fn range(start: &str, end: &str) -> DateRange {
    DateRange::parse(&format!("{start} to {end}")).unwrap()
}

fn stamp(secs: i64) -> Timestamp {
    Timestamp::new(secs, 0).unwrap()
}

fn sent(secs: i64, nanos: u32) -> Mail {
    Mail {
        date: Some(MailDate { at: Timestamp::new(secs, nanos).unwrap(), offset: 3600 }),
        ..Mail::default()
    }
}

#[test]
fn explicit_range_is_half_open() {
    let r = range("2026/01/01 00:00", "2026/01/02 00:00");
    assert!(r.start < r.end);
    let at = |s: &str| {
        let date = Local
            .from_local_datetime(&NaiveDateTime::parse_from_str(s, "%Y/%m/%d %H:%M").unwrap())
            .single()
            .unwrap()
            .with_timezone(&FixedOffset::east_opt(0).unwrap());
        Mail {
            date: Some(MailDate {
                at: Timestamp::new(date.timestamp(), date.timestamp_subsec_nanos()).unwrap(),
                offset: date.offset().local_minus_utc(),
            }),
            ..Mail::default()
        }
    };
    assert!(r.contains(&at("2026/01/01 00:00")));
    assert!(r.contains(&at("2026/01/01 23:59")));
    assert!(!r.contains(&at("2026/01/02 00:00")));
    assert!(!r.contains(&Mail::default())); // no Date: header
}

#[test]
fn today_and_yesterday_abut() {
    let today = DateRange::parse("today").unwrap();
    let yesterday = DateRange::parse("Yesterday").unwrap();
    assert_eq!(yesterday.end, today.start);
}

#[test]
fn malformed_text_is_an_error() {
    assert!(DateRange::parse("last week").is_err());
    assert!(DateRange::parse("2026/01/01 00:00").is_err());
    assert!(DateRange::parse("").is_err());
}

#[test]
fn each_way_of_failing_has_its_error() {
    assert_eq!(DateRange::parse("last week"), Err(DateRangeError::UnknownForm));
    assert_eq!(
        DateRange::parse("x to 2026/01/01 00:00"),
        Err(DateRangeError::StartDate(TimeError::Malformed))
    );
    assert_eq!(
        DateRange::parse("2026/01/01 00:00 to x"),
        Err(DateRangeError::EndDate(TimeError::Malformed))
    );
    assert_eq!(
        DateRange::parse("2026/13/01 00:00 to x"),
        Err(DateRangeError::StartDate(TimeError::Malformed))
    );
    assert_eq!(located(None), Err(TimeError::AmbiguousLocalTime));
    assert_eq!(located(Some(stamp(5))), Ok(stamp(5)));
    assert_eq!(
        DateRange::of_day(None, Some(stamp(5))),
        Err(DateRangeError::AmbiguousLocalTime)
    );
    assert_eq!(
        DateRange::of_day(Some(stamp(5)), None),
        Err(DateRangeError::AmbiguousLocalTime)
    );
    assert_eq!(
        DateRange::between(Ok(stamp(1)), Err(TimeError::AmbiguousLocalTime)),
        Err(DateRangeError::EndDate(TimeError::AmbiguousLocalTime))
    );
    assert_eq!(
        DateRange::between(Err(TimeError::AmbiguousLocalTime), Err(TimeError::Malformed)),
        Err(DateRangeError::StartDate(TimeError::AmbiguousLocalTime))
    );
}

#[test]
fn errors_say_what_is_wrong() {
    assert_eq!(DateRangeError::DateOverflow.message(), "date overflow");
    assert_eq!(DateRangeError::DateUnderflow.message(), "date underflow");
    assert_eq!(DateRangeError::AmbiguousLocalTime.message(), "ambiguous local time");
    assert_eq!(
        DateRangeError::StartDate(TimeError::Malformed).message(),
        "parsing start date"
    );
    assert_eq!(DateRangeError::EndDate(TimeError::Malformed).message(), "parsing end date");
    assert_eq!(
        DateRangeError::UnknownForm.message(),
        "expected 'today', 'yesterday', or '<start> to <end>'"
    );
    assert_eq!(TimeError::Malformed.message(), "expected YYYY/MM/DD HH:MM");
    assert_eq!(TimeError::AmbiguousLocalTime.message(), "ambiguous local time");
}

#[test]
fn a_day_ends_where_the_next_begins() {
    let yesterday = DateRange::of_day(Some(stamp(0)), Some(stamp(DAY_SECS))).unwrap();
    let today = DateRange::of_day(Some(stamp(DAY_SECS)), Some(stamp(2 * DAY_SECS))).unwrap();
    for secs in [0, 1, DAY_SECS - 1, DAY_SECS, 2 * DAY_SECS - 1] {
        let mail = sent(secs, 0);
        assert_ne!(yesterday.contains(&mail), today.contains(&mail));
    }
    assert!(yesterday.contains(&sent(DAY_SECS - 1, 999_999_999)));
    assert!(!today.contains(&sent(2 * DAY_SECS, 0)));
    assert!(!yesterday.contains(&sent(-1, 999_999_999)));
}

#[test]
fn a_backward_range_holds_nothing() {
    let r = DateRange::between(Ok(stamp(10)), Ok(stamp(5))).unwrap();
    for secs in [4, 5, 7, 10, 11] {
        assert!(!r.contains(&sent(secs, 0)));
    }
}

#[test]
fn midnights_stop_at_the_ends_of_the_calendar() {
    assert_eq!(next_midnight(0), Some(DAY_SECS));
    assert_eq!(previous_midnight(0), Some(-DAY_SECS));
    let last = MAX_SECS + 1 - DAY_SECS;
    assert_eq!(next_midnight(last), None);
    assert_eq!(next_midnight(last - DAY_SECS), Some(last));
    assert_eq!(previous_midnight(MIN_SECS), None);
    assert_eq!(previous_midnight(MIN_SECS + DAY_SECS), Some(MIN_SECS));
}

#[test]
fn a_shown_range_can_be_typed_again() {
    let r = range("2026/01/01 08:30", "2026/01/02 17:05");
    assert_eq!(r.to_text(), "2026/01/01 08:30 to 2026/01/02 17:05");
    assert_eq!(DateRange::parse(&r.to_text()), Ok(r));
    assert_eq!(join_ends("a", "b"), "a to b");
}

#[test]
fn a_typed_range_comes_back_whatever_its_form() {
    let midnight = NaiveDateTime::parse_from_str("2026/01/02 00:00", "%Y/%m/%d %H:%M")
        .unwrap()
        .and_utc()
        .timestamp();
    for typed in [
        "today",
        "yesterday",
        "2026/01/02 17:05 to 2026/01/01 08:30",
        "-262142/02/03 04:05 to +262141/06/07 08:09",
        "-0001/12/31 23:59 to +10000/01/01 00:00",
        "0000/02/29 00:00 to 9999/12/31 23:59",
    ] {
        let r = DateRange::parse_on(typed, midnight).unwrap();
        let shown = r.to_text();
        assert_eq!(DateRange::parse_on(&shown, midnight + DAY_SECS), Ok(r), "{shown}");
        assert_eq!((r.start.nanos(), r.end.nanos()), (0, 0));
        assert_eq!(DateRange::parse(&shown).unwrap().to_text(), shown);
    }
}

#[test]
fn forms_are_told_apart() {
    assert!(matches!(range_form("  ToDay "), RangeForm::Today));
    assert!(matches!(range_form("YESTERDAY"), RangeForm::Yesterday));
    assert!(matches!(range_form("a to"), RangeForm::Unknown));
    match range_form(" a  to  b to c ") {
        RangeForm::Between(a, b) => {
            assert_eq!(a, "a");
            assert_eq!(b, "b to c");
        }
        _ => panic!("no range"),
    }
}

#[test]
fn a_local_time_is_the_instant_that_its_zone_gives() {
    assert_eq!(instant(Some((5, 7))), Timestamp::new(5, 7));
    assert!(instant(Some((5, 7))).is_some());
    assert_eq!(instant(Some((MAX_SECS + 1, 0))), None);
    assert_eq!(instant(None), None);
    let wall = NaiveDateTime::parse_from_str("2026/01/01 12:00", "%Y/%m/%d %H:%M").unwrap();
    let want = Local
        .from_local_datetime(&wall)
        .single()
        .and_then(|d| Timestamp::new(d.timestamp(), d.timestamp_subsec_nanos()));
    assert_eq!(local_to_utc(wall.and_utc().timestamp(), 0), want);
}

#[test]
fn keywords_stand_for_the_days_midnights() {
    let midnight = NaiveDateTime::parse_from_str("2026/01/02 00:00", "%Y/%m/%d %H:%M")
        .unwrap()
        .and_utc()
        .timestamp();
    let today = DateRange::parse_on("today", midnight).unwrap();
    let yesterday = DateRange::parse_on(" YesterDay\n", midnight).unwrap();
    assert_eq!(today, range("2026/01/02 00:00", "2026/01/03 00:00"));
    assert_eq!(yesterday, range("2026/01/01 00:00", "2026/01/02 00:00"));
    assert_eq!(yesterday.end, today.start);
    assert_eq!(DateRange::parse_on("tomorrow", midnight), Err(DateRangeError::UnknownForm));
    assert_eq!(
        DateRange::parse_on("2026/01/01 08:30 to 2026/01/02 17:05", midnight),
        Ok(range("2026/01/01 08:30", "2026/01/02 17:05"))
    );
}

#[test]
fn the_calendar_ends_somewhere() {
    let last = MAX_SECS + 1 - DAY_SECS;
    assert_eq!(DateRange::parse_on("today", last), Err(DateRangeError::DateOverflow));
    assert_eq!(DateRange::parse_on("yesterday", MIN_SECS), Err(DateRangeError::DateUnderflow));
    assert_eq!(day_bounds(false, 0), Ok((0, DAY_SECS)));
    assert_eq!(day_bounds(true, 0), Ok((-DAY_SECS, 0)));
    assert_eq!(day_bounds(false, last), Err(DateRangeError::DateOverflow));
    assert_eq!(day_bounds(true, last), Ok((last - DAY_SECS, last)));
    assert_eq!(day_bounds(true, MIN_SECS), Err(DateRangeError::DateUnderflow));
    assert_eq!(day_bounds(false, MIN_SECS), Ok((MIN_SECS, MIN_SECS + DAY_SECS)));
}
