//! Points in time, and what the calendar crate `chrono` says of them: reading
//! dates out of text, writing them, and the local time zone.

use chrono::{DateTime, Local, NaiveDateTime, NaiveTime, TimeZone, Timelike, Utc};
use vstd::prelude::*;

verus! {

/// The first representable second, January 1st of the year -262143, counted from
/// the start of 1970 in UTC.
pub const MIN_SECS: i64 = -8334601228800;

/// The last representable second, at the end of the year 262142.
pub const MAX_SECS: i64 = 8210266876799;

/// The seconds of a day.
pub const DAY_SECS: i64 = 86400;

/// Local wall-clock time, as the user types and reads it.
pub const LOCAL_FORMAT: &'static str = "%Y/%m/%d %H:%M";

/// A time in UTC, as git reads it.
pub const SINCE_FORMAT: &'static str = "%Y-%m-%d %H:%M:%S +0000";

/// Seconds and nanoseconds that stand for a point in time. In a leap second the
/// nanoseconds run on from a whole second.
pub open spec fn in_range(secs: int, nanos: int) -> bool {
    MIN_SECS <= secs <= MAX_SECS && 0 <= nanos < 2_000_000_000
}

/// The point in time `a` lies before `b`.
pub open spec fn earlier(a: (int, int), b: (int, int)) -> bool {
    a.0 < b.0 || (a.0 == b.0 && a.1 < b.1)
}

/// A point in time, in UTC: seconds since the start of 1970, and nanoseconds.
#[derive(Debug, Clone, Copy, PartialEq, Eq, PartialOrd, Ord)]
pub struct Timestamp {
    secs: i64,
    nanos: u32,
}

impl View for Timestamp {
    type V = (int, int);

    closed spec fn view(&self) -> (int, int) {
        (self.secs as int, self.nanos as int)
    }
}

impl Timestamp {
    #[verifier::type_invariant]
    spec fn representable(self) -> bool {
        in_range(self.secs as int, self.nanos as int)
    }

    /// The point in time at the given seconds and nanoseconds, where they stand
    /// for one.
    pub fn new(secs: i64, nanos: u32) -> (r: Option<Timestamp>)
        ensures
            match r {
                Some(t) => in_range(secs as int, nanos as int) && t@ == (secs as int, nanos as int),
                None => !in_range(secs as int, nanos as int),
            },
    {
        if MIN_SECS <= secs && secs <= MAX_SECS && nanos < 2_000_000_000 {
            Some(Timestamp { secs, nanos })
        } else {
            None
        }
    }

    /// The point in time at the given seconds and nanoseconds.
    pub(crate) fn at(secs: i64, nanos: u32) -> (r: Timestamp)
        requires
            in_range(secs as int, nanos as int),
        ensures
            r@ == (secs as int, nanos as int),
    {
        Timestamp { secs, nanos }
    }

    /// Whole seconds since the start of 1970.
    pub fn secs(&self) -> (r: i64)
        ensures
            r == self@.0,
            MIN_SECS <= r <= MAX_SECS,
    {
        proof {
            use_type_invariant(&*self);
        }
        self.secs
    }

    /// Nanoseconds since the last whole second.
    pub fn nanos(&self) -> (r: u32)
        ensures
            r == self@.1,
            r < 2_000_000_000,
    {
        proof {
            use_type_invariant(&*self);
        }
        self.nanos
    }

    /// Whether this point in time lies before the other.
    pub fn is_before(&self, other: &Timestamp) -> (r: bool)
        ensures
            r == earlier(self@, other@),
    {
        self.secs < other.secs || (self.secs == other.secs && self.nanos < other.nanos)
    }
}

/// The date of a mail: a point in time, and the offset from UTC, in seconds, that
/// its sender wrote it with.
#[derive(Debug, Clone, Copy, PartialEq, Eq)]
pub struct MailDate {
    pub at: Timestamp,
    pub offset: i32,
}

impl View for MailDate {
    type V = ((int, int), int);

    open spec fn view(&self) -> ((int, int), int) {
        (self.at@, self.offset as int)
    }
}

/// What `DateTime::parse_from_rfc2822` reads: seconds and nanoseconds of the point
/// in time, and the offset from UTC in seconds.
pub uninterp spec fn rfc2822_date(s: Seq<char>) -> Option<(i64, u32, i32)>;

/// What `DateTime::parse_from_rfc3339` reads.
pub uninterp spec fn rfc3339_date(s: Seq<char>) -> Option<(i64, u32, i32)>;

/// What `NaiveDateTime::parse_from_str` reads from text in a given format: the
/// seconds and nanoseconds of the wall-clock time, counted as if it were UTC.
pub uninterp spec fn wall_clock_in(s: Seq<char>, format: Seq<char>) -> Option<(i64, u32)>;

/// A wall-clock time as `LOCAL_FORMAT` can state it: to the minute.
pub open spec fn is_minute(t: (i64, u32)) -> bool {
    in_range(t.0 as int, t.1 as int) && t.0 % 60 == 0 && t.1 == 0
}

/// What `DateTime::format` writes of a point in time in UTC.
pub uninterp spec fn utc_text(secs: i64, nanos: u32, format: Seq<char>) -> Seq<char>;

/// The date that a `Date` header states: in the form of RFC 2822, else in that of
/// RFC 3339.
pub open spec fn rfc_date(s: Seq<char>) -> Option<((int, int), int)> {
    if s.len() == 0 {
        None
    } else {
        match rfc2822_date(s) {
            Some(d) => Some(((d.0 as int, d.1 as int), d.2 as int)),
            None => match rfc3339_date(s) {
                Some(d) => Some(((d.0 as int, d.1 as int), d.2 as int)),
                None => None,
            },
        }
    }
}

/// The date of a mail, in its mathematical form.
pub open spec fn date_view(d: Option<MailDate>) -> Option<((int, int), int)> {
    match d {
        Some(d) => Some(d@),
        None => None,
    }
}

/// `DateTime::parse_from_rfc2822`. The result is named, not described; a date that
/// is read is a representable point in time.
#[verifier::external_body]
fn parse_rfc2822(s: &str) -> (r: Option<(i64, u32, i32)>)
    ensures
        r == rfc2822_date(s@),
        r matches Some(d) ==> in_range(d.0 as int, d.1 as int),
{
    DateTime::parse_from_rfc2822(s).ok().map(
        |d| (d.timestamp(), d.timestamp_subsec_nanos(), d.offset().local_minus_utc()),
    )
}

/// `DateTime::parse_from_rfc3339`. The result is named, not described; a date that
/// is read is a representable point in time.
#[verifier::external_body]
fn parse_rfc3339(s: &str) -> (r: Option<(i64, u32, i32)>)
    ensures
        r == rfc3339_date(s@),
        r matches Some(d) ==> in_range(d.0 as int, d.1 as int),
{
    DateTime::parse_from_rfc3339(s).ok().map(
        |d| (d.timestamp(), d.timestamp_subsec_nanos(), d.offset().local_minus_utc()),
    )
}

/// `NaiveDateTime::parse_from_str`. The result is named, not described; a time
/// that is read is representable, and in `LOCAL_FORMAT`, which has no field smaller
/// than the minute, it is a whole minute.
#[verifier::external_body]
pub(crate) fn parse_wall_clock(s: &str, format: &str) -> (r: Option<(i64, u32)>)
    ensures
        r == wall_clock_in(s@, format@),
        r matches Some(t) ==> in_range(t.0 as int, t.1 as int),
        r matches Some(t) ==> format@ == LOCAL_FORMAT@ ==> is_minute(t),
{
    NaiveDateTime::parse_from_str(s, format).ok().map(
        |t| (t.and_utc().timestamp(), t.and_utc().timestamp_subsec_nanos()),
    )
}

/// `DateTime::from_timestamp` for whole seconds: there is a point in time exactly
/// for the representable ones.
#[verifier::external_body]
pub(crate) fn whole_second(secs: i64) -> (r: Option<(i64, u32)>)
    ensures
        r == if MIN_SECS <= secs <= MAX_SECS {
            Some((secs, 0u32))
        } else {
            None
        },
{
    DateTime::from_timestamp(secs, 0).map(|d| (d.timestamp(), d.timestamp_subsec_nanos()))
}

/// `DateTime::format` in UTC, for the format that git is given. The text is named,
/// not described.
#[verifier::external_body]
pub(crate) fn format_utc(secs: i64, nanos: u32, format: &str) -> (r: String)
    requires
        in_range(secs as int, nanos as int),
        format@ == SINCE_FORMAT@,
    ensures
        r@ == utc_text(secs, nanos, format@),
{
    let naive = DateTime::from_timestamp(secs, 0).unwrap().naive_utc();
    naive.with_nanosecond(nanos).unwrap().and_utc().format(format).to_string()
}

/// The shape of a time in `LOCAL_FORMAT`: a year of four digits or more, with a
/// sign where it has more or lies before the year zero, then month, day, hour and
/// minute of two digits each.
pub open spec fn is_local_text(s: Seq<char>) -> bool {
    let k = s.len() - 12;
    &&& k >= 4
    &&& crate::number::is_digit(s[0]) || s[0] == '+' || s[0] == '-'
    &&& crate::number::all_digits(s.subrange(1, k))
    &&& s[k] == '/'
    &&& crate::number::all_digits(s.subrange(k + 1, k + 3))
    &&& s[k + 3] == '/'
    &&& crate::number::all_digits(s.subrange(k + 4, k + 6))
    &&& s[k + 6] == ' '
    &&& crate::number::all_digits(s.subrange(k + 7, k + 9))
    &&& s[k + 9] == ':'
    &&& crate::number::all_digits(s.subrange(k + 10, k + 12))
}

/// `s`, read in `LOCAL_FORMAT`, gives the wall-clock time at `secs` to the minute, as
/// long as that time is representable.
pub open spec fn reads_as(s: Seq<char>, secs: int) -> bool {
    in_range(secs, 0) ==> wall_clock_in(s, LOCAL_FORMAT@) == Some(
        ((secs - secs % 60) as i64, 0u32),
    )
}

/// `s` shows the point in time `t` on a clock that is set `offset` seconds ahead of UTC,
/// by less than a day, and reads as the minute that the clock stands at.
pub open spec fn shown_at(t: (int, int), offset: int, s: Seq<char>) -> bool {
    &&& -DAY_SECS < offset < DAY_SECS
    &&& s == utc_text((t.0 + offset) as i64, t.1 as u32, LOCAL_FORMAT@)
    &&& reads_as(s, t.0 + offset)
}

/// `s` shows the point in time `t` on some clock, in `LOCAL_FORMAT`.
pub open spec fn is_local_time(t: (int, int), s: Seq<char>) -> bool {
    is_local_text(s) && exists|offset: int| #[trigger] shown_at(t, offset, s)
}

/// `DateTime::format` in the machine's time zone: the text is that of the time which
/// the zone's offset away is in UTC, it has the shape of the format, and
/// `NaiveDateTime::parse_from_str` reads that time to the minute back out of it. Which
/// offset it is, the zone decides, so it is not stated. The crate panics where the
/// zone's offset from UTC is a day or more, which no zone of the time zone database
/// has.
#[verifier::external_body]
pub(crate) fn format_local(secs: i64, nanos: u32, format: &str) -> (r: String)
    requires
        in_range(secs as int, nanos as int),
        format@ == LOCAL_FORMAT@,
    ensures
        is_local_time((secs as int, nanos as int), r@),
{
    let naive = DateTime::from_timestamp(secs, 0).unwrap().naive_utc();
    let utc = naive.with_nanosecond(nanos).unwrap().and_utc();
    utc.with_timezone(&Local).format(format).to_string()
}

/// `TimeZone::from_local_datetime` for the machine's time zone, where it gives one
/// point in time: that a wall-clock time stands for. In every zone it lies less than
/// a day away. Which one it is, and whether there is one, the zone decides, so neither
/// is stated: any wall-clock time may be one that a clock change skips or repeats.
#[verifier::external_body]
pub(crate) fn from_local(secs: i64, nanos: u32) -> (r: Option<(i64, u32)>)
    requires
        in_range(secs as int, nanos as int),
    ensures
        r matches Some(t) ==> {
            &&& in_range(t.0 as int, t.1 as int)
            &&& secs - DAY_SECS < t.0 < secs + DAY_SECS
            &&& t.1 == nanos
        },
{
    let naive = DateTime::from_timestamp(secs, 0).unwrap().naive_utc();
    let local = Local.from_local_datetime(&naive.with_nanosecond(nanos).unwrap());
    let utc = local.single().map(|d| d.with_timezone(&Utc));
    utc.map(|d| (d.timestamp(), d.timestamp_subsec_nanos()))
}

/// `Local::now`: the day it is, as the wall-clock time of its midnight. It is the
/// start of a representable day; which one, the clock and the time zone decide.
#[verifier::external_body]
pub(crate) fn local_midnight() -> (r: i64)
    ensures
        MIN_SECS <= r <= MAX_SECS,
        r % DAY_SECS == 0,
{
    Local::now().date_naive().and_time(NaiveTime::MIN).and_utc().timestamp()
}

/// Today's midnight is what a reading of the machine's clock and time zone gave. Two
/// readings may differ.
pub closed spec fn clock_gave(midnight: i64) -> bool {
    call_ensures(local_midnight, (), midnight)
}

/// The machine's time zone, when it was asked, gave the wall-clock time this point in
/// time, or none. Asked twice, it may give another.
pub closed spec fn zone_gave(secs: i64, nanos: u32, found: Option<(i64, u32)>) -> bool {
    call_ensures(from_local, (secs, nanos), found)
}

/// What the clock gives is what `local_midnight` returns, and nothing made of it.
pub(crate) proof fn law_the_clock_is_read_as_it_is(midnight: i64)
    ensures
        clock_gave(midnight) <==> call_ensures(local_midnight, (), midnight),
        clock_gave(midnight) ==> MIN_SECS <= midnight <= MAX_SECS && midnight % DAY_SECS == 0,
{
}

/// What the zone gives is what `from_local` returns, and nothing made of it.
pub(crate) proof fn law_the_zone_is_asked_as_it_is(secs: i64, nanos: u32, found: Option<(i64, u32)>)
    ensures
        zone_gave(secs, nanos, found) <==> call_ensures(from_local, (secs, nanos), found),
        zone_gave(secs, nanos, found) ==> match found {
            Some(t) => in_range(t.0 as int, t.1 as int) && secs - DAY_SECS < t.0 < secs + DAY_SECS
                && t.1 == nanos,
            None => true,
        },
{
}

/// The point in time with the given seconds and nanoseconds, where they stand for one.
pub fn instant(parts: Option<(i64, u32)>) -> (r: Option<Timestamp>)
    ensures
        match (parts, r) {
            (Some(t), Some(at)) => in_range(t.0 as int, t.1 as int) && at@ == (
                t.0 as int,
                t.1 as int,
            ),
            (Some(t), None) => !in_range(t.0 as int, t.1 as int),
            (None, _) => r is None,
        },
{
    match parts {
        Some(t) => Timestamp::new(t.0, t.1),
        None => None,
    }
}

/// The date with the given seconds, nanoseconds and offset, where they stand for one.
pub fn mail_date(parts: Option<(i64, u32, i32)>) -> (r: Option<MailDate>)
    ensures
        date_view(r) == match parts {
            Some(d) => if in_range(d.0 as int, d.1 as int) {
                Some(((d.0 as int, d.1 as int), d.2 as int))
            } else {
                None
            },
            None => None,
        },
{
    match parts {
        Some(d) => match Timestamp::new(d.0, d.1) {
            Some(at) => Some(MailDate { at, offset: d.2 }),
            None => None,
        },
        None => None,
    }
}

/// The date that a `Date` header states: in the form of RFC 2822, else in that of
/// RFC 3339.
pub fn parse_rfc_date(s: &str) -> (r: Option<MailDate>)
    ensures
        date_view(r) == rfc_date(s@),
{
    if s.is_empty() {
        return None;
    }
    match mail_date(parse_rfc2822(s)) {
        Some(date) => Some(date),
        None => mail_date(parse_rfc3339(s)),
    }
}

/// A date is what the form of RFC 2822 says; only where the text is not of that form, what
/// the form of RFC 3339 says. Empty text states none.
pub proof fn law_dates_come_in_two_forms(s: Seq<char>)
    requires
        s.len() > 0,
    ensures
        rfc2822_date(s) matches Some(d) ==> rfc_date(s) == Some(
            ((d.0 as int, d.1 as int), d.2 as int),
        ),
        rfc2822_date(s) is None ==> (rfc3339_date(s) matches Some(d) ==> rfc_date(s) == Some(
            ((d.0 as int, d.1 as int), d.2 as int),
        )),
        rfc2822_date(s) is None && rfc3339_date(s) is None ==> rfc_date(s) is None,
        rfc_date(seq![]) is None,
{
}

} // verus!
