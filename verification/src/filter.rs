//! A date window over a mail's `Date`: reading the text a user typed, in local
//! wall-clock time, and testing a mail against the window.

use crate::mail::Mail;
use crate::number;
use crate::text;
use crate::time;
use crate::time::Timestamp;
use crate::unicode;
use vstd::prelude::*;
use vstd::slice::slice_subrange;

verus! {

/// Half-open date range from `start` up to, not including, `end`.
#[derive(Debug, Clone, Copy, PartialEq, Eq)]
pub struct DateRange {
    pub start: Timestamp,
    pub end: Timestamp,
}

impl View for DateRange {
    type V = ((int, int), (int, int));

    open spec fn view(&self) -> ((int, int), (int, int)) {
        (self.start@, self.end@)
    }
}

/// Why text gives no wall-clock time in UTC.
#[derive(Debug, Clone, Copy, PartialEq, Eq)]
pub enum TimeError {
    /// It is not of the form `YYYY/MM/DD HH:MM`.
    Malformed,
    /// The clock was set forward over that time, or back over it.
    AmbiguousLocalTime,
}

/// Why text gives no date range.
#[derive(Debug, Clone, Copy, PartialEq, Eq)]
pub enum DateRangeError {
    /// There is no tomorrow.
    DateOverflow,
    /// There was no yesterday.
    DateUnderflow,
    /// The clock was set forward or back over midnight.
    AmbiguousLocalTime,
    /// The start of the range could not be read.
    StartDate(TimeError),
    /// The end of the range could not be read.
    EndDate(TimeError),
    /// The text has none of the known forms.
    UnknownForm,
}

/// The forms that the text of a range can have.
pub enum RangeForm {
    Today,
    Yesterday,
    Between(String, String),
    Unknown,
}

/// The forms that the text of a range can have, in mathematical form.
pub enum RangeFormView {
    Today,
    Yesterday,
    Between(Seq<char>, Seq<char>),
    Unknown,
}

impl View for RangeForm {
    type V = RangeFormView;

    open spec fn view(&self) -> RangeFormView {
        match self {
            RangeForm::Today => RangeFormView::Today,
            RangeForm::Yesterday => RangeFormView::Yesterday,
            RangeForm::Between(a, b) => RangeFormView::Between(a@, b@),
            RangeForm::Unknown => RangeFormView::Unknown,
        }
    }
}

/// The form of the text: `today`, `yesterday`, or two times with ` to ` between.
pub open spec fn form_of(typed: Seq<char>) -> RangeFormView {
    let t = text::trimmed(typed);
    if unicode::lowercase(t) == "today"@ {
        RangeFormView::Today
    } else if unicode::lowercase(t) == "yesterday"@ {
        RangeFormView::Yesterday
    } else {
        match text::find_in(t, " to "@) {
            Some(i) => RangeFormView::Between(
                text::trimmed(t.take(i)),
                text::trimmed(t.skip(i + 4)),
            ),
            None => RangeFormView::Unknown,
        }
    }
}

/// The wall-clock time that `YYYY/MM/DD HH:MM` stands for: a whole minute.
pub open spec fn wall_clock(s: Seq<char>) -> Option<(i64, u32)> {
    match time::wall_clock_in(s, time::LOCAL_FORMAT@) {
        Some(w) => if time::is_minute(w) {
            Some(w)
        } else {
            None
        },
        None => None,
    }
}

/// What the end of a range may be in UTC that was typed as the wall-clock time `w`.
pub open spec fn near(t: (int, int), w: (i64, u32)) -> bool {
    w.0 - time::DAY_SECS < t.0 < w.0 + time::DAY_SECS && t.1 == w.1
}

/// The point in time is what the machine's time zone gave the wall-clock time `w` when
/// it was asked.
pub open spec fn zone_found(w: (i64, u32), t: (int, int)) -> bool {
    near(t, w) && time::zone_gave(w.0, w.1, Some((t.0 as i64, t.1 as u32)))
}

/// What may come of an end of a range, whatever the time zone is.
pub open spec fn end_outcome(s: Seq<char>, r: Result<Timestamp, TimeError>) -> bool {
    match wall_clock(s) {
        None => r == Err::<Timestamp, TimeError>(TimeError::Malformed),
        Some(w) => match r {
            Ok(t) => zone_found(w, t@),
            Err(e) => e == TimeError::AmbiguousLocalTime && time::zone_gave(w.0, w.1, None),
        },
    }
}

/// A time zone, as far as every zone is alike: it gives each wall-clock time one point in
/// time or none, and one that is less than a day away.
pub open spec fn is_zone(zone: spec_fn(i64, u32) -> Option<Timestamp>) -> bool {
    forall|secs: i64, nanos: u32|
        match #[trigger] zone(secs, nanos) {
            Some(t) => near(t@, (secs, nanos)),
            None => true,
        }
}

/// The zone is that of a clock which is set `offset` ahead of UTC at each point in time:
/// a wall-clock time stands for a point in time at which the clock shows it.
pub open spec fn is_clock(
    zone: spec_fn(i64, u32) -> Option<Timestamp>,
    offset: spec_fn(int) -> int,
) -> bool {
    forall|secs: i64, nanos: u32|
        match #[trigger] zone(secs, nanos) {
            Some(t) => t@.0 + offset(t@.0) == secs,
            None => true,
        }
}

/// What comes of an end of a range in the given zone.
pub open spec fn end_in(s: Seq<char>, zone: spec_fn(i64, u32) -> Option<Timestamp>) -> Result<
    Timestamp,
    TimeError,
> {
    match wall_clock(s) {
        None => Err(TimeError::Malformed),
        Some(w) => match zone(w.0, w.1) {
            Some(t) => Ok(t),
            None => Err(TimeError::AmbiguousLocalTime),
        },
    }
}

/// The two midnights that a keyword stands for, given today's: those of today, or those
/// of the day before. The last day has no tomorrow, the first no yesterday.
pub open spec fn bounds_of(yesterday: bool, today: i64) -> Result<(i64, i64), DateRangeError> {
    if yesterday {
        if today - time::DAY_SECS < time::MIN_SECS {
            Err(DateRangeError::DateUnderflow)
        } else {
            Ok(((today - time::DAY_SECS) as i64, today))
        }
    } else if today + time::DAY_SECS > time::MAX_SECS {
        Err(DateRangeError::DateOverflow)
    } else {
        Ok((today, (today + time::DAY_SECS) as i64))
    }
}

/// The range between two ends, each of which may have failed; the start is read
/// first.
pub open spec fn range_between(
    start: Result<Timestamp, TimeError>,
    end: Result<Timestamp, TimeError>,
) -> Result<DateRange, DateRangeError> {
    match (start, end) {
        (Ok(a), Ok(b)) => Ok(DateRange { start: a, end: b }),
        (Err(e), _) => Err(DateRangeError::StartDate(e)),
        (Ok(_), Err(e)) => Err(DateRangeError::EndDate(e)),
    }
}

/// The range of a day between two midnights, where each is one point in time.
pub open spec fn range_of_day(
    start: Option<Timestamp>,
    end: Option<Timestamp>,
) -> Result<DateRange, DateRangeError> {
    match (start, end) {
        (Some(a), Some(b)) => Ok(DateRange { start: a, end: b }),
        _ => Err(DateRangeError::AmbiguousLocalTime),
    }
}

/// The range between the midnights of a day, given the zone when the first was asked
/// for, and when the second was.
pub open spec fn day_in(
    bounds: Result<(i64, i64), DateRangeError>,
    first: spec_fn(i64, u32) -> Option<Timestamp>,
    second: spec_fn(i64, u32) -> Option<Timestamp>,
) -> Result<DateRange, DateRangeError> {
    match bounds {
        Ok(p) => range_of_day(first(p.0, 0u32), second(p.1, 0u32)),
        Err(e) => Err(e),
    }
}

/// The range that the text stands for, given today's midnight and the zone when the
/// start was asked for, and when the end was.
pub open spec fn range_in(
    typed: Seq<char>,
    today: i64,
    first: spec_fn(i64, u32) -> Option<Timestamp>,
    second: spec_fn(i64, u32) -> Option<Timestamp>,
) -> Result<DateRange, DateRangeError> {
    match form_of(typed) {
        RangeFormView::Today => day_in(bounds_of(false, today), first, second),
        RangeFormView::Yesterday => day_in(bounds_of(true, today), first, second),
        RangeFormView::Between(a, b) => range_between(end_in(a, first), end_in(b, second)),
        RangeFormView::Unknown => Err(DateRangeError::UnknownForm),
    }
}

/// What may come of a keyword, whatever the time zone is: a range whose ends are near
/// the two midnights, or the error that there is no such day.
pub open spec fn day_outcome(
    yesterday: bool,
    today: i64,
    r: Result<DateRange, DateRangeError>,
) -> bool {
    match bounds_of(yesterday, today) {
        Ok(p) => match r {
            Ok(range) => zone_found((p.0, 0u32), range@.0) && zone_found((p.1, 0u32), range@.1),
            Err(e) => e == DateRangeError::AmbiguousLocalTime && (time::zone_gave(p.0, 0u32, None)
                || time::zone_gave(p.1, 0u32, None)),
        },
        Err(e) => r == Err::<DateRange, DateRangeError>(e),
    }
}

/// What may come of the text of a range, given today's midnight, whatever the time zone
/// is.
pub open spec fn parse_outcome(
    typed: Seq<char>,
    today: i64,
    r: Result<DateRange, DateRangeError>,
) -> bool {
    match form_of(typed) {
        RangeFormView::Today => day_outcome(false, today, r),
        RangeFormView::Yesterday => day_outcome(true, today, r),
        RangeFormView::Between(a, b) => exists|
            start: Result<Timestamp, TimeError>,
            end: Result<Timestamp, TimeError>,
        |
            #![trigger range_between(start, end)]
            end_outcome(a, start) && end_outcome(b, end) && r == range_between(start, end),
        RangeFormView::Unknown => r == Err::<DateRange, DateRangeError>(
            DateRangeError::UnknownForm,
        ),
    }
}

/// The wall-clock time of a midnight.
pub open spec fn is_midnight(secs: i64) -> bool {
    time::MIN_SECS <= secs <= time::MAX_SECS && secs % time::DAY_SECS == 0
}

/// The mail's date lies in the range. A mail without a date lies in none.
pub open spec fn in_window(
    range: ((int, int), (int, int)),
    date: Option<((int, int), int)>,
) -> bool {
    match date {
        Some(d) => !time::earlier(d.0, range.0) && time::earlier(d.0, range.1),
        None => false,
    }
}

impl TimeError {
    /// The message for the user.
    pub open spec fn text(self) -> Seq<char> {
        match self {
            TimeError::Malformed => "expected YYYY/MM/DD HH:MM"@,
            TimeError::AmbiguousLocalTime => "ambiguous local time"@,
        }
    }

    /// The message for the user.
    pub fn message(&self) -> (r: &'static str)
        ensures
            r@ == self.text(),
    {
        match self {
            TimeError::Malformed => "expected YYYY/MM/DD HH:MM",
            TimeError::AmbiguousLocalTime => "ambiguous local time",
        }
    }
}

impl DateRangeError {
    /// The message for the user.
    pub open spec fn text(self) -> Seq<char> {
        match self {
            DateRangeError::DateOverflow => "date overflow"@,
            DateRangeError::DateUnderflow => "date underflow"@,
            DateRangeError::AmbiguousLocalTime => "ambiguous local time"@,
            DateRangeError::StartDate(_) => "parsing start date"@,
            DateRangeError::EndDate(_) => "parsing end date"@,
            DateRangeError::UnknownForm =>
                "expected 'today', 'yesterday', or '<start> to <end>'"@,
        }
    }

    /// The message for the user.
    pub fn message(&self) -> (r: &'static str)
        ensures
            r@ == self.text(),
    {
        match self {
            DateRangeError::DateOverflow => "date overflow",
            DateRangeError::DateUnderflow => "date underflow",
            DateRangeError::AmbiguousLocalTime => "ambiguous local time",
            DateRangeError::StartDate(_) => "parsing start date",
            DateRangeError::EndDate(_) => "parsing end date",
            DateRangeError::UnknownForm => "expected 'today', 'yesterday', or '<start> to <end>'",
        }
    }
}

/// The form of the text that a user typed.
pub fn range_form(typed: &str) -> (r: RangeForm)
    ensures
        r@ == form_of(typed@),
{
    let chars = text::chars_of(typed);
    let t = text::trim(chars.as_slice());
    let n: usize = t.len();
    let trimmed = text::string_of(t);
    let lower = text::chars_of(unicode::to_lowercase(trimmed.as_str()).as_str());
    let today = text::chars_of("today");
    if text::same(lower.as_slice(), today.as_slice()) {
        return RangeForm::Today;
    }
    let yesterday = text::chars_of("yesterday");
    if text::same(lower.as_slice(), yesterday.as_slice()) {
        return RangeForm::Yesterday;
    }
    let to = text::chars_of(" to ");
    proof {
        reveal_strlit(" to ");
    }
    match text::find(t, to.as_slice()) {
        Some(i) => {
            let start = slice_subrange(t, 0, i);
            let end = slice_subrange(t, i + 4, n);
            assert(start@ =~= t@.take(i as int));
            assert(end@ =~= t@.skip(i + 4));
            RangeForm::Between(
                text::string_of(text::trim(start)),
                text::string_of(text::trim(end)),
            )
        },
        None => RangeForm::Unknown,
    }
}

/// The point in time that a wall-clock time of the machine's time zone stands for,
/// where it is exactly one. The hour that a clock change skips or repeats has none;
/// which hours these are, the zone decides.
pub fn local_to_utc(secs: i64, nanos: u32) -> (r: Option<Timestamp>)
    requires
        time::in_range(secs as int, nanos as int),
    ensures
        match r {
            Some(t) => zone_found((secs, nanos), t@),
            None => time::zone_gave(secs, nanos, None),
        },
        r matches Some(t) ==> near(t@, (secs, nanos)),
{
    proof {
        assert forall|found: Option<(i64, u32)>|
            call_ensures(time::from_local, (secs, nanos), found) implies time::zone_gave(
            secs,
            nanos,
            found,
        ) by {
            time::law_the_zone_is_asked_as_it_is(secs, nanos, found);
        }
    }
    time::instant(time::from_local(secs, nanos))
}

/// What comes of an end of a range, given the point in time that its wall-clock
/// time stands for.
pub fn located(found: Option<Timestamp>) -> (r: Result<Timestamp, TimeError>)
    ensures
        r == match found {
            Some(t) => Ok::<Timestamp, TimeError>(t),
            None => Err(TimeError::AmbiguousLocalTime),
        },
{
    match found {
        Some(t) => Ok(t),
        None => Err(TimeError::AmbiguousLocalTime),
    }
}

/// Read a wall-clock time as local and convert it to UTC.
pub fn parse_local_datetime(s: &str) -> (r: Result<Timestamp, TimeError>)
    ensures
        end_outcome(s@, r),
{
    match time::parse_wall_clock(s, time::LOCAL_FORMAT) {
        Some(w) => located(local_to_utc(w.0, w.1)),
        None => Err(TimeError::Malformed),
    }
}

/// The midnight after the given one.
pub fn next_midnight(midnight: i64) -> (r: Option<i64>)
    requires
        time::MIN_SECS <= midnight <= time::MAX_SECS,
    ensures
        match r {
            Some(m) => m == midnight + time::DAY_SECS && m <= time::MAX_SECS,
            None => midnight + time::DAY_SECS > time::MAX_SECS,
        },
{
    if midnight <= time::MAX_SECS - time::DAY_SECS {
        Some(midnight + time::DAY_SECS)
    } else {
        None
    }
}

/// The midnight before the given one.
pub fn previous_midnight(midnight: i64) -> (r: Option<i64>)
    requires
        time::MIN_SECS <= midnight <= time::MAX_SECS,
    ensures
        match r {
            Some(m) => m == midnight - time::DAY_SECS && m >= time::MIN_SECS,
            None => midnight - time::DAY_SECS < time::MIN_SECS,
        },
{
    if midnight >= time::MIN_SECS + time::DAY_SECS {
        Some(midnight - time::DAY_SECS)
    } else {
        None
    }
}

/// The two midnights that a keyword stands for, given today's.
pub fn day_bounds(yesterday: bool, today: i64) -> (r: Result<(i64, i64), DateRangeError>)
    requires
        time::MIN_SECS <= today <= time::MAX_SECS,
    ensures
        r == bounds_of(yesterday, today),
        match r {
            Ok(p) => if yesterday {
                p.0 == today - time::DAY_SECS && p.1 == today && p.0 >= time::MIN_SECS
            } else {
                p.0 == today && p.1 == today + time::DAY_SECS && p.1 <= time::MAX_SECS
            },
            Err(e) => if yesterday {
                e == DateRangeError::DateUnderflow && today - time::DAY_SECS < time::MIN_SECS
            } else {
                e == DateRangeError::DateOverflow && today + time::DAY_SECS > time::MAX_SECS
            },
        },
{
    if yesterday {
        match previous_midnight(today) {
            Some(before) => Ok((before, today)),
            None => Err(DateRangeError::DateUnderflow),
        }
    } else {
        match next_midnight(today) {
            Some(after) => Ok((today, after)),
            None => Err(DateRangeError::DateOverflow),
        }
    }
}

/// A zone that gives one wall-clock time what it was found to stand for.
proof fn lemma_zone_of(secs: i64, nanos: u32, found: Option<Timestamp>) -> (zone: spec_fn(
    i64,
    u32,
) -> Option<Timestamp>)
    requires
        found matches Some(t) ==> near(t@, (secs, nanos)),
    ensures
        is_zone(zone),
        zone(secs, nanos) == found,
{
    |s: i64, n: u32|
        if s == secs && n == nanos {
            found
        } else {
            None
        }
}

/// What may come of an end of a range comes of it in some zone.
proof fn lemma_end_zone(s: Seq<char>, r: Result<Timestamp, TimeError>) -> (zone: spec_fn(
    i64,
    u32,
) -> Option<Timestamp>)
    requires
        end_outcome(s, r),
    ensures
        is_zone(zone),
        r == end_in(s, zone),
{
    match wall_clock(s) {
        Some(w) => lemma_zone_of(w.0, w.1, r.ok()),
        None => lemma_zone_of(0, 0, None),
    }
}

/// The range between the midnights that a keyword stands for.
fn range_on(yesterday: bool, today: i64) -> (r: Result<DateRange, DateRangeError>)
    requires
        time::MIN_SECS <= today <= time::MAX_SECS,
    ensures
        day_outcome(yesterday, today, r),
        exists|
            first: spec_fn(i64, u32) -> Option<Timestamp>,
            second: spec_fn(i64, u32) -> Option<Timestamp>,
        |
            is_zone(first) && is_zone(second) && r == #[trigger] day_in(
                bounds_of(yesterday, today),
                first,
                second,
            ),
{
    match day_bounds(yesterday, today) {
        Ok(p) => {
            let start = local_to_utc(p.0, 0);
            let end = local_to_utc(p.1, 0);
            let r = DateRange::of_day(start, end);
            proof {
                let first = lemma_zone_of(p.0, 0u32, start);
                let second = lemma_zone_of(p.1, 0u32, end);
                assert(r == day_in(bounds_of(yesterday, today), first, second));
            }
            r
        },
        Err(e) => {
            let r: Result<DateRange, DateRangeError> = Err(e);
            proof {
                let zone = lemma_zone_of(0, 0, None);
                assert(r == day_in(bounds_of(yesterday, today), zone, zone));
            }
            r
        },
    }
}

impl DateRange {
    /// The range between two ends, each of which may have failed.
    pub fn between(
        start: Result<Timestamp, TimeError>,
        end: Result<Timestamp, TimeError>,
    ) -> (r: Result<DateRange, DateRangeError>)
        ensures
            r == range_between(start, end),
    {
        match start {
            Ok(a) => match end {
                Ok(b) => Ok(DateRange { start: a, end: b }),
                Err(e) => Err(DateRangeError::EndDate(e)),
            },
            Err(e) => Err(DateRangeError::StartDate(e)),
        }
    }

    /// The range of a day between two midnights, where each is one point in time.
    pub fn of_day(start: Option<Timestamp>, end: Option<Timestamp>) -> (r: Result<
        DateRange,
        DateRangeError,
    >)
        ensures
            r == range_of_day(start, end),
    {
        match (start, end) {
            (Some(a), Some(b)) => Ok(DateRange { start: a, end: b }),
            _ => Err(DateRangeError::AmbiguousLocalTime),
        }
    }

    /// Parse user-entered text into a range, given the wall-clock time of today's
    /// midnight. Times are read as local wall-clock and stored in UTC. Accepts:
    ///   - `today`
    ///   - `yesterday`
    ///   - `YYYY/MM/DD HH:MM to YYYY/MM/DD HH:MM`
    pub fn parse_on(typed: &str, today: i64) -> (r: Result<DateRange, DateRangeError>)
        requires
            time::MIN_SECS <= today <= time::MAX_SECS,
        ensures
            parse_outcome(typed@, today, r),
            exists|
                first: spec_fn(i64, u32) -> Option<Timestamp>,
                second: spec_fn(i64, u32) -> Option<Timestamp>,
            |
                is_zone(first) && is_zone(second) && r == #[trigger] range_in(
                    typed@,
                    today,
                    first,
                    second,
                ),
    {
        match range_form(typed) {
            RangeForm::Today => {
                let r = range_on(false, today);
                proof {
                    let (first, second) = choose|
                        first: spec_fn(i64, u32) -> Option<Timestamp>,
                        second: spec_fn(i64, u32) -> Option<Timestamp>,
                    |
                        is_zone(first) && is_zone(second) && r == #[trigger] day_in(
                            bounds_of(false, today),
                            first,
                            second,
                        );
                    assert(r == range_in(typed@, today, first, second));
                }
                r
            },
            RangeForm::Yesterday => {
                let r = range_on(true, today);
                proof {
                    let (first, second) = choose|
                        first: spec_fn(i64, u32) -> Option<Timestamp>,
                        second: spec_fn(i64, u32) -> Option<Timestamp>,
                    |
                        is_zone(first) && is_zone(second) && r == #[trigger] day_in(
                            bounds_of(true, today),
                            first,
                            second,
                        );
                    assert(r == range_in(typed@, today, first, second));
                }
                r
            },
            RangeForm::Between(a, b) => {
                let start = parse_local_datetime(a.as_str());
                let end = parse_local_datetime(b.as_str());
                let r = DateRange::between(start, end);
                proof {
                    let first = lemma_end_zone(a@, start);
                    let second = lemma_end_zone(b@, end);
                    assert(r == range_in(typed@, today, first, second));
                }
                r
            },
            RangeForm::Unknown => {
                let r: Result<DateRange, DateRangeError> = Err(DateRangeError::UnknownForm);
                proof {
                    let zone = lemma_zone_of(0, 0, None);
                    assert(r == range_in(typed@, today, zone, zone));
                }
                r
            },
        }
    }

    /// Parse user-entered text into a range, today being what the machine's clock and
    /// time zone say. Times are read as local wall-clock and stored in UTC. Accepts:
    ///   - `today`
    ///   - `yesterday`
    ///   - `YYYY/MM/DD HH:MM to YYYY/MM/DD HH:MM`
    pub fn parse(typed: &str) -> (r: Result<DateRange, DateRangeError>)
        ensures
            exists|
                today: i64,
                first: spec_fn(i64, u32) -> Option<Timestamp>,
                second: spec_fn(i64, u32) -> Option<Timestamp>,
            |
                time::clock_gave(today) && is_midnight(today) && parse_outcome(typed@, today, r)
                    && is_zone(first) && is_zone(second) && r == #[trigger] range_in(
                    typed@,
                    today,
                    first,
                    second,
                ),
    {
        proof {
            assert forall|today: i64| call_ensures(time::local_midnight, (), today) implies
                time::clock_gave(today) by {
                time::law_the_clock_is_read_as_it_is(today);
            }
        }
        DateRange::parse_on(typed, time::local_midnight())
    }

    /// Whether the mail's `Date` falls in the range. A mail with no date is outside
    /// every range.
    pub fn contains(&self, mail: &Mail) -> (r: bool)
        ensures
            r == in_window(self@, mail@.date),
    {
        match mail.date {
            Some(d) => !d.at.is_before(&self.start) && d.at.is_before(&self.end),
            None => false,
        }
    }

    /// The range rendered in local time, the way it was typed.
    pub fn to_text(&self) -> (r: String)
        ensures
            exists|a: Seq<char>, b: Seq<char>|
                time::is_local_time(self@.0, a) && time::is_local_time(self@.1, b) && r@
                    == #[trigger] range_text(a, b),
    {
        let a = time::format_local(self.start.secs(), self.start.nanos(), time::LOCAL_FORMAT);
        let b = time::format_local(self.end.secs(), self.end.nanos(), time::LOCAL_FORMAT);
        join_ends(a.as_str(), b.as_str())
    }
}

/// A range as text, given its ends as text.
pub open spec fn range_text(start: Seq<char>, end: Seq<char>) -> Seq<char> {
    start + " to "@ + end
}

/// A range as text, given its ends as text.
pub fn join_ends(start: &str, end: &str) -> (r: String)
    ensures
        r@ == range_text(start@, end@),
{
    let mut out = String::new();
    out.push_str(start);
    out.push_str(" to ");
    out.push_str(end);
    assert(out@ =~= range_text(start@, end@));
    out
}

/// Where one range ends, the next begins: of two ranges that abut, no mail lies in
/// both, and a mail lies in one of them exactly when it lies in the range from the
/// start of the first to the end of the second.
pub proof fn law_abutting_ranges_share_no_mail(
    a: ((int, int), (int, int)),
    b: ((int, int), (int, int)),
    date: Option<((int, int), int)>,
)
    requires
        a.1 == b.0,
        !time::earlier(a.1, a.0),
        !time::earlier(b.1, b.0),
    ensures
        !(in_window(a, date) && in_window(b, date)),
        in_window((a.0, b.1), date) <==> in_window(a, date) || in_window(b, date),
{
}

/// On one day, the second midnight of `yesterday` is the first of `today`.
pub proof fn law_yesterday_ends_at_todays_midnight(today: i64)
    ensures
        (bounds_of(true, today), bounds_of(false, today)) matches (Ok(y), Ok(t)) ==> y.1 == t.0
            && t.0 == today,
{
}

/// Read on one day, `yesterday` ends exactly where `today` starts, as long as the zone
/// gives the midnight between them one point in time.
pub proof fn law_yesterday_and_today_abut(
    yesterday: Seq<char>,
    today: Seq<char>,
    midnight: i64,
    before: spec_fn(i64, u32) -> Option<Timestamp>,
    zone: spec_fn(i64, u32) -> Option<Timestamp>,
    after: spec_fn(i64, u32) -> Option<Timestamp>,
)
    requires
        form_of(yesterday) == RangeFormView::Yesterday,
        form_of(today) == RangeFormView::Today,
    ensures
        (
            range_in(yesterday, midnight, before, zone),
            range_in(today, midnight, zone, after),
        ) matches (Ok(y), Ok(t)) ==> y.end == t.start && y@.1 == t@.0,
{
}

/// The keywords are known in any case, with any white space around them.
pub proof fn law_keywords_ignore_case_and_space(a: Seq<char>, word: Seq<char>, b: Seq<char>)
    requires
        forall|i: int| 0 <= i < a.len() ==> text::is_space(#[trigger] a[i]),
        forall|i: int| 0 <= i < b.len() ==> text::is_space(#[trigger] b[i]),
        vstd::utf8::is_ascii_chars(word),
        text::ascii_lowered(word) == "today"@ || text::ascii_lowered(word) == "yesterday"@,
    ensures
        form_of(a + word + b) == if text::ascii_lowered(word) == "today"@ {
            RangeFormView::Today
        } else {
            RangeFormView::Yesterday
        },
{
    reveal_strlit("today");
    reveal_strlit("yesterday");
    let lower = text::ascii_lowered(word);
    assert(lower.len() == word.len());
    assert(lower[0] == text::ascii_lower(word[0]));
    assert(lower[lower.len() - 1] == text::ascii_lower(word[word.len() - 1]));
    text::lemma_already_trimmed(word);
    text::law_trim_ignores_surrounding_space(a, word, b);
}

/// White space around the text of a range makes no difference.
pub proof fn law_ranges_ignore_surrounding_space(
    a: Seq<char>,
    typed: Seq<char>,
    b: Seq<char>,
    today: i64,
    first: spec_fn(i64, u32) -> Option<Timestamp>,
    second: spec_fn(i64, u32) -> Option<Timestamp>,
)
    requires
        forall|i: int| 0 <= i < a.len() ==> text::is_space(#[trigger] a[i]),
        forall|i: int| 0 <= i < b.len() ==> text::is_space(#[trigger] b[i]),
    ensures
        range_in(a + typed + b, today, first, second) == range_in(typed, today, first, second),
{
    text::law_trim_ignores_surrounding_space(a, typed, b);
}

/// Text that is no keyword and holds no ` to ` is no range.
pub proof fn law_other_text_is_no_range(
    typed: Seq<char>,
    today: i64,
    first: spec_fn(i64, u32) -> Option<Timestamp>,
    second: spec_fn(i64, u32) -> Option<Timestamp>,
)
    requires
        vstd::utf8::is_ascii_chars(typed),
        text::ascii_lowered(text::trimmed(typed)) != "today"@,
        text::ascii_lowered(text::trimmed(typed)) != "yesterday"@,
        forall|i: int|
            0 <= i && i + 4 <= typed.len() ==> #[trigger] typed.subrange(i, i + 4) != " to "@,
    ensures
        range_in(typed, today, first, second) == Err::<DateRange, DateRangeError>(
            DateRangeError::UnknownForm,
        ),
{
    let space = |c: char| text::is_space(c);
    let t = text::trimmed(typed);
    let k = text::lemma_front_run(typed, space);
    let m = text::lemma_back_run(typed.skip(k), space);
    assert(t == typed.skip(k).take(m));
    assert(vstd::utf8::is_ascii_chars(t)) by {
        assert forall|j: int| 0 <= j < t.len() implies '\0' <= #[trigger] t[j] <= '\u{7f}' by {
            assert(t[j] == typed[k + j]);
        }
    }
    reveal_strlit(" to ");
    text::lemma_first_match(t, " to "@, 0);
    if let Some(i) = text::find_in(t, " to "@) {
        assert(t.subrange(i, i + 4) =~= typed.subrange(k + i, k + i + 4));
    }
}

/// A keyword names a day: `today` the day whose midnight is given, `yesterday` the day
/// before it. The range starts when the zone's clock stands at that day's midnight and
/// ends when it stands at the next one.
pub proof fn law_keywords_name_their_day(
    a: Seq<char>,
    word: Seq<char>,
    b: Seq<char>,
    today: i64,
    zone: spec_fn(i64, u32) -> Option<Timestamp>,
    offset: spec_fn(int) -> int,
)
    requires
        forall|i: int| 0 <= i < a.len() ==> text::is_space(#[trigger] a[i]),
        forall|i: int| 0 <= i < b.len() ==> text::is_space(#[trigger] b[i]),
        vstd::utf8::is_ascii_chars(word),
        text::ascii_lowered(word) == "today"@ || text::ascii_lowered(word) == "yesterday"@,
        is_zone(zone),
        is_clock(zone, offset),
        is_midnight(today),
    ensures
        range_in(a + word + b, today, zone, zone) matches Ok(range) ==> {
            let day = if text::ascii_lowered(word) == "today"@ {
                today as int
            } else {
                today - 86400
            };
            &&& range@.0.0 + offset(range@.0.0) == day && range@.0.1 == 0
            &&& range@.1.0 + offset(range@.1.0) == day + 86400 && range@.1.1 == 0
        },
{
    law_keywords_ignore_case_and_space(a, word, b);
    reveal_strlit("today");
    reveal_strlit("yesterday");
    assert("today"@.len() != "yesterday"@.len());
}

/// The day of a keyword holds the mails of that day and no others: on a clock that is
/// always set alike, those dated while the clock showed that day.
pub proof fn law_keywords_hold_the_mails_of_their_day(
    a: Seq<char>,
    word: Seq<char>,
    b: Seq<char>,
    today: i64,
    zone: spec_fn(i64, u32) -> Option<Timestamp>,
    ahead: int,
    date: ((int, int), int),
)
    requires
        forall|i: int| 0 <= i < a.len() ==> text::is_space(#[trigger] a[i]),
        forall|i: int| 0 <= i < b.len() ==> text::is_space(#[trigger] b[i]),
        vstd::utf8::is_ascii_chars(word),
        text::ascii_lowered(word) == "today"@ || text::ascii_lowered(word) == "yesterday"@,
        is_zone(zone),
        is_clock(zone, |secs: int| ahead),
        is_midnight(today),
        0 <= date.0.1,
    ensures
        range_in(a + word + b, today, zone, zone) matches Ok(range) ==> {
            let day = if text::ascii_lowered(word) == "today"@ {
                today as int
            } else {
                today - 86400
            };
            in_window(range@, Some(date)) <==> day <= date.0.0 + ahead < day + 86400
        },
{
    law_keywords_name_their_day(a, word, b, today, zone, |secs: int| ahead);
}

/// A range between two times runs from the point in time that the zone gives the first to
/// the one that it gives the second. Where the zone gives one none, or one is not of the
/// form of a time, the error says which, and the first goes before the second.
pub proof fn law_range_runs_between_its_times(
    typed: Seq<char>,
    start: Seq<char>,
    end: Seq<char>,
    today: i64,
    zone: spec_fn(i64, u32) -> Option<Timestamp>,
)
    requires
        time::is_local_text(start),
        time::is_local_text(end),
        typed == start + " to "@ + end,
    ensures
        ({
            let from = time::wall_clock_in(start, "%Y/%m/%d %H:%M"@);
            let to = time::wall_clock_in(end, "%Y/%m/%d %H:%M"@);
            let r = range_in(typed, today, zone, zone);
            &&& match (from, to) {
                (Some(f), Some(t)) => time::is_minute(f) && time::is_minute(t) ==> r == match (
                    zone(f.0, f.1),
                    zone(t.0, t.1),
                ) {
                    (Some(x), Some(y)) => Ok::<DateRange, DateRangeError>(
                        DateRange { start: x, end: y },
                    ),
                    (None, _) => Err(DateRangeError::StartDate(TimeError::AmbiguousLocalTime)),
                    (Some(_), None) => Err(DateRangeError::EndDate(TimeError::AmbiguousLocalTime)),
                },
                (None, _) => r == Err::<DateRange, DateRangeError>(
                    DateRangeError::StartDate(TimeError::Malformed),
                ),
                (Some(f), None) => time::is_minute(f) && zone(f.0, f.1) is Some ==> r == Err::<
                    DateRange,
                    DateRangeError,
                >(DateRangeError::EndDate(TimeError::Malformed)),
            }
        }),
{
    law_shown_range_can_be_typed(start, end);
}

/// The window is half-open: a mail lies in it exactly when its date is not before the
/// start and is before the end, whatever offset it was written with. A mail without a
/// date lies in none.
pub proof fn law_window_is_half_open(
    range: ((int, int), (int, int)),
    secs: int,
    nanos: int,
    offset: int,
)
    requires
        0 <= nanos < 2_000_000_000,
        0 <= range.0.1 < 2_000_000_000,
        0 <= range.1.1 < 2_000_000_000,
    ensures
        in_window(range, Some(((secs, nanos), offset))) <==> range.0.0 * 2_000_000_000 + range.0.1
            <= secs * 2_000_000_000 + nanos < range.1.0 * 2_000_000_000 + range.1.1,
        !in_window(range, None),
{
}

/// A range that ends at or before its start holds no mail.
pub proof fn law_empty_range_holds_no_mail(
    range: ((int, int), (int, int)),
    date: Option<((int, int), int)>,
)
    requires
        !time::earlier(range.0, range.1),
    ensures
        !in_window(range, date),
{
}

/// What may stand in a time in local form.
proof fn lemma_local_text(s: Seq<char>)
    requires
        time::is_local_text(s),
    ensures
        s.len() >= 16,
        !text::is_space(s[0]),
        !text::is_space(s.last()),
        s[0] != 't' && s[0] != 'T' && s[0] != 'y' && s[0] != 'Y',
        number::is_digit(s.last()),
        forall|j: int| 0 <= j < s.len() ==> #[trigger] s[j] != 't',
        forall|j: int| 0 <= j < s.len() ==> #[trigger] s[j] <= ':',
{
    let k = s.len() - 12;
    assert forall|j: int| 0 <= j < s.len() implies #[trigger] s[j] <= ':' && s[j] != 't' by {
        if 1 <= j < k {
            assert(number::is_digit(s.subrange(1, k)[j - 1]));
        } else if k + 1 <= j < k + 3 {
            assert(number::is_digit(s.subrange(k + 1, k + 3)[j - k - 1]));
        } else if k + 4 <= j < k + 6 {
            assert(number::is_digit(s.subrange(k + 4, k + 6)[j - k - 4]));
        } else if k + 7 <= j < k + 9 {
            assert(number::is_digit(s.subrange(k + 7, k + 9)[j - k - 7]));
        } else if k + 10 <= j < k + 12 {
            assert(number::is_digit(s.subrange(k + 10, k + 12)[j - k - 10]));
        }
    }
    assert(number::is_digit(s.subrange(k + 10, k + 12)[1]));
}

/// A range that is shown can be typed: its text is read as a range between the two
/// times that it shows.
pub proof fn law_shown_range_can_be_typed(a: Seq<char>, b: Seq<char>)
    requires
        time::is_local_text(a),
        time::is_local_text(b),
    ensures
        form_of(range_text(a, b)) == RangeFormView::Between(a, b),
{
    let s = range_text(a, b);
    let to = " to "@;
    reveal_strlit(" to ");
    reveal_strlit("today");
    reveal_strlit("yesterday");
    lemma_local_text(a);
    lemma_local_text(b);
    assert(s.last() == b.last());
    text::lemma_already_trimmed(s);
    text::lemma_already_trimmed(a);
    text::lemma_already_trimmed(b);
    assert(vstd::utf8::is_ascii_chars(s)) by {
        assert forall|j: int| 0 <= j < s.len() implies '\0' <= #[trigger] s[j] <= '\u{7f}' by {
            text::lemma_least_char(s[j]);
            if j < a.len() {
                assert(s[j] == a[j]);
                assert(a[j] <= ':');
            } else if j >= a.len() + 4 {
                assert(s[j] == b[j - a.len() - 4]);
                assert(b[j - a.len() - 4] <= ':');
            } else {
                let k = j - a.len();
                assert(s[j] == to[k]);
                assert(k == 0 || k == 1 || k == 2 || k == 3);
            }
        }
    }
    assert(text::ascii_lowered(s)[0] == a[0]);
    let i = a.len() as int;
    assert(s.subrange(i, i + 4) =~= to);
    assert forall|j: int| 0 <= j < i implies !#[trigger] text::occurs_at(s, to, j) by {
        if text::occurs_at(s, to, j) {
            assert(s.subrange(j, j + 4)[1] == 't');
            assert(s.subrange(j, j + 4)[1] == s[j + 1]);
            if j + 1 < i {
                assert(s[j + 1] == a[j + 1]);
            } else {
                assert(s[j + 1] == to[0]);
            }
        }
    }
    text::lemma_match_is_first(s, to, 0, i);
    assert(s.take(i) =~= a);
    assert(s.skip(i + 4) =~= b);
}

/// A range is parted at its first ` to `: what stands before is its start and what follows
/// is its end, white space around them apart, whatever the end holds.
pub proof fn law_ranges_are_parted_at_the_first_to(
    start: Seq<char>,
    pad: Seq<char>,
    rest: Seq<char>,
)
    requires
        time::is_local_text(start),
        forall|i: int| 0 <= i < pad.len() ==> #[trigger] pad[i] == ' ',
        vstd::utf8::is_ascii_chars(rest),
        text::trimmed(rest).len() > 0,
    ensures
        form_of(start + pad + " to "@ + rest) == RangeFormView::Between(
            start,
            text::trimmed(rest),
        ),
{
    let to = " to "@;
    reveal_strlit(" to ");
    reveal_strlit("today");
    reveal_strlit("yesterday");
    lemma_local_text(start);
    let front = start + pad;
    let typed = front + to + rest;
    let n = front.len() as int;
    let space = |c: char| text::is_space(c);
    let m = text::lemma_back_run(rest, space);
    let k = text::law_trim_takes_all_surrounding_space(rest);
    if m == 0 {
        assert(space(rest[k]));
    }
    assert forall|j: int| 0 <= j < n implies #[trigger] front[j] <= ':' && front[j] != 't' by {
        if j < start.len() {
            assert(front[j] == start[j]);
        } else {
            assert(front[j] == pad[j - start.len()]);
        }
    }
    assert(typed[0] == start[0]);
    text::lemma_strip_front(typed, space, 0);
    assert(typed.skip(0) =~= typed);
    assert forall|j: int| n + 4 + m <= j < typed.len() implies space(#[trigger] typed[j]) by {
        assert(typed[j] == rest[j - n - 4]);
        assert(space(rest[j - n - 4]));
    }
    assert(typed[n + 4 + m - 1] == rest[m - 1]);
    text::lemma_strip_back(typed, space, n + 4 + m);
    let t = text::trimmed(typed);
    let end = rest.take(m);
    assert(t =~= front + to + end);
    assert(vstd::utf8::is_ascii_chars(t)) by {
        assert forall|j: int| 0 <= j < t.len() implies '\0' <= #[trigger] t[j] <= '\u{7f}' by {
            text::lemma_least_char(t[j]);
            if j < n {
                assert(t[j] == front[j]);
            } else if j >= n + 4 {
                assert(t[j] == rest[j - n - 4]);
            } else {
                let i = j - n;
                assert(t[j] == to[i]);
                assert(i == 0 || i == 1 || i == 2 || i == 3);
            }
        }
    }
    assert(text::ascii_lowered(t)[0] == start[0]);
    assert(t.subrange(n, n + 4) =~= to);
    assert forall|j: int| 0 <= j < n implies !#[trigger] text::occurs_at(t, to, j) by {
        if text::occurs_at(t, to, j) {
            assert(t.subrange(j, j + 4)[1] == 't');
            assert(t.subrange(j, j + 4)[1] == t[j + 1]);
            if j + 1 < n {
                assert(t[j + 1] == front[j + 1]);
            } else {
                assert(t[j + 1] == to[0]);
            }
        }
    }
    text::lemma_match_is_first(t, to, 0, n);
    assert(t.take(n) =~= front);
    assert(t.skip(n + 4) =~= end);
    let none = Seq::<char>::empty();
    assert(front =~= none + start + pad);
    text::law_trim_ignores_surrounding_space(none, start, pad);
    text::lemma_already_trimmed(start);
    text::lemma_trim_either_way(rest);
    text::lemma_trim_either_way(end);
    assert(text::trimmed_end(end) =~= end) by {
        text::lemma_strip_back(end, space, m);
        assert(end.take(m) =~= end);
    }
}

/// A range that is shown and typed again is the same range: where the zone gives the two
/// shown times the points in time `start` and `end`, the text is read as the range from
/// `start` to `end`.
pub proof fn law_shown_range_reads_back(
    a: Seq<char>,
    b: Seq<char>,
    today: i64,
    first: spec_fn(i64, u32) -> Option<Timestamp>,
    second: spec_fn(i64, u32) -> Option<Timestamp>,
    start: Timestamp,
    end: Timestamp,
)
    requires
        time::is_local_text(a),
        time::is_local_text(b),
        end_in(a, first) == Ok::<Timestamp, TimeError>(start),
        end_in(b, second) == Ok::<Timestamp, TimeError>(end),
    ensures
        range_in(range_text(a, b), today, first, second) == range_between(Ok(start), Ok(end)),
        range_in(range_text(a, b), today, first, second) == Ok::<DateRange, DateRangeError>(
            DateRange { start, end },
        ),
{
    law_shown_range_can_be_typed(a, b);
}

/// Text that shows, on the zone's clock, the point in time that the zone gave a whole
/// minute is read as that minute.
proof fn lemma_shown_minute(
    zone: spec_fn(i64, u32) -> Option<Timestamp>,
    offset: spec_fn(int) -> int,
    w: (i64, u32),
    t: Timestamp,
    s: Seq<char>,
)
    requires
        is_clock(zone, offset),
        time::is_minute(w),
        zone(w.0, w.1) == Some(t),
        time::shown_at(t@, offset(t@.0), s),
    ensures
        wall_clock(s) == Some(w),
        end_in(s, zone) == Ok::<Timestamp, TimeError>(t),
{
}

/// A range that was typed, shown and typed again is the same range, in a zone that does
/// not change meanwhile: whatever day it is by then, the text that shows the two ends on
/// the zone's clock is read as the range that it was made of.
pub proof fn law_typed_range_comes_back(
    typed: Seq<char>,
    today: i64,
    later: i64,
    zone: spec_fn(i64, u32) -> Option<Timestamp>,
    offset: spec_fn(int) -> int,
    range: DateRange,
    a: Seq<char>,
    b: Seq<char>,
)
    requires
        is_midnight(today),
        is_clock(zone, offset),
        range_in(typed, today, zone, zone) == Ok::<DateRange, DateRangeError>(range),
        time::is_local_text(a),
        time::is_local_text(b),
        time::shown_at(range@.0, offset(range@.0.0), a),
        time::shown_at(range@.1, offset(range@.1.0), b),
    ensures
        range_in(range_text(a, b), later, zone, zone) == Ok::<DateRange, DateRangeError>(range),
{
    law_shown_range_can_be_typed(a, b);
    match form_of(typed) {
        RangeFormView::Between(x, y) => {
            lemma_shown_minute(zone, offset, wall_clock(x)->0, range.start, a);
            lemma_shown_minute(zone, offset, wall_clock(y)->0, range.end, b);
        },
        form => {
            let p = bounds_of(form == RangeFormView::Yesterday, today)->Ok_0;
            lemma_shown_minute(zone, offset, (p.0, 0u32), range.start, a);
            lemma_shown_minute(zone, offset, (p.1, 0u32), range.end, b);
        },
    }
}

} // verus!
