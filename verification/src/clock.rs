//! Points in time, and the calendar they fall in.
use vstd::prelude::*;

verus! {

/// Nanoseconds in a second.
pub const SECOND: i128 = 1_000_000_000;

/// Nanoseconds in a day.
pub const DAY: i128 = 86_400_000_000_000;

/// The first nanosecond of year -9999, counted from 1970-01-01.
pub const FIRST_NANO: i128 = -377_705_116_800_000_000_000;

/// The last nanosecond of year 9999, counted from 1970-01-01.
pub const LAST_NANO: i128 = 253_402_300_799_999_999_999;

/// The largest distance from UTC, in seconds: 25:59:59.
pub const MAX_OFFSET: i32 = 93_599;

/// Whether a count of nanoseconds from 1970-01-01 falls in the years -9999 to 9999.
pub open spec fn in_calendar(nanos: int) -> bool {
    FIRST_NANO <= nanos <= LAST_NANO
}

/// Whether a number of seconds is a distance from UTC.
pub open spec fn is_offset(seconds: int) -> bool {
    -MAX_OFFSET <= seconds <= MAX_OFFSET
}

/// A point in time, and how far the clock that it was read from was ahead of UTC.
#[derive(Clone, Copy, Debug)]
pub struct Timestamp {
    /// Nanoseconds since 1970-01-01 00:00:00 UTC.
    pub nanos: i128,
    /// Seconds that local time was ahead of UTC.
    pub offset: i32,
}

impl Timestamp {
    /// Nanoseconds from 1970-01-01 00:00:00 to this time, both read off the local clock.
    pub open spec fn local(self) -> int {
        self.nanos + self.offset * SECOND
    }

    /// The offset is one, and the local date is in the calendar.
    pub open spec fn wf(self) -> bool {
        is_offset(self.offset as int) && in_calendar(self.local())
    }

    /// Whether the offset is one, and the local date is in the calendar.
    pub fn is_dated(&self) -> (b: bool)
        ensures
            b == self.wf(),
    {
        if self.offset < -MAX_OFFSET || self.offset > MAX_OFFSET {
            return false;
        }
        if self.nanos < 2 * FIRST_NANO || self.nanos > 2 * LAST_NANO {
            return false;
        }
        let local: i128 = self.nanos + self.offset as i128 * SECOND;
        FIRST_NANO <= local && local <= LAST_NANO
    }

    /// Nanoseconds from 1970-01-01 00:00:00 to this time, both read off the local clock.
    pub fn local_nanos(&self) -> (n: i128)
        requires
            self.wf(),
        ensures
            n == self.local(),
    {
        self.nanos + self.offset as i128 * SECOND
    }

    /// Whole seconds since 1970-01-01 00:00:00 UTC, rounded down.
    pub open spec fn seconds(self) -> int {
        self.nanos as int / SECOND as int
    }

    /// Whole seconds since 1970-01-01 00:00:00 UTC, rounded down.
    pub fn unix_timestamp(&self) -> (s: i64)
        requires
            self.wf(),
        ensures
            s == self.seconds(),
    {
        let n: i128 = self.nanos;
        if n >= 0 {
            (n / SECOND) as i64
        } else {
            let up: i128 = -(n + 1);
            proof {
                let q = up as int / SECOND as int;
                assert(n as int / SECOND as int == -1 - q) by (nonlinear_arith)
                    requires
                        up == -(n + 1),
                        q == up as int / 1_000_000_000,
                        SECOND == 1_000_000_000,
                ;
            }
            (-1 - up / SECOND) as i64
        }
    }
}

impl PartialEq for Timestamp {
    fn eq(&self, other: &Self) -> (b: bool) {
        self.nanos == other.nanos
    }
}

impl vstd::std_specs::cmp::PartialEqSpecImpl for Timestamp {
    open spec fn obeys_eq_spec() -> bool {
        true
    }

    /// Two timestamps are equal where they are the same point in time.
    open spec fn eq_spec(&self, other: &Self) -> bool {
        self.nanos == other.nanos
    }
}

impl Eq for Timestamp {

}

/// A year, a month from 1 to 12, and a day of the week from 0 for Sunday.
#[derive(Clone, Copy, Debug, PartialEq, Eq, Structural)]
pub struct CalendarDate {
    pub year: i32,
    pub month: u8,
    pub weekday: u8,
}

/// Leap days from the start of year 1 to the end of year `y`.
pub open spec fn leap_days(y: int) -> int {
    y / 4 - y / 100 + y / 400
}

/// Whether year `y` has a 29th of February.
pub open spec fn is_leap_year(y: int) -> bool {
    y % 4 == 0 && (y % 100 != 0 || y % 400 == 0)
}

/// Days from 1970-01-01 to the first day of year `y`.
pub open spec fn days_to_year(y: int) -> int {
    365 * (y - 1970) + leap_days(y - 1) - leap_days(1969)
}

/// Days from the first day of a year to the first day of month `m`, where 13 stands for the
/// first month of the next year.
pub open spec fn days_to_month(m: int, leap: bool) -> int {
    seq![0int, 31, 59, 90, 120, 151, 181, 212, 243, 273, 304, 334, 365][m - 1] + if leap && m > 2 {
        1int
    } else {
        0
    }
}

/// Whether the day `day` days after 1970-01-01 is in the month and on the day of the week that
/// `date` names, by the Gregorian calendar.
pub open spec fn is_date_of(date: CalendarDate, day: int) -> bool {
    let start = days_to_year(date.year as int);
    let leap = is_leap_year(date.year as int);
    &&& 1 <= date.month <= 12
    &&& start + days_to_month(date.month as int, leap) <= day
    &&& day < start + days_to_month(date.month + 1, leap)
    &&& date.weekday == (day + 4) % 7
}

/// The calendar date of a local time, by `time::OffsetDateTime`: its `year`, `month` and
/// `weekday` in the proleptic Gregorian calendar.
#[verifier::external_body]
pub(crate) fn calendar_date(local: i128) -> (date: CalendarDate)
    requires
        in_calendar(local as int),
    ensures
        is_date_of(date, local as int / DAY as int),
{
    let t = time::OffsetDateTime::from_unix_timestamp_nanos(local).unwrap();
    CalendarDate {
        year: t.year(),
        month: t.month() as u8,
        weekday: t.weekday().number_days_from_sunday(),
    }
}

/// `time::OffsetDateTime::from_unix_timestamp_nanos` takes the counts of nanoseconds that fall
/// in the years -9999 to 9999 and refuses the others; the time that it makes is that many
/// nanoseconds from 1970-01-01.
#[verifier::external_body]
pub(crate) fn instant_of_nanos(nanos: i128) -> (out: Option<i128>)
    ensures
        out == (if in_calendar(nanos as int) {
            Some(nanos)
        } else {
            None
        }),
{
    time::OffsetDateTime::from_unix_timestamp_nanos(nanos).ok().map(|t| t.unix_timestamp_nanos())
}

/// What `time::OffsetDateTime::parse` reads from a text by ISO 8601: nanoseconds since
/// 1970-01-01 00:00:00 UTC, and seconds ahead of UTC.
pub uninterp spec fn iso8601(text: Seq<char>) -> Option<(i128, i32)>;

/// `time::OffsetDateTime::parse` with the description `Iso8601::DEFAULT`. Which texts it takes
/// is left to that description; what it gives has a date in the calendar and an offset.
#[verifier::external_body]
pub(crate) fn parse_iso8601(text: &str) -> (out: Option<(i128, i32)>)
    ensures
        out == iso8601(text@),
        out matches Some((nanos, offset)) ==> (Timestamp { nanos, offset }).wf(),
{
    time::OffsetDateTime::parse(text, &time::format_description::well_known::Iso8601::DEFAULT)
        .ok()
        .map(|t| (t.unix_timestamp_nanos(), t.offset().whole_seconds()))
}

/// `time::OffsetDateTime::now_utc`: some point in time in the calendar. Which one is up to the
/// machine's clock.
#[verifier::external_body]
pub(crate) fn now_utc() -> (nanos: i128)
    ensures
        in_calendar(nanos as int),
{
    time::OffsetDateTime::now_utc().unix_timestamp_nanos()
}

/// Whether `nanos` is what the machine's clock was read as: a call of `now_utc` gave it.
pub closed spec fn clock_shows(nanos: i128) -> bool {
    call_ensures(now_utc, (), nanos)
}

/// Reads the machine's clock.
pub fn read_clock() -> (nanos: i128)
    ensures
        clock_shows(nanos),
        in_calendar(nanos as int),
{
    now_utc()
}

/// Nothing is what the clock was read as but what a call of `now_utc` gave, and that is in the
/// calendar.
pub(crate) proof fn law_clock_was_read(nanos: i128)
    requires
        clock_shows(nanos),
    ensures
        call_ensures(now_utc, (), nanos),
        in_calendar(nanos as int),
{
}

/// The timestamp that a text gives by ISO 8601.
pub open spec fn timestamp_value(text: Seq<char>) -> Option<Timestamp> {
    match iso8601(text) {
        Some((nanos, offset)) => Some(Timestamp { nanos, offset }),
        None => None,
    }
}

/// Reads a timestamp such as `2024-05-01T12:30:00+0200`.
pub fn parse_timestamp(s: &str) -> (out: Option<Timestamp>)
    ensures
        out == timestamp_value(s@),
        out matches Some(t) ==> t.wf(),
{
    match parse_iso8601(s) {
        Some((nanos, offset)) => Some(Timestamp { nanos, offset }),
        None => None,
    }
}

/// The calendar date on which a timestamp fell, by the clock that it was read from.
pub fn date_of(t: &Timestamp) -> (date: CalendarDate)
    requires
        t.wf(),
    ensures
        is_date_of(date, t.local() / DAY as int),
{
    calendar_date(t.local_nanos())
}

/// A year is as long as its twelve months.
proof fn lemma_year_length(y: int)
    ensures
        days_to_year(y + 1) == days_to_year(y) + days_to_month(13, is_leap_year(y)),
{
    assert(leap_days(y) - leap_days(y - 1) == if is_leap_year(y) {
        1int
    } else {
        0
    });
}

proof fn lemma_years_ascend(a: int, b: int)
    requires
        a < b,
    ensures
        days_to_year(a + 1) <= days_to_year(b),
    decreases b - a,
{
    if a + 1 < b {
        lemma_years_ascend(a, b - 1);
        lemma_year_length(b - 1);
    }
}

/// A day that is not before year `y`, nor after the calendar, is in some year.
proof fn lemma_year_of(day: int, y: int) -> (year: int)
    requires
        y <= 9999,
        days_to_year(y) <= day < days_to_year(10000),
    ensures
        y <= year <= 9999,
        days_to_year(year) <= day < days_to_year(year + 1),
    decreases 10000 - y,
{
    if day < days_to_year(y + 1) {
        y
    } else {
        lemma_year_of(day, y + 1)
    }
}

/// A day of a year is in some month.
proof fn lemma_month_of(day: int, m: int, leap: bool) -> (month: int)
    requires
        1 <= m <= 12,
        days_to_month(m, leap) <= day < days_to_month(13, leap),
    ensures
        m <= month <= 12,
        days_to_month(month, leap) <= day < days_to_month(month + 1, leap),
    decreases 13 - m,
{
    if day < days_to_month(m + 1, leap) {
        m
    } else {
        lemma_month_of(day, m + 1, leap)
    }
}

/// Every day of the years -9999 to 9999 has a date.
pub proof fn law_day_dated(day: int) -> (date: CalendarDate)
    requires
        days_to_year(-9999) <= day < days_to_year(10000),
    ensures
        is_date_of(date, day),
        -9999 <= date.year <= 9999,
        0 <= date.weekday <= 6,
{
    let year = lemma_year_of(day, -9999);
    let leap = is_leap_year(year);
    lemma_year_length(year);
    let month = lemma_month_of(day - days_to_year(year), 1, leap);
    CalendarDate { year: year as i32, month: month as u8, weekday: ((day + 4) % 7) as u8 }
}

/// Every day is in one month of one year: two dates of the same day are the same.
pub proof fn law_date_unique(a: CalendarDate, b: CalendarDate, day: int)
    requires
        is_date_of(a, day),
        is_date_of(b, day),
    ensures
        a == b,
{
    let ya = a.year as int;
    let yb = b.year as int;
    lemma_year_length(ya);
    lemma_year_length(yb);
    if ya < yb {
        lemma_years_ascend(ya, yb);
    } else if yb < ya {
        lemma_years_ascend(yb, ya);
    }
}

} // verus!
