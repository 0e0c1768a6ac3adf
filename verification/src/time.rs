//! Days, instants and the calendar that names them.
use vstd::prelude::*;

verus! {

/// The day number of January 1, 1970. Day 1 is January 1 of the year 1.
pub const EPOCH_DAY: i32 = 719_163;

/// The first day that a date can name: January 1 of the year -262143.
pub const MIN_DAY: i32 = -95_746_129;

/// The last day that a date can name: December 31 of the year 262142.
pub const MAX_DAY: i32 = 95_745_399;

/// The seconds of a day.
pub const SECONDS_PER_DAY: i64 = 86_400;

/// The first second of [`MIN_DAY`], counted from the start of 1970.
pub const MIN_SECONDS: i64 = -8_334_601_228_800;

/// The last second of [`MAX_DAY`], counted from the start of 1970.
pub const MAX_SECONDS: i64 = 8_210_266_876_799;

/// The nanoseconds of a second.
pub const NANOS_PER_SECOND: i64 = 1_000_000_000;

/// Whether a date can name the day with this number.
pub open spec fn is_day(day: int) -> bool {
    MIN_DAY <= day <= MAX_DAY
}

/// Whether a date and time can name this second, counted from the start of 1970.
pub open spec fn is_second(seconds: int) -> bool {
    MIN_SECONDS <= seconds <= MAX_SECONDS
}

/// A point in time.
#[derive(Clone, Copy, Debug, PartialEq, Eq, Structural)]
pub struct Instant {
    /// The seconds since the start of 1970, leap seconds not counted.
    pub seconds: i64,
    /// The nanoseconds since that second began; a leap second goes on past a full second.
    pub nanos: u32,
}

impl Instant {
    /// Whether this is a point in time that can be named. Only the last second of a minute can be
    /// followed by a leap second.
    pub open spec fn well_formed(self) -> bool {
        &&& is_second(self.seconds as int)
        &&& self.nanos < 2 * NANOS_PER_SECOND
        &&& self.nanos >= NANOS_PER_SECOND ==> self.seconds as int % 60 == 59
    }
}

/// When an event begins or ends: on a day, or at a point in time.
#[derive(Clone, Copy, Debug, PartialEq, Eq, Structural)]
pub enum EventDate {
    /// A whole day, by its number.
    Date(i32),
    /// A point in time.
    DateTimeUtc(Instant),
}

impl EventDate {
    /// Whether the day or the point in time can be named.
    pub open spec fn well_formed(self) -> bool {
        match self {
            EventDate::Date(day) => is_day(day as int),
            EventDate::DateTimeUtc(instant) => instant.well_formed(),
        }
    }
}

/// Why a time cannot be worked out.
#[derive(Clone, Copy, Debug, PartialEq, Eq, Structural)]
pub enum TimeError {
    /// A local time that its time zone skips or has twice.
    NoUniqueInstant,
    /// A date or time outside the range that can be named, or a span of days that runs backwards.
    OutOfRange,
}

/// The number of the day that a second falls on.
pub open spec fn day_of_second(seconds: int) -> int {
    EPOCH_DAY + seconds / (SECONDS_PER_DAY as int)
}

/// The first second of a day.
pub open spec fn first_second(day: int) -> int {
    (day - EPOCH_DAY) * SECONDS_PER_DAY
}

/// Whether a year has a February 29.
pub open spec fn is_leap_year(year: int) -> bool {
    year % 4 == 0 && (year % 100 != 0 || year % 400 == 0)
}

/// The days of a year.
pub open spec fn year_length(year: int) -> int {
    if is_leap_year(year) {
        366
    } else {
        365
    }
}

/// The days of a month.
pub open spec fn month_length(year: int, month: int) -> int {
    if month == 2 {
        if is_leap_year(year) {
            29
        } else {
            28
        }
    } else if month == 4 || month == 6 || month == 9 || month == 11 {
        30
    } else {
        31
    }
}

/// The days of a year before a month begins.
pub open spec fn days_before_month(year: int, month: int) -> int
    decreases month,
{
    if month <= 1 {
        0
    } else {
        days_before_month(year, month - 1) + month_length(year, month - 1)
    }
}

/// The number of the day before a year begins.
pub open spec fn day_before_year(year: int) -> int {
    let past = year - 1;
    365 * past + past / 4 - past / 100 + past / 400
}

/// Whether the Gregorian calendar has this date.
pub open spec fn is_date(year: int, month: int, day: int) -> bool {
    1 <= month <= 12 && 1 <= day <= month_length(year, month)
}

/// The number of the day that a date of the Gregorian calendar names.
pub open spec fn day_number(year: int, month: int, day: int) -> int {
    day_before_year(year) + days_before_month(year, month) + day
}

/// A date of the Gregorian calendar.
pub struct Civil {
    /// The year; the year 0 is the one before the year 1.
    pub year: int,
    /// The month, from 1 on.
    pub month: int,
    /// The day of the month, from 1 on.
    pub day: int,
}

/// The date of the Gregorian calendar that names a day.
pub open spec fn civil(day: int) -> Civil {
    choose|c: Civil|
        is_date(c.year, c.month, c.day) && #[trigger] day_number(c.year, c.month, c.day) == day
}

/// The number of the day that a second falls on.
pub fn day_from_seconds(seconds: i64) -> (r: i32)
    requires
        is_second(seconds as int),
    ensures
        r == day_of_second(seconds as int),
        is_day(r as int),
{
    let shifted: u64 = (seconds - MIN_SECONDS) as u64;
    let days: u64 = shifted / 86_400;
    assert(days == shifted as int / 86_400);
    assert(seconds as int == (shifted as int) + MIN_SECONDS);
    assert(MIN_SECONDS == (MIN_DAY - EPOCH_DAY) * 86_400);
    assert(seconds as int / 86_400 == days + (MIN_DAY - EPOCH_DAY));
    (days as i64 + MIN_DAY as i64) as i32
}

/// The first second of a day.
pub fn seconds_from_day(day: i32) -> (r: i64)
    requires
        is_day(day as int),
    ensures
        r == first_second(day as int),
        is_second(r as int),
{
    (day as i64 - EPOCH_DAY as i64) * SECONDS_PER_DAY
}

/// A day begins on its first second, and its first second falls on it.
pub proof fn law_first_second_falls_on_its_day(day: int)
    ensures
        day_of_second(first_second(day)) == day,
{
}

proof fn lemma_year_starts(year: int)
    ensures
        day_before_year(year + 1) == day_before_year(year) + year_length(year),
{
    let past = year - 1;
    assert(year / 4 == past / 4 + (if year % 4 == 0 { 1int } else { 0 }));
    assert(year / 100 == past / 100 + (if year % 100 == 0 { 1int } else { 0 }));
    assert(year / 400 == past / 400 + (if year % 400 == 0 { 1int } else { 0 }));
    assert(year % 400 == 0 ==> year % 100 == 0);
    assert(year % 100 == 0 ==> year % 4 == 0);
}

proof fn lemma_years_are_ordered(earlier: int, later: int)
    requires
        earlier <= later,
    ensures
        day_before_year(earlier) <= day_before_year(later),
    decreases later - earlier,
{
    if earlier < later {
        lemma_years_are_ordered(earlier, later - 1);
        lemma_year_starts(later - 1);
    }
}

proof fn lemma_months_fill_the_year(year: int)
    ensures
        days_before_month(year, 13) == year_length(year),
{
    reveal_with_fuel(days_before_month, 14);
}

proof fn lemma_months_are_ordered(year: int, earlier: int, later: int)
    requires
        1 <= earlier <= later,
    ensures
        days_before_month(year, earlier) <= days_before_month(year, later),
    decreases later - earlier,
{
    if earlier < later {
        lemma_months_are_ordered(year, earlier, later - 1);
    }
}

proof fn lemma_date_within_year(year: int, month: int, day: int)
    requires
        is_date(year, month, day),
    ensures
        day_before_year(year) < day_number(year, month, day) <= day_before_year(year + 1),
{
    lemma_year_starts(year);
    lemma_months_fill_the_year(year);
    lemma_months_are_ordered(year, 1, month);
    lemma_months_are_ordered(year, month + 1, 13);
}

/// Two dates that name the same day are the same date.
pub proof fn law_day_number_is_injective(a: Civil, b: Civil)
    requires
        is_date(a.year, a.month, a.day),
        is_date(b.year, b.month, b.day),
        day_number(a.year, a.month, a.day) == day_number(b.year, b.month, b.day),
    ensures
        a == b,
{
    lemma_date_within_year(a.year, a.month, a.day);
    lemma_date_within_year(b.year, b.month, b.day);
    if a.year < b.year {
        lemma_years_are_ordered(a.year + 1, b.year);
    } else if b.year < a.year {
        lemma_years_are_ordered(b.year + 1, a.year);
    }
    if a.month < b.month {
        lemma_months_are_ordered(a.year, a.month + 1, b.month);
    } else if b.month < a.month {
        lemma_months_are_ordered(a.year, b.month + 1, a.month);
    }
}

/// The date that names the day of a date is that date.
pub proof fn law_civil_undoes_day_number(date: Civil)
    requires
        is_date(date.year, date.month, date.day),
    ensures
        civil(day_number(date.year, date.month, date.day)) == date,
{
    let day = day_number(date.year, date.month, date.day);
    let found = civil(day);
    assert(is_date(found.year, found.month, found.day) && day_number(
        found.year,
        found.month,
        found.day,
    ) == day);
    law_day_number_is_injective(found, date);
}

proof fn lemma_next_day_has_a_date(date: Civil)
    requires
        is_date(date.year, date.month, date.day),
    ensures
        exists|next: Civil|
            is_date(next.year, next.month, next.day) && #[trigger] day_number(
                next.year,
                next.month,
                next.day,
            ) == day_number(date.year, date.month, date.day) + 1,
{
    let day = day_number(date.year, date.month, date.day);
    if date.day < month_length(date.year, date.month) {
        assert(day_number(date.year, date.month, date.day + 1) == day + 1);
        let next = Civil { year: date.year, month: date.month, day: date.day + 1 };
        assert(is_date(next.year, next.month, next.day));
    } else if date.month < 12 {
        assert(day_number(date.year, date.month + 1, 1) == day + 1);
        let next = Civil { year: date.year, month: date.month + 1, day: 1 };
        assert(is_date(next.year, next.month, next.day));
    } else {
        lemma_year_starts(date.year);
        lemma_months_fill_the_year(date.year);
        assert(day_number(date.year + 1, 1, 1) == day + 1);
        let next = Civil { year: date.year + 1, month: 1, day: 1 };
        assert(is_date(next.year, next.month, next.day));
    }
}

proof fn lemma_day_before_has_a_date(date: Civil)
    requires
        is_date(date.year, date.month, date.day),
    ensures
        exists|past: Civil|
            is_date(past.year, past.month, past.day) && #[trigger] day_number(
                past.year,
                past.month,
                past.day,
            ) == day_number(date.year, date.month, date.day) - 1,
{
    let day = day_number(date.year, date.month, date.day);
    if date.day > 1 {
        assert(day_number(date.year, date.month, date.day - 1) == day - 1);
        let past = Civil { year: date.year, month: date.month, day: date.day - 1 };
        assert(is_date(past.year, past.month, past.day));
    } else if date.month > 1 {
        let month = date.month - 1;
        assert(day_number(date.year, month, month_length(date.year, month)) == day - 1);
        let past = Civil { year: date.year, month, day: month_length(date.year, month) };
        assert(is_date(past.year, past.month, past.day));
    } else {
        lemma_year_starts(date.year - 1);
        lemma_months_fill_the_year(date.year - 1);
        assert(day_number(date.year - 1, 12, 31) == day - 1);
        let past = Civil { year: date.year - 1, month: 12, day: 31 };
        assert(is_date(past.year, past.month, past.day));
    }
}

/// Every day has a date that names it.
pub proof fn law_every_day_has_a_date(day: int)
    ensures
        is_date(civil(day).year, civil(day).month, civil(day).day),
        day_number(civil(day).year, civil(day).month, civil(day).day) == day,
    decreases if day > 0 {
        day
    } else {
        1 - day
    },
{
    if day == 1 {
        let first = Civil { year: 1, month: 1, day: 1 };
        assert(is_date(first.year, first.month, first.day));
        assert(day_number(first.year, first.month, first.day) == 1);
    } else if day > 1 {
        law_every_day_has_a_date(day - 1);
        lemma_next_day_has_a_date(civil(day - 1));
    } else if day == 0 {
        let last = Civil { year: 0, month: 12, day: 31 };
        lemma_months_fill_the_year(0);
        assert(is_date(last.year, last.month, last.day));
        assert(day_number(last.year, last.month, last.day) == 0);
    } else {
        law_every_day_has_a_date(day + 1);
        lemma_day_before_has_a_date(civil(day + 1));
    }
}

/// A day belongs to the years from 0 to 9999 exactly where it lies between January 1 of the year 0 and
/// December 31 of the year 9999.
pub proof fn law_years_of_days(date: Civil)
    requires
        is_date(date.year, date.month, date.day),
    ensures
        0 <= date.year <= 9999 <==> -365 <= day_number(date.year, date.month, date.day) <= 3_652_059,
{
    lemma_date_within_year(date.year, date.month, date.day);
    assert(day_before_year(0) == -366);
    assert(day_before_year(10_000) == 3_652_059);
    if date.year < 0 {
        lemma_years_are_ordered(date.year + 1, 0);
    } else {
        lemma_years_are_ordered(0, date.year);
    }
    if date.year > 9999 {
        lemma_years_are_ordered(10_000, date.year);
    } else {
        lemma_years_are_ordered(date.year + 1, 10_000);
    }
}

/// The calendar is the Gregorian one: a date's day follows that of the date before, months have their
/// lengths, and February 29 comes every four years but for three of four centuries.
pub proof fn law_calendar_is_gregorian(year: int)
    ensures
        day_number(1970, 1, 1) == 719_163,
        day_number(year, 2, 1) == day_number(year, 1, 31) + 1,
        day_number(year, 3, 1) == day_number(year, 2, 28) + (if year % 4 == 0 && (year % 100 != 0
            || year % 400 == 0) {
            2int
        } else {
            1int
        }),
        day_number(year, 4, 1) == day_number(year, 3, 31) + 1,
        day_number(year, 5, 1) == day_number(year, 4, 30) + 1,
        day_number(year, 6, 1) == day_number(year, 5, 31) + 1,
        day_number(year, 7, 1) == day_number(year, 6, 30) + 1,
        day_number(year, 8, 1) == day_number(year, 7, 31) + 1,
        day_number(year, 9, 1) == day_number(year, 8, 31) + 1,
        day_number(year, 10, 1) == day_number(year, 9, 30) + 1,
        day_number(year, 11, 1) == day_number(year, 10, 31) + 1,
        day_number(year, 12, 1) == day_number(year, 11, 30) + 1,
        day_number(year + 1, 1, 1) == day_number(year, 12, 31) + 1,
{
    reveal_with_fuel(days_before_month, 14);
    lemma_year_starts(year);
    lemma_months_fill_the_year(year);
}

/// A second falls on the day that is as many full days after January 1, 1970, and a day begins at the
/// second after as many full days.
pub proof fn law_days_have_86400_seconds(day: int, seconds: int)
    ensures
        day_of_second(seconds) == 719_163 + seconds / 86_400,
        first_second(day) == (day - 719_163) * 86_400,
{
}

/// The days from January 1 of the year -262143 to December 31 of the year 262142 can be named, and so can
/// the points in time on them; a leap second follows only the last second of a minute.
pub proof fn law_which_times_can_be_named(day: i32, instant: Instant)
    ensures
        EventDate::Date(day).well_formed() <==> day_number(-262_143, 1, 1) <= day <= day_number(
            262_142,
            12,
            31,
        ),
        EventDate::DateTimeUtc(instant).well_formed() <==> {
            &&& (day_number(-262_143, 1, 1) - 719_163) * 86_400 <= instant.seconds
            &&& instant.seconds < (day_number(262_142, 12, 31) + 1 - 719_163) * 86_400
            &&& instant.nanos < 2_000_000_000
            &&& instant.nanos >= 1_000_000_000 ==> instant.seconds as int % 60 == 59
        },
{
    reveal_with_fuel(days_before_month, 13);
    assert(day_number(-262_143, 1, 1) == -95_746_129);
    assert(day_number(262_142, 12, 31) == 95_745_399);
}

} // verus!
