//! Texts and spans of time.
#[allow(unused_imports)]
use crate::time::{
    civil, day_number, day_of_second, is_date, is_second, law_civil_undoes_day_number,
    law_every_day_has_a_date, Civil,
};
use crate::time::{Instant, NANOS_PER_SECOND, SECONDS_PER_DAY};
use vstd::prelude::*;

verus! {

/// The decimal digits of a number, filled up with zeros from the left to at least `width` digits.
pub open spec fn decimal(value: nat, width: nat) -> Seq<char>
    decreases value, width,
{
    if value == 0 && width == 0 {
        Seq::empty()
    } else {
        let before: nat = if width == 0 {
            0
        } else {
            (width - 1) as nat
        };
        decimal(value / 10, before).push((0x30 + value % 10) as char)
    }
}

/// A year as text: four digits, or a sign and at least four digits outside the years 0 to 9999.
pub open spec fn year_text(year: int) -> Seq<char> {
    if year < 0 {
        seq!['-'] + decimal((-year) as nat, 4)
    } else if year > 9999 {
        seq!['+'] + decimal(year as nat, 4)
    } else {
        decimal(year as nat, 4)
    }
}

/// The second of its day that a second is.
pub open spec fn time_of_day(seconds: int) -> int {
    seconds % (SECONDS_PER_DAY as int)
}

/// What a field of a pattern stands for: `Y` the year, `m` the month, `d` the day of the month, `H` the
/// hour and `M` the minute, all but the year with two digits.
pub open spec fn field_text(code: char, seconds: int) -> Seq<char> {
    let date = civil(day_of_second(seconds));
    if code == 'Y' {
        year_text(date.year)
    } else if code == 'm' {
        decimal(date.month as nat, 2)
    } else if code == 'd' {
        decimal(date.day as nat, 2)
    } else if code == 'H' {
        decimal((time_of_day(seconds) / 3600) as nat, 2)
    } else {
        decimal((time_of_day(seconds) / 60 % 60) as nat, 2)
    }
}

/// Whether `%` stands in a pattern only before `Y`, `m`, `d`, `H` or `M`.
pub open spec fn is_plain_pattern(pattern: Seq<char>) -> bool
    decreases pattern.len(),
{
    if pattern.len() == 0 {
        true
    } else if pattern[0] == '%' {
        &&& pattern.len() >= 2
        &&& pattern[1] == 'Y' || pattern[1] == 'm' || pattern[1] == 'd' || pattern[1] == 'H'
            || pattern[1] == 'M'
        &&& is_plain_pattern(pattern.skip(2))
    } else {
        is_plain_pattern(pattern.skip(1))
    }
}

/// The text of a pattern at a second: fields are filled in, all else stands for itself.
pub open spec fn rendered(pattern: Seq<char>, seconds: int) -> Seq<char>
    decreases pattern.len(),
{
    if pattern.len() == 0 {
        Seq::empty()
    } else if pattern[0] == '%' && pattern.len() >= 2 {
        field_text(pattern[1], seconds) + rendered(pattern.skip(2), seconds)
    } else {
        seq![pattern[0]] + rendered(pattern.skip(1), seconds)
    }
}

/// The fraction of a second as text: nothing, or a point and three, six or nine digits.
pub open spec fn fraction_text(nanos: int) -> Seq<char> {
    if nanos == 0 {
        Seq::empty()
    } else if nanos % 1_000_000 == 0 {
        seq!['.'] + decimal((nanos / 1_000_000) as nat, 3)
    } else if nanos % 1_000 == 0 {
        seq!['.'] + decimal((nanos / 1_000) as nat, 6)
    } else {
        seq!['.'] + decimal(nanos as nat, 9)
    }
}

/// A point in time as an RFC 3339 text in UTC. A leap second is the second 60 of its minute.
pub open spec fn rfc3339_text(instant: Instant) -> Seq<char> {
    let seconds = instant.seconds as int;
    let leap = instant.nanos as int / (NANOS_PER_SECOND as int);
    let nanos = instant.nanos as int % (NANOS_PER_SECOND as int);
    rendered("%Y-%m-%dT%H:%M:"@, seconds) + decimal((seconds % 60 + leap) as nat, 2) + fraction_text(nanos)
        + seq!['Z']
}

/// The nanoseconds from one point in time to another. A leap second counts where one of the two lies in
/// it and the other does not lie at the same second of its day.
pub open spec fn elapsed_nanos(start: Instant, end: Instant) -> int {
    let from = time_of_day(start.seconds as int);
    let to = time_of_day(end.seconds as int);
    let leap: int = if to > from && start.nanos >= NANOS_PER_SECOND {
        1
    } else if to < from && end.nanos >= NANOS_PER_SECOND {
        -1
    } else {
        0
    };
    (end.seconds - start.seconds + leap) * NANOS_PER_SECOND + end.nanos - start.nanos
}

/// Calls `chrono::DateTime::format` on the time at a fixed offset from UTC: what the pattern's fields
/// stand for at that clock is filled in, all other characters stay.
#[verifier::external_body]
pub(crate) fn format_time(seconds: i64, offset: i32, pattern: &str) -> (r: String)
    requires
        is_second(seconds as int),
        -SECONDS_PER_DAY < offset < SECONDS_PER_DAY,
        is_plain_pattern(pattern@),
    ensures
        r@ == rendered(pattern@, seconds + offset),
{
    let zone = chrono::FixedOffset::east_opt(offset).unwrap();
    let time = chrono::DateTime::from_timestamp(seconds, 0).unwrap();
    time.with_timezone(&zone).format(pattern).to_string()
}

/// Calls `chrono::DateTime::to_rfc3339_opts` with as many digits of the fraction as are needed and `Z`
/// for UTC.
#[verifier::external_body]
pub(crate) fn format_rfc3339(instant: Instant) -> (r: String)
    requires
        instant.well_formed(),
    ensures
        r@ == rfc3339_text(instant),
{
    let time = chrono::DateTime::from_timestamp(instant.seconds, instant.nanos).unwrap();
    time.to_rfc3339_opts(chrono::SecondsFormat::AutoSi, true)
}

/// Calls `chrono::DateTime::signed_duration_since`: the whole seconds of the span and the nanoseconds
/// left over, both with the sign of the span.
#[verifier::external_body]
pub(crate) fn elapsed(start: Instant, end: Instant) -> (r: (i64, i32))
    requires
        start.well_formed(),
        end.well_formed(),
    ensures
        r.0 * NANOS_PER_SECOND + r.1 == elapsed_nanos(start, end),
        -NANOS_PER_SECOND < r.1 < NANOS_PER_SECOND,
        r.1 > 0 ==> r.0 >= 0,
        r.1 < 0 ==> r.0 <= 0,
{
    let from = chrono::DateTime::from_timestamp(start.seconds, start.nanos).unwrap();
    let to = chrono::DateTime::from_timestamp(end.seconds, end.nanos).unwrap();
    let span = to.signed_duration_since(from);
    (span.num_seconds(), span.subsec_nanos())
}

/// The seconds by which a machine's clocks are ahead of UTC at a second. The number of the machine stands
/// for its time zone, which may change from one call to the next.
pub uninterp spec fn offset_on(machine: int, seconds: int) -> int;

/// Calls `chrono::DateTime::with_timezone` with `chrono::Local` and reads off the offset from UTC in
/// seconds. It is the offset at the given second in the time zone of the machine, and less than a day.
#[verifier::external_body]
pub(crate) fn local_offset(seconds: i64) -> (r: i32)
    requires
        is_second(seconds as int),
    ensures
        exists|machine: int| r == #[trigger] offset_on(machine, seconds as int),
        -SECONDS_PER_DAY < r < SECONDS_PER_DAY,
{
    let time = chrono::DateTime::from_timestamp(seconds, 0).unwrap();
    time.with_timezone(&chrono::Local).offset().local_minus_utc()
}

/// The number that decimal digits stand for.
pub open spec fn digits_value(digits: Seq<char>) -> int
    decreases digits.len(),
{
    if digits.len() == 0 {
        0
    } else {
        10 * digits_value(digits.drop_last()) + (digits.last() as u32 - 0x30)
    }
}

/// The decimal digits of a number are digits, at least as many as asked for, and are read back as the
/// number.
pub proof fn law_decimal_is_read_back(value: nat, width: nat)
    ensures
        digits_value(decimal(value, width)) == value,
        decimal(value, width).len() >= width,
        forall|i: int|
            0 <= i < decimal(value, width).len() ==> '0' <= #[trigger] decimal(value, width)[i] && decimal(
                value,
                width,
            )[i] <= '9',
    decreases value, width,
{
    if value == 0 && width == 0 {
    } else {
        let before: nat = if width == 0 {
            0
        } else {
            (width - 1) as nat
        };
        law_decimal_is_read_back(value / 10, before);
        let text = decimal(value, width);
        let start = decimal(value / 10, before);
        assert(text.drop_last() =~= start);
        assert(text.last() == (0x30 + value % 10) as char);
        assert forall|i: int| 0 <= i < text.len() implies '0' <= #[trigger] text[i] && text[i] <= '9' by {
            if i < start.len() {
                assert(text[i] == start[i]);
            }
        }
    }
}

/// Numbers below a hundred have two digits, and below ten thousand four, where that many are asked for.
pub proof fn law_small_numbers_fill_their_width(two: nat, four: nat)
    requires
        two < 100,
        four < 10_000,
    ensures
        decimal(two, 2) == seq![(0x30 + two / 10) as char, (0x30 + two % 10) as char],
        decimal(four, 4).len() == 4,
{
    reveal_with_fuel(decimal, 5);
    assert(two / 10 / 10 == 0);
    assert(four / 10 / 10 / 10 / 10 == 0);
    assert(decimal(two, 2) =~= seq![(0x30 + two / 10) as char, (0x30 + two % 10) as char]);
}

/// The hour of a second of the day as two digits, a colon, and the minute as two digits.
pub open spec fn hour_and_minute(seconds: int) -> Seq<char> {
    decimal((seconds % 86_400 / 3_600) as nat, 2) + seq![':'] + decimal(
        (seconds % 86_400 % 3_600 / 60) as nat,
        2,
    )
}

/// The day and the month of a date as two digits each, with a slash between them.
pub open spec fn day_and_month(date: Civil) -> Seq<char> {
    decimal(date.day as nat, 2) + seq!['/'] + decimal(date.month as nat, 2)
}

/// A date with its year first and hyphens between its parts.
pub open spec fn year_month_day(date: Civil) -> Seq<char> {
    year_text(date.year) + seq!['-'] + decimal(date.month as nat, 2) + seq!['-'] + decimal(
        date.day as nat,
        2,
    )
}

/// Whether a date is the one of a second.
pub open spec fn is_date_of(date: Civil, seconds: int) -> bool {
    &&& is_date(date.year, date.month, date.day)
    &&& day_number(date.year, date.month, date.day) == 719_163 + seconds / 86_400
}

proof fn lemma_field_then(pattern: Seq<char>, seconds: int)
    requires
        pattern.len() >= 2,
        pattern[0] == '%',
    ensures
        rendered(pattern, seconds) == field_text(pattern[1], seconds) + rendered(
            pattern.skip(2),
            seconds,
        ),
{
}

proof fn lemma_sign_then(pattern: Seq<char>, seconds: int)
    requires
        pattern.len() >= 1,
        pattern[0] != '%',
    ensures
        rendered(pattern, seconds) == seq![pattern[0]] + rendered(pattern.skip(1), seconds),
{
}

proof fn lemma_fields(date: Civil, t: int)
    requires
        is_date_of(date, t),
    ensures
        field_text('Y', t) == year_text(date.year),
        field_text('m', t) == decimal(date.month as nat, 2),
        field_text('d', t) == decimal(date.day as nat, 2),
        field_text('H', t) == decimal((t % 86_400 / 3_600) as nat, 2),
        field_text('M', t) == decimal((t % 86_400 % 3_600 / 60) as nat, 2),
{
    law_civil_undoes_day_number(date);
    let s = t % 86_400;
    assert(s / 60 % 60 == s % 3_600 / 60) by (nonlinear_arith)
        requires
            0 <= s < 86_400,
    ;
}

/// The time of day is written with two digits for the hour and two for the minute.
pub proof fn law_time_is_written_as_hour_and_minute(t: int)
    ensures
        rendered("%H:%M"@, t) == hour_and_minute(t),
{
    law_every_day_has_a_date(day_of_second(t));
    lemma_fields(civil(day_of_second(t)), t);
    reveal_strlit("%H:%M");
    let p = "%H:%M"@;
    lemma_field_then(p, t);
    lemma_sign_then(p.skip(2), t);
    lemma_field_then(p.skip(2).skip(1), t);
    assert(p.skip(2).skip(1).skip(2) =~= Seq::<char>::empty());
    assert(rendered(p, t) =~= hour_and_minute(t));
}

/// A date is written with its day first, slashes between its parts and its year last.
pub proof fn law_date_is_written_as_day_month_year(date: Civil, t: int)
    requires
        is_date_of(date, t),
    ensures
        rendered("%d/%m/%Y"@, t) == day_and_month(date) + seq!['/'] + year_text(date.year),
{
    lemma_fields(date, t);
    reveal_strlit("%d/%m/%Y");
    let p = "%d/%m/%Y"@;
    lemma_field_then(p, t);
    lemma_sign_then(p.skip(2), t);
    lemma_field_then(p.skip(2).skip(1), t);
    lemma_sign_then(p.skip(2).skip(1).skip(2), t);
    lemma_field_then(p.skip(2).skip(1).skip(2).skip(1), t);
    assert(p.skip(2).skip(1).skip(2).skip(1).skip(2) =~= Seq::<char>::empty());
    assert(rendered(p, t) =~= day_and_month(date) + seq!['/'] + year_text(date.year));
}

/// A date for programs is written with its year first.
pub proof fn law_date_is_written_as_year_month_day(date: Civil, t: int)
    requires
        is_date_of(date, t),
    ensures
        rendered("%Y-%m-%d"@, t) == year_month_day(date),
{
    lemma_fields(date, t);
    reveal_strlit("%Y-%m-%d");
    let p = "%Y-%m-%d"@;
    lemma_field_then(p, t);
    lemma_sign_then(p.skip(2), t);
    lemma_field_then(p.skip(2).skip(1), t);
    lemma_sign_then(p.skip(2).skip(1).skip(2), t);
    lemma_field_then(p.skip(2).skip(1).skip(2).skip(1), t);
    assert(p.skip(2).skip(1).skip(2).skip(1).skip(2) =~= Seq::<char>::empty());
    assert(rendered(p, t) =~= year_month_day(date));
}

/// A date and time is written as the date, a space and the time, with or without the year.
pub proof fn law_date_and_time_are_written_one_after_the_other(date: Civil, t: int)
    requires
        is_date_of(date, t),
    ensures
        rendered("%d/%m/%Y %H:%M"@, t) == day_and_month(date) + seq!['/'] + year_text(date.year)
            + seq![' '] + hour_and_minute(t),
        rendered("%d/%m %H:%M"@, t) == day_and_month(date) + seq![' '] + hour_and_minute(t),
{
    lemma_fields(date, t);
    reveal_strlit("%d/%m/%Y %H:%M");
    reveal_strlit("%d/%m %H:%M");
    let p = "%d/%m/%Y %H:%M"@;
    let p1 = p.skip(2).skip(1).skip(2);
    let p2 = p1.skip(1).skip(2);
    let p3 = p2.skip(1).skip(2).skip(1);
    lemma_field_then(p, t);
    lemma_sign_then(p.skip(2), t);
    lemma_field_then(p.skip(2).skip(1), t);
    lemma_sign_then(p1, t);
    lemma_field_then(p1.skip(1), t);
    lemma_sign_then(p2, t);
    lemma_field_then(p2.skip(1), t);
    lemma_sign_then(p2.skip(1).skip(2), t);
    lemma_field_then(p3, t);
    assert(p3.skip(2) =~= Seq::<char>::empty());
    assert(rendered(p, t) =~= day_and_month(date) + seq!['/'] + year_text(date.year) + seq![' ']
        + hour_and_minute(t));
    let q = "%d/%m %H:%M"@;
    let q1 = q.skip(2).skip(1).skip(2);
    let q2 = q1.skip(1).skip(2).skip(1);
    lemma_field_then(q, t);
    lemma_sign_then(q.skip(2), t);
    lemma_field_then(q.skip(2).skip(1), t);
    lemma_sign_then(q1, t);
    lemma_field_then(q1.skip(1), t);
    lemma_sign_then(q1.skip(1).skip(2), t);
    lemma_field_then(q2, t);
    assert(q2.skip(2) =~= Seq::<char>::empty());
    assert(rendered(q, t) =~= day_and_month(date) + seq![' '] + hour_and_minute(t));
}

/// An instant for programs is the date with its year first, `T`, the hour, minute and second with two
/// digits each, the fraction and `Z`.
pub proof fn law_instant_is_written_in_full(instant: Instant, date: Civil)
    requires
        is_date_of(date, instant.seconds as int),
    ensures
        rfc3339_text(instant) == year_month_day(date) + seq!['T'] + hour_and_minute(
            instant.seconds as int,
        ) + seq![':'] + decimal(
            (instant.seconds as int % 60 + instant.nanos as int / 1_000_000_000) as nat,
            2,
        ) + fraction_text(instant.nanos as int % 1_000_000_000) + seq!['Z'],
        instant.nanos == 0 ==> fraction_text(instant.nanos as int % 1_000_000_000) == Seq::<char>::empty(),
{
    let t = instant.seconds as int;
    lemma_fields(date, t);
    reveal_strlit("%Y-%m-%dT%H:%M:");
    let p = "%Y-%m-%dT%H:%M:"@;
    let p1 = p.skip(2).skip(1).skip(2);
    let p2 = p1.skip(1).skip(2);
    let p3 = p2.skip(1).skip(2).skip(1);
    lemma_field_then(p, t);
    lemma_sign_then(p.skip(2), t);
    lemma_field_then(p.skip(2).skip(1), t);
    lemma_sign_then(p1, t);
    lemma_field_then(p1.skip(1), t);
    lemma_sign_then(p2, t);
    lemma_field_then(p2.skip(1), t);
    lemma_sign_then(p2.skip(1).skip(2), t);
    lemma_field_then(p3, t);
    lemma_sign_then(p3.skip(2), t);
    assert(p3.skip(2).skip(1) =~= Seq::<char>::empty());
    assert(rendered(p, t) =~= year_month_day(date) + seq!['T'] + hour_and_minute(t) + seq![':']);
}

proof fn lemma_instant_text_parts(instant: Instant, date: Civil)
    requires
        instant.nanos == 0,
        is_date_of(date, instant.seconds as int),
        0 <= date.year <= 9999,
    ensures
        ({
            let text = rfc3339_text(instant);
            let t = instant.seconds as int;
            &&& text.len() == 20
            &&& digits_value(text.subrange(0, 4)) == date.year
            &&& digits_value(text.subrange(5, 7)) == date.month
            &&& digits_value(text.subrange(8, 10)) == date.day
            &&& digits_value(text.subrange(11, 13)) == t % 86_400 / 3_600
            &&& digits_value(text.subrange(14, 16)) == t % 86_400 % 3_600 / 60
            &&& digits_value(text.subrange(17, 19)) == t % 60
        }),
{
    let t = instant.seconds as int;
    law_instant_is_written_in_full(instant, date);
    let text = rfc3339_text(instant);
    let hour = t % 86_400 / 3_600;
    let minute = t % 86_400 % 3_600 / 60;
    let second = t % 60;
    let y = decimal(date.year as nat, 4);
    let m = decimal(date.month as nat, 2);
    let d = decimal(date.day as nat, 2);
    let h = decimal(hour as nat, 2);
    let n = decimal(minute as nat, 2);
    let s = decimal(second as nat, 2);
    law_small_numbers_fill_their_width(date.month as nat, date.year as nat);
    law_small_numbers_fill_their_width(date.day as nat, 0);
    law_small_numbers_fill_their_width(hour as nat, 0);
    law_small_numbers_fill_their_width(minute as nat, 0);
    law_small_numbers_fill_their_width(second as nat, 0);
    law_decimal_is_read_back(date.year as nat, 4);
    law_decimal_is_read_back(date.month as nat, 2);
    law_decimal_is_read_back(date.day as nat, 2);
    law_decimal_is_read_back(hour as nat, 2);
    law_decimal_is_read_back(minute as nat, 2);
    law_decimal_is_read_back(second as nat, 2);
    assert(text.subrange(0, 4) =~= y);
    assert(text.subrange(5, 7) =~= m);
    assert(text.subrange(8, 10) =~= d);
    assert(text.subrange(11, 13) =~= h);
    assert(text.subrange(14, 16) =~= n);
    assert(text.subrange(17, 19) =~= s);
}

proof fn lemma_last_part(k: int, s: int)
    requires
        0 <= s < 60,
    ensures
        (60 * k + s) % 60 == s,
{
}

proof fn lemma_parts_of_second(x: int)
    ensures
        x == 86_400 * (x / 86_400) + 3_600 * (x % 86_400 / 3_600) + 60 * (x % 86_400 % 3_600 / 60) + x % 60,
{
    let q = x / 86_400;
    let r = x % 86_400;
    let h = r / 3_600;
    let u = r % 3_600;
    let m = u / 60;
    let s = u % 60;
    assert(x == 86_400 * q + r);
    assert(r == 3_600 * h + u);
    assert(u == 60 * m + s);
    let k = 1_440 * q + 60 * h + m;
    assert(x == 60 * k + s);
    lemma_last_part(k, s);
}

proof fn lemma_second_is_its_parts(x: int, y: int)
    requires
        x / 86_400 == y / 86_400,
        x % 86_400 / 3_600 == y % 86_400 / 3_600,
        x % 86_400 % 3_600 / 60 == y % 86_400 % 3_600 / 60,
        x % 60 == y % 60,
    ensures
        x == y,
{
    lemma_parts_of_second(x);
    lemma_parts_of_second(y);
}

/// Two different seconds, of years with four digits, are written differently.
pub proof fn law_different_seconds_are_written_differently(
    a: Instant,
    b: Instant,
    date_a: Civil,
    date_b: Civil,
)
    requires
        a.nanos == 0,
        b.nanos == 0,
        is_date_of(date_a, a.seconds as int),
        is_date_of(date_b, b.seconds as int),
        0 <= date_a.year <= 9999,
        0 <= date_b.year <= 9999,
        rfc3339_text(a) == rfc3339_text(b),
    ensures
        a.seconds == b.seconds,
{
    let x = a.seconds as int;
    let y = b.seconds as int;
    assert({
        &&& date_a.year == date_b.year
        &&& date_a.month == date_b.month
        &&& date_a.day == date_b.day
        &&& x % 86_400 / 3_600 == y % 86_400 / 3_600
        &&& x % 86_400 % 3_600 / 60 == y % 86_400 % 3_600 / 60
        &&& x % 60 == y % 60
    }) by {
        lemma_instant_text_parts(a, date_a);
        lemma_instant_text_parts(b, date_b);
    }
    lemma_second_is_its_parts(x, y);
}

/// Without leap seconds, the time from one instant to another is the difference of the two.
pub proof fn law_elapsed_time_is_the_difference(start: Instant, end: Instant)
    requires
        start.nanos < 1_000_000_000,
        end.nanos < 1_000_000_000,
    ensures
        elapsed_nanos(start, end) == (end.seconds * 1_000_000_000 + end.nanos) - (start.seconds
            * 1_000_000_000 + start.nanos),
{
}

} // verus!
