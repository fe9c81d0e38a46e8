//! Calendar dates: reading `YYYY-MM-DD` into seconds since the epoch, and
//! writing a timestamp for display.

use crate::text::{append_padded, chars_of, digit_char, padded_decimal, radix_digits};
use vstd::prelude::*;

verus! {

/// Why a date could not be read.
#[derive(Clone, Copy, Debug, PartialEq, Eq, Structural)]
pub enum DateError {
    /// The text does not consist of exactly three fields separated by dashes.
    InvalidDateFormat,
    /// A field is not a number, or does not fit its type.
    InvalidDateComponent,
    /// The year lies before 1970, the month outside 1..=12 or the day
    /// outside 1..=31.
    InvalidDateRange,
}

pub const SECONDS_PER_DAY: u64 = 86_400;

// ---------------------------------------------------------------------
// The calendar
// ---------------------------------------------------------------------
/// Whether `year` is a leap year of the proleptic Gregorian calendar.
pub open spec fn leap_year(year: int) -> bool {
    (year % 4 == 0 && year % 100 != 0) || year % 400 == 0
}

/// The number of days in `year`.
pub open spec fn year_length(year: int) -> int {
    if leap_year(year) {
        366
    } else {
        365
    }
}

/// The days in all the years from 1970 up to, and not including, `year`.
pub open spec fn days_before_year(year: int) -> int
    decreases year - 1970,
{
    if year <= 1970 {
        0
    } else {
        days_before_year(year - 1) + year_length(year - 1)
    }
}

/// The number of days in month `month` (1 for January) of `year`.
pub open spec fn month_length(year: int, month: int) -> int {
    if month == 2 {
        if leap_year(year) {
            29
        } else {
            28
        }
    } else if month == 4 || month == 6 || month == 9 || month == 11 {
        30
    } else {
        31
    }
}

/// The days in the first `months` months of `year`.
pub open spec fn days_in_first_months(year: int, months: int) -> int
    decreases months,
{
    if months <= 0 {
        0
    } else {
        days_in_first_months(year, months - 1) + month_length(year, months)
    }
}

/// The days from 1970-01-01 to the given date. The day of the month is
/// only held to 1..=31, whatever the month: day 31 of a short month
/// counts on into the next one.
pub open spec fn epoch_days(year: int, month: int, day: int) -> Option<int> {
    if year < 1970 || month < 1 || month > 12 || day < 1 || day > 31 {
        None
    } else {
        Some(days_before_year(year) + days_in_first_months(year, month - 1) + day - 1)
    }
}

/// The leap years among the years 1 to `year`.
pub open spec fn leap_years_through(year: int) -> int {
    year / 4 - year / 100 + year / 400
}

/// Counting leap years gives the days before a year without adding the
/// years up one by one.
pub proof fn lemma_days_before_year_closed_form(year: int)
    requires
        year >= 1970,
    ensures
        days_before_year(year) == 365 * (year - 1970) + leap_years_through(year - 1)
            - leap_years_through(1969),
    decreases year - 1970,
{
    if year > 1970 {
        lemma_days_before_year_closed_form(year - 1);
        let y = year - 1;
        assert(leap_years_through(y) - leap_years_through(y - 1) == if leap_year(y) {
            1int
        } else {
            0int
        }) by {
            assert(y / 4 - (y - 1) / 4 == if y % 4 == 0 { 1int } else { 0int });
            assert(y / 100 - (y - 1) / 100 == if y % 100 == 0 { 1int } else { 0int });
            assert(y / 400 - (y - 1) / 400 == if y % 400 == 0 { 1int } else { 0int });
            assert(y % 400 == 0 ==> y % 100 == 0);
            assert(y % 100 == 0 ==> y % 4 == 0);
        }
    }
}

fn multiple_of(year: i32, d: i32) -> (r: bool)
    requires
        d == 4 || d == 100 || d == 400,
    ensures
        r == (year as int % d as int == 0),
{
    year % d == 0
}

/// Checks whether `year` is a leap year.
pub fn is_leap_year(year: i32) -> (leap: bool)
    ensures
        leap == leap_year(year as int),
{
    (multiple_of(year, 4) && !multiple_of(year, 100)) || multiple_of(year, 400)
}

/// Returns the number of days in the first `month` months of `year`.
pub fn days_in_months(year: i32, month: u32) -> (days: i64)
    requires
        month <= 12,
    ensures
        days == days_in_first_months(year as int, month as int),
        0 <= days <= 366,
{
    let leap = is_leap_year(year);
    let mut days: i64 = 0;
    let mut m: u32 = 0;
    while m < month
        invariant
            m <= month <= 12,
            leap == leap_year(year as int),
            days == days_in_first_months(year as int, m as int),
            0 <= days <= 31 * m,
        decreases month - m,
    {
        m = m + 1;
        let length: i64 = if m == 2 {
            if leap {
                29
            } else {
                28
            }
        } else if m == 4 || m == 6 || m == 9 || m == 11 {
            30
        } else {
            31
        };
        days = days + length;
    }
    proof {
        lemma_first_months_bound(year as int, month as int);
    }
    days
}

/// A year has at most 366 days, however many of its months are counted.
pub proof fn lemma_first_months_bound(year: int, months: int)
    requires
        0 <= months <= 12,
    ensures
        0 <= days_in_first_months(year, months) <= 366,
        days_in_first_months(year, months) >= 28 * months,
{
    reveal_with_fuel(days_in_first_months, 13);
}

/// Calculates the number of days from 1970-01-01 to the given date.
pub fn days_since_unix_epoch(year: i32, month: u32, day: u32) -> (days: Option<i64>)
    ensures
        match epoch_days(year as int, month as int, day as int) {
            Some(d) => days == Some(d as i64) && 0 <= d < 1_000_000_000_000,
            None => days is None,
        },
{
    if year < 1970 || month == 0 || month > 12 || day == 0 || day > 31 {
        return None;
    }
    proof {
        lemma_days_before_year_closed_form(year as int);
    }
    let last: i64 = (year - 1) as i64;
    let years: i64 = (year - 1970) as i64;
    let whole_years: i64 = 365 * years + (last / 4 - last / 100 + last / 400) - 477;
    let days = whole_years + days_in_months(year, month - 1) + (day as i64) - 1;
    Some(days)
}

// ---------------------------------------------------------------------
// Reading a date
// ---------------------------------------------------------------------
/// The fields of `s` between occurrences of `sep`. There is always at
/// least one field; fields may be empty.
pub open spec fn split(s: Seq<char>, sep: char) -> Seq<Seq<char>>
    decreases s.len(),
{
    if s.len() == 0 {
        seq![Seq::empty()]
    } else {
        let before = split(s.drop_last(), sep);
        if s.last() == sep {
            before.push(Seq::empty())
        } else {
            before.drop_last().push(before.last().push(s.last()))
        }
    }
}

/// The fields put together again, with `sep` between them.
pub open spec fn rejoined(fields: Seq<Seq<char>>, sep: char) -> Seq<char>
    decreases fields.len(),
{
    if fields.len() == 0 {
        Seq::empty()
    } else if fields.len() == 1 {
        fields[0]
    } else {
        rejoined(fields.drop_last(), sep) + seq![sep] + fields.last()
    }
}

/// Splitting loses nothing: no field holds the separator, and the
/// fields with the separator between them are the text again.
pub proof fn lemma_split_rejoins(s: Seq<char>, sep: char)
    ensures
        split(s, sep).len() >= 1,
        rejoined(split(s, sep), sep) == s,
        forall|i: int, k: int|
            0 <= i < split(s, sep).len() && 0 <= k < split(s, sep)[i].len() ==> split(
                s,
                sep,
            )[i][k] != sep,
    decreases s.len(),
{
    let fields = split(s, sep);
    if s.len() == 0 {
        assert(rejoined(fields, sep) =~= s);
    } else {
        let init = s.drop_last();
        let before = split(init, sep);
        lemma_split_rejoins(init, sep);
        assert(s =~= init.push(s.last()));
        if s.last() == sep {
            assert(fields.drop_last() =~= before);
            assert(rejoined(fields, sep) =~= s);
            assert forall|i: int, k: int|
                0 <= i < fields.len() && 0 <= k < fields[i].len() implies fields[i][k] != sep by {
                assert(fields[i] == before[i]);
            }
        } else {
            let grown = before.last().push(s.last());
            if before.len() == 1 {
                assert(rejoined(before, sep) == before[0]);
                assert(rejoined(fields, sep) =~= s);
            } else {
                assert(fields.drop_last() =~= before.drop_last());
                assert(rejoined(fields, sep) =~= (rejoined(before.drop_last(), sep) + seq![sep]
                    + before.last()).push(s.last()));
            }
            assert forall|i: int, k: int|
                0 <= i < fields.len() && 0 <= k < fields[i].len() implies fields[i][k] != sep by {
                if i < fields.len() - 1 {
                    assert(fields[i] == before[i]);
                } else if k < before.last().len() {
                    assert(fields[i][k] == before[before.len() - 1][k]);
                }
            }
        }
    }
}

/// Whether `c` is one of the ten ASCII digits.
pub open spec fn is_digit(c: char) -> bool {
    '0' <= c <= '9'
}

/// The number that a string of digits writes in decimal.
pub open spec fn decimal_value(digits: Seq<char>) -> nat
    decreases digits.len(),
{
    if digits.len() == 0 {
        0
    } else {
        (decimal_value(digits.drop_last()) * 10 + (digits.last() as u32 - '0' as u32)) as nat
    }
}

/// Whether `s` holds nothing but digits.
pub open spec fn all_digits(s: Seq<char>) -> bool {
    forall|i: int| 0 <= i < s.len() ==> is_digit(#[trigger] s[i])
}

/// A field without the plus sign that may stand in front of it.
pub open spec fn without_sign(field: Seq<char>) -> Seq<char> {
    if field.len() > 0 && field[0] == '+' {
        field.drop_first()
    } else {
        field
    }
}

/// The number that one field of a date holds: digits, at least one, with
/// an optional plus sign in front, whose value is at most `max`.
pub open spec fn field_number(field: Seq<char>, max: nat) -> Option<nat> {
    let digits = without_sign(field);
    if digits.len() > 0 && all_digits(digits) && decimal_value(digits) <= max {
        Some(decimal_value(digits))
    } else {
        None
    }
}

/// What a date text stands for: midnight UTC of that day, in seconds
/// since 1970-01-01, or the reason why it stands for none.
pub open spec fn date_seconds(text: Seq<char>) -> Result<nat, DateError> {
    let fields = split(text, '-');
    if fields.len() != 3 {
        Err(DateError::InvalidDateFormat)
    } else {
        match (
            field_number(fields[0], i32::MAX as nat),
            field_number(fields[1], u32::MAX as nat),
            field_number(fields[2], u32::MAX as nat),
        ) {
            (Some(year), Some(month), Some(day)) => match epoch_days(
                year as int,
                month as int,
                day as int,
            ) {
                Some(days) => Ok((days * 86_400) as nat),
                None => Err(DateError::InvalidDateRange),
            },
            _ => Err(DateError::InvalidDateComponent),
        }
    }
}

/// Every date that can be read lies within the range of `u64` seconds.
pub proof fn lemma_date_seconds_bound(text: Seq<char>)
    ensures
        date_seconds(text) matches Ok(seconds) ==> seconds < 86_400_000_000_000_000,
{
    let fields = split(text, '-');
    if fields.len() == 3 {
        match (
            field_number(fields[0], i32::MAX as nat),
            field_number(fields[1], u32::MAX as nat),
            field_number(fields[2], u32::MAX as nat),
        ) {
            (Some(year), Some(month), Some(day)) => {
                if epoch_days(year as int, month as int, day as int) is Some {
                    lemma_days_before_year_closed_form(year as int);
                    lemma_first_months_bound(year as int, month as int - 1);
                }
            },
            _ => {},
        }
    }
}

/// A number written in decimal is read back as itself.
pub proof fn lemma_decimal_reads_back(n: nat)
    ensures
        all_digits(radix_digits(n, 10)),
        radix_digits(n, 10).len() > 0,
        decimal_value(radix_digits(n, 10)) == n,
    decreases n,
{
    let written = radix_digits(n, 10);
    if n < 10 {
        assert(written.drop_last() =~= Seq::<char>::empty());
        assert(decimal_value(written.drop_last()) == 0);
    } else {
        lemma_decimal_reads_back(n / 10);
        assert(written.drop_last() =~= radix_digits(n / 10, 10));
        assert(written.last() == digit_char(n % 10));
        assert forall|i: int| 0 <= i < written.len() implies is_digit(#[trigger] written[i]) by {
            if i < written.len() - 1 {
                assert(written[i] == radix_digits(n / 10, 10)[i]);
            }
        }
    }
}

/// The views of a vector of fields.
pub open spec fn field_views(fields: Seq<Vec<char>>) -> Seq<Seq<char>> {
    Seq::new(fields.len(), |i: int| fields[i]@)
}

/// Cuts `text` into the fields between occurrences of `sep`.
pub fn split_fields(text: &Vec<char>, sep: char) -> (fields: Vec<Vec<char>>)
    ensures
        field_views(fields@) == split(text@, sep),
{
    let mut fields: Vec<Vec<char>> = Vec::new();
    let mut current: Vec<char> = Vec::new();
    let mut i: usize = 0;
    assert(text@.take(0) =~= Seq::<char>::empty());
    assert(field_views(fields@).push(current@) =~= split(text@.take(0), sep));
    while i < text.len()
        invariant
            i <= text@.len(),
            field_views(fields@).push(current@) == split(text@.take(i as int), sep),
        decreases text@.len() - i,
    {
        let c = text[i];
        let ghost before = split(text@.take(i as int), sep);
        assert(text@.take(i + 1).drop_last() =~= text@.take(i as int));
        assert(before.last() == current@);
        assert(before.drop_last() =~= field_views(fields@));
        if c == sep {
            fields.push(current);
            current = Vec::new();
        } else {
            current.push(c);
        }
        i = i + 1;
        assert(field_views(fields@).push(current@) =~= split(text@.take(i as int), sep));
    }
    assert(text@.take(text@.len() as int) =~= text@);
    fields.push(current);
    assert(field_views(fields@) =~= split(text@, sep));
    fields
}

/// Adding a digit never makes the number smaller.
pub proof fn lemma_decimal_value_grows(digits: Seq<char>, n: int)
    requires
        0 <= n <= digits.len(),
        all_digits(digits),
    ensures
        decimal_value(digits.take(n)) <= decimal_value(digits),
    decreases digits.len() - n,
{
    if n < digits.len() {
        lemma_decimal_value_grows(digits, n + 1);
        assert(digits.take(n + 1).drop_last() =~= digits.take(n));
        assert(is_digit(digits[n]));
        assert(digits.take(n + 1).last() == digits[n]);
    } else {
        assert(digits.take(n) =~= digits);
    }
}

/// Reads the number in one field of a date.
pub fn parse_field(field: &Vec<char>, max: u32) -> (number: Option<u32>)
    ensures
        number == match field_number(field@, max as nat) {
            Some(n) => Some(n as u32),
            None => None,
        },
{
    let start: usize = if field.len() > 0 && field[0] == '+' {
        1
    } else {
        0
    };
    let ghost digits = field@.subrange(start as int, field@.len() as int);
    assert(digits =~= without_sign(field@));
    if start == field.len() {
        return None;
    }
    let mut value: u64 = 0;
    let mut i: usize = start;
    assert(digits.take(0) =~= Seq::<char>::empty());
    while i < field.len()
        invariant
            start <= i <= field@.len(),
            digits == field@.subrange(start as int, field@.len() as int),
            digits == without_sign(field@),
            digits.len() > 0,
            forall|k: int| 0 <= k < i - start ==> is_digit(#[trigger] digits[k]),
            value == decimal_value(digits.take(i - start)),
            value <= max,
        decreases field@.len() - i,
    {
        let c = field[i];
        assert(digits[i - start] == c);
        if !(c >= '0' && c <= '9') {
            return None;
        }
        let d: u64 = (c as u32 - '0' as u32) as u64;
        assert(digits.take(i - start + 1).drop_last() =~= digits.take(i - start));
        assert(digits.take(i - start + 1).last() == c);
        value = value * 10 + d;
        i = i + 1;
        if value > max as u64 {
            proof {
                if all_digits(digits) {
                    lemma_decimal_value_grows(digits, i - start);
                }
            }
            return None;
        }
    }
    assert(digits.take(digits.len() as int) =~= digits);
    Some(value as u32)
}

/// Parses a date in `YYYY-MM-DD` form, given by its characters, into
/// seconds since the epoch, at midnight UTC.
pub fn parse_date_chars(text: &Vec<char>) -> (seconds: Result<u64, DateError>)
    ensures
        seconds == match date_seconds(text@) {
            Ok(s) => Ok::<u64, DateError>(s as u64),
            Err(e) => Err(e),
        },
        date_seconds(text@) matches Ok(s) ==> s <= u64::MAX,
{
    let fields = split_fields(text, '-');
    if fields.len() != 3 {
        return Err(DateError::InvalidDateFormat);
    }
    assert(field_views(fields@)[0] == fields@[0]@);
    assert(field_views(fields@)[1] == fields@[1]@);
    assert(field_views(fields@)[2] == fields@[2]@);
    let year = parse_field(&fields[0], 0x7fff_ffff);
    let month = parse_field(&fields[1], 0xffff_ffff);
    let day = parse_field(&fields[2], 0xffff_ffff);
    match (year, month, day) {
        (Some(year), Some(month), Some(day)) => {
            match days_since_unix_epoch(year as i32, month, day) {
                Some(days) => Ok((days as u64) * SECONDS_PER_DAY),
                None => Err(DateError::InvalidDateRange),
            }
        },
        _ => Err(DateError::InvalidDateComponent),
    }
}

/// Parses a date in `YYYY-MM-DD` form into seconds since the epoch, at
/// midnight UTC.
pub fn parse_date(date: &str) -> (seconds: Result<u64, DateError>)
    ensures
        seconds == match date_seconds(date@) {
            Ok(s) => Ok::<u64, DateError>(s as u64),
            Err(e) => Err(e),
        },
        date_seconds(date@) matches Ok(s) ==> s <= u64::MAX,
{
    let text = chars_of(date);
    parse_date_chars(&text)
}

// ---------------------------------------------------------------------
// Writing a timestamp
// ---------------------------------------------------------------------
/// A timestamp as `YYYY-MM-DD HH:MM:SS` on a coarse calendar in which
/// every year has 365 days and every month 30: good for display, not
/// for comparing dates. The month may come out as 13.
pub open spec fn readable_timestamp(secs: nat) -> Seq<char> {
    padded_decimal(1970 + secs / 31_536_000, 4) + seq!['-'] + padded_decimal(
        (secs % 31_536_000) / 2_592_000 + 1,
        2,
    ) + seq!['-'] + padded_decimal((secs % 2_592_000) / 86_400 + 1, 2) + seq![' ']
        + padded_decimal((secs % 86_400) / 3_600, 2) + seq![':'] + padded_decimal(
        (secs % 3_600) / 60,
        2,
    ) + seq![':'] + padded_decimal(secs % 60, 2)
}

/// What is shown for a modification time, known or not.
pub open spec fn readable_date(modified: Option<u64>) -> Seq<char> {
    match modified {
        Some(secs) => readable_timestamp(secs as nat),
        None => "modified date unknown"@,
    }
}

/// Writes a time, given in seconds since the epoch, for display.
pub fn datetime_to_readable(secs: u64) -> (text: String)
    ensures
        text@ == readable_timestamp(secs as nat),
{
    proof {
        reveal_strlit("-");
        reveal_strlit(" ");
        reveal_strlit(":");
    }
    let mut text = String::new();
    append_padded(&mut text, 1970 + secs / 31_536_000, 4);
    text.append("-");
    append_padded(&mut text, (secs % 31_536_000) / 2_592_000 + 1, 2);
    text.append("-");
    append_padded(&mut text, (secs % 2_592_000) / 86_400 + 1, 2);
    text.append(" ");
    append_padded(&mut text, (secs % 86_400) / 3_600, 2);
    text.append(":");
    append_padded(&mut text, (secs % 3_600) / 60, 2);
    text.append(":");
    append_padded(&mut text, secs % 60, 2);
    assert(text@ =~= readable_timestamp(secs as nat));
    text
}

/// Writes the modification time of an entry for display, or says that
/// it is unknown.
pub fn get_human_readable_date(modified: Option<u64>) -> (text: String)
    ensures
        text@ == readable_date(modified),
{
    match modified {
        Some(secs) => datetime_to_readable(secs),
        None => String::from_str("modified date unknown"),
    }
}

} // verus!
