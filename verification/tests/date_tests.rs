use tree_gen::date::{
    datetime_to_readable, days_in_months, days_since_unix_epoch, get_human_readable_date,
    is_leap_year, parse_date, parse_field, split_fields, DateError,
};

#[test]
fn epoch_is_zero() {
    assert_eq!(parse_date("1970-01-01"), Ok(0));
}

#[test]
fn second_day_is_one_day_of_seconds() {
    assert_eq!(parse_date("1970-01-02"), Ok(86_400));
}

#[test]
fn first_of_march_2000_counts_the_leap_day() {
    assert_eq!(parse_date("2000-03-01"), Ok(951_868_800));
    assert_eq!(parse_date("2000-02-29"), Ok(951_868_800 - 86_400));
}

#[test]
fn year_2020_starts_at_known_second() {
    assert_eq!(parse_date("2020-01-01"), Ok(1_577_836_800));
}

#[test]
fn letters_in_the_year_are_an_invalid_component() {
    assert_eq!(parse_date("abc-01-01"), Err(DateError::InvalidDateComponent));
}

#[test]
fn month_thirteen_is_out_of_range() {
    assert_eq!(parse_date("2020-13-01"), Err(DateError::InvalidDateRange));
}

#[test]
fn wrong_number_of_fields_is_an_invalid_format() {
    assert_eq!(parse_date("2020-01"), Err(DateError::InvalidDateFormat));
    assert_eq!(parse_date("2020-01-01-01"), Err(DateError::InvalidDateFormat));
    assert_eq!(parse_date(""), Err(DateError::InvalidDateFormat));
    assert_eq!(parse_date("-2020-01-01"), Err(DateError::InvalidDateFormat));
}

#[test]
fn empty_fields_are_invalid_components() {
    assert_eq!(parse_date("--"), Err(DateError::InvalidDateComponent));
    assert_eq!(parse_date("2020--01"), Err(DateError::InvalidDateComponent));
    assert_eq!(parse_date("+-01-01"), Err(DateError::InvalidDateComponent));
}

#[test]
fn fields_that_do_not_fit_are_invalid_components() {
    assert_eq!(parse_date("2147483648-01-01"), Err(DateError::InvalidDateComponent));
    assert_eq!(parse_date("2020-4294967296-01"), Err(DateError::InvalidDateComponent));
    assert_eq!(parse_date("2020-01-99999999999999999999999"), Err(DateError::InvalidDateComponent));
}

#[test]
fn fields_are_read_as_integers_are() {
    assert_eq!(parse_date("+2020-+1-1"), parse_date("2020-01-01"));
    assert_eq!(parse_date("0002020-001-0001"), parse_date("2020-01-01"));
    assert_eq!(parse_date("2020-01-0x1"), Err(DateError::InvalidDateComponent));
    assert_eq!(parse_date("2020-01- 1"), Err(DateError::InvalidDateComponent));
}

#[test]
fn out_of_range_dates() {
    assert_eq!(parse_date("1969-12-31"), Err(DateError::InvalidDateRange));
    assert_eq!(parse_date("2020-00-01"), Err(DateError::InvalidDateRange));
    assert_eq!(parse_date("2020-01-00"), Err(DateError::InvalidDateRange));
    assert_eq!(parse_date("2020-01-32"), Err(DateError::InvalidDateRange));
}

#[test]
fn day_31_of_a_short_month_runs_into_the_next() {
    assert_eq!(parse_date("2021-02-31"), parse_date("2021-03-03"));
    assert_eq!(parse_date("2020-04-31"), parse_date("2020-05-01"));
}

#[test]
fn matches_summing_the_years_one_by_one() {
    for (year, month, day) in [(1970, 1, 1), (1972, 3, 1), (1999, 12, 31), (2100, 3, 1), (2400, 12, 31)] {
        let mut days: i64 = 0;
        let mut y = 1970;
        while y < year {
            days += if is_leap_year(y) { 366 } else { 365 };
            y += 1;
        }
        days += days_in_months(year, month - 1) + day as i64 - 1;
        assert_eq!(days_since_unix_epoch(year, month, day), Some(days));
    }
}

#[test]
fn far_future_year_is_computed_at_once() {
    assert_eq!(
        parse_date("2147483647-12-31"),
        Ok((784_351_576_412u64 + 334 + 30) * 86_400)
    );
}

#[test]
fn leap_years() {
    assert!(is_leap_year(2000));
    assert!(is_leap_year(2024));
    assert!(!is_leap_year(1900));
    assert!(!is_leap_year(2023));
    assert!(is_leap_year(-4));
    assert!(!is_leap_year(-100));
    assert!(is_leap_year(-400));
}

#[test]
fn days_in_leading_months() {
    assert_eq!(days_in_months(2021, 0), 0);
    assert_eq!(days_in_months(2021, 1), 31);
    assert_eq!(days_in_months(2021, 2), 59);
    assert_eq!(days_in_months(2020, 2), 60);
    assert_eq!(days_in_months(2021, 12), 365);
    assert_eq!(days_in_months(2020, 12), 366);
}

#[test]
fn days_since_epoch_rejects_bad_dates() {
    assert_eq!(days_since_unix_epoch(1969, 1, 1), None);
    assert_eq!(days_since_unix_epoch(2000, 0, 1), None);
    assert_eq!(days_since_unix_epoch(2000, 13, 1), None);
    assert_eq!(days_since_unix_epoch(2000, 1, 0), None);
    assert_eq!(days_since_unix_epoch(2000, 1, 32), None);
    assert_eq!(days_since_unix_epoch(2000, 3, 1), Some(11_017));
}

#[test]
fn timestamp_on_the_coarse_calendar() {
    assert_eq!(datetime_to_readable(0), "1970-01-01 00:00:00");
    assert_eq!(datetime_to_readable(86_399), "1970-01-01 23:59:59");
    assert_eq!(datetime_to_readable(86_400), "1970-01-02 00:00:00");
    // A year of 365 days is twelve months of 30 days and five days more.
    assert_eq!(datetime_to_readable(31_536_000), "1971-01-06 00:00:00");
    // 360 days into the year the coarse calendar is in month 13.
    assert_eq!(datetime_to_readable(360 * 86_400), "1970-13-01 00:00:00");
    assert_eq!(datetime_to_readable(1_700_000_000), "2023-12-26 22:13:20");
}

#[test]
fn timestamp_agrees_with_formatting_by_hand() {
    for secs in [0u64, 59, 3_600, 2_592_000, 1_577_836_800, 253_402_300_800, u64::MAX] {
        let expected = format!(
            "{:04}-{:02}-{:02} {:02}:{:02}:{:02}",
            1970 + secs / 31_536_000,
            (secs % 31_536_000) / 2_592_000 + 1,
            (secs % 2_592_000) / 86_400 + 1,
            (secs % 86_400) / 3_600,
            (secs % 3_600) / 60,
            secs % 60
        );
        assert_eq!(datetime_to_readable(secs), expected);
    }
}

#[test]
fn unknown_modification_date() {
    assert_eq!(get_human_readable_date(None), "modified date unknown");
    assert_eq!(get_human_readable_date(Some(0)), "1970-01-01 00:00:00");
}

#[test]
fn fields_are_cut_at_each_dash() {
    for text in ["", "-", "a", "a-b", "-a", "a-", "2020-01-01", "a--b", "---"] {
        let chars: Vec<char> = text.chars().collect();
        let found: Vec<String> =
            split_fields(&chars, '-').iter().map(|f| f.iter().collect()).collect();
        let expected: Vec<String> = text.split('-').map(|f| f.to_string()).collect();
        assert_eq!(found, expected, "{text:?}");
    }
}

#[test]
fn a_field_is_read_as_an_unsigned_number_is() {
    for text in ["", "+", "0", "00", "+0", "7", "+7", "++7", "7+", "4294967295", "4294967296", "04294967295", "99999999999999999999", "1a", "a1", " 1", "1 ", "١"] {
        let chars: Vec<char> = text.chars().collect();
        assert_eq!(parse_field(&chars, u32::MAX), text.parse::<u32>().ok(), "{text:?}");
        let small = text.parse::<u32>().ok().filter(|n| *n <= 12);
        assert_eq!(parse_field(&chars, 12), small, "{text:?}");
    }
}
