use docker_stats::rfc3339::{
    days_from_civil, parse_rfc3339_date, parse_rfc3339_offset, parse_rfc3339_second,
    parse_rfc3339_time, parse_rfc3339_unix_seconds, Fraction, Second, UnixSeconds,
};

fn whole(second: u32) -> Second {
    Second { whole: second, fraction: None }
}

#[test]
fn days_count_from_the_epoch() {
    assert_eq!(days_from_civil(1970, 1, 1), 0);
    assert_eq!(days_from_civil(1970, 1, 2), 1);
    assert_eq!(days_from_civil(1969, 12, 31), -1);
    assert_eq!(days_from_civil(2000, 2, 29), 11_016);
    assert_eq!(days_from_civil(2000, 3, 1), 11_017);
    assert_eq!(days_from_civil(2024, 5, 6), 19_849);
    assert_eq!(days_from_civil(1, 1, 1), -719_162);
    assert_eq!(days_from_civil(0, 3, 1), -719_468);
    assert_eq!(days_from_civil(-1, 12, 31), -719_529);
}

#[test]
fn days_follow_each_other_over_centuries() {
    let mut expected: i64 = days_from_civil(1896, 1, 1);
    for year in 1896..2105 {
        let leap = year % 4 == 0 && (year % 100 != 0 || year % 400 == 0);
        let lengths = [31, if leap { 29 } else { 28 }, 31, 30, 31, 30, 31, 31, 30, 31, 30, 31];
        for (index, length) in lengths.iter().enumerate() {
            for day in 1..=*length {
                assert_eq!(days_from_civil(year, index as u32 + 1, day), expected);
                expected += 1;
            }
        }
    }
}

#[test]
fn months_and_days_outside_the_calendar_are_counted_on() {
    assert_eq!(days_from_civil(2023, 13, 1), days_from_civil(2024, 1, 1));
    assert_eq!(days_from_civil(2023, 1, 0), days_from_civil(2022, 12, 31));
    assert_eq!(days_from_civil(i32::MIN, 0, 0), -784_353_015_865);
    assert_eq!(days_from_civil(i32::MAX, 12, 31), 784_351_576_776);
}

#[test]
fn dates_are_read() {
    assert_eq!(parse_rfc3339_date("2024-05-06"), Some((2024, 5, 6)));
    assert_eq!(parse_rfc3339_date("0001-01-01"), Some((1, 1, 1)));
    assert_eq!(parse_rfc3339_date("+2024-+5-6"), Some((2024, 5, 6)));
    assert_eq!(parse_rfc3339_date("2024-99-0"), Some((2024, 99, 0)));
    assert_eq!(parse_rfc3339_date("2024-05"), None);
    assert_eq!(parse_rfc3339_date("2024-05-06-07"), None);
    assert_eq!(parse_rfc3339_date("2024--06"), None);
    assert_eq!(parse_rfc3339_date("-2024-05-06"), None);
    assert_eq!(parse_rfc3339_date("2147483648-05-06"), None);
    assert_eq!(parse_rfc3339_date("2024-4294967296-06"), None);
    assert_eq!(parse_rfc3339_date(""), None);
    assert_eq!(parse_rfc3339_date("2024-05-0x"), None);
    assert_eq!(parse_rfc3339_date("2024-05-٣"), None);
}

#[test]
fn offsets_are_read() {
    assert_eq!(parse_rfc3339_offset("07:08:09Z"), Some(("07:08:09".to_string(), 0)));
    assert_eq!(parse_rfc3339_offset("Z"), Some((String::new(), 0)));
    assert_eq!(parse_rfc3339_offset("07:08:09+01:30"), Some(("07:08:09".to_string(), 5_400)));
    assert_eq!(parse_rfc3339_offset("07:08:09-01:30"), Some(("07:08:09".to_string(), -5_400)));
    assert_eq!(parse_rfc3339_offset("07-08+01:00"), Some(("07-08".to_string(), 3_600)));
    assert_eq!(parse_rfc3339_offset("1+2-01:00"), None);
    assert_eq!(parse_rfc3339_offset("07:08:09-02:-30"), None);
    assert_eq!(parse_rfc3339_offset("07:08:09+02:-30"), Some(("07:08:09".to_string(), 5_400)));
    assert_eq!(parse_rfc3339_offset("07:08:09"), None);
    assert_eq!(parse_rfc3339_offset("07:08:09+01"), None);
    assert_eq!(parse_rfc3339_offset("07:08:09+01:00:00"), None);
    assert_eq!(parse_rfc3339_offset("07:08:09z"), None);
    assert_eq!(parse_rfc3339_offset(""), None);
}

#[test]
fn seconds_are_read() {
    assert_eq!(parse_rfc3339_second("09"), Some(whole(9)));
    assert_eq!(parse_rfc3339_second("09."), Some(whole(9)));
    assert_eq!(parse_rfc3339_second("+9"), Some(whole(9)));
    assert_eq!(
        parse_rfc3339_second("09.050"),
        Some(Second { whole: 9, fraction: Some(Fraction { numerator: 50, digits: 3 }) })
    );
    assert_eq!(
        parse_rfc3339_second("59.999999999"),
        Some(Second { whole: 59, fraction: Some(Fraction { numerator: 999_999_999, digits: 9 }) })
    );
    assert_eq!(parse_rfc3339_second("59.4294967296"), None);
    assert_eq!(parse_rfc3339_second("9.+5"), None);
    assert_eq!(parse_rfc3339_second("9.5.5"), None);
    assert_eq!(parse_rfc3339_second(".5"), None);
    assert_eq!(parse_rfc3339_second(""), None);
    assert_eq!(parse_rfc3339_second("-1"), None);
}

#[test]
fn times_of_day_are_read() {
    assert_eq!(parse_rfc3339_time("07:08:09"), Some((7, 8, whole(9))));
    assert_eq!(parse_rfc3339_time("99:99:99"), Some((99, 99, whole(99))));
    assert_eq!(parse_rfc3339_time("07:08"), None);
    assert_eq!(parse_rfc3339_time("07:08:09:10"), None);
    assert_eq!(parse_rfc3339_time("07::09"), None);
}

#[test]
fn points_in_time_are_read() {
    assert_eq!(
        parse_rfc3339_unix_seconds("2024-05-06T07:08:09.123456789Z"),
        Some(UnixSeconds {
            seconds: 19_849 * 86_400 + 7 * 3_600 + 8 * 60,
            second: Second {
                whole: 9,
                fraction: Some(Fraction { numerator: 123_456_789, digits: 9 }),
            },
            offset_seconds: 0,
        })
    );
    assert_eq!(
        parse_rfc3339_unix_seconds("1970-01-01T01:00:00+01:00"),
        Some(UnixSeconds { seconds: 3_600, second: whole(0), offset_seconds: 3_600 })
    );
    assert_eq!(
        parse_rfc3339_unix_seconds("0001-01-01T00:00:00Z"),
        Some(UnixSeconds { seconds: -62_135_596_800, second: whole(0), offset_seconds: 0 })
    );
    assert_eq!(parse_rfc3339_unix_seconds("2024-05-06 07:08:09Z"), None);
    assert_eq!(parse_rfc3339_unix_seconds("2024-05-06T07:08:09"), None);
    assert_eq!(parse_rfc3339_unix_seconds("2024-05-06T07:08Z"), None);
    assert_eq!(parse_rfc3339_unix_seconds("2024-05T07:08:09Z"), None);
    assert_eq!(parse_rfc3339_unix_seconds("2024-05-06T07:08:09TZ"), None);
    assert_eq!(parse_rfc3339_unix_seconds(""), None);
}

#[test]
fn zulu_is_no_offset() {
    for value in ["2024-05-06T07:08:09", "2024-05-06T07:08:09.5", "noise", "T", ""] {
        assert_eq!(
            parse_rfc3339_unix_seconds(&format!("{value}Z")),
            parse_rfc3339_unix_seconds(&format!("{value}+00:00"))
        );
    }
}

#[test]
fn the_largest_numbers_do_not_overflow() {
    let point = parse_rfc3339_unix_seconds(
        "2147483647-4294967295-4294967295T4294967295:4294967295:4294967295+2147483647:2147483647",
    );
    let point = point.unwrap();
    assert_eq!(point.offset_seconds, 2_147_483_647 * 3_600 + 2_147_483_647 * 60);
    assert_eq!(point.second, whole(u32::MAX));
    assert_eq!(
        point.seconds,
        days_from_civil(i32::MAX, u32::MAX, u32::MAX) * 86_400 + 4_294_967_295 * 3_660
    );
}
