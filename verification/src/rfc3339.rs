//! Points in time as RFC 3339 writes them, read into seconds of Unix time.
//!
//! A point in time is kept in whole numbers: its date, hour and minute as seconds, its second with
//! a decimal fraction, and its offset from UTC. Their sum is formed by the caller.
use vstd::prelude::*;

use crate::text;

verus! {

/// The fraction `numerator / 10^digits`.
#[derive(Clone, Copy, Debug, PartialEq, Eq, Structural)]
pub struct Fraction {
    pub numerator: u32,
    pub digits: usize,
}

/// A second of a minute, with the fraction that follows it.
#[derive(Clone, Copy, Debug, PartialEq, Eq)]
pub struct Second {
    pub whole: u32,
    pub fraction: Option<Fraction>,
}

/// The point in time `seconds + second - offset_seconds` seconds after the Unix epoch.
#[derive(Clone, Copy, Debug, PartialEq, Eq)]
pub struct UnixSeconds {
    /// The date, the hour and the minute.
    pub seconds: i64,
    pub second: Second,
    /// How far local time is ahead of UTC.
    pub offset_seconds: i64,
}

// ---------------------------------------------------------------------------------------------
// The calendar
// ---------------------------------------------------------------------------------------------

/// Whether `year` of the Gregorian calendar has a 29th of February.
pub open spec fn is_leap_year(year: int) -> bool {
    year % 4 == 0 && (year % 100 != 0 || year % 400 == 0)
}

pub open spec fn days_in_month(year: int, month: int) -> int {
    if month == 2 {
        if is_leap_year(year) {
            29
        } else {
            28
        }
    } else if month == 4 || month == 6 || month == 9 || month == 11 {
        30
    } else {
        31
    }
}

/// The days of `year` before the first of `month`.
pub open spec fn days_before_month(year: int, month: int) -> int
    decreases month,
{
    if month <= 1 {
        0
    } else {
        days_before_month(year, month - 1) + days_in_month(year, month - 1)
    }
}

/// The days from the first of January of the year 1 to that of `year`.
pub open spec fn days_before_year(year: int) -> int {
    365 * (year - 1) + (year - 1) / 4 - (year - 1) / 100 + (year - 1) / 400
}

/// The days from the first of January 1970 to the given date of the Gregorian calendar.
pub open spec fn calendar_days(year: int, month: int, day: int) -> int {
    days_before_year(year) - days_before_year(1970) + days_before_month(year, month) + day - 1
}

/// The days from the first of January 1970, counted in years that begin in March: the month is
/// spread over 30.6 days each, so that the count goes on past December.
pub open spec fn march_calendar_days(year: int, month: int, day: int) -> int {
    let march_year = if month <= 2 {
        year - 1
    } else {
        year
    };
    let march_month = if month <= 2 {
        month + 9
    } else {
        month - 3
    };
    365 * march_year + march_year / 4 - march_year / 100 + march_year / 400 + (153 * march_month
        + 2) / 5 + day - 1 - 719_468
}

/// The days before a month, in a year with or without a 29th of February.
proof fn lemma_days_before_month(year: int, month: int)
    requires
        1 <= month <= 12,
    ensures
        month == 1 ==> days_before_month(year, month) == 0,
        month == 2 ==> days_before_month(year, month) == 31,
        month >= 3 ==> days_before_month(year, month) == (153 * (month - 3) + 2) / 5 + 59 + (
        if is_leap_year(year) {
            1int
        } else {
            0
        }),
    decreases month,
{
    if month > 1 {
        lemma_days_before_month(year, month - 1);
    }
}

/// A year is a day longer than 365 days where it has a 29th of February.
proof fn lemma_days_before_next_year(year: int)
    ensures
        days_before_year(year + 1) == days_before_year(year) + 365 + (if is_leap_year(year) {
            1int
        } else {
            0
        }),
{
    lemma_multiples(year, 4);
    lemma_multiples(year, 100);
    lemma_multiples(year, 400);
}

/// The number of multiples grows by one at each multiple.
proof fn lemma_multiples(year: int, step: int)
    requires
        step == 4 || step == 100 || step == 400,
    ensures
        year / step == (year - 1) / step + (if year % step == 0 {
            1int
        } else {
            0
        }),
{
}

/// The two ways to count agree on every month that the calendar has.
pub proof fn lemma_march_calendar(year: int, month: int, day: int)
    requires
        1 <= month <= 12,
    ensures
        march_calendar_days(year, month, day) == calendar_days(year, month, day),
{
    lemma_days_before_month(year, month);
    lemma_days_before_next_year(year);
}

/// The days since the Unix epoch at which a date begins, by the Gregorian calendar.
pub fn days_from_civil(year: i32, month: u32, day: u32) -> (days: i64)
    ensures
        days == march_calendar_days(year as int, month as int, day as int),
        1 <= month <= 12 ==> days == calendar_days(year as int, month as int, day as int),
{
    let year_start: i64 = if month <= 2 {
        1
    } else {
        0
    };
    let march_year: i64 = year as i64 - year_start;
    let era: i64 = if march_year >= 0 {
        march_year / 400
    } else {
        -((399 - march_year) / 400)
    };
    let year_of_era: i64 = march_year - era * 400;
    let march_month: i64 = if month > 2 {
        month as i64 - 3
    } else {
        month as i64 + 9
    };
    let day_of_year: i64 = (153 * march_month + 2) / 5 + day as i64 - 1;
    let day_of_era: i64 = year_of_era * 365 + year_of_era / 4 - year_of_era / 100 + day_of_year;
    proof {
        assert(era == march_year as int / 400);
        assert(0 <= year_of_era < 400);
        assert(march_year as int / 4 == 100 * era + year_of_era / 4);
        assert(march_year as int / 100 == 4 * era + year_of_era / 100);
        if 1 <= month <= 12 {
            lemma_march_calendar(year as int, month as int, day as int);
        }
    }
    era * 146_097 + day_of_era - 719_468
}

/// Every day of the calendar is one day after the day before it.
pub proof fn law_days_follow_each_other(year: int, month: int, day: int)
    requires
        1 <= month <= 12,
        1 <= day <= days_in_month(year, month),
    ensures
        day < days_in_month(year, month) ==> calendar_days(year, month, day + 1)
            == calendar_days(year, month, day) + 1,
        day == days_in_month(year, month) && month < 12 ==> calendar_days(year, month + 1, 1)
            == calendar_days(year, month, day) + 1,
        day == days_in_month(year, month) && month == 12 ==> calendar_days(year + 1, 1, 1)
            == calendar_days(year, month, day) + 1,
{
    lemma_days_before_month(year, month);
    lemma_days_before_next_year(year);
}

/// The first of January 1970 is day zero.
pub proof fn law_epoch_is_day_zero()
    ensures
        calendar_days(1970, 1, 1) == 0,
{
}

// ---------------------------------------------------------------------------------------------
// Reading
// ---------------------------------------------------------------------------------------------

/// The year, the month and the day that `value` spells, with `-` between them.
pub open spec fn read_date(value: Seq<char>) -> Option<(int, nat, nat)> {
    let parts = text::split_on(value, '-');
    if parts.len() == 3 {
        match (
            text::read_signed(parts[0]),
            text::read_unsigned(parts[1], u32::MAX as nat),
            text::read_unsigned(parts[2], u32::MAX as nat),
        ) {
            (Some(year), Some(month), Some(day)) => Some((year, month, day)),
            _ => None,
        }
    } else {
        None
    }
}

/// Where the offset from UTC begins: at the last `+`, or else at the last `-`.
pub open spec fn offset_start(value: Seq<char>) -> Option<int> {
    match value.index_of_last('+') {
        Some(start) => Some(start),
        None => value.index_of_last('-'),
    }
}

/// The time of day in front of the offset from UTC, and that offset in seconds: `Z`, or a sign and
/// the hours and the minutes with `:` between them.
pub open spec fn read_offset(value: Seq<char>) -> Option<(Seq<char>, int)> {
    if value.len() > 0 && value.last() == 'Z' {
        Some((value.drop_last(), 0))
    } else {
        match offset_start(value) {
            None => None,
            Some(start) => {
                let parts = text::split_on(value.skip(start + 1), ':');
                if parts.len() == 2 {
                    match (text::read_signed(parts[0]), text::read_signed(parts[1])) {
                        (Some(hours), Some(minutes)) => {
                            let seconds = hours * 3_600 + minutes * 60;
                            Some(
                                (
                                    value.take(start),
                                    if value[start] == '-' {
                                        -seconds
                                    } else {
                                        seconds
                                    },
                                ),
                            )
                        },
                        _ => None,
                    }
                } else {
                    None
                }
            },
        }
    }
}

/// The second that `value` spells: a whole number, and after a `.` the digits of a fraction.
pub open spec fn read_second(value: Seq<char>) -> Option<Second> {
    let (whole, fraction) = match value.index_of_first('.') {
        Some(point) => (value.take(point), value.skip(point + 1)),
        None => (value, Seq::<char>::empty()),
    };
    match text::read_unsigned(whole, u32::MAX as nat) {
        None => None,
        Some(second) => if fraction.len() == 0 {
            Some(Second { whole: second as u32, fraction: None })
        } else {
            match text::read_digits(fraction, u32::MAX as nat) {
                None => None,
                Some(numerator) => Some(
                    Second {
                        whole: second as u32,
                        fraction: Some(
                            Fraction {
                                numerator: numerator as u32,
                                digits: fraction.len() as usize,
                            },
                        ),
                    },
                ),
            }
        },
    }
}

/// The hour, the minute and the second that `value` spells, with `:` between them.
pub open spec fn read_time(value: Seq<char>) -> Option<(nat, nat, Second)> {
    let parts = text::split_on(value, ':');
    if parts.len() == 3 {
        match (
            text::read_unsigned(parts[0], u32::MAX as nat),
            text::read_unsigned(parts[1], u32::MAX as nat),
            read_second(parts[2]),
        ) {
            (Some(hour), Some(minute), Some(second)) => Some((hour, minute, second)),
            _ => None,
        }
    } else {
        None
    }
}

/// The point in time that `value` spells: a date, a `T`, a time of day and an offset from UTC.
pub open spec fn read_unix_seconds(value: Seq<char>) -> Option<UnixSeconds> {
    match value.index_of_first('T') {
        None => None,
        Some(middle) => match (read_date(value.take(middle)), read_offset(value.skip(middle + 1))) {
            (Some((year, month, day)), Some((time, offset))) => match read_time(time) {
                Some((hour, minute, second)) => Some(
                    UnixSeconds {
                        seconds: (march_calendar_days(year, month as int, day as int) * 86_400
                            + hour * 3_600 + minute * 60) as i64,
                        second,
                        offset_seconds: offset as i64,
                    },
                ),
                None => None,
            },
            _ => None,
        },
    }
}

/// Reads a date: the year, the month and the day. Neither month nor day is held to the calendar.
pub fn parse_rfc3339_date(value: &str) -> (date: Option<(i32, u32, u32)>)
    ensures
        match date {
            Some((year, month, day)) => read_date(value@) == Some(
                (year as int, month as nat, day as nat),
            ),
            None => read_date(value@) is None,
        },
{
    let chars = text::to_chars(value);
    let parts = text::split(chars.as_slice(), '-');
    if parts.len() != 3 {
        return None;
    }
    assert(text::parts_view(parts@)[0] == parts@[0]@);
    assert(text::parts_view(parts@)[1] == parts@[1]@);
    assert(text::parts_view(parts@)[2] == parts@[2]@);
    let year = text::parse_i32(parts[0].as_slice());
    let month = text::parse_u32(parts[1].as_slice());
    let day = text::parse_u32(parts[2].as_slice());
    match (year, month, day) {
        (Some(year), Some(month), Some(day)) => Some((year, month, day)),
        _ => None,
    }
}

/// Parts the time of day from the offset from UTC, and reads the latter as seconds.
pub fn parse_rfc3339_offset(value: &str) -> (parsed: Option<(String, i64)>)
    ensures
        match parsed {
            Some((time, offset)) => read_offset(value@) == Some((time@, offset as int)),
            None => read_offset(value@) is None,
        },
{
    let chars = text::to_chars(value);
    let all = chars.as_slice();
    let length: usize = all.len();
    if length > 0 && all[length - 1] == 'Z' {
        let time = vstd::slice::slice_subrange(all, 0, length - 1);
        assert(time@ =~= value@.drop_last());
        return Some((text::from_chars(time), 0));
    }
    let plus = text::find_last(all, '+');
    let start: usize = match plus {
        Some(start) => start,
        None => match text::find_last(all, '-') {
            Some(start) => start,
            None => {
                return None;
            },
        },
    };
    proof {
        value@.index_of_last_ensures('+');
        value@.index_of_last_ensures('-');
    }
    let time = vstd::slice::slice_subrange(all, 0, start);
    let offset = vstd::slice::slice_subrange(all, start + 1, length);
    assert(time@ =~= value@.take(start as int));
    assert(offset@ =~= value@.skip(start + 1));
    let parts = text::split(offset, ':');
    if parts.len() != 2 {
        return None;
    }
    assert(text::parts_view(parts@)[0] == parts@[0]@);
    assert(text::parts_view(parts@)[1] == parts@[1]@);
    let hours = text::parse_i32(parts[0].as_slice());
    let minutes = text::parse_i32(parts[1].as_slice());
    match (hours, minutes) {
        (Some(hours), Some(minutes)) => {
            let seconds: i64 = hours as i64 * 3_600 + minutes as i64 * 60;
            let offset_seconds: i64 = if all[start] == '-' {
                -seconds
            } else {
                seconds
            };
            Some((text::from_chars(time), offset_seconds))
        },
        _ => None,
    }
}

/// Reads a second with its fraction.
pub fn parse_rfc3339_second(value: &str) -> (second: Option<Second>)
    ensures
        second == read_second(value@),
{
    let chars = text::to_chars(value);
    let all = chars.as_slice();
    let length: usize = all.len();
    let point = text::find_first(all, '.');
    let whole_end: usize = match point {
        Some(point) => point,
        None => length,
    };
    let fraction_start: usize = match point {
        Some(point) => point + 1,
        None => length,
    };
    let whole = vstd::slice::slice_subrange(all, 0, whole_end);
    let fraction = vstd::slice::slice_subrange(all, fraction_start, length);
    proof {
        if point is Some {
            assert(whole@ =~= value@.take(whole_end as int));
            assert(fraction@ =~= value@.skip(whole_end + 1));
        } else {
            assert(whole@ =~= value@);
            assert(fraction@ =~= Seq::<char>::empty());
        }
    }
    let second = match text::parse_u32(whole) {
        Some(second) => second,
        None => {
            return None;
        },
    };
    if fraction.len() == 0 {
        return Some(Second { whole: second, fraction: None });
    }
    match text::parse_digits(fraction, u32::MAX) {
        Some(numerator) => Some(
            Second {
                whole: second,
                fraction: Some(Fraction { numerator, digits: fraction.len() }),
            },
        ),
        None => None,
    }
}

/// Reads a time of day: the hour, the minute and the second. None is held to the clock.
pub fn parse_rfc3339_time(value: &str) -> (time: Option<(u32, u32, Second)>)
    ensures
        match time {
            Some((hour, minute, second)) => read_time(value@) == Some(
                (hour as nat, minute as nat, second),
            ),
            None => read_time(value@) is None,
        },
{
    let chars = text::to_chars(value);
    let parts = text::split(chars.as_slice(), ':');
    if parts.len() != 3 {
        return None;
    }
    assert(text::parts_view(parts@)[0] == parts@[0]@);
    assert(text::parts_view(parts@)[1] == parts@[1]@);
    assert(text::parts_view(parts@)[2] == parts@[2]@);
    let hour = text::parse_u32(parts[0].as_slice());
    let minute = text::parse_u32(parts[1].as_slice());
    let second = parse_rfc3339_second(text::from_chars(parts[2].as_slice()).as_str());
    match (hour, minute, second) {
        (Some(hour), Some(minute), Some(second)) => Some((hour, minute, second)),
        _ => None,
    }
}

/// Reads a point in time.
pub fn parse_rfc3339_unix_seconds(value: &str) -> (seconds: Option<UnixSeconds>)
    ensures
        seconds == read_unix_seconds(value@),
{
    let chars = text::to_chars(value);
    let all = chars.as_slice();
    let middle: usize = match text::find_first(all, 'T') {
        Some(middle) => middle,
        None => {
            return None;
        },
    };
    let date = vstd::slice::slice_subrange(all, 0, middle);
    let length: usize = all.len();
    let rest = vstd::slice::slice_subrange(all, middle + 1, length);
    assert(date@ =~= value@.take(middle as int));
    assert(rest@ =~= value@.skip(middle + 1));
    let (year, month, day) = match parse_rfc3339_date(text::from_chars(date).as_str()) {
        Some(date) => date,
        None => {
            return None;
        },
    };
    let (time, offset_seconds) = match parse_rfc3339_offset(text::from_chars(rest).as_str()) {
        Some(parsed) => parsed,
        None => {
            return None;
        },
    };
    let (hour, minute, second) = match parse_rfc3339_time(time.as_str()) {
        Some(time) => time,
        None => {
            return None;
        },
    };
    let days = days_from_civil(year, month, day);
    let seconds: i64 = days * 86_400 + hour as i64 * 3_600 + minute as i64 * 60;
    Some(UnixSeconds { seconds, second, offset_seconds })
}

// ---------------------------------------------------------------------------------------------
// Laws
// ---------------------------------------------------------------------------------------------

/// Whether `text` is one or more digits that spell a number up to `max`.
pub open spec fn is_number(text: Seq<char>, max: nat) -> bool {
    text.len() > 0 && text::all_digits(text) && text::digits_value(text) <= max
}

/// The offsets `Z` and `+00:00` are the same.
pub proof fn law_zulu_is_no_offset(value: Seq<char>)
    ensures
        read_unix_seconds(value.push('Z')) == read_unix_seconds(value + "+00:00"@),
{
    reveal_strlit("+00:00");
    let zulu = value.push('Z');
    let offset = value + "+00:00"@;
    zulu.index_of_first_ensures('T');
    offset.index_of_first_ensures('T');
    value.index_of_first_ensures('T');
    if value.contains('T') {
        let middle = value.index_of_first('T')->0;
        assert(zulu[middle] == 'T' && offset[middle] == 'T');
        assert(zulu.contains(zulu[middle]) && offset.contains(offset[middle]));
        assert(zulu.index_of_first('T') == Some(middle)) by {
            let found = zulu.index_of_first('T')->0;
            if found < middle {
                assert(value[found] == zulu[found]);
            }
        }
        assert(offset.index_of_first('T') == Some(middle)) by {
            let found = offset.index_of_first('T')->0;
            if found < middle {
                assert(value[found] == offset[found]);
            }
        }
        assert(zulu.take(middle) =~= offset.take(middle));
        let time = value.skip(middle + 1);
        assert(zulu.skip(middle + 1) =~= time.push('Z'));
        assert(offset.skip(middle + 1) =~= time + "+00:00"@);
        assert(time.push('Z').drop_last() =~= time);
        lemma_no_offset(time);
    } else {
        if zulu.contains('T') {
            let i = choose|i: int| 0 <= i < zulu.len() && zulu[i] == 'T';
            assert(value[i] == 'T');
        }
        if offset.contains('T') {
            let i = choose|i: int| 0 <= i < offset.len() && offset[i] == 'T';
            assert(value[i] == 'T');
        }
    }
}

/// `+00:00` is no offset.
proof fn lemma_no_offset(time: Seq<char>)
    ensures
        read_offset(time + "+00:00"@) == Some((time, 0int)),
{
    reveal_strlit("+00:00");
    let value = time + "+00:00"@;
    let start = time.len() as int;
    value.index_of_last_ensures('+');
    assert(value[start] == '+');
    assert(value.contains(value[start]));
    let zeros = seq!['0', '0'];
    assert(value.skip(start + 1) =~= zeros.push(':') + zeros);
    text::lemma_first_part(zeros, ':', zeros);
    text::lemma_one_part(zeros, ':');
    let parts = text::split_on(value.skip(start + 1), ':');
    assert(parts =~= seq![zeros, zeros]);
    assert(text::digits_value(zeros) == 0) by {
        reveal_with_fuel(text::digits_value, 3);
        assert(zeros.drop_last().drop_last() =~= Seq::<char>::empty());
    }
    assert(text::read_signed(zeros) == Some(0int));
    assert(value.take(start) =~= time);
}

/// Digits hold no other character.
proof fn lemma_digits_hold_no(text: Seq<char>, character: char)
    requires
        text::all_digits(text),
        !text::is_digit(character),
    ensures
        !text.contains(character),
{
    if text.contains(character) {
        let i = choose|i: int| 0 <= i < text.len() && text[i] == character;
        assert(text::is_digit(text[i]));
    }
}

/// A date and a time of day that are written in digits are read: the date by the calendar, and the
/// fraction of the second with the digits that it has.
#[verifier::rlimit(30)]
#[verifier::spinoff_prover]
pub proof fn law_written_time_is_read(
    year: Seq<char>,
    month: Seq<char>,
    day: Seq<char>,
    hour: Seq<char>,
    minute: Seq<char>,
    second: Seq<char>,
    fraction: Seq<char>,
)
    requires
        is_number(year, i32::MAX as nat),
        is_number(month, 12),
        text::digits_value(month) >= 1,
        is_number(day, u32::MAX as nat),
        is_number(hour, u32::MAX as nat),
        is_number(minute, u32::MAX as nat),
        is_number(second, u32::MAX as nat),
        is_number(fraction, u32::MAX as nat),
    ensures
        read_unix_seconds(
            year.push('-') + month.push('-') + day.push('T') + hour.push(':') + minute.push(':')
                + second.push('.') + fraction.push('Z'),
        ) == Some(
            UnixSeconds {
                seconds: (calendar_days(
                    text::digits_value(year) as int,
                    text::digits_value(month) as int,
                    text::digits_value(day) as int,
                ) * 86_400 + text::digits_value(hour) * 3_600 + text::digits_value(minute)
                    * 60) as i64,
                second: Second {
                    whole: text::digits_value(second) as u32,
                    fraction: Some(
                        Fraction {
                            numerator: text::digits_value(fraction) as u32,
                            digits: fraction.len() as usize,
                        },
                    ),
                },
                offset_seconds: 0,
            },
        ),
{
    let value = year.push('-') + month.push('-') + day.push('T') + hour.push(':') + minute.push(':')
        + second.push('.') + fraction.push('Z');
    let date = year.push('-') + (month.push('-') + day);
    let time = hour.push(':') + (minute.push(':') + (second.push('.') + fraction));
    assert(value =~= date.push('T') + time.push('Z'));
    lemma_date_in_digits(year, month, day);
    lemma_second_in_digits(second, fraction);
    let seconds = second.push('.') + fraction;
    assert(!seconds.contains(':')) by {
        assert forall|i: int| 0 <= i < seconds.len() implies seconds[i] != ':' by {
            if i < second.len() {
                assert(text::is_digit(second[i]));
            } else if i > second.len() {
                assert(text::is_digit(fraction[i - second.len() - 1]));
            }
        }
    }
    lemma_time_in_digits(hour, minute, seconds);
    lemma_digits_hold_no(year, 'T');
    lemma_digits_hold_no(month, 'T');
    lemma_digits_hold_no(day, 'T');
    let middle = date.len() as int;
    assert forall|i: int| 0 <= i < middle implies value[i] != 'T' by {
        assert(value[i] == date[i]);
        if i < year.len() {
            assert(year.contains(year[i]));
        } else if year.len() < i < year.len() + 1 + month.len() {
            assert(date[i] == month[i - year.len() - 1]);
            assert(month.contains(month[i - year.len() - 1]));
        } else if i > year.len() + 1 + month.len() {
            assert(date[i] == day[i - year.len() - month.len() - 2]);
            assert(day.contains(day[i - year.len() - month.len() - 2]));
        }
    }
    value.index_of_first_ensures('T');
    assert(value[middle] == 'T');
    assert(value.contains(value[middle]));
    assert(value.index_of_first('T') == Some(middle));
    assert(value.take(middle) =~= date);
    assert(value.skip(middle + 1) =~= time.push('Z'));
    assert(time.push('Z').drop_last() =~= time);
    lemma_march_calendar(
        text::digits_value(year) as int,
        text::digits_value(month) as int,
        text::digits_value(day) as int,
    );
}

proof fn lemma_date_in_digits(year: Seq<char>, month: Seq<char>, day: Seq<char>)
    requires
        is_number(year, i32::MAX as nat),
        is_number(month, u32::MAX as nat),
        is_number(day, u32::MAX as nat),
    ensures
        read_date(year.push('-') + (month.push('-') + day)) == Some(
            (
                text::digits_value(year) as int,
                text::digits_value(month),
                text::digits_value(day),
            ),
        ),
{
    lemma_digits_hold_no(year, '-');
    lemma_digits_hold_no(month, '-');
    lemma_digits_hold_no(day, '-');
    text::lemma_first_part(year, '-', month.push('-') + day);
    text::lemma_first_part(month, '-', day);
    text::lemma_one_part(day, '-');
    assert(text::split_on(year.push('-') + (month.push('-') + day), '-') =~= seq![
        year,
        month,
        day,
    ]);
    assert(text::is_digit(year[0]) && text::is_digit(month[0]) && text::is_digit(day[0]));
}

proof fn lemma_second_in_digits(second: Seq<char>, fraction: Seq<char>)
    requires
        is_number(second, u32::MAX as nat),
        is_number(fraction, u32::MAX as nat),
    ensures
        read_second(second.push('.') + fraction) == Some(
            Second {
                whole: text::digits_value(second) as u32,
                fraction: Some(
                    Fraction {
                        numerator: text::digits_value(fraction) as u32,
                        digits: fraction.len() as usize,
                    },
                ),
            },
        ),
{
    let value = second.push('.') + fraction;
    let point = second.len() as int;
    assert forall|i: int| 0 <= i < point implies value[i] != '.' by {
        assert(text::is_digit(second[i]));
    }
    value.index_of_first_ensures('.');
    assert(value[point] == '.');
    assert(value.contains(value[point]));
    assert(value.take(point) =~= second);
    assert(value.skip(point + 1) =~= fraction);
    assert(text::is_digit(second[0]));
}

proof fn lemma_time_in_digits(hour: Seq<char>, minute: Seq<char>, second: Seq<char>)
    requires
        is_number(hour, u32::MAX as nat),
        is_number(minute, u32::MAX as nat),
        !second.contains(':'),
        read_second(second) is Some,
    ensures
        read_time(hour.push(':') + (minute.push(':') + second)) == Some(
            (text::digits_value(hour), text::digits_value(minute), read_second(second)->0),
        ),
{
    lemma_digits_hold_no(hour, ':');
    lemma_digits_hold_no(minute, ':');
    text::lemma_first_part(hour, ':', minute.push(':') + second);
    text::lemma_first_part(minute, ':', second);
    text::lemma_one_part(second, ':');
    assert(text::split_on(hour.push(':') + (minute.push(':') + second), ':') =~= seq![
        hour,
        minute,
        second,
    ]);
    assert(text::is_digit(hour[0]) && text::is_digit(minute[0]));
}

/// Days are counted on from the first of January 1970, and four hundred years are 146097 days,
/// whatever the month and the day.
pub proof fn law_days_are_counted_on(year: int, month: int, day: int, more: int)
    ensures
        march_calendar_days(1970, 1, 1) == 0,
        march_calendar_days(year, month, day + more) == march_calendar_days(year, month, day)
            + more,
        march_calendar_days(year + 400, month, day) == march_calendar_days(year, month, day)
            + 146_097,
{
    let march_year = if month <= 2 {
        year - 1
    } else {
        year
    };
    lemma_four_hundred_years(march_year);
}

proof fn lemma_four_hundred_years(year: int)
    ensures
        (year + 400) / 4 == year / 4 + 100,
        (year + 400) / 100 == year / 100 + 4,
        (year + 400) / 400 == year / 400 + 1,
{
}

/// The months have the lengths that the Gregorian calendar gives them: from the first of each to
/// the first of the next. February has a 29th day in the years that are multiples of four, but of
/// the multiples of a hundred only in those of four hundred.
pub proof fn law_length_of_months(year: int)
    ensures
        march_calendar_days(year, 2, 1) - march_calendar_days(year, 1, 1) == 31,
        march_calendar_days(year, 3, 1) - march_calendar_days(year, 2, 1) == 29 <==> year % 4 == 0
            && (year % 100 != 0 || year % 400 == 0),
        march_calendar_days(year, 3, 1) - march_calendar_days(year, 2, 1) == 28 <==> !(year % 4
            == 0 && (year % 100 != 0 || year % 400 == 0)),
        march_calendar_days(year, 4, 1) - march_calendar_days(year, 3, 1) == 31,
        march_calendar_days(year, 5, 1) - march_calendar_days(year, 4, 1) == 30,
        march_calendar_days(year, 6, 1) - march_calendar_days(year, 5, 1) == 31,
        march_calendar_days(year, 7, 1) - march_calendar_days(year, 6, 1) == 30,
        march_calendar_days(year, 8, 1) - march_calendar_days(year, 7, 1) == 31,
        march_calendar_days(year, 9, 1) - march_calendar_days(year, 8, 1) == 31,
        march_calendar_days(year, 10, 1) - march_calendar_days(year, 9, 1) == 30,
        march_calendar_days(year, 11, 1) - march_calendar_days(year, 10, 1) == 31,
        march_calendar_days(year, 12, 1) - march_calendar_days(year, 11, 1) == 30,
        march_calendar_days(year + 1, 1, 1) - march_calendar_days(year, 12, 1) == 31,
{
    lemma_multiples(year, 4);
    lemma_multiples(year, 100);
    lemma_multiples(year, 400);
}

/// A month outside the calendar is counted on: month zero is the December before, the two months
/// past December are those of the next year, and from March on any five months are 153 days.
pub proof fn law_months_outside_the_calendar(year: int, month: int, day: int)
    ensures
        march_calendar_days(year, 0, day) == march_calendar_days(year - 1, 12, day),
        march_calendar_days(year, 13, day) == march_calendar_days(year + 1, 1, day),
        march_calendar_days(year, 14, day) == march_calendar_days(year + 1, 2, day),
        month >= 3 ==> march_calendar_days(year, month + 5, day) == march_calendar_days(
            year,
            month,
            day,
        ) + 153,
{
    assert((153 * (month - 3 + 5) + 2) / 5 == (153 * (month - 3) + 2) / 5 + 153);
}

/// A second that is written in digits is read as the number that they spell, and the digits behind
/// a point as its fraction; a point without digits adds nothing.
pub proof fn law_second_is_read(whole: Seq<char>, fraction: Seq<char>)
    requires
        is_number(whole, u32::MAX as nat),
    ensures
        read_second(whole) is Some,
        read_second(whole)->0.whole == text::digits_value(whole),
        read_second(whole)->0.fraction is None,
        read_second(whole.push('.')) == read_second(whole),
        is_number(fraction, u32::MAX as nat) ==> {
            let second = read_second(whole.push('.') + fraction);
            &&& second is Some
            &&& second->0.whole == text::digits_value(whole)
            &&& second->0.fraction is Some
            &&& second->0.fraction->0.numerator == text::digits_value(fraction)
            &&& fraction.len() <= usize::MAX ==> second->0.fraction->0.digits == fraction.len()
        },
{
    lemma_digits_hold_no(whole, '.');
    whole.index_of_first_ensures('.');
    assert(text::is_digit(whole[0]));
    let pointed = whole.push('.');
    let point = whole.len() as int;
    assert forall|i: int| 0 <= i < point implies pointed[i] != '.' by {
        assert(text::is_digit(whole[i]));
    }
    pointed.index_of_first_ensures('.');
    assert(pointed[point] == '.');
    assert(pointed.contains(pointed[point]));
    assert(pointed.take(point) =~= whole);
    assert(pointed.skip(point + 1) =~= Seq::<char>::empty());
    if is_number(fraction, u32::MAX as nat) {
        lemma_second_in_digits(whole, fraction);
    }
}

/// A second that can be read is a number, and behind a point, if it has one, nothing or digits.
pub proof fn law_only_seconds_are_read(value: Seq<char>)
    requires
        read_second(value) is Some,
    ensures
        value.contains('.') ==> exists|point: int| #[trigger]
            value.take(point).len() == point && 0 <= point < value.len() && value[point] == '.'
                && text::read_unsigned(value.take(point), u32::MAX as nat) == Some(
                read_second(value)->0.whole as nat,
            ) && forall|i: int|
                point < i < value.len() ==> '0' <= #[trigger] value[i] && value[i] <= '9',
        !value.contains('.') ==> text::read_unsigned(value, u32::MAX as nat) == Some(
            read_second(value)->0.whole as nat,
        ),
{
    value.index_of_first_ensures('.');
    if value.contains('.') {
        let point = value.index_of_first('.')->0;
        let fraction = value.skip(point + 1);
        assert(value.take(point).len() == point);
        assert forall|i: int| point < i < value.len() implies '0' <= #[trigger] value[i] && value[i]
            <= '9' by {
            assert(value[i] == fraction[i - point - 1]);
            assert(text::all_digits(fraction));
            assert(text::is_digit(fraction[i - point - 1]));
        }
    }
}

/// An offset from UTC in digits is parted from the time in front of it: the last plus sign begins
/// it, or the last minus sign where there is no plus sign.
proof fn lemma_offset_in_digits(time: Seq<char>, hours: Seq<char>, minutes: Seq<char>)
    requires
        is_number(hours, i32::MAX as nat),
        is_number(minutes, i32::MAX as nat),
    ensures
        read_offset(time.push('+') + (hours.push(':') + minutes)) == Some(
            (time, text::digits_value(hours) * 3_600 + text::digits_value(minutes) * 60 as int),
        ),
        !time.contains('+') ==> read_offset(time.push('-') + (hours.push(':') + minutes)) == Some(
            (time, -(text::digits_value(hours) * 3_600 + text::digits_value(minutes) * 60)),
        ),
{
    let offset = hours.push(':') + minutes;
    let start = time.len() as int;
    lemma_digits_hold_no(hours, ':');
    lemma_digits_hold_no(minutes, ':');
    text::lemma_first_part(hours, ':', minutes);
    text::lemma_one_part(minutes, ':');
    assert(text::split_on(offset, ':') =~= seq![hours, minutes]);
    assert(text::is_digit(hours[0]) && text::is_digit(minutes[0]));
    assert(text::read_signed(hours) == Some(text::digits_value(hours) as int));
    assert(text::read_signed(minutes) == Some(text::digits_value(minutes) as int));
    assert forall|i: int| 0 <= i < offset.len() implies offset[i] != '+' && offset[i] != '-'
        && offset[i] != 'Z' by {
        if i < hours.len() {
            assert(text::is_digit(hours[i]));
        } else if i > hours.len() {
            assert(text::is_digit(minutes[i - hours.len() - 1]));
        }
    }
    let plus = time.push('+') + offset;
    plus.index_of_last_ensures('+');
    assert(plus[start] == '+');
    assert(plus.contains(plus[start]));
    assert(plus.index_of_last('+') == Some(start)) by {
        let found = plus.index_of_last('+')->0;
        if found > start {
            assert(plus[found] == offset[found - start - 1]);
        }
    }
    assert(plus.last() == offset[offset.len() - 1]);
    assert(plus.skip(start + 1) =~= offset);
    assert(plus.take(start) =~= time);
    if !time.contains('+') {
        let minus = time.push('-') + offset;
        minus.index_of_last_ensures('+');
        minus.index_of_last_ensures('-');
        assert forall|i: int| 0 <= i < minus.len() implies minus[i] != '+' by {
            if i < start {
                assert(time.contains(time[i]));
            } else if i > start {
                assert(minus[i] == offset[i - start - 1]);
            }
        }
        assert(!minus.contains('+'));
        assert(minus[start] == '-');
        assert(minus.contains(minus[start]));
        assert(minus.index_of_last('-') == Some(start)) by {
            let found = minus.index_of_last('-')->0;
            if found > start {
                assert(minus[found] == offset[found - start - 1]);
            }
        }
        assert(minus.last() == offset[offset.len() - 1]);
        assert(minus.skip(start + 1) =~= offset);
        assert(minus.take(start) =~= time);
    }
}

/// What stands behind a date without a `T`, and the `T`, is the time with its offset.
proof fn lemma_date_ends_at_the_letter(date: Seq<char>, rest: Seq<char>)
    requires
        !date.contains('T'),
    ensures
        (date.push('T') + rest).index_of_first('T') == Some(date.len() as int),
        (date.push('T') + rest).take(date.len() as int) == date,
        (date.push('T') + rest).skip(date.len() as int + 1) == rest,
{
    let value = date.push('T') + rest;
    let middle = date.len() as int;
    assert forall|i: int| 0 <= i < middle implies value[i] != 'T' by {
        assert(value[i] == date[i]);
        assert(date.contains(date[i]));
    }
    value.index_of_first_ensures('T');
    assert(value[middle] == 'T');
    assert(value.contains(value[middle]));
    assert(value.take(middle) =~= date);
    assert(value.skip(middle + 1) =~= rest);
}

/// The offset moves the point in time and nothing else. What is read with `+hh:mm` in the place of
/// `Z` has an offset of as many seconds, so that it lies that long before what is read with `Z`;
/// with `-hh:mm` it has the opposite offset and lies that long after it. One of them can be read
/// exactly where the others can. (The time of day has no plus sign where a minus sign follows.)
pub proof fn law_offset_moves_the_time(
    date: Seq<char>,
    time: Seq<char>,
    hours: Seq<char>,
    minutes: Seq<char>,
)
    requires
        !date.contains('T'),
        is_number(hours, i32::MAX as nat),
        is_number(minutes, i32::MAX as nat),
    ensures
        ({
            let at_utc = read_unix_seconds(date.push('T') + time.push('Z'));
            let ahead = read_unix_seconds(
                date.push('T') + (time.push('+') + (hours.push(':') + minutes)),
            );
            let behind = read_unix_seconds(
                date.push('T') + (time.push('-') + (hours.push(':') + minutes)),
            );
            let seconds = text::digits_value(hours) * 3_600 + text::digits_value(minutes) * 60;
            &&& at_utc is Some ==> at_utc->0.offset_seconds == 0
            &&& at_utc is Some <==> ahead is Some
            &&& at_utc is Some ==> ahead->0.offset_seconds == seconds && ahead->0.seconds
                == at_utc->0.seconds && ahead->0.second == at_utc->0.second
            &&& !time.contains('+') ==> (at_utc is Some <==> behind is Some)
            &&& !time.contains('+') && at_utc is Some ==> behind->0.offset_seconds == -seconds
                && behind->0.seconds == at_utc->0.seconds && behind->0.second
                == at_utc->0.second
        }),
{
    lemma_offset_in_digits(time, hours, minutes);
    lemma_date_ends_at_the_letter(date, time.push('Z'));
    lemma_date_ends_at_the_letter(date, time.push('+') + (hours.push(':') + minutes));
    lemma_date_ends_at_the_letter(date, time.push('-') + (hours.push(':') + minutes));
    assert(time.push('Z').drop_last() =~= time);
    assert(read_offset(time.push('Z')) == Some((time, 0int)));
}

/// A date and a time of day without a fraction are read from their digits.
pub proof fn law_written_time_without_fraction_is_read(
    year: Seq<char>,
    month: Seq<char>,
    day: Seq<char>,
    hour: Seq<char>,
    minute: Seq<char>,
    second: Seq<char>,
)
    requires
        is_number(year, i32::MAX as nat),
        is_number(month, u32::MAX as nat),
        is_number(day, u32::MAX as nat),
        is_number(hour, u32::MAX as nat),
        is_number(minute, u32::MAX as nat),
        is_number(second, u32::MAX as nat),
    ensures
        ({
            let date = year.push('-') + (month.push('-') + day);
            let time = hour.push(':') + (minute.push(':') + second);
            let read = read_unix_seconds(date.push('T') + time.push('Z'));
            &&& read is Some
            &&& read->0.seconds == march_calendar_days(
                text::digits_value(year) as int,
                text::digits_value(month) as int,
                text::digits_value(day) as int,
            ) * 86_400 + text::digits_value(hour) * 3_600 + text::digits_value(minute) * 60
            &&& read->0.second.whole == text::digits_value(second)
            &&& read->0.second.fraction is None
            &&& read->0.offset_seconds == 0
        }),
{
    let date = year.push('-') + (month.push('-') + day);
    let time = hour.push(':') + (minute.push(':') + second);
    lemma_date_in_digits(year, month, day);
    law_second_is_read(second, second);
    lemma_digits_hold_no(second, ':');
    lemma_time_in_digits(hour, minute, second);
    assert(!date.contains('T')) by {
        assert forall|i: int| 0 <= i < date.len() implies date[i] != 'T' by {
            if i < year.len() {
                assert(text::is_digit(year[i]));
            } else if year.len() < i < year.len() + 1 + month.len() {
                assert(date[i] == month[i - year.len() - 1]);
                assert(text::is_digit(month[i - year.len() - 1]));
            } else if i > year.len() + 1 + month.len() {
                assert(date[i] == day[i - year.len() - month.len() - 2]);
                assert(text::is_digit(day[i - year.len() - month.len() - 2]));
            }
        }
    }
    lemma_date_ends_at_the_letter(date, time.push('Z'));
    assert(time.push('Z').drop_last() =~= time);
    assert(read_offset(time.push('Z')) == Some((time, 0int)));
    lemma_seconds_fit(
        text::digits_value(year) as int,
        text::digits_value(month) as int,
        text::digits_value(day) as int,
        text::digits_value(hour) as int,
        text::digits_value(minute) as int,
    );
}

/// The seconds up to a minute are a number of 64 bits.
proof fn lemma_seconds_fit(year: int, month: int, day: int, hour: int, minute: int)
    requires
        i32::MIN <= year <= i32::MAX,
        0 <= month <= u32::MAX,
        0 <= day <= u32::MAX,
        0 <= hour <= u32::MAX,
        0 <= minute <= u32::MAX,
    ensures
        i64::MIN <= march_calendar_days(year, month, day) * 86_400 + hour * 3_600 + minute * 60
            <= i64::MAX,
{
}

/// Whatever is read has the form of a point in time: a year, a month and a day with `-` between
/// them, a `T`, an hour, a minute and a second with `:` between them, and `Z` or an offset. What is
/// read is what the parts spell: the date, the hour and the minute as seconds, the second, and the
/// offset with its sign.
pub proof fn law_what_is_read_has_its_form(value: Seq<char>) -> (parts: (
    Seq<Seq<char>>,
    Seq<Seq<char>>,
    Seq<char>,
))
    requires
        read_unix_seconds(value) is Some,
    ensures
        parts.0.len() == 3,
        parts.1.len() == 3,
        value == parts.0[0].push('-') + parts.0[1].push('-') + parts.0[2].push('T')
            + parts.1[0].push(':') + parts.1[1].push(':') + parts.1[2] + parts.2,
        text::read_signed(parts.0[0]) is Some,
        text::read_unsigned(parts.0[1], u32::MAX as nat) is Some,
        text::read_unsigned(parts.0[2], u32::MAX as nat) is Some,
        text::read_unsigned(parts.1[0], u32::MAX as nat) is Some,
        text::read_unsigned(parts.1[1], u32::MAX as nat) is Some,
        read_unix_seconds(value)->0.seconds == march_calendar_days(
            text::read_signed(parts.0[0])->0,
            text::read_unsigned(parts.0[1], u32::MAX as nat)->0 as int,
            text::read_unsigned(parts.0[2], u32::MAX as nat)->0 as int,
        ) * 86_400 + text::read_unsigned(parts.1[0], u32::MAX as nat)->0 * 3_600
            + text::read_unsigned(parts.1[1], u32::MAX as nat)->0 * 60,
        read_second(parts.1[2]) == Some(read_unix_seconds(value)->0.second),
        parts.2.len() > 0,
        parts.2[0] == 'Z' || parts.2[0] == '+' || parts.2[0] == '-',
        parts.2[0] == 'Z' ==> parts.2.len() == 1 && read_unix_seconds(value)->0.offset_seconds == 0,
        parts.2[0] != 'Z' ==> ({
            let numbers = text::split_on(parts.2.skip(1), ':');
            &&& numbers.len() == 2
            &&& text::read_signed(numbers[0]) is Some
            &&& text::read_signed(numbers[1]) is Some
            &&& read_unix_seconds(value)->0.offset_seconds == if parts.2[0] == '-' {
                -(text::read_signed(numbers[0])->0 * 3_600 + text::read_signed(numbers[1])->0 * 60)
            } else {
                text::read_signed(numbers[0])->0 * 3_600 + text::read_signed(numbers[1])->0 * 60
            }
        }),
{
    value.index_of_first_ensures('T');
    let middle = value.index_of_first('T')->0;
    let date = value.take(middle);
    let rest = value.skip(middle + 1);
    let dates = text::split_on(date, '-');
    lemma_three_parts(date, '-');
    let zone = lemma_offset_form(rest);
    let time = (read_offset(rest)->0).0;
    let times = text::split_on(time, ':');
    lemma_three_parts(time, ':');
    lemma_form(value, middle, dates, times, zone);
    lemma_signed_fits(dates[0]);
    lemma_seconds_fit(
        text::read_signed(dates[0])->0,
        text::read_unsigned(dates[1], u32::MAX as nat)->0 as int,
        text::read_unsigned(dates[2], u32::MAX as nat)->0 as int,
        text::read_unsigned(times[0], u32::MAX as nat)->0 as int,
        text::read_unsigned(times[1], u32::MAX as nat)->0 as int,
    );
    (dates, times, zone)
}

/// The parts stand one behind the other.
proof fn lemma_form(
    value: Seq<char>,
    middle: int,
    dates: Seq<Seq<char>>,
    times: Seq<Seq<char>>,
    zone: Seq<char>,
)
    requires
        0 <= middle < value.len(),
        value[middle] == 'T',
        value.take(middle) == dates[0].push('-') + dates[1].push('-') + dates[2],
        value.skip(middle + 1) == (times[0].push(':') + times[1].push(':') + times[2]) + zone,
    ensures
        value == dates[0].push('-') + dates[1].push('-') + dates[2].push('T') + times[0].push(':')
            + times[1].push(':') + times[2] + zone,
{
    assert(value =~= value.take(middle).push('T') + value.skip(middle + 1));
    assert(value =~= dates[0].push('-') + dates[1].push('-') + dates[2].push('T') + times[0].push(
        ':',
    ) + times[1].push(':') + times[2] + zone);
}

/// The offset that is read is what stands behind the time.
proof fn lemma_offset_form(rest: Seq<char>) -> (zone: Seq<char>)
    requires
        read_offset(rest) is Some,
    ensures
        rest == (read_offset(rest)->0).0 + zone,
        zone.len() > 0,
        zone[0] == 'Z' || zone[0] == '+' || zone[0] == '-',
        zone[0] == 'Z' ==> zone.len() == 1 && (read_offset(rest)->0).1 == 0,
        zone[0] != 'Z' ==> ({
            let numbers = text::split_on(zone.skip(1), ':');
            &&& numbers.len() == 2
            &&& text::read_signed(numbers[0]) is Some
            &&& text::read_signed(numbers[1]) is Some
            &&& (read_offset(rest)->0).1 == if zone[0] == '-' {
                -(text::read_signed(numbers[0])->0 * 3_600 + text::read_signed(numbers[1])->0 * 60)
            } else {
                text::read_signed(numbers[0])->0 * 3_600 + text::read_signed(numbers[1])->0 * 60
            }
        }),
        i64::MIN <= (read_offset(rest)->0).1 <= i64::MAX,
{
    rest.index_of_last_ensures('+');
    rest.index_of_last_ensures('-');
    if rest.last() == 'Z' {
        assert(rest =~= rest.drop_last() + seq!['Z']);
        seq!['Z']
    } else {
        let start = offset_start(rest)->0;
        let zone = rest.skip(start);
        assert(rest =~= rest.take(start) + zone);
        assert(zone.skip(1) =~= rest.skip(start + 1));
        let numbers = text::split_on(zone.skip(1), ':');
        lemma_signed_fits(numbers[0]);
        lemma_signed_fits(numbers[1]);
        zone
    }
}

/// A text of three parts is these with the separator between them.
proof fn lemma_three_parts(text: Seq<char>, separator: char)
    ensures
        text::split_on(text, separator).len() == 3 ==> text == text::split_on(
            text,
            separator,
        )[0].push(separator) + text::split_on(text, separator)[1].push(separator)
            + text::split_on(text, separator)[2],
{
    text::law_parts_make_up_the_text(text, separator);
    let parts = text::split_on(text, separator);
    if parts.len() == 3 {
        let two = parts.drop_last();
        let one = two.drop_last();
        assert(text::rejoined(one, separator) == parts[0]);
        assert(text::rejoined(two, separator) == text::rejoined(one, separator).push(separator)
            + parts[1]);
        assert(text::rejoined(parts, separator) == text::rejoined(two, separator).push(separator)
            + parts[2]);
        assert(text =~= parts[0].push(separator) + parts[1].push(separator) + parts[2]);
    }
}

/// A signed number that is read has 32 bits.
proof fn lemma_signed_fits(text: Seq<char>)
    ensures
        text::read_signed(text) is Some ==> i32::MIN <= text::read_signed(text)->0 <= i32::MAX,
{
}

/// A text that is read as a number holds digits and a sign alone.
proof fn lemma_numbers_hold_no(text: Seq<char>, character: char)
    requires
        !text::is_digit(character),
        character != '+',
    ensures
        text::read_unsigned(text, u32::MAX as nat) is Some ==> !text.contains(character),
        text::read_signed(text) is Some && (character != '-' || text[0] != '-') ==> !text.contains(
            character,
        ),
{
    text::law_only_digits_are_read(text, u32::MAX as nat);
    if text.contains(character) {
        let i = choose|i: int| 0 <= i < text.len() && text[i] == character;
        if i > 0 {
            assert(text::is_digit(text[i]) || !('0' <= text[i] && text[i] <= '9'));
        }
    }
}

/// Any numbers that can be read make a point in time: none is held to the calendar or to the clock.
/// (A year in front of a `-` has no minus sign.)
pub proof fn law_any_numbers_make_a_time(
    year: Seq<char>,
    month: Seq<char>,
    day: Seq<char>,
    hour: Seq<char>,
    minute: Seq<char>,
    second: Seq<char>,
)
    requires
        text::read_signed(year) is Some,
        year[0] != '-',
        text::read_unsigned(month, u32::MAX as nat) is Some,
        text::read_unsigned(day, u32::MAX as nat) is Some,
        text::read_unsigned(hour, u32::MAX as nat) is Some,
        text::read_unsigned(minute, u32::MAX as nat) is Some,
        read_second(second) is Some,
    ensures
        ({
            let date = year.push('-') + (month.push('-') + day);
            let time = hour.push(':') + (minute.push(':') + second);
            let read = read_unix_seconds(date.push('T') + time.push('Z'));
            &&& read is Some
            &&& read->0.seconds == march_calendar_days(
                text::read_signed(year)->0,
                text::read_unsigned(month, u32::MAX as nat)->0 as int,
                text::read_unsigned(day, u32::MAX as nat)->0 as int,
            ) * 86_400 + text::read_unsigned(hour, u32::MAX as nat)->0 * 3_600
                + text::read_unsigned(minute, u32::MAX as nat)->0 * 60
            &&& read->0.second == read_second(second)->0
            &&& read->0.offset_seconds == 0
        }),
{
    let date = year.push('-') + (month.push('-') + day);
    let time = hour.push(':') + (minute.push(':') + second);
    lemma_any_date(year, month, day);
    lemma_any_time(hour, minute, second);
    lemma_date_ends_at_the_letter(date, time.push('Z'));
    assert(time.push('Z').drop_last() =~= time);
    assert(read_offset(time.push('Z')) == Some((time, 0int)));
    lemma_signed_fits(year);
    lemma_seconds_fit(
        text::read_signed(year)->0,
        text::read_unsigned(month, u32::MAX as nat)->0 as int,
        text::read_unsigned(day, u32::MAX as nat)->0 as int,
        text::read_unsigned(hour, u32::MAX as nat)->0 as int,
        text::read_unsigned(minute, u32::MAX as nat)->0 as int,
    );
}

proof fn lemma_any_date(year: Seq<char>, month: Seq<char>, day: Seq<char>)
    requires
        text::read_signed(year) is Some,
        year[0] != '-',
        text::read_unsigned(month, u32::MAX as nat) is Some,
        text::read_unsigned(day, u32::MAX as nat) is Some,
    ensures
        !(year.push('-') + (month.push('-') + day)).contains('T'),
        read_date(year.push('-') + (month.push('-') + day)) == Some(
            (
                text::read_signed(year)->0,
                text::read_unsigned(month, u32::MAX as nat)->0,
                text::read_unsigned(day, u32::MAX as nat)->0,
            ),
        ),
{
    let date = year.push('-') + (month.push('-') + day);
    lemma_numbers_hold_no(year, '-');
    lemma_numbers_hold_no(month, '-');
    lemma_numbers_hold_no(day, '-');
    lemma_numbers_hold_no(year, 'T');
    lemma_numbers_hold_no(month, 'T');
    lemma_numbers_hold_no(day, 'T');
    text::lemma_first_part(year, '-', month.push('-') + day);
    text::lemma_first_part(month, '-', day);
    text::lemma_one_part(day, '-');
    assert(text::split_on(date, '-') =~= seq![year, month, day]);
    assert forall|i: int| 0 <= i < date.len() implies date[i] != 'T' by {
        if i < year.len() {
            assert(date[i] == year[i]);
            assert(year.contains(year[i]));
        } else if year.len() < i < year.len() + 1 + month.len() {
            assert(date[i] == month[i - year.len() - 1]);
            assert(month.contains(month[i - year.len() - 1]));
        } else if i > year.len() + 1 + month.len() {
            assert(date[i] == day[i - year.len() - month.len() - 2]);
            assert(day.contains(day[i - year.len() - month.len() - 2]));
        }
    }
}

proof fn lemma_any_time(hour: Seq<char>, minute: Seq<char>, second: Seq<char>)
    requires
        text::read_unsigned(hour, u32::MAX as nat) is Some,
        text::read_unsigned(minute, u32::MAX as nat) is Some,
        read_second(second) is Some,
    ensures
        read_time(hour.push(':') + (minute.push(':') + second)) == Some(
            (
                text::read_unsigned(hour, u32::MAX as nat)->0,
                text::read_unsigned(minute, u32::MAX as nat)->0,
                read_second(second)->0,
            ),
        ),
{
    lemma_numbers_hold_no(hour, ':');
    lemma_numbers_hold_no(minute, ':');
    lemma_second_holds_no_colon(second);
    text::lemma_first_part(hour, ':', minute.push(':') + second);
    text::lemma_first_part(minute, ':', second);
    text::lemma_one_part(second, ':');
    assert(text::split_on(hour.push(':') + (minute.push(':') + second), ':') =~= seq![
        hour,
        minute,
        second,
    ]);
}

proof fn lemma_second_holds_no_colon(second: Seq<char>)
    requires
        read_second(second) is Some,
    ensures
        !second.contains(':'),
{
    law_only_seconds_are_read(second);
    if second.contains('.') {
        let point = choose|point: int| #[trigger]
            second.take(point).len() == point && 0 <= point < second.len() && second[point] == '.'
                && text::read_unsigned(second.take(point), u32::MAX as nat) == Some(
                read_second(second)->0.whole as nat,
            ) && forall|i: int|
                point < i < second.len() ==> '0' <= #[trigger] second[i] && second[i] <= '9';
        lemma_numbers_hold_no(second.take(point), ':');
        assert forall|i: int| 0 <= i < second.len() implies second[i] != ':' by {
            if i < point {
                assert(second.take(point)[i] == second[i]);
                assert(second.take(point).contains(second[i]));
            }
        }
    } else {
        lemma_numbers_hold_no(second, ':');
    }
}

} // verus!
