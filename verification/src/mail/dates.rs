//! When a message was received: dates as IMAP writes them, and seconds since 1970.
use vstd::prelude::*;
use vstd::slice::slice_subrange;

use crate::lines::{cut, lemma_split_once, split_once};
use crate::number::{
    all_digits, decimal, decimal_round_trip, digit_value, digits_value, divide, lemma_decimal,
    quotient, read_signed, read_unsigned, signed, two_digits, unsigned,
};
use crate::text::{
    chars_of, end_of, find_end, is_space, is_text, lemma_end_of_is, lemma_trimmed_is, trim,
    trimmed, Class,
};

verus! {

// ───────────────────────── the calendar ─────────────────────────

/// The number of days from 1970-01-01 to the given date, by the Julian day number.
pub open spec fn day_number(year: int, month: int, day: int) -> int {
    let a = quotient(14 - month, 12);
    let y = year + 4800 - a;
    let m = month + 12 * a - 3;
    day + quotient(153 * m + 2, 5) + 365 * y + quotient(y, 4) - quotient(y, 100) + quotient(y, 400)
        - 32045 - 2440588
}

/// The number of seconds from the start of 1970 to the given time.
pub open spec fn seconds_at(
    year: int,
    month: int,
    day: int,
    hh: int,
    mm: int,
    ss: int,
) -> int {
    day_number(year, month, day) * 86400 + hh * 3600 + mm * 60 + ss
}

/// The number of seconds from the start of 1970 to the given time.
pub fn civil_to_unix(year: i32, month: u32, day: u32, hh: u32, mm: u32, ss: u32) -> (r: i64)
    ensures
        r == seconds_at(
            year as int,
            month as int,
            day as int,
            hh as int,
            mm as int,
            ss as int,
        ),
        -200_000_000_000_000_000 <= r <= 200_000_000_000_000_000,
{
    let a: i64 = divide(14 - month as i64, 12);
    let y: i64 = year as i64 + 4800 - a;
    let m: i64 = month as i64 + 12 * a - 3;
    let days: i64 = day as i64 + divide(153 * m + 2, 5) + 365 * y + divide(y, 4) - divide(y, 100)
        + divide(y, 400) - 32045 - 2440588;
    days * 86400 + hh as i64 * 3600 + mm as i64 * 60 + ss as i64
}

// ───────────────────────── reading dates ─────────────────────────

/// The number of the month with that name.
pub open spec fn month_of(name: Seq<char>) -> Option<int> {
    if name == "Jan"@ {
        Some(1)
    } else if name == "Feb"@ {
        Some(2)
    } else if name == "Mar"@ {
        Some(3)
    } else if name == "Apr"@ {
        Some(4)
    } else if name == "May"@ {
        Some(5)
    } else if name == "Jun"@ {
        Some(6)
    } else if name == "Jul"@ {
        Some(7)
    } else if name == "Aug"@ {
        Some(8)
    } else if name == "Sep"@ {
        Some(9)
    } else if name == "Oct"@ {
        Some(10)
    } else if name == "Nov"@ {
        Some(11)
    } else if name == "Dec"@ {
        Some(12)
    } else {
        None
    }
}

/// The number of the month with that name.
pub fn month_num(name: &[char]) -> (r: Option<u32>)
    ensures
        match r {
            Some(n) => month_of(name@) == Some(n as int),
            None => month_of(name@) is None,
        },
{
    if is_text(name, "Jan") {
        Some(1)
    } else if is_text(name, "Feb") {
        Some(2)
    } else if is_text(name, "Mar") {
        Some(3)
    } else if is_text(name, "Apr") {
        Some(4)
    } else if is_text(name, "May") {
        Some(5)
    } else if is_text(name, "Jun") {
        Some(6)
    } else if is_text(name, "Jul") {
        Some(7)
    } else if is_text(name, "Aug") {
        Some(8)
    } else if is_text(name, "Sep") {
        Some(9)
    } else if is_text(name, "Oct") {
        Some(10)
    } else if is_text(name, "Nov") {
        Some(11)
    } else if is_text(name, "Dec") {
        Some(12)
    } else {
        None
    }
}

/// How many seconds the time zone `tz` is ahead of UTC: a sign, two digits for the hours and
/// two for the minutes.
pub open spec fn zone_offset(tz: Seq<char>) -> Option<int> {
    if tz.len() != 5 || (tz[0] != '+' && tz[0] != '-') {
        None
    } else {
        match (signed(tz.subrange(1, 3), 99), signed(tz.subrange(3, 5), 99)) {
            (Some(hh), Some(mm)) => Some(
                if tz[0] == '+' {
                    hh * 3600 + mm * 60
                } else {
                    -(hh * 3600 + mm * 60)
                },
            ),
            _ => None,
        }
    }
}

/// How many seconds the time zone `tz` is ahead of UTC.
pub fn parse_tz_offset(tz: &[char]) -> (r: Option<i64>)
    ensures
        match r {
            Some(n) => zone_offset(tz@) == Some(n as int) && -400_000 <= n <= 400_000,
            None => zone_offset(tz@) is None,
        },
{
    if tz.len() != 5 || (tz[0] != '+' && tz[0] != '-') {
        return None;
    }
    let hh: i64 = match read_signed(slice_subrange(tz, 1, 3), 99) {
        Some(n) => n,
        None => {
            return None;
        },
    };
    let mm: i64 = match read_signed(slice_subrange(tz, 3, 5), 99) {
        Some(n) => n,
        None => {
            return None;
        },
    };
    let offset: i64 = hh * 3600 + mm * 60;
    if tz[0] == '+' {
        Some(offset)
    } else {
        Some(-offset)
    }
}

/// The two sides of the last `c` in `s`.
pub open spec fn split_last(s: Seq<char>, c: char) -> Option<(Seq<char>, Seq<char>)> {
    let k = end_of(s, Class::Is(c));
    if k == 0 {
        None
    } else {
        Some((s.subrange(0, k - 1), s.subrange(k, s.len() as int)))
    }
}

/// Splits `s` at the last `c`.
pub fn cut_last<'a>(s: &'a [char], c: char) -> (r: Option<(&'a [char], &'a [char])>)
    ensures
        match r {
            Some((a, b)) => split_last(s@, c) == Some((a@, b@)),
            None => split_last(s@, c) is None,
        },
{
    let k: usize = find_end(s, Class::Is(c));
    if k == 0 {
        None
    } else {
        Some((slice_subrange(s, 0, k - 1), slice_subrange(s, k, s.len())))
    }
}

/// The three parts of `s` at the first two `c`.
pub open spec fn thirds(s: Seq<char>, c: char) -> Option<(Seq<char>, Seq<char>, Seq<char>)> {
    match split_once(s, c) {
        Some((x, rest)) => match split_once(rest, c) {
            Some((y, z)) => Some((x, y, z)),
            None => None,
        },
        None => None,
    }
}

/// Splits `s` at the first two `c`.
pub fn cut_thirds<'a>(s: &'a [char], c: char) -> (r: Option<
    (&'a [char], &'a [char], &'a [char]),
>)
    ensures
        match r {
            Some((x, y, z)) => thirds(s@, c) == Some((x@, y@, z@)),
            None => thirds(s@, c) is None,
        },
{
    match cut(s, c) {
        Some((x, rest)) => match cut(rest, c) {
            Some((y, z)) => Some((x, y, z)),
            None => None,
        },
        None => None,
    }
}

/// The day, the month and the year that `s` writes, as in `17-Jul-2024`.
pub open spec fn date_of(s: Seq<char>) -> Option<(int, int, int)> {
    match thirds(s, '-') {
        Some((d, m, y)) => match (
            unsigned(d, 10, u32::MAX as int),
            month_of(m),
            signed(y, i32::MAX as int),
        ) {
            (Some(day), Some(month), Some(year)) => Some((day, month, year)),
            _ => None,
        },
        None => None,
    }
}

/// The hours, minutes and seconds that `s` writes, as in `12:34:56`.
pub open spec fn time_of(s: Seq<char>) -> Option<(int, int, int)> {
    match thirds(s, ':') {
        Some((h, m, s)) => match (
            unsigned(h, 10, u32::MAX as int),
            unsigned(m, 10, u32::MAX as int),
            unsigned(s, 10, u32::MAX as int),
        ) {
            (Some(hh), Some(mm), Some(ss)) => Some((hh, mm, ss)),
            _ => None,
        },
        None => None,
    }
}

/// The seconds from the start of 1970 to the time that `s` writes, as in
/// `17-Jul-2024 12:34:56 +0800`.
pub open spec fn received_at(s: Seq<char>) -> Option<int> {
    match split_once(trimmed(s), ' ') {
        Some((date, rest)) => match split_last(rest, ' ') {
            Some((time, tz)) => match (date_of(date), time_of(time), zone_offset(tz)) {
                (Some((day, month, year)), Some((hh, mm, ss)), Some(offset)) => Some(
                    seconds_at(year, month, day, hh, mm, ss) - offset,
                ),
                _ => None,
            },
            None => None,
        },
        None => None,
    }
}

/// Reads the date that `s` writes.
fn read_date(s: &[char]) -> (r: Option<(u32, u32, i32)>)
    ensures
        match r {
            Some((d, m, y)) => date_of(s@) == Some((d as int, m as int, y as int)),
            None => date_of(s@) is None,
        },
{
    match cut_thirds(s, '-') {
        Some((d, m, y)) => match (
            read_unsigned(d, 10, 4294967295),
            month_num(m),
            read_signed(y, 2147483647),
        ) {
            (Some(day), Some(month), Some(year)) => Some((day as u32, month, year as i32)),
            _ => None,
        },
        None => None,
    }
}

/// Reads the time that `s` writes.
fn read_time(s: &[char]) -> (r: Option<(u32, u32, u32)>)
    ensures
        match r {
            Some((h, m, s1)) => time_of(s@) == Some((h as int, m as int, s1 as int)),
            None => time_of(s@) is None,
        },
{
    match cut_thirds(s, ':') {
        Some((h, m, x)) => match (
            read_unsigned(h, 10, 4294967295),
            read_unsigned(m, 10, 4294967295),
            read_unsigned(x, 10, 4294967295),
        ) {
            (Some(hh), Some(mm), Some(ss)) => Some((hh as u32, mm as u32, ss as u32)),
            _ => None,
        },
        None => None,
    }
}

/// The seconds from the start of 1970 to the time that `s` writes.
pub fn parse_internaldate_unix(s: &str) -> (r: Option<i64>)
    ensures
        match r {
            Some(n) => received_at(s@) == Some(n as int) && -300_000_000_000_000_000 <= n
                <= 300_000_000_000_000_000,
            None => received_at(s@) is None,
        },
{
    let chars: Vec<char> = chars_of(s);
    match cut(trim(chars.as_slice()), ' ') {
        Some((date, rest)) => match cut_last(rest, ' ') {
            Some((time, tz)) => match (read_date(date), read_time(time), parse_tz_offset(tz)) {
                (Some((day, month, year)), Some((hh, mm, ss)), Some(offset)) => Some(
                    civil_to_unix(year, month, day, hh, mm, ss) - offset,
                ),
                _ => None,
            },
            None => None,
        },
        None => None,
    }
}

/// How many seconds before `now` the time is that `s` writes. `now` is in seconds since 1970.
pub fn parse_internaldate_age_secs(s: &str, now: i64) -> (r: Option<i64>)
    requires
        0 <= now <= 8_000_000_000_000_000_000,
    ensures
        match r {
            Some(n) => received_at(s@) == Some(now - n),
            None => received_at(s@) is None,
        },
{
    match parse_internaldate_unix(s) {
        Some(t) => Some(now - t),
        None => None,
    }
}

// ───────────────────────── laws ─────────────────────────

/// The leap years of the Gregorian calendar.
pub open spec fn leap_year(year: int) -> bool {
    year % 4 == 0 && (year % 100 != 0 || year % 400 == 0)
}

/// The days of a month.
pub open spec fn days_in_month(year: int, month: int) -> int {
    if month == 2 {
        if leap_year(year) {
            29
        } else {
            28
        }
    } else if month == 4 || month == 6 || month == 9 || month == 11 {
        30
    } else {
        31
    }
}

/// A date of the calendar.
pub open spec fn is_date(year: int, month: int, day: int) -> bool {
    1 <= month <= 12 && 1 <= day <= days_in_month(year, month)
}

/// The date after a given one.
pub open spec fn day_after(year: int, month: int, day: int) -> (int, int, int) {
    if day < days_in_month(year, month) {
        (year, month, day + 1)
    } else if month < 12 {
        (year, month + 1, 1)
    } else {
        (year + 1, 1, 1)
    }
}

/// Days are counted from the start of 1970, and every day is one day after the one before it,
/// across the ends of months, of years and of February in leap years: that makes `day_number` the
/// number of days since then, for every date of the calendar from the year -4799 on.
pub proof fn days_follow_the_calendar(year: int, month: int, day: int)
    requires
        year >= -4799,
        is_date(year, month, day),
    ensures
        day_number(1970, 1, 1) == 0,
        ({
            let (y, m, d) = day_after(year, month, day);
            &&& is_date(y, m, d)
            &&& day_number(y, m, d) == day_number(year, month, day) + 1
        }),
{
    let (y, m, d) = day_after(year, month, day);
    if month == 2 && m == 3 {
        lemma_leap_day(year + 4799);
        assert((year + 4800) % 4 == year % 4);
        assert((year + 4800) % 100 == year % 100);
        assert((year + 4800) % 400 == year % 400);
    }
}

/// What one more year adds to the leap days.
proof fn lemma_leap_day(y: int)
    requires
        y >= 0,
    ensures
        (y + 1) / 4 == y / 4 + (if (y + 1) % 4 == 0 {
            1int
        } else {
            0int
        }),
        (y + 1) / 100 == y / 100 + (if (y + 1) % 100 == 0 {
            1int
        } else {
            0int
        }),
        (y + 1) / 400 == y / 400 + (if (y + 1) % 400 == 0 {
            1int
        } else {
            0int
        }),
        (y + 1) % 400 == 0 ==> (y + 1) % 100 == 0,
        (y + 1) % 100 == 0 ==> (y + 1) % 4 == 0,
{
}

/// The name of a month.
pub open spec fn month_name(month: int) -> Seq<char> {
    seq![
        "Jan"@,
        "Feb"@,
        "Mar"@,
        "Apr"@,
        "May"@,
        "Jun"@,
        "Jul"@,
        "Aug"@,
        "Sep"@,
        "Oct"@,
        "Nov"@,
        "Dec"@,
    ][month - 1]
}

proof fn lemma_month_name(month: int)
    requires
        1 <= month <= 12,
    ensures
        month_of(month_name(month)) == Some(month),
        !month_name(month).contains('-'),
        !month_name(month).contains(' '),
{
    reveal_strlit("Jan");
    reveal_strlit("Feb");
    reveal_strlit("Mar");
    reveal_strlit("Apr");
    reveal_strlit("May");
    reveal_strlit("Jun");
    reveal_strlit("Jul");
    reveal_strlit("Aug");
    reveal_strlit("Sep");
    reveal_strlit("Oct");
    reveal_strlit("Nov");
    reveal_strlit("Dec");
    let m = month_name(month);
    assert(m.len() == 3);
    assert("Jan"@[0] == 'J' && "Jan"@[1] == 'a' && "Jan"@[2] == 'n');
    assert("Feb"@[0] == 'F');
    assert("Mar"@[0] == 'M' && "Mar"@[2] == 'r');
    assert("Apr"@[0] == 'A' && "Apr"@[1] == 'p');
    assert("May"@[0] == 'M' && "May"@[2] == 'y');
    assert("Jun"@[0] == 'J' && "Jun"@[1] == 'u' && "Jun"@[2] == 'n');
    assert("Jul"@[0] == 'J' && "Jul"@[2] == 'l');
    assert("Aug"@[0] == 'A' && "Aug"@[1] == 'u');
    assert("Sep"@[0] == 'S');
    assert("Oct"@[0] == 'O');
    assert("Nov"@[0] == 'N');
    assert("Dec"@[0] == 'D');
}

/// Digits hold nothing else.
proof fn lemma_digits_hold(s: Seq<char>, c: char)
    requires
        all_digits(s, 10),
        !('0' <= c <= '9'),
    ensures
        !s.contains(c),
{
    if s.contains(c) {
        let k = choose|k: int| 0 <= k < s.len() && s[k] == c;
        assert(digit_value(s[k], 10) is Some);
    }
}

/// Two digits are read as the number that they write.
proof fn lemma_two_digits(n: nat, max: int)
    requires
        n <= max,
    ensures
        all_digits(two_digits(n), 10),
        unsigned(two_digits(n), 10, max) == Some(n as int),
        signed(two_digits(n), max) == Some(n as int),
        n < 100 ==> two_digits(n).len() == 2,
        two_digits(n).len() > 0,
{
    lemma_decimal(n);
    let t = two_digits(n);
    if n < 10 {
        assert(t.drop_last() =~= seq!['0']);
        assert(seq!['0'].drop_last() =~= seq![]);
        reveal_with_fuel(digits_value, 3);
        assert forall|i: int| 0 <= i < t.len() implies digit_value(#[trigger] t[i], 10) is Some by {
            if i == 1 {
                assert(t[1] == decimal(n)[0]);
            }
        }
    } else if n < 100 {
        assert(decimal(n / 10).len() == 1);
    }
}

/// A date as servers write it, with its time and its zone.
pub open spec fn written_date(
    day: nat,
    month: int,
    year: nat,
    time: (nat, nat, nat),
    ahead: bool,
    zone: (nat, nat),
) -> Seq<char> {
    two_digits(day) + seq!['-'] + month_name(month) + seq!['-'] + decimal(year) + seq![' ']
        + two_digits(time.0) + seq![':'] + two_digits(time.1) + seq![':'] + two_digits(time.2)
        + seq![
        ' ',
        if ahead {
            '+'
        } else {
            '-'
        },
    ] + two_digits(zone.0) + two_digits(zone.1)
}

/// A date is read as it was written, also with white space around it: the days since 1970, the
/// time of that day, and the zone, which is ahead of UTC or behind it.
pub proof fn a_written_date_is_read(
    before: Seq<char>,
    day: nat,
    month: int,
    year: nat,
    time: (nat, nat, nat),
    ahead: bool,
    zone: (nat, nat),
    after: Seq<char>,
)
    requires
        day <= 99,
        1 <= month <= 12,
        year <= i32::MAX,
        time.0 <= 99,
        time.1 <= 99,
        time.2 <= 99,
        zone.0 <= 99,
        zone.1 <= 99,
        forall|i: int| 0 <= i < before.len() ==> is_space(#[trigger] before[i]),
        forall|i: int| 0 <= i < after.len() ==> is_space(#[trigger] after[i]),
    ensures
        received_at(before + written_date(day, month, year, time, ahead, zone) + after) == Some(
            day_number(year as int, month, day as int) * 86400 + time.0 * 3600 + time.1 * 60
                + time.2 - (if ahead {
                (zone.0 * 3600 + zone.1 * 60) as int
            } else {
                -(zone.0 * 3600 + zone.1 * 60)
            }),
        ),
{
    let d = two_digits(day);
    let m = month_name(month);
    let y = decimal(year);
    let date = d + seq!['-'] + (m + seq!['-'] + y);
    let h = two_digits(time.0);
    let min = two_digits(time.1);
    let sec = two_digits(time.2);
    let clock = h + seq![':'] + (min + seq![':'] + sec);
    let sign = if ahead {
        '+'
    } else {
        '-'
    };
    let zh = two_digits(zone.0);
    let zm = two_digits(zone.1);
    let tz = seq![sign] + zh + zm;
    let rest = clock + seq![' '] + tz;
    let s = date + seq![' '] + rest;
    lemma_two_digits(day, u32::MAX as int);
    lemma_month_name(month);
    lemma_decimal(year);
    decimal_round_trip(year, i32::MAX as int);
    lemma_two_digits(time.0, u32::MAX as int);
    lemma_two_digits(time.1, u32::MAX as int);
    lemma_two_digits(time.2, u32::MAX as int);
    lemma_two_digits(zone.0, 99);
    lemma_two_digits(zone.1, 99);
    assert(s =~= written_date(day, month, year, time, ahead, zone));
    // What stands around it does not count.
    let all = before + s + after;
    let a = before.len() as int;
    let b = a + s.len();
    assert(all[a] == d[0]);
    assert(digit_value(d[0], 10) is Some);
    assert(all[b - 1] == zm[1]);
    assert(digit_value(zm[1], 10) is Some);
    assert forall|i: int| 0 <= i < a implies is_space(#[trigger] all[i]) by {
        assert(all[i] == before[i]);
    }
    assert forall|i: int| b <= i < all.len() implies is_space(#[trigger] all[i]) by {
        assert(all[i] == after[i - b]);
    }
    lemma_trimmed_is(all, a, b);
    assert(all.subrange(a, b) =~= s);
    // The date ends at the first space, the time at the last.
    lemma_digits_hold(d, ' ');
    lemma_digits_hold(y, ' ');
    assert(!date.contains(' ')) by {
        assert forall|i: int| 0 <= i < date.len() implies #[trigger] date[i] != ' ' by {
            if i < d.len() {
                assert(date[i] == d[i]);
                assert(d.contains(d[i]));
            } else if d.len() < i < d.len() + 1 + m.len() {
                assert(date[i] == m[i - d.len() - 1]);
                assert(m.contains(m[i - d.len() - 1]));
            } else if i > d.len() + 1 + m.len() {
                assert(date[i] == y[i - d.len() - m.len() - 2]);
                assert(y.contains(y[i - d.len() - m.len() - 2]));
            }
        }
    }
    lemma_split_once(date, ' ', rest);
    lemma_digits_hold(zh, ' ');
    lemma_digits_hold(zm, ' ');
    let k = clock.len() as int;
    assert forall|i: int| k + 1 <= i < rest.len() implies !Class::Is(' ').admits(
        #[trigger] rest[i],
    ) by {
        assert(rest[i] == tz[i - k - 1]);
        if i >= k + 4 {
            assert(tz[i - k - 1] == zm[i - k - 4]);
            assert(zm.contains(zm[i - k - 4]));
        } else if i >= k + 2 {
            assert(tz[i - k - 1] == zh[i - k - 2]);
            assert(zh.contains(zh[i - k - 2]));
        }
    }
    assert(rest[k] == ' ');
    lemma_end_of_is(rest, Class::Is(' '), k + 1);
    assert(rest.subrange(0, k) =~= clock);
    assert(rest.subrange(k + 1, rest.len() as int) =~= tz);
    // The parts of each.
    lemma_digits_hold(d, '-');
    lemma_split_once(d, '-', m + seq!['-'] + y);
    lemma_split_once(m, '-', y);
    lemma_digits_hold(h, ':');
    lemma_digits_hold(min, ':');
    lemma_split_once(h, ':', min + seq![':'] + sec);
    lemma_split_once(min, ':', sec);
    assert(tz.subrange(1, 3) =~= zh);
    assert(tz.subrange(3, 5) =~= zm);
    assert(signed(y, i32::MAX as int) == Some(year as int));
}

} // verus!
