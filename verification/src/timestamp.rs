//! Observation timestamps: year within the century, day of year and seconds of the day.
use vstd::prelude::*;
use crate::number::{
    all_digits, decimal, digits_value, padded, parse_span_unsigned, parse_unsigned, push_decimal,
    push_padded,
};
use crate::text::{
    chars_of, find_char, first_index, lemma_split_nonempty, push_char, span_view, split, split_once,
    split_spans, string_of_span,
};
use vstd::arithmetic::div_mod::{lemma_fundamental_div_mod, lemma_fundamental_div_mod_converse};

verus! {

/// A time of observation: two-digit year, day of year and seconds since midnight.
#[derive(Debug, Clone, Copy, PartialEq, Eq, Structural)]
pub struct Timestamp {
    pub year: u16,
    pub doy: u16,
    pub seconds: u32,
}

/// Why a timestamp could not be read; texts are the offending input.
#[derive(Debug)]
pub enum TimestampError {
    InvalidFields { year: u16, doy: u16, hour: u32, minute: u32, second: u32 },
    InvalidDate(String),
    InvalidYear(String),
    InvalidDayOfYear(String),
    InvalidTime(String),
    InvalidHour(String),
    InvalidMinute(String),
    InvalidSecond(String),
    NoPrecedingTimestamp,
    NeedsDateAndTime,
    InvalidScheduleTimestamp(String),
}

/// The mathematical form of a `TimestampError`.
pub enum TimestampFault {
    InvalidFields { year: u16, doy: u16, hour: u32, minute: u32, second: u32 },
    InvalidDate(Seq<char>),
    InvalidYear(Seq<char>),
    InvalidDayOfYear(Seq<char>),
    InvalidTime(Seq<char>),
    InvalidHour(Seq<char>),
    InvalidMinute(Seq<char>),
    InvalidSecond(Seq<char>),
    NoPrecedingTimestamp,
    NeedsDateAndTime,
    InvalidScheduleTimestamp(Seq<char>),
}

impl View for TimestampError {
    type V = TimestampFault;

    open spec fn view(&self) -> TimestampFault {
        match self {
            TimestampError::InvalidFields { year, doy, hour, minute, second } =>
                TimestampFault::InvalidFields {
                year: *year,
                doy: *doy,
                hour: *hour,
                minute: *minute,
                second: *second,
            },
            TimestampError::InvalidDate(t) => TimestampFault::InvalidDate(t@),
            TimestampError::InvalidYear(t) => TimestampFault::InvalidYear(t@),
            TimestampError::InvalidDayOfYear(t) => TimestampFault::InvalidDayOfYear(t@),
            TimestampError::InvalidTime(t) => TimestampFault::InvalidTime(t@),
            TimestampError::InvalidHour(t) => TimestampFault::InvalidHour(t@),
            TimestampError::InvalidMinute(t) => TimestampFault::InvalidMinute(t@),
            TimestampError::InvalidSecond(t) => TimestampFault::InvalidSecond(t@),
            TimestampError::NoPrecedingTimestamp => TimestampFault::NoPrecedingTimestamp,
            TimestampError::NeedsDateAndTime => TimestampFault::NeedsDateAndTime,
            TimestampError::InvalidScheduleTimestamp(t) => TimestampFault::InvalidScheduleTimestamp(
                t@,
            ),
        }
    }
}

/// A timestamp result with its error taken by its view.
pub open spec fn result_view(r: Result<Timestamp, TimestampError>) -> Result<Timestamp, TimestampFault> {
    match r {
        Ok(t) => Ok(t),
        Err(e) => Err(e@),
    }
}

/// What `Timestamp::new` gives: the fields are checked, the year is kept modulo 100.
pub open spec fn new_timestamp(year: u16, doy: u16, hour: u32, minute: u32, second: u32) -> Result<
    Timestamp,
    TimestampFault,
> {
    if doy == 0 || doy > 366 || hour >= 24 || minute >= 60 || second >= 60 {
        Err(TimestampFault::InvalidFields { year, doy, hour, minute, second })
    } else {
        Ok(
            Timestamp {
                year: (year % 100) as u16,
                doy,
                seconds: (hour * 3600 + minute * 60 + second) as u32,
            },
        )
    }
}

impl Timestamp {
    /// Builds a timestamp from calendar fields, or says which fields are out of range.
    pub fn new(year: u16, doy: u16, hour: u32, minute: u32, second: u32) -> (r: Result<
        Timestamp,
        TimestampError,
    >)
        ensures
            result_view(r) == new_timestamp(year, doy, hour, minute, second),
    {
        if doy == 0 || doy > 366 || hour >= 24 || minute >= 60 || second >= 60 {
            return Err(TimestampError::InvalidFields { year, doy, hour, minute, second });
        }
        Ok(Timestamp { year: year % 100, doy, seconds: hour * 3600 + minute * 60 + second })
    }

    pub open spec fn hour_of(self) -> u32 {
        self.seconds / 3600
    }

    pub open spec fn minute_of(self) -> u32 {
        (self.seconds % 3600) / 60
    }

    pub open spec fn second_of(self) -> u32 {
        self.seconds % 60
    }

    /// Hours, minutes and seconds of the time of day.
    pub fn hms(self) -> (r: (u32, u32, u32))
        ensures
            r == (self.hour_of(), self.minute_of(), self.second_of()),
    {
        (self.seconds / 3600, (self.seconds % 3600) / 60, self.seconds % 60)
    }

    /// The display form `20YY/DDDTHH:MM:SS`.
    pub open spec fn text(self) -> Seq<char> {
        seq!['2', '0'] + padded(self.year as nat, 2) + seq!['/'] + padded(self.doy as nat, 3)
            + seq!['T'] + padded(self.hour_of() as nat, 2) + seq![':'] + padded(
            self.minute_of() as nat,
            2,
        ) + seq![':'] + padded(self.second_of() as nat, 2)
    }

    /// The display form `20YY/DDDTHH:MM:SS` of the timestamp.
    pub fn to_text(&self) -> (s: String)
        ensures
            s@ == self.text(),
    {
        let (h, m, sec) = self.hms();
        let mut s = String::new();
        push_char(&mut s, '2');
        push_char(&mut s, '0');
        push_padded(&mut s, self.year as u64, 2);
        push_char(&mut s, '/');
        push_padded(&mut s, self.doy as u64, 3);
        push_char(&mut s, 'T');
        push_padded(&mut s, h as u64, 2);
        push_char(&mut s, ':');
        push_padded(&mut s, m as u64, 2);
        push_char(&mut s, ':');
        push_padded(&mut s, sec as u64, 2);
        assert(s@ =~= self.text());
        s
    }
}

/// The views of a sequence of strings.
pub open spec fn strings_view(v: Seq<String>) -> Seq<Seq<char>> {
    v.map_values(|t: String| t@)
}

/// A `YYYY/DDD` date and an `HH:MM:SS` time of day.
#[verifier::opaque]
pub open spec fn date_time(date: Seq<char>, time: Seq<char>) -> Result<Timestamp, TimestampFault> {
    let d = split(date, '/');
    let t = split(time, ':');
    match parse_unsigned(d[0], 65535) {
        None => Err(TimestampFault::InvalidYear(date)),
        Some(year) => if d.len() < 2 {
            Err(TimestampFault::InvalidDate(date))
        } else {
            match parse_unsigned(d[1], 65535) {
                None => Err(TimestampFault::InvalidDayOfYear(date)),
                Some(doy) => if d.len() > 2 {
                    Err(TimestampFault::InvalidDate(date))
                } else {
                    match parse_unsigned(t[0], 4294967295) {
                        None => Err(TimestampFault::InvalidHour(time)),
                        Some(hour) => if t.len() < 2 {
                            Err(TimestampFault::InvalidTime(time))
                        } else {
                            match parse_unsigned(t[1], 4294967295) {
                                None => Err(TimestampFault::InvalidMinute(time)),
                                Some(minute) => if t.len() < 3 {
                                    Err(TimestampFault::InvalidTime(time))
                                } else {
                                    match parse_unsigned(t[2], 4294967295) {
                                        None => Err(TimestampFault::InvalidSecond(time)),
                                        Some(second) => if t.len() > 3 {
                                            Err(TimestampFault::InvalidTime(time))
                                        } else {
                                            new_timestamp(
                                                year as u16,
                                                doy as u16,
                                                hour as u32,
                                                minute as u32,
                                                second as u32,
                                            )
                                        },
                                    }
                                },
                            }
                        },
                    }
                },
            }
        },
    }
}

/// Reads a `YYYY/DDD` date and an `HH:MM:SS` time of day.
pub fn parse_date_and_time(date: &str, time: &str) -> (r: Result<Timestamp, TimestampError>)
    ensures
        result_view(r) == date_time(date@, time@),
{
    let dv = chars_of(date);
    let tv = chars_of(time);
    let ds = split_spans(&dv, 0, dv.len(), '/');
    let ts = split_spans(&tv, 0, tv.len(), ':');
    assert(dv@.subrange(0, dv@.len() as int) =~= dv@);
    assert(tv@.subrange(0, tv@.len() as int) =~= tv@);
    proof {
        lemma_split_nonempty(date@, '/');
        lemma_split_nonempty(time@, ':');
    }
    let ghost d = split(date@, '/');
    let ghost t = split(time@, ':');
    reveal(date_time);
    assert(span_view(dv@, ds@[0]) == d[0]);
    let year = match parse_span_unsigned(&dv, ds[0].0, ds[0].1, 65535) {
        Some(y) => y as u16,
        None => return Err(TimestampError::InvalidYear(String::from_str(date))),
    };
    if ds.len() < 2 {
        return Err(TimestampError::InvalidDate(String::from_str(date)));
    }
    assert(span_view(dv@, ds@[1]) == d[1]);
    let doy = match parse_span_unsigned(&dv, ds[1].0, ds[1].1, 65535) {
        Some(y) => y as u16,
        None => return Err(TimestampError::InvalidDayOfYear(String::from_str(date))),
    };
    if ds.len() > 2 {
        return Err(TimestampError::InvalidDate(String::from_str(date)));
    }
    assert(span_view(tv@, ts@[0]) == t[0]);
    let hour = match parse_span_unsigned(&tv, ts[0].0, ts[0].1, 4294967295) {
        Some(y) => y as u32,
        None => return Err(TimestampError::InvalidHour(String::from_str(time))),
    };
    if ts.len() < 2 {
        return Err(TimestampError::InvalidTime(String::from_str(time)));
    }
    assert(span_view(tv@, ts@[1]) == t[1]);
    let minute = match parse_span_unsigned(&tv, ts[1].0, ts[1].1, 4294967295) {
        Some(y) => y as u32,
        None => return Err(TimestampError::InvalidMinute(String::from_str(time))),
    };
    if ts.len() < 3 {
        return Err(TimestampError::InvalidTime(String::from_str(time)));
    }
    assert(span_view(tv@, ts@[2]) == t[2]);
    let second = match parse_span_unsigned(&tv, ts[2].0, ts[2].1, 4294967295) {
        Some(y) => y as u32,
        None => return Err(TimestampError::InvalidSecond(String::from_str(time))),
    };
    if ts.len() > 3 {
        return Err(TimestampError::InvalidTime(String::from_str(time)));
    }
    Timestamp::new(year, doy, hour, minute, second)
}

/// The timestamp that precedes the frequency token at `fi`,
/// either one `DATE` + `T` + `TIME` token or a date token and a time token.
pub open spec fn data_timestamp(tokens: Seq<Seq<char>>, fi: int) -> Result<Timestamp, TimestampFault> {
    if fi == 0 {
        Err(TimestampFault::NoPrecedingTimestamp)
    } else {
        match split_once(tokens[fi - 1], 'T') {
            Some((d, t)) => date_time(d, t),
            None => if fi < 2 {
                Err(TimestampFault::NeedsDateAndTime)
            } else {
                date_time(tokens[fi - 2], tokens[fi - 1])
            },
        }
    }
}

/// `str::split_once(c)` on an owned string.
fn split_once_string(s: &String, c: char) -> (r: Option<(String, String)>)
    ensures
        match split_once(s@, c) {
            Some((x, y)) => r matches Some((a, b)) && a@ == x && b@ == y,
            None => r is None,
        },
{
    let v = chars_of(s.as_str());
    assert(v@.subrange(0, v@.len() as int) =~= v@);
    assert(v@ == s@);
    let found = find_char(&v, 0, v.len(), c);
    match found {
        Some(k) => {
            assert(first_index(s@, c) == Some(k as int));
            let x = string_of_span(&v, 0, k);
            let y = string_of_span(&v, k + 1, v.len());
            assert(x@ =~= v@.take(k as int));
            assert(y@ =~= v@.skip(k + 1));
            Some((x, y))
        },
        None => {
            assert(first_index(s@, c) is None);
            None
        },
    }
}

/// Reads the timestamp that precedes the frequency token `tokens[fi]` of a data row.
pub fn parse_data_timestamp(tokens: &Vec<String>, fi: usize) -> (r: Result<Timestamp, TimestampError>)
    requires
        fi <= tokens.len(),
    ensures
        result_view(r) == data_timestamp(strings_view(tokens@), fi as int),
{
    if fi == 0 {
        return Err(TimestampError::NoPrecedingTimestamp);
    }
    let previous = &tokens[fi - 1];
    assert(strings_view(tokens@)[fi - 1] == previous@);
    match split_once_string(previous, 'T') {
        Some((date, time)) => parse_date_and_time(date.as_str(), time.as_str()),
        None => {
            if fi < 2 {
                return Err(TimestampError::NeedsDateAndTime);
            }
            assert(strings_view(tokens@)[fi - 2] == tokens@[fi - 2]@);
            parse_date_and_time(tokens[fi - 2].as_str(), previous.as_str())
        },
    }
}

/// A schedule timestamp: eleven ASCII digits `YYDDDHHMMSS`.
pub open spec fn schedule_timestamp(token: Seq<char>) -> Result<Timestamp, TimestampFault> {
    if token.len() != 11 || !all_digits(token) {
        Err(TimestampFault::InvalidScheduleTimestamp(token))
    } else {
        new_timestamp(
            digits_value(token.subrange(0, 2)) as u16,
            digits_value(token.subrange(2, 5)) as u16,
            digits_value(token.subrange(5, 7)) as u32,
            digits_value(token.subrange(7, 9)) as u32,
            digits_value(token.subrange(9, 11)) as u32,
        )
    }
}

proof fn lemma_short_digits(s: Seq<char>)
    requires
        1 <= s.len() <= 3,
        all_digits(s),
    ensures
        parse_unsigned(s, 65535) == Some(digits_value(s)),
        digits_value(s) <= 999,
{
    crate::number::lemma_digits_value_bound(s);
    reveal_with_fuel(crate::number::pow10, 4);
    assert(s[0] != '+') by {
        assert(crate::number::is_digit(s[0]));
    }
}

/// Reads a schedule timestamp `YYDDDHHMMSS`.
pub fn parse_schedule_timestamp(token: &str) -> (r: Result<Timestamp, TimestampError>)
    ensures
        result_view(r) == schedule_timestamp(token@),
{
    let v = chars_of(token);
    let n = v.len();
    if n != 11 {
        return Err(TimestampError::InvalidScheduleTimestamp(String::from_str(token)));
    }
    let mut k: usize = 0;
    while k < n
        invariant
            n == v.len(),
            v@ == token@,
            k <= n,
            forall|j: int| 0 <= j < k ==> crate::number::is_digit(#[trigger] v@[j]),
        decreases n - k,
    {
        let u = v[k] as u32;
        if u < 48 || u > 57 {
            assert(!crate::number::is_digit(token@[k as int]));
            assert(!all_digits(token@));
            return Err(TimestampError::InvalidScheduleTimestamp(String::from_str(token)));
        }
        k = k + 1;
    }
    assert(all_digits(token@));
    proof {
        lemma_short_digits(token@.subrange(0, 2));
        lemma_short_digits(token@.subrange(2, 5));
        lemma_short_digits(token@.subrange(5, 7));
        lemma_short_digits(token@.subrange(7, 9));
        lemma_short_digits(token@.subrange(9, 11));
    }
    let year = parse_span_unsigned(&v, 0, 2, 65535).unwrap() as u16;
    let doy = parse_span_unsigned(&v, 2, 5, 65535).unwrap() as u16;
    let hour = parse_span_unsigned(&v, 5, 7, 65535).unwrap() as u32;
    let minute = parse_span_unsigned(&v, 7, 9, 65535).unwrap() as u32;
    let second = parse_span_unsigned(&v, 9, 11, 65535).unwrap() as u32;
    Timestamp::new(year, doy, hour, minute, second)
}

/// The text that reports a timestamp fault.
pub open spec fn fault_message(f: TimestampFault) -> Seq<char> {
    match f {
        TimestampFault::InvalidFields { year, doy, hour, minute, second } =>
            "invalid timestamp fields: "@ + decimal(year as nat) + "/"@ + decimal(doy as nat)
            + " "@ + decimal(hour as nat) + ":"@ + decimal(minute as nat) + ":"@ + decimal(
            second as nat,
        ),
        TimestampFault::InvalidDate(t) => "invalid date: "@ + t,
        TimestampFault::InvalidYear(t) => "invalid year: "@ + t,
        TimestampFault::InvalidDayOfYear(t) => "invalid day of year: "@ + t,
        TimestampFault::InvalidTime(t) => "invalid time: "@ + t,
        TimestampFault::InvalidHour(t) => "invalid hour: "@ + t,
        TimestampFault::InvalidMinute(t) => "invalid minute: "@ + t,
        TimestampFault::InvalidSecond(t) => "invalid second: "@ + t,
        TimestampFault::NoPrecedingTimestamp => "frequency has no preceding timestamp"@,
        TimestampFault::NeedsDateAndTime => "timestamp needs date and time tokens"@,
        TimestampFault::InvalidScheduleTimestamp(t) => "invalid schedule timestamp: "@ + t,
    }
}

impl TimestampError {
    /// The text that reports this error.
    pub fn message(&self) -> (m: String)
        ensures
            m@ == fault_message(self@),
    {
        match self {
            TimestampError::InvalidFields { year, doy, hour, minute, second } => {
                let mut m = String::from_str("invalid timestamp fields: ");
                push_decimal(&mut m, *year as u64);
                m.append("/");
                push_decimal(&mut m, *doy as u64);
                m.append(" ");
                push_decimal(&mut m, *hour as u64);
                m.append(":");
                push_decimal(&mut m, *minute as u64);
                m.append(":");
                push_decimal(&mut m, *second as u64);
                m
            },
            TimestampError::InvalidDate(t) => String::from_str("invalid date: ").concat(t.as_str()),
            TimestampError::InvalidYear(t) => String::from_str("invalid year: ").concat(t.as_str()),
            TimestampError::InvalidDayOfYear(t) => String::from_str("invalid day of year: ").concat(
                t.as_str(),
            ),
            TimestampError::InvalidTime(t) => String::from_str("invalid time: ").concat(t.as_str()),
            TimestampError::InvalidHour(t) => String::from_str("invalid hour: ").concat(t.as_str()),
            TimestampError::InvalidMinute(t) => String::from_str("invalid minute: ").concat(
                t.as_str(),
            ),
            TimestampError::InvalidSecond(t) => String::from_str("invalid second: ").concat(
                t.as_str(),
            ),
            TimestampError::NoPrecedingTimestamp => String::from_str(
                "frequency has no preceding timestamp",
            ),
            TimestampError::NeedsDateAndTime => String::from_str(
                "timestamp needs date and time tokens",
            ),
            TimestampError::InvalidScheduleTimestamp(t) => String::from_str(
                "invalid schedule timestamp: ",
            ).concat(t.as_str()),
        }
    }
}

/// Years 20YY with YY divisible by four are leap years (every such year from 2000 to 2099).
pub open spec fn is_leap(year: int) -> bool {
    year % 4 == 0
}

/// The number of days of year 20YY.
pub open spec fn days_in_year(year: int) -> int {
    if is_leap(year) {
        366
    } else {
        365
    }
}

/// Days from 2000/001 to the first day of year 20YY: 365 a year and one more for each
/// leap year before it.
pub open spec fn days_before_year(year: int) -> int {
    365 * year + (year + 3) / 4
}

/// Seconds from 2000/001 00:00:00 by the calendar; used to average timestamps.
pub open spec fn tick_of(t: Timestamp) -> int {
    (days_before_year(t.year as int) + t.doy - 1) * 86400 + t.seconds
}

/// The timestamp of a tick: whole days and seconds, then four-year cycles of
/// 1461 days that begin with a leap year; each field is cast to its width.
pub open spec fn from_tick(tick: int) -> Timestamp {
    let day = tick / 86400;
    let cycle = day / 1461;
    let r = day % 1461;
    let offset = if r < 366 {
        0
    } else {
        1 + (r - 366) / 365
    };
    let day_in_year = if r < 366 {
        r
    } else {
        (r - 366) % 365
    };
    Timestamp {
        year: (4 * cycle + offset) as u16,
        doy: (day_in_year + 1) as u16,
        seconds: (tick % 86400) as u32,
    }
}

/// Euclidean quotient and remainder of `x` by `d > 0`.
fn div_mod_euclid(x: i64, d: i64) -> (r: (i64, i64))
    requires
        d > 0,
    ensures
        r.0 == x / d,
        r.1 == x % d,
        0 <= r.1 < d,
{
    let du = d as u64;
    let (q, r): (i64, i64) = if x >= 0 {
        let t = x as u64;
        proof {
            vstd::arithmetic::div_mod::lemma_fundamental_div_mod(t as int, du as int);
        }
        ((t / du) as i64, (t % du) as i64)
    } else {
        let m = (-(x + 1)) as u64;
        let qm = m / du;
        let rm = m % du;
        proof {
            vstd::arithmetic::div_mod::lemma_fundamental_div_mod(m as int, du as int);
            assert(qm <= m) by {
                vstd::arithmetic::div_mod::lemma_div_is_ordered_by_denominator(m as int, 1, du as int);
            }
        }
        (-(qm as i64) - 1, (du - 1 - rm) as i64)
    };
    proof {
        let xi = x as int;
        let di = d as int;
        let qi = q as int;
        let ri = r as int;
        if x >= 0 {
            assert(xi == qi * di + ri) by (nonlinear_arith)
                requires
                    xi == di * (xi / di) + xi % di,
                    qi == xi / di,
                    ri == xi % di,
            ;
        } else {
            let m = -(xi + 1);
            assert(xi == qi * di + ri) by (nonlinear_arith)
                requires
                    m == di * (m / di) + m % di,
                    qi == -(m / di) - 1,
                    ri == di - 1 - m % di,
                    xi == -(m + 1),
            ;
        }
        lemma_fundamental_div_mod_converse(x as int, d as int, q as int, r as int);
    }
    (q, r)
}

impl Timestamp {
    /// Seconds from 2000/001 00:00:00 by the calendar.
    pub fn tick(self) -> (r: i64)
        ensures
            r == tick_of(self),
    {
        let y = self.year as u64;
        let days = 365 * y + (y + 3) / 4 + self.doy as u64;
        (days as i64 - 1) * 86400 + self.seconds as i64
    }

    /// The timestamp of a tick (already rounded to whole seconds).
    pub fn from_tick(tick: i64) -> (t: Timestamp)
        ensures
            t == from_tick(tick as int),
    {
        let (day, secs) = div_mod_euclid(tick, 86400);
        let (cycle, r) = div_mod_euclid(day, 1461);
        let (offset, day_in_year): (i64, i64) = if r < 366 {
            (0, r)
        } else {
            (1 + (r - 366) / 365, (r - 366) % 365)
        };
        proof {
            assert(cycle == day / 1461);
            assert(-100_000_000_000 <= cycle <= 100_000_000_000) by {
                assert(-10_000_000_000_000_000_000 <= day <= 10_000_000_000_000_000_000) by {
                    vstd::arithmetic::div_mod::lemma_fundamental_div_mod(tick as int, 86400);
                }
                vstd::arithmetic::div_mod::lemma_fundamental_div_mod(day as int, 1461);
            }
        }
        let year = 4 * cycle + offset;
        Timestamp { year: year as u16, doy: (day_in_year + 1) as u16, seconds: secs as u32 }
    }
}

/// The sum of the ticks of `v`.
pub open spec fn sum_ticks(v: Seq<Timestamp>) -> int
    decreases v.len(),
{
    if v.len() == 0 {
        0
    } else {
        sum_ticks(v.drop_last()) + tick_of(v.last())
    }
}

/// `s / n` rounded to the nearest integer, halves away from zero (`f64::round`).
pub open spec fn round_div(s: int, n: int) -> int {
    if s >= 0 {
        (2 * s + n) / (2 * n)
    } else {
        -((-2 * s + n) / (2 * n))
    }
}

/// The timestamp at the arithmetic mean of the given times, to the nearest second.
pub open spec fn average_of(v: Seq<Timestamp>) -> Option<Timestamp> {
    if v.len() == 0 {
        None
    } else {
        Some(from_tick(round_div(sum_ticks(v), v.len() as int)))
    }
}

/// Every tick lies within `[-86400, 2^42)`.
proof fn lemma_tick_bounds(t: Timestamp)
    ensures
        -86400 <= tick_of(t) < 0x400_0000_0000,
{
    assert(0 <= days_before_year(t.year as int) <= 365 * 65535 + 16385);
}

/// The timestamp at the arithmetic mean of the times, rounded to the nearest second;
/// `None` for no times.
pub fn average_timestamp(values: &Vec<Timestamp>) -> (r: Option<Timestamp>)
    ensures
        r == average_of(values@),
{
    let n = values.len();
    if n == 0 {
        return None;
    }
    let bound: i128 = 0x400_0000_0000;
    let mut sum: i128 = 0;
    let mut i: usize = 0;
    while i < n
        invariant
            n == values.len(),
            bound == 0x400_0000_0000,
            i <= n,
            sum == sum_ticks(values@.take(i as int)),
            -bound * i <= sum <= bound * i,
        decreases n - i,
    {
        let t = values[i].tick();
        proof {
            lemma_tick_bounds(values@[i as int]);
            assert(values@.take(i + 1).drop_last() =~= values@.take(i as int));
            assert(bound * i <= bound * 0x1_0000_0000_0000_0000) by (nonlinear_arith)
                requires
                    bound == 0x400_0000_0000,
                    i <= 0xFFFF_FFFF_FFFF_FFFF,
            ;
        }
        sum = sum + t as i128;
        i = i + 1;
        assert(-bound * i <= sum <= bound * i) by (nonlinear_arith)
            requires
                -bound * (i - 1) <= sum - t <= bound * (i - 1),
                -86400 <= t < bound,
                bound > 86400,
        ;
    }
    assert(values@.take(n as int) =~= values@);
    let nn = n as i128;
    assert(bound * nn <= 0x400_0000_0000 * 0x1_0000_0000_0000_0000) by (nonlinear_arith)
        requires
            bound == 0x400_0000_0000,
            1 <= nn <= 0xFFFF_FFFF_FFFF_FFFF,
    ;
    let mean: i128 = if sum >= 0 {
        let q = ((2 * sum + nn) as u128 / (2 * nn) as u128) as i128;
        proof {
            assert(q <= bound) by (nonlinear_arith)
                requires
                    q == (2 * sum + nn) / (2 * nn),
                    0 <= sum <= bound * nn,
                    nn >= 1,
            ;
        }
        q
    } else {
        let q = ((-2 * sum + nn) as u128 / (2 * nn) as u128) as i128;
        proof {
            assert(q <= bound) by (nonlinear_arith)
                requires
                    q == (-2 * sum + nn) / (2 * nn),
                    0 <= -sum <= bound * nn,
                    nn >= 1,
            ;
        }
        -q
    };
    Some(Timestamp::from_tick(mean as i64))
}

impl Timestamp {
    /// The ranges that `Timestamp::new` guarantees: a two-digit year, a day of the year
    /// and a second of the day.
    pub open spec fn wf(self) -> bool {
        self.year < 100 && 1 <= self.doy <= 366 && self.seconds < 86400
    }
}

/// A timestamp made from calendar fields is well formed and gives back the
/// hour, minute and second it was made from.
pub proof fn lemma_new_timestamp(year: u16, doy: u16, hour: u32, minute: u32, second: u32)
    ensures
        new_timestamp(year, doy, hour, minute, second) matches Ok(t) ==> {
            &&& t.wf()
            &&& t.year == year % 100
            &&& t.doy == doy
            &&& t.hms_parts() == (hour, minute, second)
        },
{
    if new_timestamp(year, doy, hour, minute, second) is Ok {
        let t = new_timestamp(year, doy, hour, minute, second)->Ok_0;
        let within_hour = minute * 60 + second;
        assert(0 <= within_hour < 3600);
        assert(t.seconds == hour * 3600 + within_hour);
        lemma_fundamental_div_mod_converse(t.seconds as int, 3600, hour as int, within_hour as int);
        lemma_fundamental_div_mod_converse(within_hour as int, 60, minute as int, second as int);
        lemma_fundamental_div_mod_converse(t.seconds as int, 60, (hour * 60 + minute) as int, second as int);
    }
}

impl Timestamp {
    /// Hour, minute and second of the time of day.
    pub open spec fn hms_parts(self) -> (u32, u32, u32) {
        (self.hour_of(), self.minute_of(), self.second_of())
    }
}

/// Turning a timestamp whose day exists in its year into a tick and back gives the
/// same timestamp.
pub proof fn lemma_tick_round_trip(t: Timestamp)
    requires
        1 <= t.doy <= days_in_year(t.year as int),
        t.seconds < 86400,
    ensures
        from_tick(tick_of(t)) == t,
{
    let y = t.year as int;
    let c = y / 4;
    let k = y % 4;
    lemma_fundamental_div_mod(y, 4);
    if k == 0 {
        lemma_fundamental_div_mod_converse(y + 3, 4, c, 3);
    } else {
        lemma_fundamental_div_mod_converse(y + 3, 4, c + 1, k - 1);
    }
    let rest = if k == 0 {
        t.doy - 1
    } else {
        365 * k + t.doy
    };
    let day = days_before_year(y) + t.doy - 1;
    assert(day == 1461 * c + rest);
    lemma_fundamental_div_mod_converse(tick_of(t), 86400, day, t.seconds as int);
    lemma_fundamental_div_mod_converse(day, 1461, c, rest);
    if k != 0 {
        lemma_fundamental_div_mod_converse(rest - 366, 365, k - 1, t.doy - 1);
    }
}

/// Ticks count the calendar's days: the last second of a day is followed by the first
/// second of the next day, also from the last day of a year to the first of the next.
pub proof fn lemma_tick_counts_days(t: Timestamp)
    requires
        t.seconds == 86399,
        1 <= t.doy <= days_in_year(t.year as int),
        t.year < 65535,
    ensures
        t.doy < days_in_year(t.year as int) ==> tick_of(t) + 1 == tick_of(
            Timestamp { year: t.year, doy: (t.doy + 1) as u16, seconds: 0 },
        ),
        t.doy == days_in_year(t.year as int) ==> tick_of(t) + 1 == tick_of(
            Timestamp { year: (t.year + 1) as u16, doy: 1, seconds: 0 },
        ),
{
    let y = t.year as int;
    lemma_fundamental_div_mod(y, 4);
    let c = y / 4;
    let k = y % 4;
    if k == 0 {
        lemma_fundamental_div_mod_converse(y + 3, 4, c, 3);
        lemma_fundamental_div_mod_converse(y + 4, 4, c + 1, 0);
    } else {
        lemma_fundamental_div_mod_converse(y + 3, 4, c + 1, k - 1);
        lemma_fundamental_div_mod_converse(y + 4, 4, c + 1, k);
    }
}

proof fn lemma_padded_facts(n: nat, width: nat)
    requires
        width >= 1,
        n < crate::number::pow10(width),
    ensures
        padded(n, width).len() == width,
        all_digits(padded(n, width)),
        digits_value(padded(n, width)) == n,
        !crate::text::has_char(padded(n, width), '/'),
        !crate::text::has_char(padded(n, width), ':'),
        !crate::text::has_char(padded(n, width), 'T'),
        padded(n, width)[0] != '+',
{
    crate::number::lemma_padded_len(n, width);
    let p = padded(n, width);
    assert(crate::number::is_digit(p[0]));
    assert forall|c: char| !crate::number::is_digit(c) implies !crate::text::has_char(p, c) by {
        if crate::text::has_char(p, c) {
            let i = choose|i: int| 0 <= i < p.len() && p[i] == c;
            assert(crate::number::is_digit(p[i]));
        }
    }
    assert(!crate::number::is_digit('/'));
    assert(!crate::number::is_digit(':'));
    assert(!crate::number::is_digit('T'));
}

/// The date part `20YY/DDD` of the display form.
pub open spec fn date_text(t: Timestamp) -> Seq<char> {
    seq!['2', '0'] + padded(t.year as nat, 2) + seq!['/'] + padded(t.doy as nat, 3)
}

/// The time part `HH:MM:SS` of the display form.
pub open spec fn time_text(t: Timestamp) -> Seq<char> {
    padded(t.hour_of() as nat, 2) + seq![':'] + padded(t.minute_of() as nat, 2) + seq![':']
        + padded(t.second_of() as nat, 2)
}

proof fn lemma_hms_bounds(t: Timestamp)
    requires
        t.wf(),
    ensures
        t.hour_of() < 24,
        t.minute_of() < 60,
        t.second_of() < 60,
        t.hour_of() * 3600 + t.minute_of() * 60 + t.second_of() == t.seconds,
{
    lemma_fundamental_div_mod(t.seconds as int, 3600);
    lemma_fundamental_div_mod((t.seconds % 3600) as int, 60);
    lemma_fundamental_div_mod(t.seconds as int, 60);
    lemma_fundamental_div_mod_converse(
        t.seconds as int,
        60,
        (t.hour_of() * 60 + t.minute_of()) as int,
        ((t.seconds % 3600) % 60) as int,
    );
}

/// The display form splits at its first `T` into the date part and the time part.
proof fn lemma_text_split(t: Timestamp)
    requires
        t.wf(),
    ensures
        split_once(t.text(), 'T') == Some((date_text(t), time_text(t))),
{
    reveal_with_fuel(crate::number::pow10, 4);
    lemma_hms_bounds(t);
    lemma_padded_facts(t.year as nat, 2);
    lemma_padded_facts(t.doy as nat, 3);
    let py = padded(t.year as nat, 2);
    let pd = padded(t.doy as nat, 3);
    let date = date_text(t);
    let time = time_text(t);
    let text = t.text();
    assert(text =~= date + seq!['T'] + time);
    assert(date.len() == 8);
    assert forall|j: int| 0 <= j < 8 implies text[j] != 'T' by {
        assert(text[j] == date[j]);
        if 2 <= j < 4 {
            assert(date[j] == py[j - 2]);
            assert(crate::number::is_digit(py[j - 2]));
        } else if 5 <= j {
            assert(date[j] == pd[j - 5]);
            assert(crate::number::is_digit(pd[j - 5]));
        }
    }
    crate::text::lemma_first_index(text, 'T', 8);
    assert(text.take(8) =~= date);
    assert(text.skip(9) =~= time);
}

proof fn lemma_century_year(y: Seq<char>)
    requires
        y.len() == 2,
        all_digits(y),
    ensures
        all_digits(seq!['2', '0'] + y),
        digits_value(seq!['2', '0'] + y) == 2000 + digits_value(y),
        !crate::text::has_char(seq!['2', '0'] + y, '/'),
{
    let century = seq!['2', '0'];
    let ystr = century + y;
    assert('2' as u32 == 50);
    assert('0' as u32 == 48);
    assert(century.drop_last() =~= seq!['2']);
    assert(seq!['2'].drop_last() =~= Seq::<char>::empty());
    assert(seq!['2'].last() == '2');
    assert(century.last() == '0');
    assert(crate::number::digit_value('2') == 2);
    assert(crate::number::digit_value('0') == 0);
    assert(digits_value(Seq::<char>::empty()) == 0);
    assert(digits_value(seq!['2']) == 2);
    assert(digits_value(century) == 20);
    crate::number::lemma_digits_value_concat(century, y);
    reveal_with_fuel(crate::number::pow10, 3);
    assert forall|i: int| 0 <= i < ystr.len() implies crate::number::is_digit(#[trigger] ystr[i]) by {
        if i >= 2 {
            assert(ystr[i] == y[i - 2]);
        }
    }
    assert(!crate::number::is_digit('/'));
    if crate::text::has_char(ystr, '/') {
        let i = choose|i: int| 0 <= i < ystr.len() && ystr[i] == '/';
        assert(crate::number::is_digit(ystr[i]));
    }
}

/// The date and time parts of the display form read back as the same timestamp.
proof fn lemma_date_time_text(t: Timestamp)
    requires
        t.wf(),
    ensures
        date_time(date_text(t), time_text(t)) == Ok::<Timestamp, TimestampFault>(t),
{
    reveal(date_time);
    reveal_with_fuel(crate::number::pow10, 4);
    lemma_hms_bounds(t);
    let (h, m, sec) = t.hms_parts();
    lemma_padded_facts(t.year as nat, 2);
    lemma_padded_facts(t.doy as nat, 3);
    lemma_padded_facts(h as nat, 2);
    lemma_padded_facts(m as nat, 2);
    lemma_padded_facts(sec as nat, 2);
    let py = padded(t.year as nat, 2);
    let pd = padded(t.doy as nat, 3);
    let ph = padded(h as nat, 2);
    let pm = padded(m as nat, 2);
    let ps = padded(sec as nat, 2);
    let ystr = seq!['2', '0'] + py;
    let hm = ph + seq![':'] + pm;
    lemma_century_year(py);
    crate::text::lemma_split_none(ystr, '/');
    crate::text::lemma_split_append(ystr, pd, '/');
    assert(date_text(t) =~= ystr + seq!['/'] + pd);
    assert(split(date_text(t), '/') =~= seq![ystr, pd]);
    crate::text::lemma_split_none(ph, ':');
    crate::text::lemma_split_append(ph, pm, ':');
    crate::text::lemma_split_append(hm, ps, ':');
    assert(time_text(t) =~= hm + seq![':'] + ps);
    assert(split(time_text(t), ':') =~= seq![ph, pm, ps]);
    crate::number::lemma_parse_digits(ystr, 65535);
    crate::number::lemma_parse_digits(pd, 65535);
    crate::number::lemma_parse_digits(ph, 4294967295);
    crate::number::lemma_parse_digits(pm, 4294967295);
    crate::number::lemma_parse_digits(ps, 4294967295);
    assert(((2000 + t.year) as u16) % 100 == t.year);
}

/// The display form of a well-formed timestamp reads back as the same timestamp,
/// both split at its `T` and as the timestamp token before a data row's frequency.
pub proof fn lemma_text_reads_back(t: Timestamp)
    requires
        t.wf(),
    ensures
        split_once(t.text(), 'T') == Some((date_text(t), time_text(t))),
        date_time(date_text(t), time_text(t)) == Ok::<Timestamp, TimestampFault>(t),
        forall|tokens: Seq<Seq<char>>, fi: int|
            1 <= fi <= tokens.len() && #[trigger] tokens[fi - 1] == t.text() ==> data_timestamp(
                tokens,
                fi,
            ) == Ok::<Timestamp, TimestampFault>(t),
{
    lemma_text_split(t);
    lemma_date_time_text(t);
}

} // verus!
