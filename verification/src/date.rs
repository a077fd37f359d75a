//! Serial-date codec.
//!
//! A spreadsheet stores a date-time cell as a serial value: a day count from
//! the epoch 1899-12-30 plus a fraction of a day.  Callers split the serial
//! into the whole day count and the day fraction rounded to whole seconds;
//! this module turns that pair into a calendar timestamp and back.  Dates are
//! represented in the proleptic Gregorian calendar, years 1 through 9999.

use vstd::prelude::*;

verus! {

/// A calendar timestamp: a Gregorian date and a time of day.
#[derive(Clone, Copy, Debug, PartialEq, Eq, Structural)]
pub struct Timestamp {
    pub year: i64,
    pub month: u8,
    pub day: u8,
    pub hour: u8,
    pub minute: u8,
    pub second: u8,
}

pub open spec fn is_leap_year(y: int) -> bool {
    (y % 4 == 0 && y % 100 != 0) || y % 400 == 0
}

pub open spec fn year_length(y: int) -> int {
    if is_leap_year(y) {
        366
    } else {
        365
    }
}

pub open spec fn days_in_month(y: int, m: int) -> int {
    if m == 2 {
        if is_leap_year(y) {
            29
        } else {
            28
        }
    } else if m == 4 || m == 6 || m == 9 || m == 11 {
        30
    } else {
        31
    }
}

/// Days from 0001-01-01 to the first day of year `y` (for `y >= 1`).
pub open spec fn days_before_year(y: int) -> int
    decreases y,
{
    if y <= 1 {
        0
    } else {
        days_before_year(y - 1) + year_length(y - 1)
    }
}

/// Days from the first day of year `y` to the first day of month `m`.
pub open spec fn days_before_month(y: int, m: int) -> int
    decreases m,
{
    if m <= 1 {
        0
    } else {
        days_before_month(y, m - 1) + days_in_month(y, m - 1)
    }
}

/// Absolute day number of a date; 0001-01-01 is day 0.
pub open spec fn day_number(y: int, m: int, d: int) -> int {
    days_before_year(y) + days_before_month(y, m) + (d - 1)
}

/// A well-formed timestamp: a real calendar date in years 1..=9999 and a
/// valid time of day.
pub open spec fn ts_wf(ts: Timestamp) -> bool {
    &&& 1 <= ts.year <= 9999
    &&& 1 <= ts.month <= 12
    &&& 1 <= ts.day <= days_in_month(ts.year as int, ts.month as int)
    &&& ts.hour < 24
    &&& ts.minute < 60
    &&& ts.second < 60
}

pub open spec fn ts_day_number(ts: Timestamp) -> int {
    day_number(ts.year as int, ts.month as int, ts.day as int)
}

pub open spec fn ts_day_seconds(ts: Timestamp) -> int {
    ts.hour * 3600 + ts.minute * 60 + ts.second
}

/// Day number of the serial epoch, 1899-12-30.
pub open spec fn epoch_day_number() -> int {
    day_number(1899, 12, 30)
}

/// Exclusive upper bound on representable day numbers: the first day of
/// year 10000.
pub open spec fn day_number_limit() -> int {
    days_before_year(10000)
}

/// The day count after folding a day-fraction carry into it.  The seconds
/// part of a split serial lies in [-86400, 86400]; a full day on either end
/// moves into the day count.
pub open spec fn carry_days(days: int, secs: int) -> int {
    if secs < 0 {
        days - 1
    } else if secs >= 86400 {
        days + 1
    } else {
        days
    }
}

/// The seconds-of-day part after the carry, in [0, 86400).
pub open spec fn carry_secs(secs: int) -> int {
    if secs < 0 {
        secs + 86400
    } else if secs >= 86400 {
        secs - 86400
    } else {
        secs
    }
}

/// Whether a split serial lands on a representable date.
pub open spec fn serial_in_range(days: int, secs: int) -> bool {
    0 <= epoch_day_number() + carry_days(days, secs) < day_number_limit()
}

/// Whether `ts` is the timestamp that the split serial `(days, secs)`
/// denotes.
pub open spec fn decode_matches(days: int, secs: int, ts: Timestamp) -> bool {
    &&& ts_wf(ts)
    &&& ts_day_number(ts) == epoch_day_number() + carry_days(days, secs)
    &&& ts_day_seconds(ts) == carry_secs(secs)
}

/// The timestamp a split serial decodes to, if it is representable.
pub open spec fn decoded_timestamp(days: int, secs: int) -> Option<Timestamp> {
    if serial_in_range(days, secs) {
        Some(choose|ts: Timestamp| decode_matches(days, secs, ts))
    } else {
        None
    }
}

pub proof fn lemma_days_before_year_bounds(y1: int, y2: int)
    requires
        1 <= y1 <= y2,
    ensures
        365 * (y2 - y1) <= days_before_year(y2) - days_before_year(y1) <= 366 * (y2 - y1),
    decreases y2 - y1,
{
    if y1 < y2 {
        lemma_days_before_year_bounds(y1, y2 - 1);
    }
}

pub proof fn lemma_days_before_month_sums(y: int, m: int)
    requires
        1 <= m <= 13,
    ensures
        days_before_month(y, m) + (13 - m) * 28 <= days_before_month(y, 13),
        days_before_month(y, 13) == year_length(y),
        0 <= days_before_month(y, m),
    decreases 13 - m,
{
    lemma_days_before_month_monotone(y, 1, m);
    if m < 13 {
        lemma_days_before_month_sums(y, m + 1);
    } else {
        reveal_with_fuel(days_before_month, 14);
        assert(days_before_month(y, 13) == year_length(y));
    }
}

/// A well-formed date's day number lies inside its own year, and inside the
/// representable range.
pub proof fn lemma_day_number_range(ts: Timestamp)
    requires
        ts_wf(ts),
    ensures
        days_before_year(ts.year as int) <= ts_day_number(ts) < days_before_year(ts.year as int + 1),
        0 <= ts_day_number(ts) < day_number_limit(),
{
    let y = ts.year as int;
    let m = ts.month as int;
    lemma_days_before_month_sums(y, m);
    lemma_days_before_month_sums(y, m + 1);
    assert(days_before_month(y, m + 1) == days_before_month(y, m) + days_in_month(y, m));
    assert(ts_day_number(ts) < days_before_year(y) + year_length(y));
    assert(days_before_year(y + 1) == days_before_year(y) + year_length(y));
    lemma_days_before_year_bounds(1, y);
    lemma_days_before_year_bounds(y + 1, 10000);
}

/// A day number and a seconds-of-day value determine a well-formed timestamp
/// uniquely.
pub proof fn lemma_timestamp_unique(a: Timestamp, b: Timestamp)
    requires
        ts_wf(a),
        ts_wf(b),
        ts_day_number(a) == ts_day_number(b),
        ts_day_seconds(a) == ts_day_seconds(b),
    ensures
        a == b,
{
    lemma_day_number_range(a);
    lemma_day_number_range(b);
    if a.year < b.year {
        lemma_days_before_year_bounds(a.year as int + 1, b.year as int);
        assert(false);
    }
    if b.year < a.year {
        lemma_days_before_year_bounds(b.year as int + 1, a.year as int);
        assert(false);
    }
    let y = a.year as int;
    let ma = a.month as int;
    let mb = b.month as int;
    lemma_days_before_month_sums(y, ma);
    lemma_days_before_month_sums(y, ma + 1);
    lemma_days_before_month_sums(y, mb);
    lemma_days_before_month_sums(y, mb + 1);
    if ma < mb {
        lemma_days_before_month_monotone(y, ma + 1, mb);
        assert(false);
    }
    if mb < ma {
        lemma_days_before_month_monotone(y, mb + 1, ma);
        assert(false);
    }
    assert(a.day == b.day);
    assert(a.hour == b.hour && a.minute == b.minute && a.second == b.second) by {
        assert(ts_day_seconds(a) == a.hour * 3600 + a.minute * 60 + a.second);
        assert(ts_day_seconds(b) == b.hour * 3600 + b.minute * 60 + b.second);
    }
}

pub proof fn lemma_days_before_month_monotone(y: int, m1: int, m2: int)
    requires
        m1 <= m2,
    ensures
        days_before_month(y, m1) <= days_before_month(y, m2),
    decreases m2 - m1,
{
    if m1 < m2 {
        lemma_days_before_month_monotone(y, m1, m2 - 1);
    }
}

fn leap_year(y: i64) -> (r: bool)
    requires
        y >= 1,
    ensures
        r == is_leap_year(y as int),
{
    (y % 4 == 0 && y % 100 != 0) || y % 400 == 0
}

fn year_len(y: i64) -> (r: i64)
    requires
        y >= 1,
    ensures
        r == year_length(y as int),
{
    if leap_year(y) {
        366
    } else {
        365
    }
}

fn month_len(y: i64, m: i64) -> (r: i64)
    requires
        y >= 1,
        1 <= m <= 12,
    ensures
        r == days_in_month(y as int, m as int),
{
    if m == 2 {
        if leap_year(y) {
            29
        } else {
            28
        }
    } else if m == 4 || m == 6 || m == 9 || m == 11 {
        30
    } else {
        31
    }
}

/// Days from 0001-01-01 to the first day of year `y`.
fn days_to_year(y: i64) -> (r: i64)
    requires
        1 <= y <= 10000,
    ensures
        r == days_before_year(y as int),
        0 <= r <= 366 * (y as int - 1),
{
    let mut acc: i64 = 0;
    let mut i: i64 = 1;
    while i < y
        invariant
            1 <= i <= y <= 10000,
            acc == days_before_year(i as int),
            0 <= acc <= 366 * (i as int - 1),
        decreases y - i,
    {
        acc = acc + year_len(i);
        i = i + 1;
    }
    acc
}

/// The absolute day number of a well-formed date.
fn ymd_day_number(y: i64, m: i64, d: i64) -> (r: i64)
    requires
        1 <= y <= 9999,
        1 <= m <= 12,
        1 <= d <= days_in_month(y as int, m as int),
    ensures
        r == day_number(y as int, m as int, d as int),
        0 <= r < day_number_limit(),
{
    let base = days_to_year(y);
    let mut acc: i64 = 0;
    let mut i: i64 = 1;
    while i < m
        invariant
            1 <= i <= m <= 12,
            y >= 1,
            acc == days_before_month(y as int, i as int),
            0 <= acc <= 31 * (i as int - 1),
        decreases m - i,
    {
        acc = acc + month_len(y, i);
        i = i + 1;
    }
    proof {
        let ts = Timestamp {
            year: y,
            month: m as u8,
            day: d as u8,
            hour: 0,
            minute: 0,
            second: 0,
        };
        assert(ts_wf(ts));
        lemma_day_number_range(ts);
    }
    base + acc + (d - 1)
}

/// The date at a given absolute day number.
fn day_number_to_ymd(target: i64) -> (r: (i64, i64, i64))
    requires
        0 <= target < day_number_limit(),
    ensures
        1 <= r.0 <= 9999,
        1 <= r.1 <= 12,
        1 <= r.2 <= days_in_month(r.0 as int, r.1 as int),
        day_number(r.0 as int, r.1 as int, r.2 as int) == target,
{
    let mut y: i64 = 1;
    let mut rem: i64 = target;
    while rem >= year_len(y)
        invariant
            1 <= y <= 9999,
            rem == target - days_before_year(y as int),
            rem >= 0,
            0 <= target < day_number_limit(),
        decreases rem,
    {
        proof {
            if y == 9999 {
                assert(days_before_year(10000) == days_before_year(9999) + year_length(9999));
                assert(false);
            }
            assert(days_before_year(y as int + 1) == days_before_year(y as int) + year_length(
                y as int,
            ));
        }
        rem = rem - year_len(y);
        y = y + 1;
    }
    let mut m: i64 = 1;
    while rem >= month_len(y, m)
        invariant
            1 <= m <= 12,
            1 <= y <= 9999,
            rem == target - days_before_year(y as int) - days_before_month(y as int, m as int),
            rem >= 0,
            target - days_before_year(y as int) < year_length(y as int),
        decreases 12 - m,
    {
        proof {
            if m == 12 {
                lemma_days_before_month_sums(y as int, 13);
                assert(days_before_month(y as int, 13) == year_length(y as int));
                assert(false);
            }
        }
        rem = rem - month_len(y, m);
        m = m + 1;
    }
    (y, m, rem + 1)
}

/// The year whose span of day numbers holds `n`.
proof fn lemma_find_year(n: int, y: int) -> (res: int)
    requires
        1 <= y <= 9999,
        days_before_year(y) <= n < day_number_limit(),
    ensures
        1 <= res <= 9999,
        days_before_year(res) <= n < days_before_year(res) + year_length(res),
    decreases 10000 - y,
{
    if n < days_before_year(y) + year_length(y) {
        y
    } else {
        if y == 9999 {
            assert(days_before_year(10000) == days_before_year(9999) + year_length(9999));
            assert(false);
        }
        assert(days_before_year(y + 1) == days_before_year(y) + year_length(y));
        lemma_find_year(n, y + 1)
    }
}

/// The month of year `y` whose span of day offsets holds `off`.
proof fn lemma_find_month(y: int, off: int, m: int) -> (res: int)
    requires
        1 <= m <= 12,
        days_before_month(y, m) <= off < year_length(y),
    ensures
        1 <= res <= 12,
        days_before_month(y, res) <= off < days_before_month(y, res) + days_in_month(y, res),
    decreases 12 - m,
{
    if off < days_before_month(y, m) + days_in_month(y, m) {
        m
    } else {
        if m == 12 {
            lemma_days_before_month_sums(y, 13);
            assert(false);
        }
        lemma_find_month(y, off, m + 1)
    }
}

/// Every in-range split serial has a matching timestamp, so `decoded_timestamp`
/// picks one that matches.
pub proof fn lemma_serial_decodable(days: int, secs: int)
    requires
        -86400 <= secs <= 86400,
        serial_in_range(days, secs),
    ensures
        decoded_timestamp(days, secs) is Some,
        decode_matches(days, secs, decoded_timestamp(days, secs).unwrap()),
{
    let n = epoch_day_number() + carry_days(days, secs);
    let y = lemma_find_year(n, 1);
    let off = n - days_before_year(y);
    let m = lemma_find_month(y, off, 1);
    let d = off - days_before_month(y, m) + 1;
    let s = carry_secs(secs);
    let ts = Timestamp {
        year: y as i64,
        month: m as u8,
        day: d as u8,
        hour: (s / 3600) as u8,
        minute: ((s % 3600) / 60) as u8,
        second: ((s % 3600) % 60) as u8,
    };
    assert(ts_wf(ts));
    assert(ts_day_seconds(ts) == s);
    assert(ts_day_number(ts) == n);
    assert(decode_matches(days, secs, ts));
}

/// Decodes a split serial value: `days` whole days from the epoch
/// 1899-12-30 plus `day_secs` seconds of the day, the day fraction already
/// rounded to whole seconds.  Returns `None` when the date falls outside
/// years 1..=9999.
pub fn excel_serial_to_naive_datetime(days: i64, day_secs: i64) -> (r: Option<Timestamp>)
    requires
        -86400 <= day_secs <= 86400,
    ensures
        r == decoded_timestamp(days as int, day_secs as int),
        r is Some ==> ts_wf(r.unwrap()),
{
    proof {
        lemma_days_before_year_bounds(1, 1900);
        lemma_days_before_year_bounds(1900, 10000);
        lemma_days_before_month_sums(1899, 12);
        lemma_days_before_month_sums(1899, 13);
    }
    if days > 4000000 || days < -4000000 {
        return None;
    }
    let mut d2: i64 = days;
    let mut s2: i64 = day_secs;
    if s2 < 0 {
        s2 = s2 + 86400;
        d2 = d2 - 1;
    } else if s2 >= 86400 {
        s2 = s2 - 86400;
        d2 = d2 + 1;
    }
    let epoch = ymd_day_number(1899, 12, 30);
    let limit = days_to_year(10000);
    let target = epoch + d2;
    if target < 0 || target >= limit {
        return None;
    }
    let (y, m, d) = day_number_to_ymd(target);
    let hour = s2 / 3600;
    let minute = (s2 % 3600) / 60;
    let second = (s2 % 3600) % 60;
    let ts = Timestamp {
        year: y,
        month: m as u8,
        day: d as u8,
        hour: hour as u8,
        minute: minute as u8,
        second: second as u8,
    };
    proof {
        assert(ts_day_seconds(ts) == s2);
        assert(decode_matches(days as int, day_secs as int, ts));
        let picked = choose|t: Timestamp| decode_matches(days as int, day_secs as int, t);
        lemma_timestamp_unique(ts, picked);
    }
    Some(ts)
}

/// Encodes a timestamp back into a split serial value: whole days from the
/// epoch and seconds of the day.  The result always decodes to the same
/// timestamp again.
pub fn naive_datetime_to_excel_serial(ts: &Timestamp) -> (r: (i64, i64))
    requires
        ts_wf(*ts),
    ensures
        r.0 == ts_day_number(*ts) - epoch_day_number(),
        r.1 == ts_day_seconds(*ts),
        0 <= r.1 < 86400,
        decoded_timestamp(r.0 as int, r.1 as int) == Some(*ts),
{
    proof {
        lemma_day_number_range(*ts);
    }
    let num = ymd_day_number(ts.year, ts.month as i64, ts.day as i64);
    let epoch = ymd_day_number(1899, 12, 30);
    let secs = (ts.hour as i64) * 3600 + (ts.minute as i64) * 60 + (ts.second as i64);
    proof {
        let days = num as int - epoch as int;
        assert(carry_days(days, secs as int) == days);
        assert(carry_secs(secs as int) == secs as int);
        assert(serial_in_range(days, secs as int));
        assert(decode_matches(days, secs as int, *ts));
        let picked = choose|t: Timestamp| decode_matches(days, secs as int, t);
        lemma_timestamp_unique(*ts, picked);
    }
    (num - epoch, secs)
}

/// Law: a split serial that decodes successfully, re-encoded from the
/// resulting timestamp, decodes to that same timestamp again.
pub proof fn lemma_serial_round_trip(days: int, secs: int)
    requires
        -86400 <= secs <= 86400,
        decoded_timestamp(days, secs) is Some,
    ensures
        ts_wf(decoded_timestamp(days, secs).unwrap()),
        ({
            let ts = decoded_timestamp(days, secs).unwrap();
            decoded_timestamp(ts_day_number(ts) - epoch_day_number(), ts_day_seconds(ts)) == Some(
                ts,
            )
        }),
{
    let ts = decoded_timestamp(days, secs).unwrap();
    lemma_serial_decodable(days, secs);
    let days2 = ts_day_number(ts) - epoch_day_number();
    let secs2 = ts_day_seconds(ts);
    assert(0 <= secs2 < 86400);
    assert(carry_days(days2, secs2) == days2);
    assert(carry_secs(secs2) == secs2);
    lemma_day_number_range(ts);
    assert(serial_in_range(days2, secs2));
    assert(decode_matches(days2, secs2, ts));
    let picked = choose|t: Timestamp| decode_matches(days2, secs2, t);
    lemma_timestamp_unique(ts, picked);
}

/// Law: the serial value zero decodes to the epoch, 1899-12-30 00:00:00.
pub proof fn lemma_decode_epoch()
    ensures
        decoded_timestamp(0, 0) == Some(
            Timestamp { year: 1899, month: 12, day: 30, hour: 0, minute: 0, second: 0 },
        ),
{
    let ts = Timestamp { year: 1899, month: 12, day: 30, hour: 0, minute: 0, second: 0 };
    lemma_days_before_month_sums(1899, 12);
    assert(ts_wf(ts));
    lemma_day_number_range(ts);
    assert(decode_matches(0, 0, ts));
    let picked = choose|t: Timestamp| decode_matches(0, 0, t);
    lemma_timestamp_unique(ts, picked);
}

} // verus!
