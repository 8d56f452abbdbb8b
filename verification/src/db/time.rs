//! Calendar dates, times of day, and the UTC timestamp a record carries:
//! parsing from the fixed-width digit fields of the interchange format and
//! rendering in the `YYYY-MM-DDTHH:MM:SSZ` form the store persists.
use vstd::prelude::*;
use crate::text::{all_digits, digit_char, digit_val, is_digit_char, num_val, push_char};

verus! {

/// A proleptic-Gregorian calendar date with a four-digit year.
#[derive(Clone, Copy, Debug, PartialEq, Eq, Structural)]
pub struct CivilDate {
    pub year: u16,
    pub month: u8,
    pub day: u8,
}

/// A time of day, seconds precision.
#[derive(Clone, Copy, Debug, PartialEq, Eq, Structural)]
pub struct CivilTime {
    pub hour: u8,
    pub minute: u8,
    pub second: u8,
}

/// A calendar date and time of day, read as UTC.
#[derive(Clone, Copy, Debug, PartialEq, Eq, Structural)]
pub struct UtcTimestamp {
    pub date: CivilDate,
    pub time: CivilTime,
}

pub open spec fn spec_is_leap_year(y: int) -> bool {
    y % 4 == 0 && (y % 100 != 0 || y % 400 == 0)
}

pub open spec fn spec_days_in_month(y: int, m: int) -> int {
    if m == 2 {
        if spec_is_leap_year(y) { 29 } else { 28 }
    } else if m == 4 || m == 6 || m == 9 || m == 11 {
        30
    } else {
        31
    }
}

impl CivilDate {
    /// A real calendar date with a year of at most four digits.
    pub open spec fn wf(self) -> bool {
        &&& self.year <= 9999
        &&& 1 <= self.month <= 12
        &&& 1 <= self.day <= spec_days_in_month(self.year as int, self.month as int)
    }

    /// Accepts exactly the well-formed dates.
    pub fn new(year: u16, month: u8, day: u8) -> (r: Option<CivilDate>)
        ensures
            ({ let d = (CivilDate { year, month, day });
                if d.wf() { r == Some(d) } else { r is None } }),
    {
        let d = CivilDate { year, month, day };
        if year <= 9999 && 1 <= month && month <= 12 && 1 <= day
            && day <= days_in_month(year, month) {
            Some(d)
        } else {
            None
        }
    }
}

impl CivilTime {
    /// A real time of day.
    pub open spec fn wf(self) -> bool {
        self.hour < 24 && self.minute < 60 && self.second < 60
    }

    /// Accepts exactly the well-formed times.
    pub fn new(hour: u8, minute: u8, second: u8) -> (r: Option<CivilTime>)
        ensures
            ({ let t = (CivilTime { hour, minute, second });
                if t.wf() { r == Some(t) } else { r is None } }),
    {
        let t = CivilTime { hour, minute, second };
        if hour < 24 && minute < 60 && second < 60 {
            Some(t)
        } else {
            None
        }
    }
}

impl UtcTimestamp {
    pub open spec fn wf(self) -> bool {
        self.date.wf() && self.time.wf()
    }

    pub fn new(date: CivilDate, time: CivilTime) -> (r: UtcTimestamp)
        ensures
            r == (UtcTimestamp { date, time }),
    {
        UtcTimestamp { date, time }
    }
}

pub fn days_in_month(y: u16, m: u8) -> (r: u8)
    requires
        1 <= m <= 12,
    ensures
        r == spec_days_in_month(y as int, m as int),
{
    if m == 2 {
        if y % 4 == 0 && (y % 100 != 0 || y % 400 == 0) { 29 } else { 28 }
    } else if m == 4 || m == 6 || m == 9 || m == 11 {
        30
    } else {
        31
    }
}

/// A `QSO_DATE` value: exactly eight decimal digits `YYYYMMDD` naming a real
/// calendar date.
pub open spec fn spec_parse_date(s: Seq<char>) -> Option<CivilDate> {
    if s.len() == 8 && all_digits(s, 0, 8) {
        let d = (CivilDate {
            year: num_val(s, 0, 4) as u16,
            month: num_val(s, 4, 6) as u8,
            day: num_val(s, 6, 8) as u8,
        });
        if d.wf() {
            Some(d)
        } else {
            None
        }
    } else {
        None
    }
}

/// A `TIME_ON` value: exactly six decimal digits `HHMMSS` naming a real time
/// of day.
pub open spec fn spec_parse_time(s: Seq<char>) -> Option<CivilTime> {
    if s.len() == 6 && all_digits(s, 0, 6) {
        let t = (CivilTime {
            hour: num_val(s, 0, 2) as u8,
            minute: num_val(s, 2, 4) as u8,
            second: num_val(s, 4, 6) as u8,
        });
        if t.wf() {
            Some(t)
        } else {
            None
        }
    } else {
        None
    }
}

fn digit_of(c: char) -> (r: Option<u8>)
    ensures
        match r {
            Some(v) => is_digit_char(c) && v == digit_val(c) && v < 10,
            None => !is_digit_char(c),
        },
{
    let x = c as u32;
    if 48 <= x && x <= 57 {
        Some((x - 48) as u8)
    } else {
        None
    }
}

pub fn parse_qso_date(s: &str) -> (r: Option<CivilDate>)
    ensures
        r == spec_parse_date(s@),
        r matches Some(d) ==> d.wf(),
{
    if s.unicode_len() != 8 {
        return None;
    }
    let mut ds: [u8; 8] = [0; 8];
    let mut i: usize = 0;
    while i < 8
        invariant
            s@.len() == 8,
            i <= 8,
            all_digits(s@, 0, i as int),
            forall|j: int| 0 <= j < i ==> ds@[j] == digit_val(s@[j]) && ds@[j] < 10,
        decreases 8 - i,
    {
        match digit_of(s.get_char(i)) {
            Some(v) => {
                ds[i] = v;
            },
            None => {
                return None;
            },
        }
        i += 1;
    }
    let year: u16 = ds[0] as u16 * 1000 + ds[1] as u16 * 100 + ds[2] as u16 * 10 + ds[3] as u16;
    let month: u8 = ds[4] * 10 + ds[5];
    let day: u8 = ds[6] * 10 + ds[7];
    proof {
        reveal_with_fuel(num_val, 5);
        assert(year == num_val(s@, 0, 4));
        assert(month == num_val(s@, 4, 6));
        assert(day == num_val(s@, 6, 8));
    }
    CivilDate::new(year, month, day)
}

pub fn parse_time_on(s: &str) -> (r: Option<CivilTime>)
    ensures
        r == spec_parse_time(s@),
        r matches Some(t) ==> t.wf(),
{
    if s.unicode_len() != 6 {
        return None;
    }
    let mut ds: [u8; 6] = [0; 6];
    let mut i: usize = 0;
    while i < 6
        invariant
            s@.len() == 6,
            i <= 6,
            all_digits(s@, 0, i as int),
            forall|j: int| 0 <= j < i ==> ds@[j] == digit_val(s@[j]) && ds@[j] < 10,
        decreases 6 - i,
    {
        match digit_of(s.get_char(i)) {
            Some(v) => {
                ds[i] = v;
            },
            None => {
                return None;
            },
        }
        i += 1;
    }
    let hour: u8 = ds[0] * 10 + ds[1];
    let minute: u8 = ds[2] * 10 + ds[3];
    let second: u8 = ds[4] * 10 + ds[5];
    proof {
        reveal_with_fuel(num_val, 3);
        assert(hour == num_val(s@, 0, 2));
        assert(minute == num_val(s@, 2, 4));
        assert(second == num_val(s@, 4, 6));
    }
    CivilTime::new(hour, minute, second)
}

/// The persisted rendering of a timestamp: `YYYY-MM-DDTHH:MM:SSZ`, zero
/// padded, UTC marked with a trailing `Z`.
pub open spec fn spec_timestamp_chars(t: UtcTimestamp) -> Seq<char> {
    let y = t.date.year as int;
    let mo = t.date.month as int;
    let d = t.date.day as int;
    let h = t.time.hour as int;
    let mi = t.time.minute as int;
    let s = t.time.second as int;
    seq![
        digit_char(y / 1000 % 10), digit_char(y / 100 % 10), digit_char(y / 10 % 10),
        digit_char(y % 10), '-', digit_char(mo / 10 % 10), digit_char(mo % 10), '-',
        digit_char(d / 10 % 10), digit_char(d % 10), 'T', digit_char(h / 10 % 10),
        digit_char(h % 10), ':', digit_char(mi / 10 % 10), digit_char(mi % 10), ':',
        digit_char(s / 10 % 10), digit_char(s % 10), 'Z',
    ]
}

fn push_two_digits(out: &mut String, v: u16)
    ensures
        final(out)@ == old(out)@ + seq![
            digit_char(v as int / 10 % 10),
            digit_char(v as int % 10),
        ],
{
    let c1 = digit_char_exec(v / 10 % 10);
    push_char(out, c1);
    let c2 = digit_char_exec(v % 10);
    push_char(out, c2);
    assert(old(out)@.push(c1).push(c2) =~= old(out)@ + seq![c1, c2]);
}

fn digit_char_exec(d: u16) -> (r: char)
    requires
        d < 10,
    ensures
        r == digit_char(d as int),
{
    if d == 0 { '0' } else if d == 1 { '1' } else if d == 2 { '2' }
    else if d == 3 { '3' } else if d == 4 { '4' } else if d == 5 { '5' }
    else if d == 6 { '6' } else if d == 7 { '7' } else if d == 8 { '8' }
    else { '9' }
}

/// Renders a timestamp in the persisted `YYYY-MM-DDTHH:MM:SSZ` form.
pub fn render_timestamp(t: &UtcTimestamp) -> (r: String)
    ensures
        r@ == spec_timestamp_chars(*t),
{
    let mut out = String::new();
    push_two_digits(&mut out, t.date.year / 100);
    push_two_digits(&mut out, t.date.year % 100);
    push_char(&mut out, '-');
    push_two_digits(&mut out, t.date.month as u16);
    push_char(&mut out, '-');
    push_two_digits(&mut out, t.date.day as u16);
    push_char(&mut out, 'T');
    push_two_digits(&mut out, t.time.hour as u16);
    push_char(&mut out, ':');
    push_two_digits(&mut out, t.time.minute as u16);
    push_char(&mut out, ':');
    push_two_digits(&mut out, t.time.second as u16);
    push_char(&mut out, 'Z');
    proof {
        let y = t.date.year as int;
        assert(y / 100 / 10 == y / 1000) by (nonlinear_arith)
            requires y >= 0;
        assert((y % 100) % 10 == y % 10) by (nonlinear_arith)
            requires y >= 0;
        assert((y % 100) / 10 % 10 == y / 10 % 10) by (nonlinear_arith)
            requires y >= 0;
    }
    assert(out@ =~= spec_timestamp_chars(*t));
    out
}

} // verus!
