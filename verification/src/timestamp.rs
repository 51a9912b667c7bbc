//! Calendar timestamps and their wire encoding.
//!
//! The wire format is UTC at second precision, `YYYY-MM-DDTHH:MM:SSZ`
//! (20 bytes).  A timestamp is held as plain calendar fields so that
//! validity, ordering and the codec are all stated arithmetically.

use vstd::prelude::*;
use vstd::arithmetic::div_mod::lemma_fundamental_div_mod;
use vstd::arithmetic::div_mod::lemma_div_denominator;
use crate::num::is_digit;
use crate::num::digit_val;

verus! {

/// An instant in time, UTC, second precision.
#[derive(Clone, Copy, PartialEq, Eq, Structural, Debug)]
pub struct Timestamp {
    pub year: u32,
    pub month: u32,
    pub day: u32,
    pub hour: u32,
    pub minute: u32,
    pub second: u32,
}

pub open spec fn is_leap_year(y: int) -> bool {
    y % 4 == 0 && (y % 100 != 0 || y % 400 == 0)
}

pub open spec fn days_in_month(y: int, m: int) -> int {
    if m == 4 || m == 6 || m == 9 || m == 11 {
        30
    } else if m == 2 {
        if is_leap_year(y) {
            29
        } else {
            28
        }
    } else {
        31
    }
}

impl Timestamp {
    /// A real calendar date and time that the four-digit-year wire format
    /// can carry.
    pub open spec fn wf(self) -> bool {
        &&& self.year <= 9999
        &&& 1 <= self.month <= 12
        &&& 1 <= self.day <= days_in_month(self.year as int, self.month as int)
        &&& self.hour <= 23
        &&& self.minute <= 59
        &&& self.second <= 59
    }

    /// Chronological order as a lexicographic order on the fields.
    pub open spec fn le_spec(self, other: Timestamp) -> bool {
        if self.year != other.year {
            self.year < other.year
        } else if self.month != other.month {
            self.month < other.month
        } else if self.day != other.day {
            self.day < other.day
        } else if self.hour != other.hour {
            self.hour < other.hour
        } else if self.minute != other.minute {
            self.minute < other.minute
        } else {
            self.second <= other.second
        }
    }

    /// Does `self` fall on or after `other` in time?
    pub fn le(&self, other: &Timestamp) -> (r: bool)
        ensures
            r == self.le_spec(*other),
    {
        if self.year != other.year {
            self.year < other.year
        } else if self.month != other.month {
            self.month < other.month
        } else if self.day != other.day {
            self.day < other.day
        } else if self.hour != other.hour {
            self.hour < other.hour
        } else if self.minute != other.minute {
            self.minute < other.minute
        } else {
            self.second <= other.second
        }
    }

    /// Is this a real calendar date and time?
    pub fn valid(&self) -> (r: bool)
        ensures
            r == self.wf(),
    {
        let dim: u32 = if self.month == 4 || self.month == 6 || self.month == 9 || self.month
            == 11 {
            30
        } else if self.month == 2 {
            if self.year % 4 == 0 && (self.year % 100 != 0 || self.year % 400 == 0) {
                29
            } else {
                28
            }
        } else {
            31
        };
        self.year <= 9999 && 1 <= self.month && self.month <= 12 && 1 <= self.day && self.day
            <= dim && self.hour <= 23 && self.minute <= 59 && self.second <= 59
    }
}

/// Two fixed decimal digits (for values below one hundred).
pub open spec fn dec2(v: int) -> Seq<u8> {
    seq![(48 + v / 10) as u8, (48 + v % 10) as u8]
}

/// Four fixed decimal digits (for values below ten thousand).
pub open spec fn dec4(v: int) -> Seq<u8> {
    seq![
        (48 + v / 1000) as u8,
        (48 + (v / 100) % 10) as u8,
        (48 + (v / 10) % 10) as u8,
        (48 + v % 10) as u8,
    ]
}

/// The canonical 20-byte wire form of a timestamp.
pub open spec fn ts_str(t: Timestamp) -> Seq<u8> {
    dec4(t.year as int) + seq![45u8] + dec2(t.month as int) + seq![45u8] + dec2(t.day as int)
        + seq![84u8] + dec2(t.hour as int) + seq![58u8] + dec2(t.minute as int) + seq![58u8]
        + dec2(t.second as int) + seq![90u8]
}

/// Does `s` have the shape `YYYY-MM-DDTHH:MM:SSZ`?
pub open spec fn ts_shape(s: Seq<u8>) -> bool {
    &&& s.len() == 20
    &&& is_digit(s[0]) && is_digit(s[1]) && is_digit(s[2]) && is_digit(s[3])
    &&& s[4] == 45
    &&& is_digit(s[5]) && is_digit(s[6])
    &&& s[7] == 45
    &&& is_digit(s[8]) && is_digit(s[9])
    &&& s[10] == 84
    &&& is_digit(s[11]) && is_digit(s[12])
    &&& s[13] == 58
    &&& is_digit(s[14]) && is_digit(s[15])
    &&& s[16] == 58
    &&& is_digit(s[17]) && is_digit(s[18])
    &&& s[19] == 90
}

pub open spec fn two_digits_at(s: Seq<u8>, i: int) -> int {
    10 * digit_val(s[i]) + digit_val(s[i + 1])
}

pub open spec fn year_of(s: Seq<u8>) -> int {
    1000 * digit_val(s[0]) + 100 * digit_val(s[1]) + 10 * digit_val(s[2]) + digit_val(s[3])
}

/// The timestamp a 20-byte field denotes, if it has the right shape and is
/// a real calendar date and time.
pub open spec fn ts_of(s: Seq<u8>) -> Option<Timestamp> {
    if ts_shape(s) {
        let t = Timestamp {
            year: year_of(s) as u32,
            month: two_digits_at(s, 5) as u32,
            day: two_digits_at(s, 8) as u32,
            hour: two_digits_at(s, 11) as u32,
            minute: two_digits_at(s, 14) as u32,
            second: two_digits_at(s, 17) as u32,
        };
        if t.wf() {
            Some(t)
        } else {
            None
        }
    } else {
        None
    }
}

fn digit_at(s: &Vec<u8>, i: usize) -> (r: Option<u32>)
    requires
        i < s@.len(),
    ensures
        match r {
            Some(v) => is_digit(s@[i as int]) && v == digit_val(s@[i as int]) && v <= 9,
            None => !is_digit(s@[i as int]),
        },
{
    let b = s[i];
    if 48 <= b && b <= 57 {
        Some((b - 48) as u32)
    } else {
        None
    }
}

/// Decode a timestamp field; `None` exactly on inputs that are not the
/// canonical wire form of a valid timestamp.
pub fn parse_timestamp(s: &Vec<u8>) -> (r: Option<Timestamp>)
    ensures
        r == ts_of(s@),
{
    if s.len() != 20 {
        return None;
    }
    if !(s[4] == 45 && s[7] == 45 && s[10] == 84 && s[13] == 58 && s[16] == 58 && s[19] == 90) {
        return None;
    }
    let d0 = match digit_at(s, 0) {
        Some(v) => v,
        None => { return None; },
    };
    let d1 = match digit_at(s, 1) {
        Some(v) => v,
        None => { return None; },
    };
    let d2 = match digit_at(s, 2) {
        Some(v) => v,
        None => { return None; },
    };
    let d3 = match digit_at(s, 3) {
        Some(v) => v,
        None => { return None; },
    };
    let mo1 = match digit_at(s, 5) {
        Some(v) => v,
        None => { return None; },
    };
    let mo2 = match digit_at(s, 6) {
        Some(v) => v,
        None => { return None; },
    };
    let da1 = match digit_at(s, 8) {
        Some(v) => v,
        None => { return None; },
    };
    let da2 = match digit_at(s, 9) {
        Some(v) => v,
        None => { return None; },
    };
    let h1 = match digit_at(s, 11) {
        Some(v) => v,
        None => { return None; },
    };
    let h2 = match digit_at(s, 12) {
        Some(v) => v,
        None => { return None; },
    };
    let mi1 = match digit_at(s, 14) {
        Some(v) => v,
        None => { return None; },
    };
    let mi2 = match digit_at(s, 15) {
        Some(v) => v,
        None => { return None; },
    };
    let s1 = match digit_at(s, 17) {
        Some(v) => v,
        None => { return None; },
    };
    let s2 = match digit_at(s, 18) {
        Some(v) => v,
        None => { return None; },
    };
    let t = Timestamp {
        year: 1000 * d0 + 100 * d1 + 10 * d2 + d3,
        month: 10 * mo1 + mo2,
        day: 10 * da1 + da2,
        hour: 10 * h1 + h2,
        minute: 10 * mi1 + mi2,
        second: 10 * s1 + s2,
    };
    if t.valid() {
        Some(t)
    } else {
        None
    }
}

/// Append the canonical wire form of a valid timestamp to `out`.
pub fn push_timestamp(t: &Timestamp, out: &mut Vec<u8>)
    requires
        t.wf(),
    ensures
        final(out)@ == old(out)@ + ts_str(*t),
{
    proof {
        lemma_year_digit_bounds(t.year as int);
    }
    out.push(48 + (t.year / 1000) as u8);
    out.push(48 + ((t.year / 100) % 10) as u8);
    out.push(48 + ((t.year / 10) % 10) as u8);
    out.push(48 + (t.year % 10) as u8);
    out.push(45);
    out.push(48 + (t.month / 10) as u8);
    out.push(48 + (t.month % 10) as u8);
    out.push(45);
    out.push(48 + (t.day / 10) as u8);
    out.push(48 + (t.day % 10) as u8);
    out.push(84);
    out.push(48 + (t.hour / 10) as u8);
    out.push(48 + (t.hour % 10) as u8);
    out.push(58);
    out.push(48 + (t.minute / 10) as u8);
    out.push(48 + (t.minute % 10) as u8);
    out.push(58);
    out.push(48 + (t.second / 10) as u8);
    out.push(48 + (t.second % 10) as u8);
    out.push(90);
    assert(final(out)@ =~= old(out)@ + ts_str(*t));
}

/// Bounds on the four digit positions of a year below ten thousand.
proof fn lemma_year_digit_bounds(y: int)
    requires
        0 <= y <= 9999,
    ensures
        0 <= y / 1000 <= 9,
        0 <= (y / 100) % 10 <= 9,
        0 <= (y / 10) % 10 <= 9,
        0 <= y % 10 <= 9,
{
    lemma_fundamental_div_mod(y, 1000);
    lemma_fundamental_div_mod(y, 10);
    lemma_fundamental_div_mod(y / 100, 10);
    lemma_fundamental_div_mod(y / 10, 10);
    lemma_fundamental_div_mod(y, 100);
}

/// The four fixed digits of a year below ten thousand carry exactly its
/// value.
proof fn lemma_year_digits_compose(y: int)
    requires
        0 <= y <= 9999,
    ensures
        1000 * (y / 1000) + 100 * ((y / 100) % 10) + 10 * ((y / 10) % 10) + y % 10 == y,
{
    lemma_fundamental_div_mod(y, 10);
    lemma_fundamental_div_mod(y / 10, 10);
    lemma_fundamental_div_mod(y / 100, 10);
    lemma_div_denominator(y, 10, 10);
    lemma_div_denominator(y, 100, 10);
}

/// Encoding then decoding a valid timestamp gives it back.
pub proof fn lemma_ts_round_trip(t: Timestamp)
    requires
        t.wf(),
    ensures
        ts_of(ts_str(t)) == Some(t),
{
    let s = ts_str(t);
    lemma_year_digit_bounds(t.year as int);
    lemma_fundamental_div_mod(t.month as int, 10);
    lemma_fundamental_div_mod(t.day as int, 10);
    lemma_fundamental_div_mod(t.hour as int, 10);
    lemma_fundamental_div_mod(t.minute as int, 10);
    lemma_fundamental_div_mod(t.second as int, 10);
    assert(ts_shape(s));
    lemma_year_digits_compose(t.year as int);
    assert(year_of(s) == t.year as int);
    assert(two_digits_at(s, 5) == t.month as int);
    assert(two_digits_at(s, 8) == t.day as int);
    assert(two_digits_at(s, 11) == t.hour as int);
    assert(two_digits_at(s, 14) == t.minute as int);
    assert(two_digits_at(s, 17) == t.second as int);
    assert(ts_of(s) == Some(t));
}

/// No byte of the wire form of a timestamp is a field separator, a line
/// break, or a carriage return.
pub proof fn lemma_ts_str_bytes(t: Timestamp)
    requires
        t.wf(),
    ensures
        ts_str(t).len() == 20,
        forall|i: int|
            0 <= i < ts_str(t).len() ==> ts_str(t)[i] != 44 && ts_str(t)[i] != 10 && ts_str(t)[i]
                != 13,
{
    let s = ts_str(t);
    lemma_ts_round_trip(t);
    assert(ts_shape(s));
    assert forall|i: int| 0 <= i < s.len() implies s[i] != 44 && s[i] != 10 && s[i] != 13 by {
        assert(i == 0 || i == 1 || i == 2 || i == 3 || i == 4 || i == 5 || i == 6 || i == 7 || i
            == 8 || i == 9 || i == 10 || i == 11 || i == 12 || i == 13 || i == 14 || i == 15 || i
            == 16 || i == 17 || i == 18 || i == 19);
    }
}

} // verus!
