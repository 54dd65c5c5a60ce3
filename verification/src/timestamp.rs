//! Creation timestamps of notes.
//!
//! A note's header records its creation time in the fixed format
//! `YYYY-MM-DD HH:MM:SS`.  The type here holds the six calendar fields as
//! plain numbers; parsing and formatting are exact inverses of one another
//! on well-formed values.

use vstd::prelude::*;
use crate::text::is_digit;

verus! {

/// A calendar timestamp with second precision.
#[derive(Clone, Copy, Debug, PartialEq, Eq, Structural)]
pub struct Timestamp {
    pub year: u16,
    pub month: u8,
    pub day: u8,
    pub hour: u8,
    pub minute: u8,
    pub second: u8,
}

/// Gregorian leap-year rule.
pub open spec fn is_leap_year(y: int) -> bool {
    (y % 4 == 0 && y % 100 != 0) || y % 400 == 0
}

/// Number of days in the given month of the given year.
pub open spec fn days_in_month(y: int, m: int) -> int {
    if m == 2 {
        if is_leap_year(y) { 29 } else { 28 }
    } else if m == 4 || m == 6 || m == 9 || m == 11 {
        30
    } else {
        31
    }
}

impl Timestamp {
    /// The fields form a real calendar date and time of day; the year has
    /// at most four digits so that formatting is well defined.
    pub open spec fn wf(self) -> bool {
        &&& self.year <= 9999
        &&& 1 <= self.month <= 12
        &&& 1 <= self.day <= days_in_month(self.year as int, self.month as int)
        &&& self.hour <= 23
        &&& self.minute <= 59
        &&& self.second <= 59
    }

    /// Lexicographic order on (year, month, day, hour, minute, second):
    /// `self` is no later than `other`.
    pub open spec fn spec_le(self, other: Timestamp) -> bool {
        if self.year != other.year { self.year < other.year }
        else if self.month != other.month { self.month < other.month }
        else if self.day != other.day { self.day < other.day }
        else if self.hour != other.hour { self.hour < other.hour }
        else if self.minute != other.minute { self.minute < other.minute }
        else { self.second <= other.second }
    }

    /// Decide the order of two timestamps.
    pub fn le(&self, other: &Timestamp) -> (r: bool)
        ensures r == self.spec_le(*other),
    {
        if self.year != other.year { self.year < other.year }
        else if self.month != other.month { self.month < other.month }
        else if self.day != other.day { self.day < other.day }
        else if self.hour != other.hour { self.hour < other.hour }
        else if self.minute != other.minute { self.minute < other.minute }
        else { self.second <= other.second }
    }
}

/// The character standing for one decimal digit.
pub open spec fn digit_char(d: int) -> char {
    if d == 0 { '0' }
    else if d == 1 { '1' }
    else if d == 2 { '2' }
    else if d == 3 { '3' }
    else if d == 4 { '4' }
    else if d == 5 { '5' }
    else if d == 6 { '6' }
    else if d == 7 { '7' }
    else if d == 8 { '8' }
    else { '9' }
}

/// The numeric value of a digit character.
pub open spec fn digit_val(c: char) -> int {
    c as int - '0' as int
}

pub proof fn lemma_digit_char_val(d: int)
    requires 0 <= d <= 9,
    ensures
        is_digit(digit_char(d)),
        digit_val(digit_char(d)) == d,
{
}

/// Two zero-padded decimal digits.
pub open spec fn two_digits(v: int) -> Seq<char> {
    seq![digit_char(v / 10), digit_char(v % 10)]
}

/// Four zero-padded decimal digits.
pub open spec fn four_digits(v: int) -> Seq<char> {
    seq![
        digit_char(v / 1000),
        digit_char((v / 100) % 10),
        digit_char((v / 10) % 10),
        digit_char(v % 10),
    ]
}

/// The canonical `YYYY-MM-DD HH:MM:SS` rendering of a timestamp.
pub open spec fn spec_format_timestamp(ts: Timestamp) -> Seq<char> {
    four_digits(ts.year as int) + seq!['-'] + two_digits(ts.month as int) + seq!['-']
        + two_digits(ts.day as int) + seq![' '] + two_digits(ts.hour as int) + seq![':']
        + two_digits(ts.minute as int) + seq![':'] + two_digits(ts.second as int)
}

/// Value of the two digit characters at `i` and `i + 1`.
pub open spec fn two_digit_val(t: Seq<char>, i: int) -> int {
    10 * digit_val(t[i]) + digit_val(t[i + 1])
}

/// Value of the four digit characters starting at `i`.
pub open spec fn four_digit_val(t: Seq<char>, i: int) -> int {
    1000 * digit_val(t[i]) + 100 * digit_val(t[i + 1]) + 10 * digit_val(t[i + 2])
        + digit_val(t[i + 3])
}

/// The text has the shape `YYYY-MM-DD HH:MM:SS`: nineteen characters,
/// digits and separators in their fixed places.
pub open spec fn timestamp_shape(t: Seq<char>) -> bool {
    &&& t.len() == 19
    &&& is_digit(t[0]) && is_digit(t[1]) && is_digit(t[2]) && is_digit(t[3])
    &&& t[4] == '-'
    &&& is_digit(t[5]) && is_digit(t[6])
    &&& t[7] == '-'
    &&& is_digit(t[8]) && is_digit(t[9])
    &&& t[10] == ' '
    &&& is_digit(t[11]) && is_digit(t[12])
    &&& t[13] == ':'
    &&& is_digit(t[14]) && is_digit(t[15])
    &&& t[16] == ':'
    &&& is_digit(t[17]) && is_digit(t[18])
}

/// Parse `YYYY-MM-DD HH:MM:SS`; `None` when the shape is wrong or the
/// fields do not form a real calendar date and time.
pub open spec fn spec_parse_timestamp(t: Seq<char>) -> Option<Timestamp> {
    if !timestamp_shape(t) {
        None
    } else {
        let ts = Timestamp {
            year: four_digit_val(t, 0) as u16,
            month: two_digit_val(t, 5) as u8,
            day: two_digit_val(t, 8) as u8,
            hour: two_digit_val(t, 11) as u8,
            minute: two_digit_val(t, 14) as u8,
            second: two_digit_val(t, 17) as u8,
        };
        if ts.wf() {
            Some(ts)
        } else {
            None
        }
    }
}

/// Read one digit character of `s`.
fn read_digit(s: &str, i: usize) -> (r: Option<u16>)
    requires i < s@.len(),
    ensures
        match r {
            Some(d) => is_digit(s@[i as int]) && d == digit_val(s@[i as int]) && d <= 9,
            None => !is_digit(s@[i as int]),
        },
{
    let c = s.get_char(i);
    if '0' <= c && c <= '9' {
        let v: u32 = (c as u32) - ('0' as u32);
        assert(v == digit_val(s@[i as int]));
        Some(v as u16)
    } else {
        None
    }
}

/// Parse a timestamp from text.
pub fn parse_timestamp(s: &str) -> (r: Option<Timestamp>)
    ensures
        r == spec_parse_timestamp(s@),
        r is Some ==> r->Some_0.wf(),
{
    if s.unicode_len() != 19 {
        return None;
    }
    let d0 = match read_digit(s, 0) { Some(d) => d, None => { return None; } };
    let d1 = match read_digit(s, 1) { Some(d) => d, None => { return None; } };
    let d2 = match read_digit(s, 2) { Some(d) => d, None => { return None; } };
    let d3 = match read_digit(s, 3) { Some(d) => d, None => { return None; } };
    if s.get_char(4) != '-' { return None; }
    let m0 = match read_digit(s, 5) { Some(d) => d, None => { return None; } };
    let m1 = match read_digit(s, 6) { Some(d) => d, None => { return None; } };
    if s.get_char(7) != '-' { return None; }
    let a0 = match read_digit(s, 8) { Some(d) => d, None => { return None; } };
    let a1 = match read_digit(s, 9) { Some(d) => d, None => { return None; } };
    if s.get_char(10) != ' ' { return None; }
    let h0 = match read_digit(s, 11) { Some(d) => d, None => { return None; } };
    let h1 = match read_digit(s, 12) { Some(d) => d, None => { return None; } };
    if s.get_char(13) != ':' { return None; }
    let i0 = match read_digit(s, 14) { Some(d) => d, None => { return None; } };
    let i1 = match read_digit(s, 15) { Some(d) => d, None => { return None; } };
    if s.get_char(16) != ':' { return None; }
    let s0 = match read_digit(s, 17) { Some(d) => d, None => { return None; } };
    let s1 = match read_digit(s, 18) { Some(d) => d, None => { return None; } };

    let ts = Timestamp {
        year: 1000 * d0 + 100 * d1 + 10 * d2 + d3,
        month: (10 * m0 + m1) as u8,
        day: (10 * a0 + a1) as u8,
        hour: (10 * h0 + h1) as u8,
        minute: (10 * i0 + i1) as u8,
        second: (10 * s0 + s1) as u8,
    };
    if !(1 <= ts.month && ts.month <= 12) { return None; }
    let dim = days_in_month_exec(ts.year, ts.month);
    if !(1 <= ts.day && ts.day <= dim) { return None; }
    if !(ts.hour <= 23 && ts.minute <= 59 && ts.second <= 59) { return None; }
    assert(ts.wf());
    Some(ts)
}

/// Number of days in the given month.
pub fn days_in_month_exec(y: u16, m: u8) -> (r: u8)
    ensures r == days_in_month(y as int, m as int),
{
    if m == 2 {
        let leap = (y % 4 == 0 && y % 100 != 0) || y % 400 == 0;
        assert(leap == is_leap_year(y as int));
        if leap { 29 } else { 28 }
    } else if m == 4 || m == 6 || m == 9 || m == 11 {
        30
    } else {
        31
    }
}

/// The character for one digit value.
fn digit_char_of(d: u16) -> (c: char)
    requires d <= 9,
    ensures c == digit_char(d as int),
{
    if d == 0 { '0' }
    else if d == 1 { '1' }
    else if d == 2 { '2' }
    else if d == 3 { '3' }
    else if d == 4 { '4' }
    else if d == 5 { '5' }
    else if d == 6 { '6' }
    else if d == 7 { '7' }
    else if d == 8 { '8' }
    else { '9' }
}

/// Append two zero-padded digits of `v` to `out`.
fn push_two_digits(out: &mut String, v: u16)
    requires v <= 99,
    ensures final(out)@ == old(out)@ + two_digits(v as int),
{
    let hi = digit_char_of(v / 10);
    let lo = digit_char_of(v % 10);
    crate::text::push_char(out, hi);
    crate::text::push_char(out, lo);
    assert(out@ =~= old(out)@ + two_digits(v as int));
}

/// Render a timestamp as `YYYY-MM-DD HH:MM:SS`.
pub fn format_timestamp(ts: &Timestamp) -> (r: String)
    requires ts.wf(),
    ensures r@ == spec_format_timestamp(*ts),
{
    let mut out = String::new();
    let y = ts.year;
    crate::text::push_char(&mut out, digit_char_of(y / 1000));
    crate::text::push_char(&mut out, digit_char_of((y / 100) % 10));
    crate::text::push_char(&mut out, digit_char_of((y / 10) % 10));
    crate::text::push_char(&mut out, digit_char_of(y % 10));
    crate::text::push_char(&mut out, '-');
    push_two_digits(&mut out, ts.month as u16);
    crate::text::push_char(&mut out, '-');
    push_two_digits(&mut out, ts.day as u16);
    crate::text::push_char(&mut out, ' ');
    push_two_digits(&mut out, ts.hour as u16);
    crate::text::push_char(&mut out, ':');
    push_two_digits(&mut out, ts.minute as u16);
    crate::text::push_char(&mut out, ':');
    push_two_digits(&mut out, ts.second as u16);
    assert(out@ =~= spec_format_timestamp(*ts));
    out
}

/// Formatting a well-formed timestamp and parsing the result yields the
/// original value: the two directions are exact inverses on the canonical
/// shape.
pub proof fn lemma_timestamp_round_trip(ts: Timestamp)
    requires ts.wf(),
    ensures spec_parse_timestamp(spec_format_timestamp(ts)) == Some(ts),
{
    let t = spec_format_timestamp(ts);
    let y = ts.year as int;
    assert(t.len() == 19);
    assert(t[0] == digit_char(y / 1000));
    assert(t[1] == digit_char((y / 100) % 10));
    assert(t[2] == digit_char((y / 10) % 10));
    assert(t[3] == digit_char(y % 10));
    lemma_digit_char_val(y / 1000);
    lemma_digit_char_val((y / 100) % 10);
    lemma_digit_char_val((y / 10) % 10);
    lemma_digit_char_val(y % 10);
    assert(four_digit_val(t, 0) == y) by {
        assert(1000 * (y / 1000) + 100 * ((y / 100) % 10) + 10 * ((y / 10) % 10) + y % 10 == y)
            by (nonlinear_arith)
            requires 0 <= y <= 9999;
    }
    lemma_two_digit_round(t, 5, ts.month as int);
    lemma_two_digit_round(t, 8, ts.day as int);
    lemma_two_digit_round(t, 11, ts.hour as int);
    lemma_two_digit_round(t, 14, ts.minute as int);
    lemma_two_digit_round(t, 17, ts.second as int);
    assert(timestamp_shape(t));
    assert(spec_parse_timestamp(t) == Some(ts));
}

proof fn lemma_two_digit_round(t: Seq<char>, i: int, v: int)
    requires
        0 <= v <= 99,
        0 <= i,
        i + 2 <= t.len(),
        t[i] == digit_char(v / 10),
        t[i + 1] == digit_char(v % 10),
    ensures
        is_digit(t[i]) && is_digit(t[i + 1]),
        two_digit_val(t, i) == v,
{
    lemma_digit_char_val(v / 10);
    lemma_digit_char_val(v % 10);
}


/// The compact `YYYYMMDDHHMMSS` rendering used inside note identifiers.
pub open spec fn spec_format_timestamp_compact(ts: Timestamp) -> Seq<char> {
    four_digits(ts.year as int) + two_digits(ts.month as int) + two_digits(ts.day as int)
        + two_digits(ts.hour as int) + two_digits(ts.minute as int)
        + two_digits(ts.second as int)
}

/// The `YYYY-MM-DD-HHMMSS` rendering used for note file names.
pub open spec fn spec_format_file_stamp(ts: Timestamp) -> Seq<char> {
    four_digits(ts.year as int) + seq!['-'] + two_digits(ts.month as int) + seq!['-']
        + two_digits(ts.day as int) + seq!['-'] + two_digits(ts.hour as int)
        + two_digits(ts.minute as int) + two_digits(ts.second as int)
}

/// Render a timestamp as `YYYYMMDDHHMMSS`.
pub fn format_timestamp_compact(ts: &Timestamp) -> (r: String)
    requires ts.wf(),
    ensures r@ == spec_format_timestamp_compact(*ts),
{
    let mut out = String::new();
    let y = ts.year;
    crate::text::push_char(&mut out, digit_char_of(y / 1000));
    crate::text::push_char(&mut out, digit_char_of((y / 100) % 10));
    crate::text::push_char(&mut out, digit_char_of((y / 10) % 10));
    crate::text::push_char(&mut out, digit_char_of(y % 10));
    push_two_digits(&mut out, ts.month as u16);
    push_two_digits(&mut out, ts.day as u16);
    push_two_digits(&mut out, ts.hour as u16);
    push_two_digits(&mut out, ts.minute as u16);
    push_two_digits(&mut out, ts.second as u16);
    assert(out@ =~= spec_format_timestamp_compact(*ts));
    out
}

/// Render a timestamp as `YYYY-MM-DD-HHMMSS`.
pub fn format_file_stamp(ts: &Timestamp) -> (r: String)
    requires ts.wf(),
    ensures r@ == spec_format_file_stamp(*ts),
{
    let mut out = String::new();
    let y = ts.year;
    crate::text::push_char(&mut out, digit_char_of(y / 1000));
    crate::text::push_char(&mut out, digit_char_of((y / 100) % 10));
    crate::text::push_char(&mut out, digit_char_of((y / 10) % 10));
    crate::text::push_char(&mut out, digit_char_of(y % 10));
    crate::text::push_char(&mut out, '-');
    push_two_digits(&mut out, ts.month as u16);
    crate::text::push_char(&mut out, '-');
    push_two_digits(&mut out, ts.day as u16);
    crate::text::push_char(&mut out, '-');
    push_two_digits(&mut out, ts.hour as u16);
    push_two_digits(&mut out, ts.minute as u16);
    push_two_digits(&mut out, ts.second as u16);
    assert(out@ =~= spec_format_file_stamp(*ts));
    out
}

} // verus!
