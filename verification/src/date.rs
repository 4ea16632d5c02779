//! Calendar dates written `YYYY-MM-DD`, and what the `time` crate computes of them.

use vstd::prelude::*;
use crate::pattern::date_at;
use crate::text::is_digit;
use crate::config::field_duration::digit_value;
use crate::text::{chars_of, digit_char};

verus! {

pub open spec fn is_leap_year(y: int) -> bool {
    y % 4 == 0 && (y % 100 != 0 || y % 400 == 0)
}

pub open spec fn days_in_month(y: int, m: int) -> int {
    if m == 2 {
        if is_leap_year(y) {
            29
        } else {
            28
        }
    } else if m == 4 || m == 6 || m == 9 || m == 11 {
        30
    } else {
        31
    }
}

/// A date of the proleptic Gregorian calendar with a four-digit year.
pub open spec fn valid_date(y: int, m: int, d: int) -> bool {
    0 <= y <= 9999 && 1 <= m <= 12 && 1 <= d <= days_in_month(y, m)
}

/// A calendar date with a year from 0 to 9999.
#[derive(Clone, Copy, PartialEq, Eq, Structural, Debug)]
pub struct CalDate {
    pub(crate) year: i32,
    pub(crate) month: u8,
    pub(crate) day: u8,
}

impl CalDate {
    #[verifier::type_invariant]
    pub(crate) closed spec fn inv(self) -> bool {
        valid_date(self.year as int, self.month as int, self.day as int)
    }
}

impl View for CalDate {
    type V = (int, int, int);

    closed spec fn view(&self) -> (int, int, int) {
        (self.year as int, self.month as int, self.day as int)
    }
}

/// The value of the two digits at `i`.
pub open spec fn two_digits(s: Seq<char>, i: int) -> int {
    (digit_value(s[i]) * 10 + digit_value(s[i + 1])) as int
}

/// Year, month and day written in `YYYY-MM-DD` at `c`.
pub open spec fn date_fields(s: Seq<char>, c: int) -> (int, int, int) {
    (
        two_digits(s, c) * 100 + two_digits(s, c + 2),
        two_digits(s, c + 5),
        two_digits(s, c + 8),
    )
}

/// Text that is exactly a `YYYY-MM-DD` date shape, with any decimal digits (not
/// checked for validity).
pub open spec fn date_shaped(s: Seq<char>) -> bool {
    s.len() == 10 && date_at(s, 0)
}

/// ASCII digit at `i`.
pub open spec fn ascii_digit_at(s: Seq<char>, i: int) -> bool {
    0 <= i < s.len() && is_digit(s[i])
}

/// Text that is exactly a `YYYY-MM-DD` date shape with ASCII digits.
pub open spec fn ascii_date_shaped(s: Seq<char>) -> bool {
    &&& s.len() == 10
    &&& ascii_digit_at(s, 0)
    &&& ascii_digit_at(s, 1)
    &&& ascii_digit_at(s, 2)
    &&& ascii_digit_at(s, 3)
    &&& s[4] == '-'
    &&& ascii_digit_at(s, 5)
    &&& ascii_digit_at(s, 6)
    &&& s[7] == '-'
    &&& ascii_digit_at(s, 8)
    &&& ascii_digit_at(s, 9)
}

/// The date written in `s`, when `s` is `YYYY-MM-DD` and names a real date.
pub open spec fn date_of_text(s: Seq<char>) -> Option<(int, int, int)> {
    let f = date_fields(s, 0);
    if ascii_date_shaped(s) && valid_date(f.0, f.1, f.2) {
        Some(f)
    } else {
        None
    }
}

/// The Julian day number of the proleptic Gregorian date `(year, month,
/// day)`: years are counted from March, so that February comes last, and
/// from 4800 before year 0.
pub open spec fn julian_day(year: int, month: int, day: int) -> int {
    let a: int = if month <= 2 { 1 } else { 0 };
    let y = year + 4800 - a;
    let m = month + 12 * a - 3;
    day + (153 * m + 2) / 5 + 365 * y + y / 4 - y / 100 + y / 400 - 32045
}

/// `time::Date::parse` with the ISO 8601 date format, on a text of the shape
/// `YYYY-MM-DD` (ASCII digits). The `time` crate reads the four digits as the
/// year and the next two pairs as month and day, and accepts the text exactly
/// when the month is 1 to 12 and the day exists in that month; the result is
/// that date.
#[verifier::external_body]
fn time_parse_iso_date(s: &str) -> (r: Option<(i32, u8, u8)>)
    requires
        ascii_date_shaped(s@),
    ensures
        r is Some <==> date_of_text(s@) is Some,
        r matches Some(x) ==> date_of_text(s@) == Some((x.0 as int, x.1 as int, x.2 as int)),
{
    match time::Date::parse(s, &time::format_description::well_known::Iso8601::DATE) {
        Ok(d) => Some((d.year(), u8::from(d.month()), d.day())),
        Err(_) => None,
    }
}

/// `time::Date::to_julian_day` of a valid date: documented as the Julian day
/// of the date, the Julian day number `julian_day` of the proleptic Gregorian
/// calendar (2000-01-01 gives 2 451 545).
#[verifier::external_body]
fn time_julian_day(year: i32, month: u8, day: u8) -> (r: i32)
    requires
        valid_date(year as int, month as int, day as int),
    ensures
        r == julian_day(year as int, month as int, day as int),
{
    let m = time::Month::try_from(month).unwrap();
    time::Date::from_calendar_date(year, m, day).unwrap().to_julian_day()
}

/// `YYYY-MM-DD` with zero-padded fields.
pub open spec fn iso_date_text(y: int, m: int, d: int) -> Seq<char> {
    seq![
        digit_char(y / 1000),
        digit_char((y / 100) % 10),
        digit_char((y / 10) % 10),
        digit_char(y % 10),
        '-',
        digit_char(m / 10),
        digit_char(m % 10),
        '-',
        digit_char(d / 10),
        digit_char(d % 10),
    ]
}

/// `time::Date::format` with the ISO 8601 date format: for a year from 0 to
/// 9999 the `time` crate writes the year on four digits, then the month and the
/// day on two digits each, zero-padded and separated by hyphens.
#[verifier::external_body]
fn time_format_iso_date(year: i32, month: u8, day: u8) -> (r: String)
    requires
        valid_date(year as int, month as int, day as int),
    ensures
        r@ == iso_date_text(year as int, month as int, day as int),
{
    let m = time::Month::try_from(month).unwrap();
    time::Date::from_calendar_date(year, m, day).unwrap().format(
        &time::format_description::well_known::Iso8601::DATE,
    ).unwrap()
}

impl CalDate {
    pub fn year(&self) -> (r: i32)
        ensures
            r == self@.0,
    {
        self.year
    }

    pub fn month(&self) -> (r: u8)
        ensures
            r == self@.1,
    {
        self.month
    }

    pub fn day(&self) -> (r: u8)
        ensures
            r == self@.2,
    {
        self.day
    }

    /// The date written `YYYY-MM-DD` in `s`, if it is one.
    pub fn parse_iso(s: &str) -> (r: Option<CalDate>)
        ensures
            r is Some <==> date_of_text(s@) is Some,
            r matches Some(d) ==> date_of_text(s@) == Some(d@),
    {
        let v = chars_of(s);
        if v.len() != 10 || !(is_digit_at(&v, 0) && is_digit_at(&v, 1) && is_digit_at(&v, 2)
            && is_digit_at(&v, 3) && v[4] == '-' && is_digit_at(&v, 5) && is_digit_at(&v, 6)
            && v[7] == '-' && is_digit_at(&v, 8) && is_digit_at(&v, 9)) {
            return None;
        }
        match time_parse_iso_date(s) {
            None => None,
            Some((y, m, d)) => Some(CalDate { year: y, month: m, day: d }),
        }
    }

    /// `time::Date::to_julian_day`.
    pub fn julian_day(&self) -> (r: i32)
        ensures
            r == julian_day(self@.0, self@.1, self@.2),
    {
        proof {
            use_type_invariant(self);
        }
        time_julian_day(self.year, self.month, self.day)
    }

    /// The date written `YYYY-MM-DD`.
    pub fn to_iso_string(&self) -> (r: String)
        ensures
            r@ == iso_date_text(self@.0, self@.1, self@.2),
    {
        proof {
            use_type_invariant(self);
        }
        time_format_iso_date(self.year, self.month, self.day)
    }
}

fn is_digit_at(v: &Vec<char>, i: usize) -> (r: bool)
    requires
        i < v.len(),
    ensures
        r == ascii_digit_at(v@, i as int),
{
    '0' <= v[i] && v[i] <= '9'
}

proof fn lemma_div_step(y: int, k: int)
    requires
        y >= 1,
        k > 0,
    ensures
        y / k - (y - 1) / k == if y % k == 0 { 1int } else { 0 },
{
    assert(y == k * (y / k) + y % k) by (nonlinear_arith)
        requires
            k > 0,
    ;
    assert(y - 1 == k * ((y - 1) / k) + (y - 1) % k) by (nonlinear_arith)
        requires
            k > 0,
    ;
    assert(0 <= y % k < k);
    assert(0 <= (y - 1) % k < k);
    let q = y / k;
    let q1 = (y - 1) / k;
    if q1 > q {
        assert(k * q1 >= k * q + k) by (nonlinear_arith)
            requires
                q1 >= q + 1,
                k > 0,
        ;
    }
    if q1 < q - 1 {
        assert(k * q1 <= k * q - 2 * k) by (nonlinear_arith)
            requires
                q1 <= q - 2,
                k > 0,
        ;
    }
    if q1 == q - 1 {
        assert(k * q1 == k * q - k) by (nonlinear_arith)
            requires
                q1 == q - 1,
        ;
    }
}

/// The last day of a month and the first day of the next one, in one year,
/// are one Julian day apart.
proof fn lemma_next_month(y: int, m: int)
    requires
        0 <= y <= 9999,
        1 <= m <= 11,
    ensures
        julian_day(y, m, days_in_month(y, m)) + 1 == julian_day(y, m + 1, 1),
{
    if m == 2 {
        let big = y + 4800;
        lemma_div_step(big, 4);
        lemma_div_step(big, 100);
        lemma_div_step(big, 400);
        assert(big % 4 == y % 4);
        assert(big % 100 == y % 100);
        assert(big % 400 == y % 400);
    }
}

/// The last day of a year and the first day of the next one are one Julian
/// day apart.
proof fn lemma_next_year(y: int)
    requires
        0 <= y,
    ensures
        julian_day(y, 12, 31) + 1 == julian_day(y + 1, 1, 1),
{
}

/// Within one year, a later date has a greater Julian day.
proof fn lemma_julian_day_in_year(y: int, m1: int, d1: int, m2: int, d2: int)
    requires
        valid_date(y, m1, d1),
        valid_date(y, m2, d2),
        m1 < m2 || (m1 == m2 && d1 < d2),
    ensures
        julian_day(y, m1, d1) < julian_day(y, m2, d2),
    decreases m2 - m1,
{
    if m1 < m2 {
        lemma_next_month(y, m1);
        assert(julian_day(y, m1, d1) <= julian_day(y, m1, days_in_month(y, m1)));
        if !(m1 + 1 == m2 && d2 == 1) {
            lemma_julian_day_in_year(y, m1 + 1, 1, m2, d2);
        }
    }
}

/// A later date has a greater Julian day.
proof fn lemma_julian_day_increases(a: (int, int, int), b: (int, int, int))
    requires
        valid_date(a.0, a.1, a.2),
        valid_date(b.0, b.1, b.2),
        date_le(a, b),
        a != b,
    ensures
        julian_day(a.0, a.1, a.2) < julian_day(b.0, b.1, b.2),
    decreases b.0 - a.0,
{
    if a.0 == b.0 {
        lemma_julian_day_in_year(a.0, a.1, a.2, b.1, b.2);
    } else {
        if !(a.1 == 12 && a.2 == 31) {
            lemma_julian_day_in_year(a.0, a.1, a.2, 12, 31);
        }
        lemma_next_year(a.0);
        let n = (a.0 + 1, 1int, 1int);
        if n != b {
            lemma_julian_day_increases(n, b);
        }
    }
}

/// Dates in calendar order have Julian days in the same order, and distinct
/// dates distinct Julian days.
pub proof fn law_julian_day_order(a: (int, int, int), b: (int, int, int))
    requires
        valid_date(a.0, a.1, a.2),
        valid_date(b.0, b.1, b.2),
    ensures
        date_le(a, b) <==> julian_day(a.0, a.1, a.2) <= julian_day(b.0, b.1, b.2),
        a == b <==> julian_day(a.0, a.1, a.2) == julian_day(b.0, b.1, b.2),
{
    if a != b {
        if date_le(a, b) {
            lemma_julian_day_increases(a, b);
        } else {
            lemma_julian_day_increases(b, a);
        }
    }
}

/// Dates in calendar order.
pub open spec fn date_le(a: (int, int, int), b: (int, int, int)) -> bool {
    a.0 < b.0 || (a.0 == b.0 && (a.1 < b.1 || (a.1 == b.1 && a.2 <= b.2)))
}

impl CalDate {
    /// Whether `self` comes before `other` or is the same date.
    pub fn is_before_or_same(&self, other: &CalDate) -> (r: bool)
        ensures
            r == date_le(self@, other@),
    {
        self.year < other.year || (self.year == other.year && (self.month < other.month || (
        self.month == other.month && self.day <= other.day)))
    }
}


proof fn lemma_digit_round_trip(c: char)
    requires
        '0' <= c <= '9',
    ensures
        digit_char(digit_value(c) as int) == c,
        digit_value(c) <= 9,
{
}

/// A date read from its `YYYY-MM-DD` text is written back as the same text.
pub proof fn law_date_text_round_trip(s: Seq<char>)
    requires
        date_of_text(s) is Some,
    ensures
        ({
            let (y, m, d) = date_of_text(s)->0;
            iso_date_text(y, m, d) == s
        }),
{
    let (y, m, d) = date_of_text(s)->0;
    let d0 = digit_value(s[0]) as int;
    let d1 = digit_value(s[1]) as int;
    let d2 = digit_value(s[2]) as int;
    let d3 = digit_value(s[3]) as int;
    let m0 = digit_value(s[5]) as int;
    let m1 = digit_value(s[6]) as int;
    let e0 = digit_value(s[8]) as int;
    let e1 = digit_value(s[9]) as int;
    lemma_digit_round_trip(s[0]);
    lemma_digit_round_trip(s[1]);
    lemma_digit_round_trip(s[2]);
    lemma_digit_round_trip(s[3]);
    lemma_digit_round_trip(s[5]);
    lemma_digit_round_trip(s[6]);
    lemma_digit_round_trip(s[8]);
    lemma_digit_round_trip(s[9]);
    assert(y == d0 * 1000 + d1 * 100 + d2 * 10 + d3);
    assert(y / 1000 == d0 && (y / 100) % 10 == d1 && (y / 10) % 10 == d2 && y % 10 == d3) by (
    nonlinear_arith)
        requires
            y == d0 * 1000 + d1 * 100 + d2 * 10 + d3,
            0 <= d0 <= 9,
            0 <= d1 <= 9,
            0 <= d2 <= 9,
            0 <= d3 <= 9,
    ;
    assert(m == m0 * 10 + m1);
    assert(d == e0 * 10 + e1);
    assert(m / 10 == m0 && m % 10 == m1) by (nonlinear_arith)
        requires
            m == m0 * 10 + m1,
            0 <= m0 <= 9,
            0 <= m1 <= 9,
    ;
    assert(d / 10 == e0 && d % 10 == e1) by (nonlinear_arith)
        requires
            d == e0 * 10 + e1,
            0 <= e0 <= 9,
            0 <= e1 <= 9,
    ;
    assert(iso_date_text(y, m, d) =~= s);
}

} // verus!
