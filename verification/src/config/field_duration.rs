//! Durations given in settings, written as one or several fields with a unit.
//!
//! A field is a number with an optional unit, like `5m`, `1d6h` or `30` (seconds
//! when no unit is given). When several fields are present they are added, so
//! `1m30` and `90` are the same duration.
//!
//! Units: `y`/`year` (365 days), `M`/`month` (30 days), `w`/`week` (7 days),
//! `d`/`day`, `h`/`hour`, `m`/`min`, `s`/`sec` (the default), `ms`/`millisec`,
//! `us`/`µs`/`microsec`, `ns`/`nanosec`; `years`, `months`, `weeks`, `days` and
//! `hours` are accepted too.

use vstd::prelude::*;
use crate::text::{lemma_run_end_prefix, lemma_run_end_shift, lemma_run_end_skip, CharClass, run_end, lemma_run_end, find_run_end, chars_of, is_digit};

verus! {

/// A duration, held as whole seconds and the nanoseconds below one second.
#[derive(PartialEq, Eq, Structural, Debug, Clone, Copy)]
pub struct CfgDuration {
    secs: u64,
    nanos: u32,
}

/// Why a duration text was refused.
#[derive(PartialEq, Eq, Structural, Debug, Clone, Copy)]
pub enum DurationError {
    /// The text does not follow the field grammar.
    InvalidFormat,
    /// A number does not fit in 64 bits.
    NumberTooLarge,
    /// The duration does not fit in 64 bits of seconds.
    Overflow,
}

/// The unit of one field.
#[derive(PartialEq, Eq, Structural, Debug, Clone, Copy)]
pub enum DurationUnit {
    Year,
    Month,
    Week,
    Day,
    Hour,
    Minute,
    Second,
    Milli,
    Micro,
    Nano,
}

pub open spec fn nanos_per_sec() -> nat {
    1_000_000_000
}

/// Largest duration, in nanoseconds: `u64::MAX` seconds and 999_999_999 nanoseconds.
pub open spec fn max_nanos() -> nat {
    (u64::MAX as nat) * nanos_per_sec() + 999_999_999
}

impl CfgDuration {
    #[verifier::type_invariant]
    pub closed spec fn wf(self) -> bool {
        self.nanos < 1_000_000_000
    }

    /// The duration in nanoseconds.
    pub closed spec fn total_nanos(self) -> nat {
        (self.secs as nat) * nanos_per_sec() + (self.nanos as nat)
    }

    /// Two durations of the same length are equal.
    pub proof fn law_same_length_same_duration(self, other: Self)
        requires
            self.wf(),
            other.wf(),
            self.total_nanos() == other.total_nanos(),
        ensures
            self == other,
    {
        assert(self.secs == other.secs) by (nonlinear_arith)
            requires
                self.nanos < 1_000_000_000,
                other.nanos < 1_000_000_000,
                (self.secs as int) * 1_000_000_000 + self.nanos == (other.secs as int)
                    * 1_000_000_000 + other.nanos,
        ;
    }
}

impl View for CfgDuration {
    type V = nat;

    open spec fn view(&self) -> nat {
        self.total_nanos()
    }
}

/// Builds the duration of `n` nanoseconds.
fn from_total_nanos(n: u128) -> (d: CfgDuration)
    requires
        n <= max_nanos(),
    ensures
        d.wf(),
        d@ == n,
{
    let secs = n / 1_000_000_000;
    let nanos = n % 1_000_000_000;
    assert(secs <= u64::MAX) by (nonlinear_arith)
        requires
            n <= max_nanos(),
            secs == n / 1_000_000_000,
    ;
    assert(secs * 1_000_000_000 + nanos == n) by (nonlinear_arith)
        requires
            secs == n / 1_000_000_000,
            nanos == n % 1_000_000_000,
    ;
    CfgDuration { secs: secs as u64, nanos: nanos as u32 }
}

impl CfgDuration {
    #[must_use]
    pub fn from_nanos(nanos: u64) -> (d: Self)
        ensures
            d.wf(),
            d@ == nanos,
    {
        from_total_nanos(nanos as u128)
    }

    #[must_use]
    pub fn from_secs(secs: u64) -> (d: Self)
        ensures
            d.wf(),
            d@ == secs * nanos_per_sec(),
    {
        CfgDuration { secs, nanos: 0 }
    }

    #[must_use]
    pub fn from_minutes(minutes: u64) -> (d: Self)
        requires
            minutes * 60 <= u64::MAX,
        ensures
            d.wf(),
            d@ == minutes * 60 * nanos_per_sec(),
    {
        Self::from_secs(minutes * 60)
    }

    #[must_use]
    pub fn from_hours(hours: u64) -> (d: Self)
        requires
            hours * 3600 <= u64::MAX,
        ensures
            d.wf(),
            d@ == hours * 3600 * nanos_per_sec(),
    {
        Self::from_minutes(hours * 60)
    }

    #[must_use]
    pub fn from_days(days: u64) -> (d: Self)
        requires
            days * 86400 <= u64::MAX,
        ensures
            d.wf(),
            d@ == days * 86400 * nanos_per_sec(),
    {
        Self::from_hours(days * 24)
    }

    #[must_use]
    pub fn from_weeks(weeks: u64) -> (d: Self)
        requires
            weeks * 604800 <= u64::MAX,
        ensures
            d.wf(),
            d@ == weeks * 604800 * nanos_per_sec(),
    {
        Self::from_days(weeks * 7)
    }

    #[must_use]
    pub fn from_months(months: u64) -> (d: Self)
        requires
            months * 2592000 <= u64::MAX,
        ensures
            d.wf(),
            d@ == months * 2592000 * nanos_per_sec(),
    {
        Self::from_days(months * 30)
    }

    #[must_use]
    pub fn from_years(years: u64) -> (d: Self)
        requires
            years * 31536000 <= u64::MAX,
        ensures
            d.wf(),
            d@ == years * 31536000 * nanos_per_sec(),
    {
        Self::from_days(years * 365)
    }
}


/// The unit named by a unit word, if it is one.
pub open spec fn unit_of_word(w: Seq<char>) -> Option<DurationUnit> {
    if w == seq!['y'] || w == seq!['y', 'e', 'a', 'r'] || w == seq!['y', 'e', 'a', 'r', 's'] {
        Some(DurationUnit::Year)
    } else if w == seq!['M'] || w == seq!['m', 'o', 'n', 't', 'h'] || w == seq![
        'm',
        'o',
        'n',
        't',
        'h',
        's',
    ] {
        Some(DurationUnit::Month)
    } else if w == seq!['w'] || w == seq!['w', 'e', 'e', 'k'] || w == seq!['w', 'e', 'e', 'k', 's'] {
        Some(DurationUnit::Week)
    } else if w == seq!['d'] || w == seq!['d', 'a', 'y'] || w == seq!['d', 'a', 'y', 's'] {
        Some(DurationUnit::Day)
    } else if w == seq!['h'] || w == seq!['h', 'o', 'u', 'r'] || w == seq!['h', 'o', 'u', 'r', 's'] {
        Some(DurationUnit::Hour)
    } else if w == seq!['m'] || w == seq!['m', 'i', 'n'] {
        Some(DurationUnit::Minute)
    } else if w == seq!['s'] || w == seq!['s', 'e', 'c'] {
        Some(DurationUnit::Second)
    } else if w == seq!['m', 's'] || w == seq!['m', 'i', 'l', 'l', 'i', 's', 'e', 'c'] {
        Some(DurationUnit::Milli)
    } else if w == seq!['u', 's'] || w == seq!['\u{b5}', 's'] || w == seq![
        'm',
        'i',
        'c',
        'r',
        'o',
        's',
        'e',
        'c',
    ] {
        Some(DurationUnit::Micro)
    } else if w == seq!['n', 's'] || w == seq!['n', 'a', 'n', 'o', 's', 'e', 'c'] {
        Some(DurationUnit::Nano)
    } else {
        None
    }
}

/// The unit of a field whose unit word is `s[c..d]`: seconds when there is none.
pub open spec fn field_unit(s: Seq<char>, c: int, d: int) -> Option<DurationUnit> {
    if d == c {
        Some(DurationUnit::Second)
    } else {
        unit_of_word(s.subrange(c, d))
    }
}

/// One field: its digits and its unit.
pub type SpecField = (Seq<char>, DurationUnit);

/// The fields of `s` from position `i`, or `None` when `s[i..]` is not a
/// sequence of fields.
///
/// A field is optional whitespace, a run of ASCII digits, optional whitespace
/// and an optional unit word; a unit word is a run of characters that are
/// neither whitespace nor digits, and must name a unit. Whitespace may end the
/// text only after a field without a unit word.
pub open spec fn duration_fields(s: Seq<char>, i: int) -> Option<Seq<SpecField>>
    decreases s.len() - i,
{
    if !(0 <= i <= s.len()) {
        None
    } else {
        let a = run_end(s, i, CharClass::Space);
        let b = run_end(s, a, CharClass::Digit);
        let c = run_end(s, b, CharClass::Space);
        let d = run_end(s, c, CharClass::Word);
        proof {
            lemma_run_end(s, i, CharClass::Space);
            lemma_run_end(s, a, CharClass::Digit);
            lemma_run_end(s, b, CharClass::Space);
            lemma_run_end(s, c, CharClass::Word);
        }
        if b == a {
            None
        } else {
            match field_unit(s, c, d) {
                None => None,
                Some(u) => {
                    if d >= s.len() {
                        Some(seq![(s.subrange(a, b), u)])
                    } else {
                        match duration_fields(s, d) {
                            None => None,
                            Some(rest) => Some(seq![(s.subrange(a, b), u)] + rest),
                        }
                    }
                },
            }
        }
    }
}

pub open spec fn digit_value(c: char) -> nat {
    ((c as int) - ('0' as int)) as nat
}

/// Decimal value of a run of digits.
pub open spec fn decimal_value(ds: Seq<char>) -> nat
    decreases ds.len(),
{
    if ds.len() == 0 {
        0
    } else {
        decimal_value(ds.drop_last()) * 10 + digit_value(ds.last())
    }
}

/// Units counted in whole seconds, and their length in seconds.
pub open spec fn unit_seconds(u: DurationUnit) -> Option<nat> {
    match u {
        DurationUnit::Year => Some(31_536_000),
        DurationUnit::Month => Some(2_592_000),
        DurationUnit::Week => Some(604_800),
        DurationUnit::Day => Some(86_400),
        DurationUnit::Hour => Some(3_600),
        DurationUnit::Minute => Some(60),
        _ => None,
    }
}

/// Length of a unit in nanoseconds.
pub open spec fn unit_nanos(u: DurationUnit) -> nat {
    match u {
        DurationUnit::Year => 31_536_000 * 1_000_000_000,
        DurationUnit::Month => 2_592_000 * 1_000_000_000,
        DurationUnit::Week => 604_800 * 1_000_000_000,
        DurationUnit::Day => 86_400 * 1_000_000_000,
        DurationUnit::Hour => 3_600 * 1_000_000_000,
        DurationUnit::Minute => 60 * 1_000_000_000,
        DurationUnit::Second => 1_000_000_000,
        DurationUnit::Milli => 1_000_000,
        DurationUnit::Micro => 1_000,
        DurationUnit::Nano => 1,
    }
}

/// Adds one field to `acc` nanoseconds: its number must fit in 64 bits, a
/// field counted in seconds must fit in 64 bits of seconds, and so must the sum.
pub open spec fn add_field(acc: nat, f: SpecField) -> Result<nat, DurationError> {
    let v = decimal_value(f.0);
    if v > u64::MAX {
        Err(DurationError::NumberTooLarge)
    } else if unit_seconds(f.1) matches Some(k) && v * k > u64::MAX {
        Err(DurationError::Overflow)
    } else if acc + v * unit_nanos(f.1) > max_nanos() {
        Err(DurationError::Overflow)
    } else {
        Ok(acc + v * unit_nanos(f.1))
    }
}

/// Adds the fields one after the other, stopping at the first error.
pub open spec fn add_fields(fs: Seq<SpecField>, acc: nat) -> Result<nat, DurationError>
    decreases fs.len(),
{
    if fs.len() == 0 {
        Ok(acc)
    } else {
        match add_field(acc, fs[0]) {
            Err(e) => Err(e),
            Ok(a) => add_fields(fs.drop_first(), a),
        }
    }
}

/// The duration written in `s`, in nanoseconds, or why it is refused.
pub open spec fn duration_value(s: Seq<char>) -> Result<nat, DurationError> {
    match duration_fields(s, 0) {
        None => Err(DurationError::InvalidFormat),
        Some(fs) => add_fields(fs, 0),
    }
}


/// Whether `v[c..d]` is the word `w`.
fn word_is(v: &Vec<char>, c: usize, d: usize, w: &[char]) -> (r: bool)
    requires
        c <= d <= v.len(),
    ensures
        r == (v@.subrange(c as int, d as int) == w@),
{
    if d - c != w.len() {
        return false;
    }
    let mut i: usize = 0;
    while i < w.len()
        invariant
            d - c == w@.len(),
            c <= d <= v.len(),
            i <= w@.len(),
            forall|j: int| 0 <= j < i ==> v@[c + j] == w@[j],
        decreases w.len() - i,
    {
        if v[c + i] != w[i] {
            assert(v@.subrange(c as int, d as int)[i as int] != w@[i as int]);
            return false;
        }
        i = i + 1;
    }
    assert(v@.subrange(c as int, d as int) =~= w@);
    true
}

/// The unit of a field whose unit word is `v[c..d]`.
fn find_field_unit(v: &Vec<char>, c: usize, d: usize) -> (r: Option<DurationUnit>)
    requires
        c <= d <= v.len(),
    ensures
        r == field_unit(v@, c as int, d as int),
{
    if d == c {
        return Some(DurationUnit::Second);
    }
    let year_0: [char; 1] = ['y'];
    assert(year_0@ =~= seq!['y']);
    let year_1: [char; 4] = ['y', 'e', 'a', 'r'];
    assert(year_1@ =~= seq!['y', 'e', 'a', 'r']);
    let year_2: [char; 5] = ['y', 'e', 'a', 'r', 's'];
    assert(year_2@ =~= seq!['y', 'e', 'a', 'r', 's']);
    if word_is(v, c, d, &year_0) || word_is(v, c, d, &year_1) || word_is(v, c, d, &year_2) {
        return Some(DurationUnit::Year);
    }
    let month_0: [char; 1] = ['M'];
    assert(month_0@ =~= seq!['M']);
    let month_1: [char; 5] = ['m', 'o', 'n', 't', 'h'];
    assert(month_1@ =~= seq!['m', 'o', 'n', 't', 'h']);
    let month_2: [char; 6] = ['m', 'o', 'n', 't', 'h', 's'];
    assert(month_2@ =~= seq!['m', 'o', 'n', 't', 'h', 's']);
    if word_is(v, c, d, &month_0) || word_is(v, c, d, &month_1) || word_is(v, c, d, &month_2) {
        return Some(DurationUnit::Month);
    }
    let week_0: [char; 1] = ['w'];
    assert(week_0@ =~= seq!['w']);
    let week_1: [char; 4] = ['w', 'e', 'e', 'k'];
    assert(week_1@ =~= seq!['w', 'e', 'e', 'k']);
    let week_2: [char; 5] = ['w', 'e', 'e', 'k', 's'];
    assert(week_2@ =~= seq!['w', 'e', 'e', 'k', 's']);
    if word_is(v, c, d, &week_0) || word_is(v, c, d, &week_1) || word_is(v, c, d, &week_2) {
        return Some(DurationUnit::Week);
    }
    let day_0: [char; 1] = ['d'];
    assert(day_0@ =~= seq!['d']);
    let day_1: [char; 3] = ['d', 'a', 'y'];
    assert(day_1@ =~= seq!['d', 'a', 'y']);
    let day_2: [char; 4] = ['d', 'a', 'y', 's'];
    assert(day_2@ =~= seq!['d', 'a', 'y', 's']);
    if word_is(v, c, d, &day_0) || word_is(v, c, d, &day_1) || word_is(v, c, d, &day_2) {
        return Some(DurationUnit::Day);
    }
    let hour_0: [char; 1] = ['h'];
    assert(hour_0@ =~= seq!['h']);
    let hour_1: [char; 4] = ['h', 'o', 'u', 'r'];
    assert(hour_1@ =~= seq!['h', 'o', 'u', 'r']);
    let hour_2: [char; 5] = ['h', 'o', 'u', 'r', 's'];
    assert(hour_2@ =~= seq!['h', 'o', 'u', 'r', 's']);
    if word_is(v, c, d, &hour_0) || word_is(v, c, d, &hour_1) || word_is(v, c, d, &hour_2) {
        return Some(DurationUnit::Hour);
    }
    let minute_0: [char; 1] = ['m'];
    assert(minute_0@ =~= seq!['m']);
    let minute_1: [char; 3] = ['m', 'i', 'n'];
    assert(minute_1@ =~= seq!['m', 'i', 'n']);
    if word_is(v, c, d, &minute_0) || word_is(v, c, d, &minute_1) {
        return Some(DurationUnit::Minute);
    }
    let second_0: [char; 1] = ['s'];
    assert(second_0@ =~= seq!['s']);
    let second_1: [char; 3] = ['s', 'e', 'c'];
    assert(second_1@ =~= seq!['s', 'e', 'c']);
    if word_is(v, c, d, &second_0) || word_is(v, c, d, &second_1) {
        return Some(DurationUnit::Second);
    }
    let milli_0: [char; 2] = ['m', 's'];
    assert(milli_0@ =~= seq!['m', 's']);
    let milli_1: [char; 8] = ['m', 'i', 'l', 'l', 'i', 's', 'e', 'c'];
    assert(milli_1@ =~= seq!['m', 'i', 'l', 'l', 'i', 's', 'e', 'c']);
    if word_is(v, c, d, &milli_0) || word_is(v, c, d, &milli_1) {
        return Some(DurationUnit::Milli);
    }
    let micro_0: [char; 2] = ['u', 's'];
    assert(micro_0@ =~= seq!['u', 's']);
    let micro_1: [char; 2] = ['\u{b5}', 's'];
    assert(micro_1@ =~= seq!['\u{b5}', 's']);
    let micro_2: [char; 8] = ['m', 'i', 'c', 'r', 'o', 's', 'e', 'c'];
    assert(micro_2@ =~= seq!['m', 'i', 'c', 'r', 'o', 's', 'e', 'c']);
    if word_is(v, c, d, &micro_0) || word_is(v, c, d, &micro_1) || word_is(v, c, d, &micro_2) {
        return Some(DurationUnit::Micro);
    }
    let nano_0: [char; 2] = ['n', 's'];
    assert(nano_0@ =~= seq!['n', 's']);
    let nano_1: [char; 7] = ['n', 'a', 'n', 'o', 's', 'e', 'c'];
    assert(nano_1@ =~= seq!['n', 'a', 'n', 'o', 's', 'e', 'c']);
    if word_is(v, c, d, &nano_0) || word_is(v, c, d, &nano_1) {
        return Some(DurationUnit::Nano);
    }
    None
}


/// The fields `(start, end, unit)` of `fs`, seen as digits and unit.
pub open spec fn fields_view(s: Seq<char>, fs: Seq<(usize, usize, DurationUnit)>) -> Seq<SpecField> {
    fs.map_values(|f: (usize, usize, DurationUnit)| (s.subrange(f.0 as int, f.1 as int), f.2))
}

pub open spec fn prepend_fields(pre: Seq<SpecField>, r: Option<Seq<SpecField>>) -> Option<
    Seq<SpecField>,
> {
    match r {
        None => None,
        Some(x) => Some(pre + x),
    }
}

/// The fields of `v`, as positions of their digits and their unit.
fn scan_fields(v: &Vec<char>) -> (r: Option<Vec<(usize, usize, DurationUnit)>>)
    ensures
        r is None <==> duration_fields(v@, 0) is None,
        r matches Some(fs) ==> {
            &&& duration_fields(v@, 0) == Some(fields_view(v@, fs@))
            &&& forall|k: int|
                0 <= k < fs@.len() ==> {
                    &&& (#[trigger] fs@[k]).0 < fs@[k].1 <= v@.len()
                    &&& forall|j: int| fs@[k].0 <= j < fs@[k].1 ==> is_digit(v@[j])
                }
        },
{
    let mut out: Vec<(usize, usize, DurationUnit)> = Vec::new();
    let mut i: usize = 0;
    assert(fields_view(v@, out@) + duration_fields(v@, 0)->0 =~= duration_fields(v@, 0)->0);
    loop
        invariant
            i <= v.len(),
            duration_fields(v@, 0) == prepend_fields(fields_view(v@, out@), duration_fields(v@, i as int)),
            forall|k: int|
                0 <= k < out@.len() ==> {
                    &&& (#[trigger] out@[k]).0 < out@[k].1 <= v@.len()
                    &&& forall|j: int| out@[k].0 <= j < out@[k].1 ==> is_digit(v@[j])
                },
        decreases v.len() - i,
    {
        let a = find_run_end(v, i, CharClass::Space);
        let b = find_run_end(v, a, CharClass::Digit);
        let c = find_run_end(v, b, CharClass::Space);
        let d = find_run_end(v, c, CharClass::Word);
        proof {
            lemma_run_end(v@, a as int, CharClass::Digit);
        }
        if b == a {
            return None;
        }
        let u = match find_field_unit(v, c, d) {
            None => {
                return None;
            },
            Some(u) => u,
        };
        let ghost pre = fields_view(v@, out@);
        let ghost f = (v@.subrange(a as int, b as int), u);
        out.push((a, b, u));
        assert(fields_view(v@, out@) =~= pre.push(f));
        if d >= v.len() {
            assert(pre + seq![f] =~= pre.push(f));
            return Some(out);
        }
        let ghost rest = duration_fields(v@, d as int);
        assert(rest matches Some(x) ==> pre + (seq![f] + x) =~= pre.push(f) + x);
        i = d;
    }
}

pub proof fn lemma_decimal_value_prefix(t: Seq<char>, k: int)
    requires
        0 <= k <= t.len(),
    ensures
        decimal_value(t.take(k)) <= decimal_value(t),
    decreases t.len(),
{
    if k < t.len() {
        assert(t.drop_last().take(k) =~= t.take(k));
        lemma_decimal_value_prefix(t.drop_last(), k);
    } else {
        assert(t.take(k) =~= t);
    }
}

/// The value of the digits `v[a..b]`, if it fits in 64 bits.
fn digits_value(v: &Vec<char>, a: usize, b: usize) -> (r: Option<u64>)
    requires
        a <= b <= v.len(),
        forall|j: int| a <= j < b ==> is_digit(v@[j]),
    ensures
        r matches Some(x) ==> x == decimal_value(v@.subrange(a as int, b as int)),
        r is None ==> decimal_value(v@.subrange(a as int, b as int)) > u64::MAX,
{
    let mut acc: u64 = 0;
    let mut j = a;
    assert(v@.subrange(a as int, a as int) =~= Seq::<char>::empty());
    while j < b
        invariant
            a <= j <= b <= v.len(),
            forall|j: int| a <= j < b ==> is_digit(v@[j]),
            acc == decimal_value(v@.subrange(a as int, j as int)),
        decreases b - j,
    {
        let ghost t = v@.subrange(a as int, (j + 1) as int);
        assert(t.drop_last() =~= v@.subrange(a as int, j as int));
        assert(t.last() == v@[j as int]);
        let dg = ((v[j] as u32) - ('0' as u32)) as u64;
        assert(dg == digit_value(v@[j as int]));
        let next = match acc.checked_mul(10) {
            None => None,
            Some(m) => m.checked_add(dg),
        };
        match next {
            None => {
                proof {
                    assert(v@.subrange(a as int, b as int).take(j + 1 - a) =~= t);
                    lemma_decimal_value_prefix(v@.subrange(a as int, b as int), j + 1 - a);
                }
                return None;
            },
            Some(n) => {
                acc = n;
            },
        }
        j = j + 1;
    }
    Some(acc)
}

proof fn lemma_scaled(x: int, k: int)
    ensures
        (x * k) * 1_000_000_000 == x * (k * 1_000_000_000),
{
    assert((x * k) * 1_000_000_000 == x * (k * 1_000_000_000)) by (nonlinear_arith);
}

/// The nanoseconds of a field of `x` units, or `None` when a unit counted in
/// seconds gives more than 64 bits of seconds.
fn field_nanos(x: u64, u: DurationUnit) -> (r: Option<u128>)
    ensures
        r is None <==> (unit_seconds(u) matches Some(k) && x * k > u64::MAX),
        r matches Some(n) ==> n == x * unit_nanos(u),
{
    proof {
        lemma_scaled(x as int, 31_536_000);
        lemma_scaled(x as int, 2_592_000);
        lemma_scaled(x as int, 604_800);
        lemma_scaled(x as int, 86_400);
        lemma_scaled(x as int, 3_600);
        lemma_scaled(x as int, 60);
    }
    match u {
        DurationUnit::Year => match x.checked_mul(31_536_000) {
            None => None,
            Some(t) => Some((t as u128) * 1_000_000_000),
        },
        DurationUnit::Month => match x.checked_mul(2_592_000) {
            None => None,
            Some(t) => Some((t as u128) * 1_000_000_000),
        },
        DurationUnit::Week => match x.checked_mul(604_800) {
            None => None,
            Some(t) => Some((t as u128) * 1_000_000_000),
        },
        DurationUnit::Day => match x.checked_mul(86_400) {
            None => None,
            Some(t) => Some((t as u128) * 1_000_000_000),
        },
        DurationUnit::Hour => match x.checked_mul(3_600) {
            None => None,
            Some(t) => Some((t as u128) * 1_000_000_000),
        },
        DurationUnit::Minute => match x.checked_mul(60) {
            None => None,
            Some(t) => Some((t as u128) * 1_000_000_000),
        },
        DurationUnit::Second => Some((x as u128) * 1_000_000_000),
        DurationUnit::Milli => Some((x as u128) * 1_000_000),
        DurationUnit::Micro => Some((x as u128) * 1_000),
        DurationUnit::Nano => Some(x as u128),
    }
}

impl CfgDuration {
    /// Reads a duration written as one or several fields.
    pub fn parse(s: &str) -> (r: Result<CfgDuration, DurationError>)
        ensures
            match r {
                Ok(d) => d.wf() && duration_value(s@) == Ok::<nat, DurationError>(d@),
                Err(e) => duration_value(s@) == Err::<nat, DurationError>(e),
            },
    {
        let v = chars_of(s);
        let fields = match scan_fields(&v) {
            None => {
                return Err(DurationError::InvalidFormat);
            },
            Some(f) => f,
        };
        let ghost fv = fields_view(v@, fields@);
        let mut acc: u128 = 0;
        let mut k: usize = 0;
        assert(fv.subrange(0, fv.len() as int) =~= fv);
        while k < fields.len()
            invariant
                k <= fields.len(),
                v@ == s@,
                duration_fields(v@, 0) == Some(fv),
                fv == fields_view(v@, fields@),
                acc <= max_nanos(),
                add_fields(fv, 0) == add_fields(fv.subrange(k as int, fv.len() as int), acc as nat),
                forall|i: int|
                    0 <= i < fields@.len() ==> {
                        &&& (#[trigger] fields@[i]).0 < fields@[i].1 <= v@.len()
                        &&& forall|j: int| fields@[i].0 <= j < fields@[i].1 ==> is_digit(v@[j])
                    },
            decreases fields.len() - k,
        {
            let (a, b, u) = fields[k];
            let ghost tail = fv.subrange(k as int, fv.len() as int);
            assert(tail[0] == fv[k as int]);
            assert(fv[k as int] == (v@.subrange(a as int, b as int), u));
            assert(v@ == s@);
            assert(tail.drop_first() =~= fv.subrange(k + 1, fv.len() as int));
            let x = match digits_value(&v, a, b) {
                None => {
                    return Err(DurationError::NumberTooLarge);
                },
                Some(x) => x,
            };
            let add = match field_nanos(x, u) {
                None => {
                    return Err(DurationError::Overflow);
                },
                Some(n) => n,
            };
            if add > 18_446_744_073_709_551_615_999_999_999 - acc {
                return Err(DurationError::Overflow);
            }
            acc = acc + add;
            k = k + 1;
        }
        assert(fv.subrange(k as int, fv.len() as int) =~= Seq::<SpecField>::empty());
        Ok(from_total_nanos(acc))
    }
}


proof fn lemma_fields_same_start(s: Seq<char>, i: int, j: int)
    requires
        0 <= i <= s.len(),
        0 <= j <= s.len(),
        run_end(s, i, CharClass::Space) == run_end(s, j, CharClass::Space),
    ensures
        duration_fields(s, i) == duration_fields(s, j),
{
}

/// The fields of `p + b` after `p` are the fields of `b`.
proof fn lemma_fields_shift(p: Seq<char>, b: Seq<char>, j: int)
    requires
        0 <= j <= b.len(),
    ensures
        duration_fields(p + b, p.len() + j) == duration_fields(b, j),
    decreases b.len() - j,
{
    let t = p + b;
    let n = p.len() as int;
    let a = run_end(b, j, CharClass::Space);
    lemma_run_end(b, j, CharClass::Space);
    lemma_run_end_shift(p, b, j, CharClass::Space);
    let bb = run_end(b, a, CharClass::Digit);
    lemma_run_end(b, a, CharClass::Digit);
    lemma_run_end_shift(p, b, a, CharClass::Digit);
    let c = run_end(b, bb, CharClass::Space);
    lemma_run_end(b, bb, CharClass::Space);
    lemma_run_end_shift(p, b, bb, CharClass::Space);
    let d = run_end(b, c, CharClass::Word);
    lemma_run_end(b, c, CharClass::Word);
    lemma_run_end_shift(p, b, c, CharClass::Word);
    assert(t.subrange(n + a, n + bb) =~= b.subrange(a, bb));
    assert(t.subrange(n + c, n + d) =~= b.subrange(c, d));
    if bb > a && field_unit(b, c, d) is Some && d < b.len() {
        lemma_fields_shift(p, b, d);
    }
}

/// The fields of `a` then a space then `b`, from a position inside `a`.
proof fn lemma_fields_prefix(a: Seq<char>, b: Seq<char>, i: int)
    requires
        0 <= i <= a.len(),
        duration_fields(a, i) is Some,
        duration_fields(b, 0) is Some,
    ensures
        duration_fields(a + (seq![' '] + b), i) == prepend_fields(
            duration_fields(a, i)->0,
            duration_fields(a + (seq![' '] + b), a.len() as int),
        ),
    decreases a.len() - i,
{
    let t = a + (seq![' '] + b);
    let n = a.len() as int;
    assert(t[n] == ' ');
    assert(forall|j: int| 0 <= j < a.len() ==> a[j] == t[j]);
    let al = run_end(a, i, CharClass::Space);
    lemma_run_end(a, i, CharClass::Space);
    let be = run_end(a, al, CharClass::Digit);
    lemma_run_end(a, al, CharClass::Digit);
    lemma_run_end_prefix(a, t, i, CharClass::Space);
    lemma_run_end_prefix(a, t, al, CharClass::Digit);
    let ga = run_end(a, be, CharClass::Space);
    lemma_run_end(a, be, CharClass::Space);
    let de = run_end(a, ga, CharClass::Word);
    lemma_run_end(a, ga, CharClass::Word);
    assert(t.subrange(al, be) =~= a.subrange(al, be));
    // where the fields of `b` start in `t`
    let g = run_end(b, 0, CharClass::Space);
    lemma_run_end(b, 0, CharClass::Space);
    lemma_run_end(b, g, CharClass::Digit);
    lemma_run_end_shift(a, seq![' '] + b, 0, CharClass::Space);
    lemma_run_end_shift(a, seq![' '] + b, 1, CharClass::Space);
    lemma_run_end_shift(seq![' '], b, 0, CharClass::Space);
    assert(a + (seq![' '] + b) =~= (a + seq![' ']) + b);
    lemma_run_end_shift(a + seq![' '], b, 0, CharClass::Space);
    assert(run_end(seq![' '] + b, 0, CharClass::Space) == run_end(seq![' '] + b, 1, CharClass::Space));
    let gt = n + 1 + g;
    assert(run_end(t, n, CharClass::Space) == gt);
    if ga < n {
        lemma_run_end_prefix(a, t, be, CharClass::Space);
        lemma_run_end_prefix(a, t, ga, CharClass::Word);
        assert(t.subrange(ga, de) =~= a.subrange(ga, de));
        if de < n {
            lemma_fields_prefix(a, b, de);
            let f = (a.subrange(al, be), field_unit(a, ga, de)->0);
            let ra = duration_fields(a, de)->0;
            let dt = duration_fields(t, n);
            assert(dt matches Some(x) ==> seq![f] + (ra + x) =~= (seq![f] + ra) + x);
        } else {
        }
    } else {
        // `a` ends with its last number and whitespace; the field goes on
        // across the space up to the first number of `b`
        lemma_run_end_skip(t, be, n, CharClass::Space);
        assert(t[gt] == b[g]);
        assert(run_end(t, gt, CharClass::Word) == gt);
        assert(run_end(t, gt, CharClass::Space) == gt);
        lemma_fields_same_start(t, gt, n);
    }
}

/// The fields of `a`, a space and `b` are those of `a` then those of `b`.
proof fn lemma_fields_join(a: Seq<char>, b: Seq<char>)
    requires
        duration_fields(a, 0) is Some,
        duration_fields(b, 0) is Some,
    ensures
        duration_fields(a + seq![' '] + b, 0) == Some(
            duration_fields(a, 0)->0 + duration_fields(b, 0)->0,
        ),
{
    let t = a + (seq![' '] + b);
    let n = a.len() as int;
    assert(a + seq![' '] + b =~= t);
    lemma_fields_prefix(a, b, 0);
    assert(t =~= (a + seq![' ']) + b);
    lemma_fields_shift(a + seq![' '], b, 0);
    lemma_run_end_shift(a, seq![' '] + b, 0, CharClass::Space);
    lemma_run_end_shift(a, seq![' '] + b, 1, CharClass::Space);
    assert(run_end(seq![' '] + b, 0, CharClass::Space) == run_end(seq![' '] + b, 1, CharClass::Space));
    lemma_fields_same_start(t, n, n + 1);
}

proof fn lemma_add_fields_concat(f1: Seq<SpecField>, f2: Seq<SpecField>, acc: nat)
    ensures
        add_fields(f1 + f2, acc) == match add_fields(f1, acc) {
            Err(e) => Err(e),
            Ok(m) => add_fields(f2, m),
        },
    decreases f1.len(),
{
    if f1.len() == 0 {
        assert(f1 + f2 =~= f2);
    } else {
        assert((f1 + f2)[0] == f1[0]);
        assert((f1 + f2).drop_first() =~= f1.drop_first() + f2);
        if let Ok(m) = add_field(acc, f1[0]) {
            lemma_add_fields_concat(f1.drop_first(), f2, m);
        }
    }
}

/// Adding fields that succeed from `acc` again from `acc2` gives the same
/// increase, unless the sum no longer fits.
proof fn lemma_add_fields_shift(fs: Seq<SpecField>, acc: nat, r: nat, acc2: nat)
    requires
        add_fields(fs, acc) == Ok::<nat, DurationError>(r),
        acc2 <= max_nanos(),
    ensures
        r >= acc,
        acc <= max_nanos() ==> r <= max_nanos(),
        add_fields(fs, acc2) == if acc2 + r - acc <= max_nanos() {
            Ok::<nat, DurationError>((acc2 + r - acc) as nat)
        } else {
            Err(DurationError::Overflow)
        },
    decreases fs.len(),
{
    if fs.len() > 0 {
        let v = decimal_value(fs[0].0);
        let n = v * unit_nanos(fs[0].1);
        assert(add_field(acc, fs[0]) == Ok::<nat, DurationError>(acc + n));
        assert(add_field(acc2, fs[0]) == if acc2 + n > max_nanos() {
            Err::<nat, DurationError>(DurationError::Overflow)
        } else {
            Ok::<nat, DurationError>(acc2 + n)
        });
        if acc2 + n <= max_nanos() {
            lemma_add_fields_shift(fs.drop_first(), acc + n, r, (acc2 + n) as nat);
        } else {
            lemma_add_fields_shift(fs.drop_first(), acc + n, r, 0);
        }
        assert(add_fields(fs.drop_first(), acc + n) == Ok::<nat, DurationError>(r));
    }
}

/// When several fields are present they are added: two durations joined by a
/// space give the sum of both, or an overflow when the sum does not fit.
pub proof fn law_fields_are_added(a: Seq<char>, b: Seq<char>)
    requires
        duration_value(a) is Ok,
        duration_value(b) is Ok,
    ensures
        duration_value(a + seq![' '] + b) == if duration_value(a)->Ok_0 + duration_value(b)->Ok_0
            <= max_nanos() {
            Ok::<nat, DurationError>(duration_value(a)->Ok_0 + duration_value(b)->Ok_0)
        } else {
            Err(DurationError::Overflow)
        },
{
    lemma_fields_join(a, b);
    let fa = duration_fields(a, 0)->0;
    let fb = duration_fields(b, 0)->0;
    lemma_add_fields_concat(fa, fb, 0);
    lemma_add_fields_shift(fa, 0, duration_value(a)->Ok_0, 0);
    lemma_add_fields_shift(fb, 0, duration_value(b)->Ok_0, duration_value(a)->Ok_0);
}


/// What `std::time::Duration::new` returns for `secs` seconds and `nanos`
/// nanoseconds: a value that depends on these two numbers alone.
pub uninterp spec fn duration_new(secs: u64, nanos: u32) -> std::time::Duration;

/// `std::time::Duration::new`: the duration of `secs` seconds and `nanos`
/// nanoseconds. Below one second of nanoseconds it never panics. The type is
/// opaque here, so the result is stated only as `duration_new` of the two
/// arguments; what seconds and nanoseconds it holds is left unsaid.
#[verifier::external_body]
fn std_duration_new(secs: u64, nanos: u32) -> (r: std::time::Duration)
    requires
        nanos < 1_000_000_000,
    ensures
        r == duration_new(secs, nanos),
{
    std::time::Duration::new(secs, nanos)
}

impl CfgDuration {
    /// The duration as a standard library duration.
    #[must_use]
    pub fn as_duration(&self) -> (r: std::time::Duration)
        ensures
            r == duration_new(
                (self@ / nanos_per_sec()) as u64,
                (self@ % nanos_per_sec()) as u32,
            ),
    {
        proof {
            use_type_invariant(self);
        }
        std_duration_new(self.secs, self.nanos)
    }
}

impl Default for CfgDuration {
    fn default() -> (d: Self)
        ensures
            d@ == 0,
    {
        CfgDuration { secs: 0, nanos: 0 }
    }
}

impl core::str::FromStr for CfgDuration {
    type Err = DurationError;

    fn from_str(s: &str) -> (r: Result<Self, Self::Err>)
        ensures
            match r {
                Ok(d) => d.wf() && duration_value(s@) == Ok::<nat, DurationError>(d@),
                Err(e) => duration_value(s@) == Err::<nat, DurationError>(e),
            },
    {
        Self::parse(s)
    }
}


/// A number alone is that many seconds.
pub proof fn law_number_alone_is_seconds(s: Seq<char>)
    requires
        s.len() > 0,
        forall|i: int| 0 <= i < s.len() ==> is_digit(#[trigger] s[i]),
    ensures
        duration_value(s) == if decimal_value(s) <= u64::MAX {
            Ok::<nat, DurationError>(decimal_value(s) * nanos_per_sec())
        } else {
            Err(DurationError::NumberTooLarge)
        },
{
    lemma_run_end(s, 0, CharClass::Space);
    crate::text::lemma_run_end_skip(s, 0, s.len() as int, CharClass::Digit);
    assert(run_end(s, 0, CharClass::Space) == 0);
    assert(run_end(s, 0, CharClass::Digit) == s.len());
    assert(s.subrange(0, s.len() as int) =~= s);
    let fs = seq![(s, DurationUnit::Second)];
    assert(duration_fields(s, 0) == Some(fs));
    assert(fs.drop_first() =~= Seq::<SpecField>::empty());
    let v = decimal_value(s);
    if v <= u64::MAX {
        assert(v * 1_000_000_000 <= max_nanos()) by (nonlinear_arith)
            requires
                v <= u64::MAX,
        ;
        assert(add_field(0, fs[0]) == Ok::<nat, DurationError>(v * nanos_per_sec()));
        assert(add_fields(fs, 0) == add_fields(fs.drop_first(), v * nanos_per_sec()));
    }
}


/// A lone field of `v` units of `secs` whole seconds each: the number must fit
/// in 64 bits, and so must the seconds.
pub open spec fn whole_units(v: nat, secs: nat) -> Result<nat, DurationError> {
    if v > u64::MAX {
        Err(DurationError::NumberTooLarge)
    } else if v * secs > u64::MAX {
        Err(DurationError::Overflow)
    } else {
        Ok(v * secs * nanos_per_sec())
    }
}

/// A lone field of `v` units of `nanos` nanoseconds each, below one second:
/// the number must fit in 64 bits.
pub open spec fn small_units(v: nat, nanos: nat) -> Result<nat, DurationError> {
    if v > u64::MAX {
        Err(DurationError::NumberTooLarge)
    } else {
        Ok(v * nanos)
    }
}

/// Digits, then optional whitespace, then the unit word `w`: one field.
proof fn lemma_lone_field(s: Seq<char>, sp: Seq<char>, w: Seq<char>)
    requires
        s.len() > 0,
        forall|i: int| 0 <= i < s.len() ==> is_digit(#[trigger] s[i]),
        forall|i: int| 0 <= i < sp.len() ==> crate::text::is_space(#[trigger] sp[i]),
        w.len() > 0,
        forall|i: int|
            0 <= i < w.len() ==> !crate::text::is_space(#[trigger] w[i]) && !is_digit(w[i]),
        unit_of_word(w) is Some,
    ensures
        duration_value(s + sp + w) == add_field(0, (s, unit_of_word(w)->0)),
{
    let t = s + sp + w;
    let b = s.len() as int;
    let c = b + sp.len();
    assert forall|i: int| 0 <= i < b implies is_digit(#[trigger] t[i]) by {
        assert(t[i] == s[i]);
    }
    assert(!crate::text::is_space(t[0])) by {
        assert(t[0] == s[0]);
    }
    lemma_run_end(t, 0, CharClass::Space);
    assert(run_end(t, 0, CharClass::Space) == 0);
    lemma_run_end_skip(t, 0, b, CharClass::Digit);
    assert(t[b] == if sp.len() > 0 { sp[0] } else { w[0] });
    assert(!is_digit(t[b]));
    lemma_run_end(t, b, CharClass::Digit);
    assert(run_end(t, 0, CharClass::Digit) == b);
    assert forall|i: int| b <= i < c implies crate::text::is_space(#[trigger] t[i]) by {
        assert(t[i] == sp[i - b]);
    }
    lemma_run_end_skip(t, b, c, CharClass::Space);
    assert(t[c] == w[0]);
    lemma_run_end(t, c, CharClass::Space);
    assert(run_end(t, b, CharClass::Space) == c);
    assert forall|i: int| c <= i < t.len() implies crate::text::in_class(
        #[trigger] t[i],
        CharClass::Word,
    ) by {
        assert(t[i] == w[i - c]);
    }
    lemma_run_end_skip(t, c, t.len() as int, CharClass::Word);
    assert(run_end(t, c, CharClass::Word) == t.len());
    assert(t.subrange(0, b) =~= s);
    assert(t.subrange(c, t.len() as int) =~= w);
    let fs = seq![(s, unit_of_word(w)->0)];
    assert(duration_fields(t, 0) == Some(fs));
    assert(fs.drop_first() =~= Seq::<SpecField>::empty());
    assert(fs[0] == (s, unit_of_word(w)->0));
    assert(add_fields(Seq::<SpecField>::empty(), 0) == Ok::<nat, DurationError>(0));
    match add_field(0, fs[0]) {
        Err(e) => {},
        Ok(a) => {
            assert(add_fields(fs.drop_first(), a) == Ok::<nat, DurationError>(a));
        },
    }
    assert(duration_value(t) == add_fields(fs, 0));
}

/// A lone field of `v` units, with the unit's length in nanoseconds.
proof fn lemma_add_field_alone(s: Seq<char>, u: DurationUnit)
    ensures
        add_field(0, (s, u)) == match unit_seconds(u) {
            Some(k) => whole_units(decimal_value(s), k),
            None => small_units(decimal_value(s), unit_nanos(u)),
        },
{
    let v = decimal_value(s);
    if v <= u64::MAX {
        match unit_seconds(u) {
            Some(k) => {
                if v * k <= u64::MAX {
                    assert(v * k * 1_000_000_000 <= max_nanos()) by (nonlinear_arith)
                        requires
                            v * k <= u64::MAX,
                    ;
                    assert(v * unit_nanos(u) == v * k * 1_000_000_000) by (nonlinear_arith)
                        requires
                            unit_nanos(u) == k * 1_000_000_000,
                    ;
                }
            },
            None => {
                assert(unit_nanos(u) <= 1_000_000_000);
                assert(v * unit_nanos(u) <= max_nanos()) by (nonlinear_arith)
                    requires
                        v <= u64::MAX,
                        unit_nanos(u) <= 1_000_000_000,
                ;
            },
        }
    }
}

/// Texts of one character differ when the characters do.
proof fn lemma_single_ne(a: char, b: char)
    requires
        a != b,
    ensures
        seq![a] != seq![b],
{
    assert(seq![a][0] == a);
    assert(seq![b][0] == b);
}

/// A number followed by a word that names the unit `u` is that many `u`.
proof fn lemma_unit_word(s: Seq<char>, sp: Seq<char>, w: Seq<char>, u: DurationUnit)
    requires
        s.len() > 0,
        forall|i: int| 0 <= i < s.len() ==> is_digit(#[trigger] s[i]),
        forall|i: int| 0 <= i < sp.len() ==> crate::text::is_space(#[trigger] sp[i]),
        w.len() > 0,
        forall|i: int|
            0 <= i < w.len() ==> ('a' <= #[trigger] w[i] <= 'z') || ('A' <= w[i] <= 'Z') || w[i]
                == '\u{b5}',
        unit_of_word(w) == Some(u),
    ensures
        duration_value(s + sp + w) == match unit_seconds(u) {
            Some(k) => whole_units(decimal_value(s), k),
            None => small_units(decimal_value(s), unit_nanos(u)),
        },
{
    assert forall|i: int| 0 <= i < w.len() implies !crate::text::is_space(#[trigger] w[i])
        && !is_digit(w[i]) by {
    }
    lemma_lone_field(s, sp, w);
    lemma_add_field_alone(s, u);
}

proof fn lemma_year_words(s: Seq<char>, sp: Seq<char>)
    requires
        s.len() > 0,
        forall|i: int| 0 <= i < s.len() ==> is_digit(#[trigger] s[i]),
        forall|i: int| 0 <= i < sp.len() ==> crate::text::is_space(#[trigger] sp[i]),
    ensures
        duration_value(s + sp + seq!['y']) == match unit_seconds(DurationUnit::Year) {
            Some(k) => whole_units(decimal_value(s), k),
            None => small_units(decimal_value(s), unit_nanos(DurationUnit::Year)),
        },
        duration_value(s + sp + seq!['y', 'e', 'a', 'r']) == match unit_seconds(DurationUnit::Year) {
            Some(k) => whole_units(decimal_value(s), k),
            None => small_units(decimal_value(s), unit_nanos(DurationUnit::Year)),
        },
        duration_value(s + sp + seq!['y', 'e', 'a', 'r', 's']) == match unit_seconds(DurationUnit::Year) {
            Some(k) => whole_units(decimal_value(s), k),
            None => small_units(decimal_value(s), unit_nanos(DurationUnit::Year)),
        },
{
lemma_unit_word(s, sp, seq!['y'], DurationUnit::Year);
    lemma_unit_word(s, sp, seq!['y', 'e', 'a', 'r'], DurationUnit::Year);
    lemma_unit_word(s, sp, seq!['y', 'e', 'a', 'r', 's'], DurationUnit::Year);
}

proof fn lemma_month_words(s: Seq<char>, sp: Seq<char>)
    requires
        s.len() > 0,
        forall|i: int| 0 <= i < s.len() ==> is_digit(#[trigger] s[i]),
        forall|i: int| 0 <= i < sp.len() ==> crate::text::is_space(#[trigger] sp[i]),
    ensures
        duration_value(s + sp + seq!['M']) == match unit_seconds(DurationUnit::Month) {
            Some(k) => whole_units(decimal_value(s), k),
            None => small_units(decimal_value(s), unit_nanos(DurationUnit::Month)),
        },
        duration_value(s + sp + seq!['m', 'o', 'n', 't', 'h']) == match unit_seconds(DurationUnit::Month) {
            Some(k) => whole_units(decimal_value(s), k),
            None => small_units(decimal_value(s), unit_nanos(DurationUnit::Month)),
        },
        duration_value(s + sp + seq!['m', 'o', 'n', 't', 'h', 's']) == match unit_seconds(DurationUnit::Month) {
            Some(k) => whole_units(decimal_value(s), k),
            None => small_units(decimal_value(s), unit_nanos(DurationUnit::Month)),
        },
{
    lemma_single_ne('M', 'y');
    lemma_unit_word(s, sp, seq!['M'], DurationUnit::Month);
    lemma_unit_word(s, sp, seq!['m', 'o', 'n', 't', 'h'], DurationUnit::Month);
    lemma_unit_word(s, sp, seq!['m', 'o', 'n', 't', 'h', 's'], DurationUnit::Month);
}

proof fn lemma_week_words(s: Seq<char>, sp: Seq<char>)
    requires
        s.len() > 0,
        forall|i: int| 0 <= i < s.len() ==> is_digit(#[trigger] s[i]),
        forall|i: int| 0 <= i < sp.len() ==> crate::text::is_space(#[trigger] sp[i]),
    ensures
        duration_value(s + sp + seq!['w']) == match unit_seconds(DurationUnit::Week) {
            Some(k) => whole_units(decimal_value(s), k),
            None => small_units(decimal_value(s), unit_nanos(DurationUnit::Week)),
        },
        duration_value(s + sp + seq!['w', 'e', 'e', 'k']) == match unit_seconds(DurationUnit::Week) {
            Some(k) => whole_units(decimal_value(s), k),
            None => small_units(decimal_value(s), unit_nanos(DurationUnit::Week)),
        },
        duration_value(s + sp + seq!['w', 'e', 'e', 'k', 's']) == match unit_seconds(DurationUnit::Week) {
            Some(k) => whole_units(decimal_value(s), k),
            None => small_units(decimal_value(s), unit_nanos(DurationUnit::Week)),
        },
{
    lemma_single_ne('w', 'y');
    lemma_single_ne('w', 'M');
    lemma_unit_word(s, sp, seq!['w'], DurationUnit::Week);
    lemma_unit_word(s, sp, seq!['w', 'e', 'e', 'k'], DurationUnit::Week);
    lemma_unit_word(s, sp, seq!['w', 'e', 'e', 'k', 's'], DurationUnit::Week);
}

proof fn lemma_day_words(s: Seq<char>, sp: Seq<char>)
    requires
        s.len() > 0,
        forall|i: int| 0 <= i < s.len() ==> is_digit(#[trigger] s[i]),
        forall|i: int| 0 <= i < sp.len() ==> crate::text::is_space(#[trigger] sp[i]),
    ensures
        duration_value(s + sp + seq!['d']) == match unit_seconds(DurationUnit::Day) {
            Some(k) => whole_units(decimal_value(s), k),
            None => small_units(decimal_value(s), unit_nanos(DurationUnit::Day)),
        },
        duration_value(s + sp + seq!['d', 'a', 'y']) == match unit_seconds(DurationUnit::Day) {
            Some(k) => whole_units(decimal_value(s), k),
            None => small_units(decimal_value(s), unit_nanos(DurationUnit::Day)),
        },
        duration_value(s + sp + seq!['d', 'a', 'y', 's']) == match unit_seconds(DurationUnit::Day) {
            Some(k) => whole_units(decimal_value(s), k),
            None => small_units(decimal_value(s), unit_nanos(DurationUnit::Day)),
        },
{
    lemma_single_ne('d', 'y');
    lemma_single_ne('d', 'M');
    lemma_single_ne('d', 'w');
    lemma_unit_word(s, sp, seq!['d'], DurationUnit::Day);
    lemma_unit_word(s, sp, seq!['d', 'a', 'y'], DurationUnit::Day);
    lemma_unit_word(s, sp, seq!['d', 'a', 'y', 's'], DurationUnit::Day);
}

proof fn lemma_hour_words(s: Seq<char>, sp: Seq<char>)
    requires
        s.len() > 0,
        forall|i: int| 0 <= i < s.len() ==> is_digit(#[trigger] s[i]),
        forall|i: int| 0 <= i < sp.len() ==> crate::text::is_space(#[trigger] sp[i]),
    ensures
        duration_value(s + sp + seq!['h']) == match unit_seconds(DurationUnit::Hour) {
            Some(k) => whole_units(decimal_value(s), k),
            None => small_units(decimal_value(s), unit_nanos(DurationUnit::Hour)),
        },
        duration_value(s + sp + seq!['h', 'o', 'u', 'r']) == match unit_seconds(DurationUnit::Hour) {
            Some(k) => whole_units(decimal_value(s), k),
            None => small_units(decimal_value(s), unit_nanos(DurationUnit::Hour)),
        },
        duration_value(s + sp + seq!['h', 'o', 'u', 'r', 's']) == match unit_seconds(DurationUnit::Hour) {
            Some(k) => whole_units(decimal_value(s), k),
            None => small_units(decimal_value(s), unit_nanos(DurationUnit::Hour)),
        },
{
    lemma_single_ne('h', 'y');
    lemma_single_ne('h', 'M');
    lemma_single_ne('h', 'w');
    lemma_single_ne('h', 'd');
    lemma_unit_word(s, sp, seq!['h'], DurationUnit::Hour);
    lemma_unit_word(s, sp, seq!['h', 'o', 'u', 'r'], DurationUnit::Hour);
    lemma_unit_word(s, sp, seq!['h', 'o', 'u', 'r', 's'], DurationUnit::Hour);
}

proof fn lemma_minute_words(s: Seq<char>, sp: Seq<char>)
    requires
        s.len() > 0,
        forall|i: int| 0 <= i < s.len() ==> is_digit(#[trigger] s[i]),
        forall|i: int| 0 <= i < sp.len() ==> crate::text::is_space(#[trigger] sp[i]),
    ensures
        duration_value(s + sp + seq!['m']) == match unit_seconds(DurationUnit::Minute) {
            Some(k) => whole_units(decimal_value(s), k),
            None => small_units(decimal_value(s), unit_nanos(DurationUnit::Minute)),
        },
        duration_value(s + sp + seq!['m', 'i', 'n']) == match unit_seconds(DurationUnit::Minute) {
            Some(k) => whole_units(decimal_value(s), k),
            None => small_units(decimal_value(s), unit_nanos(DurationUnit::Minute)),
        },
{
    lemma_single_ne('m', 'y');
    lemma_single_ne('m', 'M');
    lemma_single_ne('m', 'w');
    lemma_single_ne('m', 'd');
    lemma_single_ne('m', 'h');
    lemma_unit_word(s, sp, seq!['m'], DurationUnit::Minute);
    lemma_unit_word(s, sp, seq!['m', 'i', 'n'], DurationUnit::Minute);
}

proof fn lemma_second_words(s: Seq<char>, sp: Seq<char>)
    requires
        s.len() > 0,
        forall|i: int| 0 <= i < s.len() ==> is_digit(#[trigger] s[i]),
        forall|i: int| 0 <= i < sp.len() ==> crate::text::is_space(#[trigger] sp[i]),
    ensures
        duration_value(s + sp + seq!['s']) == match unit_seconds(DurationUnit::Second) {
            Some(k) => whole_units(decimal_value(s), k),
            None => small_units(decimal_value(s), unit_nanos(DurationUnit::Second)),
        },
        duration_value(s + sp + seq!['s', 'e', 'c']) == match unit_seconds(DurationUnit::Second) {
            Some(k) => whole_units(decimal_value(s), k),
            None => small_units(decimal_value(s), unit_nanos(DurationUnit::Second)),
        },
{
    lemma_single_ne('s', 'y');
    lemma_single_ne('s', 'M');
    lemma_single_ne('s', 'w');
    lemma_single_ne('s', 'd');
    lemma_single_ne('s', 'h');
    lemma_single_ne('s', 'm');
    lemma_unit_word(s, sp, seq!['s'], DurationUnit::Second);
    lemma_unit_word(s, sp, seq!['s', 'e', 'c'], DurationUnit::Second);
}

proof fn lemma_milli_words(s: Seq<char>, sp: Seq<char>)
    requires
        s.len() > 0,
        forall|i: int| 0 <= i < s.len() ==> is_digit(#[trigger] s[i]),
        forall|i: int| 0 <= i < sp.len() ==> crate::text::is_space(#[trigger] sp[i]),
    ensures
        duration_value(s + sp + seq!['m', 's']) == match unit_seconds(DurationUnit::Milli) {
            Some(k) => whole_units(decimal_value(s), k),
            None => small_units(decimal_value(s), unit_nanos(DurationUnit::Milli)),
        },
        duration_value(s + sp + seq!['m', 'i', 'l', 'l', 'i', 's', 'e', 'c']) == match unit_seconds(DurationUnit::Milli) {
            Some(k) => whole_units(decimal_value(s), k),
            None => small_units(decimal_value(s), unit_nanos(DurationUnit::Milli)),
        },
{
    lemma_unit_word(s, sp, seq!['m', 's'], DurationUnit::Milli);
    lemma_unit_word(s, sp, seq!['m', 'i', 'l', 'l', 'i', 's', 'e', 'c'], DurationUnit::Milli);
}

proof fn lemma_micro_words(s: Seq<char>, sp: Seq<char>)
    requires
        s.len() > 0,
        forall|i: int| 0 <= i < s.len() ==> is_digit(#[trigger] s[i]),
        forall|i: int| 0 <= i < sp.len() ==> crate::text::is_space(#[trigger] sp[i]),
    ensures
        duration_value(s + sp + seq!['u', 's']) == match unit_seconds(DurationUnit::Micro) {
            Some(k) => whole_units(decimal_value(s), k),
            None => small_units(decimal_value(s), unit_nanos(DurationUnit::Micro)),
        },
        duration_value(s + sp + seq!['\u{b5}', 's']) == match unit_seconds(DurationUnit::Micro) {
            Some(k) => whole_units(decimal_value(s), k),
            None => small_units(decimal_value(s), unit_nanos(DurationUnit::Micro)),
        },
        duration_value(s + sp + seq!['m', 'i', 'c', 'r', 'o', 's', 'e', 'c']) == match unit_seconds(DurationUnit::Micro) {
            Some(k) => whole_units(decimal_value(s), k),
            None => small_units(decimal_value(s), unit_nanos(DurationUnit::Micro)),
        },
{
    lemma_unit_word(s, sp, seq!['u', 's'], DurationUnit::Micro);
    lemma_unit_word(s, sp, seq!['\u{b5}', 's'], DurationUnit::Micro);
    lemma_unit_word(s, sp, seq!['m', 'i', 'c', 'r', 'o', 's', 'e', 'c'], DurationUnit::Micro);
}

proof fn lemma_nano_words(s: Seq<char>, sp: Seq<char>)
    requires
        s.len() > 0,
        forall|i: int| 0 <= i < s.len() ==> is_digit(#[trigger] s[i]),
        forall|i: int| 0 <= i < sp.len() ==> crate::text::is_space(#[trigger] sp[i]),
    ensures
        duration_value(s + sp + seq!['n', 's']) == match unit_seconds(DurationUnit::Nano) {
            Some(k) => whole_units(decimal_value(s), k),
            None => small_units(decimal_value(s), unit_nanos(DurationUnit::Nano)),
        },
        duration_value(s + sp + seq!['n', 'a', 'n', 'o', 's', 'e', 'c']) == match unit_seconds(DurationUnit::Nano) {
            Some(k) => whole_units(decimal_value(s), k),
            None => small_units(decimal_value(s), unit_nanos(DurationUnit::Nano)),
        },
{
    lemma_unit_word(s, sp, seq!['n', 's'], DurationUnit::Nano);
    lemma_unit_word(s, sp, seq!['n', 'a', 'n', 'o', 's', 'e', 'c'], DurationUnit::Nano);
}

/// Each unit word names its documented unit: a number `s` followed (after
/// optional whitespace `sp`) by any of the names of a unit is that many of
/// the unit, the short and the long names alike: years of 365 days, months
/// of 30 days, weeks of 7 days, days, hours, minutes, seconds, then milli-,
/// micro- and nanoseconds.
pub proof fn law_unit_words(s: Seq<char>, sp: Seq<char>)
    requires
        s.len() > 0,
        forall|i: int| 0 <= i < s.len() ==> is_digit(#[trigger] s[i]),
        forall|i: int| 0 <= i < sp.len() ==> crate::text::is_space(#[trigger] sp[i]),
    ensures
        duration_value(s + sp + seq!['y']) == whole_units(decimal_value(s), 31_536_000),
        duration_value(s + sp + seq!['y', 'e', 'a', 'r']) == whole_units(decimal_value(s), 31_536_000),
        duration_value(s + sp + seq!['y', 'e', 'a', 'r', 's']) == whole_units(decimal_value(s), 31_536_000),
        duration_value(s + sp + seq!['M']) == whole_units(decimal_value(s), 2_592_000),
        duration_value(s + sp + seq!['m', 'o', 'n', 't', 'h']) == whole_units(decimal_value(s), 2_592_000),
        duration_value(s + sp + seq!['m', 'o', 'n', 't', 'h', 's']) == whole_units(decimal_value(s), 2_592_000),
        duration_value(s + sp + seq!['w']) == whole_units(decimal_value(s), 604_800),
        duration_value(s + sp + seq!['w', 'e', 'e', 'k']) == whole_units(decimal_value(s), 604_800),
        duration_value(s + sp + seq!['w', 'e', 'e', 'k', 's']) == whole_units(decimal_value(s), 604_800),
        duration_value(s + sp + seq!['d']) == whole_units(decimal_value(s), 86_400),
        duration_value(s + sp + seq!['d', 'a', 'y']) == whole_units(decimal_value(s), 86_400),
        duration_value(s + sp + seq!['d', 'a', 'y', 's']) == whole_units(decimal_value(s), 86_400),
        duration_value(s + sp + seq!['h']) == whole_units(decimal_value(s), 3_600),
        duration_value(s + sp + seq!['h', 'o', 'u', 'r']) == whole_units(decimal_value(s), 3_600),
        duration_value(s + sp + seq!['h', 'o', 'u', 'r', 's']) == whole_units(decimal_value(s), 3_600),
        duration_value(s + sp + seq!['m']) == whole_units(decimal_value(s), 60),
        duration_value(s + sp + seq!['m', 'i', 'n']) == whole_units(decimal_value(s), 60),
        duration_value(s + sp + seq!['s']) == whole_units(decimal_value(s), 1),
        duration_value(s + sp + seq!['s', 'e', 'c']) == whole_units(decimal_value(s), 1),
        duration_value(s + sp + seq!['m', 's']) == small_units(decimal_value(s), 1_000_000),
        duration_value(s + sp + seq!['m', 'i', 'l', 'l', 'i', 's', 'e', 'c']) == small_units(
            decimal_value(s),
            1_000_000,
        ),
        duration_value(s + sp + seq!['u', 's']) == small_units(decimal_value(s), 1_000),
        duration_value(s + sp + seq!['\u{b5}', 's']) == small_units(decimal_value(s), 1_000),
        duration_value(s + sp + seq!['m', 'i', 'c', 'r', 'o', 's', 'e', 'c']) == small_units(
            decimal_value(s),
            1_000,
        ),
        duration_value(s + sp + seq!['n', 's']) == small_units(decimal_value(s), 1),
        duration_value(s + sp + seq!['n', 'a', 'n', 'o', 's', 'e', 'c']) == small_units(
            decimal_value(s),
            1,
        ),
{
    lemma_year_words(s, sp);
    lemma_month_words(s, sp);
    lemma_week_words(s, sp);
    lemma_day_words(s, sp);
    lemma_hour_words(s, sp);
    lemma_minute_words(s, sp);
    lemma_second_words(s, sp);
    lemma_milli_words(s, sp);
    lemma_micro_words(s, sp);
    lemma_nano_words(s, sp);
}
} // verus!
