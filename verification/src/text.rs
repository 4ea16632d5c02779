//! Character classes, runs of characters and string building.

use vstd::prelude::*;

verus! {

/// Unicode `White_Space` property: the characters matched by `\s`.
pub open spec fn is_space(c: char) -> bool {
    ('\t' <= c && c <= '\r') || c == ' ' || c == '\u{85}' || c == '\u{a0}' || c == '\u{1680}'
        || ('\u{2000}' <= c && c <= '\u{200a}') || c == '\u{2028}' || c == '\u{2029}'
        || c == '\u{202f}' || c == '\u{205f}' || c == '\u{3000}'
}

/// ASCII decimal digit.
pub open spec fn is_digit(c: char) -> bool {
    '0' <= c && c <= '9'
}

/// Unicode decimal digit (general category `Nd`): the characters matched by
/// `\d`, the ASCII digits among them. The ranges follow Unicode 16.0.
#[verifier::opaque]
pub open spec fn is_decimal_digit(c: char) -> bool {
    ('\u{30}' <= c && c <= '\u{39}')
    || ('\u{660}' <= c && c <= '\u{669}')
    || ('\u{6f0}' <= c && c <= '\u{6f9}')
    || ('\u{7c0}' <= c && c <= '\u{7c9}')
    || ('\u{966}' <= c && c <= '\u{96f}')
    || ('\u{9e6}' <= c && c <= '\u{9ef}')
    || ('\u{a66}' <= c && c <= '\u{a6f}')
    || ('\u{ae6}' <= c && c <= '\u{aef}')
    || ('\u{b66}' <= c && c <= '\u{b6f}')
    || ('\u{be6}' <= c && c <= '\u{bef}')
    || ('\u{c66}' <= c && c <= '\u{c6f}')
    || ('\u{ce6}' <= c && c <= '\u{cef}')
    || ('\u{d66}' <= c && c <= '\u{d6f}')
    || ('\u{de6}' <= c && c <= '\u{def}')
    || ('\u{e50}' <= c && c <= '\u{e59}')
    || ('\u{ed0}' <= c && c <= '\u{ed9}')
    || ('\u{f20}' <= c && c <= '\u{f29}')
    || ('\u{1040}' <= c && c <= '\u{1049}')
    || ('\u{1090}' <= c && c <= '\u{1099}')
    || ('\u{17e0}' <= c && c <= '\u{17e9}')
    || ('\u{1810}' <= c && c <= '\u{1819}')
    || ('\u{1946}' <= c && c <= '\u{194f}')
    || ('\u{19d0}' <= c && c <= '\u{19d9}')
    || ('\u{1a80}' <= c && c <= '\u{1a89}')
    || ('\u{1a90}' <= c && c <= '\u{1a99}')
    || ('\u{1b50}' <= c && c <= '\u{1b59}')
    || ('\u{1bb0}' <= c && c <= '\u{1bb9}')
    || ('\u{1c40}' <= c && c <= '\u{1c49}')
    || ('\u{1c50}' <= c && c <= '\u{1c59}')
    || ('\u{a620}' <= c && c <= '\u{a629}')
    || ('\u{a8d0}' <= c && c <= '\u{a8d9}')
    || ('\u{a900}' <= c && c <= '\u{a909}')
    || ('\u{a9d0}' <= c && c <= '\u{a9d9}')
    || ('\u{a9f0}' <= c && c <= '\u{a9f9}')
    || ('\u{aa50}' <= c && c <= '\u{aa59}')
    || ('\u{abf0}' <= c && c <= '\u{abf9}')
    || ('\u{ff10}' <= c && c <= '\u{ff19}')
    || ('\u{104a0}' <= c && c <= '\u{104a9}')
    || ('\u{10d30}' <= c && c <= '\u{10d39}')
    || ('\u{10d40}' <= c && c <= '\u{10d49}')
    || ('\u{11066}' <= c && c <= '\u{1106f}')
    || ('\u{110f0}' <= c && c <= '\u{110f9}')
    || ('\u{11136}' <= c && c <= '\u{1113f}')
    || ('\u{111d0}' <= c && c <= '\u{111d9}')
    || ('\u{112f0}' <= c && c <= '\u{112f9}')
    || ('\u{11450}' <= c && c <= '\u{11459}')
    || ('\u{114d0}' <= c && c <= '\u{114d9}')
    || ('\u{11650}' <= c && c <= '\u{11659}')
    || ('\u{116c0}' <= c && c <= '\u{116c9}')
    || ('\u{116d0}' <= c && c <= '\u{116e3}')
    || ('\u{11730}' <= c && c <= '\u{11739}')
    || ('\u{118e0}' <= c && c <= '\u{118e9}')
    || ('\u{11950}' <= c && c <= '\u{11959}')
    || ('\u{11bf0}' <= c && c <= '\u{11bf9}')
    || ('\u{11c50}' <= c && c <= '\u{11c59}')
    || ('\u{11d50}' <= c && c <= '\u{11d59}')
    || ('\u{11da0}' <= c && c <= '\u{11da9}')
    || ('\u{11f50}' <= c && c <= '\u{11f59}')
    || ('\u{16130}' <= c && c <= '\u{16139}')
    || ('\u{16a60}' <= c && c <= '\u{16a69}')
    || ('\u{16ac0}' <= c && c <= '\u{16ac9}')
    || ('\u{16b50}' <= c && c <= '\u{16b59}')
    || ('\u{16d70}' <= c && c <= '\u{16d79}')
    || ('\u{1ccf0}' <= c && c <= '\u{1ccf9}')
    || ('\u{1d7ce}' <= c && c <= '\u{1d7ff}')
    || ('\u{1e140}' <= c && c <= '\u{1e149}')
    || ('\u{1e2f0}' <= c && c <= '\u{1e2f9}')
    || ('\u{1e4f0}' <= c && c <= '\u{1e4f9}')
    || ('\u{1e5f1}' <= c && c <= '\u{1e5fa}')
    || ('\u{1e950}' <= c && c <= '\u{1e959}')
    || ('\u{1fbf0}' <= c && c <= '\u{1fbf9}')
}

/// Whether `c` is a Unicode decimal digit.
pub fn char_is_decimal_digit(c: char) -> (r: bool)
    ensures
        r == is_decimal_digit(c),
{
    reveal(is_decimal_digit);
    ('\u{30}' <= c && c <= '\u{39}')
    || ('\u{660}' <= c && c <= '\u{669}')
    || ('\u{6f0}' <= c && c <= '\u{6f9}')
    || ('\u{7c0}' <= c && c <= '\u{7c9}')
    || ('\u{966}' <= c && c <= '\u{96f}')
    || ('\u{9e6}' <= c && c <= '\u{9ef}')
    || ('\u{a66}' <= c && c <= '\u{a6f}')
    || ('\u{ae6}' <= c && c <= '\u{aef}')
    || ('\u{b66}' <= c && c <= '\u{b6f}')
    || ('\u{be6}' <= c && c <= '\u{bef}')
    || ('\u{c66}' <= c && c <= '\u{c6f}')
    || ('\u{ce6}' <= c && c <= '\u{cef}')
    || ('\u{d66}' <= c && c <= '\u{d6f}')
    || ('\u{de6}' <= c && c <= '\u{def}')
    || ('\u{e50}' <= c && c <= '\u{e59}')
    || ('\u{ed0}' <= c && c <= '\u{ed9}')
    || ('\u{f20}' <= c && c <= '\u{f29}')
    || ('\u{1040}' <= c && c <= '\u{1049}')
    || ('\u{1090}' <= c && c <= '\u{1099}')
    || ('\u{17e0}' <= c && c <= '\u{17e9}')
    || ('\u{1810}' <= c && c <= '\u{1819}')
    || ('\u{1946}' <= c && c <= '\u{194f}')
    || ('\u{19d0}' <= c && c <= '\u{19d9}')
    || ('\u{1a80}' <= c && c <= '\u{1a89}')
    || ('\u{1a90}' <= c && c <= '\u{1a99}')
    || ('\u{1b50}' <= c && c <= '\u{1b59}')
    || ('\u{1bb0}' <= c && c <= '\u{1bb9}')
    || ('\u{1c40}' <= c && c <= '\u{1c49}')
    || ('\u{1c50}' <= c && c <= '\u{1c59}')
    || ('\u{a620}' <= c && c <= '\u{a629}')
    || ('\u{a8d0}' <= c && c <= '\u{a8d9}')
    || ('\u{a900}' <= c && c <= '\u{a909}')
    || ('\u{a9d0}' <= c && c <= '\u{a9d9}')
    || ('\u{a9f0}' <= c && c <= '\u{a9f9}')
    || ('\u{aa50}' <= c && c <= '\u{aa59}')
    || ('\u{abf0}' <= c && c <= '\u{abf9}')
    || ('\u{ff10}' <= c && c <= '\u{ff19}')
    || ('\u{104a0}' <= c && c <= '\u{104a9}')
    || ('\u{10d30}' <= c && c <= '\u{10d39}')
    || ('\u{10d40}' <= c && c <= '\u{10d49}')
    || ('\u{11066}' <= c && c <= '\u{1106f}')
    || ('\u{110f0}' <= c && c <= '\u{110f9}')
    || ('\u{11136}' <= c && c <= '\u{1113f}')
    || ('\u{111d0}' <= c && c <= '\u{111d9}')
    || ('\u{112f0}' <= c && c <= '\u{112f9}')
    || ('\u{11450}' <= c && c <= '\u{11459}')
    || ('\u{114d0}' <= c && c <= '\u{114d9}')
    || ('\u{11650}' <= c && c <= '\u{11659}')
    || ('\u{116c0}' <= c && c <= '\u{116c9}')
    || ('\u{116d0}' <= c && c <= '\u{116e3}')
    || ('\u{11730}' <= c && c <= '\u{11739}')
    || ('\u{118e0}' <= c && c <= '\u{118e9}')
    || ('\u{11950}' <= c && c <= '\u{11959}')
    || ('\u{11bf0}' <= c && c <= '\u{11bf9}')
    || ('\u{11c50}' <= c && c <= '\u{11c59}')
    || ('\u{11d50}' <= c && c <= '\u{11d59}')
    || ('\u{11da0}' <= c && c <= '\u{11da9}')
    || ('\u{11f50}' <= c && c <= '\u{11f59}')
    || ('\u{16130}' <= c && c <= '\u{16139}')
    || ('\u{16a60}' <= c && c <= '\u{16a69}')
    || ('\u{16ac0}' <= c && c <= '\u{16ac9}')
    || ('\u{16b50}' <= c && c <= '\u{16b59}')
    || ('\u{16d70}' <= c && c <= '\u{16d79}')
    || ('\u{1ccf0}' <= c && c <= '\u{1ccf9}')
    || ('\u{1d7ce}' <= c && c <= '\u{1d7ff}')
    || ('\u{1e140}' <= c && c <= '\u{1e149}')
    || ('\u{1e2f0}' <= c && c <= '\u{1e2f9}')
    || ('\u{1e4f0}' <= c && c <= '\u{1e4f9}')
    || ('\u{1e5f1}' <= c && c <= '\u{1e5fa}')
    || ('\u{1e950}' <= c && c <= '\u{1e959}')
    || ('\u{1fbf0}' <= c && c <= '\u{1fbf9}')
}

/// A decimal digit is not whitespace.
pub proof fn lemma_decimal_digit_not_space(c: char)
    requires
        is_decimal_digit(c),
    ensures
        !is_space(c),
{
    reveal(is_decimal_digit);
}

/// Classes of characters used to delimit runs.
#[derive(Clone, Copy, PartialEq, Eq, Debug)]
pub enum CharClass {
    /// whitespace
    Space,
    /// ASCII digit
    Digit,
    /// Unicode decimal digit
    Decimal,
    /// neither whitespace nor ASCII digit
    Word,
    /// anything but a line feed
    NotNewline,
    /// anything but `<` and `>`
    NotAngle,
    /// anything but a double quote
    NotQuote,
    /// anything but a slash
    NotSlash,
    /// anything but a colon
    NotColon,
}

pub open spec fn in_class(c: char, k: CharClass) -> bool {
    match k {
        CharClass::Space => is_space(c),
        CharClass::Digit => is_digit(c),
        CharClass::Decimal => is_decimal_digit(c),
        CharClass::Word => !is_space(c) && !is_digit(c),
        CharClass::NotNewline => c != '\n',
        CharClass::NotAngle => c != '<' && c != '>',
        CharClass::NotQuote => c != '"',
        CharClass::NotSlash => c != '/',
        CharClass::NotColon => c != ':',
    }
}

/// End of the longest run of characters of class `k` starting at `i`.
pub open spec fn run_end(s: Seq<char>, i: int, k: CharClass) -> int
    decreases s.len() - i,
{
    if 0 <= i < s.len() && in_class(s[i], k) {
        run_end(s, i + 1, k)
    } else {
        i
    }
}

pub proof fn lemma_run_end(s: Seq<char>, i: int, k: CharClass)
    requires
        0 <= i <= s.len(),
    ensures
        i <= run_end(s, i, k) <= s.len(),
        forall|j: int| i <= j < run_end(s, i, k) ==> in_class(#[trigger] s[j], k),
        run_end(s, i, k) < s.len() ==> !in_class(s[run_end(s, i, k)], k),
    decreases s.len() - i,
{
    if i < s.len() && in_class(s[i], k) {
        lemma_run_end(s, i + 1, k);
    }
}

/// A run only depends on the characters it covers and the one that stops it.
pub proof fn lemma_run_end_prefix(s: Seq<char>, t: Seq<char>, i: int, k: CharClass)
    requires
        0 <= i <= s.len(),
        s.len() <= t.len(),
        forall|j: int| 0 <= j < s.len() ==> s[j] == t[j],
        run_end(s, i, k) < s.len() || (s.len() < t.len() && !in_class(t[s.len() as int], k)),
    ensures
        run_end(t, i, k) == run_end(s, i, k),
    decreases s.len() - i,
{
    if i < s.len() && in_class(s[i], k) {
        lemma_run_end_prefix(s, t, i + 1, k);
    }
}

/// Runs in `p + s` after `p` are the runs of `s`, moved by the length of `p`.
pub proof fn lemma_run_end_shift(p: Seq<char>, s: Seq<char>, j: int, k: CharClass)
    requires
        0 <= j <= s.len(),
    ensures
        run_end(p + s, p.len() + j, k) == p.len() + run_end(s, j, k),
    decreases s.len() - j,
{
    if j < s.len() && in_class(s[j], k) {
        lemma_run_end_shift(p, s, j + 1, k);
    }
}

/// A run that starts inside a run of the same class ends where that run ends.
pub proof fn lemma_run_end_skip(s: Seq<char>, x: int, y: int, k: CharClass)
    requires
        0 <= x <= y <= s.len(),
        forall|j: int| x <= j < y ==> in_class(#[trigger] s[j], k),
    ensures
        run_end(s, x, k) == run_end(s, y, k),
    decreases y - x,
{
    if x < y {
        lemma_run_end_skip(s, x + 1, y, k);
    }
}

pub fn char_in_class(c: char, k: CharClass) -> (r: bool)
    ensures
        r == in_class(c, k),
{
    match k {
        CharClass::Space => {
            ('\t' <= c && c <= '\r') || c == ' ' || c == '\u{85}' || c == '\u{a0}' || c
                == '\u{1680}' || ('\u{2000}' <= c && c <= '\u{200a}') || c == '\u{2028}' || c
                == '\u{2029}' || c == '\u{202f}' || c == '\u{205f}' || c == '\u{3000}'
        },
        CharClass::Digit => '0' <= c && c <= '9',
        CharClass::Decimal => char_is_decimal_digit(c),
        CharClass::Word => {
            let sp = ('\t' <= c && c <= '\r') || c == ' ' || c == '\u{85}' || c == '\u{a0}' || c
                == '\u{1680}' || ('\u{2000}' <= c && c <= '\u{200a}') || c == '\u{2028}' || c
                == '\u{2029}' || c == '\u{202f}' || c == '\u{205f}' || c == '\u{3000}';
            !sp && !('0' <= c && c <= '9')
        },
        CharClass::NotNewline => c != '\n',
        CharClass::NotAngle => c != '<' && c != '>',
        CharClass::NotQuote => c != '"',
        CharClass::NotSlash => c != '/',
        CharClass::NotColon => c != ':',
    }
}

/// Index where the run of class `k` starting at `i` ends.
pub fn find_run_end(s: &Vec<char>, i: usize, k: CharClass) -> (r: usize)
    requires
        i <= s.len(),
    ensures
        r == run_end(s@, i as int, k),
        i <= r <= s.len(),
{
    let mut j = i;
    while j < s.len() && char_in_class(s[j], k)
        invariant
            i <= j <= s.len(),
            run_end(s@, i as int, k) == run_end(s@, j as int, k),
        decreases s.len() - j,
    {
        j = j + 1;
    }
    proof {
        lemma_run_end(s@, i as int, k);
    }
    j
}

/// The characters of a string slice.
pub fn chars_of(s: &str) -> (v: Vec<char>)
    ensures
        v@ == s@,
{
    let mut v: Vec<char> = Vec::new();
    for c in it: s.chars()
        invariant
            v@ == it.seq().take(it.index() as int),
            it.seq() == s@,
    {
        v.push(c);
    }
    v
}

/// Appends one character to a string.
#[verifier::external_body]
pub(crate) fn push_char(s: &mut String, c: char)
    ensures
        final(s)@ == old(s)@.push(c),
{
    s.push(c);
}

/// Appends the characters `v[from..to]` to `out`.
pub fn push_chars(out: &mut String, v: &Vec<char>, from: usize, to: usize)
    requires
        from <= to <= v.len(),
    ensures
        final(out)@ == old(out)@ + v@.subrange(from as int, to as int),
{
    let mut i = from;
    while i < to
        invariant
            from <= i <= to <= v.len(),
            out@ == old(out)@ + v@.subrange(from as int, i as int),
        decreases to - i,
    {
        push_char(out, v[i]);
        i = i + 1;
        assert(v@.subrange(from as int, i as int) == v@.subrange(from as int, i - 1).push(
            v@[i - 1],
        ));
    }
}

/// A string made of `v[from..to]`.
pub fn string_of(v: &Vec<char>, from: usize, to: usize) -> (r: String)
    requires
        from <= to <= v.len(),
    ensures
        r@ == v@.subrange(from as int, to as int),
{
    let mut r = String::new();
    push_chars(&mut r, v, from, to);
    r
}

/// Whether `v[from..to]` equals `w`.
pub fn range_equals(v: &Vec<char>, from: usize, to: usize, w: &Vec<char>) -> (r: bool)
    requires
        from <= to <= v.len(),
    ensures
        r == (v@.subrange(from as int, to as int) == w@),
{
    if to - from != w.len() {
        return false;
    }
    let mut i: usize = 0;
    while i < w.len()
        invariant
            to - from == w.len(),
            from <= to <= v.len(),
            i <= w.len(),
            forall|j: int| 0 <= j < i ==> v@[from + j] == w@[j],
        decreases w.len() - i,
    {
        if v[from + i] != w[i] {
            assert(v@.subrange(from as int, to as int)[i as int] != w@[i as int]);
            return false;
        }
        i = i + 1;
    }
    assert(v@.subrange(from as int, to as int) =~= w@);
    true
}


pub open spec fn digit_char(n: int) -> char {
    (n + ('0' as int)) as char
}

/// Decimal writing of `n`, without leading zeros.
pub open spec fn decimal_text(n: nat) -> Seq<char>
    decreases n,
{
    if n < 10 {
        seq![digit_char(n as int)]
    } else {
        decimal_text(n / 10) + seq![digit_char((n % 10) as int)]
    }
}

/// Writes `n` in decimal.
pub fn decimal_string(n: u64) -> (r: String)
    ensures
        r@ == decimal_text(n as nat),
    decreases n,
{
    let d = (n % 10) as u8;
    let c = (48u8 + d) as char;
    assert(c == digit_char((n % 10) as int));
    if n < 10 {
        let mut r = String::new();
        push_char(&mut r, c);
        r
    } else {
        let mut r = decimal_string(n / 10);
        push_char(&mut r, c);
        r
    }
}

} // verus!
