//! The line patterns of notes (todo items, due actions, checkbox tasks), money
//! amounts and static resources of pages: where they match, and text where
//! matches are replaced.
//!
//! Matching follows the usual leftmost-first rules: the text is searched from
//! left to right, the first position where the pattern matches starts a match,
//! repetitions take as many characters as they can, and the search goes on
//! after the end of each match.

use vstd::prelude::*;
use crate::text::{CharClass, run_end, lemma_run_end, find_run_end, is_decimal_digit, char_is_decimal_digit, push_chars};

verus! {

/// The patterns.
#[derive(Clone, Copy, PartialEq, Eq, Debug)]
pub enum PatternKind {
    /// `^(\s*)-\s*\[([ x])\]\s*(.*)$` (line mode): indent, box character, text.
    TodoItem,
    /// `^(\s*)-\s*\[ \]\s*(\d{4}-\d{2}-\d{2}) (.*)$` (line mode): indent, date, text.
    DueAction,
    /// `^(\s*)-\s*\[([ x])\]\s*(?:(\d{4}-\d{2}-\d{2}) )?(.*)$` (line mode):
    /// indent, box character, date (empty when absent), text.
    CheckboxTask,
    /// `(-?\d+(?:\.\d{2})?)€`: the amount.
    Money,
    /// `(<(?:link|script|img) [^<>]*(?:src|href))="([^"]*)"`: the tag up to the
    /// attribute name, the attribute value.
    StaticResource,
}

/// A match: where it starts and ends, and the bounds of its groups.
pub struct MatchSpec {
    pub start: int,
    pub end: int,
    pub groups: Seq<(int, int)>,
}

/// A match found in a text.
pub struct Found {
    pub start: usize,
    pub end: usize,
    pub groups: Vec<(usize, usize)>,
}

impl View for Found {
    type V = MatchSpec;

    open spec fn view(&self) -> MatchSpec {
        MatchSpec {
            start: self.start as int,
            end: self.end as int,
            groups: self.groups@.map_values(|g: (usize, usize)| (g.0 as int, g.1 as int)),
        }
    }
}

pub open spec fn line_start(s: Seq<char>, i: int) -> bool {
    i == 0 || (0 < i <= s.len() && s[i - 1] == '\n')
}

pub open spec fn char_is(s: Seq<char>, i: int, c: char) -> bool {
    0 <= i < s.len() && s[i] == c
}

pub open spec fn digit_at(s: Seq<char>, i: int) -> bool {
    0 <= i < s.len() && is_decimal_digit(s[i])
}

/// `\d{4}-\d{2}-\d{2}` at `c`.
pub open spec fn date_at(s: Seq<char>, c: int) -> bool {
    &&& digit_at(s, c)
    &&& digit_at(s, c + 1)
    &&& digit_at(s, c + 2)
    &&& digit_at(s, c + 3)
    &&& char_is(s, c + 4, '-')
    &&& digit_at(s, c + 5)
    &&& digit_at(s, c + 6)
    &&& char_is(s, c + 7, '-')
    &&& digit_at(s, c + 8)
    &&& digit_at(s, c + 9)
}

/// `^(\s*)-\s*\[` a box character `\]\s*` at a line start `i`: the end of the
/// indent, the position of the box character and the end of the spaces after
/// the box.
pub open spec fn box_prefix(s: Seq<char>, i: int) -> Option<(int, int, int)> {
    if !(0 <= i <= s.len()) || !line_start(s, i) {
        None
    } else {
        let a = run_end(s, i, CharClass::Space);
        if !char_is(s, a, '-') {
            None
        } else {
            let b = run_end(s, a + 1, CharClass::Space);
            if char_is(s, b, '[') && (char_is(s, b + 1, ' ') || char_is(s, b + 1, 'x')) && char_is(
                s,
                b + 2,
                ']',
            ) {
                Some((a, b + 1, run_end(s, b + 3, CharClass::Space)))
            } else {
                None
            }
        }
    }
}

/// `src="` or `href="` at `k`: the end of the attribute name and the start of
/// the value, when a closing quote follows.
pub open spec fn attr_at(s: Seq<char>, k: int) -> Option<(int, int)> {
    if char_is(s, k, 's') && char_is(s, k + 1, 'r') && char_is(s, k + 2, 'c') && char_is(
        s,
        k + 3,
        '=',
    ) && char_is(s, k + 4, '"') && run_end(s, k + 5, CharClass::NotQuote) < s.len() {
        Some((k + 3, k + 5))
    } else if char_is(s, k, 'h') && char_is(s, k + 1, 'r') && char_is(s, k + 2, 'e') && char_is(
        s,
        k + 3,
        'f',
    ) && char_is(s, k + 4, '=') && char_is(s, k + 5, '"') && run_end(s, k + 6, CharClass::NotQuote)
        < s.len() {
        Some((k + 4, k + 6))
    } else {
        None
    }
}

/// The last position in `[t, k)` where an attribute matches.
pub open spec fn last_attr(s: Seq<char>, t: int, k: int) -> Option<int>
    decreases k - t,
{
    if k <= t {
        None
    } else if attr_at(s, k - 1) is Some {
        Some(k - 1)
    } else {
        last_attr(s, t, k - 1)
    }
}

/// `<link `, `<script ` or `<img ` at `i`: the position after the space.
pub open spec fn tag_start(s: Seq<char>, i: int) -> Option<int> {
    if !char_is(s, i, '<') {
        None
    } else if char_is(s, i + 1, 'l') && char_is(s, i + 2, 'i') && char_is(s, i + 3, 'n')
        && char_is(s, i + 4, 'k') && char_is(s, i + 5, ' ') {
        Some(i + 6)
    } else if char_is(s, i + 1, 's') && char_is(s, i + 2, 'c') && char_is(s, i + 3, 'r')
        && char_is(s, i + 4, 'i') && char_is(s, i + 5, 'p') && char_is(s, i + 6, 't') && char_is(
        s,
        i + 7,
        ' ',
    ) {
        Some(i + 8)
    } else if char_is(s, i + 1, 'i') && char_is(s, i + 2, 'm') && char_is(s, i + 3, 'g')
        && char_is(s, i + 4, ' ') {
        Some(i + 5)
    } else {
        None
    }
}

/// The match of pattern `kind` starting at `i`, if there is one.
pub open spec fn match_at(kind: PatternKind, s: Seq<char>, i: int) -> Option<MatchSpec> {
    match kind {
        PatternKind::TodoItem => match box_prefix(s, i) {
            None => None,
            Some((a, bx, c)) => {
                let e = run_end(s, c, CharClass::NotNewline);
                Some(MatchSpec { start: i, end: e, groups: seq![(i, a), (bx, bx + 1), (c, e)] })
            },
        },
        PatternKind::DueAction => match box_prefix(s, i) {
            None => None,
            Some((a, bx, c)) => {
                if s[bx] == ' ' && date_at(s, c) && char_is(s, c + 10, ' ') {
                    let e = run_end(s, c + 11, CharClass::NotNewline);
                    Some(
                        MatchSpec {
                            start: i,
                            end: e,
                            groups: seq![(i, a), (c, c + 10), (c + 11, e)],
                        },
                    )
                } else {
                    None
                }
            },
        },
        PatternKind::CheckboxTask => match box_prefix(s, i) {
            None => None,
            Some((a, bx, c)) => {
                if date_at(s, c) && char_is(s, c + 10, ' ') {
                    let e = run_end(s, c + 11, CharClass::NotNewline);
                    Some(
                        MatchSpec {
                            start: i,
                            end: e,
                            groups: seq![(i, a), (bx, bx + 1), (c, c + 10), (c + 11, e)],
                        },
                    )
                } else {
                    let e = run_end(s, c, CharClass::NotNewline);
                    Some(
                        MatchSpec {
                            start: i,
                            end: e,
                            groups: seq![(i, a), (bx, bx + 1), (c, c), (c, e)],
                        },
                    )
                }
            },
        },
        PatternKind::Money => {
            let j = if char_is(s, i, '-') {
                i + 1
            } else {
                i
            };
            let d = run_end(s, j, CharClass::Decimal);
            let e = if char_is(s, d, '.') && digit_at(s, d + 1) && digit_at(s, d + 2) {
                d + 3
            } else {
                d
            };
            if 0 <= i <= s.len() && d > j && char_is(s, e, '€') {
                Some(MatchSpec { start: i, end: e + 1, groups: seq![(i, e)] })
            } else {
                None
            }
        },
        PatternKind::StaticResource => match tag_start(s, i) {
            None => None,
            Some(t) => match last_attr(s, t, run_end(s, t, CharClass::NotAngle)) {
                None => None,
                Some(k) => {
                    let (ae, v0) = attr_at(s, k)->0;
                    let v1 = run_end(s, v0, CharClass::NotQuote);
                    Some(MatchSpec { start: i, end: v1 + 1, groups: seq![(i, ae), (v0, v1)] })
                },
            },
        },
    }
}

/// The number of groups of a pattern.
pub open spec fn group_count(kind: PatternKind) -> nat {
    match kind {
        PatternKind::TodoItem => 3,
        PatternKind::DueAction => 3,
        PatternKind::CheckboxTask => 4,
        PatternKind::Money => 1,
        PatternKind::StaticResource => 2,
    }
}

/// The groups of a match lie inside it, and it is not empty.
pub open spec fn well_formed_match(m: MatchSpec, len: int) -> bool {
    &&& 0 <= m.start < m.end <= len
    &&& forall|g: int|
        0 <= g < m.groups.len() ==> m.start <= (#[trigger] m.groups[g]).0 <= m.groups[g].1 <= m.end
}

pub proof fn lemma_last_attr(s: Seq<char>, t: int, k: int)
    ensures
        last_attr(s, t, k) matches Some(x) ==> t <= x < k && attr_at(s, x) is Some,
    decreases k - t,
{
    if k > t && attr_at(s, k - 1) is None {
        lemma_last_attr(s, t, k - 1);
    }
}

pub proof fn lemma_match_at(kind: PatternKind, s: Seq<char>, i: int)
    requires
        0 <= i <= s.len(),
    ensures
        match_at(kind, s, i) matches Some(m) ==> m.start == i && well_formed_match(m, s.len() as int)
            && m.groups.len() == group_count(kind),
{
    lemma_run_end(s, i, CharClass::Space);
    let a = run_end(s, i, CharClass::Space);
    if 0 <= a + 1 <= s.len() {
        lemma_run_end(s, a + 1, CharClass::Space);
        let b = run_end(s, a + 1, CharClass::Space);
        if b + 3 <= s.len() {
            lemma_run_end(s, b + 3, CharClass::Space);
            let c = run_end(s, b + 3, CharClass::Space);
            lemma_run_end(s, c, CharClass::NotNewline);
            if c + 11 <= s.len() {
                lemma_run_end(s, c + 11, CharClass::NotNewline);
            }
        }
    }
    let j = if char_is(s, i, '-') {
        i + 1
    } else {
        i
    };
    lemma_run_end(s, j, CharClass::Decimal);
    if let Some(t) = tag_start(s, i) {
        lemma_run_end(s, t, CharClass::NotAngle);
        let l = run_end(s, t, CharClass::NotAngle);
        lemma_last_attr(s, t, l);
        if let Some(k) = last_attr(s, t, l) {
            let (ae, v0) = attr_at(s, k)->0;
            lemma_run_end(s, v0, CharClass::NotQuote);
        }
    }
}


/// The first position from `i` on where pattern `kind` matches.
pub open spec fn first_match(kind: PatternKind, s: Seq<char>, i: int) -> Option<int>
    decreases s.len() + 1 - i,
{
    if !(0 <= i <= s.len()) {
        None
    } else if match_at(kind, s, i) is Some {
        Some(i)
    } else {
        first_match(kind, s, i + 1)
    }
}

pub proof fn lemma_first_match(kind: PatternKind, s: Seq<char>, i: int)
    requires
        0 <= i,
    ensures
        first_match(kind, s, i) matches Some(k) ==> i <= k <= s.len() && match_at(kind, s, k) is Some,
        first_match(kind, s, i) is None ==> forall|k: int|
            i <= k <= s.len() ==> #[trigger] match_at(kind, s, k) is None,
    decreases s.len() + 1 - i,
{
    if 0 <= i <= s.len() && match_at(kind, s, i) is None {
        lemma_first_match(kind, s, i + 1);
        if first_match(kind, s, i + 1) is None {
            assert forall|k: int| i <= k <= s.len() implies #[trigger] match_at(kind, s, k) is None by {
                if k > i {
                }
            }
        }
    }
}

/// The successive matches of pattern `kind` in `s`, searching from `i`.
pub open spec fn all_matches(kind: PatternKind, s: Seq<char>, i: int) -> Seq<MatchSpec>
    decreases s.len() + 1 - i,
{
    match first_match(kind, s, i) {
        None => seq![],
        Some(k) => {
            proof {
                lemma_first_match(kind, s, i);
                lemma_match_at(kind, s, k);
            }
            let m = match_at(kind, s, k)->0;
            seq![m] + all_matches(kind, s, m.end)
        },
    }
}

/// Matches that follow each other from `pos` on, inside a text of length `len`.
pub open spec fn placed_from(ms: Seq<MatchSpec>, pos: int, len: int) -> bool
    decreases ms.len(),
{
    if ms.len() == 0 {
        0 <= pos <= len
    } else {
        &&& 0 <= pos <= ms[0].start
        &&& well_formed_match(ms[0], len)
        &&& placed_from(ms.drop_first(), ms[0].end, len)
    }
}

pub proof fn lemma_all_matches_placed(kind: PatternKind, s: Seq<char>, i: int)
    requires
        0 <= i <= s.len(),
    ensures
        placed_from(all_matches(kind, s, i), i, s.len() as int),
        forall|k: int|
            0 <= k < all_matches(kind, s, i).len() ==> well_formed_match(
                #[trigger] all_matches(kind, s, i)[k],
                s.len() as int,
            ) && all_matches(kind, s, i)[k].groups.len() == group_count(kind),
        forall|k: int|
            0 <= k < all_matches(kind, s, i).len() ==> match_at(
                kind,
                s,
                (#[trigger] all_matches(kind, s, i)[k]).start,
            ) == Some(all_matches(kind, s, i)[k]),
    decreases s.len() + 1 - i,
{
    lemma_first_match(kind, s, i);
    if let Some(k) = first_match(kind, s, i) {
        lemma_match_at(kind, s, k);
        let m = match_at(kind, s, k)->0;
        lemma_all_matches_placed(kind, s, m.end);
        let ms = all_matches(kind, s, i);
        assert(ms.drop_first() =~= all_matches(kind, s, m.end));
        assert forall|j: int| 0 <= j < ms.len() implies match_at(kind, s, (#[trigger] ms[j]).start)
            == Some(ms[j]) && well_formed_match(ms[j], s.len() as int) && ms[j].groups.len()
            == group_count(kind) by {
            if j > 0 {
                assert(ms[j] == all_matches(kind, s, m.end)[j - 1]);
            }
        }
    }
}

/// The text `s` from `pos` on, where each match is replaced by its
/// replacement, or kept when there is none.
pub open spec fn splice(
    s: Seq<char>,
    ms: Seq<MatchSpec>,
    reps: Seq<Option<Seq<char>>>,
    pos: int,
) -> Seq<char>
    decreases ms.len(),
{
    if ms.len() == 0 {
        s.subrange(pos, s.len() as int)
    } else {
        s.subrange(pos, ms[0].start) + match reps[0] {
            Some(r) => r,
            None => s.subrange(ms[0].start, ms[0].end),
        } + splice(s, ms.drop_first(), reps.drop_first(), ms[0].end)
    }
}

fn ch(v: &Vec<char>, i: usize, c: char) -> (r: bool)
    ensures
        r == char_is(v@, i as int, c),
        r ==> i < v.len(),
{
    i < v.len() && v[i] == c
}

fn dg(v: &Vec<char>, i: usize) -> (r: bool)
    ensures
        r == digit_at(v@, i as int),
        r ==> i < v.len(),
{
    i < v.len() && char_is_decimal_digit(v[i])
}

fn is_date_at(v: &Vec<char>, c: usize) -> (r: bool)
    ensures
        r == date_at(v@, c as int),
{
    dg(v, c) && dg(v, c + 1) && dg(v, c + 2) && dg(v, c + 3) && ch(v, c + 4, '-') && dg(v, c + 5)
        && dg(v, c + 6) && ch(v, c + 7, '-') && dg(v, c + 8) && dg(v, c + 9)
}

fn find_box_prefix(v: &Vec<char>, i: usize) -> (r: Option<(usize, usize, usize)>)
    requires
        i <= v.len(),
    ensures
        r is None ==> box_prefix(v@, i as int) is None,
        r matches Some(x) ==> box_prefix(v@, i as int) == Some((x.0 as int, x.1 as int, x.2 as int)),
{
    if !(i == 0 || v[i - 1] == '\n') {
        return None;
    }
    let a = find_run_end(v, i, CharClass::Space);
    if !ch(v, a, '-') {
        return None;
    }
    let b = find_run_end(v, a + 1, CharClass::Space);
    if ch(v, b, '[') && (ch(v, b + 1, ' ') || ch(v, b + 1, 'x')) && ch(v, b + 2, ']') {
        let c = find_run_end(v, b + 3, CharClass::Space);
        Some((a, b + 1, c))
    } else {
        None
    }
}

fn find_attr_at(v: &Vec<char>, k: usize) -> (r: Option<(usize, usize)>)
    requires
        k <= v.len(),
    ensures
        r is None ==> attr_at(v@, k as int) is None,
        r matches Some(x) ==> attr_at(v@, k as int) == Some((x.0 as int, x.1 as int)),
{
    if ch(v, k, 's') && ch(v, k + 1, 'r') && ch(v, k + 2, 'c') && ch(v, k + 3, '=') && ch(
        v,
        k + 4,
        '"',
    ) && find_run_end(v, k + 5, CharClass::NotQuote) < v.len() {
        Some((k + 3, k + 5))
    } else if ch(v, k, 'h') && ch(v, k + 1, 'r') && ch(v, k + 2, 'e') && ch(v, k + 3, 'f') && ch(
        v,
        k + 4,
        '=',
    ) && ch(v, k + 5, '"') && find_run_end(v, k + 6, CharClass::NotQuote) < v.len() {
        Some((k + 4, k + 6))
    } else {
        None
    }
}

fn find_tag_start(v: &Vec<char>, i: usize) -> (r: Option<usize>)
    ensures
        r is None ==> tag_start(v@, i as int) is None,
        r matches Some(x) ==> tag_start(v@, i as int) == Some(x as int),
{
    if !ch(v, i, '<') {
        None
    } else if ch(v, i + 1, 'l') && ch(v, i + 2, 'i') && ch(v, i + 3, 'n') && ch(v, i + 4, 'k')
        && ch(v, i + 5, ' ') {
        Some(i + 6)
    } else if ch(v, i + 1, 's') && ch(v, i + 2, 'c') && ch(v, i + 3, 'r') && ch(v, i + 4, 'i')
        && ch(v, i + 5, 'p') && ch(v, i + 6, 't') && ch(v, i + 7, ' ') {
        Some(i + 8)
    } else if ch(v, i + 1, 'i') && ch(v, i + 2, 'm') && ch(v, i + 3, 'g') && ch(v, i + 4, ' ') {
        Some(i + 5)
    } else {
        None
    }
}

fn find_last_attr(v: &Vec<char>, t: usize, l: usize) -> (r: Option<usize>)
    requires
        t <= l <= v.len(),
    ensures
        r is None ==> last_attr(v@, t as int, l as int) is None,
        r matches Some(x) ==> last_attr(v@, t as int, l as int) == Some(x as int),
{
    let mut k = l;
    while k > t
        invariant
            t <= k <= l <= v.len(),
            last_attr(v@, t as int, l as int) == last_attr(v@, t as int, k as int),
        decreases k,
    {
        if find_attr_at(v, k - 1).is_some() {
            return Some(k - 1);
        }
        k = k - 1;
    }
    None
}

fn mk(start: usize, end: usize, groups: Vec<(usize, usize)>) -> (f: Found)
    ensures
        f.start == start,
        f.end == end,
        f.groups == groups,
{
    Found { start, end, groups }
}

/// The match of pattern `kind` starting at `i`, if there is one.
pub fn find_match_at(kind: PatternKind, v: &Vec<char>, i: usize) -> (r: Option<Found>)
    requires
        i <= v.len(),
    ensures
        r is None ==> match_at(kind, v@, i as int) is None,
        r matches Some(f) ==> match_at(kind, v@, i as int) == Some(f@),
{
    proof {
        lemma_match_at(kind, v@, i as int);
    }
    match kind {
        PatternKind::TodoItem => match find_box_prefix(v, i) {
            None => None,
            Some((a, bx, c)) => {
                proof {
                    lemma_run_end(v@, i as int, CharClass::Space);
                }
                let e = find_run_end(v, c, CharClass::NotNewline);
                let f = mk(i, e, vec![(i, a), (bx, bx + 1), (c, e)]);
                assert(f@.groups =~= seq![
                    (i as int, a as int),
                    (bx as int, bx + 1),
                    (c as int, e as int),
                ]);
                Some(f)
            },
        },
        PatternKind::DueAction => match find_box_prefix(v, i) {
            None => None,
            Some((a, bx, c)) => {
                if v[bx] == ' ' && is_date_at(v, c) && ch(v, c + 10, ' ') {
                    let e = find_run_end(v, c + 11, CharClass::NotNewline);
                    let f = mk(i, e, vec![(i, a), (c, c + 10), (c + 11, e)]);
                    assert(f@.groups =~= seq![
                        (i as int, a as int),
                        (c as int, c + 10),
                        (c + 11, e as int),
                    ]);
                    Some(f)
                } else {
                    None
                }
            },
        },
        PatternKind::CheckboxTask => match find_box_prefix(v, i) {
            None => None,
            Some((a, bx, c)) => {
                if is_date_at(v, c) && ch(v, c + 10, ' ') {
                    let e = find_run_end(v, c + 11, CharClass::NotNewline);
                    let f = mk(i, e, vec![(i, a), (bx, bx + 1), (c, c + 10), (c + 11, e)]);
                    assert(f@.groups =~= seq![
                        (i as int, a as int),
                        (bx as int, bx + 1),
                        (c as int, c + 10),
                        (c + 11, e as int),
                    ]);
                    Some(f)
                } else {
                    let e = find_run_end(v, c, CharClass::NotNewline);
                    let f = mk(i, e, vec![(i, a), (bx, bx + 1), (c, c), (c, e)]);
                    assert(f@.groups =~= seq![
                        (i as int, a as int),
                        (bx as int, bx + 1),
                        (c as int, c as int),
                        (c as int, e as int),
                    ]);
                    Some(f)
                }
            },
        },
        PatternKind::Money => {
            let j = if ch(v, i, '-') {
                i + 1
            } else {
                i
            };
            let d = find_run_end(v, j, CharClass::Decimal);
            let e = if ch(v, d, '.') && dg(v, d + 1) && dg(v, d + 2) {
                d + 3
            } else {
                d
            };
            if d > j && ch(v, e, '€') {
                let f = mk(i, e + 1, vec![(i, e)]);
                assert(f@.groups =~= seq![(i as int, e as int)]);
                Some(f)
            } else {
                None
            }
        },
        PatternKind::StaticResource => match find_tag_start(v, i) {
            None => None,
            Some(t) => {
                proof {
                    lemma_run_end(v@, t as int, CharClass::NotAngle);
                }
                let l = find_run_end(v, t, CharClass::NotAngle);
                proof {
                    lemma_last_attr(v@, t as int, l as int);
                }
                match find_last_attr(v, t, l) {
                    None => None,
                    Some(k) => {
                        let (ae, v0) = match find_attr_at(v, k) {
                            Some(x) => x,
                            None => {
                                return None;
                            },
                        };
                        let v1 = find_run_end(v, v0, CharClass::NotQuote);
                        let f = mk(i, v1 + 1, vec![(i, ae), (v0, v1)]);
                        assert(f@.groups =~= seq![(i as int, ae as int), (v0 as int, v1 as int)]);
                        Some(f)
                    },
                }
            },
        },
    }
}


pub open spec fn found_view(ms: Seq<Found>) -> Seq<MatchSpec> {
    ms.map_values(|f: Found| f@)
}

pub open spec fn reps_view(reps: Seq<Option<String>>) -> Seq<Option<Seq<char>>> {
    reps.map_values(
        |o: Option<String>|
            match o {
                Some(x) => Some(x@),
                None => None,
            },
    )
}

/// The first match of pattern `kind` from position `pos` on.
fn next_match(kind: PatternKind, v: &Vec<char>, pos: usize) -> (r: Option<Found>)
    requires
        pos <= v.len(),
    ensures
        r is None ==> first_match(kind, v@, pos as int) is None,
        r matches Some(f) ==> first_match(kind, v@, pos as int) == Some(f.start as int)
            && match_at(kind, v@, f.start as int) == Some(f@),
{
    let mut k = pos;
    loop
        invariant
            pos <= k <= v.len(),
            first_match(kind, v@, pos as int) == first_match(kind, v@, k as int),
        decreases v.len() - k,
    {
        match find_match_at(kind, v, k) {
            Some(f) => {
                return Some(f);
            },
            None => {
                if k == v.len() {
                    assert(first_match(kind, v@, k + 1) is None);
                    return None;
                }
                k = k + 1;
            },
        }
    }
}

/// The successive matches of pattern `kind` in `v`.
pub fn find_all(kind: PatternKind, v: &Vec<char>) -> (r: Vec<Found>)
    ensures
        found_view(r@) == all_matches(kind, v@, 0),
        placed_from(found_view(r@), 0, v.len() as int),
        forall|k: int|
            0 <= k < r@.len() ==> {
                &&& match_at(kind, v@, (#[trigger] r@[k]).start as int) == Some(r@[k]@)
                &&& well_formed_match(r@[k]@, v.len() as int)
                &&& r@[k].groups@.len() == group_count(kind)
            },
{
    proof {
        lemma_all_matches_placed(kind, v@, 0);
    }
    let mut out: Vec<Found> = Vec::new();
    let mut pos: usize = 0;
    assert(found_view(out@) + all_matches(kind, v@, 0) =~= all_matches(kind, v@, 0));
    loop
        invariant
            pos <= v.len(),
            all_matches(kind, v@, 0) == found_view(out@) + all_matches(kind, v@, pos as int),
        decreases v.len() - pos,
    {
        match next_match(kind, v, pos) {
            None => {
                assert(found_view(out@) + all_matches(kind, v@, pos as int) =~= found_view(out@));
                proof {
                    lemma_all_matches_placed(kind, v@, 0);
                }
                assert forall|k: int| 0 <= k < out@.len() implies {
                    &&& match_at(kind, v@, (#[trigger] out@[k]).start as int) == Some(out@[k]@)
                    &&& well_formed_match(out@[k]@, v.len() as int)
                    &&& out@[k].groups@.len() == group_count(kind)
                } by {
                    assert(found_view(out@)[k] == out@[k]@);
                    assert(all_matches(kind, v@, 0)[k] == out@[k]@);
                    assert(out@[k]@.groups.len() == out@[k].groups@.len());
                }
                return out;
            },
            Some(f) => {
                proof {
                    lemma_first_match(kind, v@, pos as int);
                    lemma_match_at(kind, v@, f.start as int);
                }
                let ghost prev = found_view(out@);
                let ghost m = f@;
                let end = f.end;
                out.push(f);
                assert(found_view(out@) =~= prev.push(m));
                assert(prev + all_matches(kind, v@, pos as int) =~= prev.push(m) + all_matches(
                    kind,
                    v@,
                    end as int,
                ));
                pos = end;
            },
        }
    }
}

/// The text `v` where each match `ms[k]` is replaced by `reps[k]` when there is one.
pub fn splice_text(v: &Vec<char>, ms: &Vec<Found>, reps: &Vec<Option<String>>) -> (r: String)
    requires
        ms.len() == reps.len(),
        placed_from(found_view(ms@), 0, v.len() as int),
    ensures
        r@ == splice(v@, found_view(ms@), reps_view(reps@), 0),
{
    let ghost msv = found_view(ms@);
    let ghost rv = reps_view(reps@);
    let mut out = String::new();
    let mut pos: usize = 0;
    let mut k: usize = 0;
    assert(msv.subrange(0, msv.len() as int) =~= msv);
    assert(rv.subrange(0, rv.len() as int) =~= rv);
    while k < ms.len()
        invariant
            k <= ms.len() == reps.len(),
            msv == found_view(ms@),
            rv == reps_view(reps@),
            pos <= v.len(),
            placed_from(msv.subrange(k as int, msv.len() as int), pos as int, v.len() as int),
            splice(v@, msv, rv, 0) == out@ + splice(
                v@,
                msv.subrange(k as int, msv.len() as int),
                rv.subrange(k as int, rv.len() as int),
                pos as int,
            ),
        decreases ms.len() - k,
    {
        let ghost tail = msv.subrange(k as int, msv.len() as int);
        let ghost rtail = rv.subrange(k as int, rv.len() as int);
        assert(tail[0] == ms@[k as int]@);
        assert(rtail[0] == rv[k as int]);
        assert(tail.drop_first() =~= msv.subrange(k + 1, msv.len() as int));
        assert(rtail.drop_first() =~= rv.subrange(k + 1, rv.len() as int));
        let start = ms[k].start;
        let end = ms[k].end;
        let ghost before = out@;
        push_chars(&mut out, v, pos, start);
        match &reps[k] {
            Some(x) => {
                out.append(x.as_str());
            },
            None => {
                push_chars(&mut out, v, start, end);
            },
        }
        assert(out@ == before + v@.subrange(pos as int, start as int) + match rtail[0] {
            Some(r) => r,
            None => v@.subrange(start as int, end as int),
        });
        pos = end;
        k = k + 1;
    }
    let ghost before = out@;
    push_chars(&mut out, v, pos, v.len());
    out
}


/// `(?s)^# ([^\n]*)\n\n(.*)$`: a text starting with a `# ` title line, an
/// empty line and the body; the title and the body.
pub open spec fn title_split(s: Seq<char>) -> Option<(Seq<char>, Seq<char>)> {
    let e = run_end(s, 2, CharClass::NotNewline);
    if s.len() >= 2 && s[0] == '#' && s[1] == ' ' && char_is(s, e, '\n') && char_is(s, e + 1, '\n') {
        Some((s.subrange(2, e), s.subrange(e + 2, s.len() as int)))
    } else {
        None
    }
}

/// Splits a text into its `# ` title and its body.
pub fn split_title(v: &Vec<char>) -> (r: Option<(String, String)>)
    ensures
        r is None ==> title_split(v@) is None,
        r matches Some(x) ==> title_split(v@) == Some((x.0@, x.1@)),
{
    if v.len() < 2 || v[0] != '#' || v[1] != ' ' {
        return None;
    }
    let e = find_run_end(v, 2, CharClass::NotNewline);
    if ch(v, e, '\n') && ch(v, e + 1, '\n') {
        let title = crate::text::string_of(v, 2, e);
        let body = crate::text::string_of(v, e + 2, v.len());
        Some((title, body))
    } else {
        None
    }
}

/// A text is split into a title and a body exactly when it is `# `, a title
/// without line feed, two line feeds and the body; the split gives them back.
pub proof fn law_title_split(s: Seq<char>, title: Seq<char>, body: Seq<char>)
    ensures
        title_split(s) == Some((title, body)) <==> (s == seq!['#', ' '] + title + seq!['\n', '\n']
            + body && !title.contains('\n')),
{
    let t = seq!['#', ' '] + title + seq!['\n', '\n'] + body;
    if s == t && !title.contains('\n') {
        let e: int = 2 + title.len() as int;
        assert forall|j: int| 2 <= j < e implies s[j] != '\n' by {
            assert(s[j] == title[j - 2]);
        }
        crate::text::lemma_run_end_skip(s, 2, e, CharClass::NotNewline);
        assert(s.subrange(2, e) =~= title);
        assert(s.subrange(e + 2, s.len() as int) =~= body);
    }
    if title_split(s) == Some((title, body)) {
        let e = run_end(s, 2, CharClass::NotNewline);
        lemma_run_end(s, 2, CharClass::NotNewline);
        assert(s =~= t);
        if title.contains('\n') {
            let k = choose|k: int| 0 <= k < title.len() && title[k] == '\n';
            assert(s[2 + k] == '\n');
        }
    }
}

} // verus!
