//! The tree of markdown notes: files, their title and due actions, and the
//! directories holding them.

use vstd::prelude::*;
use crate::date::{CalDate, date_of_text};
use crate::pattern::{PatternKind, MatchSpec, Found, all_matches, find_all, found_view, title_split, split_title, well_formed_match, match_at, splice, splice_text, reps_view};
use crate::text::{chars_of, string_of, push_char, push_chars, CharClass, run_end, lemma_run_end, find_run_end};

verus! {

/// Action to perform on a due date.
#[derive(PartialEq, Debug)]
pub struct DueAction {
    pub date: CalDate,
    pub action: String,
}

/// The date text and the action text of a due action match.
pub open spec fn due_action_parts(s: Seq<char>, m: MatchSpec) -> (Seq<char>, Seq<char>) {
    (s.subrange(m.groups[1].0, m.groups[1].1), s.subrange(m.groups[2].0, m.groups[2].1))
}

/// Every due action of `s` has a real date.
pub open spec fn due_dates_valid(s: Seq<char>) -> bool {
    forall|k: int|
        0 <= k < all_matches(PatternKind::DueAction, s, 0).len() ==> date_of_text(
            due_action_parts(s, #[trigger] all_matches(PatternKind::DueAction, s, 0)[k]).0,
        ) is Some
}

/// The due actions of `s` are those of `ds`, in order.
pub open spec fn due_actions_of(s: Seq<char>, ds: Seq<DueAction>) -> bool {
    let ms = all_matches(PatternKind::DueAction, s, 0);
    &&& ds.len() == ms.len()
    &&& forall|k: int|
        0 <= k < ds.len() ==> {
            &&& Some((#[trigger] ds[k]).date@) == date_of_text(due_action_parts(s, ms[k]).0)
            &&& ds[k].action@ == due_action_parts(s, ms[k]).1
        }
}

/// Whether every due action of `content` has a real date.
pub fn due_dates_are_valid(content: &str) -> (r: bool)
    ensures
        r == due_dates_valid(content@),
{
    let v = chars_of(content);
    let ms = find_all(PatternKind::DueAction, &v);
    let mut k: usize = 0;
    while k < ms.len()
        invariant
            v@ == content@,
            found_view(ms@) == all_matches(PatternKind::DueAction, v@, 0),
            forall|k: int|
                0 <= k < ms@.len() ==> {
                    &&& well_formed_match((#[trigger] ms@[k])@, v.len() as int)
                    &&& ms@[k].groups@.len() == 3
                },
            k <= ms.len(),
            forall|j: int|
                0 <= j < k ==> date_of_text(
                    due_action_parts(v@, #[trigger] all_matches(PatternKind::DueAction, v@, 0)[j]).0,
                ) is Some,
        decreases ms.len() - k,
    {
        let ghost m = found_view(ms@)[k as int];
        assert(m == ms@[k as int]@);
        let g0 = ms[k].groups[1].0;
        let g1 = ms[k].groups[1].1;
        assert(m.groups[1] == (g0 as int, g1 as int));
        let date_text = string_of(&v, g0, g1);
        if CalDate::parse_iso(date_text.as_str()).is_none() {
            return false;
        }
        k = k + 1;
    }
    true
}


/// The due actions in `content`: the unchecked todo items whose text starts
/// with a `YYYY-MM-DD` date and a space, in order.
pub fn get_due_actions(content: &str) -> (r: Vec<DueAction>)
    requires
        due_dates_valid(content@),
    ensures
        due_actions_of(content@, r@),
{
    let v = chars_of(content);
    let ms = find_all(PatternKind::DueAction, &v);
    let mut out: Vec<DueAction> = Vec::new();
    let mut k: usize = 0;
    while k < ms.len()
        invariant
            v@ == content@,
            due_dates_valid(content@),
            found_view(ms@) == all_matches(PatternKind::DueAction, v@, 0),
            forall|k: int|
                0 <= k < ms@.len() ==> {
                    &&& well_formed_match((#[trigger] ms@[k])@, v.len() as int)
                    &&& ms@[k].groups@.len() == 3
                },
            k <= ms.len(),
            out@.len() == k,
            forall|j: int|
                0 <= j < k ==> {
                    &&& Some((#[trigger] out@[j]).date@) == date_of_text(
                        due_action_parts(v@, all_matches(PatternKind::DueAction, v@, 0)[j]).0,
                    )
                    &&& out@[j].action@ == due_action_parts(
                        v@,
                        all_matches(PatternKind::DueAction, v@, 0)[j],
                    ).1
                },
        decreases ms.len() - k,
    {
        let ghost m = found_view(ms@)[k as int];
        assert(m == ms@[k as int]@);
        assert(m == all_matches(PatternKind::DueAction, v@, 0)[k as int]);
        let (d0, d1) = ms[k].groups[1];
        let (a0, a1) = ms[k].groups[2];
        assert(m.groups[1] == (d0 as int, d1 as int));
        assert(m.groups[2] == (a0 as int, a1 as int));
        let date_text = string_of(&v, d0, d1);
        let date = CalDate::parse_iso(date_text.as_str()).unwrap();
        let action = string_of(&v, a0, a1);
        out.push(DueAction { date, action });
        k = k + 1;
    }
    out
}

/// A markdown note.
pub struct MdFile {
    /// Modification time of the file when it was read, in nanoseconds since
    /// the Unix epoch.
    pub mtime: u128,
    /// Path relative to the content directory, used for links.
    pub href: String,
    /// Title, with the parent directory in front (`parent/title`).
    pub title: String,
    /// Due actions of the note.
    pub due_actions: Vec<DueAction>,
    /// Markdown body, before any rendering.
    pub raw_md_body: String,
}

/// Result of `std::path::Path::parent` on `p`, shown as text, the empty text
/// when there is no parent.
pub uninterp spec fn path_parent(p: Seq<char>) -> Seq<char>;

/// `std::path::Path::parent`, shown as text (`Path::display`), or the empty
/// text when the path has no parent. Documented: a relative path of one
/// component has the empty path as parent, and the empty path has none; so a
/// path without a separator and without a prefix gives the empty text. The
/// clause is stated only for paths with neither `/` nor `\` nor `:`, since on
/// Windows `\` separates components too and `C:` is a prefix; for other paths
/// only the name `path_parent` is stated.
#[verifier::external_body]
fn std_path_parent(p: &str) -> (r: String)
    ensures
        r@ == path_parent(p@),
        !p@.contains('/') && !p@.contains('\\') && !p@.contains(':') ==> r@ == Seq::<char>::empty(),
{
    std::path::Path::new(p).parent().unwrap_or(std::path::Path::new("")).display().to_string()
}

/// The title of a note at `rel_path` whose first line gives `title`.
pub open spec fn note_title(rel_path: Seq<char>, title: Seq<char>) -> Seq<char> {
    if path_parent(rel_path).len() == 0 {
        title
    } else {
        path_parent(rel_path) + seq!['/'] + title
    }
}

impl MdFile {
    /// Splits a note into its `# ` title and its body.
    pub fn split_title_body(content: &str) -> (r: Option<(String, String)>)
        ensures
            r is None ==> title_split(content@) is None,
            r matches Some(x) ==> title_split(content@) == Some((x.0@, x.1@)),
    {
        let v = chars_of(content);
        split_title(&v)
    }

    /// The note at `rel_path`, read at time `mtime` with text `content`; `None`
    /// when the text does not start with a `# ` title line and an empty line.
    pub fn from_content(rel_path: &str, content: &str, mtime: u128) -> (r: Option<Self>)
        requires
            title_split(content@) matches Some(tb) ==> due_dates_valid(tb.1),
        ensures
            r is None <==> title_split(content@) is None,
            r matches Some(f) ==> {
                let (title, body) = title_split(content@)->0;
                &&& f.mtime == mtime
                &&& f.href@ == rel_path@
                &&& f.title@ == note_title(rel_path@, title)
                &&& due_actions_of(body, f.due_actions@)
                &&& f.raw_md_body@ == body
            },
    {
        let (title, body) = match Self::split_title_body(content) {
            None => {
                return None;
            },
            Some(x) => x,
        };
        let due_actions = get_due_actions(body.as_str());
        let parent = std_path_parent(rel_path);
        let full_title = if parent.as_str().is_empty() {
            title
        } else {
            let mut t = parent;
            t.append("/");
            t.append(title.as_str());
            t
        };
        proof {
            if parent@.len() != 0 {
                reveal_strlit("/");
            }
        }
        Some(
            MdFile {
                mtime,
                href: String::from_str(rel_path),
                title: full_title,
                due_actions,
                raw_md_body: body,
            },
        )
    }
}


/// A checkbox task of a note: `- [ ]` or `- [x]`, an optional date, a text.
pub struct CheckboxTask {
    /// Whitespace before the `-`.
    pub indent: String,
    /// Whether the box is checked.
    pub checked: bool,
    /// The `YYYY-MM-DD` date in front of the text, if any.
    pub date: Option<String>,
    /// The text after the box (and the date).
    pub text: String,
}

/// Indent, check state, date and text of a checkbox task match.
pub open spec fn task_parts(s: Seq<char>, m: MatchSpec) -> (
    Seq<char>,
    bool,
    Option<Seq<char>>,
    Seq<char>,
) {
    (
        s.subrange(m.groups[0].0, m.groups[0].1),
        s[m.groups[1].0] == 'x',
        if m.groups[2].0 == m.groups[2].1 {
            None
        } else {
            Some(s.subrange(m.groups[2].0, m.groups[2].1))
        },
        s.subrange(m.groups[3].0, m.groups[3].1),
    )
}

/// A checkbox task written back as markdown: `{indent}- [x] {date} {text}`.
pub open spec fn task_text(
    indent: Seq<char>,
    checked: bool,
    date: Option<Seq<char>>,
    text: Seq<char>,
) -> Seq<char> {
    indent + "- ["@ + (if checked {
        seq!['x']
    } else {
        seq![' ']
    }) + "] "@ + match date {
        Some(d) => d + seq![' '],
        None => Seq::<char>::empty(),
    } + text
}

impl CheckboxTask {
    pub open spec fn parts(&self) -> (Seq<char>, bool, Option<Seq<char>>, Seq<char>) {
        (
            self.indent@,
            self.checked,
            match self.date {
                Some(d) => Some(d@),
                None => None,
            },
            self.text@,
        )
    }

    /// The task of a match of the checkbox task pattern in `v`.
    pub fn from_match(v: &Vec<char>, f: &Found) -> (r: Self)
        requires
            match_at(PatternKind::CheckboxTask, v@, f.start as int) == Some(f@),
            f.groups@.len() == 4,
            well_formed_match(f@, v.len() as int),
        ensures
            r.parts() == task_parts(v@, f@),
    {
        let (i0, i1) = f.groups[0];
        let (b0, _b1) = f.groups[1];
        let (d0, d1) = f.groups[2];
        let (t0, t1) = f.groups[3];
        assert(f@.groups[0] == (i0 as int, i1 as int));
        assert(f@.groups[1].0 == b0 as int);
        assert(f@.groups[2] == (d0 as int, d1 as int));
        assert(f@.groups[3] == (t0 as int, t1 as int));
        let date = if d0 == d1 {
            None
        } else {
            Some(string_of(v, d0, d1))
        };
        CheckboxTask {
            indent: string_of(v, i0, i1),
            checked: v[b0] == 'x',
            date,
            text: string_of(v, t0, t1),
        }
    }

    /// The checkbox tasks of `content`, in order.
    pub fn all_in(content: &str) -> (r: Vec<Self>)
        ensures
            r@.len() == all_matches(PatternKind::CheckboxTask, content@, 0).len(),
            forall|k: int|
                0 <= k < r@.len() ==> (#[trigger] r@[k]).parts() == task_parts(
                    content@,
                    all_matches(PatternKind::CheckboxTask, content@, 0)[k],
                ),
    {
        let v = chars_of(content);
        let ms = find_all(PatternKind::CheckboxTask, &v);
        let mut out: Vec<Self> = Vec::new();
        let mut k: usize = 0;
        while k < ms.len()
            invariant
                v@ == content@,
                found_view(ms@) == all_matches(PatternKind::CheckboxTask, v@, 0),
                forall|k: int|
                    0 <= k < ms@.len() ==> {
                        &&& match_at(PatternKind::CheckboxTask, v@, (#[trigger] ms@[k]).start as int)
                            == Some(ms@[k]@)
                        &&& well_formed_match(ms@[k]@, v.len() as int)
                        &&& ms@[k].groups@.len() == 4
                    },
                k <= ms.len(),
                out@.len() == k,
                forall|j: int|
                    0 <= j < k ==> (#[trigger] out@[j]).parts() == task_parts(
                        v@,
                        all_matches(PatternKind::CheckboxTask, v@, 0)[j],
                    ),
            decreases ms.len() - k,
        {
            assert(found_view(ms@)[k as int] == ms@[k as int]@);
            out.push(Self::from_match(&v, &ms[k]));
            k = k + 1;
        }
        out
    }

    /// The date of the task, when it has one and it is a real date.
    pub fn parse_date(&self) -> (r: Option<CalDate>)
        ensures
            r is Some <==> (self.parts().2 matches Some(d) && date_of_text(d) is Some),
            r matches Some(x) ==> date_of_text(self.parts().2->0) == Some(x@),
    {
        match &self.date {
            None => None,
            Some(d) => CalDate::parse_iso(d.as_str()),
        }
    }

    /// The task written back as markdown.
    pub fn to_text(&self) -> (r: String)
        ensures
            r@ == task_text(self.parts().0, self.parts().1, self.parts().2, self.parts().3),
    {
        let mut r = self.indent.clone();
        r.append("- [");
        if self.checked {
            r.append("x");
        } else {
            r.append(" ");
        }
        r.append("] ");
        match &self.date {
            Some(d) => {
                r.append(d.as_str());
                r.append(" ");
            },
            None => {},
        }
        r.append(self.text.as_str());
        proof {
            reveal_strlit("x");
            reveal_strlit(" ");
        }
        r
    }
}


/// The characters of a written-back task, after its indent.
proof fn lemma_task_text_chars(
    indent: Seq<char>,
    checked: bool,
    date: Option<Seq<char>>,
    text: Seq<char>,
)
    ensures
        ({
            let s = task_text(indent, checked, date, text);
            let n = indent.len() as int;
            let tail = match date {
                Some(d) => d + seq![' '],
                None => Seq::<char>::empty(),
            };
            &&& s.len() == n + 6 + tail.len() + text.len()
            &&& forall|j: int| 0 <= j < n ==> s[j] == indent[j]
            &&& s[n] == '-'
            &&& s[n + 1] == ' '
            &&& s[n + 2] == '['
            &&& s[n + 3] == (if checked { 'x' } else { ' ' })
            &&& s[n + 4] == ']'
            &&& s[n + 5] == ' '
            &&& forall|j: int| 0 <= j < tail.len() ==> s[n + 6 + j] == tail[j]
            &&& forall|j: int| 0 <= j < text.len() ==> s[n + 6 + tail.len() + j] == text[j]
        }),
{
    reveal_strlit("- [");
    reveal_strlit("] ");
    let box_c = if checked { 'x' } else { ' ' };
    let tail = match date {
        Some(d) => d + seq![' '],
        None => Seq::<char>::empty(),
    };
    let s = task_text(indent, checked, date, text);
    assert(s =~= indent + seq!['-', ' ', '[', box_c, ']', ' '] + tail + text);
}

/// A task written back as markdown reads back as the same task, when its
/// indent is whitespace, its text is one line, its date (if any) has the
/// `YYYY-MM-DD` shape, and without a date its text does not start with
/// whitespace, nor with such a date and a space.
#[verifier::rlimit(40)]
pub proof fn law_task_text_reads_back(
    indent: Seq<char>,
    checked: bool,
    date: Option<Seq<char>>,
    text: Seq<char>,
)
    requires
        forall|i: int| 0 <= i < indent.len() ==> crate::text::is_space(#[trigger] indent[i]),
        !text.contains('\n'),
        date is None && text.len() > 0 ==> !crate::text::is_space(text[0]),
        date matches Some(d) ==> crate::date::date_shaped(d),
        date is None ==> !(crate::pattern::date_at(text, 0) && crate::pattern::char_is(text, 10, ' ')),
    ensures
        ({
            let s = task_text(indent, checked, date, text);
            &&& match_at(PatternKind::CheckboxTask, s, 0) is Some
            &&& match_at(PatternKind::CheckboxTask, s, 0)->0.end == s.len()
            &&& task_parts(s, match_at(PatternKind::CheckboxTask, s, 0)->0) == (
                indent,
                checked,
                date,
                text,
            )
        }),
{
    lemma_task_text_chars(indent, checked, date, text);
    let s = task_text(indent, checked, date, text);
    let n = indent.len() as int;
    let tail = match date {
        Some(d) => d + seq![' '],
        None => Seq::<char>::empty(),
    };
    let c = n + 6;
    crate::text::lemma_run_end_skip(s, 0, n, CharClass::Space);
    assert(run_end(s, n, CharClass::Space) == n);
    crate::text::lemma_run_end_skip(s, n + 1, n + 2, CharClass::Space);
    assert(run_end(s, n + 2, CharClass::Space) == n + 2);
    crate::text::lemma_run_end_skip(s, n + 5, c, CharClass::Space);
    assert(s.subrange(0, n) =~= indent);
    match date {
        Some(d) => {
            assert(s[c] == d[0]);
            crate::text::lemma_decimal_digit_not_space(d[0]);
            assert(run_end(s, c, CharClass::Space) == c);
            assert forall|j: int| 0 <= j < 10 implies s[c + j] == d[j] by {
                assert(tail[j] == d[j]);
            }
            assert(s[c + 10] == ' ') by {
                assert(tail[10] == ' ');
            }
            assert(crate::pattern::date_at(s, c));
            let e = c + 11;
            assert forall|j: int| e <= j < s.len() implies s[j] != '\n' by {
                assert(s[j] == text[j - e]);
            }
            crate::text::lemma_run_end_skip(s, e, s.len() as int, CharClass::NotNewline);
            assert(s.subrange(c, c + 10) =~= d);
            assert(s.subrange(e, s.len() as int) =~= text);
        },
        None => {
            if text.len() > 0 {
                assert(s[c] == text[0]);
            }
            assert(run_end(s, c, CharClass::Space) == c);
            assert(crate::pattern::date_at(s, c) ==> crate::pattern::date_at(text, 0));
            assert(crate::pattern::char_is(s, c + 10, ' ') ==> crate::pattern::char_is(
                text,
                10,
                ' ',
            ));
            assert forall|j: int| c <= j < s.len() implies s[j] != '\n' by {
                assert(s[j] == text[j - c]);
            }
            crate::text::lemma_run_end_skip(s, c, s.len() as int, CharClass::NotNewline);
            assert(s.subrange(c, s.len() as int) =~= text);
        },
    }
}

/// Replacements that set the state of the tasks whose text is `label`.
pub open spec fn label_reps(s: Seq<char>, label: Seq<char>, state: bool) -> Seq<Option<Seq<char>>> {
    let ms = all_matches(PatternKind::CheckboxTask, s, 0);
    Seq::new(
        ms.len(),
        |k: int|
            {
                let p = task_parts(s, ms[k]);
                if p.3 == label {
                    Some(task_text(p.0, state, p.2, p.3))
                } else {
                    None
                }
            },
    )
}

/// Whether some checkbox task of `s` has the text `label`.
pub open spec fn has_task_labelled(s: Seq<char>, label: Seq<char>) -> bool {
    exists|k: int|
        0 <= k < all_matches(PatternKind::CheckboxTask, s, 0).len() && task_parts(
            s,
            #[trigger] all_matches(PatternKind::CheckboxTask, s, 0)[k],
        ).3 == label
}

/// The parts of a checkbox task read from a text meet the conditions under
/// which a task reads back.
proof fn lemma_task_parts_readable(s: Seq<char>, m: MatchSpec)
    requires
        match_at(PatternKind::CheckboxTask, s, m.start) == Some(m),
    ensures
        ({
            let p = task_parts(s, m);
            &&& forall|j: int| 0 <= j < p.0.len() ==> crate::text::is_space(#[trigger] p.0[j])
            &&& !p.3.contains('\n')
            &&& p.2 is None && p.3.len() > 0 ==> !crate::text::is_space(p.3[0])
            &&& p.2 matches Some(d) ==> crate::date::date_shaped(d)
            &&& p.2 is None ==> !(crate::pattern::date_at(p.3, 0) && crate::pattern::char_is(
                p.3,
                10,
                ' ',
            ))
        }),
{
    let i = m.start;
    crate::pattern::lemma_match_at(PatternKind::CheckboxTask, s, i);
    let (a, bx, c) = crate::pattern::box_prefix(s, i)->0;
    lemma_run_end(s, i, CharClass::Space);
    let b = run_end(s, a + 1, CharClass::Space);
    lemma_run_end(s, a + 1, CharClass::Space);
    lemma_run_end(s, b + 3, CharClass::Space);
    let p = task_parts(s, m);
    assert forall|j: int| 0 <= j < p.0.len() implies crate::text::is_space(#[trigger] p.0[j]) by {
        assert(p.0[j] == s[i + j]);
    }
    if crate::pattern::date_at(s, c) && crate::pattern::char_is(s, c + 10, ' ') {
        lemma_run_end(s, c + 11, CharClass::NotNewline);
        let d = s.subrange(c, c + 10);
        assert(crate::pattern::date_at(d, 0));
        assert(!p.3.contains('\n')) by {
            if p.3.contains('\n') {
                let j = choose|j: int| 0 <= j < p.3.len() && p.3[j] == '\n';
                assert(s[c + 11 + j] == '\n');
            }
        }
    } else {
        let e = run_end(s, c, CharClass::NotNewline);
        lemma_run_end(s, c, CharClass::NotNewline);
        let t = s.subrange(c, e);
        assert(p.3 == t);
        assert(!t.contains('\n')) by {
            if t.contains('\n') {
                let j = choose|j: int| 0 <= j < t.len() && t[j] == '\n';
                assert(s[c + j] == '\n');
            }
        }
        if t.len() > 0 {
            assert(t[0] == s[c]);
        }
        assert(crate::pattern::date_at(t, 0) ==> crate::pattern::date_at(s, c));
        assert(crate::pattern::char_is(t, 10, ' ') ==> crate::pattern::char_is(s, c + 10, ' '));
    }
}

/// Setting the state of the tasks labelled `label` writes, for each of them, a
/// line that reads back as the same task with the requested state.
pub proof fn law_set_state_reads_back(s: Seq<char>, label: Seq<char>, state: bool, k: int)
    requires
        0 <= k < all_matches(PatternKind::CheckboxTask, s, 0).len(),
        task_parts(s, all_matches(PatternKind::CheckboxTask, s, 0)[k]).3 == label,
    ensures
        ({
            let p = task_parts(s, all_matches(PatternKind::CheckboxTask, s, 0)[k]);
            let t = label_reps(s, label, state)[k]->0;
            &&& label_reps(s, label, state)[k] is Some
            &&& match_at(PatternKind::CheckboxTask, t, 0) is Some
            &&& task_parts(t, match_at(PatternKind::CheckboxTask, t, 0)->0) == (p.0, state, p.2, p.3)
        }),
{
    let ms = all_matches(PatternKind::CheckboxTask, s, 0);
    crate::pattern::lemma_all_matches_placed(PatternKind::CheckboxTask, s, 0);
    let m = ms[k];
    assert(match_at(PatternKind::CheckboxTask, s, m.start) == Some(m));
    lemma_task_parts_readable(s, m);
    let p = task_parts(s, m);
    law_task_text_reads_back(p.0, state, p.2, p.3);
}

impl CheckboxTask {
    /// Checks (`state` true) or unchecks the tasks of `content` whose text is
    /// `label`; `None` when there is no such task.
    pub fn set_state_by_label(content: &str, label: &str, state: bool) -> (r: Option<String>)
        ensures
            r is None <==> !has_task_labelled(content@, label@),
            r matches Some(x) ==> x@ == splice(
                content@,
                all_matches(PatternKind::CheckboxTask, content@, 0),
                label_reps(content@, label@, state),
                0,
            ),
    {
        let v = chars_of(content);
        let label_s = String::from_str(label);
        let ms = find_all(PatternKind::CheckboxTask, &v);
        let ghost all = all_matches(PatternKind::CheckboxTask, v@, 0);
        let ghost want = label_reps(v@, label@, state);
        let mut reps: Vec<Option<String>> = Vec::new();
        let mut found = false;
        let mut k: usize = 0;
        while k < ms.len()
            invariant
                v@ == content@,
                label_s@ == label@,
                all == all_matches(PatternKind::CheckboxTask, v@, 0),
                want == label_reps(v@, label@, state),
                found_view(ms@) == all,
                forall|k: int|
                    0 <= k < ms@.len() ==> {
                        &&& match_at(PatternKind::CheckboxTask, v@, (#[trigger] ms@[k]).start as int)
                            == Some(ms@[k]@)
                        &&& well_formed_match(ms@[k]@, v.len() as int)
                        &&& ms@[k].groups@.len() == 4
                    },
                k <= ms.len(),
                reps@.len() == k,
                reps_view(reps@) == want.subrange(0, k as int),
                found == exists|j: int| 0 <= j < k && task_parts(v@, #[trigger] all[j]).3 == label@,
            decreases ms.len() - k,
        {
            assert(found_view(ms@)[k as int] == ms@[k as int]@);
            let mut ct = Self::from_match(&v, &ms[k]);
            let ghost prev = reps_view(reps@);
            if ct.text == label_s {
                found = true;
                ct.checked = state;
                reps.push(Some(ct.to_text()));
            } else {
                reps.push(None);
            }
            assert(reps_view(reps@) =~= want.subrange(0, k + 1));
            k = k + 1;
        }
        if !found {
            return None;
        }
        assert(want.subrange(0, k as int) =~= want);
        Some(splice_text(&v, &ms, &reps))
    }
}


/// Names in the order of `String`: character by character, a prefix first.
pub open spec fn name_lt(a: Seq<char>, b: Seq<char>) -> bool
    decreases a.len(),
{
    if a.len() == 0 {
        b.len() > 0
    } else if b.len() == 0 {
        false
    } else if a[0] != b[0] {
        a[0] < b[0]
    } else {
        name_lt(a.drop_first(), b.drop_first())
    }
}

pub proof fn lemma_name_lt_trans(a: Seq<char>, b: Seq<char>, c: Seq<char>)
    requires
        name_lt(a, b),
        name_lt(b, c),
    ensures
        name_lt(a, c),
    decreases a.len(),
{
    if a.len() > 0 && b.len() > 0 && c.len() > 0 && a[0] == b[0] && b[0] == c[0] {
        lemma_name_lt_trans(a.drop_first(), b.drop_first(), c.drop_first());
    }
}

pub proof fn lemma_name_lt_total(a: Seq<char>, b: Seq<char>)
    ensures
        name_lt(a, b) || name_lt(b, a) || a == b,
        !(name_lt(a, b) && name_lt(b, a)),
        !name_lt(a, a),
    decreases a.len(),
{
    if a.len() > 0 && b.len() > 0 && a[0] == b[0] {
        lemma_name_lt_total(a.drop_first(), b.drop_first());
        if a.drop_first() == b.drop_first() {
            assert forall|j: int| 0 <= j < a.len() implies a[j] == b[j] by {
                if j > 0 {
                    assert(a[j] == a.drop_first()[j - 1]);
                    assert(b[j] == b.drop_first()[j - 1]);
                }
            }
            assert(a =~= b);
        }
    }
    if a.len() == 0 && b.len() == 0 {
        assert(a =~= b);
    }
    if a.len() > 0 {
        lemma_name_lt_total(a.drop_first(), a.drop_first());
    }
}

/// Compares two names: `-1`, `0` or `1`.
pub fn compare_names(a: &Vec<char>, b: &Vec<char>) -> (r: i8)
    ensures
        r == 0 <==> a@ == b@,
        r < 0 <==> name_lt(a@, b@),
        r > 0 <==> name_lt(b@, a@),
{
    proof {
        lemma_name_lt_total(a@, b@);
    }
    let mut i: usize = 0;
    assert(a@.skip(0) =~= a@);
    assert(b@.skip(0) =~= b@);
    while i < a.len() && i < b.len() && a[i] == b[i]
        invariant
            i <= a.len(),
            i <= b.len(),
            forall|j: int| 0 <= j < i ==> a@[j] == b@[j],
            name_lt(a@, b@) == name_lt(a@.skip(i as int), b@.skip(i as int)),
            name_lt(b@, a@) == name_lt(b@.skip(i as int), a@.skip(i as int)),
        decreases a.len() - i,
    {
        assert(a@.skip(i as int).drop_first() =~= a@.skip(i + 1));
        assert(b@.skip(i as int).drop_first() =~= b@.skip(i + 1));
        i = i + 1;
    }
    if i == a.len() && i == b.len() {
        assert(a@ =~= b@);
        0
    } else if i == a.len() {
        -1
    } else if i == b.len() {
        1
    } else if a[i] < b[i] {
        -1
    } else {
        1
    }
}

/// A directory of the tree: its entries, ordered by name.
pub struct Dir {
    pub children: Vec<(String, Node)>,
}

/// An entry of a directory.
pub enum Node {
    Dir(Dir),
    File(MdFile),
}

/// The notes under a list of entries, directories first walked in depth, in
/// the order of the entries.
pub open spec fn children_files(cs: Seq<(String, Node)>) -> Seq<MdFile>
    decreases cs,
{
    if cs.len() == 0 {
        seq![]
    } else {
        children_files(cs.drop_last()) + node_files(cs.last().1)
    }
}

pub open spec fn node_files(n: Node) -> Seq<MdFile>
    decreases n,
{
    match n {
        Node::File(f) => seq![f],
        Node::Dir(d) => children_files(d.children@),
    }
}


/// Entries whose names are in strictly increasing order.
pub open spec fn names_sorted(cs: Seq<(String, Node)>) -> bool {
    forall|i: int, j: int| 0 <= i < j < cs.len() ==> name_lt(cs[i].0@, cs[j].0@)
}

/// The entry named `name`.
pub open spec fn child_of(cs: Seq<(String, Node)>, name: Seq<char>) -> Option<Node>
    decreases cs.len(),
{
    if cs.len() == 0 {
        None
    } else if cs[0].0@ == name {
        Some(cs[0].1)
    } else {
        child_of(cs.drop_first(), name)
    }
}

pub proof fn lemma_child_of_index(cs: Seq<(String, Node)>, name: Seq<char>, i: int)
    requires
        names_sorted(cs),
        0 <= i < cs.len(),
        cs[i].0@ == name,
    ensures
        child_of(cs, name) == Some(cs[i].1),
    decreases cs.len(),
{
    if i > 0 {
        lemma_name_lt_total(cs[0].0@, cs[0].0@);
        assert(name_lt(cs[0].0@, cs[i].0@));
        assert(cs[0].0@ != name);
        lemma_child_of_index(cs.drop_first(), name, i - 1);
    }
}

pub proof fn lemma_child_of_absent(cs: Seq<(String, Node)>, name: Seq<char>)
    requires
        forall|i: int| 0 <= i < cs.len() ==> (#[trigger] cs[i]).0@ != name,
    ensures
        child_of(cs, name) is None,
    decreases cs.len(),
{
    if cs.len() > 0 {
        assert forall|i: int| 0 <= i < cs.len() - 1 implies (#[trigger] cs.drop_first()[i]).0@
            != name by {
            assert(cs.drop_first()[i] == cs[i + 1]);
        }
        lemma_child_of_absent(cs.drop_first(), name);
    }
}

/// The non-empty segments of a `/`-separated path, from position `i`.
pub open spec fn path_parts(s: Seq<char>, i: int) -> Seq<Seq<char>>
    decreases s.len() - i,
{
    if !(0 <= i < s.len()) {
        seq![]
    } else {
        let e = run_end(s, i, CharClass::NotSlash);
        proof {
            lemma_run_end(s, i, CharClass::NotSlash);
        }
        let rest = if e < s.len() {
            path_parts(s, e + 1)
        } else {
            seq![]
        };
        if e > i {
            seq![s.subrange(i, e)] + rest
        } else {
            rest
        }
    }
}

/// The note at `parts` under `d`: directories are entered, the last part
/// names a note.
pub open spec fn lookup(d: Dir, parts: Seq<Seq<char>>) -> Option<MdFile>
    decreases parts.len(),
{
    if parts.len() == 0 {
        None
    } else {
        match child_of(d.children@, parts[0]) {
            None => None,
            Some(Node::File(f)) => if parts.len() == 1 {
                Some(f)
            } else {
                None
            },
            Some(Node::Dir(sub)) => lookup(sub, parts.drop_first()),
        }
    }
}

/// Directory well-formedness: sorted entry names, in every directory.
pub open spec fn dir_wf(d: Dir) -> bool
    decreases d,
{
    &&& names_sorted(d.children@)
    &&& forall|i: int|
        0 <= i < d.children@.len() ==> match #[trigger] d.children@[i].1 {
            Node::Dir(sub) => dir_wf(sub),
            Node::File(_) => true,
        }
}

/// A name that a directory listing gives: not empty, neither `.` nor `..`,
/// without `/`.
pub open spec fn valid_name(n: Seq<char>) -> bool {
    &&& n.len() > 0
    &&& n != seq!['.']
    &&& n != seq!['.', '.']
    &&& !n.contains('/')
}

/// A name whose extension is `md` (as `Path::extension` reads it): `.md`
/// after a non-empty stem.
pub open spec fn md_name(n: Seq<char>) -> bool {
    n.len() > 3 && n.subrange(n.len() - 3, n.len() as int) == seq!['.', 'm', 'd']
}

/// A name with each `\` written `/`.
pub open spec fn slashed(n: Seq<char>) -> Seq<char> {
    n.map_values(|c: char| if c == '\\' { '/' } else { c })
}

/// The relative path of the entry `name` of the directory at `prefix` (the
/// empty text for the content directory itself), with `/` between segments.
pub open spec fn rel_join(prefix: Seq<char>, name: Seq<char>) -> Seq<char> {
    if prefix.len() == 0 {
        slashed(name)
    } else {
        prefix + seq!['/'] + slashed(name)
    }
}

/// The relative path made of the segments `parts`.
pub open spec fn rel_path_of(parts: Seq<Seq<char>>) -> Seq<char>
    decreases parts.len(),
{
    if parts.len() == 0 {
        seq![]
    } else {
        rel_join(rel_path_of(parts.drop_last()), parts.last())
    }
}

/// The tree under a directory at relative path `prefix` is as a refresh
/// builds it: sorted valid names; each note has an `md` name and the href of
/// its place; each subdirectory the same, one level down.
pub open spec fn tree_inv(d: Dir, prefix: Seq<char>) -> bool
    decreases d,
{
    &&& names_sorted(d.children@)
    &&& forall|i: int|
        0 <= i < d.children@.len() ==> valid_name((#[trigger] d.children@[i]).0@) && match d.children@[i].1 {
            Node::Dir(sub) => tree_inv(sub, rel_join(prefix, d.children@[i].0@)),
            Node::File(f) => md_name(d.children@[i].0@) && f.href@ == rel_join(
                prefix,
                d.children@[i].0@,
            ),
        }
}

/// The entry `(name, node)` may stand in the directory at `prefix`.
pub open spec fn entry_fits(name: Seq<char>, node: Node, prefix: Seq<char>) -> bool {
    valid_name(name) && match node {
        Node::Dir(sub) => tree_inv(sub, rel_join(prefix, name)),
        Node::File(f) => md_name(name) && f.href@ == rel_join(prefix, name),
    }
}

/// No directory below `d`, at any depth, is empty.
pub open spec fn no_empty_dirs(d: Dir) -> bool
    decreases d,
{
    forall|i: int|
        0 <= i < d.children@.len() ==> match #[trigger] d.children@[i].1 {
            Node::Dir(sub) => sub.children@.len() > 0 && no_empty_dirs(sub),
            Node::File(_) => true,
        }
}

/// A directory whose entries are sorted and each fit its place meets the
/// tree invariant.
proof fn lemma_tree_inv_intro(d: Dir, prefix: Seq<char>)
    requires
        names_sorted(d.children@),
        forall|i: int|
            0 <= i < d.children@.len() ==> entry_fits(
                (#[trigger] d.children@[i]).0@,
                d.children@[i].1,
                prefix,
            ),
    ensures
        tree_inv(d, prefix),
{
}

/// Each entry of a directory that meets the tree invariant fits its place.
proof fn lemma_tree_inv_elim(d: Dir, prefix: Seq<char>, i: int)
    requires
        tree_inv(d, prefix),
        0 <= i < d.children@.len(),
    ensures
        entry_fits(d.children@[i].0@, d.children@[i].1, prefix),
{
}

/// A directory whose entries are those of `a` and the entry `(name, node)`
/// that fits its place meets the tree invariant, when its names are sorted.
proof fn lemma_tree_inv_with(a: Dir, b: Dir, p: Seq<char>, name: Seq<char>, node: Node)
    requires
        tree_inv(a, p),
        entry_fits(name, node, p),
        names_sorted(b.children@),
        forall|j: int|
            0 <= j < b.children@.len() ==> ((#[trigger] b.children@[j]).0@ == name
                && b.children@[j].1 == node) || exists|k: int|
                0 <= k < a.children@.len() && a.children@[k] == b.children@[j],
    ensures
        tree_inv(b, p),
{
    assert forall|j: int| 0 <= j < b.children@.len() implies entry_fits(
        (#[trigger] b.children@[j]).0@,
        b.children@[j].1,
        p,
    ) by {
        if !(b.children@[j].0@ == name && b.children@[j].1 == node) {
            let k = choose|k: int| 0 <= k < a.children@.len() && a.children@[k] == b.children@[j];
            lemma_tree_inv_elim(a, p, k);
        }
    }
    lemma_tree_inv_intro(b, p);
}

/// A directory whose entries are among those of `a` meets the tree
/// invariant, when its names are sorted.
proof fn lemma_tree_inv_among(a: Dir, b: Dir, p: Seq<char>)
    requires
        tree_inv(a, p),
        names_sorted(b.children@),
        forall|j: int|
            0 <= j < b.children@.len() ==> exists|k: int|
                0 <= k < a.children@.len() && a.children@[k] == #[trigger] b.children@[j],
    ensures
        tree_inv(b, p),
{
    assert forall|j: int| 0 <= j < b.children@.len() implies entry_fits(
        (#[trigger] b.children@[j]).0@,
        b.children@[j].1,
        p,
    ) by {
        let k = choose|k: int| 0 <= k < a.children@.len() && a.children@[k] == b.children@[j];
        lemma_tree_inv_elim(a, p, k);
    }
    lemma_tree_inv_intro(b, p);
}

/// The tree invariant gives directory well-formedness.
pub proof fn lemma_tree_inv_wf(d: Dir, prefix: Seq<char>)
    requires
        tree_inv(d, prefix),
    ensures
        dir_wf(d),
    decreases d,
{
    assert forall|i: int| 0 <= i < d.children@.len() implies match #[trigger] d.children@[i].1 {
        Node::Dir(sub) => dir_wf(sub),
        Node::File(_) => true,
    } by {
        let e = d.children@[i];
        if let Node::Dir(sub) = e.1 {
            lemma_tree_inv_wf(sub, rel_join(prefix, e.0@));
        }
    }
}

/// The segments of a path.
pub fn split_path(path: &str) -> (r: Vec<Vec<char>>)
    ensures
        r@.len() == path_parts(path@, 0).len(),
        forall|k: int| 0 <= k < r@.len() ==> (#[trigger] r@[k])@ == path_parts(path@, 0)[k],
{
    let v = chars_of(path);
    let mut out: Vec<Vec<char>> = Vec::new();
    let mut i: usize = 0;
    let ghost whole = path_parts(v@, 0);
    loop
        invariant
            v@ == path@,
            whole == path_parts(v@, 0),
            i <= v.len(),
            whole =~= out@.map_values(|x: Vec<char>| x@) + path_parts(v@, i as int),
        decreases v.len() - i,
    {
        if i >= v.len() {
            assert(path_parts(v@, i as int) =~= Seq::<Seq<char>>::empty());
            assert forall|k: int| 0 <= k < out@.len() implies (#[trigger] out@[k])@ == whole[k] by {
                assert(out@.map_values(|x: Vec<char>| x@)[k] == out@[k]@);
            }
            return out;
        }
        let e = find_run_end(&v, i, CharClass::NotSlash);
        let ghost prev = out@.map_values(|x: Vec<char>| x@);
        let ghost rest = if e < v.len() {
            path_parts(v@, e + 1)
        } else {
            seq![]
        };
        if e > i {
            let mut seg: Vec<char> = Vec::new();
            let mut j = i;
            while j < e
                invariant
                    i <= j <= e <= v.len(),
                    seg@ == v@.subrange(i as int, j as int),
                decreases e - j,
            {
                seg.push(v[j]);
                j = j + 1;
                assert(seg@ =~= v@.subrange(i as int, j as int));
            }
            out.push(seg);
            assert(out@.map_values(|x: Vec<char>| x@) =~= prev.push(v@.subrange(i as int, e as int)));
        }
        if e >= v.len() {
            assert(path_parts(v@, e as int) =~= Seq::<Seq<char>>::empty());
            i = e;
        } else {
            i = e + 1;
        }
    }
}

impl Dir {
    /// An empty directory.
    pub fn new() -> (d: Self)
        ensures
            d.children@.len() == 0,
    {
        Dir { children: Vec::new() }
    }

    /// Position of the entry named `name`, or where it would be inserted.
    fn position(&self, name: &Vec<char>) -> (r: Result<usize, usize>)
        requires
            names_sorted(self.children@),
        ensures
            r matches Ok(i) ==> i < self.children@.len() && self.children@[i as int].0@ == name@,
            r matches Err(p) ==> p <= self.children@.len() && (forall|i: int|
                0 <= i < p ==> name_lt((#[trigger] self.children@[i]).0@, name@)) && (forall|i: int|
                p <= i < self.children@.len() ==> name_lt(name@, (#[trigger] self.children@[i]).0@)),
    {
        let mut k: usize = 0;
        while k < self.children.len()
            invariant
                names_sorted(self.children@),
                k <= self.children@.len(),
                forall|i: int| 0 <= i < k ==> name_lt((#[trigger] self.children@[i]).0@, name@),
            decreases self.children.len() - k,
        {
            let cn = chars_of(self.children[k].0.as_str());
            let c = compare_names(&cn, name);
            if c == 0 {
                return Ok(k);
            }
            if c > 0 {
                assert forall|i: int| k <= i < self.children@.len() implies name_lt(
                    name@,
                    (#[trigger] self.children@[i]).0@,
                ) by {
                    if i > k {
                        lemma_name_lt_trans(name@, self.children@[k as int].0@, self.children@[i].0@);
                    }
                }
                return Err(k);
            }
            k = k + 1;
        }
        Err(k)
    }

    /// The entry named `name`.
    pub fn get(&self, name: &str) -> (r: Option<&Node>)
        requires
            names_sorted(self.children@),
        ensures
            r matches Some(n) ==> child_of(self.children@, name@) == Some(*n),
            r is None ==> child_of(self.children@, name@) is None,
    {
        let nv = chars_of(name);
        match self.position(&nv) {
            Ok(i) => {
                proof {
                    lemma_child_of_index(self.children@, name@, i as int);
                }
                Some(&self.children[i].1)
            },
            Err(p) => {
                proof {
                    assert forall|i: int| 0 <= i < self.children@.len() implies (
                    #[trigger] self.children@[i]).0@ != name@ by {
                        lemma_name_lt_total(self.children@[i].0@, name@);
                    }
                    lemma_child_of_absent(self.children@, name@);
                }
                None
            },
        }
    }
}


/// Whether `name` is one that a directory listing gives.
pub fn is_valid_name(name: &str) -> (r: bool)
    ensures
        r == valid_name(name@),
{
    let v = chars_of(name);
    if v.len() == 0 {
        return false;
    }
    if v.len() == 1 && v[0] == '.' {
        assert(v@ =~= seq!['.']);
        return false;
    }
    if v.len() == 2 && v[0] == '.' && v[1] == '.' {
        assert(v@ =~= seq!['.', '.']);
        return false;
    }
    assert(v@ != seq!['.']) by {
        if v@ == seq!['.'] {
            assert(v@[0] == '.');
        }
    }
    assert(v@ != seq!['.', '.']) by {
        if v@ == seq!['.', '.'] {
            assert(v@[0] == '.' && v@[1] == '.');
        }
    }
    let mut k: usize = 0;
    while k < v.len()
        invariant
            k <= v.len(),
            v@ == name@,
            forall|j: int| 0 <= j < k ==> v@[j] != '/',
        decreases v.len() - k,
    {
        if v[k] == '/' {
            assert(v@.contains('/')) by {
                assert(v@[k as int] == '/');
            }
            return false;
        }
        k = k + 1;
    }
    assert(!v@.contains('/'));
    true
}

/// Whether `name` has the extension `md`.
pub fn is_md_name(name: &str) -> (r: bool)
    ensures
        r == md_name(name@),
{
    let v = chars_of(name);
    let n = v.len();
    if n <= 3 {
        return false;
    }
    let r = v[n - 3] == '.' && v[n - 2] == 'm' && v[n - 1] == 'd';
    let ghost tail = v@.subrange(n - 3, n as int);
    if r {
        assert(tail =~= seq!['.', 'm', 'd']);
    } else {
        assert(tail != seq!['.', 'm', 'd']) by {
            if tail == seq!['.', 'm', 'd'] {
                assert(tail[0] == v@[n - 3] && tail[1] == v@[n - 2] && tail[2] == v@[n - 1]);
            }
        }
    }
    r
}

/// The relative path of the entry `name` of the directory whose relative
/// path is `prefix` (empty for the content directory).
pub fn child_rel_path(prefix: &str, name: &str) -> (r: String)
    ensures
        r@ == rel_join(prefix@, name@),
{
    let pv = chars_of(prefix);
    let nv = chars_of(name);
    let mut out = String::new();
    push_chars(&mut out, &pv, 0, pv.len());
    assert(pv@.subrange(0, pv.len() as int) =~= pv@);
    if pv.len() > 0 {
        push_char(&mut out, '/');
    }
    let ghost start = out@;
    let mut k: usize = 0;
    while k < nv.len()
        invariant
            k <= nv.len(),
            out@ == start + slashed(nv@).take(k as int),
        decreases nv.len() - k,
    {
        let c = if nv[k] == '\\' {
            '/'
        } else {
            nv[k]
        };
        push_char(&mut out, c);
        assert(slashed(nv@).take(k + 1) =~= slashed(nv@).take(k as int).push(c));
        k = k + 1;
    }
    assert(slashed(nv@).take(k as int) =~= slashed(nv@));
    assert(rel_join(prefix@, name@) =~= out@);
    out
}

/// The note read from `rel_path` at `mtime` with text `content`, as
/// `MdFile::from_content` builds it.
pub open spec fn note_of(f: MdFile, rel_path: Seq<char>, content: Seq<char>, mtime: u128) -> bool {
    let (title, body) = title_split(content)->0;
    &&& title_split(content) is Some
    &&& f.mtime == mtime
    &&& f.href@ == rel_path
    &&& f.title@ == note_title(rel_path, title)
    &&& due_actions_of(body, f.due_actions@)
    &&& f.raw_md_body@ == body
}

impl Dir {
    /// What a refresh of this directory, at relative path `prefix`, does with
    /// its entry `name`, a file modified at `mtime`: the relative path of the
    /// note to read, when the name has the extension `md` and the note was not
    /// read yet at that time; `None` when the file is left alone.
    pub fn note_to_read(&self, prefix: &str, name: &str, mtime: u128) -> (r: Option<String>)
        requires
            names_sorted(self.children@),
        ensures
            r is Some <==> valid_name(name@) && md_name(name@) && !(child_of(
                self.children@,
                name@,
            ) matches Some(Node::File(f)) && f.mtime == mtime),
            r matches Some(p) ==> p@ == rel_join(prefix@, name@),
    {
        if !is_valid_name(name) || !is_md_name(name) || !self.needs_update(name, mtime) {
            return None;
        }
        Some(child_rel_path(prefix, name))
    }

    /// Stores in this directory, at relative path `prefix`, the note `name`
    /// read at `mtime` with text `content`. Returns false, and changes
    /// nothing, when the text does not start with a title line and an empty
    /// line.
    pub fn store_note(&mut self, prefix: &str, name: String, content: &str, mtime: u128) -> (r: bool)
        requires
            names_sorted(old(self).children@),
            title_split(content@) matches Some(tb) ==> due_dates_valid(tb.1),
        ensures
            r == title_split(content@) is Some,
            !r ==> *final(self) == *old(self),
            r ==> (child_of(final(self).children@, name@) matches Some(Node::File(f)) && note_of(
                f,
                rel_join(prefix@, name@),
                content@,
                mtime,
            )),
            r ==> forall|n: Seq<char>|
                n != name@ ==> child_of(final(self).children@, n) == child_of(
                    old(self).children@,
                    n,
                ),
            names_sorted(final(self).children@),
            dir_wf(*old(self)) ==> dir_wf(*final(self)),
            valid_name(name@) && md_name(name@) && tree_inv(*old(self), prefix@) ==> tree_inv(
                *final(self),
                prefix@,
            ),
    {
        let rel_path = child_rel_path(prefix, name.as_str());
        match MdFile::from_content(rel_path.as_str(), content, mtime) {
            None => false,
            Some(f) => {
                let ghost node = Node::File(f);
                proof {
                    assert(valid_name(name@) && md_name(name@) ==> entry_fits(name@, node, prefix@));
                }
                self.insert(name, Node::File(f));
                true
            },
        }
    }
}


/// What a listing of a directory shows, and what was read of its notes.
pub struct Listing {
    pub entries: Vec<ListedEntry>,
}

/// One entry of a directory listing.
pub struct ListedEntry {
    pub name: String,
    pub kind: ListedKind,
}

/// The kind of a listed entry.
pub enum ListedKind {
    /// A directory, with the listing of its own entries.
    Dir(Listing),
    /// A file modified at `mtime`; `read` holds its text and the modification
    /// time seen when it was read, when it was read (`None` when it was not
    /// read, or the read failed).
    File { mtime: u128, read: Option<(String, u128)> },
    /// An entry whose type could not be read.
    Unknown,
}

/// A listing as a directory gives it: names come once; and the notes read
/// that have a title have valid due dates (reading one that has not fails).
pub open spec fn listing_ok(l: Listing) -> bool
    decreases l,
{
    &&& forall|i: int, j: int|
        0 <= i < j < l.entries@.len() ==> (#[trigger] l.entries@[i]).name@
            != (#[trigger] l.entries@[j]).name@
    &&& forall|i: int|
        0 <= i < l.entries@.len() ==> match (#[trigger] l.entries@[i]).kind {
            ListedKind::Dir(sub) => listing_ok(sub),
            ListedKind::File { mtime, read } => read matches Some(r) ==> (title_split(
                r.0@,
            ) matches Some(tb) ==> due_dates_valid(tb.1)),
            ListedKind::Unknown => true,
        }
}

/// Whether `n` is the name of an entry of the listing.
pub open spec fn listed(l: Listing, n: Seq<char>) -> bool {
    exists|i: int| 0 <= i < l.entries@.len() && (#[trigger] l.entries@[i]).name@ == n
}

/// The entry `n` of a directory that may be absent (`None` stands for an
/// empty directory).
pub open spec fn old_child(old: Option<Dir>, n: Seq<char>) -> Option<Node> {
    match old {
        None => None,
        Some(d) => child_of(d.children@, n),
    }
}

/// The directory an entry holds, if it is one.
pub open spec fn sub_dir(c: Option<Node>) -> Option<Dir> {
    match c {
        Some(Node::Dir(d)) => Some(d),
        _ => None,
    }
}

/// An entry, except an empty directory.
pub open spec fn drop_empty(c: Option<Node>) -> Option<Node> {
    match c {
        Some(Node::Dir(d)) => if d.children@.len() == 0 {
            None
        } else {
            c
        },
        _ => c,
    }
}

/// The listed file `n` modified at `mtime` is read again and stored by a
/// refresh: it is a note not read at that time, it was read, and its text
/// has a title.
pub open spec fn note_stored(
    oc: Option<Node>,
    n: Seq<char>,
    mtime: u128,
    read: Option<(String, u128)>,
) -> bool {
    &&& valid_name(n)
    &&& md_name(n)
    &&& !(oc matches Some(Node::File(f)) && f.mtime == mtime)
    &&& read matches Some(r)
    &&& title_split(r.0@) is Some
}

/// A refresh of the directory `old` (`None`: an empty directory) leaves
/// nothing of the listed entry `e`.
pub open spec fn entry_left_out(old: Option<Dir>, e: ListedEntry) -> bool
    decreases e,
{
    let n = e.name@;
    let oc = old_child(old, n);
    match e.kind {
        ListedKind::Dir(sub) => if valid_name(n) {
            refresh_leaves_empty(sub_dir(oc), sub)
        } else {
            drop_empty(oc) is None
        },
        ListedKind::File { mtime, read } => !note_stored(oc, n, mtime, read) && drop_empty(oc) is None,
        ListedKind::Unknown => drop_empty(oc) is None,
    }
}

/// A refresh of the directory `old` from the listing `l` leaves it empty.
pub open spec fn refresh_leaves_empty(old: Option<Dir>, l: Listing) -> bool
    decreases l,
{
    forall|i: int| 0 <= i < l.entries@.len() ==> entry_left_out(old, #[trigger] l.entries@[i])
}

/// A refreshed directory that is empty was left empty by the refresh.
proof fn lemma_refreshed_empty(old: Option<Dir>, d: Dir, prefix: Seq<char>, l: Listing)
    requires
        refreshed(old, d, prefix, l),
        d.children@.len() == 0,
    ensures
        refresh_leaves_empty(old, l),
{
    assert forall|i: int| 0 <= i < l.entries@.len() implies entry_left_out(
        old,
        #[trigger] l.entries@[i],
    ) by {
        let e = l.entries@[i];
        assert(entry_refreshed(old, d, prefix, e));
        assert(child_of(d.children@, e.name@) is None);
    }
}

/// The listed entry `e` is as a refresh of the directory `old` (`None`: an
/// empty directory), at relative path `prefix`, leaves it in `new`.
pub open spec fn entry_refreshed(old: Option<Dir>, new: Dir, prefix: Seq<char>, e: ListedEntry) -> bool
    decreases e,
{
    let n = e.name@;
    let oc = old_child(old, n);
    let nc = child_of(new.children@, n);
    match e.kind {
        ListedKind::Dir(sub) => if valid_name(n) {
            match nc {
                Some(Node::Dir(d)) => d.children@.len() > 0 && refreshed(
                    sub_dir(oc),
                    d,
                    rel_join(prefix, n),
                    sub,
                ),
                Some(Node::File(_)) => false,
                None => refresh_leaves_empty(sub_dir(oc), sub),
            }
        } else {
            nc == drop_empty(oc)
        },
        ListedKind::File { mtime, read } => if note_stored(oc, n, mtime, read) {
            let (text, read_mtime) = read->0;
            nc matches Some(Node::File(f)) && note_of(f, rel_join(prefix, n), text@, read_mtime)
        } else {
            nc == drop_empty(oc)
        },
        ListedKind::Unknown => nc == drop_empty(oc),
    }
}

/// `new` is the directory at relative path `prefix` after a refresh of `old`
/// (`None`: an empty directory) from the listing `l`: the entries are the
/// listed ones, each as the refresh leaves it, and no empty directory.
pub open spec fn refreshed(old: Option<Dir>, new: Dir, prefix: Seq<char>, l: Listing) -> bool
    decreases l,
{
    &&& names_sorted(new.children@)
    &&& forall|n: Seq<char>| !listed(l, n) ==> #[trigger] child_of(new.children@, n) is None
    &&& forall|i: int|
        0 <= i < l.entries@.len() ==> entry_refreshed(old, new, prefix, #[trigger] l.entries@[i])
}

/// The listed entry `e` of the directory `old` (`None`: an empty directory),
/// at relative path `prefix`, is up to date: each listed note was read, with a
/// title, at its listed modification time, and a note already held at that
/// time is the one read; each subdirectory is up to date; nothing else is
/// held under the name of an entry that is neither a note nor a directory.
pub open spec fn entry_up_to_date(old: Option<Dir>, prefix: Seq<char>, e: ListedEntry) -> bool
    decreases e,
{
    let n = e.name@;
    let oc = old_child(old, n);
    match e.kind {
        ListedKind::Dir(sub) => if valid_name(n) {
            up_to_date(sub_dir(oc), rel_join(prefix, n), sub)
        } else {
            drop_empty(oc) is None
        },
        ListedKind::File { mtime, read } => if valid_name(n) && md_name(n) {
            match read {
                Some(r) => {
                    let (text, read_mtime) = r;
                    &&& title_split(text@) is Some
                    &&& read_mtime == mtime
                    &&& (oc matches Some(Node::File(f)) && f.mtime == mtime) ==> note_of(
                        oc->0->File_0,
                        rel_join(prefix, n),
                        text@,
                        mtime,
                    )
                },
                None => false,
            }
        } else {
            drop_empty(oc) is None
        },
        ListedKind::Unknown => drop_empty(oc) is None,
    }
}

/// The directory `old` is up to date with the listing `l`: every listed
/// entry is.
pub open spec fn up_to_date(old: Option<Dir>, prefix: Seq<char>, l: Listing) -> bool
    decreases l,
{
    forall|i: int| 0 <= i < l.entries@.len() ==> entry_up_to_date(old, prefix, #[trigger] l.entries@[i])
}

proof fn lemma_left_out_fresh(old: Option<Dir>, prefix: Seq<char>, l: Listing)
    requires
        refresh_leaves_empty(old, l),
        up_to_date(old, prefix, l),
    ensures
        refresh_leaves_empty(None, l),
    decreases l,
{
    assert forall|i: int| 0 <= i < l.entries@.len() implies entry_left_out(
        None,
        #[trigger] l.entries@[i],
    ) by {
        let e = l.entries@[i];
        let n = e.name@;
        assert(entry_left_out(old, e));
        assert(entry_up_to_date(old, prefix, e));
        if let ListedKind::Dir(sub) = e.kind {
            if valid_name(n) {
                lemma_left_out_fresh(sub_dir(old_child(old, n)), rel_join(prefix, n), sub);
            }
        }
    }
}

/// A refresh of an up-to-date directory gives what a refresh of an empty
/// directory gives from the same listing: refreshing keeps the tree as a
/// fresh build would make it.
pub proof fn law_refresh_is_fresh(old: Option<Dir>, new: Dir, prefix: Seq<char>, l: Listing)
    requires
        refreshed(old, new, prefix, l),
        up_to_date(old, prefix, l),
    ensures
        refreshed(None, new, prefix, l),
    decreases l,
{
    assert forall|i: int| 0 <= i < l.entries@.len() implies entry_refreshed(
        None,
        new,
        prefix,
        #[trigger] l.entries@[i],
    ) by {
        let e = l.entries@[i];
        let n = e.name@;
        let oc = old_child(old, n);
        assert(entry_refreshed(old, new, prefix, e));
        assert(entry_up_to_date(old, prefix, e));
        match e.kind {
            ListedKind::Dir(sub) => {
                if valid_name(n) {
                    match child_of(new.children@, n) {
                        Some(Node::Dir(d)) => {
                            law_refresh_is_fresh(sub_dir(oc), d, rel_join(prefix, n), sub);
                        },
                        Some(Node::File(_)) => {},
                        None => {
                            lemma_left_out_fresh(sub_dir(oc), rel_join(prefix, n), sub);
                        },
                    }
                }
            },
            ListedKind::File { mtime, read } => {},
            ListedKind::Unknown => {},
        }
    }
}

/// The entry `e` of the listing has been applied to the entries `cs` of a
/// directory at relative path `prefix` whose entries were `old`, before
/// empty directories and entries not listed are removed.
pub open spec fn entry_applied(old: Dir, cs: Seq<(String, Node)>, prefix: Seq<char>, e: ListedEntry) -> bool {
    let n = e.name@;
    let oc = child_of(old.children@, n);
    let mc = child_of(cs, n);
    match e.kind {
        ListedKind::Dir(sub) => if valid_name(n) {
            mc matches Some(Node::Dir(d)) && refreshed(sub_dir(oc), d, rel_join(prefix, n), sub)
        } else {
            mc == oc
        },
        ListedKind::File { mtime, read } => if note_stored(oc, n, mtime, read) {
            let (text, read_mtime) = read->0;
            mc matches Some(Node::File(f)) && note_of(f, rel_join(prefix, n), text@, read_mtime)
        } else {
            mc == oc
        },
        ListedKind::Unknown => mc == oc,
    }
}

/// Below a directory without empty directories, each subdirectory has none.
proof fn lemma_no_empty_dirs_child(d: Dir, n: Seq<char>)
    requires
        no_empty_dirs(d),
    ensures
        child_of(d.children@, n) matches Some(Node::Dir(sub)) ==> no_empty_dirs(sub),
{
    lemma_child_of_entry(d.children@, n);
    if let Some(Node::Dir(sub)) = child_of(d.children@, n) {
        let i = choose|i: int|
            0 <= i < d.children@.len() && d.children@[i].0@ == n && d.children@[i].1 == Node::Dir(sub);
        assert(match d.children@[i].1 {
            Node::Dir(s) => s.children@.len() > 0 && no_empty_dirs(s),
            Node::File(_) => true,
        });
    }
}

/// A refresh only reads the entries of the old directory: two old
/// directories with the same entries give the same refreshed directories.
proof fn lemma_refreshed_same_old(o1: Option<Dir>, o2: Option<Dir>, new: Dir, prefix: Seq<char>, l: Listing)
    requires
        forall|n: Seq<char>| old_child(o1, n) == old_child(o2, n),
    ensures
        refreshed(o1, new, prefix, l) == refreshed(o2, new, prefix, l),
{
    assert forall|i: int| 0 <= i < l.entries@.len() implies old_child(o1, (#[trigger] l.entries@[i]).name@)
        == old_child(o2, l.entries@[i].name@) by {
    }
}

/// What the refresh loop leaves, once the entries not seen and the empty
/// directories are removed, is the refreshed directory.
proof fn lemma_refresh_result(
    old_dir: Dir,
    mid: Dir,
    fin: Dir,
    prefix: Seq<char>,
    l: Listing,
    sv: Seq<Seq<char>>,
)
    requires
        names_sorted(mid.children@),
        names_sorted(fin.children@),
        fin.children@ == kept(mid.children@, sv),
        sv == l.entries@.map_values(|e: ListedEntry| e.name@),
        forall|j: int|
            0 <= j < l.entries@.len() ==> entry_applied(old_dir, mid.children@, prefix, #[trigger] l.entries@[j]),
    ensures
        refreshed(Some(old_dir), fin, prefix, l),
{
    let es = l.entries@;
    assert forall|n: Seq<char>| sv.contains(n) <==> listed(l, n) by {
        if sv.contains(n) {
            let j = choose|j: int| 0 <= j < sv.len() && sv[j] == n;
            assert(sv[j] == es[j].name@);
        }
        if listed(l, n) {
            let j = choose|j: int| 0 <= j < es.len() && (#[trigger] es[j]).name@ == n;
            assert(sv[j] == n);
        }
    }
    assert forall|n: Seq<char>| #[trigger] child_of(fin.children@, n) == if sv.contains(n) {
        drop_empty(child_of(mid.children@, n))
    } else {
        None
    } by {
        lemma_child_of_kept(mid.children@, sv, n);
    }
    assert forall|i: int| 0 <= i < es.len() implies entry_refreshed(
        Some(old_dir),
        fin,
        prefix,
        #[trigger] es[i],
    ) by {
        let e = es[i];
        let n = e.name@;
        let oc = child_of(old_dir.children@, n);
        let mc = child_of(mid.children@, n);
        assert(sv.contains(n)) by {
            assert(sv[i] == n);
        }
        lemma_child_of_kept(mid.children@, sv, n);
        assert(child_of(fin.children@, n) == drop_empty(mc));
        assert(entry_applied(old_dir, mid.children@, prefix, e));
        match e.kind {
            ListedKind::Dir(sub) => {
                if valid_name(n) {
                    let d = sub_dir(mc)->0;
                    assert(refreshed(sub_dir(oc), d, rel_join(prefix, n), sub));
                    if d.children@.len() == 0 {
                        assert(child_of(fin.children@, n) is None);
                        lemma_refreshed_empty(sub_dir(oc), d, rel_join(prefix, n), sub);
                        assert(entry_refreshed(Some(old_dir), fin, prefix, e));
                    } else {
                        assert(child_of(fin.children@, n) == Some(Node::Dir(d)));
                        assert(entry_refreshed(Some(old_dir), fin, prefix, e));
                    }
                } else {
                    assert(entry_refreshed(Some(old_dir), fin, prefix, e));
                }
            },
            ListedKind::File { mtime, read } => {
                assert(entry_refreshed(Some(old_dir), fin, prefix, e));
            },
            ListedKind::Unknown => {
                assert(entry_refreshed(Some(old_dir), fin, prefix, e));
            },
        }
    }
    assert(names_sorted(fin.children@));
    assert(forall|n: Seq<char>| !listed(l, n) ==> #[trigger] child_of(fin.children@, n) is None);
}


impl Dir {
    /// Refreshes this directory, at relative path `prefix`, from the listing
    /// of its directory: each listed subdirectory is refreshed from its own
    /// listing; each listed note that was not read at its modification time is
    /// stored from what was read of it; then the entries not listed and the
    /// empty directories are removed.
    pub fn refresh_with(&mut self, prefix: &str, listing: &Listing)
        requires
            dir_wf(*old(self)),
            listing_ok(*listing),
        ensures
            refreshed(Some(*old(self)), *final(self), prefix@, *listing),
            old(self).children@.len() == 0 ==> refreshed(None, *final(self), prefix@, *listing),
            dir_wf(*final(self)),
            forall|i: int|
                0 <= i < final(self).children@.len() ==> listed(
                    *listing,
                    (#[trigger] final(self).children@[i]).0@,
                ),
            tree_inv(*old(self), prefix@) ==> tree_inv(*final(self), prefix@),
            no_empty_dirs(*old(self)) ==> no_empty_dirs(*final(self)),
        decreases listing,
    {
        let ghost old_dir = *self;
        let ghost es = listing.entries@;
        let mut seen: Vec<String> = Vec::new();
        let mut k: usize = 0;
        proof {
            assert(es.take(0).map_values(|e: ListedEntry| e.name@) =~= Seq::<Seq<char>>::empty());
            assert(seen@.map_values(|s: String| s@) =~= Seq::<Seq<char>>::empty());
            if no_empty_dirs(old_dir) {
                assert forall|n: Seq<char>| (#[trigger] child_of(self.children@, n) matches Some(
                    Node::Dir(d),
                ) ==> no_empty_dirs(d)) by {
                    lemma_no_empty_dirs_child(old_dir, n);
                }
            }
        }
        while k < listing.entries.len()
            invariant
                k <= listing.entries@.len(),
                es == listing.entries@,
                listing_ok(*listing),
                dir_wf(*self),
                seen@.map_values(|s: String| s@) == es.take(k as int).map_values(
                    |e: ListedEntry| e.name@,
                ),
                forall|n: Seq<char>|
                    (forall|j: int| 0 <= j < k ==> (#[trigger] es[j]).name@ != n) ==> child_of(
                        self.children@,
                        n,
                    ) == child_of(old_dir.children@, n),
                forall|j: int|
                    0 <= j < k ==> entry_applied(old_dir, self.children@, prefix@, #[trigger] es[j]),
                tree_inv(old_dir, prefix@) ==> tree_inv(*self, prefix@),
                no_empty_dirs(old_dir) ==> forall|n: Seq<char>|
                    #[trigger] child_of(self.children@, n) matches Some(Node::Dir(d)) ==> no_empty_dirs(d),
            decreases listing.entries@.len() - k,
        {
            let e = &listing.entries[k];
            let ghost n = e.name@;
            let ghost before = *self;
            proof {
                assert forall|j: int| 0 <= j < k implies (#[trigger] es[j]).name@ != n by {
                    assert(es[k as int] == *e);
                }
            }
            let ghost oc = child_of(old_dir.children@, n);
            assert(child_of(self.children@, n) == oc);
            seen.push(String::from_str(e.name.as_str()));
            match &e.kind {
                ListedKind::Dir(sub) => {
                    if is_valid_name(e.name.as_str()) {
                        let mut child = self.take_dir(e.name.as_str());
                        let ghost child_old = child;
                        let cp = child_rel_path(prefix, e.name.as_str());
                        proof {
                            assert forall|m: Seq<char>| old_child(Some(child_old), m) == old_child(
                                sub_dir(oc),
                                m,
                            ) by {
                            }
                        }
                        child.refresh_with(cp.as_str(), sub);
                        proof {
                            lemma_refreshed_same_old(
                                Some(child_old),
                                sub_dir(oc),
                                child,
                                rel_join(prefix@, n),
                                *sub,
                            );
                        }
                        self.insert(String::from_str(e.name.as_str()), Node::Dir(child));
                    }
                },
                ListedKind::File { mtime, read } => {
                    match self.note_to_read(prefix, e.name.as_str(), *mtime) {
                        None => {},
                        Some(_) => {
                            match read {
                                None => {},
                                Some((text, read_mtime)) => {
                                    self.store_note(
                                        prefix,
                                        String::from_str(e.name.as_str()),
                                        text.as_str(),
                                        *read_mtime,
                                    );
                                },
                            }
                        },
                    }
                },
                ListedKind::Unknown => {},
            }
            proof {
                assert(es.take(k + 1).map_values(|e: ListedEntry| e.name@) =~= es.take(
                    k as int,
                ).map_values(|e: ListedEntry| e.name@).push(n));
                assert forall|j: int| 0 <= j < k + 1 implies entry_applied(
                    old_dir,
                    self.children@,
                    prefix@,
                    #[trigger] es[j],
                ) by {
                    if j < k {
                        assert(entry_applied(old_dir, before.children@, prefix@, es[j]));
                        assert(es[j].name@ != n);
                    }
                }
            }
            k = k + 1;
        }
        let ghost mid = *self;
        let ghost sv = seen@.map_values(|s: String| s@);
        self.retain_seen(&seen);
        proof {
            assert(es.take(k as int) =~= es);
            assert(sv =~= es.map_values(|e: ListedEntry| e.name@));
            assert forall|n: Seq<char>| sv.contains(n) implies listed(*listing, n) by {
                if sv.contains(n) {
                    let j = choose|j: int| 0 <= j < sv.len() && sv[j] == n;
                    assert(sv[j] == es[j].name@);
                }
            }
            lemma_refresh_result(old_dir, mid, *self, prefix@, *listing, sv);
            if old_dir.children@.len() == 0 {
                lemma_refreshed_same_old(Some(old_dir), None, *self, prefix@, *listing);
            }
            assert forall|i: int| 0 <= i < self.children@.len() implies listed(
                *listing,
                (#[trigger] self.children@[i]).0@,
            ) by {
                assert(keep_entry(self.children@[i], sv));
            }
            if no_empty_dirs(old_dir) {
                assert forall|i: int| 0 <= i < mid.children@.len() implies (
                #[trigger] mid.children@[i].1 matches Node::Dir(sub) ==> no_empty_dirs(sub)) by {
                    lemma_child_of_index(mid.children@, mid.children@[i].0@, i);
                }
            }
        }
    }
}

/// The entries of `cs` kept after a refresh that saw the names `seen`:
/// entries whose name was seen, except empty directories.
pub open spec fn keep_entry(e: (String, Node), seen: Seq<Seq<char>>) -> bool {
    seen.contains(e.0@) && !(e.1 matches Node::Dir(d) && d.children@.len() == 0)
}

pub open spec fn kept(cs: Seq<(String, Node)>, seen: Seq<Seq<char>>) -> Seq<(String, Node)>
    decreases cs.len(),
{
    if cs.len() == 0 {
        seq![]
    } else if keep_entry(cs[0], seen) {
        seq![cs[0]] + kept(cs.drop_first(), seen)
    } else {
        kept(cs.drop_first(), seen)
    }
}

/// After keeping the seen entries, an entry is the seen one, unless it is an
/// empty directory.
proof fn lemma_child_of_kept(cs: Seq<(String, Node)>, seen: Seq<Seq<char>>, n: Seq<char>)
    requires
        names_sorted(cs),
    ensures
        child_of(kept(cs, seen), n) == if seen.contains(n) {
            drop_empty(child_of(cs, n))
        } else {
            None
        },
    decreases cs.len(),
{
    if cs.len() > 0 {
        let t = cs.drop_first();
        assert(names_sorted(t)) by {
            assert forall|i: int, j: int| 0 <= i < j < t.len() implies name_lt(t[i].0@, t[j].0@) by {
                assert(t[i] == cs[i + 1]);
                assert(t[j] == cs[j + 1]);
            }
        }
        lemma_child_of_kept(t, seen, n);
        if cs[0].0@ == n {
            assert forall|i: int| 0 <= i < t.len() implies (#[trigger] t[i]).0@ != n by {
                assert(t[i] == cs[i + 1]);
                assert(name_lt(cs[0].0@, cs[i + 1].0@));
                lemma_name_lt_total(n, n);
            }
            lemma_child_of_absent(t, n);
        }
        if keep_entry(cs[0], seen) {
            let k = seq![cs[0]] + kept(t, seen);
            assert(k[0] == cs[0]);
            assert(k.drop_first() =~= kept(t, seen));
        }
    }
}

pub proof fn lemma_kept(cs: Seq<(String, Node)>, seen: Seq<Seq<char>>)
    ensures
        forall|i: int|
            0 <= i < kept(cs, seen).len() ==> exists|j: int|
                0 <= j < cs.len() && cs[j] == #[trigger] kept(cs, seen)[i],
        names_sorted(cs) ==> names_sorted(kept(cs, seen)),
        forall|i: int|
            0 <= i < kept(cs, seen).len() ==> keep_entry(#[trigger] kept(cs, seen)[i], seen),
    decreases cs.len(),
{
    if cs.len() > 0 {
        let t = cs.drop_first();
        lemma_kept(t, seen);
        let k = kept(cs, seen);
        assert forall|i: int| 0 <= i < k.len() implies exists|j: int|
            0 <= j < cs.len() && cs[j] == #[trigger] k[i] by {
            if keep_entry(cs[0], seen) {
                if i == 0 {
                    assert(cs[0] == k[0]);
                } else {
                    assert(k[i] == kept(t, seen)[i - 1]);
                    let j = choose|j: int| 0 <= j < t.len() && t[j] == kept(t, seen)[i - 1];
                    assert(cs[j + 1] == k[i]);
                }
            } else {
                let j = choose|j: int| 0 <= j < t.len() && t[j] == kept(t, seen)[i];
                assert(cs[j + 1] == k[i]);
            }
        }
        if names_sorted(cs) {
            assert(names_sorted(t)) by {
                assert forall|i: int, j: int| 0 <= i < j < t.len() implies name_lt(
                    t[i].0@,
                    t[j].0@,
                ) by {
                    assert(t[i] == cs[i + 1]);
                    assert(t[j] == cs[j + 1]);
                }
            }
            if keep_entry(cs[0], seen) {
                assert forall|i: int, j: int| 0 <= i < j < k.len() implies name_lt(
                    k[i].0@,
                    k[j].0@,
                ) by {
                    if i == 0 {
                        assert(k[j] == kept(t, seen)[j - 1]);
                        let jj = choose|jj: int|
                            0 <= jj < t.len() && t[jj] == kept(t, seen)[j - 1];
                        assert(cs[jj + 1] == k[j]);
                    } else {
                        assert(k[i] == kept(t, seen)[i - 1]);
                        assert(k[j] == kept(t, seen)[j - 1]);
                    }
                }
            }
        }
        assert forall|i: int| 0 <= i < k.len() implies keep_entry(#[trigger] k[i], seen) by {
            if keep_entry(cs[0], seen) && i > 0 {
                assert(k[i] == kept(t, seen)[i - 1]);
            }
        }
    }
}

impl Dir {
    /// Whether the note `name` must be read again: it is not a note of the
    /// directory yet, or it was read at another modification time.
    pub fn needs_update(&self, name: &str, mtime: u128) -> (r: bool)
        requires
            names_sorted(self.children@),
        ensures
            r == !(child_of(self.children@, name@) matches Some(Node::File(f)) && f.mtime == mtime),
    {
        match self.get(name) {
            Some(Node::File(f)) => f.mtime != mtime,
            _ => true,
        }
    }

    /// Sets the entry `name` to `node`.
    pub fn insert(&mut self, name: String, node: Node)
        requires
            names_sorted(old(self).children@),
        ensures
            names_sorted(final(self).children@),
            child_of(final(self).children@, name@) == Some(node),
            forall|n: Seq<char>|
                n != name@ ==> child_of(final(self).children@, n) == child_of(
                    old(self).children@,
                    n,
                ),
            dir_wf(*old(self)) && (node matches Node::Dir(d) ==> dir_wf(d)) ==> dir_wf(*final(self)),
            forall|p: Seq<char>|
                #[trigger] tree_inv(*old(self), p) && entry_fits(name@, node, p) ==> tree_inv(
                    *final(self),
                    p,
                ),
    {
        let nv = chars_of(name.as_str());
        let ghost old_cs = self.children@;
        let ghost old_dir = *self;
        let ghost e = (name, node);
        match self.position(&nv) {
            Ok(i) => {
                let _ = self.children.remove(i);
                self.children.insert(i, (name, node));
                assert(self.children@ =~= old_cs.update(i as int, e));
                assert(names_sorted(self.children@));
                proof {
                    assert forall|q: Seq<char>| #[trigger] tree_inv(old_dir, q) && entry_fits(e.0@, e.1, q)
                        implies tree_inv(*self, q) by {
                        assert forall|j: int| 0 <= j < self.children@.len() implies ((
                        #[trigger] self.children@[j]).0@ == e.0@ && self.children@[j].1 == e.1)
                            || exists|k: int|
                            0 <= k < old_dir.children@.len() && old_dir.children@[k]
                                == self.children@[j] by {
                            if j != i {
                                assert(old_dir.children@[j] == self.children@[j]);
                            }
                        }
                        lemma_tree_inv_with(old_dir, *self, q, e.0@, e.1);
                    }
                    lemma_child_of_index(self.children@, e.0@, i as int);
                    assert forall|n: Seq<char>| n != e.0@ implies child_of(self.children@, n)
                        == child_of(old_cs, n) by {
                        if exists|j: int| 0 <= j < old_cs.len() && old_cs[j].0@ == n {
                            let j = choose|j: int| 0 <= j < old_cs.len() && old_cs[j].0@ == n;
                            lemma_child_of_index(old_cs, n, j);
                            lemma_child_of_index(self.children@, n, j);
                        } else {
                            lemma_child_of_absent(old_cs, n);
                            assert forall|j: int| 0 <= j < self.children@.len() implies (
                            #[trigger] self.children@[j]).0@ != n by {
                                if j != i {
                                    assert(self.children@[j] == old_cs[j]);
                                }
                            }
                            lemma_child_of_absent(self.children@, n);
                        }
                    }
                }
            },
            Err(p) => {
                self.children.insert(p, (name, node));
                assert(self.children@ =~= old_cs.insert(p as int, e));
                assert(names_sorted(self.children@)) by {
                    assert forall|a: int, b: int| 0 <= a < b < self.children@.len() implies name_lt(
                        self.children@[a].0@,
                        self.children@[b].0@,
                    ) by {
                        if a < p && b > p {
                            lemma_name_lt_trans(
                                self.children@[a].0@,
                                e.0@,
                                self.children@[b].0@,
                            );
                        }
                        if b == p {
                        }
                        if a == p {
                        }
                    }
                }
                proof {
                    assert forall|q: Seq<char>| #[trigger] tree_inv(old_dir, q) && entry_fits(e.0@, e.1, q)
                        implies tree_inv(*self, q) by {
                        assert forall|j: int| 0 <= j < self.children@.len() implies ((
                        #[trigger] self.children@[j]).0@ == e.0@ && self.children@[j].1 == e.1)
                            || exists|k: int|
                            0 <= k < old_dir.children@.len() && old_dir.children@[k]
                                == self.children@[j] by {
                            if j < p {
                                assert(old_dir.children@[j] == self.children@[j]);
                            } else if j > p {
                                assert(old_dir.children@[j - 1] == self.children@[j]);
                            }
                        }
                        lemma_tree_inv_with(old_dir, *self, q, e.0@, e.1);
                    }
                    lemma_child_of_index(self.children@, e.0@, p as int);
                    assert forall|n: Seq<char>| n != e.0@ implies child_of(self.children@, n)
                        == child_of(old_cs, n) by {
                        if exists|j: int| 0 <= j < old_cs.len() && old_cs[j].0@ == n {
                            let j = choose|j: int| 0 <= j < old_cs.len() && old_cs[j].0@ == n;
                            lemma_child_of_index(old_cs, n, j);
                            if j < p {
                                lemma_child_of_index(self.children@, n, j);
                            } else {
                                assert(self.children@[j + 1] == old_cs[j]);
                                lemma_child_of_index(self.children@, n, j + 1);
                            }
                        } else {
                            lemma_child_of_absent(old_cs, n);
                            assert forall|j: int| 0 <= j < self.children@.len() implies (
                            #[trigger] self.children@[j]).0@ != n by {
                                if j < p {
                                    assert(self.children@[j] == old_cs[j]);
                                } else if j > p {
                                    assert(self.children@[j] == old_cs[j - 1]);
                                }
                            }
                            lemma_child_of_absent(self.children@, n);
                        }
                    }
                }
            },
        }
    }

    /// Removes the entry `name` and gives back the directory it held, or an
    /// empty directory when it was a note or absent.
    pub fn take_dir(&mut self, name: &str) -> (r: Dir)
        requires
            names_sorted(old(self).children@),
        ensures
            names_sorted(final(self).children@),
            child_of(final(self).children@, name@) is None,
            forall|n: Seq<char>|
                n != name@ ==> child_of(final(self).children@, n) == child_of(
                    old(self).children@,
                    n,
                ),
            child_of(old(self).children@, name@) matches Some(Node::Dir(d)) ==> r == d,
            !(child_of(old(self).children@, name@) matches Some(Node::Dir(_))) ==> r.children@.len()
                == 0,
            dir_wf(*old(self)) ==> dir_wf(*final(self)) && dir_wf(r),
            forall|p: Seq<char>|
                #[trigger] tree_inv(*old(self), p) ==> tree_inv(*final(self), p) && tree_inv(
                    r,
                    rel_join(p, name@),
                ),
    {
        let nv = chars_of(name);
        let ghost old_cs = self.children@;
        let ghost old_dir = *self;
        match self.position(&nv) {
            Ok(i) => {
                proof {
                    lemma_child_of_index(old_cs, name@, i as int);
                }
                let (_, node) = self.children.remove(i);
                assert(self.children@ =~= old_cs.remove(i as int));
                assert(names_sorted(self.children@)) by {
                    assert forall|a: int, b: int| 0 <= a < b < self.children@.len() implies name_lt(
                        self.children@[a].0@,
                        self.children@[b].0@,
                    ) by {
                        let a0 = if a < i { a } else { a + 1 };
                        let b0 = if b < i { b } else { b + 1 };
                        assert(self.children@[a] == old_cs[a0]);
                        assert(self.children@[b] == old_cs[b0]);
                    }
                }
                proof {
                    assert forall|n: Seq<char>| true implies (n != name@ ==> child_of(self.children@, n)
                        == child_of(old_cs, n)) && (n == name@ ==> child_of(self.children@, n) is None) by {
                        if exists|j: int| 0 <= j < old_cs.len() && old_cs[j].0@ == n {
                            let j = choose|j: int| 0 <= j < old_cs.len() && old_cs[j].0@ == n;
                            lemma_child_of_index(old_cs, n, j);
                            lemma_name_lt_total(old_cs[j].0@, old_cs[i as int].0@);
                            lemma_name_lt_total(old_cs[i as int].0@, old_cs[j].0@);
                            if j < i {
                                lemma_child_of_index(self.children@, n, j);
                            } else if j > i {
                                assert(self.children@[j - 1] == old_cs[j]);
                                lemma_child_of_index(self.children@, n, j - 1);
                            } else {
                                assert forall|k: int| 0 <= k < self.children@.len() implies (
                                #[trigger] self.children@[k]).0@ != n by {
                                    if k < i {
                                        lemma_name_lt_total(old_cs[k].0@, n);
                                    } else {
                                        lemma_name_lt_total(n, old_cs[k + 1].0@);
                                    }
                                    if k < i {
                                        assert(self.children@[k] == old_cs[k]);
                                    } else {
                                        assert(self.children@[k] == old_cs[k + 1]);
                                    }
                                }
                                lemma_child_of_absent(self.children@, n);
                            }
                        } else {
                            lemma_child_of_absent(old_cs, n);
                            assert forall|k: int| 0 <= k < self.children@.len() implies (
                            #[trigger] self.children@[k]).0@ != n by {
                                if k < i {
                                    assert(self.children@[k] == old_cs[k]);
                                } else {
                                    assert(self.children@[k] == old_cs[k + 1]);
                                }
                            }
                            lemma_child_of_absent(self.children@, n);
                        }
                    }
                }
                proof {
                    assert forall|q: Seq<char>| #[trigger] tree_inv(old_dir, q) implies tree_inv(
                        *self,
                        q,
                    ) by {
                        assert forall|j: int| 0 <= j < self.children@.len() implies exists|k: int|
                            0 <= k < old_dir.children@.len() && old_dir.children@[k]
                                == #[trigger] self.children@[j] by {
                            if j < i {
                                assert(old_dir.children@[j] == self.children@[j]);
                            } else {
                                assert(old_dir.children@[j + 1] == self.children@[j]);
                            }
                        }
                        lemma_tree_inv_among(old_dir, *self, q);
                        lemma_tree_inv_elim(old_dir, q, i as int);
                    }
                }
                match node {
                    Node::Dir(d) => d,
                    Node::File(_) => Dir::new(),
                }
            },
            Err(p) => {
                proof {
                    assert forall|k: int| 0 <= k < old_cs.len() implies (#[trigger] old_cs[k]).0@
                        != name@ by {
                        lemma_name_lt_total(old_cs[k].0@, name@);
                    }
                    lemma_child_of_absent(old_cs, name@);
                    assert forall|q: Seq<char>| #[trigger] tree_inv(old_dir, q) implies tree_inv(
                        *self,
                        q,
                    ) by {
                        assert forall|j: int| 0 <= j < self.children@.len() implies exists|k: int|
                            0 <= k < old_dir.children@.len() && old_dir.children@[k]
                                == #[trigger] self.children@[j] by {
                            assert(old_dir.children@[j] == self.children@[j]);
                        }
                        lemma_tree_inv_among(old_dir, *self, q);
                    }
                }
                Dir::new()
            },
        }
    }

    /// Keeps the entries whose name is in `seen`, except empty directories.
    pub fn retain_seen(&mut self, seen: &Vec<String>)
        requires
            names_sorted(old(self).children@),
        ensures
            final(self).children@ == kept(old(self).children@, seen@.map_values(|s: String| s@)),
            forall|i: int|
                0 <= i < final(self).children@.len() ==> keep_entry(
                    #[trigger] final(self).children@[i],
                    seen@.map_values(|s: String| s@),
                ),
            names_sorted(final(self).children@),
            dir_wf(*old(self)) ==> dir_wf(*final(self)),
            forall|p: Seq<char>| #[trigger] tree_inv(*old(self), p) ==> tree_inv(*final(self), p),
            (forall|i: int|
                0 <= i < old(self).children@.len() ==> (#[trigger] old(self).children@[i].1 matches Node::Dir(
                    sub,
                ) ==> no_empty_dirs(sub))) ==> no_empty_dirs(*final(self)),
    {
        let ghost sv = seen@.map_values(|s: String| s@);
        let ghost orig = self.children@;
        let mut rest: Vec<(String, Node)> = Vec::new();
        std::mem::swap(&mut rest, &mut self.children);
        while rest.len() > 0
            invariant
                sv == seen@.map_values(|s: String| s@),
                self.children@ + kept(rest@, sv) == kept(orig, sv),
            decreases rest.len(),
        {
            let ghost before = rest@;
            let e = rest.remove(0);
            assert(rest@ =~= before.drop_first());
            let mut in_seen = false;
            let mut k: usize = 0;
            while k < seen.len()
                invariant
                    sv == seen@.map_values(|s: String| s@),
                    k <= seen.len(),
                    in_seen == exists|j: int| 0 <= j < k && sv[j] == e.0@,
                decreases seen.len() - k,
            {
                assert(sv[k as int] == seen@[k as int]@);
                if seen[k] == e.0 {
                    in_seen = true;
                }
                k = k + 1;
            }
            let empty_dir = match &e.1 {
                Node::Dir(d) => d.children.len() == 0,
                Node::File(_) => false,
            };
            let ghost prev = self.children@;
            if in_seen && !empty_dir {
                self.children.push(e);
                assert(self.children@ + kept(rest@, sv) =~= prev + kept(before, sv));
            }
        }
        assert(self.children@ =~= kept(orig, sv));
        proof {
            lemma_kept(orig, sv);
            if dir_wf(*old(self)) {
                assert forall|i: int| 0 <= i < self.children@.len() implies match #[trigger] self.children@[i].1 {
                    Node::Dir(sub) => dir_wf(sub),
                    Node::File(_) => true,
                } by {
                    let j = choose|j: int| 0 <= j < orig.len() && orig[j] == kept(orig, sv)[i];
                    assert(orig[j] == old(self).children@[j]);
                }
            }
            assert forall|j: int| 0 <= j < self.children@.len() implies exists|k: int|
                0 <= k < old(self).children@.len() && old(self).children@[k]
                    == #[trigger] self.children@[j] by {
                let k = choose|k: int| 0 <= k < orig.len() && orig[k] == kept(orig, sv)[j];
                assert(orig[k] == old(self).children@[k]);
            }
            assert forall|q: Seq<char>| #[trigger] tree_inv(*old(self), q) implies tree_inv(*self, q) by {
                lemma_tree_inv_among(*old(self), *self, q);
            }
            if forall|i: int|
                0 <= i < old(self).children@.len() ==> (#[trigger] old(self).children@[i].1 matches Node::Dir(
                    sub,
                ) ==> no_empty_dirs(sub)) {
                assert forall|j: int| 0 <= j < self.children@.len() implies match #[trigger] self.children@[j].1 {
                    Node::Dir(sub) => sub.children@.len() > 0 && no_empty_dirs(sub),
                    Node::File(_) => true,
                } by {
                    assert(keep_entry(kept(orig, sv)[j], sv));
                    let k = choose|k: int| 0 <= k < orig.len() && orig[k] == kept(orig, sv)[j];
                    assert(orig[k] == old(self).children@[k]);
                    assert(old(self).children@[k].1 == self.children@[j].1);
                }
            }
        }
    }
}


pub proof fn lemma_child_of_mem(cs: Seq<(String, Node)>, name: Seq<char>)
    ensures
        child_of(cs, name) matches Some(n) ==> exists|i: int| 0 <= i < cs.len() && cs[i].1 == n,
    decreases cs.len(),
{
    if cs.len() > 0 && cs[0].0@ != name {
        lemma_child_of_mem(cs.drop_first(), name);
        if let Some(n) = child_of(cs, name) {
            let i = choose|i: int| 0 <= i < cs.drop_first().len() && cs.drop_first()[i].1 == n;
            assert(cs[i + 1].1 == n);
        }
    }
}

proof fn lemma_child_of_entry(cs: Seq<(String, Node)>, name: Seq<char>)
    ensures
        child_of(cs, name) matches Some(n) ==> exists|i: int|
            0 <= i < cs.len() && cs[i].0@ == name && cs[i].1 == n,
    decreases cs.len(),
{
    if cs.len() > 0 && cs[0].0@ != name {
        lemma_child_of_entry(cs.drop_first(), name);
        if let Some(n) = child_of(cs, name) {
            let i = choose|i: int|
                0 <= i < cs.drop_first().len() && cs.drop_first()[i].0@ == name
                    && cs.drop_first()[i].1 == n;
            assert(cs[i + 1] == cs.drop_first()[i]);
        }
    }
}

impl Dir {
    fn get_by_chars(&self, name: &Vec<char>) -> (r: Option<&Node>)
        requires
            names_sorted(self.children@),
        ensures
            r matches Some(n) ==> child_of(self.children@, name@) == Some(*n),
            r is None ==> child_of(self.children@, name@) is None,
    {
        match self.position(name) {
            Ok(i) => {
                proof {
                    lemma_child_of_index(self.children@, name@, i as int);
                }
                Some(&self.children[i].1)
            },
            Err(p) => {
                proof {
                    assert forall|i: int| 0 <= i < self.children@.len() implies (
                    #[trigger] self.children@[i]).0@ != name@ by {
                        lemma_name_lt_total(self.children@[i].0@, name@);
                    }
                    lemma_child_of_absent(self.children@, name@);
                }
                None
            },
        }
    }
}

/// Appends the notes under `cs` to `out`.
fn collect_files<'a>(cs: &'a Vec<(String, Node)>, out: &mut Vec<&'a MdFile>)
    ensures
        final(out)@.map_values(|f: &MdFile| *f) == old(out)@.map_values(|f: &MdFile| *f)
            + children_files(cs@),
    decreases cs,
{
    let mut k: usize = 0;
    let ghost start = old(out)@.map_values(|f: &MdFile| *f);
    assert(cs@.take(0) =~= Seq::<(String, Node)>::empty());
    while k < cs.len()
        invariant
            k <= cs.len(),
            out@.map_values(|f: &MdFile| *f) == start + children_files(cs@.take(k as int)),
        decreases cs.len() - k,
    {
        assert(cs@.take(k + 1).drop_last() =~= cs@.take(k as int));
        assert(cs@.take(k + 1).last() == cs@[k as int]);
        let ghost before = out@.map_values(|f: &MdFile| *f);
        match &cs[k].1 {
            Node::File(f) => {
                out.push(f);
                assert(out@.map_values(|f: &MdFile| *f) =~= before + seq![*f]);
            },
            Node::Dir(d) => {
                collect_files(&d.children, out);
            },
        }
        assert(start + children_files(cs@.take(k + 1)) =~= start + children_files(cs@.take(k as int))
            + node_files(cs@[k as int].1));
        k = k + 1;
    }
    assert(cs@.take(k as int) =~= cs@);
}

proof fn lemma_children_files_mem(cs: Seq<(String, Node)>, f: MdFile)
    ensures
        children_files(cs).contains(f) <==> exists|i: int|
            0 <= i < cs.len() && node_files(#[trigger] cs[i].1).contains(f),
    decreases cs.len(),
{
    if cs.len() > 0 {
        let u = cs.drop_last();
        lemma_children_files_mem(u, f);
        let a = children_files(u);
        let b = node_files(cs.last().1);
        assert(children_files(cs) == a + b);
        if (a + b).contains(f) {
            let k = choose|k: int| 0 <= k < (a + b).len() && (a + b)[k] == f;
            if k < a.len() {
                assert(a[k] == f);
                let i = choose|i: int| 0 <= i < u.len() && node_files(#[trigger] u[i].1).contains(f);
                assert(cs[i] == u[i]);
            } else {
                assert(b[k - a.len()] == f);
                assert(cs[cs.len() - 1] == cs.last());
            }
        }
        if exists|i: int| 0 <= i < cs.len() && node_files(#[trigger] cs[i].1).contains(f) {
            let i = choose|i: int| 0 <= i < cs.len() && node_files(#[trigger] cs[i].1).contains(f);
            if i < cs.len() - 1 {
                assert(u[i] == cs[i]);
                let k = choose|k: int| 0 <= k < a.len() && a[k] == f;
                assert((a + b)[k] == f);
            } else {
                let k = choose|k: int| 0 <= k < b.len() && b[k] == f;
                assert((a + b)[a.len() + k] == f);
            }
        }
    }
}

/// Every note listed under a directory is found by the names of the
/// directories leading to it and its own name.
pub proof fn law_listed_notes_are_found(d: Dir, f: MdFile)
    requires
        dir_wf(d),
        children_files(d.children@).contains(f),
    ensures
        exists|parts: Seq<Seq<char>>| lookup(d, parts) == Some(f),
    decreases d,
{
    let cs = d.children@;
    lemma_children_files_mem(cs, f);
    let i = choose|i: int| 0 <= i < cs.len() && node_files(#[trigger] cs[i].1).contains(f);
    let name = cs[i].0@;
    lemma_child_of_index(cs, name, i);
    match cs[i].1 {
        Node::File(g) => {
            assert(node_files(cs[i].1) == seq![g]);
            assert(g == f);
            assert(lookup(d, seq![name]) == Some(f));
        },
        Node::Dir(sub) => {
            assert(dir_wf(sub));
            law_listed_notes_are_found(sub, f);
            let parts = choose|parts: Seq<Seq<char>>| lookup(sub, parts) == Some(f);
            let all = seq![name] + parts;
            assert(all.drop_first() =~= parts);
            assert(lookup(d, all) == Some(f));
        },
    }
}

/// Every note found under a directory is one of the notes listed under it.
pub proof fn law_found_notes_are_listed(d: Dir, parts: Seq<Seq<char>>)
    requires
        dir_wf(d),
        lookup(d, parts) is Some,
    ensures
        children_files(d.children@).contains(lookup(d, parts)->0),
    decreases parts.len(),
{
    let cs = d.children@;
    let f = lookup(d, parts)->0;
    lemma_child_of_mem(cs, parts[0]);
    let n = child_of(cs, parts[0])->0;
    let i = choose|i: int| 0 <= i < cs.len() && cs[i].1 == n;
    match n {
        Node::File(g) => {
            assert(node_files(cs[i].1) == seq![g]);
            assert(node_files(cs[i].1)[0] == f);
        },
        Node::Dir(sub) => {
            assert(dir_wf(sub));
            law_found_notes_are_listed(sub, parts.drop_first());
        },
    }
    lemma_children_files_mem(cs, f);
}

/// The tree of notes under a content directory.
pub struct MdTree {
    pub root: Dir,
    pub content_path: String,
}

impl MdTree {
    pub open spec fn wf(&self) -> bool {
        tree_inv(self.root, seq![])
    }

    /// An empty tree for the notes under `content_path`.
    pub fn new(content_path: String) -> (t: Self)
        ensures
            t.root.children@.len() == 0,
            t.content_path == content_path,
            t.wf(),
    {
        MdTree { root: Dir::new(), content_path }
    }

    /// Refreshes the tree from the listing of the content directory: new
    /// notes are added, changed ones read again, deleted entries and empty
    /// directories removed.
    pub fn refresh(&mut self, listing: &Listing)
        requires
            old(self).wf(),
            listing_ok(*listing),
        ensures
            final(self).wf(),
            final(self).content_path == old(self).content_path,
            refreshed(Some(old(self).root), final(self).root, seq![], *listing),
            no_empty_dirs(old(self).root) ==> no_empty_dirs(final(self).root),
    {
        proof {
            lemma_tree_inv_wf(self.root, seq![]);
        }
        proof {
            reveal_strlit("");
        }
        self.root.refresh_with("", listing);
    }

    /// The note at `path`: its `/`-separated non-empty segments name the
    /// directories and then the note.
    pub fn get_md_file(&self, path: &str) -> (r: Option<&MdFile>)
        requires
            self.wf(),
        ensures
            r matches Some(f) ==> lookup(self.root, path_parts(path@, 0)) == Some(*f),
            r is None ==> lookup(self.root, path_parts(path@, 0)) is None,
            r matches Some(f) ==> f.href@ == rel_path_of(path_parts(path@, 0)),
            (exists|k: int|
                0 <= k < path_parts(path@, 0).len() && (#[trigger] path_parts(path@, 0)[k] == seq!['.']
                    || path_parts(path@, 0)[k] == seq!['.', '.'])) ==> r is None,
    {
        let parts = split_path(path);
        let ghost pv = path_parts(path@, 0);
        if parts.len() == 0 {
            return None;
        }
        let mut current: &Dir = &self.root;
        let mut i: usize = 0;
        assert(pv.skip(0) =~= pv);
        assert(pv.take(0) =~= Seq::<Seq<char>>::empty());
        while i < parts.len()
            invariant
                pv == path_parts(path@, 0),
                parts@.len() == pv.len(),
                forall|k: int| 0 <= k < parts@.len() ==> (#[trigger] parts@[k])@ == pv[k],
                i <= parts.len(),
                i < parts.len() || lookup(*current, pv.skip(i as int)) is None,
                tree_inv(*current, rel_path_of(pv.take(i as int))),
                forall|k: int| 0 <= k < i ==> valid_name(#[trigger] pv[k]),
                lookup(self.root, pv) == lookup(*current, pv.skip(i as int)),
            decreases parts.len() - i,
        {
            let ghost rest = pv.skip(i as int);
            let ghost pre = rel_path_of(pv.take(i as int));
            assert(rest[0] == parts@[i as int]@);
            assert(rest.drop_first() =~= pv.skip(i + 1));
            assert(pv.take(i + 1).drop_last() =~= pv.take(i as int));
            assert(rel_path_of(pv.take(i + 1)) == rel_join(pre, pv[i as int]));
            proof {
                lemma_tree_inv_wf(*current, pre);
                lemma_child_of_entry(current.children@, parts@[i as int]@);
                if let Some(n) = child_of(current.children@, parts@[i as int]@) {
                    let j = choose|j: int|
                        0 <= j < current.children@.len() && current.children@[j].0@
                            == parts@[i as int]@ && current.children@[j].1 == n;
                    lemma_tree_inv_elim(*current, pre, j);
                }
            }
            match current.get_by_chars(&parts[i]) {
                None => {
                    return None;
                },
                Some(Node::File(f)) => {
                    if i == parts.len() - 1 {
                        assert(pv.take(i + 1) =~= pv);
                        return Some(f);
                    }
                    return None;
                },
                Some(Node::Dir(d)) => {
                    assert(pv.skip(i + 1).len() == 0 ==> lookup(*d, pv.skip(i + 1)) is None);
                    current = d;
                },
            }
            i = i + 1;
        }
        None
    }

    /// The notes of the tree, in name order, directories walked in depth.
    pub fn md_files_iter(&self) -> (r: Vec<&MdFile>)
        ensures
            r@.map_values(|f: &MdFile| *f) == children_files(self.root.children@),
    {
        let mut out: Vec<&MdFile> = Vec::new();
        assert(out@.map_values(|f: &MdFile| *f) =~= Seq::<MdFile>::empty());
        collect_files(&self.root.children, &mut out);
        assert(Seq::<MdFile>::empty() + children_files(self.root.children@) =~= children_files(
            self.root.children@,
        ));
        out
    }
}

} // verus!
