//! Settings of the markdown rendering, and the user's processing of notes.

use vstd::prelude::*;
use crate::pattern::{PatternKind, all_matches, find_all, found_view, splice, splice_text, reps_view, well_formed_match};
use crate::text::{chars_of, string_of};

verus! {

/// Markdown extensions to enable when rendering HTML.
#[derive(Clone, Copy, PartialEq, Eq, Structural, Debug)]
pub struct MarkdownOptions {
    /// Tables.
    pub tables: bool,
    /// Strikethrough.
    pub strikethrough: bool,
    /// GitHub flavored markdown.
    pub gfm: bool,
}

/// The markdown options of the settings: tables, strikethrough and GitHub
/// flavored markdown.
pub open spec fn markdown_options() -> MarkdownOptions {
    MarkdownOptions { tables: true, strikethrough: true, gfm: true }
}

/// Markdown options used to transform markdown to HTML: tables,
/// strikethrough and GitHub flavored markdown.
pub fn get_markdown_options() -> (r: MarkdownOptions)
    ensures
        r == (MarkdownOptions { tables: true, strikethrough: true, gfm: true }),
        r == markdown_options(),
{
    MarkdownOptions { tables: true, strikethrough: true, gfm: true }
}

/// `<span class="mynotes-money">{s} €</span>`.
pub open spec fn money_html(s: Seq<char>) -> Seq<char> {
    "<span class=\"mynotes-money\">"@ + s + " €</span>"@
}

/// Adds a span around a money amount.
pub fn render_money(s: &str) -> (r: String)
    ensures
        r@ == money_html(s@),
{
    let mut r = String::from_str("<span class=\"mynotes-money\">");
    r.append(s);
    r.append(" €</span>");
    r
}

/// Replacements of the money amounts of `s`.
pub open spec fn money_reps(s: Seq<char>) -> Seq<Option<Seq<char>>> {
    let ms = all_matches(PatternKind::Money, s, 0);
    Seq::new(
        ms.len(),
        |k: int| Some(money_html(s.subrange(ms[k].groups[0].0, ms[k].groups[0].1))),
    )
}

/// The user's processing of a markdown body: money amounts get a span.
pub open spec fn user_processed(s: Seq<char>) -> Seq<char> {
    splice(s, all_matches(PatternKind::Money, s, 0), money_reps(s), 0)
}

/// Processes a markdown body: formats money amounts (`12.50€`).
pub fn user_process_markdown(body: &mut String)
    ensures
        final(body)@ == user_processed(old(body)@),
{
    let v = chars_of(body.as_str());
    let ms = find_all(PatternKind::Money, &v);
    let ghost want = money_reps(v@);
    let mut reps: Vec<Option<String>> = Vec::new();
    let mut k: usize = 0;
    while k < ms.len()
        invariant
            found_view(ms@) == all_matches(PatternKind::Money, v@, 0),
            want == money_reps(v@),
            forall|k: int|
                0 <= k < ms@.len() ==> {
                    &&& well_formed_match((#[trigger] ms@[k])@, v.len() as int)
                    &&& ms@[k].groups@.len() == 1
                },
            k <= ms.len(),
            reps@.len() == k,
            reps_view(reps@) == want.subrange(0, k as int),
        decreases ms.len() - k,
    {
        assert(found_view(ms@)[k as int] == ms@[k as int]@);
        let (a, b) = ms[k].groups[0];
        assert(ms@[k as int]@.groups[0] == (a as int, b as int));
        let amount = string_of(&v, a, b);
        reps.push(Some(render_money(amount.as_str())));
        assert(reps_view(reps@) =~= want.subrange(0, k + 1));
        k = k + 1;
    }
    assert(want.subrange(0, k as int) =~= want);
    *body = splice_text(&v, &ms, &reps);
}

} // verus!
