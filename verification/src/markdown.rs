//! Markdown notes read with their rendered HTML.

use vstd::prelude::*;
use crate::date::CalDate;
use crate::pattern::{PatternKind, all_matches, find_all, found_view, splice, splice_text, reps_view, well_formed_match, title_split, split_title};
use crate::text::{chars_of, string_of};

verus! {

/// Action to perform on a due date.
pub struct DueAction {
    pub date: CalDate,
    pub action: String,
}

/// Content of a markdown file.
pub struct MarkdownFile {
    pub title: String,
    pub due_actions: Vec<DueAction>,
    pub html: Option<String>,
}

/// The HTML written for a todo item: a checkbox in a label, with the note's
/// path and the item's text as data attributes.
pub open spec fn todo_item_html(
    indent: Seq<char>,
    checked: bool,
    rel_path: Seq<char>,
    text: Seq<char>,
) -> Seq<char> {
    indent + "- <label><input type=\"checkbox\""@ + (if checked {
        " checked"@
    } else {
        Seq::<char>::empty()
    }) + " data-path=\""@ + rel_path + "\" data-label=\""@ + text + "\"> "@ + text
        + "</label>"@
}

/// Replacements of the todo items of `s`.
pub open spec fn todo_reps(s: Seq<char>, rel_path: Seq<char>) -> Seq<Option<Seq<char>>> {
    let ms = all_matches(PatternKind::TodoItem, s, 0);
    Seq::new(
        ms.len(),
        |k: int|
            Some(
                todo_item_html(
                    s.subrange(ms[k].groups[0].0, ms[k].groups[0].1),
                    s[ms[k].groups[1].0] == 'x',
                    rel_path,
                    s.subrange(ms[k].groups[2].0, ms[k].groups[2].1),
                ),
            ),
    )
}

/// The markdown `s` with its todo items written as HTML checkboxes.
pub open spec fn todo_items_patched(s: Seq<char>, rel_path: Seq<char>) -> Seq<char> {
    splice(s, all_matches(PatternKind::TodoItem, s, 0), todo_reps(s, rel_path), 0)
}

impl MarkdownFile {
    /// Splits a note into its `# ` title and its body.
    pub fn extract_title(content: &str) -> (r: Option<(String, String)>)
        ensures
            r is None ==> title_split(content@) is None,
            r matches Some(x) ==> title_split(content@) == Some((x.0@, x.1@)),
    {
        let v = chars_of(content);
        split_title(&v)
    }

    /// Patches the markdown before it is rendered to HTML.
    pub fn pre_render_md_patch(md_content: &mut String, rel_path: &str)
        ensures
            final(md_content)@ == todo_items_patched(old(md_content)@, rel_path@),
    {
        Self::patch_md_todo_items(md_content, rel_path);
    }

    /// Writes each todo item as a checkbox inside a label, with `data-*`
    /// attributes giving the note and the item, so that a user can check it
    /// and the server update the note.
    pub fn patch_md_todo_items(md_content: &mut String, rel_path: &str)
        ensures
            final(md_content)@ == todo_items_patched(old(md_content)@, rel_path@),
    {
        let v = chars_of(md_content.as_str());
        let ms = find_all(PatternKind::TodoItem, &v);
        let ghost want = todo_reps(v@, rel_path@);
        let mut reps: Vec<Option<String>> = Vec::new();
        let mut k: usize = 0;
        while k < ms.len()
            invariant
                found_view(ms@) == all_matches(PatternKind::TodoItem, v@, 0),
                want == todo_reps(v@, rel_path@),
                forall|k: int|
                    0 <= k < ms@.len() ==> {
                        &&& well_formed_match((#[trigger] ms@[k])@, v.len() as int)
                        &&& ms@[k].groups@.len() == 3
                        &&& crate::pattern::match_at(PatternKind::TodoItem, v@, ms@[k].start as int)
                            == Some(ms@[k]@)
                    },
                k <= ms.len(),
                reps@.len() == k,
                reps_view(reps@) == want.subrange(0, k as int),
            decreases ms.len() - k,
        {
            assert(found_view(ms@)[k as int] == ms@[k as int]@);
            let (i0, i1) = ms[k].groups[0];
            let (b0, _b1) = ms[k].groups[1];
            let (t0, t1) = ms[k].groups[2];
            assert(ms@[k as int]@.groups[0] == (i0 as int, i1 as int));
            assert(ms@[k as int]@.groups[1].0 == b0 as int);
            assert(ms@[k as int]@.groups[2] == (t0 as int, t1 as int));
            assert(b0 < v.len());
            let text = string_of(&v, t0, t1);
            let mut h = string_of(&v, i0, i1);
            h.append("- <label><input type=\"checkbox\"");
            if v[b0] == 'x' {
                h.append(" checked");
            }
            h.append(" data-path=\"");
            h.append(rel_path);
            h.append("\" data-label=\"");
            h.append(text.as_str());
            h.append("\"> ");
            h.append(text.as_str());
            h.append("</label>");
            reps.push(Some(h));
            assert(reps_view(reps@) =~= want.subrange(0, k + 1));
            k = k + 1;
        }
        assert(want.subrange(0, k as int) =~= want);
        *md_content = splice_text(&v, &ms, &reps);
    }
}

} // verus!
