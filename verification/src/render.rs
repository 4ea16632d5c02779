//! The HTML of the pages: a note, the index of notes and due actions, and the
//! page template.

use vstd::prelude::*;
use vstd::seq_lib::to_multiset_build;
use crate::config::{AppConfig, AppConfigDueAction, css_style_for, days_until};
use crate::date::{CalDate, date_of_text, iso_date_text, date_le};
use crate::mdtree::{CheckboxTask, MdFile, MdTree, DueAction, task_parts, children_files};
use crate::pattern::{
    PatternKind, MatchSpec, all_matches, find_all, found_view, splice, splice_text, reps_view,
    well_formed_match, match_at,
};
use crate::settings::{
    MarkdownOptions, get_markdown_options, markdown_options, user_process_markdown, user_processed,
};
use crate::text::{chars_of, string_of};

verus! {

/// Result of rendering markdown `md` to HTML with `pulldown_cmark`, with the
/// given extensions enabled.
pub uninterp spec fn markdown_html(md: Seq<char>, tables: bool, strikethrough: bool, gfm: bool) -> Seq<
    char,
>;

/// `pulldown_cmark::html::push_html` on an empty string, of the events of
/// `pulldown_cmark::Parser::new_ext(md, options)`: named `markdown_html`.
#[verifier::external_body]
fn pulldown_markdown_to_html(md: &str, opts: &MarkdownOptions) -> (r: String)
    ensures
        r@ == markdown_html(md@, opts.tables, opts.strikethrough, opts.gfm),
{
    let mut options = pulldown_cmark::Options::empty();
    options.set(pulldown_cmark::Options::ENABLE_TABLES, opts.tables);
    options.set(pulldown_cmark::Options::ENABLE_STRIKETHROUGH, opts.strikethrough);
    options.set(pulldown_cmark::Options::ENABLE_GFM, opts.gfm);
    let parser = pulldown_cmark::Parser::new_ext(md, options);
    let mut html = String::new();
    pulldown_cmark::html::push_html(&mut html, parser);
    html
}

/// The date of a checkbox task shown as a span whose class tells how close it
/// is, when the task has a real date.
pub open spec fn task_date_html(
    cfg: &AppConfigDueAction,
    now: (int, int, int),
    date: Option<Seq<char>>,
) -> Seq<char> {
    match date {
        Some(d) => match date_of_text(d) {
            Some(dd) => " <span class=\"mynotes-date "@ + css_style_for(cfg, days_until(now, dd))
                + "\">"@ + d + "</span>"@,
            None => Seq::<char>::empty(),
        },
        None => Seq::<char>::empty(),
    }
}

/// The HTML written for a checkbox task.
pub open spec fn checkbox_task_html(
    parts: (Seq<char>, bool, Option<Seq<char>>, Seq<char>),
    rel_path: Seq<char>,
    cfg: &AppConfigDueAction,
    now: (int, int, int),
) -> Seq<char> {
    parts.0 + "- <label><input type=\"checkbox\""@ + (if parts.1 {
        " checked"@
    } else {
        Seq::<char>::empty()
    }) + " data-url=\"/"@ + rel_path + "\" data-label=\""@ + parts.3 + "\">"@ + task_date_html(
        cfg,
        now,
        parts.2,
    ) + " "@ + parts.3 + "</label>"@
}

/// Replacements of the checkbox tasks of `s`.
pub open spec fn checkbox_reps(
    s: Seq<char>,
    rel_path: Seq<char>,
    cfg: &AppConfigDueAction,
    now: (int, int, int),
) -> Seq<Option<Seq<char>>> {
    let ms = all_matches(PatternKind::CheckboxTask, s, 0);
    Seq::new(
        ms.len(),
        |k: int| Some(checkbox_task_html(task_parts(s, ms[k]), rel_path, cfg, now)),
    )
}

/// The markdown `s` with its checkbox tasks written as HTML checkboxes.
pub open spec fn checkbox_tasks_patched(
    s: Seq<char>,
    rel_path: Seq<char>,
    cfg: &AppConfigDueAction,
    now: (int, int, int),
) -> Seq<char> {
    splice(
        s,
        all_matches(PatternKind::CheckboxTask, s, 0),
        checkbox_reps(s, rel_path, cfg, now),
        0,
    )
}

/// Writes each checkbox task as a checkbox inside a label, with `data-*`
/// attributes giving the note and the task, and its date highlighted.
pub fn patch_md_checkbox_tasks(
    md_content: &mut String,
    rel_path: &str,
    config: &AppConfig,
    now: &CalDate,
)
    ensures
        final(md_content)@ == checkbox_tasks_patched(
            old(md_content)@,
            rel_path@,
            &config.due_action,
            now@,
        ),
{
    let v = chars_of(md_content.as_str());
    let ms = find_all(PatternKind::CheckboxTask, &v);
    let ghost want = checkbox_reps(v@, rel_path@, &config.due_action, now@);
    let mut reps: Vec<Option<String>> = Vec::new();
    let mut k: usize = 0;
    while k < ms.len()
        invariant
            found_view(ms@) == all_matches(PatternKind::CheckboxTask, v@, 0),
            want == checkbox_reps(v@, rel_path@, &config.due_action, now@),
            forall|k: int|
                0 <= k < ms@.len() ==> {
                    &&& match_at(PatternKind::CheckboxTask, v@, (#[trigger] ms@[k]).start as int)
                        == Some(ms@[k]@)
                    &&& well_formed_match(ms@[k]@, v.len() as int)
                    &&& ms@[k].groups@.len() == 4
                },
            k <= ms.len(),
            reps@.len() == k,
            reps_view(reps@) == want.subrange(0, k as int),
        decreases ms.len() - k,
    {
        assert(found_view(ms@)[k as int] == ms@[k as int]@);
        let ct = CheckboxTask::from_match(&v, &ms[k]);
        let mut h = ct.indent.clone();
        h.append("- <label><input type=\"checkbox\"");
        if ct.checked {
            h.append(" checked");
        }
        h.append(" data-url=\"/");
        h.append(rel_path);
        h.append("\" data-label=\"");
        h.append(ct.text.as_str());
        h.append("\">");
        let mut dh = String::new();
        match ct.parse_date() {
            Some(date) => {
                let style = config.due_action.get_css_style(now, &date);
                dh.append(" <span class=\"mynotes-date ");
                dh.append(style);
                dh.append("\">");
                match &ct.date {
                    Some(d) => {
                        dh.append(d.as_str());
                    },
                    None => {},
                }
                dh.append("</span>");
            },
            None => {},
        }
        assert(dh@ == task_date_html(&config.due_action, now@, ct.parts().2));
        h.append(dh.as_str());
        h.append(" ");
        h.append(ct.text.as_str());
        h.append("</label>");
        reps.push(Some(h));
        assert(reps_view(reps@) =~= want.subrange(0, k + 1));
        k = k + 1;
    }
    assert(want.subrange(0, k as int) =~= want);
    *md_content = splice_text(&v, &ms, &reps);
}

/// The HTML of a note's body: checkbox tasks patched, the user's processing,
/// then markdown rendered with the settings' extensions.
pub open spec fn body_md_html(
    body: Seq<char>,
    href: Seq<char>,
    cfg: &AppConfigDueAction,
    now: (int, int, int),
) -> Seq<char> {
    markdown_html(user_processed(checkbox_tasks_patched(body, href, cfg, now)), true, true, true)
}

/// A note's body is rendered with the markdown options of the settings, the
/// ones `get_markdown_options` gives, from its text once its checkbox tasks are
/// patched and the user's processing is done.
pub proof fn law_body_rendered_with_settings_options(
    body: Seq<char>,
    href: Seq<char>,
    cfg: &AppConfigDueAction,
    now: (int, int, int),
)
    ensures
        body_md_html(body, href, cfg, now) == markdown_html(
            user_processed(checkbox_tasks_patched(body, href, cfg, now)),
            markdown_options().tables,
            markdown_options().strikethrough,
            markdown_options().gfm,
        ),
{
}

/// HTML body of a note's page.
pub fn get_body_md(md_file: &MdFile, config: &AppConfig, now: &CalDate) -> (r: String)
    ensures
        r@ == body_md_html(md_file.raw_md_body@, md_file.href@, &config.due_action, now@),
{
    let mut md_content = md_file.raw_md_body.clone();
    patch_md_checkbox_tasks(&mut md_content, md_file.href.as_str(), config, now);
    user_process_markdown(&mut md_content);
    let options = get_markdown_options();
    pulldown_markdown_to_html(md_content.as_str(), &options)
}


/// Cache for the HTML template file.
pub struct HtmlTemplate {
    /// File path.
    pub path: String,
    /// Modification time when the file was read, in nanoseconds since the
    /// Unix epoch (0 before the first read).
    pub mtime: u128,
    /// Content of the template file.
    pub content: String,
}

impl HtmlTemplate {
    pub fn new(path: String) -> (t: Self)
        ensures
            t.path == path,
            t.mtime == 0,
            t.content@ == Seq::<char>::empty(),
    {
        HtmlTemplate { path, mtime: 0, content: String::new() }
    }

    /// Whether the file must be read again, its modification time being
    /// `current_mtime`.
    pub fn needs_reload(&self, current_mtime: u128) -> (r: bool)
        ensures
            r == (self.mtime != current_mtime),
    {
        self.mtime != current_mtime
    }

    /// Stores the content read at `mtime`.
    pub fn reload(&mut self, content: String, mtime: u128)
        ensures
            final(self).path == old(self).path,
            final(self).content == content,
            final(self).mtime == mtime,
    {
        self.content = content;
        self.mtime = mtime;
    }

    /// Brings the cache up to date with the file, whose modification time is
    /// now `current_mtime`. The file is read again only when that time differs
    /// from the cached one: `fresh` is then what the read gave (`None` when it
    /// failed), and it is ignored otherwise. Returns whether the cache now
    /// holds the file's content; when it does not, nothing changed.
    pub fn refresh_content(&mut self, current_mtime: u128, fresh: Option<String>) -> (r: bool)
        ensures
            r == (old(self).mtime == current_mtime || fresh is Some),
            old(self).mtime == current_mtime ==> *final(self) == *old(self),
            old(self).mtime != current_mtime ==> match fresh {
                Some(c) => final(self).path == old(self).path && final(self).content == c
                    && final(self).mtime == current_mtime,
                None => *final(self) == *old(self),
            },
    {
        if !self.needs_reload(current_mtime) {
            return true;
        }
        match fresh {
            Some(c) => {
                self.reload(c, current_mtime);
                true
            },
            None => false,
        }
    }

    /// Template content, as last read.
    pub fn get_content(&self) -> (r: &str)
        ensures
            r@ == self.content@,
    {
        self.content.as_str()
    }
}

pub open spec fn occurs_at(s: Seq<char>, pat: Seq<char>, k: int) -> bool {
    0 <= k && k + pat.len() <= s.len() && s.subrange(k, k + pat.len()) == pat
}

pub open spec fn first_occurrence(s: Seq<char>, pat: Seq<char>, i: int) -> Option<int>
    decreases s.len() + 1 - i,
{
    if !(0 <= i <= s.len()) {
        None
    } else if occurs_at(s, pat, i) {
        Some(i)
    } else {
        first_occurrence(s, pat, i + 1)
    }
}

pub proof fn lemma_first_occurrence(s: Seq<char>, pat: Seq<char>, i: int)
    requires
        0 <= i,
    ensures
        first_occurrence(s, pat, i) matches Some(k) ==> i <= k && occurs_at(s, pat, k),
    decreases s.len() + 1 - i,
{
    if 0 <= i <= s.len() && !occurs_at(s, pat, i) {
        lemma_first_occurrence(s, pat, i + 1);
    }
}

/// `s` from `i` on, with each occurrence of the non-empty `pat` replaced by
/// `rep`, from left to right.
pub open spec fn replaced_from(s: Seq<char>, pat: Seq<char>, rep: Seq<char>, i: int) -> Seq<char>
    decreases s.len() + 1 - i,
{
    if !(0 <= i <= s.len()) || pat.len() == 0 {
        seq![]
    } else {
        match first_occurrence(s, pat, i) {
            None => s.subrange(i, s.len() as int),
            Some(k) => {
                proof {
                    lemma_first_occurrence(s, pat, i);
                }
                s.subrange(i, k) + rep + replaced_from(s, pat, rep, k + pat.len())
            },
        }
    }
}

/// `s` with each occurrence of `pat` replaced by `rep`.
pub open spec fn replaced(s: Seq<char>, pat: Seq<char>, rep: Seq<char>) -> Seq<char> {
    replaced_from(s, pat, rep, 0)
}

/// Replaces each occurrence of the non-empty `pat` in `v` by `rep`.
fn replace_literal(v: &Vec<char>, pat: &Vec<char>, rep: &str) -> (r: String)
    requires
        pat.len() > 0,
    ensures
        r@ == replaced(v@, pat@, rep@),
{
    let mut out = String::new();
    let mut i: usize = 0;
    let mut k: usize = 0;
    assert(out@ + replaced_from(v@, pat@, rep@, 0) =~= replaced(v@, pat@, rep@));
    loop
        invariant
            pat.len() > 0,
            i <= k <= v.len(),
            first_occurrence(v@, pat@, i as int) == first_occurrence(v@, pat@, k as int),
            out@ + replaced_from(v@, pat@, rep@, i as int) == replaced(v@, pat@, rep@),
        decreases v.len() - i, v.len() - k,
    {
        if pat.len() <= v.len() - k && crate::text::range_equals(v, k, k + pat.len(), pat) {
            assert(occurs_at(v@, pat@, k as int));
            crate::text::push_chars(&mut out, v, i, k);
            out.append(rep);
            i = k + pat.len();
            k = i;
        } else if k == v.len() {
            assert(first_occurrence(v@, pat@, k + 1) is None);
            crate::text::push_chars(&mut out, v, i, v.len());
            return out;
        } else {
            k = k + 1;
        }
    }
}

/// The page: the template with `%TITLE%` replaced by the title, then
/// `%CONTENT%` replaced by the body.
pub open spec fn page_html(template: Seq<char>, title: Seq<char>, body: Seq<char>) -> Seq<char> {
    replaced(replaced(template, "%TITLE%"@, title), "%CONTENT%"@, body)
}

/// Fills the template with the page title and body.
pub fn fill_template(template: &str, title: &str, body: &str) -> (r: String)
    ensures
        r@ == page_html(template@, title@, body@),
{
    let tv = chars_of(template);
    let title_pat = chars_of("%TITLE%");
    let content_pat = chars_of("%CONTENT%");
    proof {
        reveal_strlit("%TITLE%");
        reveal_strlit("%CONTENT%");
    }
    let with_title = replace_literal(&tv, &title_pat, title);
    let wv = chars_of(with_title.as_str());
    replace_literal(&wv, &content_pat, body)
}


/// Whether `pat` occurs in `s`.
pub open spec fn contains_text(s: Seq<char>, pat: Seq<char>) -> bool {
    exists|k: int| occurs_at(s, pat, k)
}

/// A resource path served from the content directory: not a URL with a
/// scheme, and not leading into a hidden file or a parent directory.
pub open spec fn is_local_resource(path: Seq<char>) -> bool {
    !contains_text(path, "://"@) && !contains_text(path, "/."@)
}

/// The tag start (up to the attribute name) and the path of a static resource match.
pub open spec fn resource_parts(s: Seq<char>, m: MatchSpec) -> (Seq<char>, Seq<char>) {
    (s.subrange(m.groups[0].0, m.groups[0].1), s.subrange(m.groups[1].0, m.groups[1].1))
}

fn text_contains(v: &Vec<char>, pat: &Vec<char>) -> (r: bool)
    ensures
        r == contains_text(v@, pat@),
{
    let mut k: usize = 0;
    while k <= v.len()
        invariant
            k <= v.len() + 1,
            forall|j: int| 0 <= j < k ==> !occurs_at(v@, pat@, j),
        decreases v.len() + 1 - k,
    {
        if pat.len() <= v.len() - k && crate::text::range_equals(v, k, k + pat.len(), pat) {
            assert(occurs_at(v@, pat@, k as int));
            return true;
        }
        if k == v.len() {
            assert forall|j: int| !occurs_at(v@, pat@, j) by {
                if 0 <= j < k {
                }
            }
            return false;
        }
        k = k + 1;
    }
    false
}

/// Whether a resource path is served from the content directory.
pub fn is_local_path(path: &str) -> (r: bool)
    ensures
        r == is_local_resource(path@),
{
    let v = chars_of(path);
    let scheme = chars_of("://");
    let hidden = chars_of("/.");
    !text_contains(&v, &scheme) && !text_contains(&v, &hidden)
}

/// The static resources of a page (`src` or `href` of `link`, `script` and
/// `img` tags), in order: their path and whether it is local.
pub fn static_resources(html: &str) -> (r: Vec<(String, bool)>)
    ensures
        r@.len() == all_matches(PatternKind::StaticResource, html@, 0).len(),
        forall|k: int|
            0 <= k < r@.len() ==> {
                let path = resource_parts(
                    html@,
                    all_matches(PatternKind::StaticResource, html@, 0)[k],
                ).1;
                &&& (#[trigger] r@[k]).0@ == path
                &&& r@[k].1 == is_local_resource(path)
            },
{
    let v = chars_of(html);
    let ms = find_all(PatternKind::StaticResource, &v);
    let mut out: Vec<(String, bool)> = Vec::new();
    let mut k: usize = 0;
    while k < ms.len()
        invariant
            v@ == html@,
            found_view(ms@) == all_matches(PatternKind::StaticResource, v@, 0),
            forall|k: int|
                0 <= k < ms@.len() ==> {
                    &&& well_formed_match((#[trigger] ms@[k])@, v.len() as int)
                    &&& ms@[k].groups@.len() == 2
                },
            k <= ms.len(),
            out@.len() == k,
            forall|j: int|
                0 <= j < k ==> {
                    let path = resource_parts(
                        v@,
                        all_matches(PatternKind::StaticResource, v@, 0)[j],
                    ).1;
                    &&& (#[trigger] out@[j]).0@ == path
                    &&& out@[j].1 == is_local_resource(path)
                },
        decreases ms.len() - k,
    {
        assert(found_view(ms@)[k as int] == ms@[k as int]@);
        let (p0, p1) = ms[k].groups[1];
        assert(ms@[k as int]@.groups[1] == (p0 as int, p1 as int));
        let path = string_of(&v, p0, p1);
        let local = is_local_path(path.as_str());
        out.push((path, local));
        k = k + 1;
    }
    out
}

/// Replacements that add `?mtime=` to local resources whose modification
/// time (in seconds since the Unix epoch) is known.
pub open spec fn busting_reps(s: Seq<char>, mtimes: Seq<Option<u64>>) -> Seq<Option<Seq<char>>> {
    let ms = all_matches(PatternKind::StaticResource, s, 0);
    Seq::new(
        ms.len(),
        |k: int|
            {
                let (attr, path) = resource_parts(s, ms[k]);
                if is_local_resource(path) && mtimes[k] is Some {
                    Some(
                        attr + "=\""@ + path + "?mtime="@ + crate::text::decimal_text(
                            mtimes[k]->0 as nat,
                        ) + "\""@,
                    )
                } else {
                    None
                }
            },
    )
}

/// `html` where each local static resource gets `?mtime=<mtime>` appended to
/// its path, `mtimes[k]` being the modification time of the `k`-th resource
/// (none when the file does not exist). Each resource URL then changes with
/// the file, so browsers may cache it forever.
pub fn add_cache_busting(html: &str, mtimes: &Vec<Option<u64>>) -> (r: String)
    requires
        mtimes@.len() == all_matches(PatternKind::StaticResource, html@, 0).len(),
    ensures
        r@ == splice(
            html@,
            all_matches(PatternKind::StaticResource, html@, 0),
            busting_reps(html@, mtimes@),
            0,
        ),
{
    let v = chars_of(html);
    let ms = find_all(PatternKind::StaticResource, &v);
    let ghost want = busting_reps(v@, mtimes@);
    let mut reps: Vec<Option<String>> = Vec::new();
    let mut k: usize = 0;
    while k < ms.len()
        invariant
            v@ == html@,
            mtimes@.len() == ms@.len(),
            found_view(ms@) == all_matches(PatternKind::StaticResource, v@, 0),
            want == busting_reps(v@, mtimes@),
            forall|k: int|
                0 <= k < ms@.len() ==> {
                    &&& well_formed_match((#[trigger] ms@[k])@, v.len() as int)
                    &&& ms@[k].groups@.len() == 2
                },
            k <= ms.len(),
            reps@.len() == k,
            reps_view(reps@) == want.subrange(0, k as int),
        decreases ms.len() - k,
    {
        assert(found_view(ms@)[k as int] == ms@[k as int]@);
        let (a0, a1) = ms[k].groups[0];
        let (p0, p1) = ms[k].groups[1];
        assert(ms@[k as int]@.groups[0] == (a0 as int, a1 as int));
        assert(ms@[k as int]@.groups[1] == (p0 as int, p1 as int));
        let path = string_of(&v, p0, p1);
        if is_local_path(path.as_str()) && mtimes[k].is_some() {
            let m = mtimes[k].unwrap();
            let mut h = string_of(&v, a0, a1);
            h.append("=\"");
            h.append(path.as_str());
            h.append("?mtime=");
            let ms_text = crate::text::decimal_string(m);
            h.append(ms_text.as_str());
            h.append("\"");
            reps.push(Some(h));
        } else {
            reps.push(None);
        }
        assert(reps_view(reps@) =~= want.subrange(0, k + 1));
        k = k + 1;
    }
    assert(want.subrange(0, k as int) =~= want);
    splice_text(&v, &ms, &reps)
}


/// A due action listed in the index, with its note.
pub type DueItem = (MdFile, DueAction);

/// The due actions of note `f` among `ds`, in order, except those
/// `ignore_future_days` days or more ahead.
pub open spec fn file_due_items(
    f: MdFile,
    ds: Seq<DueAction>,
    cfg: &AppConfigDueAction,
    now: (int, int, int),
) -> Seq<DueItem>
    decreases ds.len(),
{
    if ds.len() == 0 {
        seq![]
    } else {
        file_due_items(f, ds.drop_last(), cfg, now) + if days_until(now, ds.last().date@)
            < cfg.ignore_future_days {
            seq![(f, ds.last())]
        } else {
            seq![]
        }
    }
}

/// The due actions of the notes, note after note, except those
/// `ignore_future_days` days or more ahead.
pub open spec fn listed_due_items(
    files: Seq<MdFile>,
    cfg: &AppConfigDueAction,
    now: (int, int, int),
) -> Seq<DueItem>
    decreases files.len(),
{
    if files.len() == 0 {
        seq![]
    } else {
        listed_due_items(files.drop_last(), cfg, now) + file_due_items(
            files.last(),
            files.last().due_actions@,
            cfg,
            now,
        )
    }
}

proof fn lemma_file_due_items(f: MdFile, ds: Seq<DueAction>, cfg: &AppConfigDueAction, now: (int, int, int), x: DueItem)
    ensures
        file_due_items(f, ds, cfg, now).contains(x) <==> (x.0 == f && ds.contains(x.1) && days_until(
            now,
            x.1.date@,
        ) < cfg.ignore_future_days),
    decreases ds.len(),
{
    if ds.len() > 0 {
        let u = ds.drop_last();
        lemma_file_due_items(f, u, cfg, now, x);
        let t = if days_until(now, ds.last().date@) < cfg.ignore_future_days {
            seq![(f, ds.last())]
        } else {
            seq![]
        };
        let a = file_due_items(f, u, cfg, now);
        assert(file_due_items(f, ds, cfg, now) == a + t);
        assert((a + t).contains(x) <==> a.contains(x) || t.contains(x)) by {
            if (a + t).contains(x) {
                let k = choose|k: int| 0 <= k < (a + t).len() && (a + t)[k] == x;
                if k >= a.len() {
                    assert(t[k - a.len()] == x);
                }
            }
            if a.contains(x) {
                let k = choose|k: int| 0 <= k < a.len() && a[k] == x;
                assert((a + t)[k] == x);
            }
            if t.contains(x) {
                let k = choose|k: int| 0 <= k < t.len() && t[k] == x;
                assert((a + t)[a.len() + k] == x);
            }
        }
        assert(ds.contains(x.1) <==> u.contains(x.1) || ds.last() == x.1) by {
            assert(ds == u.push(ds.last()));
            if ds.contains(x.1) {
                let k = choose|k: int| 0 <= k < ds.len() && ds[k] == x.1;
                if k < u.len() {
                    assert(u[k] == x.1);
                }
            }
            if u.contains(x.1) {
                let k = choose|k: int| 0 <= k < u.len() && u[k] == x.1;
                assert(ds[k] == x.1);
            }
            if ds.last() == x.1 {
                assert(ds[ds.len() - 1] == x.1);
            }
        }
        if t.contains(x) {
            assert(t[0] == x);
        }
        if x.0 == f && ds.last() == x.1 && days_until(now, x.1.date@) < cfg.ignore_future_days {
            assert(t[0] == x);
        }
    }
}

/// A due action of a listed note is in the index exactly when it is fewer
/// than `ignore_future_days` days ahead, whatever the other thresholds: the
/// items listed are the pairs of a note and one of its due actions that are
/// not too far ahead.
pub proof fn law_listed_due_items(files: Seq<MdFile>, cfg: &AppConfigDueAction, now: (int, int, int), x: DueItem)
    ensures
        listed_due_items(files, cfg, now).contains(x) <==> (files.contains(x.0)
            && x.0.due_actions@.contains(x.1) && days_until(now, x.1.date@) < cfg.ignore_future_days),
    decreases files.len(),
{
    if files.len() > 0 {
        let u = files.drop_last();
        let l = files.last();
        law_listed_due_items(u, cfg, now, x);
        lemma_file_due_items(l, l.due_actions@, cfg, now, x);
        let a = listed_due_items(u, cfg, now);
        let t = file_due_items(l, l.due_actions@, cfg, now);
        assert((a + t).contains(x) <==> a.contains(x) || t.contains(x)) by {
            if (a + t).contains(x) {
                let k = choose|k: int| 0 <= k < (a + t).len() && (a + t)[k] == x;
                if k >= a.len() {
                    assert(t[k - a.len()] == x);
                }
            }
            if a.contains(x) {
                let k = choose|k: int| 0 <= k < a.len() && a[k] == x;
                assert((a + t)[k] == x);
            }
            if t.contains(x) {
                let k = choose|k: int| 0 <= k < t.len() && t[k] == x;
                assert((a + t)[a.len() + k] == x);
            }
        }
        assert(files.contains(x.0) <==> u.contains(x.0) || l == x.0) by {
            assert(files == u.push(l));
            if files.contains(x.0) {
                let k = choose|k: int| 0 <= k < files.len() && files[k] == x.0;
                if k < u.len() {
                    assert(u[k] == x.0);
                }
            }
            if u.contains(x.0) {
                let k = choose|k: int| 0 <= k < u.len() && u[k] == x.0;
                assert(files[k] == x.0);
            }
            if l == x.0 {
                assert(files[files.len() - 1] == x.0);
            }
        }
    }
}

/// `x` inserted into `t` after the items whose date is not later.
pub open spec fn insert_by_date(t: Seq<DueItem>, x: DueItem) -> Seq<DueItem>
    decreases t.len(),
{
    if t.len() == 0 {
        seq![x]
    } else if date_le(t.last().1.date@, x.1.date@) {
        t.push(x)
    } else {
        insert_by_date(t.drop_last(), x).push(t.last())
    }
}

/// The items sorted by date, items of the same date in their first order.
pub open spec fn sort_by_date(items: Seq<DueItem>) -> Seq<DueItem>
    decreases items.len(),
{
    if items.len() == 0 {
        seq![]
    } else {
        insert_by_date(sort_by_date(items.drop_last()), items.last())
    }
}

/// One due action in the index.
pub open spec fn due_item_html(it: DueItem, cfg: &AppConfigDueAction, now: (int, int, int)) -> Seq<
    char,
> {
    let (f, a) = it;
    "<li><label><input type=\"checkbox\" data-url=\"/"@ + f.href@ + "\" data-label=\""@
        + a.action@ + "\"> <span class=\"mynotes-date "@ + css_style_for(
        cfg,
        days_until(now, a.date@),
    ) + "\">"@ + iso_date_text(a.date@.0, a.date@.1, a.date@.2) + "</span> "@ + a.action@
        + " - <a href=\""@ + f.href@ + "\">"@ + f.title@ + "</a></label></li>"@
}

pub open spec fn due_items_html(
    items: Seq<DueItem>,
    cfg: &AppConfigDueAction,
    now: (int, int, int),
) -> Seq<char>
    decreases items.len(),
{
    if items.len() == 0 {
        seq![]
    } else {
        due_items_html(items.drop_last(), cfg, now) + due_item_html(items.last(), cfg, now)
    }
}

/// One note in the index.
pub open spec fn note_item_html(f: MdFile) -> Seq<char> {
    "<li><a href=\""@ + f.href@ + "\">"@ + f.title@ + "</a></li>"@
}

pub open spec fn notes_html(files: Seq<MdFile>) -> Seq<char>
    decreases files.len(),
{
    if files.len() == 0 {
        seq![]
    } else {
        notes_html(files.drop_last()) + note_item_html(files.last())
    }
}

/// The index page body: the due actions sorted by date (or the text for no
/// due action), then the notes.
pub open spec fn body_index(files: Seq<MdFile>, cfg: &AppConfigDueAction, now: (int, int, int)) -> Seq<
    char,
> {
    if files.len() == 0 {
        "<h2>No content</h2>"@
    } else {
        let due = sort_by_date(listed_due_items(files, cfg, now));
        "<h2>"@ + cfg.title@ + "</h2>"@ + (if due.len() == 0 {
            cfg.empty_str@
        } else {
            "<ul>"@ + due_items_html(due, cfg, now) + "</ul>"@
        }) + "<h2>Notes</h2>"@ + "<ul>"@ + notes_html(files) + "</ul>"@
    }
}

pub open spec fn items_view(v: Seq<(&MdFile, &DueAction)>) -> Seq<DueItem> {
    v.map_values(|p: (&MdFile, &DueAction)| (*p.0, *p.1))
}

proof fn lemma_insert_by_date(t: Seq<DueItem>, x: DueItem, j: int)
    requires
        0 <= j <= t.len(),
        forall|i: int| j <= i < t.len() ==> !date_le(#[trigger] t[i].1.date@, x.1.date@),
        j == 0 || date_le(t[j - 1].1.date@, x.1.date@),
    ensures
        insert_by_date(t, x) == t.take(j).push(x) + t.skip(j),
    decreases t.len(),
{
    if t.len() == j {
        assert(t.take(j) =~= t);
        assert(t.skip(j) =~= Seq::<DueItem>::empty());
        if j > 0 {
            assert(t.last() == t[j - 1]);
        }
        assert(t.take(j).push(x) + t.skip(j) =~= t.push(x));
    } else {
        assert(t.last() == t[t.len() - 1]);
        lemma_insert_by_date(t.drop_last(), x, j);
        assert(t.drop_last().take(j) =~= t.take(j));
        assert(t.drop_last().skip(j).push(t.last()) =~= t.skip(j));
        assert((t.take(j).push(x) + t.drop_last().skip(j)).push(t.last()) =~= t.take(j).push(x)
            + t.skip(j));
    }
}

/// Sorts items by date, items of the same date keeping their order.
fn sort_items<'a>(items: &Vec<(&'a MdFile, &'a DueAction)>) -> (r: Vec<(&'a MdFile, &'a DueAction)>)
    ensures
        items_view(r@) == sort_by_date(items_view(items@)),
{
    let mut out: Vec<(&'a MdFile, &'a DueAction)> = Vec::new();
    let mut k: usize = 0;
    assert(items_view(items@).take(0) =~= Seq::<DueItem>::empty());
    assert(items_view(out@) =~= Seq::<DueItem>::empty());
    while k < items.len()
        invariant
            k <= items.len(),
            items_view(out@) == sort_by_date(items_view(items@).take(k as int)),
        decreases items.len() - k,
    {
        let x = items[k];
        let ghost xv = (*x.0, *x.1);
        let ghost t = items_view(out@);
        let mut j = out.len();
        while j > 0 && !out[j - 1].1.date.is_before_or_same(&x.1.date)
            invariant
                j <= out.len(),
                t == items_view(out@),
                xv == (*x.0, *x.1),
                forall|i: int| j <= i < t.len() ==> !date_le(#[trigger] t[i].1.date@, xv.1.date@),
            decreases j,
        {
            assert(t[j - 1] == (*out@[j - 1].0, *out@[j - 1].1));
            j = j - 1;
        }
        proof {
            if j > 0 {
                assert(t[j - 1] == (*out@[j - 1].0, *out@[j - 1].1));
            }
            lemma_insert_by_date(t, xv, j as int);
        }
        out.insert(j, x);
        assert(items_view(out@) =~= t.take(j as int).push(xv) + t.skip(j as int));
        assert(items_view(items@).take(k + 1).drop_last() =~= items_view(items@).take(k as int));
        assert(items_view(items@).take(k + 1).last() == xv);
        k = k + 1;
    }
    assert(items_view(items@).take(k as int) =~= items_view(items@));
    out
}

/// Sorting by date gives items in date order, and the same items.
pub proof fn law_sorted_by_date(items: Seq<DueItem>)
    ensures
        forall|i: int, j: int|
            0 <= i < j < sort_by_date(items).len() ==> date_le(
                #[trigger] sort_by_date(items)[i].1.date@,
                #[trigger] sort_by_date(items)[j].1.date@,
            ),
        sort_by_date(items).len() == items.len(),
        sort_by_date(items).to_multiset() == items.to_multiset(),
    decreases items.len(),
{
    if items.len() > 0 {
        let u = items.drop_last();
        law_sorted_by_date(u);
        lemma_insert_sorted(sort_by_date(u), items.last());
        lemma_insert_by_date_keeps(sort_by_date(u), items.last(), items.last().1.date@);
        assert(u.push(items.last()) =~= items);
        to_multiset_build(u, items.last());
        assert(sort_by_date(items).to_multiset() =~= items.to_multiset());
    } else {
        assert(items =~= sort_by_date(items));
    }
}

/// Whether an item is due on the date `d`.
pub open spec fn due_on(d: (int, int, int)) -> spec_fn(DueItem) -> bool {
    |it: DueItem| it.1.date@ == d
}

/// Inserting by date adds the item once, after the items of its own date.
proof fn lemma_insert_by_date_keeps(t: Seq<DueItem>, x: DueItem, d: (int, int, int))
    ensures
        insert_by_date(t, x).to_multiset() == t.to_multiset().insert(x),
        insert_by_date(t, x).filter(due_on(d)) == if x.1.date@ == d {
            t.filter(due_on(d)).push(x)
        } else {
            t.filter(due_on(d))
        },
    decreases t.len(),
{
    let p = due_on(d);
    if t.len() == 0 {
        assert(insert_by_date(t, x) =~= t.push(x));
        to_multiset_build(t, x);
        t.lemma_filter_push(x, p);
    } else if date_le(t.last().1.date@, x.1.date@) {
        to_multiset_build(t, x);
        t.lemma_filter_push(x, p);
    } else {
        let u = t.drop_last();
        let l = t.last();
        lemma_insert_by_date_keeps(u, x, d);
        let r = insert_by_date(u, x);
        assert(u.push(l) =~= t);
        to_multiset_build(r, l);
        to_multiset_build(u, l);
        assert(r.push(l).to_multiset() =~= t.to_multiset().insert(x));
        r.lemma_filter_push(l, p);
        u.lemma_filter_push(l, p);
        assert(l.1.date@ != x.1.date@);
        if x.1.date@ == d {
            assert(!p(l));
        }
    }
}

/// Sorting by date keeps the order of the items of each date.
pub proof fn law_sort_by_date_is_stable(items: Seq<DueItem>, d: (int, int, int))
    ensures
        sort_by_date(items).filter(due_on(d)) == items.filter(due_on(d)),
    decreases items.len(),
{
    if items.len() > 0 {
        let u = items.drop_last();
        law_sort_by_date_is_stable(u, d);
        lemma_insert_by_date_keeps(sort_by_date(u), items.last(), d);
        assert(u.push(items.last()) =~= items);
        u.lemma_filter_push(items.last(), due_on(d));
    }
}

proof fn lemma_insert_sorted(t: Seq<DueItem>, x: DueItem)
    requires
        forall|i: int, j: int|
            0 <= i < j < t.len() ==> date_le(#[trigger] t[i].1.date@, #[trigger] t[j].1.date@),
    ensures
        forall|i: int, j: int|
            0 <= i < j < insert_by_date(t, x).len() ==> date_le(
                #[trigger] insert_by_date(t, x)[i].1.date@,
                #[trigger] insert_by_date(t, x)[j].1.date@,
            ),
        insert_by_date(t, x).len() == t.len() + 1,
        forall|i: int|
            0 <= i < insert_by_date(t, x).len() ==> (#[trigger] insert_by_date(t, x)[i] == x
                || exists|k: int| 0 <= k < t.len() && t[k] == insert_by_date(t, x)[i]),
    decreases t.len(),
{
    if t.len() > 0 && !date_le(t.last().1.date@, x.1.date@) {
        let u = t.drop_last();
        lemma_insert_sorted(u, x);
        let r = insert_by_date(t, x);
        let ru = insert_by_date(u, x);
        assert(r == ru.push(t.last()));
        assert forall|i: int| 0 <= i < ru.len() implies date_le(
            (#[trigger] ru[i]).1.date@,
            t.last().1.date@,
        ) by {
            if ru[i] != x {
                let k = choose|k: int| 0 <= k < u.len() && u[k] == ru[i];
                assert(t[k] == u[k]);
                assert(t[t.len() - 1] == t.last());
            }
        }
        assert forall|i: int| 0 <= i < r.len() implies (#[trigger] r[i] == x || exists|k: int|
            0 <= k < t.len() && t[k] == r[i]) by {
            if i < ru.len() {
                if ru[i] != x {
                    let k = choose|k: int| 0 <= k < u.len() && u[k] == ru[i];
                    assert(t[k] == u[k]);
                }
            } else {
                assert(t[t.len() - 1] == r[i]);
            }
        }
        assert forall|i: int, j: int| 0 <= i < j < r.len() implies date_le(
            #[trigger] r[i].1.date@,
            #[trigger] r[j].1.date@,
        ) by {
            if j == r.len() - 1 {
                assert(r[i] == ru[i]);
            } else {
                assert(r[i] == ru[i]);
                assert(r[j] == ru[j]);
            }
        }
    } else if t.len() > 0 {
        let r = insert_by_date(t, x);
        assert forall|i: int, j: int| 0 <= i < j < r.len() implies date_le(
            #[trigger] r[i].1.date@,
            #[trigger] r[j].1.date@,
        ) by {
            if j == r.len() - 1 {
                assert(t[t.len() - 1] == t.last());
            }
        }
        assert forall|i: int| 0 <= i < r.len() implies (#[trigger] r[i] == x || exists|k: int|
            0 <= k < t.len() && t[k] == r[i]) by {
            if i < t.len() {
                assert(t[i] == r[i]);
            }
        }
    }
}


fn due_item_string(f: &MdFile, a: &DueAction, cfg: &AppConfigDueAction, now: &CalDate) -> (r: String)
    ensures
        r@ == due_item_html((*f, *a), cfg, now@),
{
    let style = cfg.get_css_style(now, &a.date);
    let date = a.date.to_iso_string();
    let mut h = String::from_str("<li><label><input type=\"checkbox\" data-url=\"/");
    h.append(f.href.as_str());
    h.append("\" data-label=\"");
    h.append(a.action.as_str());
    h.append("\"> <span class=\"mynotes-date ");
    h.append(style);
    h.append("\">");
    h.append(date.as_str());
    h.append("</span> ");
    h.append(a.action.as_str());
    h.append(" - <a href=\"");
    h.append(f.href.as_str());
    h.append("\">");
    h.append(f.title.as_str());
    h.append("</a></label></li>");
    h
}

fn note_item_string(f: &MdFile) -> (r: String)
    ensures
        r@ == note_item_html(*f),
{
    let mut h = String::from_str("<li><a href=\"");
    h.append(f.href.as_str());
    h.append("\">");
    h.append(f.title.as_str());
    h.append("</a></li>");
    h
}

/// The due actions of the notes to list in the index, note after note.
fn collect_due_items<'a>(
    files: &Vec<&'a MdFile>,
    cfg: &AppConfigDueAction,
    now: &CalDate,
) -> (r: Vec<(&'a MdFile, &'a DueAction)>)
    ensures
        items_view(r@) == listed_due_items(files@.map_values(|f: &MdFile| *f), cfg, now@),
{
    let ghost fv = files@.map_values(|f: &MdFile| *f);
    let now_jd = now.julian_day() as i64;
    let mut due: Vec<(&'a MdFile, &'a DueAction)> = Vec::new();
    let mut i: usize = 0;
    assert(fv.take(0) =~= Seq::<MdFile>::empty());
    assert(items_view(due@) =~= Seq::<DueItem>::empty());
    while i < files.len()
        invariant
            fv == files@.map_values(|f: &MdFile| *f),
            now_jd == crate::date::julian_day(now@.0, now@.1, now@.2),
            i32::MIN <= now_jd <= i32::MAX,
            i <= files.len(),
            items_view(due@) == listed_due_items(fv.take(i as int), cfg, now@),
        decreases files.len() - i,
    {
        let f: &'a MdFile = files[i];
        let ghost base = items_view(due@);
        let mut j: usize = 0;
        assert(f.due_actions@.take(0) =~= Seq::<DueAction>::empty());
        assert(base + file_due_items(*f, f.due_actions@.take(0), cfg, now@) =~= base);
        while j < f.due_actions.len()
            invariant
                now_jd == crate::date::julian_day(now@.0, now@.1, now@.2),
                i32::MIN <= now_jd <= i32::MAX,
                j <= f.due_actions.len(),
                items_view(due@) == base + file_due_items(*f, f.due_actions@.take(j as int), cfg, now@),
            decreases f.due_actions.len() - j,
        {
            let a: &'a DueAction = &f.due_actions[j];
            let ghost before = items_view(due@);
            let remaining = (a.date.julian_day() as i64) - now_jd;
            assert(f.due_actions@.take(j + 1).drop_last() =~= f.due_actions@.take(j as int));
            assert(f.due_actions@.take(j + 1).last() == *a);
            if remaining < cfg.ignore_future_days {
                due.push((f, a));
                assert(items_view(due@) =~= before.push((*f, *a)));
            }
            assert(base + file_due_items(*f, f.due_actions@.take(j + 1), cfg, now@) =~= items_view(
                due@,
            ));
            j = j + 1;
        }
        assert(f.due_actions@.take(j as int) =~= f.due_actions@);
        assert(fv.take(i + 1).drop_last() =~= fv.take(i as int));
        assert(fv.take(i + 1).last() == *f);
        i = i + 1;
    }
    assert(fv.take(i as int) =~= fv);
    due
}

/// HTML body of the index page: the due actions sorted by date, then the notes.
pub fn get_body_index(md_tree: &MdTree, config: &AppConfig, now: &CalDate) -> (r: String)
    ensures
        r@ == body_index(children_files(md_tree.root.children@), &config.due_action, now@),
{
    let files = md_tree.md_files_iter();
    let ghost fv = files@.map_values(|f: &MdFile| *f);
    if files.len() == 0 {
        return String::from_str("<h2>No content</h2>");
    }
    let cfg = &config.due_action;
    let due = collect_due_items(&files, cfg, now);
    let sorted = sort_items(&due);
    let ghost sv = items_view(sorted@);
    let mut html = String::from_str("<h2>");
    html.append(cfg.title.as_str());
    html.append("</h2>");
    let ghost head = html@;
    if sorted.len() == 0 {
        html.append(cfg.empty_str.as_str());
    } else {
        html.append("<ul>");
        let ghost start = html@;
        let mut k: usize = 0;
        assert(sv.take(0) =~= Seq::<DueItem>::empty());
        assert(html@ =~= start + due_items_html(sv.take(0), cfg, now@));
        while k < sorted.len()
            invariant
                sv == items_view(sorted@),
                k <= sorted.len(),
                html@ == start + due_items_html(sv.take(k as int), cfg, now@),
            decreases sorted.len() - k,
        {
            let (f, a) = sorted[k];
            assert(sv[k as int] == (*f, *a));
            let item = due_item_string(f, a, cfg, now);
            html.append(item.as_str());
            assert(sv.take(k + 1).drop_last() =~= sv.take(k as int));
            assert(sv.take(k + 1).last() == sv[k as int]);
            k = k + 1;
        }
        assert(sv.take(k as int) =~= sv);
        html.append("</ul>");
        assert(html@ =~= head + ("<ul>"@ + due_items_html(sv, cfg, now@) + "</ul>"@));
    }
    html.append("<h2>Notes</h2>");
    html.append("<ul>");
    let ghost start2 = html@;
    let mut i: usize = 0;
    assert(fv.take(0) =~= Seq::<MdFile>::empty());
    assert(html@ =~= start2 + notes_html(fv.take(0)));
    while i < files.len()
        invariant
            fv == files@.map_values(|f: &MdFile| *f),
            i <= files.len(),
            html@ == start2 + notes_html(fv.take(i as int)),
        decreases files.len() - i,
    {
        let item = note_item_string(files[i]);
        html.append(item.as_str());
        assert(fv.take(i + 1).drop_last() =~= fv.take(i as int));
        assert(fv.take(i + 1).last() == *files@[i as int]);
        i = i + 1;
    }
    assert(fv.take(i as int) =~= fv);
    html.append("</ul>");
    html
}

} // verus!
