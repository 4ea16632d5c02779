//! The library's matchers give what the `regex` crate gives for the same
//! patterns, on ASCII texts and on texts with non-ASCII digits and spaces.

use regex::{Captures, Regex};

use mynotes::config::field_duration::{CfgDuration, DurationError};
use mynotes::markdown::MarkdownFile;
use mynotes::mdtree::{due_dates_are_valid, get_due_actions, CheckboxTask};
use mynotes::render::static_resources;
use mynotes::settings::user_process_markdown;

const SAMPLES: &[&str] = &[
    "- [ ] Unchecked\n- [x] Checked\n  - [ ] Indented\nNot a todo item",
    "\n\n- [ ] after blank lines\n",
    "- [ ] \n- [x] swallowed by the spaces\n",
    "text\n  \n -  [x]   spaced   \n-[ ]tight\n- [] not\n- [X] upper\n",
    "- [ ] 2026-01-01 First action\n- [x] 2026-01-02 Completed\n  - [ ] 2026-01-03 Indented\n",
    "- [ ]\n2026-04-05 across lines\n- [ ] 2026-04-05  two spaces\n- [ ] 2026-04-051 long\n",
    "Price 12.50€, -3€, 4.5€, -€, 1.234€, 7 €, --2€, 10.00€€",
    "no pattern at all",
    "",
    "\t- [x] tab indent\r\n- [ ] crlf line\r\n",
    "Arabic-Indic \u{663}\u{664}\u{20ac} and \u{661}\u{662}.\u{665}\u{660}\u{20ac}, mixed 7.\u{665}\u{660}\u{20ac}",
    "fullwidth \u{ff11}\u{ff12}\u{20ac}, Devanagari -\u{967}\u{20ac}, superscript \u{b2}\u{20ac}",
    "- [ ] \u{662}\u{660}\u{662}\u{666}-\u{660}\u{661}-\u{660}\u{661} Arabic-Indic date\n- [x] \u{ff12}\u{ff10}\u{ff12}\u{ff16}-\u{ff10}\u{ff11}-\u{ff10}\u{ff12} fullwidth\n",
    "\u{3000}- [ ]\u{a0}ideographic indent\n\u{2003}-\u{2009}[x] em space\n",
];

fn todo_regex_patch(content: &str, rel_path: &str) -> String {
    let re = Regex::new(r"(?m)^(\s*)-\s*\[([ x])\]\s*(.*)$").unwrap();
    re.replace_all(content, |caps: &Captures<'_>| {
        let (_, [indent, checked, text]) = caps.extract();
        let checked = checked == "x";
        format!(
            r#"{indent}- <label><input type="checkbox"{} data-path="{rel_path}" data-label="{text}"> {text}</label>"#,
            if checked { " checked" } else { "" }
        )
    })
    .to_string()
}

#[test]
fn todo_items_agree() {
    for s in SAMPLES {
        let mut mine = s.to_string();
        MarkdownFile::patch_md_todo_items(&mut mine, "p.md");
        assert_eq!(mine, todo_regex_patch(s, "p.md"), "on {s:?}");
    }
}

#[test]
fn money_agrees() {
    let re = Regex::new(r"(-?\d+(?:\.\d{2})?)€").unwrap();
    for s in SAMPLES {
        let mut mine = s.to_string();
        user_process_markdown(&mut mine);
        let theirs = re
            .replace_all(s, |caps: &Captures<'_>| {
                format!(
                    r#"<span class="mynotes-money">{} €</span>"#,
                    caps.get(1).unwrap().as_str()
                )
            })
            .to_string();
        assert_eq!(mine, theirs, "on {s:?}");
    }
}

#[test]
fn due_actions_agree() {
    let re = Regex::new(r"(?m)^(\s*)-\s*\[ \]\s*(\d{4}-\d{2}-\d{2}) (.*)$").unwrap();
    for s in SAMPLES {
        if !due_dates_are_valid(s) {
            continue;
        }
        let mine: Vec<(String, String)> = get_due_actions(s)
            .iter()
            .map(|d| (d.date.to_iso_string(), d.action.clone()))
            .collect();
        let theirs: Vec<(String, String)> = re
            .captures_iter(s)
            .map(|caps| {
                let (_, [_, date, action]) = caps.extract();
                (date.to_string(), action.to_string())
            })
            .collect();
        assert_eq!(mine, theirs, "on {s:?}");
    }
}

#[test]
fn checkbox_tasks_agree() {
    let re =
        Regex::new(r"(?m)^(\s*)-\s*\[([ x])\]\s*(?:(\d{4}-\d{2}-\d{2}) )?(.*)$").unwrap();
    for s in SAMPLES {
        let mine: Vec<(String, bool, Option<String>, String)> = CheckboxTask::all_in(s)
            .into_iter()
            .map(|t| (t.indent, t.checked, t.date, t.text))
            .collect();
        let theirs: Vec<(String, bool, Option<String>, String)> = re
            .captures_iter(s)
            .map(|caps| {
                (
                    caps[1].to_string(),
                    &caps[2] == "x",
                    caps.get(3).map(|m| m.as_str().to_string()),
                    caps[4].to_string(),
                )
            })
            .collect();
        assert_eq!(mine, theirs, "on {s:?}");
    }
}

#[test]
fn titles_agree() {
    let re = Regex::new(r"(?s)^# ([^\n]*)\n\n(.*)$").unwrap();
    for s in [
        "# T\n\nbody",
        "# T\nbody",
        "#T\n\n",
        "# \n\n",
        "# a\n\n\n\nb\n",
        "x# T\n\n",
        "# T\r\n\r\nb",
    ] {
        let mine = MarkdownFile::extract_title(s);
        let theirs = re.captures(s).map(|c| {
            let (_, [t, b]) = c.extract();
            (t.to_string(), b.to_string())
        });
        assert_eq!(mine, theirs, "on {s:?}");
    }
}

#[test]
fn static_resources_agree() {
    let re = Regex::new(r#"(<(?:link|script|img) [^<>]*(?:src|href))="([^"]*)""#).unwrap();
    for s in [
        r#"<link rel="stylesheet" href="/style.css"><script src="https://cdn/x.js"></script>"#,
        r#"<img alt="a" src="/img/a.png" data-href="b.png"><a href="x">"#,
        r#"<img src="a<b>c.png"> <img src="unclosed> <link href="x.css">"#,
        r#"<script  src="two-spaces.js"></script><imgsrc="no.png"><img title="t">"#,
        "<img src=\"multi\nline.png\">",
    ] {
        let mine: Vec<String> = static_resources(s).into_iter().map(|(p, _)| p).collect();
        let theirs: Vec<String> = re.captures_iter(s).map(|c| c[2].to_string()).collect();
        assert_eq!(mine, theirs, "on {s:?}");
    }
}

#[test]
fn duration_grammar_agrees() {
    let full = Regex::new(
        r"^(\s*[0-9]+\s*(y|years?|M|months?|w|weeks?|d|days?|h|hours?|m|min|s|sec|ms|millisec|us|µs|microsec|ns|nanosec)?)+$",
    )
    .unwrap();
    for s in [
        "0", "5", "30s", "60 sec", "5min", "12hours", "2 weeks", "1y3weeks2d 35min 7s", "s", "2Z",
        "", " ", "5 ", "5s ", " 5s", "1 2", "5mins", "5 m 6", "1years", "3 Months", "7µs", "1m\n30",
        "1,5", "1.5s", "m5",
    ] {
        let mine = CfgDuration::parse(s);
        assert_eq!(
            mine != Err(DurationError::InvalidFormat),
            full.is_match(s),
            "on {s:?}"
        );
    }
}
