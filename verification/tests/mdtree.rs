use mynotes::date::CalDate;
use mynotes::mdtree::{
    get_due_actions, CheckboxTask, Dir, DueAction, ListedEntry, ListedKind, Listing, MdFile, MdTree,
    Node,
};

#[test]
fn test_split_title_body_success() {
    let content = "# My Title\n\nThis is the body content.";
    let result = MdFile::split_title_body(content);
    assert!(result.is_some());
    let (title, body) = result.unwrap();
    assert_eq!(title, "My Title");
    assert_eq!(body, "This is the body content.");
}

#[test]
fn test_split_title_body_no_header() {
    let content = "Just a body\n\nNo title here.";
    let result = MdFile::split_title_body(content);
    assert!(result.is_none());
}

#[test]
fn test_split_title_body_missing_double_newline() {
    let content = "# Title\nBody without double newline";
    let result = MdFile::split_title_body(content);
    assert!(result.is_none());
}

#[test]
fn test_split_title_body_empty_body() {
    let content = "# Title\n\n";
    let (title, body) = MdFile::split_title_body(content).expect("Should parse");
    assert_eq!(title, "Title");
    assert_eq!(body, "");
}

#[test]
fn test_split_title_body_multiline_body() {
    let content = "# Title\n\nLine 1\nLine 2\nLine 3";
    let (title, body) = MdFile::split_title_body(content).expect("Should parse");
    assert_eq!(title, "Title");
    assert_eq!(body, "Line 1\nLine 2\nLine 3");
}

#[test]
fn test_get_due_actions() {
    let content = r"
- [ ] 2026-01-01 First action
- [x] 2026-01-02 Completed action (ignore)
  - [ ] 2026-01-03 Indented action
Some other text without a task.
";
    let actions = get_due_actions(content);

    let expected_actions = vec![
        DueAction {
            date: CalDate::parse_iso("2026-01-01").unwrap(),
            action: "First action".to_string(),
        },
        DueAction {
            date: CalDate::parse_iso("2026-01-03").unwrap(),
            action: "Indented action".to_string(),
        },
    ];
    assert_eq!(actions, expected_actions);
}

fn note(rel_path: &str, content: &str) -> MdFile {
    MdFile::from_content(rel_path, content, 7).unwrap()
}

#[test]
fn note_title_gets_its_directory() {
    let f = note("dir/sub/n.md", "# Title\n\n- [ ] 2026-02-03 pay\n");
    assert_eq!(f.title, "dir/sub/Title");
    assert_eq!(f.href, "dir/sub/n.md");
    assert_eq!(f.mtime, 7);
    assert_eq!(f.raw_md_body, "- [ ] 2026-02-03 pay\n");
    assert_eq!(f.due_actions.len(), 1);
    assert_eq!(f.due_actions[0].action, "pay");
    let top = note("n.md", "# Top\n\nbody");
    assert_eq!(top.title, "Top");
    assert!(MdFile::from_content("n.md", "no title", 0).is_none());
}

#[test]
fn invalid_due_dates_are_detected() {
    assert!(mynotes::mdtree::due_dates_are_valid("- [ ] 2026-02-28 ok\n"));
    assert!(!mynotes::mdtree::due_dates_are_valid("- [ ] 2026-02-30 not a day\n"));
    assert!(!mynotes::mdtree::due_dates_are_valid("- [ ] 2026-13-01 not a month\n"));
    assert!(mynotes::mdtree::due_dates_are_valid("- [x] 2026-13-01 done, not a due action\n"));
}

#[test]
fn tree_lookup_and_listing() {
    let mut tree = MdTree::new("notes".to_string());
    let mut sub = Dir::new();
    sub.insert("b.md".to_string(), Node::File(note("d/b.md", "# B\n\nb")));
    sub.insert("a.md".to_string(), Node::File(note("d/a.md", "# A\n\na")));
    tree.root.insert("d".to_string(), Node::Dir(sub));
    tree.root.insert("c.md".to_string(), Node::File(note("c.md", "# C\n\nc")));
    tree.root.insert("0.md".to_string(), Node::File(note("0.md", "# Z\n\nz")));

    let titles: Vec<&str> = tree.md_files_iter().iter().map(|f| f.title.as_str()).collect();
    assert_eq!(titles, vec!["Z", "C", "d/A", "d/B"]);

    assert_eq!(tree.get_md_file("d/a.md").unwrap().title, "d/A");
    assert_eq!(tree.get_md_file("/d//b.md/").unwrap().title, "d/B");
    assert_eq!(tree.get_md_file("c.md").unwrap().title, "C");
    assert!(tree.get_md_file("d").is_none());
    assert!(tree.get_md_file("c.md/x").is_none());
    assert!(tree.get_md_file("").is_none());
    assert!(tree.get_md_file("d/z.md").is_none());
}

#[test]
fn refresh_steps() {
    let mut dir = Dir::new();
    assert!(dir.needs_update("a.md", 1));
    dir.insert("a.md".to_string(), Node::File(note("a.md", "# A\n\n")));
    assert!(!dir.needs_update("a.md", 7));
    assert!(dir.needs_update("a.md", 8));
    dir.insert("e".to_string(), Node::Dir(Dir::new()));
    dir.insert("gone.md".to_string(), Node::File(note("gone.md", "# G\n\n")));
    // a directory taken out to be refreshed, then put back
    let taken = dir.take_dir("e");
    assert!(taken.children.is_empty());
    assert!(dir.get("e").is_none());
    dir.insert("e".to_string(), Node::Dir(taken));
    dir.retain_seen(&vec!["a.md".to_string(), "e".to_string()]);
    let names: Vec<&str> = dir.children.iter().map(|(n, _)| n.as_str()).collect();
    // "gone.md" was not seen, "e" is an empty directory
    assert_eq!(names, vec!["a.md"]);
}

#[test]
fn checkbox_tasks_of_a_note() {
    let content = "- [ ] 2026-05-30 Today\n  - [x] plain\n";
    let tasks = CheckboxTask::all_in(content);
    assert_eq!(tasks.len(), 2);
    assert_eq!(tasks[0].date.as_deref(), Some("2026-05-30"));
    assert_eq!(tasks[0].text, "Today");
    assert!(!tasks[0].checked);
    assert_eq!(tasks[0].parse_date(), CalDate::parse_iso("2026-05-30"));
    assert_eq!(tasks[1].indent, "  ");
    assert!(tasks[1].checked);
    assert_eq!(tasks[1].date, None);
    assert_eq!(tasks[1].to_text(), "  - [x] plain");
    assert_eq!(tasks[0].to_text(), "- [ ] 2026-05-30 Today");
}

#[test]
fn set_checkbox_state_by_label() {
    let content = "# T\n\n- [ ] buy milk\n- [x] call\n-  [ ]  buy milk\n";
    let updated = CheckboxTask::set_state_by_label(content, "buy milk", true).unwrap();
    assert_eq!(updated, "# T\n\n- [x] buy milk\n- [x] call\n- [x] buy milk\n");
    let unchecked = CheckboxTask::set_state_by_label(content, "call", false).unwrap();
    assert_eq!(unchecked, "# T\n\n- [ ] buy milk\n- [ ] call\n-  [ ]  buy milk\n");
    assert!(CheckboxTask::set_state_by_label(content, "absent", true).is_none());
}

#[test]
fn dated_tasks_with_other_digits() {
    // decimal digits of other scripts match the date shape, but only ASCII
    // dates are read as dates
    let arabic = "- [ ] \u{662}\u{660}\u{662}\u{666}-\u{660}\u{661}-\u{660}\u{661} pay\n";
    assert!(!mynotes::mdtree::due_dates_are_valid(arabic));
    let tasks = CheckboxTask::all_in(arabic);
    assert_eq!(tasks.len(), 1);
    assert_eq!(
        tasks[0].date.as_deref(),
        Some("\u{662}\u{660}\u{662}\u{666}-\u{660}\u{661}-\u{660}\u{661}")
    );
    assert_eq!(tasks[0].text, "pay");
    assert_eq!(tasks[0].parse_date(), None);
}

#[test]
fn note_names_and_paths() {
    assert!(mynotes::mdtree::is_md_name("a.md"));
    assert!(mynotes::mdtree::is_md_name("..md"));
    assert!(!mynotes::mdtree::is_md_name(".md"));
    assert!(!mynotes::mdtree::is_md_name("a.mdx"));
    assert!(!mynotes::mdtree::is_md_name("md"));
    assert!(mynotes::mdtree::is_valid_name("a.md"));
    assert!(!mynotes::mdtree::is_valid_name(""));
    assert!(!mynotes::mdtree::is_valid_name("."));
    assert!(!mynotes::mdtree::is_valid_name(".."));
    assert!(!mynotes::mdtree::is_valid_name("a/b"));
    assert_eq!(mynotes::mdtree::child_rel_path("", "a.md"), "a.md");
    assert_eq!(mynotes::mdtree::child_rel_path("d/e", "a.md"), "d/e/a.md");
    assert_eq!(mynotes::mdtree::child_rel_path("d", "x\\y.md"), "d/x/y.md");
}

#[test]
fn refresh_reads_and_stores_notes() {
    let mut root = Dir::new();
    // a note not read yet, then read at mtime 5
    assert_eq!(root.note_to_read("", "a.md", 5), Some("a.md".to_string()));
    assert!(root.store_note("", "a.md".to_string(), "# A\n\nbody", 5));
    assert_eq!(root.note_to_read("", "a.md", 5), None);
    assert_eq!(root.note_to_read("", "a.md", 6), Some("a.md".to_string()));
    // not notes
    assert_eq!(root.note_to_read("", "a.txt", 5), None);
    assert_eq!(root.note_to_read("", "..", 5), None);
    // a text without a title is not stored
    assert!(!root.store_note("", "b.md".to_string(), "no title", 5));
    assert!(root.get("b.md").is_none());
    // a note in a subdirectory gets the href of its place
    let mut sub = root.take_dir("d");
    let prefix = mynotes::mdtree::child_rel_path("", "d");
    assert_eq!(sub.note_to_read(&prefix, "n.md", 1), Some("d/n.md".to_string()));
    assert!(sub.store_note(&prefix, "n.md".to_string(), "# N\n\n", 1));
    root.insert("d".to_string(), Node::Dir(sub));
    root.insert("empty".to_string(), Node::Dir(Dir::new()));
    root.retain_seen(&vec!["a.md".to_string(), "d".to_string(), "empty".to_string()]);
    let tree = MdTree { root, content_path: "notes".to_string() };
    let f = tree.get_md_file("d/n.md").unwrap();
    assert_eq!(f.href, "d/n.md");
    assert_eq!(f.title, "d/N");
    assert_eq!(tree.get_md_file("a.md").unwrap().href, "a.md");
    assert!(tree.get_md_file("empty").is_none());
    assert!(tree.get_md_file("./a.md").is_none());
    assert!(tree.get_md_file("d/../a.md").is_none());
    let names: Vec<&str> = tree.root.children.iter().map(|(n, _)| n.as_str()).collect();
    assert_eq!(names, vec!["a.md", "d"]);
}

fn file(name: &str, mtime: u128, text: Option<&str>) -> ListedEntry {
    ListedEntry {
        name: name.to_string(),
        kind: ListedKind::File { mtime, read: text.map(|t| (t.to_string(), mtime)) },
    }
}

fn dir(name: &str, entries: Vec<ListedEntry>) -> ListedEntry {
    ListedEntry { name: name.to_string(), kind: ListedKind::Dir(Listing { entries }) }
}

fn shape(d: &Dir, prefix: &str, out: &mut Vec<String>) {
    for (name, node) in &d.children {
        match node {
            Node::Dir(sub) => {
                out.push(format!("{prefix}{name}/"));
                shape(sub, &format!("{prefix}{name}/"), out);
            }
            Node::File(f) => out.push(format!("{} {} {} {}", f.href, f.title, f.mtime, f.raw_md_body)),
        }
    }
}

fn listing_v1() -> Listing {
    Listing {
        entries: vec![
            file("b.md", 1, Some("# B\n\nb1")),
            file("notes.txt", 1, None),
            dir("d", vec![file("x.md", 2, Some("# X\n\nx")), dir("empty", vec![])]),
            dir("only-text", vec![file("t.txt", 3, None)]),
            ListedEntry { name: "odd".to_string(), kind: ListedKind::Unknown },
            file("a.md", 1, Some("# A\n\na1")),
        ],
    }
}

#[test]
fn refresh_builds_the_tree_from_a_listing() {
    let mut tree = MdTree::new("notes".to_string());
    tree.refresh(&listing_v1());
    let mut got = Vec::new();
    shape(&tree.root, "", &mut got);
    assert_eq!(
        got,
        vec![
            "a.md A 1 a1".to_string(),
            "b.md B 1 b1".to_string(),
            "d/".to_string(),
            "d/x.md d/X 2 x".to_string(),
        ]
    );
}

#[test]
fn refresh_is_incremental() {
    let mut tree = MdTree::new("notes".to_string());
    tree.refresh(&listing_v1());
    // a.md changed (new time), b.md unchanged and not read again, d/x.md
    // deleted, c.md added
    let listing_v2 = Listing {
        entries: vec![
            file("a.md", 5, Some("# A2\n\na2")),
            file("b.md", 1, None),
            dir("d", vec![]),
            file("c.md", 5, Some("# C\n\nc")),
        ],
    };
    tree.refresh(&listing_v2);
    let mut got = Vec::new();
    shape(&tree.root, "", &mut got);
    assert_eq!(
        got,
        vec![
            "a.md A2 5 a2".to_string(),
            "b.md B 1 b1".to_string(),
            "c.md C 5 c".to_string(),
        ]
    );
    // the same as a fresh build from the same file system
    let mut fresh = MdTree::new("notes".to_string());
    fresh.refresh(&Listing {
        entries: vec![
            file("a.md", 5, Some("# A2\n\na2")),
            file("b.md", 1, Some("# B\n\nb1")),
            dir("d", vec![]),
            file("c.md", 5, Some("# C\n\nc")),
        ],
    });
    let mut fresh_shape = Vec::new();
    shape(&fresh.root, "", &mut fresh_shape);
    assert_eq!(got, fresh_shape);
    // a changed note whose read failed, or whose text lost its title, keeps
    // its old content
    tree.refresh(&Listing {
        entries: vec![
            file("a.md", 6, None),
            file("b.md", 7, Some("no title")),
            file("c.md", 5, None),
        ],
    });
    let mut kept = Vec::new();
    shape(&tree.root, "", &mut kept);
    assert_eq!(kept, got);
}
