use mynotes::config::AppConfig;
use mynotes::date::CalDate;
use mynotes::mdtree::{MdFile, MdTree, Node};
use mynotes::render::{
    add_cache_busting, fill_template, get_body_index, get_body_md, patch_md_checkbox_tasks,
    static_resources, HtmlTemplate,
};

#[test]
fn test_patch_md_checkbox_tasks() {
    let mut content = String::from(
        r"- [ ] Unchecked
- [x] Checked
  - [ ] Indented
- [ ] 2026-05-30 Today
- [x] 2027-06-06 Far future
Not a todo item",
    );
    let rel_path = "test.md";
    let config = AppConfig::default();
    let now = CalDate::parse_iso("2026-05-30").unwrap();
    patch_md_checkbox_tasks(&mut content, rel_path, &config, &now);

    let expected = r#"- <label><input type="checkbox" data-url="/test.md" data-label="Unchecked"> Unchecked</label>
- <label><input type="checkbox" checked data-url="/test.md" data-label="Checked"> Checked</label>
  - <label><input type="checkbox" data-url="/test.md" data-label="Indented"> Indented</label>
- <label><input type="checkbox" data-url="/test.md" data-label="Today"> <span class="mynotes-date mynotes-date-warn">2026-05-30</span> Today</label>
- <label><input type="checkbox" checked data-url="/test.md" data-label="Far future"> <span class="mynotes-date mynotes-date-ok">2027-06-06</span> Far future</label>
Not a todo item"#;
    assert_eq!(content, expected);
}

fn tree() -> MdTree {
    let mut tree = MdTree::new(String::new());
    tree.root.insert(
        "b.md".to_string(),
        Node::File(
            MdFile::from_content(
                "b.md",
                "# B\n\n- [ ] 2026-06-10 later\n- [ ] 2026-05-01 late\n- [ ] 2027-01-01 far\n",
                0,
            )
            .unwrap(),
        ),
    );
    tree.root.insert(
        "a.md".to_string(),
        Node::File(MdFile::from_content("a.md", "# A\n\n- [ ] 2026-06-10 same day\n", 0).unwrap()),
    );
    tree
}

#[test]
fn index_lists_due_actions_by_date() {
    let config = AppConfig::default();
    let now = CalDate::parse_iso("2026-05-30").unwrap();
    let html = get_body_index(&tree(), &config, &now);
    let expected = [
        "<h2>Due actions</h2><ul>",
        r#"<li><label><input type="checkbox" data-url="/b.md" data-label="late"> <span class="mynotes-date mynotes-date-alert">2026-05-01</span> late - <a href="b.md">B</a></label></li>"#,
        r#"<li><label><input type="checkbox" data-url="/a.md" data-label="same day"> <span class="mynotes-date mynotes-date-warn">2026-06-10</span> same day - <a href="a.md">A</a></label></li>"#,
        r#"<li><label><input type="checkbox" data-url="/b.md" data-label="later"> <span class="mynotes-date mynotes-date-warn">2026-06-10</span> later - <a href="b.md">B</a></label></li>"#,
        "</ul><h2>Notes</h2><ul>",
        r#"<li><a href="a.md">A</a></li><li><a href="b.md">B</a></li>"#,
        "</ul>",
    ]
    .join("");
    assert_eq!(html, expected);
}

#[test]
fn index_of_nothing() {
    let config = AppConfig::default();
    let now = CalDate::parse_iso("2026-05-30").unwrap();
    assert_eq!(get_body_index(&MdTree::new(String::new()), &config, &now), "<h2>No content</h2>");
    let mut t = MdTree::new(String::new());
    t.root.insert(
        "n.md".to_string(),
        Node::File(MdFile::from_content("n.md", "# N\n\ntext", 0).unwrap()),
    );
    assert_eq!(
        get_body_index(&t, &config, &now),
        r#"<h2>Due actions</h2>None<h2>Notes</h2><ul><li><a href="n.md">N</a></li></ul>"#
    );
    let mut custom = AppConfig::default();
    custom.due_action.title = "Todo".to_string();
    custom.due_action.empty_str = "Nothing due".to_string();
    assert_eq!(
        get_body_index(&t, &custom, &now),
        r#"<h2>Todo</h2>Nothing due<h2>Notes</h2><ul><li><a href="n.md">N</a></li></ul>"#
    );
}

#[test]
fn note_page_body() {
    let config = AppConfig::default();
    let now = CalDate::parse_iso("2026-05-30").unwrap();
    let f = MdFile::from_content("n.md", "# N\n\nPrice: 12.50€\n\n- [ ] 2026-05-30 pay\n", 0).unwrap();
    let html = get_body_md(&f, &config, &now);
    assert!(html.contains(r#"<span class="mynotes-money">12.50 €</span>"#));
    assert!(html.contains(r#"data-url="/n.md" data-label="pay""#));
    assert!(html.contains("mynotes-date-warn"));
    assert!(html.starts_with("<p>"));
}

#[test]
fn template_is_filled() {
    assert_eq!(
        fill_template("<title>%TITLE%</title><body>%CONTENT% %TITLE%</body>", "T", "B"),
        "<title>T</title><body>B T</body>"
    );
    // the title is replaced first, so a title holding %CONTENT% gets the body too
    assert_eq!(fill_template("%TITLE%", "%CONTENT%", "B"), "B");
    assert_eq!(fill_template("none", "T", "B"), "none");
}

#[test]
fn template_cache() {
    let mut t = HtmlTemplate::new("tpl.html".into());
    assert!(t.needs_reload(5));
    t.reload("x".to_string(), 5);
    assert!(!t.needs_reload(5));
    assert_eq!(t.get_content(), "x");
    assert_eq!(t.path, "tpl.html");
}

#[test]
fn cache_busting_of_local_resources() {
    let html = r#"<link rel="stylesheet" href="/style.css"><script src="https://cdn/x.js"></script><img alt="a" src="/img/a.png" data-href="b.png"><a href="x">"#;
    let res = static_resources(html);
    let paths: Vec<(&str, bool)> = res.iter().map(|(p, l)| (p.as_str(), *l)).collect();
    assert_eq!(
        paths,
        vec![("/style.css", true), ("https://cdn/x.js", false), ("b.png", true)]
    );
    let out = add_cache_busting(html, &vec![Some(10), None, Some(12)]);
    assert_eq!(
        out,
        r#"<link rel="stylesheet" href="/style.css?mtime=10"><script src="https://cdn/x.js"></script><img alt="a" src="/img/a.png" data-href="b.png?mtime=12"><a href="x">"#
    );
    let hidden = add_cache_busting(r#"<img src="/.secret/a.png">"#, &vec![Some(3)]);
    assert_eq!(hidden, r#"<img src="/.secret/a.png">"#);
}

#[test]
fn template_read_again_only_when_changed() {
    let mut t = HtmlTemplate::new("tpl.html".into());
    // first look: the file has time 5, it is read
    assert!(t.refresh_content(5, Some("a".to_string())));
    assert_eq!(t.get_content(), "a");
    // same time: the cache stays, whatever a read would give
    assert!(t.refresh_content(5, Some("b".to_string())));
    assert_eq!(t.get_content(), "a");
    assert!(t.refresh_content(5, None));
    assert_eq!(t.get_content(), "a");
    // changed time, read failed: nothing changes
    assert!(!t.refresh_content(6, None));
    assert_eq!(t.get_content(), "a");
    assert_eq!(t.mtime, 5);
    // changed time, read done
    assert!(t.refresh_content(6, Some("c".to_string())));
    assert_eq!(t.get_content(), "c");
    assert_eq!(t.mtime, 6);
}
