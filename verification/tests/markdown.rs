use mynotes::markdown::MarkdownFile;

#[test]
fn test_extract_title_success() {
    let content = "# My Title\n\nThis is the body content.";
    let result = MarkdownFile::extract_title(content);
    assert!(result.is_some());
    let (title, body) = result.unwrap();
    assert_eq!(title, "My Title");
    assert_eq!(body, "This is the body content.");
}

#[test]
fn test_extract_title_no_header() {
    let content = "Just a body\n\nNo title here.";
    let result = MarkdownFile::extract_title(content);
    assert!(result.is_none());
}

#[test]
fn test_extract_title_missing_double_newline() {
    let content = "# Title\nBody without double newline";
    let result = MarkdownFile::extract_title(content);
    assert!(result.is_none());
}

#[test]
fn test_extract_title_empty_body() {
    let content = "# Title\n\n";
    let (title, body) = MarkdownFile::extract_title(content).expect("Should parse");
    assert_eq!(title, "Title");
    assert_eq!(body, "");
}

#[test]
fn test_extract_title_multiline_body() {
    let content = "# Title\n\nLine 1\nLine 2\nLine 3";
    let (title, body) = MarkdownFile::extract_title(content).expect("Should parse");
    assert_eq!(title, "Title");
    assert_eq!(body, "Line 1\nLine 2\nLine 3");
}

#[test]
fn test_patch_md_todo_items() {
    let mut content = String::from(
        "- [ ] Unchecked\n\
         - [x] Checked\n\
           - [ ] Indented\n\
         Not a todo item",
    );
    let rel_path = "test.md";
    MarkdownFile::patch_md_todo_items(&mut content, rel_path);

    let expected = "- <label><input type=\"checkbox\" data-path=\"test.md\" data-label=\"Unchecked\"> Unchecked</label>\n\
                    - <label><input type=\"checkbox\" checked data-path=\"test.md\" data-label=\"Checked\"> Checked</label>\n\
                      - <label><input type=\"checkbox\" data-path=\"test.md\" data-label=\"Indented\"> Indented</label>\n\
                    Not a todo item";
    assert_eq!(content, expected);
}

#[test]
fn todo_items_with_indent_and_spaces() {
    let mut content = String::from("intro\n  -  [x]   done item\n-[ ]tight");
    MarkdownFile::pre_render_md_patch(&mut content, "a/b.md");
    assert_eq!(
        content,
        "intro\n  - <label><input type=\"checkbox\" checked data-path=\"a/b.md\" data-label=\"done item\"> done item</label>\n\
         - <label><input type=\"checkbox\" data-path=\"a/b.md\" data-label=\"tight\"> tight</label>"
    );
}

#[test]
fn title_without_space_is_refused() {
    assert!(MarkdownFile::extract_title("#Title\n\nbody").is_none());
    assert!(MarkdownFile::extract_title("").is_none());
    let (title, body) = MarkdownFile::extract_title("# \n\n\n").unwrap();
    assert_eq!(title, "");
    assert_eq!(body, "\n");
}
