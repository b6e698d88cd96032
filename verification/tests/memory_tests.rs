use memory_viewer::memory::parse_file;

#[test]
fn parse_file_with_frontmatter() {
    let content = "---\nname: Foo\ntype: feedback\n---\nBody text\nMore.\n";
    let (fm, body) = parse_file(content);
    assert_eq!(
        fm,
        vec![
            ("name".to_string(), "Foo".to_string()),
            ("type".to_string(), "feedback".to_string()),
        ]
    );
    assert_eq!(body, "Body text\nMore.\n");
}

#[test]
fn parse_file_without_frontmatter() {
    let content = "Just body text\n";
    let (fm, body) = parse_file(content);
    assert!(fm.is_empty());
    assert_eq!(body, "Just body text\n");
}

#[test]
fn parse_file_malformed_no_close() {
    let content = "---\nname: Foo\nbody but no close marker\n";
    let (fm, body) = parse_file(content);
    assert!(fm.is_empty());
    assert_eq!(body, content);
}

#[test]
fn parse_file_handles_value_with_colon() {
    let content = "---\nurl: https://example.com\n---\nbody\n";
    let (fm, _) = parse_file(content);
    assert_eq!(fm, vec![("url".to_string(), "https://example.com".to_string())]);
}
