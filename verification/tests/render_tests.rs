use memory_viewer::memory::{MemoryFile, Project};
use memory_viewer::render::{html_escape, render_markdown, render_page};
use memory_viewer::tree::build_tree;

#[test]
fn html_escape_handles_metachars() {
    assert_eq!(html_escape("<a&b>\"'"), "&lt;a&amp;b&gt;&quot;&#39;");
}

#[test]
fn render_markdown_emits_html() {
    let html = render_markdown("# hello");
    assert!(html.contains("<h1>"));
    assert!(html.contains("hello"));
}

#[test]
fn render_markdown_supports_gfm_table() {
    let md = "| a | b |\n|---|---|\n| 1 | 2 |\n";
    let html = render_markdown(md);
    assert!(html.contains("<table>"));
}

#[test]
fn render_markdown_strips_raw_html() {
    let html = render_markdown("<script>alert(1)</script>\n\nhello");
    assert!(!html.contains("<script>"));
    assert!(html.contains("hello"));
}

#[test]
fn render_page_includes_tree_and_articles() {
    let project = Project {
        real_path: "/Users/me/foo".into(),
        encoded: "-Users-me-foo".into(),
        files: vec![MemoryFile {
            name: "MEMORY.md".into(),
            frontmatter: vec![("type".into(), "feedback".into())],
            body: "# hi".into(),
            mtime: std::time::SystemTime::UNIX_EPOCH,
        }],
    };
    let projects = vec![project];
    let tree = build_tree(&projects);
    let html = render_page(&tree, &projects);
    assert!(html.contains("data-key=\"/Users/me/foo\""));
    assert!(html.contains("MEMORY.md"));
    assert!(html.contains("<dt>type</dt>"));
    assert!(html.contains("<h1>hi</h1>"));
}
