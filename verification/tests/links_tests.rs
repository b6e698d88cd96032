use std::time::SystemTime;

use memory_viewer::links::{rewrite_links, uri_component};
use memory_viewer::memory::{parse_file, MemoryFile, Project};
use memory_viewer::render::render_page;
use memory_viewer::tree::build_tree;

fn names(v: &[&str]) -> Vec<String> {
    v.iter().map(|s| s.to_string()).collect()
}

#[test]
fn uri_component_keeps_unreserved_characters() {
    assert_eq!(uri_component("AZaz09-_.!~*'()"), "AZaz09-_.!~*'()");
}

#[test]
fn uri_component_escapes_reserved_ascii() {
    assert_eq!(uri_component("/Users/me/foo.git"), "%2FUsers%2Fme%2Ffoo.git");
    assert_eq!(uri_component("a b&\"<>#%"), "a%20b%26%22%3C%3E%23%25");
}

#[test]
fn uri_component_escapes_utf8_bytes() {
    assert_eq!(uri_component("é"), "%C3%A9");
    assert_eq!(uri_component("€"), "%E2%82%AC");
    assert_eq!(uri_component("😀"), "%F0%9F%98%80");
    assert_eq!(uri_component(""), "");
}

#[test]
fn rewrite_links_points_note_links_at_their_sections() {
    let html = "<p><a href=\"feedback_x.md\">foo</a> and <a href=\"other.md\">o</a></p>\n";
    let out = rewrite_links(html, "/Users/me/p", &names(&["MEMORY.md", "feedback_x.md"]));
    assert_eq!(
        out,
        "<p><a href=\"#%2FUsers%2Fme%2Fp/feedback_x.md\">foo</a> and <a href=\"other.md\">o</a></p>\n"
    );
}

#[test]
fn rewrite_links_leaves_variants_of_a_name() {
    let html = "<a href=\"./bar.md\">a</a><a href=\"bar.md#s\">b</a><a href=\"https://x/bar.md\">c</a>";
    assert_eq!(rewrite_links(html, "/p", &names(&["bar.md"])), html);
}

#[test]
fn rewrite_links_without_names_changes_nothing() {
    let html = "<a href=\"MEMORY.md\">m</a> text <a href=\"";
    assert_eq!(rewrite_links(html, "/p", &[]), html);
}

#[test]
fn rewrite_links_keeps_an_unclosed_link() {
    let html = "x <a href=\"bar.md";
    assert_eq!(rewrite_links(html, "/p", &names(&["bar.md"])), html);
}

#[test]
fn rewrite_links_encodes_unusual_names() {
    let html = "<a href=\"a b.md\">x</a>";
    assert_eq!(rewrite_links(html, "/p q", &names(&["a b.md"])), "<a href=\"#%2Fp%20q/a%20b.md\">x</a>");
}

#[test]
fn render_page_rewrites_intra_project_links() {
    let (fm, body) = parse_file("# Index\n\n- [foo](feedback_xxx.md) note\n- [elsewhere](nope.md)\n");
    let index = MemoryFile { name: "MEMORY.md".to_string(), frontmatter: fm, body, mtime: SystemTime::UNIX_EPOCH };
    let (fm, body) = parse_file("---\nname: foo\n---\nbody\n");
    let fb = MemoryFile { name: "feedback_xxx.md".to_string(), frontmatter: fm, body, mtime: SystemTime::UNIX_EPOCH };
    let projects = vec![Project { real_path: "/r".to_string(), encoded: "-r".to_string(), files: vec![index, fb] }];
    let html = render_page(&build_tree(&projects), &projects);
    assert!(html.contains("<a href=\"#%2Fr/feedback_xxx.md\">foo</a>"));
    assert!(html.contains("<a href=\"nope.md\">elsewhere</a>"));
    assert!(html.contains("<section class=\"file\" data-file=\"feedback_xxx.md\"><h2>feedback_xxx.md</h2>"));
}
