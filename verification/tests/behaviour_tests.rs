use std::time::SystemTime;

use memory_viewer::memory::{is_memory_file_name, parse_file, scan_all, MemoryFile, Project, ProjectDir};
use memory_viewer::paths::{build_lookup, naive_decode, parse_claude_json, re_encode, resolve, ClaudeJson};
use memory_viewer::render::{html_escape, render_markdown, render_page};
use memory_viewer::tree::{build_tree, path_segments};

fn note(name: &str, content: &str) -> MemoryFile {
    let (frontmatter, body) = parse_file(content);
    MemoryFile { name: name.to_string(), frontmatter, body, mtime: SystemTime::UNIX_EPOCH }
}

fn project(path: &str) -> Project {
    Project { real_path: path.to_string(), encoded: re_encode(path), files: vec![] }
}

#[test]
fn re_encode_output_has_no_separators() {
    let e = re_encode("/a.b/c.d/.hidden");
    assert_eq!(e, "-a-b-c-d--hidden");
    assert!(!e.contains('/') && !e.contains('.'));
    assert_eq!(e.chars().count(), "/a.b/c.d/.hidden".chars().count());
}

#[test]
fn naive_decode_encodes_back() {
    let name = "-Users-me-my-project";
    assert_eq!(naive_decode(name), "/Users/me/my/project");
    assert_eq!(re_encode(&naive_decode(name)), name);
}

#[test]
fn resolve_result_encodes_back() {
    let json = parse_claude_json(r#"{"projects": {"/Users/me/my-app.git": {}}}"#);
    let lookup = build_lookup(&json);
    for name in ["-Users-me-my-app-git", "-Users-me-other-thing"] {
        assert_eq!(re_encode(&resolve(name, &lookup)), name);
    }
    assert_eq!(resolve("-Users-me-my-app-git", &lookup), "/Users/me/my-app.git");
    assert_eq!(resolve("-Users-me-other-thing", &lookup), "/Users/me/other/thing");
}

#[test]
fn build_lookup_later_key_wins_on_collision() {
    // serde_json lists object keys in order; "/a.b" comes before "/a/b".
    let json = parse_claude_json(r#"{"projects": {"/a/b": {}, "/a.b": {}}}"#);
    assert_eq!(json.projects, Some(vec!["/a.b".to_string(), "/a/b".to_string()]));
    let lookup = build_lookup(&json);
    assert_eq!(lookup.len(), 1);
    assert_eq!(lookup.get("-a-b"), Some(&"/a/b".to_string()));
}

#[test]
fn parse_claude_json_rejects_what_is_no_object() {
    assert!(parse_claude_json("not json").projects.is_none());
    assert!(parse_claude_json(r#"{"projects": 3}"#).projects.is_none());
    assert!(parse_claude_json("[1, 2]").projects.is_none());
    assert_eq!(parse_claude_json(r#"{"projects": {}}"#).projects, Some(vec![]));
    assert!(build_lookup(&ClaudeJson { projects: None }).is_empty());
}

#[test]
fn parse_file_trims_and_skips_lines_without_colon() {
    let content = "---\n  name :  Foo  \r\nno colon here\n\tkey:\tvalue:with:colons\t\n---\nbody";
    let (fm, body) = parse_file(content);
    assert_eq!(
        fm,
        vec![
            ("name".to_string(), "Foo".to_string()),
            ("key".to_string(), "value:with:colons".to_string()),
        ]
    );
    assert_eq!(body, "body");
    let (fm, body) = parse_file("---\r\nname: Foo\n---\nbody");
    assert!(fm.is_empty());
    assert_eq!(body, "---\r\nname: Foo\n---\nbody");
}

#[test]
fn parse_file_opening_marker_needs_a_newline_before_the_close() {
    let content = "---\n---\nbody\n";
    let (fm, body) = parse_file(content);
    assert!(fm.is_empty());
    assert_eq!(body, content);
    let (fm, body) = parse_file("---\n\n---\nrest");
    assert!(fm.is_empty());
    assert_eq!(body, "rest");
}

#[test]
fn parse_file_body_is_a_suffix_of_the_content() {
    for content in ["", "---\n", "---\na: b\n---\n", "x\n---\na: b\n---\n", "---\na: b\n---\n---\nc: d\n---\ntail"] {
        let (_, body) = parse_file(content);
        assert!(content.ends_with(body.as_str()));
    }
    let (fm, body) = parse_file("---\na: b\n---\n---\nc: d\n---\ntail");
    assert_eq!(fm, vec![("a".to_string(), "b".to_string())]);
    assert_eq!(body, "---\nc: d\n---\ntail");
}

#[test]
fn memory_file_names_need_the_md_extension() {
    assert!(is_memory_file_name("MEMORY.md"));
    assert!(is_memory_file_name("a.md"));
    assert!(is_memory_file_name("..md"));
    assert!(!is_memory_file_name(".md"));
    assert!(!is_memory_file_name("notes.MD"));
    assert!(!is_memory_file_name("notes.md.bak"));
    assert!(!is_memory_file_name("md"));
}

#[test]
fn scan_all_orders_projects_and_notes() {
    let json = parse_claude_json(r#"{"projects": {"/Users/me/web.app": {}}}"#);
    let dirs = vec![
        ProjectDir {
            encoded: "-Users-me-web-app".to_string(),
            files: vec![note("zeta.md", "z"), note("notes.txt", "t"), note("MEMORY.md", "# index"), note("alpha.md", "a")],
        },
        ProjectDir { encoded: "-Users-me-empty".to_string(), files: vec![note("readme.txt", "x")] },
        ProjectDir { encoded: "-Users-me-api".to_string(), files: vec![note("b.md", "b"), note("a.md", "a")] },
    ];
    let projects = scan_all(&json, dirs);
    assert_eq!(projects.len(), 2);
    assert_eq!(projects[0].real_path, "/Users/me/api");
    assert_eq!(projects[0].encoded, "-Users-me-api");
    let names: Vec<&str> = projects[0].files.iter().map(|f| f.name.as_str()).collect();
    assert_eq!(names, vec!["a.md", "b.md"]);
    assert_eq!(projects[1].real_path, "/Users/me/web.app");
    let names: Vec<&str> = projects[1].files.iter().map(|f| f.name.as_str()).collect();
    assert_eq!(names, vec!["MEMORY.md", "alpha.md", "zeta.md"]);
    assert_eq!(projects[1].files[0].body, "# index");
}

#[test]
fn scan_all_orders_by_code_point() {
    let dirs = vec![
        ProjectDir { encoded: "-b".to_string(), files: vec![note("x.md", "")] },
        ProjectDir { encoded: "-B".to_string(), files: vec![note("x.md", "")] },
        ProjectDir { encoded: "-a".to_string(), files: vec![note("x.md", "")] },
    ];
    let projects = scan_all(&ClaudeJson { projects: None }, dirs);
    let paths: Vec<&str> = projects.iter().map(|p| p.real_path.as_str()).collect();
    assert_eq!(paths, vec!["/B", "/a", "/b"]);
}

#[test]
fn path_segments_drop_empty_parts() {
    assert_eq!(path_segments("//a///b/"), vec!["a".to_string(), "b".to_string()]);
    assert!(path_segments("/").is_empty());
    assert!(path_segments("").is_empty());
}

#[test]
fn build_tree_collapses_long_chains_and_skips_rootless_paths() {
    let projects = vec![project("/a/b/c/d"), project("/a/b/c/e/f"), project("/")];
    let tree = build_tree(&projects);
    assert_eq!(tree.len(), 1);
    assert_eq!(tree[0].name, "a/b/c");
    assert!(tree[0].project_key.is_none());
    let names: Vec<&str> = tree[0].children.iter().map(|c| c.name.as_str()).collect();
    assert_eq!(names, vec!["d", "e/f"]);
    assert_eq!(tree[0].children[1].project_key.as_deref(), Some("/a/b/c/e/f"));
}

#[test]
fn build_tree_keeps_the_last_of_equal_segment_paths() {
    let projects = vec![project("/x/y"), project("x//y/")];
    let tree = build_tree(&projects);
    assert_eq!(tree.len(), 1);
    assert_eq!(tree[0].name, "x/y");
    assert_eq!(tree[0].project_key.as_deref(), Some("x//y/"));
}

#[test]
fn html_escape_leaves_other_text_alone() {
    assert_eq!(html_escape("plain text; é"), "plain text; é");
    assert_eq!(html_escape("&amp;"), "&amp;amp;");
    let e = html_escape("<\"'>&");
    assert!(!e.contains('<') && !e.contains('>') && !e.contains('"') && !e.contains('\''));
}

#[test]
fn render_markdown_renders_emphasis_and_strikethrough() {
    let html = render_markdown("*a* ~~b~~");
    assert_eq!(html, "<p><em>a</em> <del>b</del></p>\n");
}

#[test]
fn render_page_empty_tree_message() {
    let html = render_page(&[], &[]);
    assert!(html.starts_with("<!doctype html>\n"));
    assert!(html.contains("<p class=\"empty-tree\">No auto-memory found.</p>"));
    assert!(html.ends_with("</script></body></html>"));
}

#[test]
fn render_page_folder_that_is_a_project() {
    let projects = vec![project("/w/p"), project("/w/p/q\"<")];
    let tree = build_tree(&projects);
    let html = render_page(&tree, &projects);
    assert!(html.contains("<details open><summary>w/p</summary><button class=\"proj self\" data-key=\"/w/p\">(this folder)</button>"));
    assert!(html.contains("<button class=\"proj\" data-key=\"/w/p/q&quot;&lt;\">q&quot;&lt;</button>"));
    assert!(html.contains("<article class=\"proj-view\" data-key=\"/w/p\" hidden><h1>/w/p</h1></article>"));
}

#[test]
fn render_page_frontmatter_and_body() {
    let mut p = project("/r");
    p.files.push(note("MEMORY.md", "---\nname: N\ntype: user\n---\nhello\n"));
    p.files.push(note("plain.md", "just text"));
    let projects = vec![p];
    let html = render_page(&build_tree(&projects), &projects);
    assert!(html.contains(
        "<section class=\"file\" data-file=\"MEMORY.md\"><h2>MEMORY.md</h2><dl class=\"frontmatter\"><dt>name</dt><dd>N</dd><dt>type</dt><dd>user</dd></dl><div class=\"body\"><p>hello</p>\n</div></section>"
    ));
    assert!(html.contains("<section class=\"file\" data-file=\"plain.md\"><h2>plain.md</h2><div class=\"body\"><p>just text</p>\n</div></section>"));
}

#[test]
fn tree_html_has_each_key_once() {
    let projects = vec![project("/a"), project("/a/b"), project("/a/c"), project("/x/y"), project("/q \"&")];
    let tree = build_tree(&projects);
    let html = render_page(&tree, &projects);
    let start = html.find("<aside id=\"tree\">").unwrap();
    let end = html.find("</aside>").unwrap();
    let aside = &html[start..end];
    for p in &projects {
        let attr = format!("data-key=\"{}\"", html_escape(&p.real_path));
        assert_eq!(aside.matches(attr.as_str()).count(), 1);
    }
    assert_eq!(aside.matches("data-key=\"").count(), projects.len());
}

#[test]
fn tree_does_not_depend_on_project_order() {
    let a = vec![project("/Users/me/foo"), project("/Users/me/bar"), project("/Users/me"), project("/opt/x")];
    let b = vec![project("/opt/x"), project("/Users/me"), project("/Users/me/bar"), project("/Users/me/foo")];
    assert_eq!(render_page(&build_tree(&a), &[]), render_page(&build_tree(&b), &[]));
}

#[test]
fn tree_order_independence_with_a_root_path() {
    let a = vec![project("/"), project("/Users/me/foo"), project("/"), project("/Users/me/bar")];
    let b = vec![project("/Users/me/bar"), project("/"), project("/Users/me/foo"), project("/")];
    assert_eq!(render_page(&build_tree(&a), &[]), render_page(&build_tree(&b), &[]));
}
