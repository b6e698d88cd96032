use memory_viewer::paths::{build_lookup, naive_decode, parse_claude_json, re_encode, resolve, Lookup};

#[test]
fn re_encode_replaces_slash_and_dot() {
    assert_eq!(
        re_encode("/Users/glasser/Projects/Apollo/monorepo.git"),
        "-Users-glasser-Projects-Apollo-monorepo-git",
    );
}

#[test]
fn re_encode_leaves_normal_chars_alone() {
    assert_eq!(re_encode("foo-bar_baz"), "foo-bar_baz");
}

#[test]
fn naive_decode_replaces_dash_with_slash() {
    assert_eq!(naive_decode("-Users-glasser-foo"), "/Users/glasser/foo");
}

#[test]
fn build_lookup_indexes_projects_by_encoded_form() {
    let json = parse_claude_json(
        r#"{
            "projects": {
                "/Users/me/foo": {},
                "/Users/me/bar.git": {}
            }
        }"#,
    );
    let lookup = build_lookup(&json);
    assert_eq!(lookup.get("-Users-me-foo"), Some(&"/Users/me/foo".to_string()));
    assert_eq!(lookup.get("-Users-me-bar-git"), Some(&"/Users/me/bar.git".to_string()));
}

#[test]
fn build_lookup_handles_missing_projects_key() {
    let json = parse_claude_json("{}");
    assert!(build_lookup(&json).is_empty());
}

#[test]
fn resolve_uses_lookup_when_present() {
    let mut lookup = Lookup::new();
    lookup.insert("-Users-me-bar-git".to_string(), "/Users/me/bar.git".to_string());
    assert_eq!(resolve("-Users-me-bar-git", &lookup), "/Users/me/bar.git");
}

#[test]
fn resolve_falls_back_to_naive_decode() {
    let lookup = Lookup::new();
    assert_eq!(resolve("-Users-me-foo", &lookup), "/Users/me/foo");
}
