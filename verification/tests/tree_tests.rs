use memory_viewer::memory::Project;
use memory_viewer::tree::build_tree;

fn proj(path: &str) -> Project {
    Project {
        real_path: path.into(),
        encoded: path.replace('/', "-").replace('.', "-"),
        files: vec![],
    }
}

#[test]
fn single_project_collapses_to_one_node() {
    let projects = vec![proj("/Users/me/foo")];
    let tree = build_tree(&projects);
    assert_eq!(tree.len(), 1);
    assert_eq!(tree[0].name, "Users/me/foo");
    assert_eq!(tree[0].project_key.as_deref(), Some("/Users/me/foo"));
    assert!(tree[0].children.is_empty());
}

#[test]
fn two_siblings_share_collapsed_parent() {
    let projects = vec![proj("/Users/me/foo"), proj("/Users/me/bar")];
    let tree = build_tree(&projects);
    assert_eq!(tree.len(), 1);
    assert_eq!(tree[0].name, "Users/me");
    assert!(tree[0].project_key.is_none());
    let names: Vec<&str> = tree[0].children.iter().map(|c| c.name.as_str()).collect();
    assert_eq!(names, vec!["bar", "foo"]);
}

#[test]
fn nested_project_keeps_children() {
    let projects = vec![proj("/Users/me"), proj("/Users/me/sub")];
    let tree = build_tree(&projects);
    assert_eq!(tree.len(), 1);
    assert_eq!(tree[0].name, "Users/me");
    assert_eq!(tree[0].project_key.as_deref(), Some("/Users/me"));
    assert_eq!(tree[0].children.len(), 1);
    assert_eq!(tree[0].children[0].name, "sub");
    assert_eq!(tree[0].children[0].project_key.as_deref(), Some("/Users/me/sub"));
}

#[test]
fn unrelated_paths_make_separate_roots() {
    let projects = vec![proj("/Users/me/foo"), proj("/private/tmp/x")];
    let tree = build_tree(&projects);
    assert_eq!(tree.len(), 2);
    let names: Vec<&str> = tree.iter().map(|n| n.name.as_str()).collect();
    assert_eq!(names, vec!["Users/me/foo", "private/tmp/x"]);
}
