use lector::tree::{dump_tree_lines, expand_to_path, find_cursor_for_path, NodeKind, TreeNode};
use lector::tree_fs::{
    readme_from_answers,
    rescan_tree,
    collect_expanded_dirs, find_node, is_document, listing_from_walk, merge_listing, ListedEntry,
    WalkEntry,
};

fn sample() -> TreeNode {
    let deep = TreeNode::file("deep.md".to_string(), "/r/a/b/deep.md".to_string());
    let b = TreeNode::directory("b".to_string(), "/r/a/b".to_string(), vec![deep]);
    let a = TreeNode::directory("a".to_string(), "/r/a".to_string(), vec![b]);
    let readme = TreeNode::file("readme.md".to_string(), "/r/readme.md".to_string());
    let mut root = TreeNode::directory("r".to_string(), "/r".to_string(), vec![a, readme]);
    root.set_expanded(true);
    root
}

fn paths(tree: &TreeNode) -> Vec<String> {
    tree.flatten(0).iter().map(|e| e.node.path.clone()).collect()
}

#[test]
fn toggling_shows_and_hides_children() {
    let mut tree = sample();
    assert_eq!(paths(&tree), vec!["/r", "/r/a", "/r/readme.md"]);
    assert!(tree.toggle_at_path("/r/a"));
    assert_eq!(paths(&tree), vec!["/r", "/r/a", "/r/a/b", "/r/readme.md"]);
    assert!(tree.toggle_at_path("/r/a/"));
    assert_eq!(paths(&tree), vec!["/r", "/r/a", "/r/readme.md"]);
    assert!(!tree.toggle_at_path("/elsewhere"));
    let flat = tree.flatten(0);
    assert_eq!(flat[1].depth, 1);
}

#[test]
fn expanding_to_a_path_opens_every_ancestor() {
    let mut tree = sample();
    expand_to_path(&mut tree, "/r/a/b/deep.md");
    assert_eq!(paths(&tree), vec!["/r", "/r/a", "/r/a/b", "/r/a/b/deep.md", "/r/readme.md"]);
    assert_eq!(find_cursor_for_path(&tree, "/r/a/b/deep.md"), Some(3));
    assert_eq!(find_cursor_for_path(&tree, "/r/nothing"), None);
    let dirs: Vec<String> = collect_expanded_dirs(&tree);
    assert_eq!(dirs, vec!["/r", "/r/a", "/r/a/b"]);
}

#[test]
fn dump_lines_mark_directories() {
    let mut tree = sample();
    tree.toggle_at_path("/r/a");
    assert_eq!(dump_tree_lines(&tree, 0), vec!["▾ r", "  ▾ a", "    ▸ b", "    readme.md"]);
}

#[test]
fn find_node_follows_prefixes() {
    let tree = sample();
    assert_eq!(find_node(&tree, "/r/a/b").map(|n| n.name.clone()), Some("b".to_string()));
    assert!(find_node(&tree, "/x").is_none());
    assert!(tree.children().unwrap()[0].is_dir());
    assert!(!tree.children().unwrap()[1].is_expanded());
}

#[test]
fn merged_listing_keeps_known_directories() {
    let tree = sample();
    let mut previous = match tree.kind {
        NodeKind::Directory { children, .. } => children,
        NodeKind::File => vec![],
    };
    previous[0].set_expanded(true);
    let listing = vec![
        ListedEntry { path: "/r/a".to_string(), is_dir: true },
        ListedEntry { path: "/r/new.md".to_string(), is_dir: false },
        ListedEntry { path: "/r/b2".to_string(), is_dir: true },
    ];
    let merged = merge_listing(previous, &listing);
    let names: Vec<&str> = merged.iter().map(|n| n.name.as_str()).collect();
    assert_eq!(names, vec!["a", "b2", "new.md"]);
    assert!(merged[0].is_expanded());
    assert_eq!(merged[0].children().unwrap().len(), 1);
    assert!(merged[1].is_dir() && !merged[1].is_expanded());
    assert!(merged[1].children().unwrap().is_empty());
    assert!(!merged[2].is_dir());
}

#[test]
fn walk_entries_become_a_listing() {
    let walk = vec![
        WalkEntry { path: "/r".to_string(), depth: 0, file_type: Some((false, true)) },
        WalkEntry { path: "/r/d".to_string(), depth: 1, file_type: Some((false, true)) },
        WalkEntry { path: "/r/f".to_string(), depth: 1, file_type: Some((false, false)) },
        WalkEntry { path: "/".to_string(), depth: 1, file_type: None },
    ];
    let l = listing_from_walk(walk);
    let got: Vec<(&str, bool)> = l.iter().map(|e| (e.path.as_str(), e.is_dir)).collect();
    assert_eq!(got, vec![("/r/d", true), ("/r/f", false), ("/", true)]);
}

#[test]
fn document_extensions() {
    for p in ["a.md", "b.markdown", "c.mkd", "d.mdx", "e.rst", "f.rest", "g.org", "h.txt"] {
        assert!(is_document(p), "{p}");
    }
    for p in ["a.rs", "README", "x.MD", "dir/"] {
        assert!(!is_document(p), "{p}");
    }
}

#[test]
fn scanning_lists_directories_before_files() {
    let tree = lector::tree_fs::scan_directory("/", false);
    assert_eq!(tree.name, "/");
    assert!(tree.is_dir() && tree.is_expanded());
    let children = tree.children().unwrap();
    assert!(!children.is_empty());
    let first_file = children.iter().position(|c| !c.is_dir()).unwrap_or(children.len());
    assert!(children[first_file..].iter().all(|c| !c.is_dir()));
    assert!(children.iter().all(|c| c.path.starts_with('/') && !c.name.is_empty()));
    let dirs: Vec<&str> = children[..first_file].iter().map(|c| c.name.as_str()).collect();
    let mut sorted = dirs.clone();
    sorted.sort();
    assert_eq!(dirs, sorted);
}

#[test]
fn expanded_dirs_are_the_expanded_flattened_entries() {
    let mut tree = sample();
    tree.toggle_at_path("/r/a");
    let from_flat: Vec<String> = tree
        .flatten(0)
        .iter()
        .filter(|e| e.node.is_expanded())
        .map(|e| e.node.path.clone())
        .collect();
    assert_eq!(collect_expanded_dirs(&tree), from_flat);
    assert_eq!(from_flat, vec!["/r", "/r/a"]);
}

#[test]
fn rescanning_rereads_expanded_directories_only() {
    let mut tree = sample();
    tree.path = "/no/such/r".to_string();
    rescan_tree(&mut tree, false);
    assert_eq!(tree.path, "/no/such/r");
    assert!(tree.is_expanded());
    assert_eq!(tree.children().map(|c| c.len()), Some(0));
    let mut collapsed = sample();
    collapsed.set_expanded(false);
    rescan_tree(&mut collapsed, false);
    assert_eq!(collapsed.children().map(|c| c.len()), Some(2));
}

#[test]
fn children_can_be_changed_in_place() {
    let mut tree = sample();
    tree.children_mut().unwrap().pop();
    assert_eq!(paths(&tree), vec!["/r", "/r/a"]);
    let mut file = TreeNode::file("f".to_string(), "/f".to_string());
    assert!(file.children_mut().is_none());
}

#[test]
fn readme_is_the_first_found_in_priority_order() {
    assert_eq!(readme_from_answers("/d", &[false, true, true, false, false]), Some("/d/README.org".to_string()));
    assert_eq!(readme_from_answers("/d", &[true, false, false, false, true]), Some("/d/README.md".to_string()));
    assert_eq!(readme_from_answers("/d", &[false; 5]), None);
}

#[test]
fn height_counts_levels() {
    let f = TreeNode::file("f".to_string(), "/r/a/f".to_string());
    let a = TreeNode::directory("a".to_string(), "/r/a".to_string(), vec![f]);
    let r = TreeNode::directory("r".to_string(), "/r".to_string(), vec![a]);
    assert_eq!(lector::tree_fs::height_capped(&r), 3);
    assert_eq!(lector::tree_fs::height_capped(&TreeNode::file("g".to_string(), "/g".to_string())), 1);
}
