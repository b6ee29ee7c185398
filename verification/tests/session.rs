use lector::document::{Document, Format};
use lector::session::{
    first_file_of, link_from_answers,
    directory_for, directory_from_answer, document_response, initial_file, open_directory, reroot_for_file, refresh_tree,
    resolve_link, root_for_directory, set_tree_root, tree_entries,
};
use lector::tree::TreeNode;

fn sample() -> TreeNode {
    let inner = TreeNode::file("inner.md".to_string(), "/r/a/inner.md".to_string());
    let a = TreeNode::directory("a".to_string(), "/r/a".to_string(), vec![inner]);
    let readme = TreeNode::file("readme.md".to_string(), "/r/readme.md".to_string());
    let mut root = TreeNode::directory("r".to_string(), "/r".to_string(), vec![a, readme]);
    root.set_expanded(true);
    root
}

#[test]
fn entries_list_visible_nodes_and_mark_the_current_file() {
    let tree = sample();
    let es = tree_entries(&tree, Some("/r/readme.md"));
    let got: Vec<(&str, &str, usize, bool, bool, bool)> = es
        .iter()
        .map(|e| (e.name.as_str(), e.path.as_str(), e.depth, e.is_dir, e.is_expanded, e.is_current))
        .collect();
    assert_eq!(
        got,
        vec![
            ("r", "/r", 0, true, true, false),
            ("a", "/r/a", 1, true, false, false),
            ("readme.md", "/r/readme.md", 1, false, false, true),
        ]
    );
    let none = tree_entries(&tree, None);
    assert!(none.iter().all(|e| !e.is_current));
    let by_components = tree_entries(&tree, Some("/r//readme.md"));
    assert!(by_components[2].is_current);
}

#[test]
fn directory_of_a_target() {
    assert_eq!(directory_for("/"), "/");
    assert_eq!(directory_for("/no/such/file.md"), "/no/such");
    assert_eq!(root_for_directory("/"), "/");
}

#[test]
fn directory_from_the_file_system_answer() {
    assert_eq!(directory_from_answer("/a/b", true), "/a/b");
    assert_eq!(directory_from_answer("/a/b.md", false), "/a");
    assert_eq!(directory_from_answer("/", false), "/");
}

#[test]
fn setting_the_root_scans_the_directory_of_a_file() {
    let mut tree = sample();
    let root = set_tree_root(&mut tree, "/no/such/file.md", Some("/elsewhere/x.md"), false);
    assert_eq!(root, "/no/such");
    assert_eq!(tree.path, "/no/such");
    assert_eq!(tree.name, "such");
    assert!(tree.is_expanded());
    assert_eq!(tree.children().map(|c| c.len()), Some(0));
}

#[test]
fn refreshing_rescans_from_the_root() {
    let mut tree = sample();
    tree.path = "/no/such/dir".to_string();
    refresh_tree(&mut tree, false);
    assert_eq!(tree.path, "/no/such/dir");
    assert_eq!(tree.name, "dir");
    assert!(tree.is_expanded());
    assert_eq!(tree.children().map(|c| c.len()), Some(0));
}

#[test]
fn opening_a_directory_without_readme() {
    let mut tree = sample();
    let readme = open_directory(&mut tree, "/no/such", false);
    assert_eq!(readme, None);
    assert_eq!(tree.path, "/no/such");
}

#[test]
fn opening_a_file_rescans_only_for_another_root() {
    let mut tree = sample();
    tree.path = "/no/such".to_string();
    assert!(!reroot_for_file(&mut tree, "/no/such/a.md", false));
    assert_eq!(tree.path, "/no/such");
    assert_eq!(tree.name, "r");
    assert!(reroot_for_file(&mut tree, "/other/place/b.md", false));
    assert_eq!(tree.path, "/other/place");
    assert_eq!(tree.name, "place");
}

#[test]
fn links_resolve_to_existing_paths_only() {
    assert_eq!(resolve_link("/", None), Some("/".to_string()));
    assert_eq!(resolve_link("tmp", Some("/notes.md")), Some("/tmp".to_string()));
    assert_eq!(resolve_link("https://example.com/", Some("/notes.md")), None);
    assert_eq!(resolve_link("/no/such/file", Some("/notes.md")), None);
    assert_eq!(resolve_link("tmp", None), None);
}

#[test]
fn document_responses_carry_name_and_format() {
    let doc = Document::from_source("/x/a.unknownext", "<b>".to_string());
    let r = document_response(&doc, "/x/a.unknownext", "", None);
    assert_eq!(r.html, "<pre><code>&lt;b&gt;</code></pre>");
    assert_eq!(r.filename, "a.unknownext");
    assert_eq!(r.format, "Plain");
    let md = Document::from_source("/x/n.md", "Title: T\n\nbody\n".to_string());
    let r = document_response(&md, "/x/n.md", "<p>body</p>\n", None);
    assert_eq!(
        r.html,
        "<div class=\"doc-meta\"><dl><dt>Title</dt><dd>T</dd></dl></div><p>body</p>\n"
    );
    assert_eq!(r.format, "Markdown");
    assert_eq!(Format::OrgMode.name(), "OrgMode");
    assert_eq!(document_response(&md, "/", "", None).filename, "");
}

#[test]
fn the_first_file_is_the_given_file_or_a_readme() {
    let mut tree = sample();
    assert_eq!(initial_file(&mut tree, Some("/no/such.md"), "/no/root", false), None);
    assert_eq!(initial_file(&mut tree, None, "/no/root", false), None);
    assert_eq!(tree.flatten(0).len(), 3);
    assert_eq!(
        initial_file(&mut tree, Some("/r/a/inner.md"), "/no/root", false),
        None
    );
    let mut proc_tree = TreeNode::directory("proc".to_string(), "/proc".to_string(), vec![]);
    let first = initial_file(&mut proc_tree, Some("/proc/version"), "/no/root", false);
    assert_eq!(first, Some("/proc/version".to_string()));
    assert!(proc_tree.is_expanded());
}

#[test]
fn decisions_from_file_system_answers() {
    assert_eq!(first_file_of(Some("/a.md"), true, Some("/r/README.md".to_string())), Some("/a.md".to_string()));
    assert_eq!(first_file_of(Some("/a.md"), false, Some("/r/README.md".to_string())), Some("/r/README.md".to_string()));
    assert_eq!(first_file_of(None, true, None), None);
    assert_eq!(link_from_answers("/x/y.md", true, None, false), Some("/x/y.md".to_string()));
    assert_eq!(link_from_answers("/x/y.md", false, None, true), None);
    assert_eq!(link_from_answers("y.md", false, Some("/d/cur.md"), true), Some("/d/y.md".to_string()));
    assert_eq!(link_from_answers("y.md", true, Some("/d/cur.md"), false), None);
}
