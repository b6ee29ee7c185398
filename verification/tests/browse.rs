use lector::browse::{
    completion_target,
    browse_entries, completion_base_of, completions, lex_less, sort_texts, BrowseEntry,
};

fn entry(name: &str, path: &str, is_dir: bool) -> BrowseEntry {
    BrowseEntry { name: name.to_string(), path: path.to_string(), is_dir }
}

#[test]
fn browser_lists_directories_first_by_name() {
    let items = vec![
        entry(".hidden", "/a/b/.hidden", false),
        entry("zeta", "/a/b/zeta", true),
        entry("alpha.md", "/a/b/alpha.md", false),
        entry("beta", "/a/b/beta", true),
        entry("Zed.md", "/a/b/Zed.md", false),
    ];
    let got = browse_entries("/a/b", items);
    let shown: Vec<(&str, &str, bool)> =
        got.iter().map(|e| (e.name.as_str(), e.path.as_str(), e.is_dir)).collect();
    assert_eq!(
        shown,
        vec![
            (". (open this directory)", "/a/b", false),
            ("..", "/a", true),
            ("beta", "/a/b/beta", true),
            ("zeta", "/a/b/zeta", true),
            ("Zed.md", "/a/b/Zed.md", false),
            ("alpha.md", "/a/b/alpha.md", false),
        ]
    );
    let root = browse_entries("/", vec![]);
    assert_eq!(root.len(), 1);
}

#[test]
fn completions_match_prefix_and_mark_directories() {
    let entries = vec![
        ("bob.md".to_string(), false),
        ("beta".to_string(), true),
        ("alpha".to_string(), false),
        (".bx".to_string(), false),
    ];
    assert_eq!(completions("/a", "b", &entries), vec!["/a/beta/", "/a/bob.md"]);
    assert_eq!(completions("/a", "", &entries), vec!["/a/alpha", "/a/beta/", "/a/bob.md"]);
    assert_eq!(completions("/a", ".", &entries), vec!["/a/.bx"]);
}

#[test]
fn completion_base_splits_typed_path() {
    assert_eq!(completion_base_of("docs/", "docs/", true), ("docs/".to_string(), String::new()));
    assert_eq!(completion_base_of("docs/re", "docs/re", false), ("docs".to_string(), "re".to_string()));
    assert_eq!(completion_base_of("re", "re", false), (String::new(), "re".to_string()));
    assert_eq!(completion_base_of("/", "/", false), (".".to_string(), String::new()));
}

#[test]
fn text_order_is_by_code_point() {
    let a: Vec<char> = "ab".chars().collect();
    let b: Vec<char> = "abc".chars().collect();
    let c: Vec<char> = "b".chars().collect();
    assert!(lex_less(&a, &b));
    assert!(!lex_less(&b, &a));
    assert!(lex_less(&b, &c));
    assert!(!lex_less(&a, &a));
    let sorted = sort_texts(vec!["é".to_string(), "z".to_string(), "A".to_string(), "a".to_string()]);
    assert_eq!(sorted, vec!["A", "a", "z", "é"]);
}

#[test]
fn completion_targets_of_typed_paths() {
    assert_eq!(completion_target("/tmp/"), ("/tmp/".to_string(), String::new()));
    assert_eq!(completion_target("/no/such/fi"), ("/no/such".to_string(), "fi".to_string()));
    assert_eq!(completion_target("fi"), ("".to_string(), "fi".to_string()));
}
