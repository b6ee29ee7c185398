use lector::git::{choose_root, find_git_root, first_marked_ancestor, git_root_from, resolve_root};

#[test]
fn returns_none_outside_repo() {
    assert!(find_git_root("/").is_none());
}

#[test]
fn root_falls_back_to_directory_or_cwd() {
    assert_eq!(resolve_root(Some("/"), "/tmp"), "/");
    assert_eq!(resolve_root(None, "/"), "/");
}

#[test]
fn root_choice_from_answers() {
    assert_eq!(choose_root(Some("/p/f.md"), Some("/p".to_string()), false, "/cwd", None), "/p");
    assert_eq!(choose_root(Some("/p/d"), None, true, "/cwd", None), "/p/d");
    assert_eq!(choose_root(Some("/p/f.md"), None, false, "/cwd", None), "/p");
    assert_eq!(choose_root(Some("f.md"), None, false, "/cwd", Some("/g".to_string())), "/g");
    assert_eq!(choose_root(None, None, false, "/cwd", None), "/cwd");
}

#[test]
fn first_ancestor_whose_answer_is_yes() {
    assert_eq!(first_marked_ancestor("/a/b/c", &[false, true, true]), Some("/a/b".to_string()));
    assert_eq!(first_marked_ancestor("/a/b/c", &[true]), Some("/a/b/c".to_string()));
    assert_eq!(first_marked_ancestor("/a", &[false, false, true]), None);
    assert_eq!(first_marked_ancestor("/a/b", &[false, false]), None);
}

#[test]
fn root_from_answers_starts_at_parent_of_a_file() {
    assert_eq!(git_root_from("/r/a/f.md", true, &[false, true]), Some("/r".to_string()));
    assert_eq!(git_root_from("/r/a/f.md", false, &[false, true]), Some("/r/a".to_string()));
    assert_eq!(git_root_from("/r/a", false, &[true]), Some("/r/a".to_string()));
    assert_eq!(git_root_from("/", true, &[true]), None);
    assert_eq!(git_root_from("/r", false, &[false, false]), None);
}
