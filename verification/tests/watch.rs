use lector::tree::TreeNode;
use lector::watch::{
    changed_dirs, is_content_change, sync_watcher, toggle_at_path_watched, ChangeKind, WatchEvent,
    WatcherHandle,
};

fn handle() -> WatcherHandle {
    let watcher = notify::recommended_watcher(|_res: notify::Result<notify::Event>| {}).unwrap();
    WatcherHandle::new(watcher)
}

#[test]
fn watch_unwatch_tracking() {
    let mut handle = handle();
    let dir = "/tmp";
    handle.watch(dir);
    assert!(handle.watched_dirs.contains(&dir.to_string()));
    handle.watch("/tmp/");
    assert_eq!(handle.watched_dirs.len(), 1);

    handle.unwatch("/tmp/");
    assert!(!handle.watched_dirs.contains(&dir.to_string()));
}

#[test]
fn unwatch_all_clears() {
    let mut handle = handle();
    handle.watch("/tmp");
    handle.watch("/");
    assert_eq!(handle.watched_dirs.len(), 2);

    handle.unwatch_all();
    assert!(handle.watched_dirs.is_empty());
}

#[test]
fn sync_watches_expanded_directories_only() {
    let inner = TreeNode::directory("etc".to_string(), "/etc".to_string(), vec![]);
    let mut root = TreeNode::directory("/".to_string(), "/".to_string(), vec![inner]);
    root.set_expanded(true);
    let mut handle = handle();
    handle.watch("/tmp");
    sync_watcher(&root, &mut handle);
    assert_eq!(handle.watched_dirs, vec!["/".to_string()]);
}

#[test]
fn toggling_keeps_watches_on_the_expanded_directories() {
    let inner = TreeNode::directory("etc".to_string(), "/etc".to_string(), vec![]);
    let mut root = TreeNode::directory("/".to_string(), "/".to_string(), vec![inner]);
    root.set_expanded(true);
    let mut handle = handle();
    sync_watcher(&root, &mut handle);
    assert_eq!(handle.watched_dirs, vec!["/".to_string()]);
    assert!(toggle_at_path_watched(&mut root, "/etc", &mut handle, false));
    assert_eq!(handle.watched_dirs, vec!["/".to_string(), "/etc".to_string()]);
    assert!(toggle_at_path_watched(&mut root, "/etc", &mut handle, false));
    assert_eq!(handle.watched_dirs, vec!["/".to_string()]);
    assert!(!toggle_at_path_watched(&mut root, "/no/such/dir", &mut handle, false));
    assert_eq!(handle.watched_dirs, vec!["/".to_string()]);
}

#[test]
fn content_changes_name_watched_parents_once() {
    assert!(is_content_change(ChangeKind::Create));
    assert!(is_content_change(ChangeKind::Modify));
    assert!(is_content_change(ChangeKind::Remove));
    assert!(!is_content_change(ChangeKind::Access));
    assert!(!is_content_change(ChangeKind::Any));
    assert!(!is_content_change(ChangeKind::Other));
    let events = vec![
        WatchEvent { kind: ChangeKind::Create, paths: vec!["/w/a/x.md".to_string(), "/w/b/y".to_string()] },
        WatchEvent { kind: ChangeKind::Access, paths: vec!["/w/c/z".to_string()] },
        WatchEvent { kind: ChangeKind::Remove, paths: vec!["/w/a/q".to_string(), "/w/c/r".to_string()] },
    ];
    let watched = vec!["/w/a".to_string(), "/w/c/".to_string()];
    assert_eq!(changed_dirs(&events, &watched), vec!["/w/a".to_string(), "/w/c".to_string()]);
    assert!(changed_dirs(&[], &watched).is_empty());
}
