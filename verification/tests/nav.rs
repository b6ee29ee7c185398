use lector::nav::{map_key, Action, FocusedPane, Modifiers};

fn ctrl() -> Modifiers {
    Modifiers { ctrl: true, ..Default::default() }
}

fn alt() -> Modifiers {
    Modifiers { alt: true, ..Default::default() }
}

fn none() -> Modifiers {
    Modifiers::default()
}

#[test]
fn ctrl_n_scrolls_in_viewer() {
    assert_eq!(map_key("n", ctrl(), FocusedPane::Viewer), Some(Action::ScrollDown));
}

#[test]
fn ctrl_n_moves_tree_cursor() {
    assert_eq!(map_key("n", ctrl(), FocusedPane::Tree), Some(Action::TreeNext));
}

#[test]
fn alt_v_pages_up() {
    assert_eq!(map_key("v", alt(), FocusedPane::Viewer), Some(Action::PageUp));
}

#[test]
fn tab_toggles_focus() {
    assert_eq!(map_key("tab", none(), FocusedPane::Viewer), Some(Action::ToggleFocus));
}

#[test]
fn q_quits() {
    assert_eq!(map_key("q", none(), FocusedPane::Viewer), Some(Action::Quit));
}

#[test]
fn unknown_key_returns_none() {
    assert_eq!(map_key("z", none(), FocusedPane::Viewer), None);
}

#[test]
fn enter_selects_only_in_tree() {
    assert_eq!(map_key("enter", none(), FocusedPane::Tree), Some(Action::TreeSelect));
    assert_eq!(map_key("enter", none(), FocusedPane::Viewer), None);
    assert_eq!(map_key(",", alt(), FocusedPane::Tree), Some(Action::DocumentStart));
    assert_eq!(map_key(">", alt(), FocusedPane::Tree), Some(Action::DocumentEnd));
    let both = Modifiers { ctrl: true, alt: true, shift: false };
    assert_eq!(map_key("n", both, FocusedPane::Tree), None);
}

#[test]
fn focus_toggles_back_and_forth() {
    let mut f = FocusedPane::Tree;
    f.toggle();
    assert_eq!(f, FocusedPane::Viewer);
    f.toggle();
    assert_eq!(f, FocusedPane::Tree);
}
