use lector::nav::{Action, FocusedPane};
use lector::viewer::{
    toc_scroll_for, handle_action, handle_mouse, max_scroll, Effect, EntryKind, MouseKind, Rect, ViewState};

fn state() -> ViewState {
    ViewState {
        line_count: 100,
        scroll_offset: 0,
        viewer_height: 20,
        tree_cursor: 0,
        tree_scroll: 0,
        tree_area: Rect { x: 0, y: 1, width: 20, height: 10 },
        show_tree: true,
        focus: FocusedPane::Tree,
        running: true,
    }
}

const ENTRIES: [EntryKind; 3] =
    [EntryKind::Dir { expanded: true }, EntryKind::Dir { expanded: false }, EntryKind::File];

#[test]
fn scrolling_stops_at_the_end() {
    let mut st = state();
    assert_eq!(max_scroll(&st), 81);
    st.scroll_offset = 70;
    assert_eq!(handle_action(&mut st, Action::PageDown, &ENTRIES), Effect::Nothing);
    assert_eq!(st.scroll_offset, 81);
    handle_action(&mut st, Action::ScrollDown, &ENTRIES);
    assert_eq!(st.scroll_offset, 81);
    handle_action(&mut st, Action::PageUp, &ENTRIES);
    assert_eq!(st.scroll_offset, 61);
    handle_action(&mut st, Action::DocumentStart, &ENTRIES);
    handle_action(&mut st, Action::ScrollUp, &ENTRIES);
    assert_eq!(st.scroll_offset, 0);
    handle_action(&mut st, Action::DocumentEnd, &ENTRIES);
    assert_eq!(st.scroll_offset, 81);
    let mut short = state();
    short.line_count = 20;
    assert_eq!(max_scroll(&short), 0);
}

#[test]
fn tree_cursor_and_selection() {
    let mut st = state();
    handle_action(&mut st, Action::TreePrev, &ENTRIES);
    assert_eq!(st.tree_cursor, 0);
    assert_eq!(handle_action(&mut st, Action::TreeCollapse, &ENTRIES), Effect::ToggleDir(0));
    assert_eq!(handle_action(&mut st, Action::TreeExpand, &ENTRIES), Effect::Nothing);
    handle_action(&mut st, Action::TreeNext, &ENTRIES);
    assert_eq!(handle_action(&mut st, Action::TreeExpand, &ENTRIES), Effect::ToggleDir(1));
    handle_action(&mut st, Action::TreeNext, &ENTRIES);
    handle_action(&mut st, Action::TreeNext, &ENTRIES);
    assert_eq!(st.tree_cursor, 2);
    assert_eq!(handle_action(&mut st, Action::TreeSelect, &ENTRIES), Effect::Open(2));
    handle_action(&mut st, Action::ToggleFocus, &ENTRIES);
    assert_eq!(st.focus, FocusedPane::Viewer);
    handle_action(&mut st, Action::Quit, &ENTRIES);
    assert!(!st.running);
}

#[test]
fn mouse_clicks_and_wheel() {
    let mut st = state();
    st.tree_scroll = 1;
    st.focus = FocusedPane::Viewer;
    assert_eq!(handle_mouse(&mut st, MouseKind::LeftDown, 3, 2, &ENTRIES), Effect::Open(2));
    assert_eq!((st.tree_cursor, st.focus), (2, FocusedPane::Tree));
    assert_eq!(handle_mouse(&mut st, MouseKind::LeftDown, 3, 5, &ENTRIES), Effect::Nothing);
    assert_eq!(handle_mouse(&mut st, MouseKind::LeftDown, 30, 5, &ENTRIES), Effect::Nothing);
    assert_eq!(st.focus, FocusedPane::Viewer);
    handle_mouse(&mut st, MouseKind::ScrollDown, 30, 5, &ENTRIES);
    assert_eq!(st.scroll_offset, 3);
    handle_mouse(&mut st, MouseKind::ScrollUp, 3, 2, &ENTRIES);
    assert_eq!(st.tree_cursor, 0);
    handle_mouse(&mut st, MouseKind::ScrollDown, 3, 2, &ENTRIES);
    assert_eq!(st.tree_cursor, 2);
    st.show_tree = false;
    assert_eq!(handle_mouse(&mut st, MouseKind::LeftDown, 3, 2, &ENTRIES), Effect::Nothing);
}

#[test]
fn toc_scroll_keeps_the_cursor_on_screen() {
    assert_eq!(toc_scroll_for(12, 0, 10), 3);
    assert_eq!(toc_scroll_for(2, 5, 10), 2);
    assert_eq!(toc_scroll_for(7, 5, 10), 5);
}

#[test]
fn focus_stays_on_the_viewer_while_the_tree_is_hidden() {
    let mut st = state();
    st.show_tree = false;
    st.focus = FocusedPane::Viewer;
    handle_action(&mut st, Action::ToggleFocus, &ENTRIES);
    assert_eq!(st.focus, FocusedPane::Viewer);
    st.show_tree = true;
    handle_action(&mut st, Action::ToggleFocus, &ENTRIES);
    assert_eq!(st.focus, FocusedPane::Tree);
}
