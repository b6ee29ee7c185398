//! What the terminal viewer does with a navigation action or a mouse
//! event: scrolling the document, moving the tree cursor, and which tree
//! entry to open or toggle (the opening and toggling are left to the
//! caller).
use vstd::prelude::*;

use crate::nav::{other_pane, Action, FocusedPane};

verus! {

/// What a tree entry is, as far as the viewer needs to know.
#[derive(Debug, Clone, Copy, PartialEq, Eq, Structural)]
pub enum EntryKind {
    File,
    Dir { expanded: bool },
}

/// Something the caller is to do with a tree entry, by its index in the
/// flattened tree.
#[derive(Debug, Clone, Copy, PartialEq, Eq, Structural)]
pub enum Effect {
    Nothing,
    /// Expand or collapse the directory.
    ToggleDir(usize),
    /// Open the file in the viewer.
    Open(usize),
}

/// A rectangle of the screen.
#[derive(Debug, Clone, Copy, PartialEq, Eq, Structural)]
pub struct Rect {
    pub x: u16,
    pub y: u16,
    pub width: u16,
    pub height: u16,
}

/// Mouse events the viewer reacts to.
#[derive(Debug, Clone, Copy, PartialEq, Eq, Structural)]
pub enum MouseKind {
    LeftDown,
    ScrollUp,
    ScrollDown,
    Other,
}

/// The viewer's navigation state.
#[derive(Debug, Clone, Copy, PartialEq, Eq, Structural)]
pub struct ViewState {
    /// Number of lines of the rendered document.
    pub line_count: usize,
    /// First document line shown.
    pub scroll_offset: usize,
    /// Number of document lines the screen shows.
    pub viewer_height: usize,
    /// Index of the selected entry of the flattened tree.
    pub tree_cursor: usize,
    /// Index of the first tree entry shown.
    pub tree_scroll: usize,
    /// Where the tree pane is on the screen.
    pub tree_area: Rect,
    pub show_tree: bool,
    pub focus: FocusedPane,
    pub running: bool,
}

/// Maximum scroll offset: content fits on screen → 0, otherwise allow
/// scrolling until the last line is at the bottom with one blank line.
/// (A document has fewer than `usize::MAX` lines.)
pub open spec fn max_scroll_of(line_count: int, height: int) -> int {
    if line_count <= height {
        0
    } else {
        line_count - height + 1
    }
}

pub fn max_scroll(st: &ViewState) -> (r: usize)
    requires
        st.line_count < usize::MAX,
    ensures
        r == max_scroll_of(st.line_count as int, st.viewer_height as int),
{
    if st.line_count <= st.viewer_height {
        0
    } else {
        st.line_count - st.viewer_height + 1
    }
}

pub open spec fn min_int(a: int, b: int) -> int {
    if a < b {
        a
    } else {
        b
    }
}

pub open spec fn sat_sub(a: int, b: int) -> int {
    if a > b {
        a - b
    } else {
        0
    }
}

/// What to do with the entry at `i`: select a file to open it, a
/// directory to toggle it.
pub open spec fn activate(entries: Seq<EntryKind>, i: int) -> Effect {
    match entries[i] {
        EntryKind::File => Effect::Open(i as usize),
        EntryKind::Dir { .. } => Effect::ToggleDir(i as usize),
    }
}

/// The state after an action, and what is to be done with the tree.
pub open spec fn after_action(st: ViewState, action: Action, entries: Seq<EntryKind>) -> (ViewState, Effect) {
    let max = max_scroll_of(st.line_count as int, st.viewer_height as int);
    let c = st.tree_cursor as int;
    let at_cursor = 0 <= c < entries.len();
    match action {
        Action::ToggleFocus => (
            ViewState {
                focus: if st.show_tree {
                    other_pane(st.focus)
                } else {
                    FocusedPane::Viewer
                },
                ..st
            },
            Effect::Nothing,
        ),
        Action::Quit => (ViewState { running: false, ..st }, Effect::Nothing),
        Action::ScrollDown => (
            if st.scroll_offset < max {
                ViewState { scroll_offset: (st.scroll_offset + 1) as usize, ..st }
            } else {
                st
            },
            Effect::Nothing,
        ),
        Action::ScrollUp => (
            ViewState { scroll_offset: sat_sub(st.scroll_offset as int, 1) as usize, ..st },
            Effect::Nothing,
        ),
        Action::PageDown => (
            ViewState {
                scroll_offset: min_int(st.scroll_offset + st.viewer_height, max) as usize,
                ..st
            },
            Effect::Nothing,
        ),
        Action::PageUp => (
            ViewState {
                scroll_offset: sat_sub(st.scroll_offset as int, st.viewer_height as int) as usize,
                ..st
            },
            Effect::Nothing,
        ),
        Action::DocumentStart => (ViewState { scroll_offset: 0, ..st }, Effect::Nothing),
        Action::DocumentEnd => (ViewState { scroll_offset: max as usize, ..st }, Effect::Nothing),
        Action::TreeNext => (
            if c + 1 < entries.len() {
                ViewState { tree_cursor: (c + 1) as usize, ..st }
            } else {
                st
            },
            Effect::Nothing,
        ),
        Action::TreePrev => (
            if c > 0 {
                ViewState { tree_cursor: (c - 1) as usize, ..st }
            } else {
                st
            },
            Effect::Nothing,
        ),
        Action::TreeExpand => (
            st,
            if at_cursor && entries[c] == (EntryKind::Dir { expanded: false }) {
                Effect::ToggleDir(st.tree_cursor)
            } else {
                Effect::Nothing
            },
        ),
        Action::TreeCollapse => (
            st,
            if at_cursor && entries[c] == (EntryKind::Dir { expanded: true }) {
                Effect::ToggleDir(st.tree_cursor)
            } else {
                Effect::Nothing
            },
        ),
        Action::TreeSelect => (
            st,
            if at_cursor {
                activate(entries, c)
            } else {
                Effect::Nothing
            },
        ),
    }
}

/// Selecting in the tree acts on the entry under the cursor: a file is
/// opened, and a directory, expanded or not, is toggled; only with the
/// cursor off the entries is nothing done. Expanding toggles only a
/// collapsed directory under the cursor, and collapsing only an expanded
/// one. None of the three changes the view state.
pub proof fn lemma_tree_actions(st: ViewState, entries: Seq<EntryKind>)
    ensures
        after_action(st, Action::TreeSelect, entries).0 == st,
        after_action(st, Action::TreeExpand, entries).0 == st,
        after_action(st, Action::TreeCollapse, entries).0 == st,
        (st.tree_cursor as int) < entries.len() ==> match entries[st.tree_cursor as int] {
            EntryKind::File => after_action(st, Action::TreeSelect, entries).1 == Effect::Open(
                st.tree_cursor,
            ),
            EntryKind::Dir { .. } => after_action(st, Action::TreeSelect, entries).1
                == Effect::ToggleDir(st.tree_cursor),
        },
        (st.tree_cursor as int) >= entries.len() ==> after_action(st, Action::TreeSelect, entries).1
            == Effect::Nothing,
        after_action(st, Action::TreeExpand, entries).1 == (if (st.tree_cursor as int)
            < entries.len() && entries[st.tree_cursor as int] == (EntryKind::Dir { expanded: false }) {
            Effect::ToggleDir(st.tree_cursor)
        } else {
            Effect::Nothing
        }),
        after_action(st, Action::TreeCollapse, entries).1 == (if (st.tree_cursor as int)
            < entries.len() && entries[st.tree_cursor as int] == (EntryKind::Dir { expanded: true }) {
            Effect::ToggleDir(st.tree_cursor)
        } else {
            Effect::Nothing
        }),
{
}

/// Scrolling moves only the scroll offset and does nothing to the tree: a
/// line down (not past the end) or up (not before the start), a screen
/// down (at most to the end) or up (at most to the start), or straight to
/// the start or the end, the end being where the last line sits on the
/// screen's bottom row with one blank row after it (the start when the
/// document fits). From an offset within the end, every one stays within
/// it. (A document has fewer than `usize::MAX` lines.)
pub proof fn lemma_scrolling(st: ViewState, entries: Seq<EntryKind>)
    requires
        st.line_count < usize::MAX,
    ensures
        ({
            let o = st.scroll_offset as int;
            let h = st.viewer_height as int;
            let n = st.line_count as int;
            let end = if n <= h {
                0
            } else {
                n - h + 1
            };
            let down = after_action(st, Action::ScrollDown, entries);
            let up = after_action(st, Action::ScrollUp, entries);
            let pdown = after_action(st, Action::PageDown, entries);
            let pup = after_action(st, Action::PageUp, entries);
            let start = after_action(st, Action::DocumentStart, entries);
            let last = after_action(st, Action::DocumentEnd, entries);
            &&& down.0 == ViewState { scroll_offset: down.0.scroll_offset, ..st }
            &&& up.0 == ViewState { scroll_offset: up.0.scroll_offset, ..st }
            &&& pdown.0 == ViewState { scroll_offset: pdown.0.scroll_offset, ..st }
            &&& pup.0 == ViewState { scroll_offset: pup.0.scroll_offset, ..st }
            &&& start.0 == ViewState { scroll_offset: 0, ..st }
            &&& last.0 == ViewState { scroll_offset: last.0.scroll_offset, ..st }
            &&& down.1 == Effect::Nothing && up.1 == Effect::Nothing && pdown.1 == Effect::Nothing
            &&& pup.1 == Effect::Nothing && start.1 == Effect::Nothing && last.1 == Effect::Nothing
            &&& down.0.scroll_offset == (if o < end {
                o + 1
            } else {
                o
            })
            &&& up.0.scroll_offset == (if o > 0 {
                o - 1
            } else {
                0
            })
            &&& pdown.0.scroll_offset == (if o + h < end {
                o + h
            } else {
                end
            })
            &&& pup.0.scroll_offset == (if o > h {
                o - h
            } else {
                0
            })
            &&& last.0.scroll_offset == end
            &&& o <= end ==> down.0.scroll_offset <= end && up.0.scroll_offset <= end
                && pdown.0.scroll_offset <= end && pup.0.scroll_offset <= end
        }),
{
}

fn activate_of(entries: &[EntryKind], i: usize) -> (r: Effect)
    requires
        i < entries@.len(),
    ensures
        r == activate(entries@, i as int),
{
    match entries[i] {
        EntryKind::File => Effect::Open(i),
        EntryKind::Dir { .. } => Effect::ToggleDir(i),
    }
}

/// Carry out a navigation action: the state changes, and what is to be
/// done with the tree (`entries` are the kinds of the flattened tree's
/// entries, in order) is returned.
pub fn handle_action(st: &mut ViewState, action: Action, entries: &[EntryKind]) -> (r: Effect)
    requires
        old(st).line_count < usize::MAX,
    ensures
        (*final(st), r) == after_action(*old(st), action, entries@),
{
    let max = max_scroll(st);
    let n = entries.len();
    match action {
        Action::ToggleFocus => {
            if st.show_tree {
                st.focus.toggle();
            } else {
                st.focus = FocusedPane::Viewer;
            }
            Effect::Nothing
        },
        Action::Quit => {
            st.running = false;
            Effect::Nothing
        },
        Action::ScrollDown => {
            if st.scroll_offset < max {
                st.scroll_offset = st.scroll_offset + 1;
            }
            Effect::Nothing
        },
        Action::ScrollUp => {
            st.scroll_offset = st.scroll_offset.saturating_sub(1);
            Effect::Nothing
        },
        Action::PageDown => {
            let down = st.scroll_offset.saturating_add(st.viewer_height);
            st.scroll_offset = if down < max {
                down
            } else {
                max
            };
            Effect::Nothing
        },
        Action::PageUp => {
            st.scroll_offset = st.scroll_offset.saturating_sub(st.viewer_height);
            Effect::Nothing
        },
        Action::DocumentStart => {
            st.scroll_offset = 0;
            Effect::Nothing
        },
        Action::DocumentEnd => {
            st.scroll_offset = max;
            Effect::Nothing
        },
        Action::TreeNext => {
            if st.tree_cursor < n && st.tree_cursor + 1 < n {
                st.tree_cursor = st.tree_cursor + 1;
            }
            Effect::Nothing
        },
        Action::TreePrev => {
            if st.tree_cursor > 0 {
                st.tree_cursor = st.tree_cursor - 1;
            }
            Effect::Nothing
        },
        Action::TreeExpand => {
            if st.tree_cursor < n && entries[st.tree_cursor] == (EntryKind::Dir { expanded: false }) {
                Effect::ToggleDir(st.tree_cursor)
            } else {
                Effect::Nothing
            }
        },
        Action::TreeCollapse => {
            if st.tree_cursor < n && entries[st.tree_cursor] == (EntryKind::Dir { expanded: true }) {
                Effect::ToggleDir(st.tree_cursor)
            } else {
                Effect::Nothing
            }
        },
        Action::TreeSelect => {
            if st.tree_cursor < n {
                activate_of(entries, st.tree_cursor)
            } else {
                Effect::Nothing
            }
        },
    }
}

/// The first tree entry to show so that the cursor is on screen: scrolled
/// just far enough that the cursor is on the last row shown.
pub fn tree_scroll_for(cursor: usize, visible_height: usize) -> (r: usize)
    requires
        cursor < usize::MAX,
    ensures
        r == if cursor >= visible_height {
            cursor - visible_height + 1
        } else {
            0
        },
{
    if cursor >= visible_height {
        cursor - visible_height + 1
    } else {
        0
    }
}

/// The first table-of-contents entry to show so that the cursor is on
/// screen: when the cursor is below the rows shown, scrolled just far
/// enough that it is on the last row; when it is above them, scrolled to
/// it; otherwise the scroll stays.
pub open spec fn toc_scroll_of(cursor: int, scroll: int, visible_height: int) -> int {
    if cursor >= scroll + visible_height {
        cursor - visible_height + 1
    } else if cursor < scroll {
        cursor
    } else {
        scroll
    }
}

pub fn toc_scroll_for(cursor: usize, scroll: usize, visible_height: usize) -> (r: usize)
    requires
        cursor < usize::MAX,
    ensures
        r == toc_scroll_of(cursor as int, scroll as int, visible_height as int),
{
    if scroll <= cursor && cursor - scroll >= visible_height {
        cursor - visible_height + 1
    } else if cursor < scroll {
        cursor
    } else {
        scroll
    }
}

/// After scrolling the table of contents, the cursor is on one of the rows
/// shown (when any row is shown).
pub proof fn lemma_toc_cursor_visible(cursor: int, scroll: int, visible_height: int)
    requires
        0 <= cursor,
        0 <= scroll,
        0 < visible_height,
    ensures
        toc_scroll_of(cursor, scroll, visible_height) <= cursor < toc_scroll_of(
            cursor,
            scroll,
            visible_height,
        ) + visible_height,
{
}

/// Whether a screen cell lies in a rectangle.
pub open spec fn in_rect(col: int, row: int, r: Rect) -> bool {
    r.x <= col < r.x + r.width && r.y <= row < r.y + r.height
}

pub fn in_rect_of(col: u16, row: u16, r: Rect) -> (b: bool)
    ensures
        b == in_rect(col as int, row as int, r),
{
    let x = r.x as u32;
    let y = r.y as u32;
    (col as u32) >= x && (col as u32) < x + r.width as u32 && (row as u32) >= y && (row as u32) < y
        + r.height as u32
}

/// The state after a mouse event at a screen cell, and what is to be done
/// with the tree: nothing happens unless the tree pane is shown; a click
/// in the tree focuses it, selects the entry shown on that row and
/// activates it, a click elsewhere focuses the document; the wheel moves
/// the tree cursor or the document by three.
pub open spec fn after_mouse(
    st: ViewState,
    kind: MouseKind,
    col: int,
    row: int,
    entries: Seq<EntryKind>,
) -> (ViewState, Effect) {
    let in_tree = in_rect(col, row, st.tree_area);
    let max = max_scroll_of(st.line_count as int, st.viewer_height as int);
    if !st.show_tree {
        (st, Effect::Nothing)
    } else {
        match kind {
            MouseKind::LeftDown => if in_tree {
                let idx = st.tree_scroll + (row - st.tree_area.y);
                if idx < entries.len() {
                    (
                        ViewState { focus: FocusedPane::Tree, tree_cursor: idx as usize, ..st },
                        activate(entries, idx),
                    )
                } else {
                    (ViewState { focus: FocusedPane::Tree, ..st }, Effect::Nothing)
                }
            } else {
                (ViewState { focus: FocusedPane::Viewer, ..st }, Effect::Nothing)
            },
            MouseKind::ScrollUp => if in_tree {
                (
                    ViewState { tree_cursor: sat_sub(st.tree_cursor as int, 3) as usize, ..st },
                    Effect::Nothing,
                )
            } else {
                (
                    ViewState { scroll_offset: sat_sub(st.scroll_offset as int, 3) as usize, ..st },
                    Effect::Nothing,
                )
            },
            MouseKind::ScrollDown => if in_tree {
                (
                    ViewState {
                        tree_cursor: min_int(
                            st.tree_cursor + 3,
                            sat_sub(entries.len() as int, 1),
                        ) as usize,
                        ..st
                    },
                    Effect::Nothing,
                )
            } else {
                (
                    ViewState { scroll_offset: min_int(st.scroll_offset + 3, max) as usize, ..st },
                    Effect::Nothing,
                )
            },
            MouseKind::Other => (st, Effect::Nothing),
        }
    }
}

/// Handle a mouse event at a screen cell (`entries` as for `handle_action`).
pub fn handle_mouse(st: &mut ViewState, kind: MouseKind, column: u16, row: u16, entries: &[EntryKind]) -> (r: Effect)
    requires
        old(st).line_count < usize::MAX,
    ensures
        (*final(st), r) == after_mouse(*old(st), kind, column as int, row as int, entries@),
{
    if !st.show_tree {
        return Effect::Nothing;
    }
    let in_tree = in_rect_of(column, row, st.tree_area);
    let max = max_scroll(st);
    let n = entries.len();
    match kind {
        MouseKind::LeftDown => {
            if in_tree {
                st.focus = FocusedPane::Tree;
                let clicked_row = (row - st.tree_area.y) as usize;
                if clicked_row < n && st.tree_scroll < n - clicked_row {
                    let idx = st.tree_scroll + clicked_row;
                    st.tree_cursor = idx;
                    activate_of(entries, idx)
                } else {
                    Effect::Nothing
                }
            } else {
                st.focus = FocusedPane::Viewer;
                Effect::Nothing
            }
        },
        MouseKind::ScrollUp => {
            if in_tree {
                st.tree_cursor = st.tree_cursor.saturating_sub(3);
            } else {
                st.scroll_offset = st.scroll_offset.saturating_sub(3);
            }
            Effect::Nothing
        },
        MouseKind::ScrollDown => {
            if in_tree {
                let last = n.saturating_sub(1);
                let down = st.tree_cursor.saturating_add(3);
                st.tree_cursor = if down < last {
                    down
                } else {
                    last
                };
            } else {
                let down = st.scroll_offset.saturating_add(3);
                st.scroll_offset = if down < max {
                    down
                } else {
                    max
                };
            }
            Effect::Nothing
        },
        MouseKind::Other => Effect::Nothing,
    }
}


// ---------------------------------------------------------------------------
// Laws
// ---------------------------------------------------------------------------
/// The document is not scrolled past its end, and the tree cursor is on an
/// entry (when there is one).
pub open spec fn in_bounds(st: ViewState, n: int) -> bool {
    &&& st.scroll_offset <= max_scroll_of(st.line_count as int, st.viewer_height as int)
    &&& n > 0 ==> st.tree_cursor < n
}

/// No navigation action scrolls past the end of the document or moves the
/// tree cursor off the tree.
pub proof fn lemma_action_stays_in_bounds(st: ViewState, action: Action, entries: Seq<EntryKind>)
    requires
        in_bounds(st, entries.len() as int),
    ensures
        in_bounds(after_action(st, action, entries).0, entries.len() as int),
{
}

/// No mouse event scrolls past the end of the document or moves the tree
/// cursor off the tree.
pub proof fn lemma_mouse_stays_in_bounds(
    st: ViewState,
    kind: MouseKind,
    col: int,
    row: int,
    entries: Seq<EntryKind>,
)
    requires
        in_bounds(st, entries.len() as int),
    ensures
        in_bounds(after_mouse(st, kind, col, row, entries).0, entries.len() as int),
{
}

/// Scrolling down one line and back up returns to the same view, unless
/// the document was already at its end.
pub proof fn lemma_scroll_down_then_up(st: ViewState, entries: Seq<EntryKind>)
    requires
        st.line_count < usize::MAX,
        st.scroll_offset < max_scroll_of(st.line_count as int, st.viewer_height as int),
    ensures
        after_action(after_action(st, Action::ScrollDown, entries).0, Action::ScrollUp, entries).0
            == st,
{
}

/// At the end of the document, scrolling or paging down changes nothing.
pub proof fn lemma_end_is_fixed(st: ViewState, entries: Seq<EntryKind>)
    requires
        st.scroll_offset == max_scroll_of(st.line_count as int, st.viewer_height as int),
    ensures
        after_action(st, Action::ScrollDown, entries).0 == st,
        after_action(st, Action::PageDown, entries).0 == st,
        after_action(st, Action::DocumentEnd, entries).0 == st,
{
}

} // verus!
