//! Keybinding to navigation-action mapping.
use vstd::prelude::*;

use crate::text::{chars_of, eq_str};

verus! {

/// Actions that can be triggered by keybindings.
#[derive(Debug, Clone, Copy, PartialEq, Eq, Structural)]
pub enum Action {
    // Viewer navigation
    ScrollDown,
    ScrollUp,
    PageDown,
    PageUp,
    DocumentStart,
    DocumentEnd,
    // Tree navigation
    TreeNext,
    TreePrev,
    TreeExpand,
    TreeCollapse,
    TreeSelect,
    // Pane management
    ToggleFocus,
    // Application
    Quit,
}

/// Which pane currently has keyboard focus.
#[derive(Debug, Clone, Copy, PartialEq, Eq, Structural)]
pub enum FocusedPane {
    Tree,
    Viewer,
}

pub open spec fn other_pane(p: FocusedPane) -> FocusedPane {
    match p {
        FocusedPane::Tree => FocusedPane::Viewer,
        FocusedPane::Viewer => FocusedPane::Tree,
    }
}

impl FocusedPane {
    pub fn toggle(&mut self)
        ensures
            *final(self) == other_pane(*old(self)),
    {
        *self = match self {
            FocusedPane::Tree => FocusedPane::Viewer,
            FocusedPane::Viewer => FocusedPane::Tree,
        };
    }
}

/// Toggling focus twice gives focus back to the pane that had it.
pub proof fn lemma_toggle_twice(p: FocusedPane)
    ensures
        other_pane(other_pane(p)) == p,
        other_pane(p) != p,
{
}

/// Keyboard modifier state.
#[derive(Debug, Clone, Copy)]
pub struct Modifiers {
    pub ctrl: bool,
    pub alt: bool,
    pub shift: bool,
}

impl Default for Modifiers {
    fn default() -> (r: Modifiers)
        ensures
            !r.ctrl && !r.alt && !r.shift,
    {
        Modifiers { ctrl: false, alt: false, shift: false }
    }
}

/// The action a key press maps to. Key names are lowercase (`"n"`, `"tab"`,
/// `"enter"`, ...); only the Control and Alt modifiers take part.
pub open spec fn key_action(key: Seq<char>, ctrl: bool, alt: bool, focus: FocusedPane) -> Option<
    Action,
> {
    if ctrl && !alt && key == "n"@ {
        Some(
            match focus {
                FocusedPane::Viewer => Action::ScrollDown,
                FocusedPane::Tree => Action::TreeNext,
            },
        )
    } else if ctrl && !alt && key == "p"@ {
        Some(
            match focus {
                FocusedPane::Viewer => Action::ScrollUp,
                FocusedPane::Tree => Action::TreePrev,
            },
        )
    } else if ctrl && !alt && key == "v"@ {
        Some(Action::PageDown)
    } else if !ctrl && alt && key == "v"@ {
        Some(Action::PageUp)
    } else if ctrl && !alt && key == "f"@ {
        Some(
            match focus {
                FocusedPane::Tree => Action::TreeExpand,
                FocusedPane::Viewer => Action::ScrollDown,
            },
        )
    } else if ctrl && !alt && key == "b"@ {
        Some(
            match focus {
                FocusedPane::Tree => Action::TreeCollapse,
                FocusedPane::Viewer => Action::ScrollUp,
            },
        )
    } else if !ctrl && alt && (key == "<"@ || key == ","@) {
        Some(Action::DocumentStart)
    } else if !ctrl && alt && (key == ">"@ || key == "."@) {
        Some(Action::DocumentEnd)
    } else if !ctrl && !alt && key == "tab"@ {
        Some(Action::ToggleFocus)
    } else if !ctrl && !alt && key == "enter"@ && focus == FocusedPane::Tree {
        Some(Action::TreeSelect)
    } else if !ctrl && !alt && key == "q"@ {
        Some(Action::Quit)
    } else {
        None
    }
}

/// Translate a key press into a navigation action.
pub fn map_key(key: &str, mods: Modifiers, focus: FocusedPane) -> (r: Option<Action>)
    ensures
        r == key_action(key@, mods.ctrl, mods.alt, focus),
{
    let kc = chars_of(key);
    let k = kc.as_slice();
    let ctrl = mods.ctrl;
    let alt = mods.alt;
    if ctrl && !alt && eq_str(k, "n") {
        Some(
            match focus {
                FocusedPane::Viewer => Action::ScrollDown,
                FocusedPane::Tree => Action::TreeNext,
            },
        )
    } else if ctrl && !alt && eq_str(k, "p") {
        Some(
            match focus {
                FocusedPane::Viewer => Action::ScrollUp,
                FocusedPane::Tree => Action::TreePrev,
            },
        )
    } else if ctrl && !alt && eq_str(k, "v") {
        Some(Action::PageDown)
    } else if !ctrl && alt && eq_str(k, "v") {
        Some(Action::PageUp)
    } else if ctrl && !alt && eq_str(k, "f") {
        Some(
            match focus {
                FocusedPane::Tree => Action::TreeExpand,
                FocusedPane::Viewer => Action::ScrollDown,
            },
        )
    } else if ctrl && !alt && eq_str(k, "b") {
        Some(
            match focus {
                FocusedPane::Tree => Action::TreeCollapse,
                FocusedPane::Viewer => Action::ScrollUp,
            },
        )
    } else if !ctrl && alt && (eq_str(k, "<") || eq_str(k, ",")) {
        Some(Action::DocumentStart)
    } else if !ctrl && alt && (eq_str(k, ">") || eq_str(k, ".")) {
        Some(Action::DocumentEnd)
    } else if !ctrl && !alt && eq_str(k, "tab") {
        Some(Action::ToggleFocus)
    } else if !ctrl && !alt && eq_str(k, "enter") && focus == FocusedPane::Tree {
        Some(Action::TreeSelect)
    } else if !ctrl && !alt && eq_str(k, "q") {
        Some(Action::Quit)
    } else {
        None
    }
}

/// Tab toggles focus from either pane, and Enter selects only in the tree.
pub proof fn lemma_focus_keys(focus: FocusedPane)
    ensures
        key_action("tab"@, false, false, focus) == Some(Action::ToggleFocus),
        key_action("enter"@, false, false, focus) == (if focus == FocusedPane::Tree {
            Some(Action::TreeSelect)
        } else {
            None
        }),
{
    reveal_strlit("tab");
    reveal_strlit("enter");
    reveal_strlit("n");
    reveal_strlit("p");
    reveal_strlit("v");
    reveal_strlit("f");
    reveal_strlit("b");
    reveal_strlit("<");
    reveal_strlit(",");
    reveal_strlit(">");
    reveal_strlit(".");
    reveal_strlit("q");
    let e = "enter"@;
    assert(e.len() == 5);
    assert(e != "n"@ && e != "p"@ && e != "v"@ && e != "f"@ && e != "b"@ && e != "q"@);
    assert(e != "<"@ && e != ","@ && e != ">"@ && e != "."@ && e != "tab"@);
}

/// Control-v pages down and Alt-v pages up, in either pane, so the two
/// never do the same; no other key pages down with Control alone, and none
/// pages up with Alt alone.
pub proof fn lemma_page_keys(key: Seq<char>, focus: FocusedPane)
    ensures
        key_action("v"@, true, false, focus) == Some(Action::PageDown),
        key_action("v"@, false, true, focus) == Some(Action::PageUp),
        key_action(key, true, false, focus) == Some(Action::PageDown) <==> key == "v"@,
        key_action(key, false, true, focus) == Some(Action::PageUp) <==> key == "v"@,
{
    reveal_strlit("n");
    reveal_strlit("p");
    reveal_strlit("v");
    reveal_strlit("f");
    reveal_strlit("b");
    reveal_strlit("<");
    reveal_strlit(",");
    reveal_strlit(">");
    reveal_strlit(".");
    let v = "v"@;
    assert(v[0] != "n"@[0]);
    assert(v[0] != "p"@[0]);
    assert(v != "n"@ && v != "p"@);
}

/// The bindings: Control-n and Control-p scroll the viewer or move through
/// the tree; Control-f and Control-b expand and collapse in the tree and
/// scroll in the viewer; Alt-`<` (or Alt-`,`) and Alt-`>` (or Alt-`.`) jump
/// to the start and the end; Tab switches panes, Enter selects in the tree
/// only, and `q` quits; Shift plays no part.
pub proof fn lemma_key_bindings(focus: FocusedPane)
    ensures
        key_action("n"@, true, false, focus) == Some(
            if focus == FocusedPane::Viewer {
                Action::ScrollDown
            } else {
                Action::TreeNext
            },
        ),
        key_action("p"@, true, false, focus) == Some(
            if focus == FocusedPane::Viewer {
                Action::ScrollUp
            } else {
                Action::TreePrev
            },
        ),
        key_action("f"@, true, false, focus) == Some(
            if focus == FocusedPane::Viewer {
                Action::ScrollDown
            } else {
                Action::TreeExpand
            },
        ),
        key_action("b"@, true, false, focus) == Some(
            if focus == FocusedPane::Viewer {
                Action::ScrollUp
            } else {
                Action::TreeCollapse
            },
        ),
        key_action("<"@, false, true, focus) == Some(Action::DocumentStart),
        key_action(","@, false, true, focus) == Some(Action::DocumentStart),
        key_action(">"@, false, true, focus) == Some(Action::DocumentEnd),
        key_action("."@, false, true, focus) == Some(Action::DocumentEnd),
        key_action("q"@, false, false, focus) == Some(Action::Quit),
        key_action("q"@, true, false, focus) is None,
        key_action("v"@, false, false, focus) is None,
{
    reveal_strlit("tab");
    reveal_strlit("enter");
    reveal_strlit("n");
    reveal_strlit("p");
    reveal_strlit("v");
    reveal_strlit("f");
    reveal_strlit("b");
    reveal_strlit("<");
    reveal_strlit(",");
    reveal_strlit(">");
    reveal_strlit(".");
    reveal_strlit("q");
    assert("n"@[0] != "p"@[0] && "n"@[0] != "v"@[0]);
    assert("p"@[0] != "n"@[0] && "p"@[0] != "v"@[0]);
    assert("f"@[0] != "n"@[0] && "f"@[0] != "p"@[0] && "f"@[0] != "v"@[0]);
    assert("b"@[0] != "n"@[0] && "b"@[0] != "p"@[0] && "b"@[0] != "v"@[0] && "b"@[0] != "f"@[0]);
    assert("<"@[0] != "v"@[0] && ","@[0] != "v"@[0] && ">"@[0] != "v"@[0] && "."@[0] != "v"@[0]);
    assert(">"@[0] != "<"@[0] && ">"@[0] != ","@[0] && "."@[0] != "<"@[0] && "."@[0] != ","@[0]);
    assert("q"@.len() != "tab"@.len() && "q"@.len() != "enter"@.len());
    assert("q"@[0] != "n"@[0] && "q"@[0] != "p"@[0] && "q"@[0] != "v"@[0] && "q"@[0] != "f"@[0]
        && "q"@[0] != "b"@[0]);
    assert("v"@.len() != "tab"@.len() && "v"@.len() != "enter"@.len() && "v"@[0] != "q"@[0]);
}

/// A key pressed with both Control and Alt held maps to no action.
pub proof fn lemma_ctrl_alt_unbound(key: Seq<char>, focus: FocusedPane)
    ensures
        key_action(key, true, true, focus) is None,
{
}

} // verus!
