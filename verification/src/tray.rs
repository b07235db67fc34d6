//! What the entries of the tray menu do.

use crate::text::same_text;
use vstd::prelude::*;

verus! {

/// The view that the window shows.
#[derive(Clone, Copy, Debug, PartialEq, Eq)]
pub enum ViewMode {
    /// The full process view.
    Process,
    /// The compact widget.
    Widget,
}

/// What the shell is to do for a choice in the tray menu.
#[derive(Clone, Copy, Debug, PartialEq, Eq)]
pub enum TrayAction {
    /// Leave the program.
    Quit,
    /// Bring up the window in this view and at this size, in logical pixels.
    Open { view: ViewMode, width: u32, height: u32 },
    /// Give up the window; monitoring goes on.
    Close,
    /// Not an entry of the menu.
    Nothing,
}

/// The action behind a menu entry, by the entry's id.
pub open spec fn action_of(id: Seq<char>) -> TrayAction {
    if id == "quit"@ {
        TrayAction::Quit
    } else if id == "show"@ {
        TrayAction::Open { view: ViewMode::Process, width: 800, height: 600 }
    } else if id == "hide"@ {
        TrayAction::Close
    } else if id == "widget"@ {
        TrayAction::Open { view: ViewMode::Widget, width: 380, height: 540 }
    } else if id == "standard"@ {
        TrayAction::Open { view: ViewMode::Process, width: 800, height: 600 }
    } else {
        TrayAction::Nothing
    }
}

/// Computes [`action_of`].
pub fn tray_action(id: &str) -> (action: TrayAction)
    ensures
        action == action_of(id@),
{
    if same_text(id, "quit") {
        TrayAction::Quit
    } else if same_text(id, "show") {
        TrayAction::Open { view: ViewMode::Process, width: 800, height: 600 }
    } else if same_text(id, "hide") {
        TrayAction::Close
    } else if same_text(id, "widget") {
        TrayAction::Open { view: ViewMode::Widget, width: 380, height: 540 }
    } else if same_text(id, "standard") {
        TrayAction::Open { view: ViewMode::Process, width: 800, height: 600 }
    } else {
        TrayAction::Nothing
    }
}

/// The name under which a view is announced to the window.
pub fn view_name(view: ViewMode) -> (name: &'static str)
    ensures
        name@ == match view {
            ViewMode::Process => "process"@,
            ViewMode::Widget => "widget"@,
        },
{
    match view {
        ViewMode::Process => "process",
        ViewMode::Widget => "widget",
    }
}

} // verus!
