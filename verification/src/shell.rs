//! Decisions of the application shell: the search window's toggle and
//! the tray menu.
use vstd::prelude::*;
use crate::text::same_text;

verus! {

/// What to do with the search window.
#[derive(Debug, Clone, Copy, PartialEq, Eq, Structural)]
pub enum SearchWindowAction {
    /// Hide the window.
    Hide,
    /// Center, show and focus the window.
    Show,
}

/// The toggle for the search window, given whether it is visible (`None`
/// when that could not be told): a visible window is hidden, any other is shown.
pub fn search_window_toggle(visible: Option<bool>) -> (r: SearchWindowAction)
    ensures
        r == (if visible == Some(true) {
            SearchWindowAction::Hide
        } else {
            SearchWindowAction::Show
        }),
{
    match visible {
        Some(true) => SearchWindowAction::Hide,
        _ => SearchWindowAction::Show,
    }
}

/// What a tray menu entry asks for.
#[derive(Debug, Clone, Copy, PartialEq, Eq, Structural)]
pub enum TrayMenuAction {
    /// Show the search window.
    ShowSearch,
    /// Leave the application.
    Quit,
    /// Not an entry of this menu.
    Ignore,
}

/// The action for the tray menu entry with this id: "show" or "quit".
pub fn tray_menu_action(id: &str) -> (r: TrayMenuAction)
    ensures
        r == (if id@ == "show"@ {
            TrayMenuAction::ShowSearch
        } else if id@ == "quit"@ {
            TrayMenuAction::Quit
        } else {
            TrayMenuAction::Ignore
        }),
{
    if same_text(id, "show") {
        TrayMenuAction::ShowSearch
    } else if same_text(id, "quit") {
        TrayMenuAction::Quit
    } else {
        TrayMenuAction::Ignore
    }
}

} // verus!
