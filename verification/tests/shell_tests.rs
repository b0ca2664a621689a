use desktop_find::shell::{search_window_toggle, tray_menu_action, SearchWindowAction, TrayMenuAction};

#[test]
fn toggle_hides_only_a_visible_window() {
    assert_eq!(search_window_toggle(Some(true)), SearchWindowAction::Hide);
    assert_eq!(search_window_toggle(Some(false)), SearchWindowAction::Show);
    assert_eq!(search_window_toggle(None), SearchWindowAction::Show);
}

#[test]
fn tray_menu_entries() {
    assert_eq!(tray_menu_action("show"), TrayMenuAction::ShowSearch);
    assert_eq!(tray_menu_action("quit"), TrayMenuAction::Quit);
    assert_eq!(tray_menu_action("Show"), TrayMenuAction::Ignore);
    assert_eq!(tray_menu_action(""), TrayMenuAction::Ignore);
}
