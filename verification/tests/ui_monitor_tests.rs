use clipboard_manager::hyprland::is_version_ge;
use clipboard_manager::hyprland::parse_version_tag;
use clipboard_manager::monitor::MonitorAction;
use clipboard_manager::monitor::MonitorState;
use clipboard_manager::ui::AppState;
use clipboard_manager::ui::UiEffect;
use clipboard_manager::ui::UiKey;

#[test]
fn monitor_acts_once_per_text_change() {
    let mut m = MonitorState::new();
    assert_eq!(m.observe_text("hello"), MonitorAction::AddText);
    assert_eq!(m.observe_text("hello"), MonitorAction::Nothing);
    assert_eq!(m.observe_text("world"), MonitorAction::AddText);
}

#[test]
fn monitor_acts_once_per_image_change() {
    let mut m = MonitorState::new();
    let a: Vec<u8> = vec![1, 2, 3];
    let b: Vec<u8> = vec![4, 5, 6];
    assert_eq!(m.observe_image(&a), MonitorAction::AddImage);
    assert_eq!(m.observe_image(&a), MonitorAction::Nothing);
    assert_eq!(m.observe_image(&b), MonitorAction::AddImage);
}

#[test]
fn monitor_image_resets_text_memory() {
    let mut m = MonitorState::new();
    assert_eq!(m.observe_text("same"), MonitorAction::AddText);
    let img: Vec<u8> = vec![9];
    assert_eq!(m.observe_image(&img), MonitorAction::AddImage);
    assert_eq!(m.observe_text("same"), MonitorAction::AddText);
}

#[test]
fn monitor_heartbeat_every_67_polls() {
    let mut m = MonitorState::new();
    for _ in 0..66 {
        assert!(!m.on_poll());
    }
    assert!(m.on_poll());
    assert!(!m.on_poll());
}

#[test]
fn app_state_navigation_wraps() {
    let mut a = AppState::new();
    assert_eq!(a.selected, Some(0));
    a.next(3);
    assert_eq!(a.selected, Some(1));
    a.next(3);
    a.next(3);
    assert_eq!(a.selected, Some(0));
    a.previous(3);
    assert_eq!(a.selected, Some(2));
}

#[test]
fn app_state_empty_list_does_not_move() {
    let mut a = AppState::new();
    a.next(0);
    a.previous(0);
    assert_eq!(a.selected, Some(0));
    assert!(!a.should_quit);
}

#[test]
fn app_state_select_and_quit() {
    let mut a = AppState::new();
    a.next(5);
    a.select();
    assert_eq!(a.selected_index, Some(1));
    assert!(a.should_quit);
    let mut b = AppState::new();
    b.quit();
    assert!(b.should_quit);
    assert_eq!(b.selected_index, None);
}

#[test]
fn key_dispatch_clear_dialog_flow() {
    let mut a = AppState::new();
    assert_eq!(a.handle_key(UiKey::Char('c'), 2), UiEffect::Nothing);
    assert!(a.show_clear_confirm);
    assert_eq!(a.handle_key(UiKey::Down, 2), UiEffect::Nothing);
    assert!(a.show_clear_confirm);
    assert_eq!(a.handle_key(UiKey::Char('y'), 2), UiEffect::ClearHistory);
    assert!(!a.show_clear_confirm);
}

#[test]
fn key_dispatch_dialog_cancel() {
    let mut a = AppState::new();
    a.handle_key(UiKey::Char('C'), 1);
    assert!(a.show_clear_confirm);
    assert_eq!(a.handle_key(UiKey::Esc, 1), UiEffect::Nothing);
    assert!(!a.show_clear_confirm);
    assert!(!a.should_quit);
}

#[test]
fn key_dispatch_navigation_and_selection() {
    let mut a = AppState::new();
    a.handle_key(UiKey::Char('j'), 3);
    assert_eq!(a.selected, Some(1));
    a.handle_key(UiKey::Char('k'), 3);
    assert_eq!(a.selected, Some(0));
    a.handle_key(UiKey::Enter, 3);
    assert_eq!(a.selected_index, Some(0));
    assert!(a.should_quit);
}

#[test]
fn key_dispatch_ignores_clear_on_empty_list() {
    let mut a = AppState::new();
    a.handle_key(UiKey::Char('c'), 0);
    assert!(!a.show_clear_confirm);
    a.handle_key(UiKey::Enter, 0);
    assert!(!a.should_quit);
}

#[test]
fn key_dispatch_quits_on_q_and_esc() {
    let mut a = AppState::new();
    a.handle_key(UiKey::Char('q'), 3);
    assert!(a.should_quit);
    let mut b = AppState::new();
    b.handle_key(UiKey::Esc, 3);
    assert!(b.should_quit);
}

#[test]
fn version_comparison() {
    assert!(is_version_ge("0.53.1", 0, 53));
    assert!(is_version_ge("0.53.1-40-gdeadbeef", 0, 53));
    assert!(is_version_ge("1.2.3", 0, 53));
    assert!(is_version_ge("0.53", 0, 53));
    assert!(!is_version_ge("0.39.1", 0, 53));
    assert!(!is_version_ge("0", 0, 53));
    assert!(!is_version_ge("junk", 0, 53));
    assert!(!is_version_ge("", 0, 53));
    assert!(!is_version_ge("abc.def", 0, 53));
}

#[test]
fn version_tag_extraction() {
    let report = "Hyprland, built from branch main\n Tag: v0.53.1-40-g1234abcd \nflags: none";
    assert_eq!(parse_version_tag(report), Some(String::from("0.53.1-40-g1234abcd")));
    assert_eq!(parse_version_tag("no tag anywhere"), None);
    assert_eq!(parse_version_tag("Tag: v0.41.0"), Some(String::from("0.41.0")));
    assert_eq!(parse_version_tag(""), None);
}
