use i3more::bar::{all_classes, battery_label, strut_partial};
use i3more::fa::{fa_icon, BATTERY_HALF, BELL, BELL_SLASH};
use i3more::model::WorkspaceInfo;
use i3more::mru::{back_command, MruEntry};
use i3more::navigator::entry_classes;
use i3more::notify::dnd::{bell_markup, toggle_markup, DndState};
use i3more::notify::groups::group_by_app;
use i3more::notify::history::HistoryEntry;
use i3more::notify::popup::{popup_position, popup_slot, popup_timeout_ms};
use i3more::placement::{centered, east, find_monitor, focused_geometry, Rect};

fn wsi(num: i64, focused: bool, urgent: bool, visible: bool, classes: &[&str]) -> WorkspaceInfo {
    WorkspaceInfo {
        num,
        focused,
        urgent,
        visible,
        output: "A".into(),
        window_classes: classes.iter().map(|c| c.to_string()).collect(),
        focused_class: None,
        class_con_ids: Vec::new(),
    }
}

fn note(id: u32, app: &str) -> HistoryEntry {
    HistoryEntry {
        id,
        app_name: app.into(),
        app_icon: String::new(),
        summary: String::new(),
        body: String::new(),
        timestamp_secs: 0,
    }
}

#[test]
fn window_placement() {
    let r = Rect { x: 1920, y: 0, width: 2560, height: 1440 };
    assert_eq!(centered(r, 500, 450), (1920 + 1030, 495));
    assert_eq!(east(r, 250, 280), (1920 + 2560 - 250 - 10, 580));
    let small = Rect { x: 0, y: 0, width: 401, height: 99 };
    assert_eq!(centered(small, 600, 500), (-99, -200));
    let monitors = vec![(None, r), (Some("DP-1".to_string()), small), (Some("HDMI-1".to_string()), r)];
    assert_eq!(find_monitor(&monitors, "HDMI-1"), Some(r));
    assert_eq!(find_monitor(&monitors, "eDP-1"), None);
    assert_eq!(focused_geometry(&monitors, "DP-1"), small);
    let fallback = Rect { x: 0, y: 0, width: 1920, height: 1080 };
    assert_eq!(focused_geometry(&monitors, ""), fallback);
    assert_eq!(focused_geometry(&monitors, "VGA-1"), fallback);
}

#[test]
fn do_not_disturb() {
    let mut d = DndState::new(false);
    assert!(d.set_enabled(true));
    assert!(!d.set_enabled(true));
    assert!(d.is_enabled());
    d.toggle();
    assert!(!d.is_enabled());
    d.toggle();
    d.toggle();
    assert!(!d.is_enabled());
    assert_eq!(bell_markup(true), fa_icon(BELL_SLASH, "#a89984", 11));
    assert_eq!(toggle_markup(true), format!("{} DND on", fa_icon(BELL_SLASH, "#fb4934", 11)));
    assert_eq!(toggle_markup(false), format!("{} DND off", fa_icon(BELL, "#a89984", 11)));
}

#[test]
fn bar_texts() {
    let wss = vec![wsi(1, true, false, true, &["kitty", "firefox"]), wsi(2, false, true, true, &["firefox", "emacs"])];
    assert_eq!(all_classes(&wss), vec!["kitty".to_string(), "firefox".to_string(), "emacs".to_string()]);
    assert_eq!(entry_classes(&wss[0]), vec!["workspace-entry", "focused"]);
    assert_eq!(entry_classes(&wss[1]), vec!["workspace-entry", "urgent", "visible"]);
    assert_eq!(battery_label(42, false), format!("{} 42%", fa_icon(BATTERY_HALF, "#a89984", 9)));
    assert_eq!(strut_partial(1920), "0, 0, 40, 0, 0, 0, 0, 0, 0, 1919, 0, 0");
}

#[test]
fn back_focuses_previous_window() {
    let e = |id: i64| MruEntry { con_id: id, class: String::new(), title: String::new() };
    assert_eq!(back_command(&[e(5), e(93)]).as_deref(), Some("[con_id=\"93\"] focus"));
    assert_eq!(back_command(&[e(5)]), None);
    assert_eq!(back_command(&[]), None);
}

#[test]
fn panel_groups_by_application() {
    let hist = vec![note(9, "Slack"), note(8, ""), note(7, "Firefox"), note(6, "Slack"), note(5, "")];
    let groups = group_by_app(&hist);
    assert_eq!(
        groups,
        vec![
            ("Firefox".to_string(), vec![7]),
            ("Slack".to_string(), vec![9, 6]),
            ("Unknown".to_string(), vec![8, 5]),
        ]
    );
    assert!(group_by_app(&[]).is_empty());
}

#[test]
fn popup_stacking() {
    assert_eq!(popup_timeout_ms(0), 5000);
    assert_eq!(popup_timeout_ms(-1), 5000);
    assert_eq!(popup_timeout_ms(1200), 1200);
    assert_eq!(popup_position(1920, 0), (1562, 4));
    assert_eq!(popup_position(1920, 2), (1562, 192));
    assert_eq!(popup_slot(&[4, 7, 7], 7), Some(1));
    assert_eq!(popup_slot(&[4, 7], 3), None);
}
