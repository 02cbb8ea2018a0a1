use i3more::devices::{
    device_position, filter_devices, process_device_changes, simplify_device_description, without_monitors, DeviceInfo,
    DeviceSnapshot,
};
use i3more::fa::{
    battery_glyph, fa_icon, BATTERY_1Q, BATTERY_3Q, BATTERY_EMPTY, BATTERY_FULL, BATTERY_HALF, BELL, BOLT, MICROPHONE,
    MICROPHONE_SLASH,
};
use i3more::notify::daemon::{action_pairs, get_capabilities, get_server_information, split_actions, IdAllocator};
use i3more::notify::history::{HistoryEntry, NotificationHistory, MAX_HISTORY};
use i3more::notify::image::image_data_of;
use i3more::linbus::value::Value;
use i3more::notify::render::{markup_escape_text, parse_notification_markup};
use i3more::panel::{
    default_source_description, has_real_source, mic_events, mic_icon_markup, mic_tooltip, power_actions, read_profiles,
    resolve_session_name, run_action, sanitise, short,
};
use i3more::speech::LocalDateTime;

fn hentry(id: u32, ts: u64) -> HistoryEntry {
    HistoryEntry {
        id,
        app_name: "app".into(),
        app_icon: String::new(),
        summary: format!("s{}", id),
        body: String::new(),
        timestamp_secs: ts,
    }
}

fn dev(name: &str, desc: &str) -> DeviceInfo {
    DeviceInfo { name: name.into(), description: desc.into() }
}

#[test]
fn relative_times() {
    let e = hentry(1, 1_000);
    assert_eq!(e.relative_time(1_030), "just now");
    assert_eq!(e.relative_time(1_000 + 150), "2m ago");
    assert_eq!(e.relative_time(1_000 + 3 * 3600 + 5), "3h ago");
    assert_eq!(e.relative_time(1_000 + 2 * 86400), "2d ago");
    assert_eq!(e.relative_time(500), "just now");
}

#[test]
fn history_newest_first_without_duplicates() {
    let mut h = NotificationHistory::new();
    h.push(hentry(1, 1));
    h.push(hentry(2, 2));
    h.push(hentry(1, 3));
    let ids: Vec<u32> = h.entries.iter().map(|e| e.id).collect();
    assert_eq!(ids, vec![1, 2]);
    assert_eq!(h.entries[0].timestamp_secs, 3);
    assert_eq!(h.unread_count, 3);
    h.mark_all_read();
    assert_eq!(h.unread_count, 0);
    h.remove(2);
    assert_eq!(h.entries.len(), 1);
    h.clear();
    assert!(h.entries.is_empty());
}

#[test]
fn history_is_capped() {
    let mut h = NotificationHistory::new();
    for i in 0..(MAX_HISTORY as u32 + 3) {
        h.push(hentry(i + 1, 0));
    }
    assert_eq!(h.entries.len(), MAX_HISTORY);
    assert_eq!(h.entries[0].id, MAX_HISTORY as u32 + 3);
}

#[test]
fn notification_ids() {
    let mut a = IdAllocator::new();
    assert_eq!(a.assign(0, None), 1);
    assert_eq!(a.assign(0, Some("vol".into())), 2);
    assert_eq!(a.assign(0, Some("vol".into())), 2);
    assert_eq!(a.assign(7, None), 7);
    assert_eq!(a.assign(0, None), 3);
    assert_eq!(a.assign(0, Some("bright".into())), 4);
}

#[test]
fn daemon_fixed_answers() {
    let pairs = action_pairs(&["default".to_string(), "Open".to_string(), "dangling".to_string()]);
    assert_eq!(pairs, vec![("default".to_string(), "Open".to_string())]);
    let caps = get_capabilities();
    assert_eq!(caps.len(), 7);
    assert!(caps.contains(&"actions".to_string()));
    assert_eq!(
        get_server_information(),
        ("i3more".to_string(), "i3more".to_string(), "0.1.0".to_string(), "1.2".to_string())
    );
}

#[test]
fn markup_is_sanitised() {
    assert_eq!(parse_notification_markup("plain text"), "plain text");
    assert_eq!(parse_notification_markup("<b>bold</b> and <I>it</I>"), "<b>bold</b> and <I>it</I>");
    assert_eq!(parse_notification_markup("<script>x</script>"), "x");
    assert_eq!(parse_notification_markup("a & b"), "a &amp; b");
    assert_eq!(parse_notification_markup("&lt;ok&gt;"), "&lt;ok&gt;");
    assert_eq!(parse_notification_markup("1 > 0"), "1 &gt; 0");
    assert_eq!(parse_notification_markup("<img src=\"x.png\" alt=\"A & B\">"), "A &amp; B");
    assert_eq!(
        parse_notification_markup("<a href=\"https://e.org\">link</a>"),
        "<a href=\"https://e.org\">link</a>"
    );
}

#[test]
fn markup_escape_appends() {
    let mut out = String::from("x:");
    let text: Vec<char> = "<a href='q'>\"&\"".chars().collect();
    markup_escape_text(&text, &mut out);
    assert_eq!(out, "x:&lt;a href=&#39;q&#39;&gt;&quot;&amp;&quot;");
}

#[test]
fn device_descriptions_and_filters() {
    assert_eq!(simplify_device_description("Raptor Lake-P/U/H cAVS Speaker + Headphones"), "Speaker + Headphones");
    assert_eq!(simplify_device_description("USB Headset"), "USB Headset");
    let devs = vec![dev("alsa.hdmi", "HDMI"), dev("alsa.usb", "USB"), dev("alsa.pci", "PCI")];
    let preferred = filter_devices(devs, &["*usb*".to_string(), "*".to_string()], &[]);
    let names: Vec<&str> = preferred.iter().map(|d| d.name.as_str()).collect();
    assert_eq!(names, vec!["alsa.usb", "alsa.hdmi", "alsa.pci"]);
    let devs = vec![dev("alsa.hdmi", "HDMI"), dev("alsa.usb", "USB")];
    let kept = filter_devices(devs, &[], &["*hdmi*".to_string()]);
    assert_eq!(kept.len(), 1);
    assert_eq!(kept[0].name, "alsa.usb");
    let sources = without_monitors(vec![dev("a.monitor", "m"), dev("mic", "Mic")]);
    assert_eq!(sources.len(), 1);
    assert_eq!(sources[0].name, "mic");
}

#[test]
fn device_change_notes() {
    let prev = DeviceSnapshot { sinks: vec![dev("s1", "Speakers")], sources: vec![] };
    let cur = DeviceSnapshot { sinks: vec![dev("s2", "USB DAC")], sources: vec![dev("m1", "Logitech Headset Mic")] };
    let notes = process_device_changes(&prev, &cur);
    assert_eq!(
        notes,
        vec![
            ("Audio Device Connected".to_string(), "USB DAC".to_string()),
            ("Audio Device Disconnected".to_string(), "Speakers".to_string()),
            ("Audio Device Connected".to_string(), "Logitech Headset Mic".to_string()),
            ("Headset Microphone Detected".to_string(), "Logitech Headset Mic".to_string()),
        ]
    );
    assert!(process_device_changes(&cur, &cur).is_empty());
}

#[test]
fn power_menu() {
    let actions = power_actions();
    let labels: Vec<&str> = actions.iter().map(|a| a.label).collect();
    assert_eq!(labels, vec!["Lock", "Logout", "Suspend", "Hibernate", "Reboot", "Shutdown"]);
    assert_eq!(run_action("Shutdown"), Some(("systemctl", "poweroff")));
    assert_eq!(run_action("Logout"), Some(("i3-msg", "exit")));
    assert_eq!(run_action("Dance"), None);
}

#[test]
fn power_profiles_list() {
    let out = "  performance:\n    Driver: intel\n* balanced:\n    Driver: intel\n  power-saver:\n";
    let p = read_profiles(out);
    let view: Vec<(&str, bool)> = p.iter().map(|x| (x.name.as_str(), x.active)).collect();
    assert_eq!(view, vec![("performance", false), ("balanced", true), ("power-saver", false)]);
}

#[test]
fn microphone_widget() {
    assert!(has_real_source(&["a.monitor".to_string(), "mic".to_string()]));
    assert!(!has_real_source(&["a.monitor".to_string()]));
    let items = vec![
        (Some("other".to_string()), Some("Other".to_string())),
        (Some("mic".to_string()), Some("Built-in Mic".to_string())),
    ];
    assert_eq!(default_source_description(&items, "mic").as_deref(), Some("Built-in Mic"));
    assert_eq!(default_source_description(&items, "none"), None);
    assert_eq!(mic_tooltip(true, Some("Built-in Mic".into())), "Built-in Mic\nMuted");
    assert_eq!(mic_tooltip(false, None), "Microphone: Active");
    assert_eq!(mic_events("Event 'change' on source #51"), (true, false));
    assert_eq!(mic_events("Event 'new' on source #52"), (false, true));
    assert_eq!(mic_events("Event 'change' on sink #3"), (false, false));
}

#[test]
fn speech_widget_names() {
    assert_eq!(sanitise("  My  talk: part/2 "), "My-talk-part2");
    let now = LocalDateTime { year: 2025, month: 12, day: 1, hour: 7, minute: 30, second: 0 };
    assert_eq!(resolve_session_name("???", now), "untitled-2025-12-01-07-30");
    assert_eq!(resolve_session_name("demo", now), "demo");
    assert_eq!(short("line one\nline two", 100), "line one line two");
    assert_eq!(short("abcdef", 3), "abc…");
}

#[test]
fn glyphs() {
    assert_eq!(battery_glyph(100, false), BATTERY_FULL);
    assert_eq!(battery_glyph(60, false), BATTERY_3Q);
    assert_eq!(battery_glyph(30, false), BATTERY_HALF);
    assert_eq!(battery_glyph(10, false), BATTERY_1Q);
    assert_eq!(battery_glyph(5, false), BATTERY_EMPTY);
    assert_eq!(battery_glyph(5, true), BOLT);
    assert_eq!(
        fa_icon(BELL, "#a89984", 10),
        "<span font=\"Font Awesome 6 Free Solid 10\" foreground=\"#a89984\">\u{f0f3}</span>"
    );
}

#[test]
fn image_hint() {
    let pixels = Value::Array(vec![Value::Byte(1), Value::Byte(2), Value::Byte(3)]);
    let hint = |w: i32| {
        Value::Variant(Box::new(Value::Struct(vec![
            Value::I32(w),
            Value::I32(1),
            Value::I32(3),
            Value::Bool(false),
            Value::I32(8),
            Value::I32(3),
            Value::Array(vec![Value::Byte(1), Value::Byte(2), Value::Byte(3)]),
        ])))
    };
    let img = image_data_of(&hint(1)).unwrap();
    assert_eq!((img.width, img.height, img.rowstride, img.has_alpha), (1, 1, 3, false));
    assert_eq!(img.data, vec![1, 2, 3]);
    assert!(image_data_of(&hint(0)).is_none());
    assert!(image_data_of(&pixels).is_none());
    assert!(image_data_of(&Value::Struct(vec![Value::I32(1)])).is_none());
}

#[test]
fn microphone_glyph() {
    assert_eq!(mic_icon_markup(true), fa_icon(MICROPHONE_SLASH, "#fb4934", 11));
    assert_eq!(mic_icon_markup(false), fa_icon(MICROPHONE, "#b8bb26", 11));
}

#[test]
fn default_action_is_not_a_button() {
    let pairs = action_pairs(&[
        "default".to_string(),
        "Open".to_string(),
        "reply".to_string(),
        "Reply".to_string(),
    ]);
    let (has_default, buttons) = split_actions(&pairs);
    assert!(has_default);
    assert_eq!(buttons, vec![("reply".to_string(), "Reply".to_string())]);
    let (has_default, buttons) = split_actions(&[]);
    assert!(!has_default);
    assert!(buttons.is_empty());
}

#[test]
fn default_device_selection() {
    let devs = vec![dev("a", "A"), dev("b", "B"), dev("b", "B2")];
    assert_eq!(device_position(&devs, "b"), Some(1));
    assert_eq!(device_position(&devs, "a"), Some(0));
    assert_eq!(device_position(&devs, "z"), None);
}

#[test]
fn device_snapshot_keeps_each_name_once() {
    let sinks = vec![dev("a", "A1"), dev("b", "B"), dev("a", "A2")];
    let snap = DeviceSnapshot::new(&sinks, &vec![dev("m", "Mic")]);
    let names: Vec<(String, String)> = snap.sinks.iter().map(|d| (d.name.clone(), d.description.clone())).collect();
    assert_eq!(names, vec![("a".to_string(), "A2".to_string()), ("b".to_string(), "B".to_string())]);
    assert_eq!(snap.sources.len(), 1);
    let before = DeviceSnapshot::new(&vec![dev("a", "A")], &vec![]);
    let notes = process_device_changes(&before, &snap);
    assert_eq!(notes, vec![("Audio Device Connected".to_string(), "B".to_string()), ("Audio Device Connected".to_string(), "Mic".to_string())]);
}
