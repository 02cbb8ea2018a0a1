use i3more::i3tree::WsInfo;
use i3more::ipc::{decode_header, encode_message, IpcError, HEADER_LEN, MSG_GET_TREE, MSG_RUN_COMMAND};
use i3more::keyhint::{binding_matches, get_focused_output, parse_keybindings, Keybinding};
use i3more::speech::{
    combine_segments, front_matter, hms_local, is_hallucination, iso_local, sanitise_session_name,
    strip_common_prefix, stt_root_of, transcript_entry, transcript_root, translation_outcome, translation_wanted, LocalDateTime, SegmentKind,
    SessionMeta, WindowState, KEEP_AFTER_COMMIT,
};

fn at(hour: u32, minute: u32, second: u32) -> LocalDateTime {
    LocalDateTime { year: 2024, month: 3, day: 7, hour, minute, second }
}

#[test]
fn session_names_are_path_safe() {
    assert_eq!(sanitise_session_name("Team sync: Q1/Q2"), "Team-sync-Q1-Q2");
    assert_eq!(sanitise_session_name("--a  b--"), "a-b");
    assert_eq!(sanitise_session_name("ok_name.v2"), "ok_name.v2");
    assert_eq!(sanitise_session_name("???"), "");
}

#[test]
fn session_meta_and_transcript_path() {
    let named = SessionMeta::new(Some("  weekly review ".to_string()), at(9, 5, 0));
    assert_eq!(named.name, "weekly-review");
    assert_eq!(named.transcript_path_under("/data/stt"), "/data/stt/2024-03-07/weekly-review.md");
    let untitled = SessionMeta::new(None, at(9, 5, 0));
    assert_eq!(untitled.name, "untitled-2024-03-07-09-05");
    let blank = SessionMeta::new(Some("   ".to_string()), at(23, 59, 1));
    assert_eq!(blank.name, "untitled-2024-03-07-23-59");
}

#[test]
fn local_time_text() {
    assert_eq!(iso_local(&at(8, 4, 9)), "2024-03-07T08:04:09");
    assert_eq!(hms_local(&at(8, 4, 9)), "08:04:09");
}

#[test]
fn provisional_suffix() {
    assert_eq!(strip_common_prefix("hello world again", "hello world"), "again");
    assert_eq!(strip_common_prefix("something else", "hello"), "something else");
    assert_eq!(strip_common_prefix("hello", ""), "hello");
    assert_eq!(strip_common_prefix("hello", "hello"), "");
}

#[test]
fn silence_annotations() {
    assert!(is_hallucination("[Musik]"));
    assert!(is_hallucination(" (Applause) "));
    assert!(is_hallucination("* Musik *"));
    assert!(is_hallucination("   "));
    assert!(is_hallucination("[Geräusche]"));
    assert!(!is_hallucination("Guten Morgen"));
}

#[test]
fn segments_combine_trimmed() {
    let segs = vec![" Hallo ".to_string(), "Welt".to_string(), "  ".to_string()];
    assert_eq!(combine_segments(&segs), "Hallo Welt");
    assert_eq!(combine_segments(&[]), "");
}

#[test]
fn window_steps_and_commits() {
    let mut w = WindowState::new(5000, 500);
    assert_eq!(w.length_samples, 80_000);
    assert_eq!(w.step_samples, 8_000);
    w.push_samples(&vec![1i16; 8_000]);
    assert!(!w.step_due());
    w.push_samples(&vec![2i16; 8_000]);
    assert!(w.step_due());
    assert_eq!(w.samples_since_step, 0);

    assert_eq!(w.on_transcript("hallo".to_string(), false), Some(("hallo".to_string(), SegmentKind::Provisional)));
    assert_eq!(w.on_transcript("hallo welt".to_string(), false), Some(("welt".to_string(), SegmentKind::Provisional)));
    assert_eq!(w.on_transcript("hallo welt".to_string(), false), None);
    assert_eq!(w.on_transcript("[Musik]".to_string(), false), None);
    assert_eq!(w.pending_final().as_deref(), Some("hallo welt"));
    assert_eq!(w.on_transcript("hallo welt!".to_string(), true), Some(("hallo welt!".to_string(), SegmentKind::Final)));
    assert_eq!(w.ring.len(), KEEP_AFTER_COMMIT);
    assert!(w.pending_final().is_none());
    assert!(w.on_silent_window().is_none());
}

#[test]
fn window_is_bounded_and_silence_commits() {
    let mut w = WindowState::new(1000, 500);
    w.push_samples(&vec![0i16; 20_000]);
    assert_eq!(w.ring.len(), 16_000);
    w.on_transcript("eins".to_string(), false);
    assert_eq!(w.on_silent_window().as_deref(), Some("eins"));
    assert!(w.ring.is_empty());
}

#[test]
fn keybindings_from_config() {
    let config = "set $mod Mod4\n  bindsym $mod+Return exec --no-startup-id kitty\nbindsym Mod1+Tab focus right\nbindsym $mod+x\n# bindsym commented out\nbindsym $mod+d exec rofi -show run\n";
    let b = parse_keybindings(config);
    assert_eq!(b.len(), 3);
    assert_eq!(b[0].keys, "Mod4+Return");
    assert_eq!(b[0].action, "kitty");
    assert_eq!(b[1].keys, "Alt+Tab");
    assert_eq!(b[1].action, "focus right");
    assert_eq!(b[2].action, "rofi -show run");
    let default_mod = parse_keybindings("bindsym $mod+q kill");
    assert_eq!(default_mod[0].keys, "Mod4+q");
}

#[test]
fn keybinding_search() {
    let b = Keybinding { keys: "Mod4+Return".to_string(), action: "kitty".to_string() };
    assert!(binding_matches(&b, ""));
    assert!(binding_matches(&b, "RETURN"));
    assert!(binding_matches(&b, "Kit"));
    assert!(!binding_matches(&b, "firefox"));
}

#[test]
fn focused_output() {
    let w = |out: &str, focused: bool| WsInfo {
        num: Some(1),
        name: Some("1".into()),
        output: Some(out.into()),
        focused: Some(focused),
        urgent: None,
        visible: None,
    };
    assert_eq!(get_focused_output(&[w("A", false), w("B", true)]).as_deref(), Some("B"));
    assert_eq!(get_focused_output(&[w("A", false)]), None);
}

#[test]
fn ipc_framing() {
    let frame = encode_message(MSG_RUN_COMMAND, b"workspace 2");
    assert_eq!(&frame[..6], b"i3-ipc");
    assert_eq!(&frame[6..10], &[11, 0, 0, 0]);
    assert_eq!(&frame[10..14], &[0, 0, 0, 0]);
    assert_eq!(&frame[14..], b"workspace 2");

    let head = encode_message(MSG_GET_TREE, &[0u8; 300]);
    assert_eq!(decode_header(&head[..HEADER_LEN]), Ok((MSG_GET_TREE, 300)));
    let mut bad = head[..HEADER_LEN].to_vec();
    bad[0] = b'x';
    assert_eq!(decode_header(&bad), Err(IpcError::BadMagic));
}

#[test]
fn transcript_text() {
    let meta = SessionMeta::new(Some("standup".to_string()), at(9, 0, 5));
    assert_eq!(
        front_matter(&meta, "de", "ggml-base.bin", false),
        "---\ntitle: standup\nstarted_at: 2024-03-07T09:00:05\nlanguage: de\nmodel: ggml-base.bin\n---\n\n"
    );
    assert!(front_matter(&meta, "de", "m", true).starts_with("\n---\n\n---\ntitle: standup"));
    assert_eq!(transcript_entry(&at(9, 1, 2), "Hallo", None), "- **09:01:02** \u{2014} Hallo\n");
    assert_eq!(
        transcript_entry(&at(9, 1, 2), "Hallo", Some("Hello")),
        "- **09:01:02** \u{2014} Hallo\n  - _Hello_\n"
    );
}

#[test]
fn translation_choices() {
    assert!(translation_wanted(true, "en", "de"));
    assert!(!translation_wanted(true, "de", "de"));
    assert!(!translation_wanted(true, "", "de"));
    assert!(!translation_wanted(false, "en", "de"));
    assert_eq!(translation_outcome(Ok("  Hello \n".to_string())).as_deref(), Some("Hello"));
    assert_eq!(translation_outcome(Ok("   ".to_string())), None);
    assert_eq!(
        translation_outcome(Err("timeout".to_string())).as_deref(),
        Some("\u{2014} translation unavailable \u{2014}")
    );
}

#[test]
fn transcripts_live_under_the_data_directory() {
    assert_eq!(stt_root_of(Some("/home/u/.local/share".to_string())), "/home/u/.local/share/i3more/stt");
    assert_eq!(stt_root_of(None), "/tmp/i3more/stt");
    let root = transcript_root();
    assert!(root.ends_with("/i3more/stt"));
    let named = SessionMeta::new(Some("review".to_string()), at(9, 5, 0));
    assert_eq!(named.transcript_path(), format!("{}/2024-03-07/review.md", root));
}
