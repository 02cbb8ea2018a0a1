use i3more::lock::auth::{pam_service_from, username_from};
use i3more::lock::config::LockConfig;
use i3more::lock::keys::{is_letter, keysym_to_action, resolve_key, KeyAction, KeyboardMap};
use i3more::lock::session::{apply_effect, backoff_secs, password_dots, KeyEffect, LockSession};
use x11rb::protocol::xproto::KeyButMask;

/// A keyboard mapping holding the given keysyms per keycode.
fn make_mapping(keysyms_per_keycode: usize, entries: &[(u8, &[u32])]) -> KeyboardMap {
    let min_keycode = entries.iter().map(|(k, _)| *k).min().unwrap_or(8);
    let max_keycode = entries.iter().map(|(k, _)| *k).max().unwrap_or(8);
    let total_slots = (max_keycode - min_keycode + 1) as usize * keysyms_per_keycode;
    let mut keysyms = vec![0u32; total_slots];
    for (keycode, syms) in entries {
        let offset = (*keycode - min_keycode) as usize * keysyms_per_keycode;
        for (i, &sym) in syms.iter().enumerate() {
            if i < keysyms_per_keycode {
                keysyms[offset + i] = sym;
            }
        }
    }
    KeyboardMap { min_keycode, keysyms_per_keycode, keysyms }
}

#[test]
fn is_letter_lowercase() {
    assert!(is_letter(0x0061));
    assert!(is_letter(0x007a));
}

#[test]
fn is_letter_uppercase() {
    assert!(is_letter(0x0041));
    assert!(is_letter(0x005a));
}

#[test]
fn is_letter_non_letter() {
    assert!(!is_letter(0x0031));
    assert!(!is_letter(0xff08));
    assert!(!is_letter(0x0020));
}

#[test]
fn keysym_backspace() {
    assert!(matches!(keysym_to_action(0xff08), Some(KeyAction::Backspace)));
}

#[test]
fn keysym_return() {
    assert!(matches!(keysym_to_action(0xff0d), Some(KeyAction::Return)));
}

#[test]
fn keysym_kp_enter() {
    assert!(matches!(keysym_to_action(0xff8d), Some(KeyAction::Return)));
}

#[test]
fn keysym_escape() {
    assert!(matches!(keysym_to_action(0xff1b), Some(KeyAction::Escape)));
}

#[test]
fn keysym_printable_ascii() {
    match keysym_to_action(0x0041) {
        Some(KeyAction::Character('A')) => {}
        other => panic!("Expected Character('A'), got {:?}", other),
    }
    match keysym_to_action(0x0020) {
        Some(KeyAction::Character(' ')) => {}
        other => panic!("Expected Character(' '), got {:?}", other),
    }
}

#[test]
fn keysym_latin1_supplement() {
    match keysym_to_action(0x00e9) {
        Some(KeyAction::Character('é')) => {}
        other => panic!("Expected Character('é'), got {:?}", other),
    }
}

#[test]
fn keysym_unknown_returns_none() {
    assert!(keysym_to_action(0xffff).is_none());
    assert!(keysym_to_action(0x0100).is_none());
}

#[test]
fn resolve_key_unshifted_letter() {
    let map = make_mapping(2, &[(38, &[0x61, 0x41])]);
    match resolve_key(&map, 38, 0) {
        Some(KeyAction::Character('a')) => {}
        other => panic!("Expected 'a', got {:?}", other),
    }
}

#[test]
fn resolve_key_shifted_letter() {
    let map = make_mapping(2, &[(38, &[0x61, 0x41])]);
    let shift: u16 = u16::from(KeyButMask::SHIFT);
    match resolve_key(&map, 38, shift) {
        Some(KeyAction::Character('A')) => {}
        other => panic!("Expected 'A', got {:?}", other),
    }
}

#[test]
fn resolve_key_caps_lock_letter() {
    let map = make_mapping(2, &[(38, &[0x61, 0x41])]);
    let caps: u16 = u16::from(KeyButMask::LOCK);
    match resolve_key(&map, 38, caps) {
        Some(KeyAction::Character('A')) => {}
        other => panic!("Expected 'A' (caps lock), got {:?}", other),
    }
}

#[test]
fn resolve_key_shift_plus_caps_cancels() {
    let map = make_mapping(2, &[(38, &[0x61, 0x41])]);
    let both: u16 = u16::from(KeyButMask::SHIFT) | u16::from(KeyButMask::LOCK);
    match resolve_key(&map, 38, both) {
        Some(KeyAction::Character('a')) => {}
        other => panic!("Expected 'a' (shift+caps cancel), got {:?}", other),
    }
}

#[test]
fn resolve_key_caps_on_non_letter_no_effect() {
    let map = make_mapping(2, &[(10, &[0x31, 0x21])]);
    let caps: u16 = u16::from(KeyButMask::LOCK);
    match resolve_key(&map, 10, caps) {
        Some(KeyAction::Character('1')) => {}
        other => panic!("Expected '1' (caps on non-letter), got {:?}", other),
    }
}

#[test]
fn resolve_key_special_keys() {
    let map = make_mapping(2, &[(22, &[0xff08, 0])]);
    assert!(matches!(resolve_key(&map, 22, 0), Some(KeyAction::Backspace)));
}

#[test]
fn resolve_key_past_mapping_is_none() {
    let map = make_mapping(2, &[(38, &[0x61, 0x41])]);
    assert!(resolve_key(&map, 200, 0).is_none());
}

#[test]
fn backoff_no_delay_under_3() {
    assert_eq!(backoff_secs(0), None);
    assert_eq!(backoff_secs(1), None);
    assert_eq!(backoff_secs(2), None);
}

#[test]
fn backoff_exponential_schedule() {
    assert_eq!(backoff_secs(3), Some(1));
    assert_eq!(backoff_secs(4), Some(2));
    assert_eq!(backoff_secs(5), Some(4));
    assert_eq!(backoff_secs(6), Some(8));
    assert_eq!(backoff_secs(7), Some(16));
    assert_eq!(backoff_secs(8), Some(32));
}

#[test]
fn backoff_caps_at_32s() {
    assert_eq!(backoff_secs(9), Some(32));
    assert_eq!(backoff_secs(100), Some(32));
}

#[test]
fn default_config() {
    let cfg = LockConfig::default();
    assert_eq!(cfg.clock_format, "%H:%M");
    assert!(cfg.avatar_path.is_none());
}

#[test]
fn session_locks_out_after_third_failure() {
    let mut s = LockSession::new();
    assert_eq!(s.handle_key(KeyAction::Character('x'), 0, 0).effect, KeyEffect::Append('x'));
    assert_eq!(s.handle_key(KeyAction::Return, 1, 0).effect, KeyEffect::Submit);
    assert!(s.authenticating);
    assert_eq!(s.handle_key(KeyAction::Character('y'), 1, 0).effect, KeyEffect::Ignored);
    assert_eq!(s.auth_failed(1_000), None);
    assert_eq!(s.auth_failed(2_000), None);
    assert_eq!(s.auth_failed(3_000), Some(1));
    assert_eq!(s.locked_until_ms, Some(4_000));
    assert_eq!(s.handle_key(KeyAction::Backspace, 1, 3_500).effect, KeyEffect::Ignored);
    let out = s.handle_key(KeyAction::Backspace, 1, 4_000);
    assert!(out.lock_expired);
    assert_eq!(out.effect, KeyEffect::RemoveLast);
    assert_eq!(s.locked_until_ms, None);
}

#[test]
fn session_empty_submit_and_abort() {
    let mut s = LockSession::new();
    assert_eq!(s.handle_key(KeyAction::Return, 0, 0).effect, KeyEffect::EmptySubmit);
    assert!(!s.authenticating);
    assert_eq!(s.handle_key(KeyAction::Escape, 3, 0).effect, KeyEffect::Clear);
    s.handle_key(KeyAction::Return, 3, 0);
    s.auth_aborted();
    assert!(!s.authenticating);
    assert_eq!(s.failed_attempts, 0);
}

#[test]
fn password_dots_spacing() {
    assert_eq!(password_dots(0), "");
    assert_eq!(password_dots(1), "\u{25cf}");
    assert_eq!(password_dots(3), "\u{25cf}  \u{25cf}  \u{25cf}");
}

#[test]
fn pam_service_and_user() {
    assert_eq!(pam_service_from(None), "i3more-lock");
    assert_eq!(pam_service_from(Some("i3more-lock-test".into())), "i3more-lock-test");
    assert_eq!(username_from(Some("testuser".into()), Some("loguser".into())), "testuser");
    assert_eq!(username_from(None, Some("loguser".into())), "loguser");
    assert_eq!(username_from(None, None), "unknown");
}

#[test]
fn key_effects_change_the_password() {
    let mut p = String::from("ab");
    apply_effect(&mut p, KeyEffect::Append('\u{e9}'));
    assert_eq!(p, "ab\u{e9}");
    apply_effect(&mut p, KeyEffect::RemoveLast);
    assert_eq!(p, "ab");
    apply_effect(&mut p, KeyEffect::Submit);
    assert_eq!(p, "ab");
    apply_effect(&mut p, KeyEffect::Clear);
    assert_eq!(p, "");
    apply_effect(&mut p, KeyEffect::RemoveLast);
    assert_eq!(p, "");
}

#[test]
fn typing_then_submitting_keeps_the_password_until_rejected() {
    let mut s = LockSession::new();
    let mut p = String::new();
    s.press_key(&mut p, KeyAction::Character('p'), 0);
    s.press_key(&mut p, KeyAction::Character('w'), 0);
    s.press_key(&mut p, KeyAction::Character('x'), 0);
    s.press_key(&mut p, KeyAction::Backspace, 0);
    assert_eq!(p, "pw");
    assert_eq!(s.press_key(&mut p, KeyAction::Return, 0).effect, KeyEffect::Submit);
    assert!(s.authenticating);
    assert_eq!(s.press_key(&mut p, KeyAction::Character('z'), 0).effect, KeyEffect::Ignored);
    assert_eq!(p, "pw");
    assert_eq!(s.reject(&mut p, 0), None);
    assert_eq!(p, "");
    assert!(!s.authenticating);
    s.press_key(&mut p, KeyAction::Character('q'), 0);
    s.press_key(&mut p, KeyAction::Escape, 0);
    assert_eq!(p, "");
    assert_eq!(s.press_key(&mut p, KeyAction::Return, 0).effect, KeyEffect::EmptySubmit);
    assert!(!s.authenticating);
}

#[test]
fn get_username_from_user_env() {
    assert_eq!(username_from(Some("testuser".into()), None), "testuser");
}

#[test]
fn get_username_fallback_to_logname() {
    assert_eq!(username_from(None, Some("loguser".into())), "loguser");
}

#[test]
fn pam_service_default() {
    assert_eq!(pam_service_from(None), "i3more-lock");
}

#[test]
fn pam_service_override() {
    assert_eq!(pam_service_from(Some("i3more-lock-test".into())), "i3more-lock-test");
}
