use i3more::icon::{
    cache_content, decode_disk_cache, find_icon_name, icon_candidates, parse_desktop_entry, resolve_found,
    resolve_icon, resolve_icon_in_theme, simple_hash, DesktopEntry, IconResult,
};
use i3more::icon_cache::{IconResolver, LRU_CAPACITY};
use i3more::launcher::{
    filter_entries, launch_command, order_entries, parse_launcher_entry, strip_field_codes, LauncherEntry, RawEntry,
};
use i3more::text::{lex_le_chars, parse_i64_chars, parse_u32_chars, trim_chars};

fn raw(name: &str, exec: &str, keywords: &str) -> RawEntry {
    RawEntry {
        name: name.into(),
        generic_name: String::new(),
        exec_cmd: exec.into(),
        icon_name: String::new(),
        keywords: keywords.into(),
        categories: String::new(),
        terminal: false,
    }
}

fn app(name: &str, exec: &str, keywords: &str) -> LauncherEntry {
    LauncherEntry::from_raw(raw(name, exec, keywords), IconResult::NotFound)
}

fn desktop(base: &str, wm: &str, icon: &str) -> DesktopEntry {
    DesktopEntry {
        path: format!("/usr/share/applications/{}.desktop", base),
        basename_lower: base.into(),
        startup_wm_class_lower: wm.into(),
        icon: icon.into(),
    }
}

fn is_name(r: &IconResult, want: &str) -> bool {
    matches!(r, IconResult::IconName(n) if n == want)
}

fn is_path(r: &IconResult, want: &str) -> bool {
    matches!(r, IconResult::FilePath(p) if p == want)
}

#[test]
fn launcher_entry_parsing() {
    let content = "[Desktop Entry]\nType=Application\nName=Files\nName=Other\nExec=nautilus %U\nIcon=org.gnome.Nautilus\nTerminal=TRUE\nKeywords=folder;manager;\n[Desktop Action new]\nName=New Window\n";
    let e = parse_launcher_entry(content).unwrap();
    assert_eq!(e.name, "Files");
    assert_eq!(e.exec_cmd, "nautilus %U");
    assert_eq!(e.icon_name, "org.gnome.Nautilus");
    assert!(e.terminal);
    assert_eq!(e.keywords, "folder;manager;");
    assert!(parse_launcher_entry("[Desktop Entry]\nName=X\nExec=x\nNoDisplay=true\n").is_none());
    assert!(parse_launcher_entry("[Desktop Entry]\nType=Link\nName=X\nExec=x\n").is_none());
    assert!(parse_launcher_entry("[Desktop Entry]\nName=X\n").is_none());
}

#[test]
fn field_codes_and_commands() {
    assert_eq!(strip_field_codes("firefox %u --new %% %z"), "firefox  --new % %z");
    let mut term = app("Htop", "htop %F", "");
    term.terminal = true;
    assert_eq!(launch_command(&term, Some("kitty".into())).as_deref(), Some("kitty -e htop"));
    assert_eq!(launch_command(&term, None).as_deref(), Some("x-terminal-emulator -e htop"));
    assert_eq!(launch_command(&app("A", "  a  ", ""), None).as_deref(), Some("a"));
    assert_eq!(launch_command(&app("A", "%U", ""), None), None);
}

#[test]
fn search_haystack_and_ranking() {
    let entries = vec![
        app("Text Editor", "gedit", "notepad"),
        app("Firefox", "firefox", "browser;web"),
        app("Notes", "notes", ""),
        app("Web Notes", "wn", ""),
    ];
    assert_eq!(entries[1].search_haystack, "firefox  browser;web ");
    let all = filter_entries(&entries, "");
    assert_eq!(all.len(), 4);
    let hits: Vec<&str> = filter_entries(&entries, "NOTE").iter().map(|e| e.name.as_str()).collect();
    assert_eq!(hits, vec!["Notes", "Web Notes", "Text Editor"]);
    assert!(filter_entries(&entries, "zzz").is_empty());
}

#[test]
fn entries_sorted_and_deduplicated() {
    let ordered = order_entries(vec![
        app("b", "b", ""),
        app("A", "a", ""),
        app("b", "b", ""),
        app("b", "other", ""),
    ]);
    let names: Vec<(&str, &str)> = ordered.iter().map(|e| (e.name.as_str(), e.exec_cmd.as_str())).collect();
    assert_eq!(names, vec![("A", "a"), ("b", "b"), ("b", "other")]);
}

#[test]
fn desktop_index_lookup() {
    let (icon, wm) = parse_desktop_entry("[Desktop Entry]\nIcon= code \nStartupWMClass=Code\n[Other]\nIcon=x\n");
    assert_eq!(icon, "code");
    assert_eq!(wm, "Code");
    let index = vec![
        desktop("org.gnome.terminal", "gnome-terminal-server", "utilities-terminal"),
        desktop("code_code", "", "vscode"),
        desktop("firefox-esr", "", "firefox-esr"),
    ];
    assert_eq!(find_icon_name(&index, "gnome-terminal-server").as_deref(), Some("utilities-terminal"));
    assert_eq!(find_icon_name(&index, "code").as_deref(), Some("vscode"));
    assert_eq!(find_icon_name(&index, "firefox").as_deref(), Some("firefox-esr"));
    assert_eq!(find_icon_name(&index, "gimp"), None);
}

#[test]
fn theme_lookup() {
    let cands = icon_candidates("kitty");
    assert_eq!(cands[0], "/usr/share/icons/hicolor/48x48/apps/kitty.svg");
    assert_eq!(cands[1], "/usr/share/icons/hicolor/48x48/apps/kitty.png");
    assert_eq!(cands.last().unwrap(), "/usr/share/pixmaps/kitty.xpm");
    let present = |p: &str| p == "/usr/share/icons/hicolor/scalable/apps/kitty.svg" || p == "/opt/k.png";
    assert_eq!(
        resolve_icon_in_theme("kitty", &present).as_deref(),
        Some("/usr/share/icons/hicolor/scalable/apps/kitty.svg")
    );
    assert!(is_path(&resolve_icon("kitty", &present), "/usr/share/icons/hicolor/scalable/apps/kitty.svg"));
    assert!(is_name(&resolve_icon("gimp", &present), "gimp"));
    assert!(is_path(&resolve_icon("/opt/k.png", &present), "/opt/k.png"));
    assert!(matches!(resolve_icon("/opt/gone.png", &present), IconResult::NotFound));
    assert!(matches!(resolve_icon("", &present), IconResult::NotFound));
    assert!(matches!(resolve_found(None, &present), IconResult::NotFound));
}

#[test]
fn disk_cache_format() {
    let present = |p: &str| p == "/icons/a.png";
    assert_eq!(cache_content(&IconResult::IconName("firefox".into())), "firefox");
    assert_eq!(cache_content(&IconResult::NotFound), "");
    assert!(matches!(decode_disk_cache("  \n", &present), Some(IconResult::NotFound)));
    assert!(is_name(&decode_disk_cache(" firefox\n", &present).unwrap(), "firefox"));
    assert!(is_path(&decode_disk_cache("/icons/a.png\n", &present).unwrap(), "/icons/a.png"));
    assert!(decode_disk_cache("/icons/gone.png", &present).is_none());
    assert_eq!(simple_hash(""), "cbf29ce484222325");
    assert_eq!(simple_hash("a"), "af63dc4c8601ec8c");
}

#[test]
fn resolver_remembers_results() {
    let present = |p: &str| p == "/usr/share/pixmaps/vscode.png";
    let index = vec![desktop("code_code", "", "vscode")];
    let mut r = IconResolver::new("/cache".into(), vec!["/usr/share/applications/code_code.desktop".into()], index);
    let (key, hit) = r.lookup("Code");
    assert_eq!(key, "code");
    assert_eq!(r.lookup("ÄRGER").0, "ärger");
    assert!(hit.is_none());
    assert_eq!(r.disk_cache_path("code"), format!("/cache/{}", simple_hash("code")));
    let (res, text) = r.resolve_full(key.clone(), &present);
    assert!(is_path(&res, "/usr/share/pixmaps/vscode.png"));
    assert_eq!(text, "/usr/share/pixmaps/vscode.png");
    let (_, hit) = r.lookup("CODE");
    assert!(is_path(&hit.unwrap(), "/usr/share/pixmaps/vscode.png"));

    let (from_disk, stale) = r.from_disk("term".into(), Some("utilities-terminal".into()), &present);
    assert!(is_name(&from_disk.unwrap(), "utilities-terminal"));
    assert!(!stale);
    let (none, stale) = r.from_disk("old".into(), Some("/gone.png".into()), &present);
    assert!(none.is_none());
    assert!(stale);
    assert!(r.lookup("old").1.is_none());
    assert!(LRU_CAPACITY > 0);
}

#[test]
fn text_helpers() {
    let t: String = trim_chars(&"  a b \n".chars().collect::<Vec<char>>()).into_iter().collect();
    assert_eq!(t, "a b");
    assert_eq!(parse_u32_chars(&"4294967295".chars().collect::<Vec<_>>()), Some(u32::MAX));
    assert_eq!(parse_u32_chars(&"4294967296".chars().collect::<Vec<_>>()), None);
    assert_eq!(parse_i64_chars(&"-42".chars().collect::<Vec<_>>()), Some(-42));
    assert_eq!(parse_i64_chars(&"+7".chars().collect::<Vec<_>>()), Some(7));
    assert_eq!(parse_i64_chars(&"x".chars().collect::<Vec<_>>()), None);
    assert!(lex_le_chars(&['a', 'b'], &['a', 'c']));
    assert!(!lex_le_chars(&['b'], &['a', 'z']));
}

#[test]
fn resolver_drops_the_least_recently_used() {
    let present = |_: &str| false;
    let mut r = IconResolver::new("/cache".into(), vec![], vec![]);
    for i in 0..LRU_CAPACITY {
        let (v, _) = r.from_disk(format!("k{}", i), Some(format!("icon{}", i)), &present);
        assert!(v.is_some());
    }
    // k0 is used again, so k1 is now the least recently used.
    assert!(r.lookup("k0").1.is_some());
    let (v, _) = r.from_disk("new".into(), Some("icon-new".into()), &present);
    assert!(v.is_some());
    assert!(r.lookup("k1").1.is_none());
    assert!(r.lookup("k0").1.is_some());
    assert!(r.lookup("k2").1.is_some());
    assert!(r.lookup("new").1.is_some());
}
