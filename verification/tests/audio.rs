use i3more::audio::{
    filter_sinks, matches_glob, muted_from_output, next_sink_index, sink_description_in, sink_input_ids, sinks_from_output,
    volume_from_output, volume_icon, volume_up_target, AudioConfig, Sink,
};

#[test]
fn test_matches_glob_exact() {
    assert!(matches_glob("foo", "foo"));
    assert!(!matches_glob("foo", "bar"));
}

#[test]
fn test_matches_glob_star_suffix() {
    assert!(matches_glob("alsa_output.usb-Logitech_Zone_Wired-00.analog-stereo", "alsa_output.usb-Logitech_Zone_Wired-*"));
    assert!(!matches_glob("alsa_output.pci-something", "alsa_output.usb-Logitech_Zone_Wired-*"));
}

#[test]
fn test_matches_glob_star_prefix() {
    assert!(matches_glob("alsa_output.pci-0000:00:1f.3-platform-skl_hda_dsp_generic.analog-stereo", "*analog-stereo"));
    assert!(!matches_glob("alsa_output.pci-0000:00:1f.3-platform-skl_hda_dsp_generic.hdmi-stereo", "*analog-stereo"));
}

#[test]
fn test_matches_glob_star_middle() {
    assert!(matches_glob("alsa_output.pci-0000:00:1f.3.hdmi-stereo-extra1", "alsa_output.pci-*hdmi-stereo*"));
    assert!(!matches_glob("alsa_output.usb-Logitech.analog-stereo", "alsa_output.pci-*hdmi-stereo*"));
}

#[test]
fn test_matches_glob_multiple_stars() {
    assert!(matches_glob("alsa_output.pci-0000:00:1f.3-platform-skl_hda_dsp_generic.analog-stereo", "alsa_output.pci-*analog-stereo"));
}

#[test]
fn test_filter_sinks_preferred() {
    let sinks = vec![
        Sink { id: 1, name: "alsa_output.pci-hdmi-stereo".into() },
        Sink { id: 2, name: "alsa_output.usb-Logitech-00.analog".into() },
        Sink { id: 3, name: "alsa_output.pci-analog-stereo".into() },
    ];
    let config = AudioConfig {
        preferred_sinks: vec!["alsa_output.usb-Logitech*".into(), "alsa_output.pci-*analog*".into()],
        excluded_sinks: vec![],
    };
    let filtered = filter_sinks(sinks, &config);
    assert_eq!(filtered.len(), 2);
    assert_eq!(filtered[0].name, "alsa_output.usb-Logitech-00.analog");
    assert_eq!(filtered[1].name, "alsa_output.pci-analog-stereo");
}

#[test]
fn test_filter_sinks_excluded() {
    let sinks = vec![
        Sink { id: 1, name: "alsa_output.pci-hdmi-stereo".into() },
        Sink { id: 2, name: "alsa_output.usb-Logitech-00.analog".into() },
        Sink { id: 3, name: "alsa_output.pci-analog-stereo".into() },
    ];
    let config = AudioConfig {
        preferred_sinks: vec![],
        excluded_sinks: vec!["*hdmi*".into()],
    };
    let filtered = filter_sinks(sinks, &config);
    assert_eq!(filtered.len(), 2);
    assert!(filtered.iter().all(|s| !s.name.contains("hdmi")));
}

#[test]
fn test_filter_sinks_no_config() {
    let sinks = vec![
        Sink { id: 1, name: "a".into() },
        Sink { id: 2, name: "b".into() },
    ];
    let config = AudioConfig::default();
    let filtered = filter_sinks(sinks, &config);
    assert_eq!(filtered.len(), 2);
}

#[test]
fn test_volume_icon() {
    assert_eq!(volume_icon(50, true), "audio-volume-muted");
    assert_eq!(volume_icon(0, false), "audio-volume-low");
    assert_eq!(volume_icon(33, false), "audio-volume-low");
    assert_eq!(volume_icon(34, false), "audio-volume-medium");
    assert_eq!(volume_icon(66, false), "audio-volume-medium");
    assert_eq!(volume_icon(67, false), "audio-volume-high");
    assert_eq!(volume_icon(100, false), "audio-volume-high");
}

#[test]
fn glob_star_alone_matches_everything() {
    assert!(matches_glob("", "*"));
    assert!(matches_glob("anything at all", "*"));
    assert!(!matches_glob("", "a"));
}

#[test]
fn pactl_volume_and_mute() {
    let text = "Volume: front-left: 32768 /  50% / -18.06 dB,   front-right: 32768 /  50% / -18.06 dB";
    assert_eq!(volume_from_output(text), Some(50));
    assert_eq!(volume_from_output("no numbers here"), None);
    assert!(muted_from_output("Mute: yes"));
    assert!(!muted_from_output("Mute: no"));
}

#[test]
fn pactl_sink_lists() {
    let text = "47\talsa_output.pci-analog-stereo\tPipeWire\ts32le 2ch 48000Hz\tSUSPENDED\nbad line\n52\talsa_output.usb-x\tPipeWire";
    let sinks = sinks_from_output(text);
    assert_eq!(sinks.len(), 2);
    assert_eq!(sinks[0].id, 47);
    assert_eq!(sinks[0].name, "alsa_output.pci-analog-stereo");
    assert_eq!(sinks[1].id, 52);
    assert_eq!(sink_input_ids("12\t47\tx\n13\t47\ty"), vec!["12".to_string(), "13".to_string()]);
}

#[test]
fn sink_switch_wraps_around() {
    let sinks = vec![Sink { id: 1, name: "a".into() }, Sink { id: 2, name: "b".into() }];
    assert_eq!(next_sink_index(&sinks, "a"), Some(1));
    assert_eq!(next_sink_index(&sinks, "b"), Some(0));
    assert_eq!(next_sink_index(&sinks, "zzz"), Some(0));
    assert_eq!(next_sink_index(&Vec::new(), "a"), None);
}

#[test]
fn volume_step_is_capped() {
    assert_eq!(volume_up_target(10), 11);
    assert_eq!(volume_up_target(99), 100);
    assert_eq!(volume_up_target(100), 100);
}

#[test]
fn glob_must_cover_the_whole_name() {
    assert!(!matches_glob("abab", "ab"));
    assert!(!matches_glob("x", ""));
    assert!(matches_glob("", ""));
    assert!(matches_glob("abab", "ab*"));
    assert!(matches_glob("abab", "*ab"));
    assert!(matches_glob("abab", "a*b"));
    assert!(!matches_glob("abab", "a*a"));
    assert!(matches_glob("a*b", "a*b"));
}

#[test]
fn sink_description_lookup() {
    let f = |n: Option<&str>, d: Option<&str>| (n.map(String::from), d.map(String::from));
    let sinks = vec![
        f(Some("a"), None),
        f(None, Some("nameless")),
        f(Some("a"), Some("Speakers A")),
        f(Some("b"), Some("Speakers B")),
    ];
    assert_eq!(sink_description_in(&sinks, "a"), "Speakers A");
    assert_eq!(sink_description_in(&sinks, "b"), "Speakers B");
    assert_eq!(sink_description_in(&sinks, "c"), "c");
    assert_eq!(sink_description_in(&Vec::new(), "x"), "x");
}
