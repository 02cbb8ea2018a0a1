use i3more::auto_unmax::revert_command;
use i3more::i3tree::{I3Node, OutputInfo, WsInfo};
use i3more::layout_cmd::{build_cascade_command, focused_parent_layout, focused_workspace, layout_tooltip, resolve_layout};
use i3more::model::build_tree_snapshot;
use i3more::renames::rename_steps;
use i3more::mru::{entry_from_container, find_focused, MruEntry, MruTracker, MAX_ENTRIES};
use i3more::sequencer::{
    focus_cmd, focus_next_on_output, get_output_spatial_order, rename_cmd, renumber_workspaces, tmp_name,
    tmp_recoveries,
};

fn node(node_type: &str, id: i64) -> I3Node {
    I3Node {
        node_type: Some(node_type.to_string()),
        id: Some(id),
        num: None,
        name: None,
        focused: Some(false),
        window: None,
        class: None,
        layout: Some("splith".to_string()),
        last_split_layout: None,
        marks: Vec::new(),
        focus_first: None,
        nodes: Vec::new(),
        floating_nodes: Vec::new(),
    }
}

fn window(id: i64, class: &str, focused: bool) -> I3Node {
    let mut n = node("con", id);
    n.window = Some(1000 + id as u64);
    n.class = Some(class.to_string());
    n.name = Some(format!("title {}", id));
    n.focused = Some(focused);
    n.layout = Some("none".to_string());
    n
}

fn workspace(id: i64, num: i64, kids: Vec<I3Node>) -> I3Node {
    let mut n = node("workspace", id);
    n.num = Some(num);
    n.name = Some(num.to_string());
    n.nodes = kids;
    n
}

fn root(workspaces: Vec<I3Node>) -> I3Node {
    let mut output = node("output", 2);
    output.nodes = workspaces;
    let mut r = node("root", 1);
    r.nodes = vec![output];
    r
}

fn ws(num: i64, name: &str, output: &str, focused: bool) -> WsInfo {
    WsInfo {
        num: Some(num),
        name: Some(name.to_string()),
        output: Some(output.to_string()),
        focused: Some(focused),
        urgent: Some(false),
        visible: Some(focused),
    }
}

fn entry(id: i64) -> MruEntry {
    MruEntry { con_id: id, class: format!("c{}", id), title: String::new() }
}

#[test]
fn outputs_sorted_left_to_right() {
    let outputs = vec![
        OutputInfo { active: Some(true), name: Some("HDMI-1".into()), x: Some(1920) },
        OutputInfo { active: Some(false), name: Some("VGA-1".into()), x: Some(0) },
        OutputInfo { active: Some(true), name: Some("eDP-1".into()), x: Some(0) },
    ];
    assert_eq!(get_output_spatial_order(&outputs), vec!["eDP-1".to_string(), "HDMI-1".to_string()]);
}

#[test]
fn focus_prefers_next_higher_then_lower() {
    let wss = vec![ws(1, "1", "A", false), ws(3, "3", "A", false), ws(5, "5", "B", false), ws(4, "4", "A", false)];
    assert_eq!(focus_next_on_output(&wss, "A", 2), Some(3));
    assert_eq!(focus_next_on_output(&wss, "A", 4), Some(3));
    assert_eq!(focus_next_on_output(&[ws(2, "2", "A", false)], "A", 5), Some(2));
    assert_eq!(focus_next_on_output(&wss, "C", 4), None);
}

#[test]
fn renumbering_plan() {
    let order = vec!["L".to_string(), "R".to_string()];
    let wss = vec![ws(1, "1", "R", false), ws(4, "4", "L", true), ws(7, "7", "R", false)];
    let plan = renumber_workspaces(&wss, &order).unwrap();
    let renames: Vec<(String, String, bool)> = plan.renames.clone();
    assert_eq!(
        renames,
        vec![
            ("4".to_string(), "1".to_string(), true),
            ("1".to_string(), "2".to_string(), false),
            ("7".to_string(), "3".to_string(), false),
        ]
    );
    assert_eq!(plan.focused_target, Some(1));
    assert!(plan.two_pass);

    let sequential = vec![ws(1, "1", "L", true), ws(2, "2", "R", false)];
    assert!(renumber_workspaces(&sequential, &order).is_none());

    let gap = vec![ws(1, "1", "L", false), ws(3, "3", "L", true)];
    let plan = renumber_workspaces(&gap, &order).unwrap();
    assert!(!plan.two_pass);
    assert_eq!(plan.focused_target, Some(2));
}

#[test]
fn sequencer_commands() {
    assert_eq!(rename_cmd("4", "1"), "rename workspace \"4\" to \"1\"");
    assert_eq!(tmp_name("3"), "_tmp_3");
    assert_eq!(focus_cmd(12), "workspace number 12");
    assert_eq!(focus_cmd(-1), "workspace number -1");
    let left = vec![ws(-1, "_tmp_2", "A", false), ws(-1, "_tmp_x", "A", false), ws(1, "1", "A", false)];
    assert_eq!(tmp_recoveries(&left), vec![("_tmp_2".to_string(), "2".to_string())]);
}

#[test]
fn snapshot_collects_classes_and_layout() {
    let mut split = node("con", 20);
    split.layout = Some("tabbed".to_string());
    split.nodes = vec![window(21, "firefox", false), window(22, "kitty", true)];
    let tree = root(vec![
        workspace(10, 1, vec![window(11, "kitty", false), split, window(12, "kitty", false)]),
        workspace(30, 2, vec![window(31, "emacs", false)]),
    ]);
    let wss = vec![ws(2, "2", "R", false), ws(1, "1", "L", true)];
    let order = vec!["L".to_string(), "R".to_string()];
    let snap = build_tree_snapshot(&wss, &tree, &order);
    assert_eq!(snap.workspaces.len(), 2);
    let first = &snap.workspaces[0];
    assert_eq!(first.num, 1);
    assert_eq!(first.window_classes, vec!["kitty".to_string(), "firefox".to_string()]);
    assert_eq!(first.focused_class.as_deref(), Some("kitty"));
    let kitty = first.class_con_ids.iter().find(|(c, _)| c == "kitty").unwrap();
    assert_eq!(kitty.1, vec![11, 22, 12]);
    assert_eq!(snap.workspaces[1].num, 2);
    assert_eq!(snap.workspaces[1].window_classes, vec!["emacs".to_string()]);
    assert_eq!(snap.focused_parent_layout.as_deref(), Some("tabbed"));
    assert!(snap.auto_unmax_cmd.is_none());
}

#[test]
fn maximized_container_reverts_when_joined() {
    let mut split = node("con", 20);
    split.layout = Some("tabbed".to_string());
    split.last_split_layout = Some("splitv".to_string());
    split.marks = vec!["_i3more_maxed_1".to_string()];
    split.nodes = vec![window(21, "a", false), window(22, "b", true)];
    let tree = root(vec![workspace(10, 1, vec![split])]);
    let expected = "[con_mark=\"_i3more_maxed_1\"] layout splitv; [con_mark=\"_i3more_maxed_1\"] unmark _i3more_maxed_1";
    assert_eq!(revert_command(&tree).as_deref(), Some(expected));

    let mut lone = node("con", 20);
    lone.layout = Some("tabbed".to_string());
    lone.marks = vec!["_i3more_maxed_1".to_string()];
    lone.nodes = vec![window(21, "a", true)];
    assert!(revert_command(&root(vec![workspace(10, 1, vec![lone])])).is_none());
}

#[test]
fn cascade_over_focused_workspace() {
    assert_eq!(build_cascade_command(None, "splitv"), "layout splitv");
    let mut split = node("con", 20);
    split.nodes = vec![window(21, "a", true), window(22, "b", false)];
    let tree = root(vec![workspace(10, 1, vec![window(11, "c", false), split])]);
    assert_eq!(focused_workspace(&tree), Some((10, "splith".to_string())));
    assert_eq!(focused_parent_layout(&tree).as_deref(), Some("splith"));
    assert_eq!(
        build_cascade_command(Some(&tree), "tabbed"),
        "[con_id=11] layout tabbed; [con_id=21] layout tabbed"
    );
    let empty = root(vec![workspace(10, 1, vec![])]);
    let mut empty_focus = empty;
    empty_focus.focus_first = Some(2);
    empty_focus.nodes[0].focus_first = Some(10);
    assert_eq!(build_cascade_command(Some(&empty_focus), "splitv"), "[con_id=10] layout splitv");
}

#[test]
fn mru_front_distinct_and_capped() {
    let mut t = MruTracker::new();
    t.focus(entry(1));
    t.focus(entry(2));
    t.focus(entry(1));
    let ids: Vec<i64> = t.entries().iter().map(|e| e.con_id).collect();
    assert_eq!(ids, vec![1, 2]);
    assert!(t.close(2));
    assert!(!t.close(2));
    for i in 0..(MAX_ENTRIES as i64 + 5) {
        t.focus(entry(100 + i));
    }
    assert_eq!(t.entries().len(), MAX_ENTRIES);
    assert_eq!(t.entries()[0].con_id, 100 + MAX_ENTRIES as i64 + 4);
}

#[test]
fn mru_reads_focused_window() {
    let tree = root(vec![workspace(10, 1, vec![window(11, "kitty", false), window(12, "firefox", true)])]);
    let e = find_focused(&tree).unwrap();
    assert_eq!(e.con_id, 12);
    assert_eq!(e.class, "firefox");
    assert_eq!(e.title, "title 12");
    assert!(entry_from_container(&node("con", 5)).is_none());
}

#[test]
fn layout_arguments() {
    assert_eq!(resolve_layout("tabbed", None), Some("tabbed"));
    assert_eq!(resolve_layout("stacking", Some("splitv")), Some("stacking"));
    assert_eq!(resolve_layout("toggle", Some("splitv")), Some("splith"));
    assert_eq!(resolve_layout("toggle", Some("tabbed")), Some("splitv"));
    assert_eq!(resolve_layout("toggle", None), Some("splitv"));
    assert_eq!(resolve_layout("stacked", None), None);
}

#[test]
fn layout_tooltips() {
    assert_eq!(layout_tooltip("splith"), "split horizontal");
    assert_eq!(layout_tooltip("splitv"), "split vertical");
    assert_eq!(layout_tooltip("stacked"), "stacked");
    assert_eq!(layout_tooltip("output"), "unknown layout");
}

#[test]
fn rename_steps_follow_the_plan() {
    let order = vec!["L".to_string(), "R".to_string()];
    let wss = vec![ws(1, "1", "R", false), ws(4, "4", "L", true), ws(7, "7", "R", false)];
    let plan = renumber_workspaces(&wss, &order).unwrap();
    let s = |a: &str, b: &str| (a.to_string(), b.to_string());
    assert_eq!(
        rename_steps(&plan),
        vec![s("4", "_tmp_1"), s("1", "_tmp_2"), s("7", "_tmp_3"), s("_tmp_1", "1"), s("_tmp_2", "2"), s("_tmp_3", "3")]
    );
    let gap = vec![ws(1, "1", "L", false), ws(3, "3", "L", true)];
    let plan = renumber_workspaces(&gap, &order).unwrap();
    assert_eq!(rename_steps(&plan), vec![s("3", "2")]);
}
