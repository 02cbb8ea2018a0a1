//! The layout cascade: one i3 command that sets a layout on the focused
//! workspace and on every container nested inside it.
//!
//! i3's `layout X` applies to the parent of the focused container, so to
//! change container C the command addresses one of C's children:
//! `[con_id=<child>] layout X`. When the workspace's only child is itself a
//! split container, the workspace is skipped so that i3 adds no further
//! wrapper.

use vstd::prelude::*;
use crate::i3tree::{I3Node, opt_chars, join, join_strings, opt_str_is};
use crate::text::{idecimal, i64_decimal_chars, push_chars, push_str_chars, chars_of, chars_eq};

verus! {

broadcast use vstd::seq::group_seq_axioms;

/// A node whose `type` is `"workspace"`.
pub open spec fn is_workspace(n: I3Node) -> bool {
    n.node_type matches Some(t) && t@ == "workspace"@
}

/// The ancestors of the focused node, from `n` down to its parent, found by a
/// depth-first search (tiling children before floating ones); `None` when no
/// node under `n` is focused.
pub open spec fn focus_path(n: I3Node) -> Option<Seq<I3Node>>
    decreases n,
{
    if n.focused == Some(true) {
        Some(Seq::empty())
    } else {
        match focus_path_list(n.nodes@) {
            Some(p) => Some(seq![n] + p),
            None => match focus_path_list(n.floating_nodes@) {
                Some(p) => Some(seq![n] + p),
                None => None,
            },
        }
    }
}

/// The focus path of the first node in `s` that has one.
pub open spec fn focus_path_list(s: Seq<I3Node>) -> Option<Seq<I3Node>>
    decreases s,
{
    if s.len() == 0 {
        None
    } else {
        match focus_path(s[0]) {
            Some(p) => Some(p),
            None => focus_path_list(s.subrange(1, s.len() as int)),
        }
    }
}

/// The layout of the focused node's parent.
pub open spec fn parent_layout(tree: I3Node) -> Option<Seq<char>> {
    match focus_path(tree) {
        Some(p) => if p.len() > 0 { opt_chars(p.last().layout) } else { None },
        None => None,
    }
}

/// `(id, layout)` of a workspace node, when both are present.
pub open spec fn ws_pair(n: I3Node) -> Option<(i64, Seq<char>)> {
    match (n.id, n.layout) {
        (Some(id), Some(l)) => Some((id, l@)),
        _ => None,
    }
}

/// The innermost workspace on a path.
pub open spec fn last_workspace(p: Seq<I3Node>) -> Option<I3Node>
    decreases p.len(),
{
    if p.len() == 0 {
        None
    } else if is_workspace(p.last()) {
        Some(p.last())
    } else {
        last_workspace(p.drop_last())
    }
}

/// The workspace reached by following each node's first `focus` entry.
pub open spec fn via_chain(n: I3Node) -> Option<(i64, Seq<char>)>
    decreases n,
{
    if is_workspace(n) {
        ws_pair(n)
    } else {
        match n.focus_first {
            Some(f) => via_chain_list(n.nodes@, f),
            None => None,
        }
    }
}

/// `via_chain` of the first node in `s` whose id is `f`.
pub open spec fn via_chain_list(s: Seq<I3Node>, f: i64) -> Option<(i64, Seq<char>)>
    decreases s,
{
    if s.len() == 0 {
        None
    } else if s[0].id == Some(f) {
        via_chain(s[0])
    } else {
        via_chain_list(s.subrange(1, s.len() as int), f)
    }
}

/// The focused workspace: the innermost workspace above the focused node,
/// else the one reached through the `focus` chain.
pub open spec fn focused_ws(tree: I3Node) -> Option<(i64, Seq<char>)> {
    match focus_path(tree) {
        Some(p) => match last_workspace(p) {
            Some(w) => ws_pair(w),
            None => via_chain(tree),
        },
        None => via_chain(tree),
    }
}

/// The first node in pre-order (tiling before floating) whose id is `id`.
pub open spec fn find_by_id(n: I3Node, id: i64) -> Option<I3Node>
    decreases n,
{
    if n.id == Some(id) {
        Some(n)
    } else {
        match find_by_id_list(n.nodes@, id) {
            Some(m) => Some(m),
            None => find_by_id_list(n.floating_nodes@, id),
        }
    }
}

pub open spec fn find_by_id_list(s: Seq<I3Node>, id: i64) -> Option<I3Node>
    decreases s,
{
    if s.len() == 0 {
        None
    } else {
        match find_by_id(s[0], id) {
            Some(m) => Some(m),
            None => find_by_id_list(s.subrange(1, s.len() as int), id),
        }
    }
}

/// Whether the workspace itself is skipped: its only child has children.
pub open spec fn skips_self(n: I3Node, is_ws: bool) -> bool {
    is_ws && n.nodes@.len() == 1 && n.nodes@[0].nodes@.len() > 0
}

/// One child id for every container with children under `n`, in pre-order.
pub open spec fn proxy_ids(n: I3Node, is_ws: bool) -> Seq<i64>
    decreases n,
{
    if n.nodes@.len() == 0 {
        Seq::empty()
    } else {
        let own = if !skips_self(n, is_ws) && n.nodes@[0].id is Some {
            seq![n.nodes@[0].id->0]
        } else {
            Seq::empty()
        };
        own + proxy_ids_list(n.nodes@)
    }
}

pub open spec fn proxy_ids_list(s: Seq<I3Node>) -> Seq<i64>
    decreases s,
{
    if s.len() == 0 {
        Seq::empty()
    } else {
        proxy_ids(s[0], false) + proxy_ids_list(s.subrange(1, s.len() as int))
    }
}

/// `[con_id=<id>] layout <layout>`.
pub open spec fn con_cmd(id: i64, layout: Seq<char>) -> Seq<char> {
    "[con_id="@ + idecimal(id as int) + "] layout "@ + layout
}

/// The cascade command for `layout` over the tree.
pub open spec fn cascade(tree: Option<I3Node>, layout: Seq<char>) -> Seq<char> {
    let fallback = "layout "@ + layout;
    match tree {
        None => fallback,
        Some(t) => match focused_ws(t) {
            None => fallback,
            Some(w) => match find_by_id(t, w.0) {
                None => fallback,
                Some(ws) => {
                    let ids = proxy_ids(ws, true);
                    if ids.len() == 0 {
                        con_cmd(w.0, layout)
                    } else {
                        join(ids.map_values(|id: i64| con_cmd(id, layout)), "; "@)
                    }
                },
            },
        },
    }
}

/// The characters of the optional pair.
pub open spec fn pair_view(r: Option<(i64, String)>) -> Option<(i64, Seq<char>)> {
    match r {
        Some(p) => Some((p.0, p.1@)),
        None => None,
    }
}

/// Depth-first search for the focused node; on success the path to it is
/// appended to `stack`, otherwise `stack` is left as it was.
fn find_focused_leaf<'a>(node: &'a I3Node, stack: &mut Vec<&'a I3Node>) -> (found: bool)
    ensures
        found == (focus_path(*node) is Some),
        found ==> final(stack)@.map_values(|r: &I3Node| *r) == old(stack)@.map_values(|r: &I3Node| *r)
            + focus_path(*node)->0,
        !found ==> final(stack)@ == old(stack)@,
    decreases node, 1nat,
{
    if node.focused == Some(true) {
        proof {
            assert(stack@.map_values(|r: &I3Node| *r) + Seq::<I3Node>::empty() =~= stack@.map_values(|r: &I3Node| *r));
        }
        return true;
    }
    let ghost s0 = stack@;
    stack.push(node);
    proof {
        assert(stack@.map_values(|r: &I3Node| *r) =~= s0.map_values(|r: &I3Node| *r) + seq![*node]);
    }
    if find_focused_list(&node.nodes, stack) {
        proof {
            assert(stack@.map_values(|r: &I3Node| *r) =~= s0.map_values(|r: &I3Node| *r) + focus_path(*node)->0);
        }
        return true;
    }
    if find_focused_list(&node.floating_nodes, stack) {
        proof {
            assert(stack@.map_values(|r: &I3Node| *r) =~= s0.map_values(|r: &I3Node| *r) + focus_path(*node)->0);
        }
        return true;
    }
    stack.pop();
    proof { assert(stack@ =~= s0); }
    false
}

/// `find_focused_leaf` over the nodes of `nodes` in turn.
fn find_focused_list<'a>(nodes: &'a Vec<I3Node>, stack: &mut Vec<&'a I3Node>) -> (found: bool)
    ensures
        found == (focus_path_list(nodes@) is Some),
        found ==> final(stack)@.map_values(|r: &I3Node| *r) == old(stack)@.map_values(|r: &I3Node| *r)
            + focus_path_list(nodes@)->0,
        !found ==> final(stack)@ == old(stack)@,
    decreases nodes, 0nat,
{
    let mut i: usize = 0;
    proof { assert(nodes@.subrange(0, nodes@.len() as int) =~= nodes@); }
    while i < nodes.len()
        invariant
            i <= nodes@.len(),
            stack@ == old(stack)@,
            focus_path_list(nodes@) == focus_path_list(nodes@.subrange(i as int, nodes@.len() as int)),
        decreases nodes@.len() - i,
    {
        proof {
            assert(decreases_to!(*nodes => nodes@));
            assert(decreases_to!(nodes@ => nodes@[i as int]));
            let rest = nodes@.subrange(i as int, nodes@.len() as int);
            assert(rest[0] == nodes@[i as int]);
            assert(rest.subrange(1, rest.len() as int) =~= nodes@.subrange(i + 1, nodes@.len() as int));
        }
        if find_focused_leaf(&nodes[i], stack) {
            return true;
        }
        i += 1;
    }
    false
}

/// The layout of the focused node's parent container: where the next window
/// lands, and what the bar indicator shows. `None` when nothing is focused.
pub fn focused_parent_layout(tree: &I3Node) -> (r: Option<String>)
    ensures
        opt_chars(r) == parent_layout(*tree),
{
    let mut stack: Vec<&I3Node> = Vec::new();
    if !find_focused_leaf(tree, &mut stack) {
        return None;
    }
    proof {
        assert(stack@.map_values(|r: &I3Node| *r) =~= focus_path(*tree)->0);
    }
    if stack.len() == 0 {
        return None;
    }
    let parent = stack[stack.len() - 1];
    proof {
        assert(stack@.map_values(|r: &I3Node| *r)[stack@.len() - 1] == *parent);
    }
    match &parent.layout {
        Some(l) => Some(l.clone()),
        None => None,
    }
}

/// `(id, layout)` of a workspace node.
fn ws_pair_exec(n: &I3Node) -> (r: Option<(i64, String)>)
    ensures
        pair_view(r) == ws_pair(*n),
{
    match (n.id, &n.layout) {
        (Some(id), Some(l)) => Some((id, l.clone())),
        _ => None,
    }
}

fn via_chain_exec(n: &I3Node) -> (r: Option<(i64, String)>)
    ensures
        pair_view(r) == via_chain(*n),
    decreases n, 1nat,
{
    if opt_str_is(&n.node_type, "workspace") {
        return ws_pair_exec(n);
    }
    match n.focus_first {
        Some(f) => via_chain_list_exec(&n.nodes, f),
        None => None,
    }
}

fn via_chain_list_exec(nodes: &Vec<I3Node>, f: i64) -> (r: Option<(i64, String)>)
    ensures
        pair_view(r) == via_chain_list(nodes@, f),
    decreases nodes, 0nat,
{
    let mut i: usize = 0;
    proof { assert(nodes@.subrange(0, nodes@.len() as int) =~= nodes@); }
    while i < nodes.len()
        invariant
            i <= nodes@.len(),
            via_chain_list(nodes@, f) == via_chain_list(nodes@.subrange(i as int, nodes@.len() as int), f),
        decreases nodes@.len() - i,
    {
        proof {
            assert(decreases_to!(*nodes => nodes@));
            assert(decreases_to!(nodes@ => nodes@[i as int]));
            let rest = nodes@.subrange(i as int, nodes@.len() as int);
            assert(rest[0] == nodes@[i as int]);
            assert(rest.subrange(1, rest.len() as int) =~= nodes@.subrange(i + 1, nodes@.len() as int));
        }
        if nodes[i].id == Some(f) {
            return via_chain_exec(&nodes[i]);
        }
        i += 1;
    }
    None
}

/// `(con_id, layout)` of the focused workspace: the workspace above the
/// focused node, else the one the `focus` chain leads to (so that an empty
/// workspace is found too).
pub fn focused_workspace(tree: &I3Node) -> (r: Option<(i64, String)>)
    ensures
        pair_view(r) == focused_ws(*tree),
{
    let mut stack: Vec<&I3Node> = Vec::new();
    if find_focused_leaf(tree, &mut stack) {
        let ghost p = focus_path(*tree)->0;
        proof {
            assert(stack@.map_values(|r: &I3Node| *r) =~= p);
            assert(stack@.len() == p.len());
            assert(p.take(p.len() as int) =~= p);
        }
        let mut k: usize = stack.len();
        while k > 0
            invariant
                k <= stack@.len(),
                stack@.map_values(|r: &I3Node| *r) == p,
                focus_path(*tree) == Some(p),
                last_workspace(p) == last_workspace(p.take(k as int)),
            decreases k,
        {
            let a = stack[k - 1];
            proof {
                assert(p[k - 1] == *a);
                assert(p.take(k as int).last() == *a);
                assert(p.take(k as int).drop_last() =~= p.take(k - 1));
            }
            if opt_str_is(&a.node_type, "workspace") {
                return ws_pair_exec(a);
            }
            k -= 1;
        }
    }
    via_chain_exec(tree)
}

fn find_node_by_id(node: &I3Node, id: i64) -> (r: Option<&I3Node>)
    ensures
        (match r {
            Some(m) => find_by_id(*node, id) == Some(*m),
            None => find_by_id(*node, id) is None,
        }),
    decreases node, 1nat,
{
    if node.id == Some(id) {
        return Some(node);
    }
    match find_by_id_list_exec(&node.nodes, id) {
        Some(m) => Some(m),
        None => find_by_id_list_exec(&node.floating_nodes, id),
    }
}

fn find_by_id_list_exec(nodes: &Vec<I3Node>, id: i64) -> (r: Option<&I3Node>)
    ensures
        (match r {
            Some(m) => find_by_id_list(nodes@, id) == Some(*m),
            None => find_by_id_list(nodes@, id) is None,
        }),
    decreases nodes, 0nat,
{
    let mut i: usize = 0;
    proof { assert(nodes@.subrange(0, nodes@.len() as int) =~= nodes@); }
    while i < nodes.len()
        invariant
            i <= nodes@.len(),
            find_by_id_list(nodes@, id) == find_by_id_list(nodes@.subrange(i as int, nodes@.len() as int), id),
        decreases nodes@.len() - i,
    {
        proof {
            assert(decreases_to!(*nodes => nodes@));
            assert(decreases_to!(nodes@ => nodes@[i as int]));
            let rest = nodes@.subrange(i as int, nodes@.len() as int);
            assert(rest[0] == nodes@[i as int]);
            assert(rest.subrange(1, rest.len() as int) =~= nodes@.subrange(i + 1, nodes@.len() as int));
        }
        if let Some(m) = find_node_by_id(&nodes[i], id) {
            return Some(m);
        }
        i += 1;
    }
    None
}

fn collect_proxy_children(node: &I3Node, is_workspace: bool, ids: &mut Vec<i64>)
    ensures
        final(ids)@ == old(ids)@ + proxy_ids(*node, is_workspace),
    decreases node, 1nat,
{
    let kids = &node.nodes;
    if kids.len() == 0 {
        proof { assert(ids@ =~= old(ids)@ + proxy_ids(*node, is_workspace)); }
        return;
    }
    let skip_self = is_workspace && kids.len() == 1 && kids[0].nodes.len() > 0;
    let ghost i0 = ids@;
    if !skip_self {
        if let Some(id) = kids[0].id {
            ids.push(id);
        }
    }
    let ghost i1 = ids@;
    collect_proxy_list(kids, ids);
    proof {
        assert(i1.subrange(i0.len() as int, i1.len() as int) + proxy_ids_list(kids@) =~= proxy_ids(*node, is_workspace));
        assert(ids@ =~= i0 + proxy_ids(*node, is_workspace));
    }
}

fn collect_proxy_list(nodes: &Vec<I3Node>, ids: &mut Vec<i64>)
    ensures
        final(ids)@ == old(ids)@ + proxy_ids_list(nodes@),
    decreases nodes, 0nat,
{
    let ghost i0 = ids@;
    let mut i: usize = 0;
    proof { assert(nodes@.subrange(0, nodes@.len() as int) =~= nodes@); }
    while i < nodes.len()
        invariant
            i <= nodes@.len(),
            i0 + proxy_ids_list(nodes@) == ids@ + proxy_ids_list(nodes@.subrange(i as int, nodes@.len() as int)),
        decreases nodes@.len() - i,
    {
        proof {
            assert(decreases_to!(*nodes => nodes@));
            assert(decreases_to!(nodes@ => nodes@[i as int]));
            let rest = nodes@.subrange(i as int, nodes@.len() as int);
            assert(rest[0] == nodes@[i as int]);
            assert(rest.subrange(1, rest.len() as int) =~= nodes@.subrange(i + 1, nodes@.len() as int));
        }
        let ghost before = ids@;
        collect_proxy_children(&nodes[i], false, ids);
        i += 1;
        proof {
            let rest = nodes@.subrange(i - 1, nodes@.len() as int);
            assert(before + proxy_ids_list(rest) =~= ids@ + proxy_ids_list(nodes@.subrange(i as int, nodes@.len() as int)));
        }
    }
    proof {
        assert(nodes@.subrange(i as int, nodes@.len() as int) =~= Seq::<I3Node>::empty());
        assert(ids@ + Seq::<i64>::empty() =~= ids@);
    }
}

/// `[con_id=<id>] layout <layout>`.
fn con_cmd_exec(id: i64, layout: &str) -> (r: String)
    ensures
        r@ == con_cmd(id, layout@),
{
    let mut s = String::new();
    push_str_chars(&mut s, "[con_id=");
    let d = i64_decimal_chars(id);
    push_chars(&mut s, d.as_slice());
    push_str_chars(&mut s, "] layout ");
    push_str_chars(&mut s, layout);
    s
}

fn plain_layout_cmd(layout: &str) -> (r: String)
    ensures
        r@ == "layout "@ + layout@,
{
    let mut s = String::new();
    push_str_chars(&mut s, "layout ");
    push_str_chars(&mut s, layout);
    s
}

/// The cascade command for `layout` on the focused workspace of `tree`; the
/// plain `layout <layout>` (parent of the focused node only) when the
/// workspace cannot be resolved.
pub fn build_cascade_command(tree: Option<&I3Node>, layout: &str) -> (r: String)
    ensures
        r@ == cascade(
            match tree {
                Some(t) => Some(*t),
                None => None,
            },
            layout@,
        ),
{
    let t = match tree {
        Some(t) => t,
        None => return plain_layout_cmd(layout),
    };
    let ws_id = match focused_workspace(t) {
        Some(w) => w.0,
        None => return plain_layout_cmd(layout),
    };
    let ws_node = match find_node_by_id(t, ws_id) {
        Some(n) => n,
        None => return plain_layout_cmd(layout),
    };
    let mut proxy: Vec<i64> = Vec::new();
    collect_proxy_children(ws_node, true, &mut proxy);
    proof { assert(proxy@ =~= proxy_ids(*ws_node, true)); }
    if proxy.len() == 0 {
        return con_cmd_exec(ws_id, layout);
    }
    let mut cmds: Vec<String> = Vec::new();
    let mut i: usize = 0;
    while i < proxy.len()
        invariant
            i <= proxy@.len(),
            cmds@.map_values(|s: String| s@) == proxy@.take(i as int).map_values(|id: i64| con_cmd(id, layout@)),
        decreases proxy@.len() - i,
    {
        let c = con_cmd_exec(proxy[i], layout);
        let ghost before = cmds@;
        cmds.push(c);
        proof {
            assert(proxy@.take(i + 1) =~= proxy@.take(i as int).push(proxy@[i as int]));
            assert(cmds@ =~= before.push(c));
            assert(cmds@.map_values(|s: String| s@) =~= before.map_values(|s: String| s@).push(c@));
            assert(proxy@.take(i + 1).map_values(|id: i64| con_cmd(id, layout@))
                =~= proxy@.take(i as int).map_values(|id: i64| con_cmd(id, layout@)).push(con_cmd(proxy@[i as int], layout@)));
        }
        i += 1;
    }
    proof { assert(proxy@.take(i as int) =~= proxy@); }
    join_strings(&cmds, "; ")
}

/// The layout a `layout` command line asks for: one of `splith`, `splitv`,
/// `tabbed`, `stacking`, or for `toggle` the other split of the focused
/// workspace's layout (`splith` after `splitv`, else `splitv`); `None`
/// for anything else.
pub open spec fn layout_request(arg: Seq<char>, workspace_layout: Option<Seq<char>>) -> Option<Seq<char>> {
    if arg == "splith"@ || arg == "splitv"@ || arg == "tabbed"@ || arg == "stacking"@ {
        Some(arg)
    } else if arg == "toggle"@ {
        if workspace_layout == Some("splitv"@) { Some("splith"@) } else { Some("splitv"@) }
    } else {
        None
    }
}

/// Resolves a `layout` command-line argument against the focused
/// workspace's layout.
pub fn resolve_layout(arg: &str, workspace_layout: Option<&str>) -> (r: Option<&'static str>)
    ensures
        (match r {
            Some(l) => layout_request(arg@, match workspace_layout {
                Some(w) => Some(w@),
                None => None,
            }) == Some(l@),
            None => layout_request(arg@, match workspace_layout {
                Some(w) => Some(w@),
                None => None,
            }) is None,
        }),
{
    let a = chars_of(arg);
    let s = a.as_slice();
    if chars_eq(s, chars_of("splith").as_slice()) {
        Some("splith")
    } else if chars_eq(s, chars_of("splitv").as_slice()) {
        Some("splitv")
    } else if chars_eq(s, chars_of("tabbed").as_slice()) {
        Some("tabbed")
    } else if chars_eq(s, chars_of("stacking").as_slice()) {
        Some("stacking")
    } else if chars_eq(s, chars_of("toggle").as_slice()) {
        let is_splitv = match workspace_layout {
            Some(w) => chars_eq(chars_of(w).as_slice(), chars_of("splitv").as_slice()),
            None => false,
        };
        if is_splitv { Some("splith") } else { Some("splitv") }
    } else {
        None
    }
}

/// The bar indicator's tooltip for a container layout.
pub open spec fn layout_tooltip_of(layout: Seq<char>) -> Seq<char> {
    if layout == "splith"@ {
        "split horizontal"@
    } else if layout == "splitv"@ {
        "split vertical"@
    } else if layout == "tabbed"@ {
        "tabbed"@
    } else if layout == "stacked"@ {
        "stacked"@
    } else {
        "unknown layout"@
    }
}

pub fn layout_tooltip(layout: &str) -> (r: &'static str)
    ensures
        r@ == layout_tooltip_of(layout@),
{
    let l = chars_of(layout);
    let s = l.as_slice();
    if chars_eq(s, chars_of("splith").as_slice()) {
        "split horizontal"
    } else if chars_eq(s, chars_of("splitv").as_slice()) {
        "split vertical"
    } else if chars_eq(s, chars_of("tabbed").as_slice()) {
        "tabbed"
    } else if chars_eq(s, chars_of("stacked").as_slice()) {
        "stacked"
    } else {
        "unknown layout"
    }
}

} // verus!
