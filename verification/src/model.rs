//! The bar's workspace model, built from one walk over i3's tree.
//!
//! `build_tree_snapshot` yields the workspaces (with the window classes on
//! each, the focused class, and the container ids per class), the layout of
//! the focused window's parent, and the auto-unmax revert command.

use vstd::prelude::*;
use crate::i3tree::{I3Node, WsInfo, str_or_empty, opt_chars, join, join_strings, opt_str_is};
use crate::auto_unmax::{MARK_PREFIX, revert_cmd, revert_target, needs_revert, needs_revert_exec, revert_target_exec, push_revert_cmd};
use crate::layout_cmd::is_workspace;
use crate::sorting::{key_le, insert_by, sort_by_key, sorted_by, lemma_insert_by_at, lemma_sort_by_key};
use crate::text::{starts_with, chars_of, starts_with_chars, chars_eq, push_str_chars};

verus! {

broadcast use vstd::seq::group_seq_axioms;

/// A workspace as the bar shows it.
pub struct WorkspaceInfo {
    pub num: i64,
    pub focused: bool,
    pub urgent: bool,
    pub visible: bool,
    pub output: String,
    /// Distinct window classes on the workspace, in tree order.
    pub window_classes: Vec<String>,
    /// Class of the focused window on the workspace, if any.
    pub focused_class: Option<String>,
    /// Container ids per class, in tree order; classes in order of their
    /// first window with an id.
    pub class_con_ids: Vec<(String, Vec<i64>)>,
}

/// What `refresh_state` needs from one tree query.
pub struct TreeSnapshot {
    pub workspaces: Vec<WorkspaceInfo>,
    /// Layout of the focused window's parent container.
    pub focused_parent_layout: Option<String>,
    /// The `;`-joined auto-unmax revert command, if any container needs one.
    pub auto_unmax_cmd: Option<String>,
}

/// A workspace as plain values.
pub struct WsModel {
    pub num: i64,
    pub focused: bool,
    pub urgent: bool,
    pub visible: bool,
    pub output: Seq<char>,
    pub window_classes: Seq<Seq<char>>,
    pub focused_class: Option<Seq<char>>,
    pub class_con_ids: Seq<(Seq<char>, Seq<i64>)>,
}

impl View for WorkspaceInfo {
    type V = WsModel;

    open spec fn view(&self) -> WsModel {
        WsModel {
            num: self.num,
            focused: self.focused,
            urgent: self.urgent,
            visible: self.visible,
            output: self.output@,
            window_classes: self.window_classes@.map_values(|s: String| s@),
            focused_class: opt_chars(self.focused_class),
            class_con_ids: self.class_con_ids@.map_values(|p: (String, Vec<i64>)| (p.0@, p.1@)),
        }
    }
}

/// A node visited inside a workspace, with its parent.
pub type Item = (I3Node, Option<I3Node>);

/// A workspace with a positive number (not the scratchpad).
pub open spec fn is_root_ws(n: I3Node) -> bool {
    is_workspace(n) && (n.num matches Some(k) && k > 0)
}

/// The workspaces with positive numbers, in tree order.
pub open spec fn roots(n: I3Node) -> Seq<I3Node>
    decreases n,
{
    if is_root_ws(n) {
        seq![n]
    } else {
        roots_list(n.nodes@) + roots_list(n.floating_nodes@)
    }
}

pub open spec fn roots_list(s: Seq<I3Node>) -> Seq<I3Node>
    decreases s,
{
    if s.len() == 0 {
        Seq::empty()
    } else {
        roots(s[0]) + roots_list(s.subrange(1, s.len() as int))
    }
}

/// The nodes under `n` (itself included) in pre-order, tiling children
/// before floating ones, each with its parent.
pub open spec fn flat(n: I3Node, parent: Option<I3Node>) -> Seq<Item>
    decreases n,
{
    seq![(n, parent)] + flat_list(n.nodes@, n) + flat_list(n.floating_nodes@, n)
}

pub open spec fn flat_list(s: Seq<I3Node>, parent: I3Node) -> Seq<Item>
    decreases s,
{
    if s.len() == 0 {
        Seq::empty()
    } else {
        flat(s[0], Some(parent)) + flat_list(s.subrange(1, s.len() as int), parent)
    }
}

/// The class of a node's window, empty when absent.
pub open spec fn class_of(n: I3Node) -> Seq<char> {
    str_or_empty(n.class)
}

/// A node with a non-empty window class.
pub open spec fn has_class(n: I3Node) -> bool {
    class_of(n).len() > 0
}

/// A focused node with a window class.
pub open spec fn focused_window(n: I3Node) -> bool {
    has_class(n) && n.focused == Some(true)
}

/// The marks of a node that start with the maximise prefix.
pub open spec fn prefixed(marks: Seq<String>) -> Seq<Seq<char>>
    decreases marks.len(),
{
    if marks.len() == 0 {
        Seq::empty()
    } else {
        let r = prefixed(marks.drop_last());
        if starts_with(marks.last()@, MARK_PREFIX@) { r.push(marks.last()@) } else { r }
    }
}

/// The revert commands a node contributes: one per prefixed mark.
pub open spec fn node_unmax(n: I3Node) -> Seq<Seq<char>> {
    if needs_revert(n) {
        prefixed(n.marks@).map_values(|m: Seq<char>| revert_cmd(m, revert_target(n.last_split_layout)))
    } else {
        Seq::empty()
    }
}

/// Revert commands of the items, in order.
pub open spec fn unmax_of(items: Seq<Item>) -> Seq<Seq<char>>
    decreases items.len(),
{
    if items.len() == 0 {
        Seq::empty()
    } else {
        unmax_of(items.drop_last()) + node_unmax(items.last().0)
    }
}

/// Whether the item is a focused window whose parent has a layout.
pub open spec fn gives_parent_layout(it: Item) -> bool {
    focused_window(it.0) && (it.1 matches Some(p) && p.layout is Some)
}

/// The parent layout of the last focused window among the items.
pub open spec fn parent_layout_of(items: Seq<Item>) -> Option<Seq<char>>
    decreases items.len(),
{
    if items.len() == 0 {
        None
    } else if gives_parent_layout(items.last()) {
        Some(items.last().1->0.layout->0@)
    } else {
        parent_layout_of(items.drop_last())
    }
}

/// The window classes of the items, in order, repeats kept.
pub open spec fn classes_of(items: Seq<Item>) -> Seq<Seq<char>>
    decreases items.len(),
{
    if items.len() == 0 {
        Seq::empty()
    } else {
        let r = classes_of(items.drop_last());
        if has_class(items.last().0) { r.push(class_of(items.last().0)) } else { r }
    }
}

/// The classes of windows that have an id, in order, repeats kept.
pub open spec fn id_classes_of(items: Seq<Item>) -> Seq<Seq<char>>
    decreases items.len(),
{
    if items.len() == 0 {
        Seq::empty()
    } else {
        let r = id_classes_of(items.drop_last());
        if has_class(items.last().0) && items.last().0.id is Some { r.push(class_of(items.last().0)) } else { r }
    }
}

/// The ids of the windows of class `c`, in order.
pub open spec fn ids_for(items: Seq<Item>, c: Seq<char>) -> Seq<i64>
    decreases items.len(),
{
    if items.len() == 0 {
        Seq::empty()
    } else {
        let r = ids_for(items.drop_last(), c);
        let n = items.last().0;
        if has_class(n) && n.id is Some && class_of(n) == c { r.push(n.id->0) } else { r }
    }
}

/// The class of the last focused window among the items.
pub open spec fn focused_class_of(items: Seq<Item>) -> Option<Seq<char>>
    decreases items.len(),
{
    if items.len() == 0 {
        None
    } else if focused_window(items.last().0) {
        Some(class_of(items.last().0))
    } else {
        focused_class_of(items.drop_last())
    }
}

/// The first occurrence of each element, in order.
pub open spec fn dedup(s: Seq<Seq<char>>) -> Seq<Seq<char>>
    decreases s.len(),
{
    if s.len() == 0 {
        Seq::empty()
    } else {
        let d = dedup(s.drop_last());
        if d.contains(s.last()) { d } else { d.push(s.last()) }
    }
}

/// Container ids per class.
pub open spec fn class_ids_of(items: Seq<Item>) -> Seq<(Seq<char>, Seq<i64>)> {
    dedup(id_classes_of(items)).map_values(|c: Seq<char>| (c, ids_for(items, c)))
}

/// The revert commands over the workspaces, in order.
pub open spec fn snap_parts(rs: Seq<I3Node>) -> Seq<Seq<char>>
    decreases rs.len(),
{
    if rs.len() == 0 {
        Seq::empty()
    } else {
        snap_parts(rs.drop_last()) + unmax_of(flat(rs.last(), None))
    }
}

/// The parent layout of the last focused window over the workspaces.
pub open spec fn snap_layout(rs: Seq<I3Node>) -> Option<Seq<char>>
    decreases rs.len(),
{
    if rs.len() == 0 {
        None
    } else {
        match parent_layout_of(flat(rs.last(), None)) {
            Some(l) => Some(l),
            None => snap_layout(rs.drop_last()),
        }
    }
}

/// The auto-unmax command for the workspaces.
pub open spec fn snap_unmax(rs: Seq<I3Node>) -> Option<Seq<char>> {
    let p = snap_parts(rs);
    if p.len() == 0 { None } else { Some(join(p, "; "@)) }
}

/// The characters of the items' references.
pub open spec fn item_view(p: (&I3Node, Option<&I3Node>)) -> Item {
    (*p.0, match p.1 {
        Some(q) => Some(*q),
        None => None,
    })
}

pub open spec fn items_view(v: Seq<(&I3Node, Option<&I3Node>)>) -> Seq<Item> {
    v.map_values(|p: (&I3Node, Option<&I3Node>)| item_view(p))
}

pub open spec fn refs_view(v: Seq<&I3Node>) -> Seq<I3Node> {
    v.map_values(|r: &I3Node| *r)
}

fn collect_roots<'a>(node: &'a I3Node, out: &mut Vec<&'a I3Node>)
    ensures
        refs_view(final(out)@) == refs_view(old(out)@) + roots(*node),
    decreases node, 1nat,
{
    let is_ws = opt_str_is(&node.node_type, "workspace");
    let positive = match node.num {
        Some(k) => k > 0,
        None => false,
    };
    if is_ws && positive {
        let ghost o0 = refs_view(out@);
        out.push(node);
        proof { assert(refs_view(out@) =~= o0 + seq![*node]); }
        return;
    }
    let ghost o0 = refs_view(out@);
    collect_roots_list(&node.nodes, out);
    collect_roots_list(&node.floating_nodes, out);
    proof { assert(refs_view(out@) =~= o0 + roots(*node)); }
}

fn collect_roots_list<'a>(nodes: &'a Vec<I3Node>, out: &mut Vec<&'a I3Node>)
    ensures
        refs_view(final(out)@) == refs_view(old(out)@) + roots_list(nodes@),
    decreases nodes, 0nat,
{
    let ghost o0 = refs_view(out@);
    let mut i: usize = 0;
    proof { assert(nodes@.subrange(0, nodes@.len() as int) =~= nodes@); }
    while i < nodes.len()
        invariant
            i <= nodes@.len(),
            o0 + roots_list(nodes@) == refs_view(out@) + roots_list(nodes@.subrange(i as int, nodes@.len() as int)),
        decreases nodes@.len() - i,
    {
        proof {
            assert(decreases_to!(*nodes => nodes@));
            assert(decreases_to!(nodes@ => nodes@[i as int]));
            let rest = nodes@.subrange(i as int, nodes@.len() as int);
            assert(rest[0] == nodes@[i as int]);
            assert(rest.subrange(1, rest.len() as int) =~= nodes@.subrange(i + 1, nodes@.len() as int));
        }
        let ghost before = refs_view(out@);
        collect_roots(&nodes[i], out);
        i += 1;
        proof {
            let rest = nodes@.subrange(i - 1, nodes@.len() as int);
            assert(before + roots_list(rest) =~= refs_view(out@) + roots_list(nodes@.subrange(i as int, nodes@.len() as int)));
        }
    }
    proof {
        assert(nodes@.subrange(i as int, nodes@.len() as int) =~= Seq::<I3Node>::empty());
        assert(refs_view(out@) + Seq::<I3Node>::empty() =~= refs_view(out@));
    }
}

fn flatten<'a>(node: &'a I3Node, parent: Option<&'a I3Node>, out: &mut Vec<(&'a I3Node, Option<&'a I3Node>)>)
    ensures
        items_view(final(out)@) == items_view(old(out)@) + flat(*node, item_view((node, parent)).1),
    decreases node, 1nat,
{
    let ghost o0 = items_view(out@);
    out.push((node, parent));
    proof { assert(items_view(out@) =~= o0 + seq![item_view((node, parent))]); }
    flatten_list(&node.nodes, node, out);
    flatten_list(&node.floating_nodes, node, out);
    proof { assert(items_view(out@) =~= o0 + flat(*node, item_view((node, parent)).1)); }
}

fn flatten_list<'a>(nodes: &'a Vec<I3Node>, parent: &'a I3Node, out: &mut Vec<(&'a I3Node, Option<&'a I3Node>)>)
    ensures
        items_view(final(out)@) == items_view(old(out)@) + flat_list(nodes@, *parent),
    decreases nodes, 0nat,
{
    let ghost o0 = items_view(out@);
    let mut i: usize = 0;
    proof { assert(nodes@.subrange(0, nodes@.len() as int) =~= nodes@); }
    while i < nodes.len()
        invariant
            i <= nodes@.len(),
            o0 + flat_list(nodes@, *parent) == items_view(out@) + flat_list(nodes@.subrange(i as int, nodes@.len() as int), *parent),
        decreases nodes@.len() - i,
    {
        proof {
            assert(decreases_to!(*nodes => nodes@));
            assert(decreases_to!(nodes@ => nodes@[i as int]));
            let rest = nodes@.subrange(i as int, nodes@.len() as int);
            assert(rest[0] == nodes@[i as int]);
            assert(rest.subrange(1, rest.len() as int) =~= nodes@.subrange(i + 1, nodes@.len() as int));
        }
        let ghost before = items_view(out@);
        flatten(&nodes[i], Some(parent), out);
        i += 1;
        proof {
            let rest = nodes@.subrange(i - 1, nodes@.len() as int);
            assert(before + flat_list(rest, *parent) =~= items_view(out@) + flat_list(nodes@.subrange(i as int, nodes@.len() as int), *parent));
        }
    }
    proof {
        assert(nodes@.subrange(i as int, nodes@.len() as int) =~= Seq::<I3Node>::empty());
        assert(items_view(out@) + Seq::<Item>::empty() =~= items_view(out@));
    }
}

/// The nodes of one workspace, in pre-order, with their parents.
fn workspace_items<'a>(ws: &'a I3Node) -> (r: Vec<(&'a I3Node, Option<&'a I3Node>)>)
    ensures
        items_view(r@) == flat(*ws, None),
{
    let mut out: Vec<(&'a I3Node, Option<&'a I3Node>)> = Vec::new();
    flatten(ws, None, &mut out);
    proof { assert(items_view(out@) =~= flat(*ws, None)); }
    out
}

/// Whether a string has a non-empty value.
fn class_present(n: &I3Node) -> (r: bool)
    ensures
        r == has_class(*n),
{
    match &n.class {
        Some(c) => chars_of(c.as_str()).len() > 0,
        None => false,
    }
}


pub open spec fn strings_view(v: Seq<String>) -> Seq<Seq<char>> {
    v.map_values(|s: String| s@)
}

/// Appends the revert commands of one node.
fn push_node_unmax(n: &I3Node, parts: &mut Vec<String>)
    ensures
        strings_view(final(parts)@) == strings_view(old(parts)@) + node_unmax(*n),
{
    let ghost p0 = strings_view(parts@);
    if !needs_revert_exec(n) {
        proof { assert(strings_view(parts@) =~= p0 + node_unmax(*n)); }
        return;
    }
    let target = revert_target_exec(&n.last_split_layout);
    let prefix = chars_of(MARK_PREFIX);
    let ghost f = |m: Seq<char>| revert_cmd(m, revert_target(n.last_split_layout));
    let mut i: usize = 0;
    while i < n.marks.len()
        invariant
            i <= n.marks@.len(),
            prefix@ == MARK_PREFIX@,
            target@ == revert_target(n.last_split_layout),
            needs_revert(*n),
            f == (|m: Seq<char>| revert_cmd(m, revert_target(n.last_split_layout))),
            strings_view(parts@) == p0 + prefixed(n.marks@.take(i as int)).map_values(f),
        decreases n.marks@.len() - i,
    {
        let ghost before = strings_view(parts@);
        proof {
            assert(n.marks@.take(i + 1).drop_last() =~= n.marks@.take(i as int));
            assert(n.marks@.take(i + 1).last() == n.marks@[i as int]);
        }
        let m = chars_of(n.marks[i].as_str());
        if starts_with_chars(m.as_slice(), prefix.as_slice()) {
            push_revert_cmd(parts, &n.marks[i], &target);
            proof {
                assert(prefixed(n.marks@.take(i + 1)) == prefixed(n.marks@.take(i as int)).push(n.marks@[i as int]@));
                assert(prefixed(n.marks@.take(i + 1)).map_values(f)
                    =~= prefixed(n.marks@.take(i as int)).map_values(f).push(f(n.marks@[i as int]@)));
                assert(strings_view(parts@) =~= before.push(revert_cmd(n.marks@[i as int]@, target@)));
            }
        }
        i += 1;
    }
    proof { assert(n.marks@.take(i as int) =~= n.marks@); }
}

/// Appends the revert commands of the items.
fn push_items_unmax(items: &Vec<(&I3Node, Option<&I3Node>)>, parts: &mut Vec<String>)
    ensures
        strings_view(final(parts)@) == strings_view(old(parts)@) + unmax_of(items_view(items@)),
{
    let ghost p0 = strings_view(parts@);
    let ghost iv = items_view(items@);
    let mut i: usize = 0;
    while i < items.len()
        invariant
            i <= items@.len(),
            iv == items_view(items@),
            strings_view(parts@) == p0 + unmax_of(iv.take(i as int)),
        decreases items@.len() - i,
    {
        let ghost before = strings_view(parts@);
        proof {
            assert(iv.take(i + 1).drop_last() =~= iv.take(i as int));
            assert(iv.take(i + 1).last() == item_view(items@[i as int]));
        }
        push_node_unmax(items[i].0, parts);
        i += 1;
        proof { assert(strings_view(parts@) =~= p0 + unmax_of(iv.take(i as int))); }
    }
    proof { assert(iv.take(i as int) =~= iv); }
}

/// The parent layout of the last focused window among the items.
fn items_parent_layout(items: &Vec<(&I3Node, Option<&I3Node>)>) -> (r: Option<String>)
    ensures
        opt_chars(r) == parent_layout_of(items_view(items@)),
{
    let ghost iv = items_view(items@);
    let mut k: usize = items.len();
    proof { assert(iv.take(k as int) =~= iv); }
    while k > 0
        invariant
            k <= items@.len(),
            iv == items_view(items@),
            parent_layout_of(iv) == parent_layout_of(iv.take(k as int)),
        decreases k,
    {
        let it = items[k - 1];
        proof {
            assert(iv.take(k as int).last() == item_view(it));
            assert(iv.take(k as int).drop_last() =~= iv.take(k - 1));
        }
        if class_present(it.0) && it.0.focused == Some(true) {
            if let Some(p) = it.1 {
                if let Some(l) = &p.layout {
                    return Some(l.clone());
                }
            }
        }
        k -= 1;
    }
    None
}

/// The class of the last focused window among the items.
fn items_focused_class(items: &Vec<(&I3Node, Option<&I3Node>)>) -> (r: Option<String>)
    ensures
        opt_chars(r) == focused_class_of(items_view(items@)),
{
    let ghost iv = items_view(items@);
    let mut k: usize = items.len();
    proof { assert(iv.take(k as int) =~= iv); }
    while k > 0
        invariant
            k <= items@.len(),
            iv == items_view(items@),
            focused_class_of(iv) == focused_class_of(iv.take(k as int)),
        decreases k,
    {
        let it = items[k - 1];
        proof {
            assert(iv.take(k as int).last() == item_view(it));
            assert(iv.take(k as int).drop_last() =~= iv.take(k - 1));
        }
        if class_present(it.0) && it.0.focused == Some(true) {
            match &it.0.class {
                Some(c) => return Some(c.clone()),
                None => {},
            }
        }
        k -= 1;
    }
    None
}

/// Whether two strings hold the same characters.
pub(crate) fn string_eq(a: &String, b: &String) -> (r: bool)
    ensures
        r == (a@ == b@),
{
    chars_eq(chars_of(a.as_str()).as_slice(), chars_of(b.as_str()).as_slice())
}

/// Whether `v` holds a string with the characters of `s`.
pub(crate) fn contains_string(v: &Vec<String>, s: &String) -> (r: bool)
    ensures
        r == strings_view(v@).contains(s@),
{
    let mut i: usize = 0;
    while i < v.len()
        invariant
            i <= v@.len(),
            forall|j: int| 0 <= j < i ==> v@[j]@ != s@,
        decreases v@.len() - i,
    {
        if string_eq(&v[i], s) {
            proof { assert(strings_view(v@)[i as int] == s@); }
            return true;
        }
        i += 1;
    }
    proof {
        if strings_view(v@).contains(s@) {
            let j = choose|j: int| 0 <= j < strings_view(v@).len() && strings_view(v@)[j] == s@;
            assert(v@[j]@ == s@);
        }
    }
    false
}

/// The distinct window classes of the items, in order of first appearance.
fn items_classes(items: &Vec<(&I3Node, Option<&I3Node>)>) -> (r: Vec<String>)
    ensures
        strings_view(r@) == dedup(classes_of(items_view(items@))),
{
    let ghost iv = items_view(items@);
    let mut out: Vec<String> = Vec::new();
    let mut i: usize = 0;
    while i < items.len()
        invariant
            i <= items@.len(),
            iv == items_view(items@),
            strings_view(out@) == dedup(classes_of(iv.take(i as int))),
        decreases items@.len() - i,
    {
        let it = items[i];
        proof {
            assert(iv.take(i + 1).drop_last() =~= iv.take(i as int));
            assert(iv.take(i + 1).last() == item_view(it));
        }
        if class_present(it.0) {
            match &it.0.class {
                Some(c) => {
                    proof {
                        let prev = classes_of(iv.take(i as int));
                        assert(classes_of(iv.take(i + 1)) == prev.push(c@));
                        assert(prev.push(c@).drop_last() =~= prev);
                        assert(prev.push(c@).last() == c@);
                    }
                    if !contains_string(&out, c) {
                        let ghost before = out@;
                        out.push(c.clone());
                        proof { assert(strings_view(out@) =~= strings_view(before).push(c@)); }
                    }
                },
                None => {},
            }
        }
        i += 1;
    }
    proof { assert(iv.take(i as int) =~= iv); }
    out
}

/// An element occurs in `dedup(s)` iff it occurs in `s`.
pub proof fn lemma_dedup_contains(s: Seq<Seq<char>>, x: Seq<char>)
    ensures
        dedup(s).contains(x) == s.contains(x),
    decreases s.len(),
{
    if s.len() == 0 {
        assert(!s.contains(x));
        assert(!dedup(s).contains(x));
    } else {
        let t = s.drop_last();
        lemma_dedup_contains(t, x);
        let d = dedup(t);
        let l = s.last();
        assert(s.contains(x) == (t.contains(x) || l == x)) by {
            if s.contains(x) {
                let j = choose|j: int| 0 <= j < s.len() && s[j] == x;
                if j < t.len() {
                    assert(t[j] == x);
                }
            }
            if t.contains(x) {
                let j = choose|j: int| 0 <= j < t.len() && t[j] == x;
                assert(s[j] == x);
            }
            if l == x {
                assert(s[s.len() - 1] == x);
            }
        }
        if !d.contains(l) {
            let e = d.push(l);
            assert(dedup(s) == e);
            assert(e.contains(x) == (d.contains(x) || l == x)) by {
                if e.contains(x) {
                    let j = choose|j: int| 0 <= j < e.len() && e[j] == x;
                    if j < d.len() {
                        assert(d[j] == x);
                    }
                }
                if d.contains(x) {
                    let j = choose|j: int| 0 <= j < d.len() && d[j] == x;
                    assert(e[j] == x);
                }
                if l == x {
                    assert(e[d.len() as int] == x);
                }
            }
        }
    }
}

/// `dedup` keeps no element twice.
pub proof fn lemma_dedup_distinct(s: Seq<Seq<char>>)
    ensures
        forall|i: int, j: int| 0 <= i < j < dedup(s).len() ==> dedup(s)[i] != dedup(s)[j],
    decreases s.len(),
{
    if s.len() > 0 {
        let t = s.drop_last();
        lemma_dedup_distinct(t);
        let d = dedup(t);
        if !d.contains(s.last()) {
            assert forall|i: int, j: int| 0 <= i < j < dedup(s).len() implies dedup(s)[i] != dedup(s)[j] by {
                if j == d.len() {
                    assert(dedup(s)[j] == s.last());
                    assert(dedup(s)[i] == d[i]);
                }
            }
        }
    }
}

/// A class with ids is among the classes with ids.
pub proof fn lemma_ids_for_class(items: Seq<Item>, c: Seq<char>)
    ensures
        ids_for(items, c).len() > 0 ==> id_classes_of(items).contains(c),
    decreases items.len(),
{
    if items.len() > 0 {
        let t = items.drop_last();
        lemma_ids_for_class(t, c);
        let n = items.last().0;
        if has_class(n) && n.id is Some {
            let r = id_classes_of(t);
            assert(id_classes_of(items) == r.push(class_of(n)));
            if ids_for(t, c).len() > 0 {
                let j = choose|j: int| 0 <= j < r.len() && r[j] == c;
                assert(id_classes_of(items)[j] == c);
            } else if ids_for(items, c).len() > 0 {
                assert(class_of(n) == c);
                assert(id_classes_of(items)[r.len() as int] == c);
            }
        }
    }
}

pub open spec fn cids_view(v: Seq<(String, Vec<i64>)>) -> Seq<(Seq<char>, Seq<i64>)> {
    v.map_values(|p: (String, Vec<i64>)| (p.0@, p.1@))
}

/// Index of the class `c` in the table, if there.
fn find_class(cids: &Vec<(String, Vec<i64>)>, c: &String) -> (r: Option<usize>)
    ensures
        (match r {
            Some(k) => k < cids@.len() && cids@[k as int].0@ == c@,
            None => forall|j: int| 0 <= j < cids@.len() ==> cids@[j].0@ != c@,
        }),
{
    let mut i: usize = 0;
    while i < cids.len()
        invariant
            i <= cids@.len(),
            forall|j: int| 0 <= j < i ==> cids@[j].0@ != c@,
        decreases cids@.len() - i,
    {
        if string_eq(&cids[i].0, c) {
            return Some(i);
        }
        i += 1;
    }
    None
}

/// The container ids per class of the items.
#[verifier::spinoff_prover]
fn items_class_ids(items: &Vec<(&I3Node, Option<&I3Node>)>) -> (r: Vec<(String, Vec<i64>)>)
    ensures
        cids_view(r@) == class_ids_of(items_view(items@)),
{
    let ghost iv = items_view(items@);
    let mut cids: Vec<(String, Vec<i64>)> = Vec::new();
    let mut i: usize = 0;
    proof { assert(cids_view(cids@) =~= class_ids_of(iv.take(0))); }
    while i < items.len()
        invariant
            i <= items@.len(),
            iv == items_view(items@),
            cids_view(cids@) == class_ids_of(iv.take(i as int)),
        decreases items@.len() - i,
    {
        let it = items[i];
        let ghost prev = iv.take(i as int);
        let ghost next = iv.take(i + 1);
        proof {
            assert(next.drop_last() =~= prev);
            assert(next.last() == item_view(it));
        }
        let ghost before = cids@;
        let has = class_present(it.0);
        match (has, &it.0.class, it.0.id) {
            (true, Some(c), Some(id)) => {
                let ghost cs = c@;
                proof {
                    assert(id_classes_of(next) == id_classes_of(prev).push(cs));
                    assert(id_classes_of(prev).push(cs).drop_last() =~= id_classes_of(prev));
                    lemma_dedup_distinct(id_classes_of(prev));
                    lemma_dedup_contains(id_classes_of(prev), cs);
                    assert forall|c2: Seq<char>| c2 != cs implies #[trigger] ids_for(next, c2) == ids_for(prev, c2) by {}
                    assert(ids_for(next, cs) == ids_for(prev, cs).push(id));
                }
                match find_class(&cids, c) {
                    Some(k) => {
                        let mut e = cids.remove(k);
                        e.1.push(id);
                        cids.insert(k, e);
                        proof {
                            let d = dedup(id_classes_of(prev));
                            assert(before[k as int].0@ == cs);
                            assert(cids_view(before)[k as int].0 == cs);
                            assert(cids_view(before)[k as int] == class_ids_of(prev)[k as int]);
                            assert(class_ids_of(prev).len() == d.len());
                            assert(k < d.len());
                            assert(class_ids_of(prev)[k as int].0 == d[k as int]);
                            assert(d[k as int] == cs);
                            assert(d.contains(cs));
                            assert(dedup(id_classes_of(next)) == d);
                            assert(cids_view(cids@) =~= cids_view(before).update(k as int, (cs, ids_for(next, cs))));
                            assert forall|j: int| 0 <= j < d.len() implies
                                #[trigger] class_ids_of(next)[j] == cids_view(cids@)[j] by {
                                if j != k {
                                    assert(d[j] != d[k as int]);
                                }
                            }
                            assert(cids_view(cids@) =~= class_ids_of(next));
                        }
                    },
                    None => {
                        let mut v: Vec<i64> = Vec::new();
                        v.push(id);
                        cids.push((c.clone(), v));
                        proof {
                            let d = dedup(id_classes_of(prev));
                            assert(!d.contains(cs)) by {
                                if d.contains(cs) {
                                    let j = choose|j: int| 0 <= j < d.len() && d[j] == cs;
                                    assert(class_ids_of(prev).len() == d.len());
                                    assert(cids_view(before).len() == before.len());
                                    assert(cids_view(before)[j].0 == cs);
                                    assert(before[j].0@ == cs);
                                    assert(false);
                                }
                            }
                            assert(dedup(id_classes_of(next)) == d.push(cs));
                            lemma_ids_for_class(prev, cs);
                            assert(ids_for(prev, cs) =~= Seq::<i64>::empty());
                            assert(ids_for(next, cs) =~= seq![id]);
                            assert(cids_view(cids@) =~= cids_view(before).push((cs, seq![id])));
                            assert forall|j: int| 0 <= j < d.len() implies
                                #[trigger] class_ids_of(next)[j] == cids_view(cids@)[j] by {
                                assert(d[j] != cs);
                                assert(class_ids_of(next)[j] == (d[j], ids_for(next, d[j])));
                                assert(cids_view(cids@)[j] == cids_view(before)[j]);
                                assert(cids_view(before)[j] == class_ids_of(prev)[j]);
                            }
                            assert(class_ids_of(next)[d.len() as int] == (cs, ids_for(next, cs)));
                            assert(cids_view(cids@) =~= class_ids_of(next));
                        }
                    },
                }
            },
            _ => {
                proof {
                    assert(id_classes_of(next) == id_classes_of(prev));
                    assert forall|c2: Seq<char>| #[trigger] ids_for(next, c2) == ids_for(prev, c2) by {}
                    assert(class_ids_of(next) =~= class_ids_of(prev));
                }
            },
        }
        i += 1;
    }
    proof { assert(iv.take(i as int) =~= iv); }
    cids
}

/// The workspace as the bar shows it, with the data of `root` (or none).
pub open spec fn info_model(rec: WsInfo, root: Option<I3Node>) -> WsModel {
    let items = match root {
        Some(r) => flat(r, None),
        None => Seq::empty(),
    };
    WsModel {
        num: rec.num->0,
        focused: rec.focused == Some(true),
        urgent: rec.urgent == Some(true),
        visible: rec.visible == Some(true),
        output: str_or_empty(rec.output),
        window_classes: dedup(classes_of(items)),
        focused_class: focused_class_of(items),
        class_con_ids: class_ids_of(items),
    }
}

/// The last workspace node numbered `k` (later ones replace earlier ones).
pub open spec fn last_root_with(rs: Seq<I3Node>, k: i64) -> Option<I3Node>
    decreases rs.len(),
{
    if rs.len() == 0 {
        None
    } else if rs.last().num == Some(k) {
        Some(rs.last())
    } else {
        last_root_with(rs.drop_last(), k)
    }
}

/// Whether a record numbered `k` occurs in `recs`.
pub open spec fn num_seen(recs: Seq<WsInfo>, k: i64) -> bool {
    exists|j: int| 0 <= j < recs.len() && #[trigger] recs[j].num == Some(k)
}

/// The workspaces in record order: records without a number are dropped;
/// the first record numbered `k` takes the tree data of workspace `k`, a
/// later one with the same number gets none.
pub open spec fn unsorted(recs: Seq<WsInfo>, rs: Seq<I3Node>) -> Seq<WsModel>
    decreases recs.len(),
{
    if recs.len() == 0 {
        Seq::empty()
    } else {
        let r = unsorted(recs.drop_last(), rs);
        let l = recs.last();
        match l.num {
            Some(k) => r.push(info_model(l, if num_seen(recs.drop_last(), k) { None } else { last_root_with(rs, k) })),
            None => r,
        }
    }
}

/// The first index of `o` in `oo`.
pub open spec fn first_index(oo: Seq<Seq<char>>, o: Seq<char>) -> Option<int>
    decreases oo.len(),
{
    if oo.len() == 0 {
        None
    } else if oo[0] == o {
        Some(0)
    } else {
        match first_index(oo.drop_first(), o) {
            Some(i) => Some(i + 1),
            None => None,
        }
    }
}

/// The spatial position of an output; unknown outputs come last.
pub open spec fn out_pos(oo: Seq<Seq<char>>, o: Seq<char>) -> int {
    match first_index(oo, o) {
        Some(i) => i,
        None => usize::MAX as int,
    }
}

/// The sort key of a workspace: output position, then number.
pub open spec fn ws_key(w: WsModel, oo: Seq<Seq<char>>) -> (int, int) {
    (out_pos(oo, w.output), w.num as int)
}

pub open spec fn ws_key_fn(oo: Seq<Seq<char>>) -> spec_fn(WsModel) -> (int, int) {
    |w: WsModel| ws_key(w, oo)
}

/// The workspaces sorted (stably) by output position, then number.
pub open spec fn sort_ws(s: Seq<WsModel>, oo: Seq<Seq<char>>) -> Seq<WsModel> {
    sort_by_key(s, ws_key_fn(oo))
}

/// The workspaces of a snapshot.
pub open spec fn snap_workspaces(recs: Seq<WsInfo>, tree: I3Node, oo: Seq<Seq<char>>) -> Seq<WsModel> {
    sort_ws(unsorted(recs, roots(tree)), oo)
}

pub open spec fn infos_view(v: Seq<WorkspaceInfo>) -> Seq<WsModel> {
    v.map_values(|w: WorkspaceInfo| w@)
}

/// The first index of an output name in the order.
pub(crate) fn out_pos_exec(oo: &[String], o: &String) -> (r: usize)
    ensures
        r as int == out_pos(strings_view(oo@), o@),
{
    let ghost ov = strings_view(oo@);
    let mut i: usize = 0;
    proof { assert(ov.skip(0) =~= ov); }
    while i < oo.len()
        invariant
            i <= oo@.len(),
            ov == strings_view(oo@),
            first_index(ov, o@) == (match first_index(ov.skip(i as int), o@) {
                Some(m) => Some(m + i),
                None => None,
            }),
        decreases oo@.len() - i,
    {
        proof {
            assert(ov.skip(i as int)[0] == ov[i as int]);
            assert(ov.skip(i as int).drop_first() =~= ov.skip(i + 1));
        }
        if string_eq(&oo[i], o) {
            return i;
        }
        i += 1;
    }
    proof { assert(ov.skip(i as int) =~= Seq::<Seq<char>>::empty()); }
    usize::MAX
}

/// Whether `a` sorts before or with `b`.
fn ws_le_exec(a: &WorkspaceInfo, b: &WorkspaceInfo, oo: &[String]) -> (r: bool)
    ensures
        r == key_le(ws_key(a@, strings_view(oo@)), ws_key(b@, strings_view(oo@))),
{
    let pa = out_pos_exec(oo, &a.output);
    let pb = out_pos_exec(oo, &b.output);
    pa < pb || (pa == pb && a.num <= b.num)
}

/// Inserts `x` after every element that sorts before or with it.
fn insert_sorted(res: &mut Vec<WorkspaceInfo>, x: WorkspaceInfo, oo: &[String])
    ensures
        infos_view(final(res)@) == insert_by(infos_view(old(res)@), x@, ws_key_fn(strings_view(oo@))),
{
    let ghost sv = infos_view(res@);
    let ghost ov = strings_view(oo@);
    let mut j: usize = res.len();
    while j > 0
        invariant
            j <= res@.len(),
            sv == infos_view(res@),
            ov == strings_view(oo@),
            forall|m: int| j <= m < sv.len() ==> !key_le(#[trigger] ws_key_fn(ov)(sv[m]), ws_key_fn(ov)(x@)),
        ensures
            j <= res@.len(),
            forall|m: int| j <= m < sv.len() ==> !key_le(#[trigger] ws_key_fn(ov)(sv[m]), ws_key_fn(ov)(x@)),
            j > 0 ==> key_le(ws_key_fn(ov)(sv[j - 1]), ws_key_fn(ov)(x@)),
        decreases j,
    {
        if ws_le_exec(&res[j - 1], &x, oo) {
            break;
        }
        j -= 1;
    }
    proof {
        lemma_insert_by_at(sv, x@, ws_key_fn(ov), j as int);
    }
    res.insert(j, x);
    proof {
        assert(infos_view(res@) =~= sv.insert(j as int, x@));
    }
}

fn string_or_empty(o: &Option<String>) -> (r: String)
    ensures
        r@ == str_or_empty(*o),
{
    match o {
        Some(s) => s.clone(),
        None => String::new(),
    }
}

/// The bar's view of one workspace record, with the data of `root`.
fn make_info(rec: &WsInfo, root: Option<&I3Node>) -> (r: WorkspaceInfo)
    requires
        rec.num is Some,
    ensures
        r@ == info_model(*rec, match root {
            Some(n) => Some(*n),
            None => None,
        }),
{
    let items: Vec<(&I3Node, Option<&I3Node>)> = match root {
        Some(n) => workspace_items(n),
        None => Vec::new(),
    };
    proof {
        if root is None {
            assert(items_view(items@) =~= Seq::<Item>::empty());
        }
    }
    let window_classes = items_classes(&items);
    let focused_class = items_focused_class(&items);
    let class_con_ids = items_class_ids(&items);
    let num = match rec.num {
        Some(k) => k,
        None => 0,
    };
    WorkspaceInfo {
        num,
        focused: rec.focused == Some(true),
        urgent: rec.urgent == Some(true),
        visible: rec.visible == Some(true),
        output: string_or_empty(&rec.output),
        window_classes,
        focused_class,
        class_con_ids,
    }
}

/// Whether an earlier record (before `i`) carries the number `k`.
fn seen_before(recs: &[WsInfo], i: usize, k: i64) -> (r: bool)
    requires
        i <= recs@.len(),
    ensures
        r == num_seen(recs@.take(i as int), k),
{
    let mut j: usize = 0;
    while j < i
        invariant
            j <= i <= recs@.len(),
            forall|m: int| 0 <= m < j ==> recs@[m].num != Some(k),
        decreases i - j,
    {
        if recs[j].num == Some(k) {
            proof { assert(recs@.take(i as int)[j as int].num == Some(k)); }
            return true;
        }
        j += 1;
    }
    proof {
        if num_seen(recs@.take(i as int), k) {
            let m = choose|m: int| 0 <= m < i && #[trigger] recs@.take(i as int)[m].num == Some(k);
            assert(recs@[m].num == Some(k));
        }
    }
    false
}

/// The last workspace node numbered `k`.
fn last_root_exec<'a>(roots: &Vec<&'a I3Node>, k: i64) -> (r: Option<&'a I3Node>)
    ensures
        (match r {
            Some(n) => last_root_with(refs_view(roots@), k) == Some(*n),
            None => last_root_with(refs_view(roots@), k) is None,
        }),
{
    let ghost rv = refs_view(roots@);
    let mut m: usize = roots.len();
    proof { assert(rv.take(m as int) =~= rv); }
    while m > 0
        invariant
            m <= roots@.len(),
            rv == refs_view(roots@),
            last_root_with(rv, k) == last_root_with(rv.take(m as int), k),
        decreases m,
    {
        let n = roots[m - 1];
        proof {
            assert(rv.take(m as int).last() == *n);
            assert(rv.take(m as int).drop_last() =~= rv.take(m - 1));
        }
        if n.num == Some(k) {
            return Some(n);
        }
        m -= 1;
    }
    None
}

/// Builds the snapshot from the workspace records, the tree and the
/// outputs in left-to-right order. Workspaces are sorted by the position
/// of their output (unknown outputs last), then by number; the sort is
/// stable.
pub fn build_tree_snapshot(workspaces: &[WsInfo], tree: &I3Node, output_order: &[String]) -> (r: TreeSnapshot)
    ensures
        infos_view(r.workspaces@) == snap_workspaces(workspaces@, *tree, strings_view(output_order@)),
        opt_chars(r.focused_parent_layout) == snap_layout(roots(*tree)),
        opt_chars(r.auto_unmax_cmd) == snap_unmax(roots(*tree)),
{
    let mut roots_v: Vec<&I3Node> = Vec::new();
    collect_roots(tree, &mut roots_v);
    let ghost rv = roots(*tree);
    proof { assert(refs_view(roots_v@) =~= rv); }

    let mut parts: Vec<String> = Vec::new();
    let mut fpl: Option<String> = None;
    let mut i: usize = 0;
    proof { assert(strings_view(parts@) =~= snap_parts(rv.take(0))); }
    while i < roots_v.len()
        invariant
            i <= roots_v@.len(),
            rv == refs_view(roots_v@),
            strings_view(parts@) == snap_parts(rv.take(i as int)),
            opt_chars(fpl) == snap_layout(rv.take(i as int)),
        decreases roots_v@.len() - i,
    {
        proof {
            assert(rv.take(i + 1).drop_last() =~= rv.take(i as int));
            assert(rv.take(i + 1).last() == *roots_v@[i as int]);
        }
        let items = workspace_items(roots_v[i]);
        push_items_unmax(&items, &mut parts);
        let l = items_parent_layout(&items);
        if l.is_some() {
            fpl = l;
        }
        i += 1;
    }
    proof { assert(rv.take(i as int) =~= rv); }
    let auto_unmax_cmd = if parts.len() == 0 { None } else { Some(join_strings(&parts, "; ")) };

    let ghost ov = strings_view(output_order@);
    let mut res: Vec<WorkspaceInfo> = Vec::new();
    let mut w: usize = 0;
    proof { assert(infos_view(res@) =~= sort_ws(unsorted(workspaces@.take(0), rv), ov)); }
    while w < workspaces.len()
        invariant
            w <= workspaces@.len(),
            rv == refs_view(roots_v@),
            ov == strings_view(output_order@),
            infos_view(res@) == sort_ws(unsorted(workspaces@.take(w as int), rv), ov),
        decreases workspaces@.len() - w,
    {
        let ghost prev = workspaces@.take(w as int);
        let ghost next = workspaces@.take(w + 1);
        proof {
            assert(next.drop_last() =~= prev);
            assert(next.last() == workspaces@[w as int]);
        }
        let rec = &workspaces[w];
        match rec.num {
            Some(k) => {
                let seen = seen_before(workspaces, w, k);
                let root = if seen { None } else { last_root_exec(&roots_v, k) };
                let info = make_info(rec, root);
                proof {
                    let u = unsorted(prev, rv);
                    assert(unsorted(next, rv) == u.push(info@));
                    assert(u.push(info@).drop_last() =~= u);
                }
                insert_sorted(&mut res, info, output_order);
            },
            None => {},
        }
        w += 1;
    }
    proof { assert(workspaces@.take(w as int) =~= workspaces@); }
    TreeSnapshot { workspaces: res, focused_parent_layout: fpl, auto_unmax_cmd }
}

/// The workspace list is ordered by output position, then number, and holds
/// one entry per numbered record.
pub proof fn lemma_snapshot_sorted(recs: Seq<WsInfo>, tree: I3Node, oo: Seq<Seq<char>>)
    ensures
        sorted_by(snap_workspaces(recs, tree, oo), ws_key_fn(oo)),
        snap_workspaces(recs, tree, oo).to_multiset() == unsorted(recs, roots(tree)).to_multiset(),
{
    lemma_sort_by_key(unsorted(recs, roots(tree)), ws_key_fn(oo));
}

/// A bar workspace shows the number and the focused, urgent and visible
/// flags of the i3 record it comes from: each flag is set exactly when the
/// record says `true`.
pub open spec fn shows_record(w: WsModel, rec: WsInfo) -> bool {
    &&& rec.num == Some(w.num)
    &&& w.urgent == (rec.urgent == Some(true))
    &&& w.focused == (rec.focused == Some(true))
    &&& w.visible == (rec.visible == Some(true))
}

proof fn lemma_unsorted_from_records(recs: Seq<WsInfo>, rs: Seq<I3Node>)
    ensures
        forall|k: int| 0 <= k < unsorted(recs, rs).len() ==>
            exists|j: int| 0 <= j < recs.len() && shows_record(#[trigger] unsorted(recs, rs)[k], recs[j]),
    decreases recs.len(),
{
    if recs.len() > 0 {
        let t = recs.drop_last();
        lemma_unsorted_from_records(t, rs);
        let r = unsorted(t, rs);
        let u = unsorted(recs, rs);
        assert forall|k: int| 0 <= k < u.len() implies
            exists|j: int| 0 <= j < recs.len() && shows_record(#[trigger] u[k], recs[j]) by {
            if k < r.len() {
                assert(u[k] == r[k]);
                let j = choose|j: int| 0 <= j < t.len() && shows_record(r[k], t[j]);
                assert(t[j] == recs[j]);
            } else {
                let l = recs.last();
                assert(recs[recs.len() - 1] == l);
                assert(shows_record(u[k], recs[recs.len() - 1]));
            }
        }
    }
}

/// Every workspace of a snapshot shows the number and the focused, urgent
/// and visible flags of one of i3's workspace records: a flag is set
/// exactly when that record says `true`, never when it says `false` or
/// leaves the field out.
pub proof fn lemma_snapshot_flags_from_records(recs: Seq<WsInfo>, tree: I3Node, oo: Seq<Seq<char>>)
    ensures
        forall|k: int| 0 <= k < snap_workspaces(recs, tree, oo).len() ==>
            exists|j: int| 0 <= j < recs.len() && shows_record(#[trigger] snap_workspaces(recs, tree, oo)[k], recs[j]),
{
    let u = unsorted(recs, roots(tree));
    let sw = snap_workspaces(recs, tree, oo);
    lemma_sort_by_key(u, ws_key_fn(oo));
    lemma_unsorted_from_records(recs, roots(tree));
    assert forall|k: int| 0 <= k < sw.len() implies
        exists|j: int| 0 <= j < recs.len() && shows_record(#[trigger] sw[k], recs[j]) by {
        let w = sw[k];
        assert(sw.contains(w));
        vstd::seq_lib::to_multiset_contains(sw, w);
        vstd::seq_lib::to_multiset_contains(u, w);
        assert(u.contains(w));
        let m = choose|m: int| 0 <= m < u.len() && u[m] == w;
        assert(exists|j: int| 0 <= j < recs.len() && shows_record(u[m], recs[j]));
    }
}

} // verus!
