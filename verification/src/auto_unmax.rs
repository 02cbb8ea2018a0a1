//! Reverting a "maximised" container once a second window joins it.
//!
//! A container flipped to `tabbed` by the maximise button carries a mark
//! starting with `_i3more_maxed_`. While it has one child that is what the
//! user asked for; once it has more, this module produces the i3 command
//! that restores its split layout and drops the mark.

use vstd::prelude::*;
use crate::i3tree::{I3Node, str_or_empty, join, join_strings, opt_str_is};
use crate::text::{chars_of, starts_with, starts_with_chars, push_str_chars, push_chars};

verus! {

broadcast use vstd::seq::group_seq_axioms;

/// Prefix of the mark set by the maximise button.
pub const MARK_PREFIX: &'static str = "_i3more_maxed_";

/// The first mark that starts with the prefix.
pub open spec fn maxed_mark(marks: Seq<String>) -> Option<Seq<char>>
    decreases marks.len(),
{
    if marks.len() == 0 {
        None
    } else if starts_with(marks[0]@, MARK_PREFIX@) {
        Some(marks[0]@)
    } else {
        maxed_mark(marks.drop_first())
    }
}

/// The split layout to restore: the last split layout if it is one, else `splith`.
pub open spec fn revert_target(last_split: Option<String>) -> Seq<char> {
    match last_split {
        Some(s) => if s@ == "splith"@ || s@ == "splitv"@ { s@ } else { "splith"@ },
        None => "splith"@,
    }
}

/// The command that restores the layout of the container marked `name` and unmarks it.
pub open spec fn revert_cmd(name: Seq<char>, target: Seq<char>) -> Seq<char> {
    "[con_mark=\""@ + name + "\"] layout "@ + target + "; [con_mark=\""@ + name + "\"] unmark "@ + name
}

/// A container needs reverting: tabbed or stacked with more than one child.
pub open spec fn needs_revert(n: I3Node) -> bool {
    (str_or_empty(n.layout) == "tabbed"@ || str_or_empty(n.layout) == "stacked"@) && n.nodes@.len() > 1
}

/// Revert commands for `n` and its descendants, in tree order.
pub open spec fn revert_parts(n: I3Node) -> Seq<Seq<char>>
    decreases n,
{
    let own = match maxed_mark(n.marks@) {
        Some(name) => if needs_revert(n) { seq![revert_cmd(name, revert_target(n.last_split_layout))] } else { Seq::empty() },
        None => Seq::empty(),
    };
    own + revert_parts_list(n.nodes@) + revert_parts_list(n.floating_nodes@)
}

pub open spec fn revert_parts_list(s: Seq<I3Node>) -> Seq<Seq<char>>
    decreases s,
{
    if s.len() == 0 {
        Seq::empty()
    } else {
        revert_parts(s[0]) + revert_parts_list(s.subrange(1, s.len() as int))
    }
}

/// The `;`-joined revert command for a tree, if any container needs one.
pub open spec fn revert_command_for(tree: I3Node) -> Option<Seq<char>> {
    let parts = revert_parts(tree);
    if parts.len() == 0 { None } else { Some(join(parts, "; "@)) }
}

fn maxed_mark_exec(marks: &Vec<String>) -> (r: Option<String>)
    ensures
        (match r {
            Some(s) => maxed_mark(marks@) == Some(s@),
            None => maxed_mark(marks@) is None,
        }),
{
    let prefix = chars_of(MARK_PREFIX);
    let mut i: usize = 0;
    proof { assert(marks@.skip(0) =~= marks@); }
    while i < marks.len()
        invariant
            i <= marks@.len(),
            prefix@ == MARK_PREFIX@,
            maxed_mark(marks@) == maxed_mark(marks@.skip(i as int)),
        decreases marks@.len() - i,
    {
        proof {
            assert(marks@.skip(i as int)[0] == marks@[i as int]);
            assert(marks@.skip(i as int).drop_first() =~= marks@.skip(i + 1));
        }
        let m = chars_of(marks[i].as_str());
        if starts_with_chars(m.as_slice(), prefix.as_slice()) {
            return Some(marks[i].clone());
        }
        i += 1;
    }
    None
}

pub(crate) fn revert_target_exec(last_split: &Option<String>) -> (r: String)
    ensures
        r@ == revert_target(*last_split),
{
    if opt_str_is(last_split, "splith") || opt_str_is(last_split, "splitv") {
        match last_split {
            Some(s) => s.clone(),
            None => "splith".to_owned(),
        }
    } else {
        "splith".to_owned()
    }
}

/// Appends the revert command for the container marked `name`.
pub(crate) fn push_revert_cmd(parts: &mut Vec<String>, name: &String, target: &String)
    ensures
        final(parts)@.map_values(|s: String| s@) == old(parts)@.map_values(|s: String| s@).push(revert_cmd(name@, target@)),
{
    let mut c = String::new();
    push_str_chars(&mut c, "[con_mark=\"");
    push_str_chars(&mut c, name.as_str());
    push_str_chars(&mut c, "\"] layout ");
    push_str_chars(&mut c, target.as_str());
    push_str_chars(&mut c, "; [con_mark=\"");
    push_str_chars(&mut c, name.as_str());
    push_str_chars(&mut c, "\"] unmark ");
    push_str_chars(&mut c, name.as_str());
    assert(c@ =~= revert_cmd(name@, target@));
    parts.push(c);
    assert(parts@.map_values(|s: String| s@) =~= old(parts)@.map_values(|s: String| s@).push(revert_cmd(name@, target@)));
}

/// Whether the container is tabbed or stacked with more than one child.
pub(crate) fn needs_revert_exec(node: &I3Node) -> (r: bool)
    ensures
        r == needs_revert(*node),
{
    let is_tabbed = opt_str_is(&node.layout, "tabbed");
    let is_stacked = opt_str_is(&node.layout, "stacked");
    proof {
        reveal_strlit("tabbed");
        reveal_strlit("stacked");
        assert("tabbed"@.len() == 6 && "stacked"@.len() == 7);
        assert(is_tabbed == (str_or_empty(node.layout) == "tabbed"@));
        assert(is_stacked == (str_or_empty(node.layout) == "stacked"@));
    }
    (is_tabbed || is_stacked) && node.nodes.len() > 1
}

fn walk(node: &I3Node, parts: &mut Vec<String>)
    ensures
        final(parts)@.map_values(|s: String| s@) == old(parts)@.map_values(|s: String| s@) + revert_parts(*node),
    decreases node, 1nat,
{
    let ghost p0 = parts@.map_values(|s: String| s@);
    if let Some(name) = maxed_mark_exec(&node.marks) {
        if needs_revert_exec(node) {
            let target = revert_target_exec(&node.last_split_layout);
            push_revert_cmd(parts, &name, &target);
        }
    }
    let ghost p1 = parts@.map_values(|s: String| s@);
    walk_list(&node.nodes, parts);
    walk_list(&node.floating_nodes, parts);
    proof {
        let own = p1.subrange(p0.len() as int, p1.len() as int);
        assert(p1 =~= p0 + own);
        assert(parts@.map_values(|s: String| s@) =~= p0 + revert_parts(*node));
    }
}

fn walk_list(nodes: &Vec<I3Node>, parts: &mut Vec<String>)
    ensures
        final(parts)@.map_values(|s: String| s@) == old(parts)@.map_values(|s: String| s@) + revert_parts_list(nodes@),
    decreases nodes, 0nat,
{
    let ghost p0 = parts@.map_values(|s: String| s@);
    let mut i: usize = 0;
    proof { assert(nodes@.subrange(0, nodes@.len() as int) =~= nodes@); }
    while i < nodes.len()
        invariant
            i <= nodes@.len(),
            p0 + revert_parts_list(nodes@) == parts@.map_values(|s: String| s@)
                + revert_parts_list(nodes@.subrange(i as int, nodes@.len() as int)),
        decreases nodes@.len() - i,
    {
        proof {
            assert(decreases_to!(*nodes => nodes@));
            assert(decreases_to!(nodes@ => nodes@[i as int]));
            let rest = nodes@.subrange(i as int, nodes@.len() as int);
            assert(rest[0] == nodes@[i as int]);
            assert(rest.subrange(1, rest.len() as int) =~= nodes@.subrange(i + 1, nodes@.len() as int));
        }
        let ghost before = parts@.map_values(|s: String| s@);
        walk(&nodes[i], parts);
        i += 1;
        proof {
            let rest = nodes@.subrange(i - 1, nodes@.len() as int);
            assert(before + revert_parts_list(rest) =~= parts@.map_values(|s: String| s@)
                + revert_parts_list(nodes@.subrange(i as int, nodes@.len() as int)));
        }
    }
    proof {
        assert(nodes@.subrange(i as int, nodes@.len() as int) =~= Seq::<I3Node>::empty());
        assert(parts@.map_values(|s: String| s@) + Seq::<Seq<char>>::empty() =~= parts@.map_values(|s: String| s@));
    }
}

/// The command that reverts every maximised container that gained a second child.
pub fn revert_command(tree: &I3Node) -> (r: Option<String>)
    ensures
        (match r {
            Some(s) => revert_command_for(*tree) == Some(s@),
            None => revert_command_for(*tree) is None,
        }),
{
    let mut parts: Vec<String> = Vec::new();
    proof { assert(parts@.map_values(|s: String| s@) =~= Seq::<Seq<char>>::empty()); }
    walk(tree, &mut parts);
    proof { assert(parts@.map_values(|s: String| s@) =~= revert_parts(*tree)); }
    if parts.len() == 0 {
        None
    } else {
        Some(join_strings(&parts, "; "))
    }
}

} // verus!
