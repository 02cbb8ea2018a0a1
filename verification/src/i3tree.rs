//! The parts of i3's IPC replies that the window-manager helpers read:
//! container tree nodes, workspaces and outputs, as plain values.

use vstd::prelude::*;
use crate::text::{chars_of, string_of, push_chars, push_str_chars, starts_with, starts_with_chars};

verus! {

broadcast use vstd::seq::group_seq_axioms;

/// A node of the container tree (`get_tree`). Absent JSON fields are `None`;
/// absent child arrays and marks are empty.
pub struct I3Node {
    /// `type` (e.g. `"workspace"`, `"con"`).
    pub node_type: Option<String>,
    pub id: Option<i64>,
    pub num: Option<i64>,
    pub name: Option<String>,
    pub focused: Option<bool>,
    /// The X11 window id of a leaf holding a window.
    pub window: Option<u64>,
    /// `window_properties.class`.
    pub class: Option<String>,
    pub layout: Option<String>,
    pub last_split_layout: Option<String>,
    /// The marks that are strings, in order.
    pub marks: Vec<String>,
    /// The first entry of `focus`, when it is an integer.
    pub focus_first: Option<i64>,
    pub nodes: Vec<I3Node>,
    pub floating_nodes: Vec<I3Node>,
}

/// A workspace record (`get_workspaces`).
pub struct WsInfo {
    pub num: Option<i64>,
    pub name: Option<String>,
    pub output: Option<String>,
    pub focused: Option<bool>,
    pub urgent: Option<bool>,
    pub visible: Option<bool>,
}

/// An output record (`get_outputs`).
pub struct OutputInfo {
    pub active: Option<bool>,
    pub name: Option<String>,
    /// `rect.x`.
    pub x: Option<i64>,
}

/// Characters of an optional string, empty when absent.
pub open spec fn str_or_empty(o: Option<String>) -> Seq<char> {
    match o {
        Some(s) => s@,
        None => Seq::empty(),
    }
}

/// Characters of an optional string.
pub open spec fn opt_chars(o: Option<String>) -> Option<Seq<char>> {
    match o {
        Some(s) => Some(s@),
        None => None,
    }
}

/// `parts` joined with `sep` between them.
pub open spec fn join(parts: Seq<Seq<char>>, sep: Seq<char>) -> Seq<char>
    decreases parts.len(),
{
    if parts.len() == 0 {
        Seq::empty()
    } else if parts.len() == 1 {
        parts[0]
    } else {
        join(parts.drop_last(), sep) + sep + parts.last()
    }
}

/// The characters of `parts` joined with `sep`.
pub fn join_strings(parts: &Vec<String>, sep: &str) -> (r: String)
    ensures
        r@ == join(parts@.map_values(|s: String| s@), sep@),
{
    let ghost pv = parts@.map_values(|s: String| s@);
    let mut r = String::new();
    let mut i: usize = 0;
    while i < parts.len()
        invariant
            i <= parts@.len(),
            pv == parts@.map_values(|s: String| s@),
            r@ == join(pv.take(i as int), sep@),
        decreases parts@.len() - i,
    {
        if i > 0 {
            push_str_chars(&mut r, sep);
        }
        push_str_chars(&mut r, parts[i].as_str());
        proof {
            let t = pv.take(i + 1);
            assert(t.drop_last() =~= pv.take(i as int));
            assert(t.last() == parts@[i as int]@);
            if i == 0 {
                assert(r@ =~= t[0]);
            }
        }
        i += 1;
    }
    proof { assert(pv.take(i as int) =~= pv); }
    r
}

/// Whether an optional string equals a literal.
pub fn opt_str_is(o: &Option<String>, lit: &str) -> (r: bool)
    ensures
        r == (o matches Some(s) && s@ == lit@),
{
    match o {
        Some(s) => crate::text::chars_eq(chars_of(s.as_str()).as_slice(), chars_of(lit).as_slice()),
        None => false,
    }
}

} // verus!
