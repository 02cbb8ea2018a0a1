//! The workspace bar's entries: which style classes each one carries.

use vstd::prelude::*;
use crate::model::WorkspaceInfo;

verus! {

/// The style classes of a workspace's entry: always `workspace-entry`,
/// then `focused`, `urgent`, and `visible` for a visible workspace that is
/// not the focused one.
pub open spec fn entry_classes_of(focused: bool, urgent: bool, visible: bool) -> Seq<Seq<char>> {
    let a = seq!["workspace-entry"@];
    let b = if focused { a.push("focused"@) } else { a };
    let c = if urgent { b.push("urgent"@) } else { b };
    if visible && !focused { c.push("visible"@) } else { c }
}

/// The style classes of the bar entry for `ws`.
pub fn entry_classes(ws: &WorkspaceInfo) -> (r: Vec<&'static str>)
    ensures
        r@.map_values(|s: &'static str| s@) == entry_classes_of(ws.focused, ws.urgent, ws.visible),
{
    let mut r: Vec<&'static str> = Vec::new();
    r.push("workspace-entry");
    if ws.focused {
        r.push("focused");
    }
    if ws.urgent {
        r.push("urgent");
    }
    if ws.visible && !ws.focused {
        r.push("visible");
    }
    proof {
        assert(r@.map_values(|s: &'static str| s@) =~= entry_classes_of(ws.focused, ws.urgent, ws.visible));
    }
    r
}

} // verus!
