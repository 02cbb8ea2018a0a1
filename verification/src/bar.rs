//! The bar's own texts: the classes whose icons it resolves up front, the
//! battery label and the strut that reserves its screen edge.

use vstd::prelude::*;
use crate::model::{WorkspaceInfo, dedup, strings_view, contains_string};
use crate::fa::{fa_icon, fa_markup, battery_glyph, battery_glyph_for};
use crate::text::{decimal, idecimal, decimal_chars, i64_decimal_chars, push_chars, push_str_chars};

verus! {

broadcast use vstd::seq::group_seq_axioms;

/// The window classes of the workspaces, in order, repeats included.
pub open spec fn flat_classes(ws: Seq<WorkspaceInfo>) -> Seq<Seq<char>>
    decreases ws.len(),
{
    if ws.len() == 0 {
        Seq::empty()
    } else {
        flat_classes(ws.drop_last()) + strings_view(ws.last().window_classes@)
    }
}

/// Every window class on the workspaces, once each, in order of first
/// appearance.
pub fn all_classes(workspaces: &[WorkspaceInfo]) -> (r: Vec<String>)
    ensures
        strings_view(r@) == dedup(flat_classes(workspaces@)),
{
    let mut out: Vec<String> = Vec::new();
    let mut i: usize = 0;
    while i < workspaces.len()
        invariant
            i <= workspaces@.len(),
            strings_view(out@) == dedup(flat_classes(workspaces@.take(i as int))),
        decreases workspaces@.len() - i,
    {
        let cs = &workspaces[i].window_classes;
        let ghost base = flat_classes(workspaces@.take(i as int));
        let ghost cv = strings_view(cs@);
        proof {
            assert(workspaces@.take(i + 1).drop_last() =~= workspaces@.take(i as int));
            assert(flat_classes(workspaces@.take(i + 1)) == base + cv);
            assert(base + cv.take(0) =~= base);
        }
        let mut j: usize = 0;
        while j < cs.len()
            invariant
                j <= cs@.len(),
                cv == strings_view(cs@),
                strings_view(out@) == dedup(base + cv.take(j as int)),
            decreases cs@.len() - j,
        {
            let c = &cs[j];
            proof {
                let s = base + cv.take(j as int);
                assert((base + cv.take(j + 1)).drop_last() =~= s);
                assert((base + cv.take(j + 1)).last() == c@);
            }
            if !contains_string(&out, c) {
                let ghost before = out@;
                out.push(c.clone());
                proof { assert(strings_view(out@) =~= strings_view(before).push(c@)); }
            }
            j += 1;
        }
        proof { assert(cv.take(j as int) =~= cv); }
        i += 1;
    }
    proof { assert(workspaces@.take(i as int) =~= workspaces@); }
    out
}

/// The battery label: the level's glyph, then the percentage.
pub open spec fn battery_text(capacity: u8, charging: bool) -> Seq<char> {
    fa_markup(battery_glyph_for(capacity, charging), "#a89984"@, 9) + " "@ + decimal(capacity as nat) + "%"@
}

/// The battery label for a capacity (percent) and charging state.
pub fn battery_label(capacity: u8, charging: bool) -> (r: String)
    ensures
        r@ == battery_text(capacity, charging),
{
    let mut s = fa_icon(battery_glyph(capacity, charging), "#a89984", 9);
    push_str_chars(&mut s, " ");
    push_chars(&mut s, decimal_chars(capacity as u64).as_slice());
    push_str_chars(&mut s, "%");
    s
}

/// `_NET_WM_STRUT_PARTIAL` for a bar 40 pixels high along the top of a
/// screen `screen_width` wide.
pub open spec fn strut_text(screen_width: i32) -> Seq<char> {
    "0, 0, 40, 0, 0, 0, 0, 0, 0, "@ + idecimal(screen_width - 1) + ", 0, 0"@
}

/// The strut the bar sets on its window.
pub fn strut_partial(screen_width: i32) -> (r: String)
    requires
        screen_width > i32::MIN,
    ensures
        r@ == strut_text(screen_width),
{
    let mut s = String::new();
    push_str_chars(&mut s, "0, 0, 40, 0, 0, 0, 0, 0, 0, ");
    push_chars(&mut s, i64_decimal_chars((screen_width - 1) as i64).as_slice());
    push_str_chars(&mut s, ", 0, 0");
    s
}

} // verus!
