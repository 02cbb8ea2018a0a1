//! Where the popup windows go: centred on, or at the right edge of, the
//! monitor that shows the focused workspace.

use vstd::prelude::*;
use crate::text::chars_of;

verus! {

/// A monitor's geometry in pixels.
#[derive(Debug, Clone, Copy, PartialEq, Eq, Structural)]
pub struct Rect {
    pub x: i32,
    pub y: i32,
    pub width: i32,
    pub height: i32,
}

/// The geometry assumed when the focused monitor cannot be found.
pub open spec fn fallback_rect() -> Rect {
    Rect { x: 0, y: 0, width: 1920, height: 1080 }
}

/// Rust's `/ 2` on integers: the half, rounded toward zero.
pub open spec fn half(a: int) -> int {
    if a >= 0 { a / 2 } else { -((-a) / 2) }
}

/// The top-left corner that centres a `w` by `h` window on `r`.
pub open spec fn centered_at(r: Rect, w: int, h: int) -> (int, int) {
    (r.x + half(r.width - w), r.y + half(r.height - h))
}

/// The top-left corner that puts a `w` by `h` window 10 pixels from the
/// right edge of `r`, centred vertically.
pub open spec fn east_at(r: Rect, w: int, h: int) -> (int, int) {
    (r.x + r.width - w - 10, r.y + half(r.height - h))
}

/// Both coordinates fit in an `i32`.
pub open spec fn fits(p: (int, int)) -> bool {
    i32::MIN <= p.0 <= i32::MAX && i32::MIN <= p.1 <= i32::MAX
}

/// The geometry of the first monitor whose connector is `output`.
pub open spec fn monitor_for(monitors: Seq<(Option<Seq<char>>, Rect)>, output: Seq<char>) -> Option<Rect>
    decreases monitors.len(),
{
    if monitors.len() == 0 {
        None
    } else if monitors[0].0 == Some(output) {
        Some(monitors[0].1)
    } else {
        monitor_for(monitors.drop_first(), output)
    }
}

pub open spec fn monitors_view(v: Seq<(Option<String>, Rect)>) -> Seq<(Option<Seq<char>>, Rect)> {
    v.map_values(|m: (Option<String>, Rect)| (match m.0 {
        Some(s) => Some(s@),
        None => None,
    }, m.1))
}

fn half_i64(a: i64) -> (r: i64)
    requires
        -0x1_0000_0000 <= a <= 0x1_0000_0000,
    ensures
        r == half(a as int),
{
    if a >= 0 { a / 2 } else { -((-a) / 2) }
}

/// Where a `w` by `h` window is centred on `r`.
pub fn centered(r: Rect, w: i32, h: i32) -> (p: (i32, i32))
    requires
        fits(centered_at(r, w as int, h as int)),
    ensures
        (p.0 as int, p.1 as int) == centered_at(r, w as int, h as int),
{
    let x = r.x as i64 + half_i64(r.width as i64 - w as i64);
    let y = r.y as i64 + half_i64(r.height as i64 - h as i64);
    (x as i32, y as i32)
}

/// Where a `w` by `h` window sits at the right edge of `r`.
pub fn east(r: Rect, w: i32, h: i32) -> (p: (i32, i32))
    requires
        fits(east_at(r, w as int, h as int)),
    ensures
        (p.0 as int, p.1 as int) == east_at(r, w as int, h as int),
{
    let x = r.x as i64 + r.width as i64 - w as i64 - 10;
    let y = r.y as i64 + half_i64(r.height as i64 - h as i64);
    (x as i32, y as i32)
}

/// The geometry of the monitor with connector `output`, if one is listed.
pub fn find_monitor(monitors: &[(Option<String>, Rect)], output: &str) -> (r: Option<Rect>)
    ensures
        r == monitor_for(monitors_view(monitors@), output@),
{
    let ghost mv = monitors_view(monitors@);
    let want = chars_of(output);
    let mut i: usize = 0;
    proof { assert(mv.skip(0) =~= mv); }
    while i < monitors.len()
        invariant
            i <= monitors@.len(),
            mv == monitors_view(monitors@),
            want@ == output@,
            monitor_for(mv, output@) == monitor_for(mv.skip(i as int), output@),
        decreases monitors@.len() - i,
    {
        proof { assert(mv.skip(i as int).drop_first() =~= mv.skip(i as int + 1)); }
        if let Some(name) = &monitors[i].0 {
            if crate::text::chars_eq(chars_of(name.as_str()).as_slice(), want.as_slice()) {
                return Some(monitors[i].1);
            }
        }
        i += 1;
    }
    None
}

/// The geometry of the focused monitor, named `output` (empty when the
/// focused workspace's output is unknown): the matching monitor, else a
/// 1920x1080 screen at the origin.
pub fn focused_geometry(monitors: &[(Option<String>, Rect)], output: &str) -> (r: Rect)
    ensures
        r == (if output@.len() == 0 {
            fallback_rect()
        } else {
            match monitor_for(monitors_view(monitors@), output@) {
                Some(g) => g,
                None => fallback_rect(),
            }
        }),
{
    if chars_of(output).len() == 0 {
        return Rect { x: 0, y: 0, width: 1920, height: 1080 };
    }
    match find_monitor(monitors, output) {
        Some(g) => g,
        None => Rect { x: 0, y: 0, width: 1920, height: 1080 },
    }
}

} // verus!
