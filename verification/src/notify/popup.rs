//! Notification popups: which popup a notification updates, how long it
//! stays, and where a new one opens (stacked down the right edge).

use vstd::prelude::*;

verus! {

/// How long a popup stays when the sender leaves it to the server.
pub const DEFAULT_TIMEOUT_MS: u32 = 5000;
pub const POPUP_WIDTH: i32 = 350;
pub const POPUP_GAP: i32 = 4;
pub const POPUP_TOP_OFFSET: i32 = 4;
/// The height assumed for each popup already open.
pub const POPUP_HEIGHT_ESTIMATE: i32 = 90;

/// The display time of a notification with `expire_timeout` (milliseconds;
/// zero or less: the server decides).
pub open spec fn timeout_of(expire_timeout: i32) -> u32 {
    if expire_timeout <= 0 { DEFAULT_TIMEOUT_MS } else { expire_timeout as u32 }
}

pub fn popup_timeout_ms(expire_timeout: i32) -> (r: u32)
    ensures
        r == timeout_of(expire_timeout),
{
    if expire_timeout <= 0 { DEFAULT_TIMEOUT_MS } else { expire_timeout as u32 }
}

/// The top-left corner of a new popup on a screen `screen_width` wide
/// while `open` popups are shown.
pub open spec fn position_of(screen_width: int, open: int) -> (int, int) {
    (screen_width - POPUP_WIDTH - 8, POPUP_TOP_OFFSET + open * (POPUP_HEIGHT_ESTIMATE + POPUP_GAP))
}

pub fn popup_position(screen_width: i32, open: usize) -> (r: (i32, i32))
    requires
        screen_width >= i32::MIN + POPUP_WIDTH + 8,
        POPUP_TOP_OFFSET + open * (POPUP_HEIGHT_ESTIMATE + POPUP_GAP) <= i32::MAX,
    ensures
        (r.0 as int, r.1 as int) == position_of(screen_width as int, open as int),
{
    assert(open <= 22_845_570) by (nonlinear_arith)
        requires
            4 + open * 94 <= 0x7fff_ffff,
    ;
    let n = open as i32;
    assert(n * 94 <= 0x7fff_ffff - 4) by (nonlinear_arith)
        requires
            n == open,
            4 + open * 94 <= 0x7fff_ffff,
    ;
    (screen_width - POPUP_WIDTH - 8, POPUP_TOP_OFFSET + n * (POPUP_HEIGHT_ESTIMATE + POPUP_GAP))
}

/// The position of the first open popup showing notification `id`.
pub open spec fn slot_of(ids: Seq<u32>, id: u32) -> Option<int>
    decreases ids.len(),
{
    if ids.len() == 0 {
        None
    } else if ids[0] == id {
        Some(0)
    } else {
        match slot_of(ids.drop_first(), id) {
            Some(i) => Some(i + 1),
            None => None,
        }
    }
}

/// The open popup a notification goes to: the one already showing its id
/// (updated in place), or `None` for a new popup.
pub fn popup_slot(ids: &[u32], id: u32) -> (r: Option<usize>)
    ensures
        (match r {
            Some(i) => slot_of(ids@, id) == Some(i as int),
            None => slot_of(ids@, id) is None,
        }),
{
    let mut i: usize = 0;
    while i < ids.len()
        invariant
            i <= ids@.len(),
            forall|j: int| 0 <= j < i ==> ids@[j] != id,
        decreases ids@.len() - i,
    {
        if ids[i] == id {
            proof { lemma_slot_at(ids@, id, i as int); }
            return Some(i);
        }
        i += 1;
    }
    proof { lemma_slot_none(ids@, id); }
    None
}

proof fn lemma_slot_at(ids: Seq<u32>, id: u32, i: int)
    requires
        0 <= i < ids.len(),
        ids[i] == id,
        forall|j: int| 0 <= j < i ==> ids[j] != id,
    ensures
        slot_of(ids, id) == Some(i),
    decreases i,
{
    if i > 0 {
        let t = ids.drop_first();
        assert forall|j: int| 0 <= j < i - 1 implies t[j] != id by {
            assert(t[j] == ids[j + 1]);
        }
        lemma_slot_at(t, id, i - 1);
    }
}

proof fn lemma_slot_none(ids: Seq<u32>, id: u32)
    requires
        forall|j: int| 0 <= j < ids.len() ==> ids[j] != id,
    ensures
        slot_of(ids, id) is None,
    decreases ids.len(),
{
    if ids.len() > 0 {
        let t = ids.drop_first();
        assert forall|j: int| 0 <= j < t.len() implies t[j] != id by {
            assert(t[j] == ids[j + 1]);
        }
        lemma_slot_none(t, id);
    }
}

} // verus!
