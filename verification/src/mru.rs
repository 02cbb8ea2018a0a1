//! Most-recently-used window tracking.
//!
//! The tracker keeps the windows the user focused, newest first, by i3
//! container id: `entries[0]` is the focused window and `entries[1]` the one
//! focused before it, so "back" is "focus `entries[1]`", and going back twice
//! returns to where one started. At most `MAX_ENTRIES` windows are kept, and
//! no container id occurs twice.

use vstd::prelude::*;
use std::collections::VecDeque;
use crate::i3tree::{I3Node, str_or_empty};
use crate::text::{idecimal, i64_decimal_chars, push_chars, push_str_chars};

verus! {

broadcast use vstd::seq::group_seq_axioms;

/// How many windows the tracker remembers.
pub const MAX_ENTRIES: usize = 50;

/// One remembered window.
#[derive(Debug, Clone)]
pub struct MruEntry {
    pub con_id: i64,
    pub class: String,
    pub title: String,
}

/// The windows in focus order, newest first.
pub struct MruTracker {
    entries: VecDeque<MruEntry>,
}

/// `s` without the entries whose container id is `id`, order kept.
pub open spec fn without(s: Seq<MruEntry>, id: i64) -> Seq<MruEntry>
    decreases s.len(),
{
    if s.len() == 0 {
        Seq::empty()
    } else {
        let rest = without(s.drop_first(), id);
        if s[0].con_id == id { rest } else { seq![s[0]] + rest }
    }
}

/// Whether some entry of `s` has container id `id`.
pub open spec fn has_id(s: Seq<MruEntry>, id: i64) -> bool {
    exists|i: int| 0 <= i < s.len() && #[trigger] s[i].con_id == id
}

/// No container id occurs twice.
pub open spec fn distinct_ids(s: Seq<MruEntry>) -> bool {
    forall|i: int, j: int| 0 <= i < j < s.len() ==> #[trigger] s[i].con_id != #[trigger] s[j].con_id
}

/// The first `MAX_ENTRIES` entries.
pub open spec fn capped(s: Seq<MruEntry>) -> Seq<MruEntry> {
    if s.len() > MAX_ENTRIES { s.take(MAX_ENTRIES as int) } else { s }
}

/// The list after `e` was focused: `e` in front, its older entry dropped,
/// the oldest entries cut beyond the limit.
pub open spec fn after_focus(s: Seq<MruEntry>, e: MruEntry) -> Seq<MruEntry> {
    capped(seq![e] + without(s, e.con_id))
}

impl View for MruTracker {
    type V = Seq<MruEntry>;

    closed spec fn view(&self) -> Seq<MruEntry> {
        self.entries@
    }
}

impl MruTracker {
    /// The tracker's invariant: distinct ids, at most `MAX_ENTRIES` entries.
    pub open spec fn wf(&self) -> bool {
        distinct_ids(self@) && self@.len() <= MAX_ENTRIES
    }

    /// An empty tracker. The caller seeds it with the focused window, when i3
    /// can tell it, through `focus`.
    pub fn new() -> (t: Self)
        ensures
            t@ == Seq::<MruEntry>::empty(),
            t.wf(),
    {
        MruTracker { entries: VecDeque::with_capacity(MAX_ENTRIES) }
    }

    /// The entries, newest first.
    pub fn entries(&self) -> (r: &VecDeque<MruEntry>)
        ensures
            r@ == self@,
    {
        &self.entries
    }

    /// Record a focus event: the window moves to the front.
    pub fn focus(&mut self, entry: MruEntry)
        ensures
            final(self)@ == after_focus(old(self)@, entry),
            old(self).wf() ==> final(self).wf(),
    {
        let ghost old_v = self.entries@;
        let id = entry.con_id;
        retain_other(&mut self.entries, id);
        self.entries.push_front(entry);
        let ghost full = seq![entry] + without(old_v, id);
        proof {
            assert(self.entries@ =~= full);
            assert(full.take(full.len() as int) =~= full);
        }
        while self.entries.len() > MAX_ENTRIES
            invariant
                self.entries@.len() <= full.len(),
                self.entries@ == full.take(self.entries@.len() as int),
                full.len() > MAX_ENTRIES ==> self.entries@.len() >= MAX_ENTRIES,
                full.len() <= MAX_ENTRIES ==> self.entries@.len() == full.len(),
            decreases self.entries@.len(),
        {
            self.entries.pop_back();
            proof {
                assert(self.entries@ =~= full.take(self.entries@.len() as int));
            }
        }
        proof {
            if full.len() <= MAX_ENTRIES {
                assert(full.take(full.len() as int) =~= full);
            }
            assert(self.entries@ == capped(full));
            if distinct_ids(old_v) {
                lemma_after_focus_distinct(old_v, entry);
            }
        }
    }

    /// Record a window close: its entry leaves the list. Returns whether the
    /// list changed.
    pub fn close(&mut self, con_id: i64) -> (changed: bool)
        ensures
            final(self)@ == without(old(self)@, con_id),
            changed == has_id(old(self)@, con_id),
            old(self).wf() ==> final(self).wf(),
    {
        let before = self.entries.len();
        retain_other(&mut self.entries, con_id);
        proof {
            lemma_without_len(old(self)@, con_id);
            lemma_without_sub(old(self)@, con_id);
        }
        self.entries.len() != before
    }
}

impl Default for MruTracker {
    fn default() -> (t: Self)
        ensures
            t@ == Seq::<MruEntry>::empty(),
    {
        Self::new()
    }
}

/// Keeps the entries whose container id is not `id`, in order.
fn retain_other(q: &mut VecDeque<MruEntry>, id: i64)
    ensures
        final(q)@ == without(old(q)@, id),
{
    let mut out: VecDeque<MruEntry> = VecDeque::new();
    let ghost orig = q@;
    loop
        invariant
            out@ + without(q@, id) == without(orig, id),
        ensures
            out@ == without(orig, id),
        decreases q@.len(),
    {
        let ghost before = q@;
        let ghost out0 = out@;
        match q.pop_front() {
            Some(e) => {
                proof {
                    assert(before.drop_first() =~= q@);
                    assert(before[0] == e);
                }
                if e.con_id != id {
                    out.push_back(e);
                    proof {
                        assert(without(before, id) == seq![e] + without(q@, id));
                        assert(out@ + without(q@, id) =~= out0 + (seq![e] + without(q@, id)));
                    }
                } else {
                    proof {
                        assert(without(before, id) == without(q@, id));
                    }
                }
            },
            None => {
                proof {
                    assert(without(q@, id) =~= Seq::<MruEntry>::empty());
                    assert(out@ + Seq::<MruEntry>::empty() =~= out@);
                }
                break;
            },
        }
    }
    *q = out;
}

/// Every entry of `without(s, id)` is an entry of `s`, and none has id `id`.
pub proof fn lemma_without_sub(s: Seq<MruEntry>, id: i64)
    ensures
        forall|k: int| 0 <= k < without(s, id).len() ==> s.contains(#[trigger] without(s, id)[k]),
        forall|k: int| 0 <= k < without(s, id).len() ==> (#[trigger] without(s, id)[k]).con_id != id,
        distinct_ids(s) ==> distinct_ids(without(s, id)),
    decreases s.len(),
{
    if s.len() > 0 {
        let t = s.drop_first();
        lemma_without_sub(t, id);
        let w = without(s, id);
        let wt = without(t, id);
        assert forall|k: int| 0 <= k < w.len() implies s.contains(#[trigger] w[k]) by {
            if s[0].con_id == id {
                assert(t.contains(wt[k]));
                let j = choose|j: int| 0 <= j < t.len() && t[j] == wt[k];
                assert(s[j + 1] == w[k]);
            } else if k == 0 {
                assert(s[0] == w[0]);
            } else {
                assert(w[k] == wt[k - 1]);
                assert(t.contains(wt[k - 1]));
                let j = choose|j: int| 0 <= j < t.len() && t[j] == wt[k - 1];
                assert(s[j + 1] == w[k]);
            }
        }
        assert forall|k: int| 0 <= k < w.len() implies (#[trigger] w[k]).con_id != id by {
            if s[0].con_id != id && k > 0 {
                assert(w[k] == wt[k - 1]);
            }
        }
        if distinct_ids(s) {
            assert(distinct_ids(t)) by {
                assert forall|i: int, j: int| 0 <= i < j < t.len() implies #[trigger] t[i].con_id != #[trigger] t[j].con_id by {
                    assert(t[i] == s[i + 1] && t[j] == s[j + 1]);
                }
            }
            if s[0].con_id != id {
                assert forall|i: int, j: int| 0 <= i < j < w.len() implies #[trigger] w[i].con_id != #[trigger] w[j].con_id by {
                    if i == 0 {
                        assert(w[j] == wt[j - 1]);
                        assert(t.contains(wt[j - 1]));
                        let m = choose|m: int| 0 <= m < t.len() && t[m] == wt[j - 1];
                        assert(s[m + 1] == w[j]);
                    } else {
                        assert(w[i] == wt[i - 1] && w[j] == wt[j - 1]);
                    }
                }
            }
        }
    }
}

/// `without` drops exactly the entries with the id: the length shrinks iff
/// some entry had it.
pub proof fn lemma_without_len(s: Seq<MruEntry>, id: i64)
    ensures
        without(s, id).len() <= s.len(),
        (without(s, id).len() < s.len()) == has_id(s, id),
        !has_id(s, id) ==> without(s, id) == s,
    decreases s.len(),
{
    if s.len() > 0 {
        let t = s.drop_first();
        lemma_without_len(t, id);
        if has_id(t, id) {
            let i = choose|i: int| 0 <= i < t.len() && #[trigger] t[i].con_id == id;
            assert(s[i + 1].con_id == id);
        }
        if has_id(s, id) && s[0].con_id != id {
            let i = choose|i: int| 0 <= i < s.len() && #[trigger] s[i].con_id == id;
            assert(t[i - 1].con_id == id);
        }
        if !has_id(s, id) {
            assert(!has_id(t, id)) by {
                if has_id(t, id) {
                    let i = choose|i: int| 0 <= i < t.len() && #[trigger] t[i].con_id == id;
                    assert(s[i + 1].con_id == id);
                }
            }
            assert(s[0].con_id != id);
            assert(without(s, id) =~= seq![s[0]] + t);
        }
    }
}

/// In a list with distinct ids, dropping the id found at `k` is removing
/// index `k`.
pub proof fn lemma_without_at(s: Seq<MruEntry>, k: int)
    requires
        distinct_ids(s),
        0 <= k < s.len(),
    ensures
        without(s, s[k].con_id) == s.remove(k),
    decreases s.len(),
{
    let id = s[k].con_id;
    let t = s.drop_first();
    assert(distinct_ids(t)) by {
        assert forall|i: int, j: int| 0 <= i < j < t.len() implies #[trigger] t[i].con_id != #[trigger] t[j].con_id by {
            assert(t[i] == s[i + 1] && t[j] == s[j + 1]);
        }
    }
    if k == 0 {
        assert(!has_id(t, id)) by {
            if has_id(t, id) {
                let i = choose|i: int| 0 <= i < t.len() && #[trigger] t[i].con_id == id;
                assert(s[i + 1].con_id == s[0].con_id);
            }
        }
        lemma_without_len(t, id);
        assert(s.remove(0) =~= t);
    } else {
        assert(s[0].con_id != id);
        assert(t[k - 1] == s[k]);
        lemma_without_at(t, k - 1);
        assert(s.remove(k) =~= seq![s[0]] + t.remove(k - 1));
    }
}

/// Focusing keeps ids distinct and the length within the limit.
pub proof fn lemma_after_focus_distinct(s: Seq<MruEntry>, e: MruEntry)
    requires
        distinct_ids(s),
    ensures
        distinct_ids(after_focus(s, e)),
        after_focus(s, e).len() <= MAX_ENTRIES,
{
    lemma_without_sub(s, e.con_id);
    let w = without(s, e.con_id);
    let f = seq![e] + w;
    assert(distinct_ids(f)) by {
        assert forall|i: int, j: int| 0 <= i < j < f.len() implies #[trigger] f[i].con_id != #[trigger] f[j].con_id by {
            if i == 0 {
                assert(f[j] == w[j - 1]);
            } else {
                assert(f[i] == w[i - 1] && f[j] == w[j - 1]);
            }
        }
    }
    let c = after_focus(s, e);
    assert forall|i: int, j: int| 0 <= i < j < c.len() implies #[trigger] c[i].con_id != #[trigger] c[j].con_id by {
        assert(c[i] == f[i] && c[j] == f[j]);
    }
}

/// The focused window is always first after a focus event.
pub proof fn lemma_focus_front(s: Seq<MruEntry>, e: MruEntry)
    ensures
        after_focus(s, e).len() > 0,
        after_focus(s, e)[0] == e,
{
}

/// The window that was in front becomes second when another window is
/// focused: "back" (focusing `entries[1]`) reaches it.
pub proof fn lemma_previous_second(s: Seq<MruEntry>, e: MruEntry)
    requires
        distinct_ids(s),
        s.len() > 0,
        s[0].con_id != e.con_id,
    ensures
        after_focus(s, e).len() >= 2,
        after_focus(s, e)[1] == s[0],
{
    lemma_without_len(s, e.con_id);
    let t = s.drop_first();
    assert(without(s, e.con_id) == seq![s[0]] + without(t, e.con_id));
}

/// Going back twice returns to where one started: focusing the second entry
/// and then the first restores the list.
pub proof fn lemma_back_twice(s: Seq<MruEntry>)
    requires
        distinct_ids(s),
        2 <= s.len() <= MAX_ENTRIES,
    ensures
        after_focus(after_focus(s, s[1]), s[0]) == s,
{
    lemma_without_at(s, 1);
    let s1 = seq![s[1]] + s.remove(1);
    assert(after_focus(s, s[1]) == s1);
    assert(s1[1] == s[0]);
    assert(distinct_ids(s1)) by {
        lemma_after_focus_distinct(s, s[1]);
    }
    lemma_without_at(s1, 1);
    let s2 = seq![s[0]] + s1.remove(1);
    assert(s2 =~= s);
}

/// Closing removes the window: no entry with its id remains.
pub proof fn lemma_close_removes(s: Seq<MruEntry>, id: i64)
    ensures
        !has_id(without(s, id), id),
{
    lemma_without_sub(s, id);
}

/// The entry for a window container of an i3 event: `None` for nodes
/// without an X11 window (split containers, workspaces) or without an id.
pub open spec fn container_entry(n: I3Node) -> Option<(i64, Seq<char>, Seq<char>)> {
    if n.window is Some && n.id is Some {
        Some((n.id->0, str_or_empty(n.class), str_or_empty(n.name)))
    } else {
        None
    }
}

/// The characters of an optional entry.
pub open spec fn entry_view(r: Option<MruEntry>) -> Option<(i64, Seq<char>, Seq<char>)> {
    match r {
        Some(e) => Some((e.con_id, e.class@, e.title@)),
        None => None,
    }
}

fn string_or_empty(o: &Option<String>) -> (r: String)
    ensures
        r@ == str_or_empty(*o),
{
    match o {
        Some(s) => s.clone(),
        None => String::new(),
    }
}

/// Builds an entry from an i3 event's `container`; only real windows count.
pub fn entry_from_container(container: &I3Node) -> (r: Option<MruEntry>)
    ensures
        entry_view(r) == container_entry(*container),
{
    if container.window.is_none() {
        return None;
    }
    let id = match container.id {
        Some(i) => i,
        None => return None,
    };
    Some(MruEntry { con_id: id, class: string_or_empty(&container.class), title: string_or_empty(&container.name) })
}

/// The entry of the focused window: the first node in pre-order (tiling
/// before floating) that is focused and holds a window.
pub open spec fn focused_entry(n: I3Node) -> Option<(i64, Seq<char>, Seq<char>)>
    decreases n,
{
    if n.focused == Some(true) && n.window is Some {
        container_entry(n)
    } else {
        match focused_entry_list(n.nodes@) {
            Some(e) => Some(e),
            None => focused_entry_list(n.floating_nodes@),
        }
    }
}

pub open spec fn focused_entry_list(s: Seq<I3Node>) -> Option<(i64, Seq<char>, Seq<char>)>
    decreases s,
{
    if s.len() == 0 {
        None
    } else {
        match focused_entry(s[0]) {
            Some(e) => Some(e),
            None => focused_entry_list(s.subrange(1, s.len() as int)),
        }
    }
}

/// The focused window of a tree, to seed a new tracker.
pub fn find_focused(node: &I3Node) -> (r: Option<MruEntry>)
    ensures
        entry_view(r) == focused_entry(*node),
    decreases node, 1nat,
{
    if node.focused == Some(true) && node.window.is_some() {
        return entry_from_container(node);
    }
    match find_focused_list(&node.nodes) {
        Some(e) => Some(e),
        None => find_focused_list(&node.floating_nodes),
    }
}

fn find_focused_list(nodes: &Vec<I3Node>) -> (r: Option<MruEntry>)
    ensures
        entry_view(r) == focused_entry_list(nodes@),
    decreases nodes, 0nat,
{
    let mut i: usize = 0;
    proof { assert(nodes@.subrange(0, nodes@.len() as int) =~= nodes@); }
    while i < nodes.len()
        invariant
            i <= nodes@.len(),
            focused_entry_list(nodes@) == focused_entry_list(nodes@.subrange(i as int, nodes@.len() as int)),
        decreases nodes@.len() - i,
    {
        proof {
            assert(decreases_to!(*nodes => nodes@));
            assert(decreases_to!(nodes@ => nodes@[i as int]));
            let rest = nodes@.subrange(i as int, nodes@.len() as int);
            assert(rest[0] == nodes@[i as int]);
            assert(rest.subrange(1, rest.len() as int) =~= nodes@.subrange(i + 1, nodes@.len() as int));
        }
        if let Some(e) = find_focused(&nodes[i]) {
            return Some(e);
        }
        i += 1;
    }
    None
}

/// The i3 command focusing container `id`.
pub open spec fn focus_con_text(id: i64) -> Seq<char> {
    "[con_id=\""@ + idecimal(id as int) + "\"] focus"@
}

/// What "back" does with a saved list, newest first: focus the window
/// focused before the current one; nothing when there is none.
pub fn back_command(entries: &[MruEntry]) -> (r: Option<String>)
    ensures
        (match r {
            Some(c) => entries@.len() >= 2 && c@ == focus_con_text(entries@[1].con_id),
            None => entries@.len() < 2,
        }),
{
    if entries.len() < 2 {
        return None;
    }
    let mut s = String::new();
    push_str_chars(&mut s, "[con_id=\"");
    push_chars(&mut s, i64_decimal_chars(entries[1].con_id).as_slice());
    push_str_chars(&mut s, "\"] focus");
    Some(s)
}

} // verus!
