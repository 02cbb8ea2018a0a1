//! Notification history: newest first, one entry per notification id, at
//! most `MAX_HISTORY` entries, with an unread counter for the bell badge.

use vstd::prelude::*;
use crate::text::{decimal, decimal_chars, push_chars, push_str_chars};

verus! {

broadcast use vstd::seq::group_seq_axioms;

/// How many notifications the history keeps.
pub const MAX_HISTORY: usize = 500;

/// A notification as the history keeps it.
#[derive(Debug)]
pub struct HistoryEntry {
    pub id: u32,
    pub app_name: String,
    pub app_icon: String,
    pub summary: String,
    pub body: String,
    /// Seconds since the Unix epoch when the notification arrived.
    pub timestamp_secs: u64,
}

impl Clone for HistoryEntry {
    fn clone(&self) -> (r: Self)
        ensures
            r == *self,
    {
        HistoryEntry {
            id: self.id,
            app_name: self.app_name.clone(),
            app_icon: self.app_icon.clone(),
            summary: self.summary.clone(),
            body: self.body.clone(),
            timestamp_secs: self.timestamp_secs,
        }
    }
}

/// The relative age of a notification: "just now" under a minute, then
/// whole minutes, hours or days.
pub open spec fn relative_text(timestamp: u64, now: u64) -> Seq<char> {
    let diff: int = if now >= timestamp { now - timestamp } else { 0 };
    if diff < 60 {
        "just now"@
    } else if diff < 3600 {
        decimal((diff / 60) as nat) + "m ago"@
    } else if diff < 86400 {
        decimal((diff / 3600) as nat) + "h ago"@
    } else {
        decimal((diff / 86400) as nat) + "d ago"@
    }
}

impl HistoryEntry {
    /// A relative time such as "2m ago", "1h ago" or "3d ago", as seen at
    /// `now_secs` (seconds since the Unix epoch).
    pub fn relative_time(&self, now_secs: u64) -> (r: String)
        ensures
            r@ == relative_text(self.timestamp_secs, now_secs),
    {
        let diff = now_secs.saturating_sub(self.timestamp_secs);
        if diff < 60 {
            return "just now".to_string();
        }
        let (n, unit) = if diff < 3600 {
            (diff / 60, "m ago")
        } else if diff < 86400 {
            (diff / 3600, "h ago")
        } else {
            (diff / 86400, "d ago")
        };
        let mut s = String::new();
        push_chars(&mut s, decimal_chars(n).as_slice());
        push_str_chars(&mut s, unit);
        s
    }
}

/// `s` without the entries of notification `id`, order kept.
pub open spec fn without_id(s: Seq<HistoryEntry>, id: u32) -> Seq<HistoryEntry>
    decreases s.len(),
{
    if s.len() == 0 {
        Seq::empty()
    } else {
        let rest = without_id(s.drop_first(), id);
        if s[0].id == id { rest } else { seq![s[0]] + rest }
    }
}

/// No notification id occurs twice.
pub open spec fn distinct_ids(s: Seq<HistoryEntry>) -> bool {
    forall|i: int, j: int| 0 <= i < j < s.len() ==> #[trigger] s[i].id != #[trigger] s[j].id
}

/// The history after `e` arrived: `e` first, an older entry with its id
/// dropped, the oldest cut beyond the limit.
pub open spec fn after_push(s: Seq<HistoryEntry>, e: HistoryEntry) -> Seq<HistoryEntry> {
    let f = seq![e] + without_id(s, e.id);
    if f.len() > MAX_HISTORY { f.take(MAX_HISTORY as int) } else { f }
}

/// The notification history with its unread counter.
pub struct NotificationHistory {
    pub entries: Vec<HistoryEntry>,
    pub unread_count: u32,
}

impl NotificationHistory {
    /// An empty history; the caller loads the saved one into `entries`.
    pub fn new() -> (h: Self)
        ensures
            h.entries@ == Seq::<HistoryEntry>::empty(),
            h.unread_count == 0,
    {
        NotificationHistory { entries: Vec::new(), unread_count: 0 }
    }

    /// Records a notification: it goes first, replacing an entry with the
    /// same id, and counts as unread.
    pub fn push(&mut self, entry: HistoryEntry)
        requires
            old(self).unread_count < u32::MAX,
        ensures
            final(self).entries@ == after_push(old(self).entries@, entry),
            final(self).unread_count == old(self).unread_count + 1,
    {
        let id = entry.id;
        retain_other(&mut self.entries, id);
        self.entries.insert(0, entry);
        self.unread_count = self.unread_count + 1;
        if self.entries.len() > MAX_HISTORY {
            self.entries.truncate(MAX_HISTORY);
        }
        proof {
            let f = seq![entry] + without_id(old(self).entries@, id);
            assert(old(self).entries@.len() >= 0);
            if f.len() <= MAX_HISTORY {
                assert(self.entries@ =~= f);
            } else {
                assert(self.entries@ =~= f.take(MAX_HISTORY as int));
            }
        }
    }

    /// Removes the notification `id` from the history.
    pub fn remove(&mut self, id: u32)
        ensures
            final(self).entries@ == without_id(old(self).entries@, id),
            final(self).unread_count == old(self).unread_count,
    {
        retain_other(&mut self.entries, id);
    }

    /// Clears the history and the unread counter.
    pub fn clear(&mut self)
        ensures
            final(self).entries@ == Seq::<HistoryEntry>::empty(),
            final(self).unread_count == 0,
    {
        self.entries.clear();
        self.unread_count = 0;
    }

    /// Marks everything read (resets the badge).
    pub fn mark_all_read(&mut self)
        ensures
            final(self).entries@ == old(self).entries@,
            final(self).unread_count == 0,
    {
        self.unread_count = 0;
    }
}

/// Keeps the entries whose id is not `id`, in order.
fn retain_other(v: &mut Vec<HistoryEntry>, id: u32)
    ensures
        final(v)@ == without_id(old(v)@, id),
{
    let ghost orig = v@;
    let mut i: usize = 0;
    proof { assert(v@.skip(0) =~= v@); }
    while i < v.len()
        invariant
            i <= v@.len(),
            without_id(orig, id) == v@.take(i as int) + without_id(v@.skip(i as int), id),
        decreases v@.len() - i,
    {
        let ghost before = v@;
        proof {
            assert(before.skip(i as int)[0] == before[i as int]);
            assert(before.skip(i as int).drop_first() =~= before.skip(i + 1));
        }
        if v[i].id == id {
            v.remove(i);
            proof {
                assert(v@.take(i as int) =~= before.take(i as int));
                assert(v@.skip(i as int) =~= before.skip(i + 1));
            }
        } else {
            proof {
                assert(before.take(i + 1) =~= before.take(i as int).push(before[i as int]));
                assert(before.take(i as int) + without_id(before.skip(i as int), id)
                    =~= before.take(i + 1) + without_id(before.skip(i + 1), id));
            }
            i += 1;
        }
    }
    proof {
        assert(v@.skip(i as int) =~= Seq::<HistoryEntry>::empty());
        assert(v@.take(i as int) =~= v@);
        assert(v@ + Seq::<HistoryEntry>::empty() =~= v@);
    }
}

/// Entries of `without_id(s, id)` come from `s` and none has the id.
pub proof fn lemma_without_id(s: Seq<HistoryEntry>, id: u32)
    ensures
        forall|k: int| 0 <= k < without_id(s, id).len() ==> s.contains(#[trigger] without_id(s, id)[k]),
        forall|k: int| 0 <= k < without_id(s, id).len() ==> (#[trigger] without_id(s, id)[k]).id != id,
        distinct_ids(s) ==> distinct_ids(without_id(s, id)),
    decreases s.len(),
{
    if s.len() > 0 {
        let t = s.drop_first();
        lemma_without_id(t, id);
        let w = without_id(s, id);
        let wt = without_id(t, id);
        assert forall|k: int| 0 <= k < w.len() implies s.contains(#[trigger] w[k]) by {
            if s[0].id == id {
                let j = choose|j: int| 0 <= j < t.len() && t[j] == wt[k];
                assert(s[j + 1] == w[k]);
            } else if k == 0 {
                assert(s[0] == w[0]);
            } else {
                assert(w[k] == wt[k - 1]);
                assert(t.contains(wt[k - 1]));
                let j = choose|j: int| 0 <= j < t.len() && t[j] == wt[k - 1];
                assert(s[j + 1] == w[k]);
            }
        }
        assert forall|k: int| 0 <= k < w.len() implies (#[trigger] w[k]).id != id by {
            if s[0].id != id && k > 0 {
                assert(w[k] == wt[k - 1]);
            }
        }
        if distinct_ids(s) {
            assert(distinct_ids(t)) by {
                assert forall|i: int, j: int| 0 <= i < j < t.len() implies #[trigger] t[i].id != #[trigger] t[j].id by {
                    assert(t[i] == s[i + 1] && t[j] == s[j + 1]);
                }
            }
            if s[0].id != id {
                assert forall|i: int, j: int| 0 <= i < j < w.len() implies #[trigger] w[i].id != #[trigger] w[j].id by {
                    if i == 0 {
                        assert(w[j] == wt[j - 1]);
                        assert(t.contains(wt[j - 1]));
                        let m = choose|m: int| 0 <= m < t.len() && t[m] == wt[j - 1];
                        assert(s[m + 1] == w[j]);
                    } else {
                        assert(w[i] == wt[i - 1] && w[j] == wt[j - 1]);
                    }
                }
            }
        }
    }
}

/// After a push the new notification is first, ids stay distinct, and the
/// history holds at most `MAX_HISTORY` entries.
pub proof fn lemma_push(s: Seq<HistoryEntry>, e: HistoryEntry)
    ensures
        after_push(s, e).len() > 0,
        after_push(s, e)[0] == e,
        after_push(s, e).len() <= MAX_HISTORY,
        distinct_ids(s) ==> distinct_ids(after_push(s, e)),
{
    lemma_without_id(s, e.id);
    let w = without_id(s, e.id);
    let f = seq![e] + w;
    if distinct_ids(s) {
        assert(distinct_ids(f)) by {
            assert forall|i: int, j: int| 0 <= i < j < f.len() implies #[trigger] f[i].id != #[trigger] f[j].id by {
                if i == 0 {
                    assert(f[j] == w[j - 1]);
                } else {
                    assert(f[i] == w[i - 1] && f[j] == w[j - 1]);
                }
            }
        }
        let c = after_push(s, e);
        assert forall|i: int, j: int| 0 <= i < j < c.len() implies #[trigger] c[i].id != #[trigger] c[j].id by {
            assert(c[i] == f[i] && c[j] == f[j]);
        }
    }
}

/// Removing a notification leaves no entry with its id.
pub proof fn lemma_remove(s: Seq<HistoryEntry>, id: u32)
    ensures
        forall|k: int| 0 <= k < without_id(s, id).len() ==> (#[trigger] without_id(s, id)[k]).id != id,
{
    lemma_without_id(s, id);
}

} // verus!
