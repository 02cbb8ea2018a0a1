//! The id and action bookkeeping of the `org.freedesktop.Notifications`
//! service: which id a notification gets, and how its action list pairs up.
//!
//! A notification that names an id to replace keeps that id. One that
//! carries the `x-canonical-private-synchronous` hint (volume and
//! brightness scripts) reuses the id last given to the same hint value, so
//! that it replaces the previous one. Any other gets a fresh id; ids count
//! up from 1, skipping 0 when they wrap.

use vstd::prelude::*;
use crate::model::string_eq;

verus! {

broadcast use vstd::seq::group_seq_axioms;

/// The first index of key `k` in the table.
pub open spec fn key_index(s: Seq<(Seq<char>, u32)>, k: Seq<char>) -> Option<int>
    decreases s.len(),
{
    if s.len() == 0 {
        None
    } else if s[0].0 == k {
        Some(0)
    } else {
        match key_index(s.drop_first(), k) {
            Some(i) => Some(i + 1),
            None => None,
        }
    }
}

/// The id recorded for sync key `k`, or 0.
pub open spec fn sync_lookup(s: Seq<(Seq<char>, u32)>, k: Seq<char>) -> u32 {
    match key_index(s, k) {
        Some(i) => s[i].1,
        None => 0,
    }
}

/// The table with `k` mapped to `id`.
pub open spec fn sync_update(s: Seq<(Seq<char>, u32)>, k: Seq<char>, id: u32) -> Seq<(Seq<char>, u32)> {
    match key_index(s, k) {
        Some(i) => s.update(i, (k, id)),
        None => s.push((k, id)),
    }
}

/// The counter after handing out an id: the next one, skipping 0.
pub open spec fn bump(next: u32) -> u32 {
    if next == u32::MAX { 1 } else { (next + 1) as u32 }
}

/// The id replaced by a notification: `replaces_id` when given, else the one
/// recorded for its sync key, else 0.
pub open spec fn effective_replaces(s: Seq<(Seq<char>, u32)>, replaces_id: u32, key: Option<Seq<char>>) -> u32 {
    if replaces_id > 0 {
        replaces_id
    } else {
        match key {
            Some(k) => sync_lookup(s, k),
            None => 0,
        }
    }
}

/// The id a notification gets.
pub open spec fn assigned_id(next: u32, s: Seq<(Seq<char>, u32)>, replaces_id: u32, key: Option<Seq<char>>) -> u32 {
    let e = effective_replaces(s, replaces_id, key);
    if e > 0 { e } else { next }
}

pub open spec fn table_view(v: Seq<(String, u32)>) -> Seq<(Seq<char>, u32)> {
    v.map_values(|p: (String, u32)| (p.0@, p.1))
}

/// The notification counter and the ids last given per sync key.
pub struct IdAllocator {
    next_id: u32,
    sync_keys: Vec<(String, u32)>,
}

impl IdAllocator {
    pub closed spec fn next(&self) -> u32 {
        self.next_id
    }

    pub closed spec fn table(&self) -> Seq<(Seq<char>, u32)> {
        table_view(self.sync_keys@)
    }

    /// A fresh allocator: the first id is 1, no sync keys known.
    pub fn new() -> (a: Self)
        ensures
            a.next() == 1,
            a.table() == Seq::<(Seq<char>, u32)>::empty(),
    {
        let a = IdAllocator { next_id: 1, sync_keys: Vec::new() };
        proof { assert(a.table() =~= Seq::<(Seq<char>, u32)>::empty()); }
        a
    }

    /// The id for an incoming notification, recording it for its sync key.
    pub fn assign(&mut self, replaces_id: u32, sync_key: Option<String>) -> (id: u32)
        ensures
            id == assigned_id(old(self).next(), old(self).table(), replaces_id, match sync_key {
                Some(k) => Some(k@),
                None => None,
            }),
            final(self).next() == (if effective_replaces(old(self).table(), replaces_id, match sync_key {
                Some(k) => Some(k@),
                None => None,
            }) > 0 { old(self).next() } else { bump(old(self).next()) }),
            final(self).table() == (match sync_key {
                Some(k) => sync_update(old(self).table(), k@, id),
                None => old(self).table(),
            }),
    {
        let effective = if replaces_id > 0 {
            replaces_id
        } else {
            match &sync_key {
                Some(k) => match find_key(&self.sync_keys, k) {
                    Some(i) => self.sync_keys[i].1,
                    None => 0,
                },
                None => 0,
            }
        };
        let id = if effective > 0 {
            effective
        } else {
            let id = self.next_id;
            self.next_id = self.next_id.wrapping_add(1);
            if self.next_id == 0 {
                self.next_id = 1;
            }
            id
        };
        if let Some(k) = sync_key {
            let ghost before = table_view(self.sync_keys@);
            match find_key(&self.sync_keys, &k) {
                Some(i) => {
                    self.sync_keys.set(i, (k, id));
                    proof { assert(table_view(self.sync_keys@) =~= before.update(i as int, (k@, id))); }
                },
                None => {
                    self.sync_keys.push((k, id));
                    proof { assert(table_view(self.sync_keys@) =~= before.push((k@, id))); }
                },
            }
        }
        id
    }
}

/// The first index of key `k` in the table.
fn find_key(v: &Vec<(String, u32)>, k: &String) -> (r: Option<usize>)
    ensures
        (match r {
            Some(i) => i < v@.len() && key_index(table_view(v@), k@) == Some(i as int),
            None => key_index(table_view(v@), k@) is None,
        }),
{
    let ghost tv = table_view(v@);
    let mut i: usize = 0;
    proof { assert(tv.skip(0) =~= tv); }
    while i < v.len()
        invariant
            i <= v@.len(),
            tv == table_view(v@),
            key_index(tv, k@) == (match key_index(tv.skip(i as int), k@) {
                Some(m) => Some(m + i),
                None => None,
            }),
        decreases v@.len() - i,
    {
        proof {
            assert(tv.skip(i as int)[0] == tv[i as int]);
            assert(tv.skip(i as int).drop_first() =~= tv.skip(i + 1));
        }
        if string_eq(&v[i].0, k) {
            return Some(i);
        }
        i += 1;
    }
    proof { assert(tv.skip(i as int) =~= Seq::<(Seq<char>, u32)>::empty()); }
    None
}

/// The index found for a key holds that key.
pub proof fn lemma_key_index(s: Seq<(Seq<char>, u32)>, k: Seq<char>)
    ensures
        (match key_index(s, k) {
            Some(i) => 0 <= i < s.len() && s[i].0 == k && forall|j: int| 0 <= j < i ==> #[trigger] s[j].0 != k,
            None => forall|j: int| 0 <= j < s.len() ==> #[trigger] s[j].0 != k,
        }),
    decreases s.len(),
{
    if s.len() > 0 {
        lemma_key_index(s.drop_first(), k);
        assert forall|j: int| 0 < j < s.len() implies #[trigger] s[j] == s.drop_first()[j - 1] by {}
    }
}

/// After a notification with a sync key, the key maps to its id: the next
/// one with the same key (and no explicit id) replaces it.
pub proof fn lemma_sync_key_replaces(s: Seq<(Seq<char>, u32)>, k: Seq<char>, id: u32)
    ensures
        sync_lookup(sync_update(s, k, id), k) == id,
{
    lemma_key_index(s, k);
    let u = sync_update(s, k, id);
    lemma_key_index(u, k);
    match key_index(s, k) {
        Some(i) => {
            assert(u[i].0 == k);
            if key_index(u, k) != Some(i) {
                match key_index(u, k) {
                    Some(m) => {
                        if m < i {
                            assert(u[m] == s[m]);
                        }
                    },
                    None => {},
                }
            }
        },
        None => {
            assert(u[s.len() as int].0 == k);
            match key_index(u, k) {
                Some(m) => {
                    if m < s.len() {
                        assert(u[m] == s[m]);
                    }
                },
                None => {},
            }
        },
    }
}

/// Handed-out ids are never 0: the counter skips 0, and an id recorded for a
/// key was handed out before.
pub proof fn lemma_ids_nonzero(next: u32, s: Seq<(Seq<char>, u32)>, replaces_id: u32, key: Option<Seq<char>>)
    requires
        next != 0,
    ensures
        assigned_id(next, s, replaces_id, key) != 0,
        bump(next) != 0,
{
}

/// The actions of a notification, `[key, label, key, label, ...]`, as
/// `(key, label)` pairs; a trailing unpaired entry is dropped.
pub open spec fn action_pairs_of(a: Seq<Seq<char>>) -> Seq<(Seq<char>, Seq<char>)> {
    Seq::new(a.len() / 2, |i: int| (a[2 * i], a[2 * i + 1]))
}

pub open spec fn string_pairs_view(v: Seq<(String, String)>) -> Seq<(Seq<char>, Seq<char>)> {
    v.map_values(|p: (String, String)| (p.0@, p.1@))
}

/// Pairs up a flat action list.
pub fn action_pairs(actions: &[String]) -> (r: Vec<(String, String)>)
    ensures
        string_pairs_view(r@) == action_pairs_of(actions@.map_values(|s: String| s@)),
{
    let ghost av = actions@.map_values(|s: String| s@);
    let mut out: Vec<(String, String)> = Vec::new();
    let mut i: usize = 0;
    while i + 1 < actions.len()
        invariant
            i % 2 == 0,
            i <= actions@.len(),
            av == actions@.map_values(|s: String| s@),
            out@.len() == i / 2,
            forall|m: int| 0 <= m < out@.len() ==> #[trigger] string_pairs_view(out@)[m] == (av[2 * m], av[2 * m + 1]),
        decreases actions@.len() - i,
    {
        let ghost before = out@;
        out.push((actions[i].clone(), actions[i + 1].clone()));
        proof {
            assert forall|m: int| 0 <= m < out@.len() implies #[trigger] string_pairs_view(out@)[m] == (av[2 * m], av[2 * m + 1]) by {
                if m < before.len() {
                    assert(out@[m] == before[m]);
                    assert(string_pairs_view(before)[m] == (av[2 * m], av[2 * m + 1]));
                }
            }
        }
        i += 2;
    }
    proof {
        assert(string_pairs_view(out@) =~= action_pairs_of(av));
    }
    out
}

/// The capabilities the service announces.
pub fn get_capabilities() -> (r: Vec<String>)
    ensures
        r@.map_values(|s: String| s@) == seq!["body"@, "body-hyperlinks"@, "body-images"@, "body-markup"@,
            "icon-static"@, "persistence"@, "actions"@],
{
    let r = vec![
        "body".to_string(),
        "body-hyperlinks".to_string(),
        "body-images".to_string(),
        "body-markup".to_string(),
        "icon-static".to_string(),
        "persistence".to_string(),
        "actions".to_string(),
    ];
    proof {
        assert(r@.map_values(|s: String| s@) =~= seq!["body"@, "body-hyperlinks"@, "body-images"@, "body-markup"@,
            "icon-static"@, "persistence"@, "actions"@]);
    }
    r
}

/// Name, vendor, version and spec version of the service.
pub fn get_server_information() -> (r: (String, String, String, String))
    ensures
        r.0@ == "i3more"@,
        r.1@ == "i3more"@,
        r.2@ == "0.1.0"@,
        r.3@ == "1.2"@,
{
    ("i3more".to_string(), "i3more".to_string(), "0.1.0".to_string(), "1.2".to_string())
}

/// Whether the actions offer `default` (clicking the notification), and
/// the other actions, in order, which get buttons.
pub open spec fn split_actions_of(a: Seq<(Seq<char>, Seq<char>)>) -> (bool, Seq<(Seq<char>, Seq<char>)>)
    decreases a.len(),
{
    if a.len() == 0 {
        (false, Seq::empty())
    } else {
        let (d, r) = split_actions_of(a.drop_last());
        if a.last().0 == "default"@ { (true, r) } else { (d, r.push(a.last())) }
    }
}

/// Splits a notification's action pairs into the `default` action and the
/// buttons.
pub fn split_actions(actions: &[(String, String)]) -> (r: (bool, Vec<(String, String)>))
    ensures
        (r.0, string_pairs_view(r.1@)) == split_actions_of(string_pairs_view(actions@)),
{
    let ghost av = string_pairs_view(actions@);
    let dflt = crate::text::chars_of("default");
    let mut has_default = false;
    let mut out: Vec<(String, String)> = Vec::new();
    let mut i: usize = 0;
    while i < actions.len()
        invariant
            i <= actions@.len(),
            av == string_pairs_view(actions@),
            dflt@ == "default"@,
            (has_default, string_pairs_view(out@)) == split_actions_of(av.take(i as int)),
        decreases actions@.len() - i,
    {
        proof {
            assert(av.take(i + 1).drop_last() =~= av.take(i as int));
            assert(av.take(i + 1).last() == (actions@[i as int].0@, actions@[i as int].1@));
        }
        if crate::text::chars_eq(crate::text::chars_of(actions[i].0.as_str()).as_slice(), dflt.as_slice()) {
            has_default = true;
        } else {
            let ghost before = out@;
            out.push((actions[i].0.clone(), actions[i].1.clone()));
            proof { assert(string_pairs_view(out@) =~= string_pairs_view(before).push((actions@[i as int].0@, actions@[i as int].1@))); }
        }
        i += 1;
    }
    proof { assert(av.take(i as int) =~= av); }
    (has_default, out)
}

} // verus!
