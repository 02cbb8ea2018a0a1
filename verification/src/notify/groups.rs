//! How the notification panel groups the history: one group per
//! application, groups in ascending name order, each listing its
//! notifications in history order.

use vstd::prelude::*;
use crate::notify::history::HistoryEntry;
use crate::text::{chars_of, lex_le, lex_le_chars, lemma_lex_total, lemma_lex_trans};
use crate::model::string_eq;

verus! {

broadcast use vstd::seq::group_seq_axioms;

/// The group a notification is listed under: its application, or
/// `Unknown` when it names none.
pub open spec fn app_key(e: HistoryEntry) -> Seq<char> {
    if e.app_name@.len() == 0 { "Unknown"@ } else { e.app_name@ }
}

/// The ids, in order, of the entries listed under `k`.
pub open spec fn ids_under(es: Seq<HistoryEntry>, k: Seq<char>) -> Seq<u32>
    decreases es.len(),
{
    if es.len() == 0 {
        Seq::empty()
    } else {
        let r = ids_under(es.drop_last(), k);
        if app_key(es.last()) == k { r.push(es.last().id) } else { r }
    }
}

/// `a` comes strictly before `b`.
pub open spec fn lex_lt(a: Seq<char>, b: Seq<char>) -> bool {
    lex_le(a, b) && a != b
}

/// Each group holds the ids listed under its name.
pub open spec fn ids_ok(es: Seq<HistoryEntry>, g: Seq<(Seq<char>, Seq<u32>)>) -> bool {
    forall|i: int| 0 <= i < g.len() ==> (#[trigger] g[i]).1 == ids_under(es, g[i].0)
}

/// Group names strictly ascend.
pub open spec fn names_ascend(g: Seq<(Seq<char>, Seq<u32>)>) -> bool {
    forall|i: int, j: int| 0 <= i < j < g.len() ==> lex_lt((#[trigger] g[i]).0, (#[trigger] g[j]).0)
}

/// Some group is named `k`.
pub open spec fn has_group(g: Seq<(Seq<char>, Seq<u32>)>, k: Seq<char>) -> bool {
    exists|i: int| 0 <= i < g.len() && (#[trigger] g[i]).0 == k
}

/// Some entry is listed under `k`.
pub open spec fn has_entry(es: Seq<HistoryEntry>, k: Seq<char>) -> bool {
    exists|m: int| 0 <= m < es.len() && app_key(#[trigger] es[m]) == k
}

/// Every entry's group is there.
pub open spec fn covered(es: Seq<HistoryEntry>, g: Seq<(Seq<char>, Seq<u32>)>) -> bool {
    forall|m: int| 0 <= m < es.len() ==> has_group(g, app_key(#[trigger] es[m]))
}

/// Every group has an entry.
pub open spec fn witnessed(es: Seq<HistoryEntry>, g: Seq<(Seq<char>, Seq<u32>)>) -> bool {
    forall|i: int| 0 <= i < g.len() ==> has_entry(es, (#[trigger] g[i]).0)
}

/// `g` is the grouping of `es`: each group holds the ids under its name,
/// names strictly ascend, every entry's group is there, and every group
/// has an entry.
pub open spec fn grouping_ok(es: Seq<HistoryEntry>, g: Seq<(Seq<char>, Seq<u32>)>) -> bool {
    &&& ids_ok(es, g)
    &&& names_ascend(g)
    &&& covered(es, g)
    &&& witnessed(es, g)
}

pub open spec fn groups_view(v: Seq<(String, Vec<u32>)>) -> Seq<(Seq<char>, Seq<u32>)> {
    v.map_values(|p: (String, Vec<u32>)| (p.0@, p.1@))
}

proof fn lemma_ids_step(es: Seq<HistoryEntry>, n: int, k: Seq<char>)
    requires
        0 <= n < es.len(),
    ensures
        ids_under(es.take(n + 1), k) == (if app_key(es[n]) == k {
            ids_under(es.take(n), k).push(es[n].id)
        } else {
            ids_under(es.take(n), k)
        }),
{
    assert(es.take(n + 1).drop_last() =~= es.take(n));
}

proof fn lemma_ids_absent(es: Seq<HistoryEntry>, k: Seq<char>)
    requires
        forall|m: int| 0 <= m < es.len() ==> app_key(#[trigger] es[m]) != k,
    ensures
        ids_under(es, k) == Seq::<u32>::empty(),
    decreases es.len(),
{
    if es.len() > 0 {
        let t = es.drop_last();
        assert forall|m: int| 0 <= m < t.len() implies app_key(#[trigger] t[m]) != k by {
            assert(t[m] == es[m]);
        }
        lemma_ids_absent(t, k);
        assert(app_key(es[es.len() - 1]) != k);
    }
}

fn app_key_exec(e: &HistoryEntry) -> (r: String)
    ensures
        r@ == app_key(*e),
{
    if chars_of(e.app_name.as_str()).len() == 0 {
        "Unknown".to_string()
    } else {
        e.app_name.clone()
    }
}

fn find_group(out: &Vec<(String, Vec<u32>)>, key: &String) -> (r: Option<usize>)
    ensures
        (match r {
            Some(p) => p < out@.len() && out@[p as int].0@ == key@,
            None => forall|m: int| 0 <= m < out@.len() ==> (#[trigger] out@[m]).0@ != key@,
        }),
{
    let mut p: usize = 0;
    while p < out.len()
        invariant
            p <= out@.len(),
            forall|m: int| 0 <= m < p ==> (#[trigger] out@[m]).0@ != key@,
        decreases out@.len() - p,
    {
        if string_eq(&out[p].0, key) {
            return Some(p);
        }
        p += 1;
    }
    None
}

fn insert_pos(out: &Vec<(String, Vec<u32>)>, key: &String) -> (q: usize)
    ensures
        q <= out@.len(),
        forall|m: int| 0 <= m < q ==> !lex_le(key@, (#[trigger] out@[m]).0@),
        q < out@.len() ==> lex_le(key@, out@[q as int].0@),
{
    let k = chars_of(key.as_str());
    let mut q: usize = 0;
    while q < out.len()
        invariant
            q <= out@.len(),
            k@ == key@,
            forall|m: int| 0 <= m < q ==> !lex_le(key@, (#[trigger] out@[m]).0@),
        decreases out@.len() - q,
    {
        if lex_le_chars(k.as_slice(), chars_of(out[q].0.as_str()).as_slice()) {
            return q;
        }
        q += 1;
    }
    q
}

proof fn lemma_extend_ids(es: Seq<HistoryEntry>, n: int, g: Seq<(Seq<char>, Seq<u32>)>, p: int,
    g2: Seq<(Seq<char>, Seq<u32>)>)
    requires
        0 <= n < es.len(),
        ids_ok(es.take(n), g),
        names_ascend(g),
        0 <= p < g.len(),
        g[p].0 == app_key(es[n]),
        g2 == g.update(p, (g[p].0, g[p].1.push(es[n].id))),
    ensures
        ids_ok(es.take(n + 1), g2),
{
    assert forall|i: int| 0 <= i < g2.len() implies (#[trigger] g2[i]).1 == ids_under(es.take(n + 1), g2[i].0) by {
        lemma_ids_step(es, n, g2[i].0);
        if i != p {
            assert(g2[i] == g[i]);
            if i < p {
                assert(lex_lt(g[i].0, g[p].0));
            } else {
                assert(lex_lt(g[p].0, g[i].0));
            }
        }
    }
}

proof fn lemma_extend_cover(es: Seq<HistoryEntry>, n: int, g: Seq<(Seq<char>, Seq<u32>)>, p: int,
    g2: Seq<(Seq<char>, Seq<u32>)>)
    requires
        0 <= n < es.len(),
        covered(es.take(n), g),
        witnessed(es.take(n), g),
        0 <= p < g.len(),
        g[p].0 == app_key(es[n]),
        g2.len() == g.len(),
        forall|i: int| 0 <= i < g.len() ==> (#[trigger] g2[i]).0 == g[i].0,
    ensures
        covered(es.take(n + 1), g2),
        witnessed(es.take(n + 1), g2),
{
    let a = es.take(n);
    let b = es.take(n + 1);
    assert forall|m: int| 0 <= m < b.len() implies has_group(g2, app_key(#[trigger] b[m])) by {
        if m < n {
            assert(b[m] == a[m]);
            assert(has_group(g, app_key(a[m])));
            let i = choose|i: int| 0 <= i < g.len() && (#[trigger] g[i]).0 == app_key(a[m]);
            assert(g2[i].0 == g[i].0);
        } else {
            assert(b[m] == es[n]);
            assert(g2[p].0 == g[p].0);
        }
    }
    assert forall|i: int| 0 <= i < g2.len() implies has_entry(b, (#[trigger] g2[i]).0) by {
        assert(g2[i].0 == g[i].0);
        assert(has_entry(a, g[i].0));
        let m = choose|m: int| 0 <= m < a.len() && app_key(#[trigger] a[m]) == g[i].0;
        assert(b[m] == a[m]);
    }
}

/// Adding entry `n` to a group that already has its name.
proof fn lemma_extend(es: Seq<HistoryEntry>, n: int, g: Seq<(Seq<char>, Seq<u32>)>, p: int,
    g2: Seq<(Seq<char>, Seq<u32>)>)
    requires
        0 <= n < es.len(),
        grouping_ok(es.take(n), g),
        0 <= p < g.len(),
        g[p].0 == app_key(es[n]),
        g2 == g.update(p, (g[p].0, g[p].1.push(es[n].id))),
    ensures
        grouping_ok(es.take(n + 1), g2),
{
    lemma_extend_ids(es, n, g, p, g2);
    assert forall|i: int, j: int| 0 <= i < j < g2.len() implies lex_lt((#[trigger] g2[i]).0, (#[trigger] g2[j]).0) by {
        assert(g2[i].0 == g[i].0 && g2[j].0 == g[j].0);
        assert(lex_lt(g[i].0, g[j].0));
    }
    lemma_extend_cover(es, n, g, p, g2);
}

proof fn lemma_open_ids(es: Seq<HistoryEntry>, n: int, g: Seq<(Seq<char>, Seq<u32>)>, q: int,
    g2: Seq<(Seq<char>, Seq<u32>)>)
    requires
        0 <= n < es.len(),
        ids_ok(es.take(n), g),
        covered(es.take(n), g),
        forall|m: int| 0 <= m < g.len() ==> (#[trigger] g[m]).0 != app_key(es[n]),
        0 <= q <= g.len(),
        g2 == g.insert(q, (app_key(es[n]), seq![es[n].id])),
    ensures
        ids_ok(es.take(n + 1), g2),
{
    let a = es.take(n);
    let key = app_key(es[n]);
    assert forall|m: int| 0 <= m < a.len() implies app_key(#[trigger] a[m]) != key by {
        assert(has_group(g, app_key(a[m])));
    }
    lemma_ids_absent(a, key);
    assert forall|i: int| 0 <= i < g2.len() implies (#[trigger] g2[i]).1 == ids_under(es.take(n + 1), g2[i].0) by {
        lemma_ids_step(es, n, g2[i].0);
        if i < q {
            assert(g2[i] == g[i]);
        } else if i > q {
            assert(g2[i] == g[i - 1]);
        } else {
            assert(ids_under(a, key).push(es[n].id) =~= seq![es[n].id]);
        }
    }
}

proof fn lemma_open_sorted(key: Seq<char>, g: Seq<(Seq<char>, Seq<u32>)>, q: int, ids: Seq<u32>,
    g2: Seq<(Seq<char>, Seq<u32>)>)
    requires
        names_ascend(g),
        forall|m: int| 0 <= m < g.len() ==> (#[trigger] g[m]).0 != key,
        0 <= q <= g.len(),
        forall|m: int| 0 <= m < q ==> !lex_le(key, (#[trigger] g[m]).0),
        q < g.len() ==> lex_le(key, g[q].0),
        g2 == g.insert(q, (key, ids)),
    ensures
        names_ascend(g2),
{
    assert forall|i: int, j: int| 0 <= i < j < g2.len() implies lex_lt((#[trigger] g2[i]).0, (#[trigger] g2[j]).0) by {
        if j < q {
            assert(g2[i] == g[i] && g2[j] == g[j]);
        } else if i > q {
            assert(g2[i] == g[i - 1] && g2[j] == g[j - 1]);
        } else if j == q {
            assert(g2[i] == g[i]);
            lemma_lex_total(key, g[i].0);
        } else if i == q {
            assert(g2[j] == g[j - 1]);
            if j - 1 > q {
                assert(lex_lt(g[q].0, g[j - 1].0));
                lemma_lex_trans(key, g[q].0, g[j - 1].0);
            }
        } else {
            assert(g2[i] == g[i] && g2[j] == g[j - 1]);
        }
    }
}

proof fn lemma_open_cover(es: Seq<HistoryEntry>, n: int, g: Seq<(Seq<char>, Seq<u32>)>, q: int,
    g2: Seq<(Seq<char>, Seq<u32>)>)
    requires
        0 <= n < es.len(),
        covered(es.take(n), g),
        witnessed(es.take(n), g),
        0 <= q <= g.len(),
        g2 == g.insert(q, (app_key(es[n]), seq![es[n].id])),
    ensures
        covered(es.take(n + 1), g2),
        witnessed(es.take(n + 1), g2),
{
    let a = es.take(n);
    let b = es.take(n + 1);
    let key = app_key(es[n]);
    assert forall|m: int| 0 <= m < b.len() implies has_group(g2, app_key(#[trigger] b[m])) by {
        if m < n {
            assert(b[m] == a[m]);
            assert(has_group(g, app_key(a[m])));
            let i = choose|i: int| 0 <= i < g.len() && (#[trigger] g[i]).0 == app_key(a[m]);
            if i < q {
                assert(g2[i] == g[i]);
            } else {
                assert(g2[i + 1] == g[i]);
            }
        } else {
            assert(b[m] == es[n]);
            assert(g2[q].0 == key);
        }
    }
    assert forall|i: int| 0 <= i < g2.len() implies has_entry(b, (#[trigger] g2[i]).0) by {
        if i == q {
            assert(b[n] == es[n]);
            assert(app_key(b[n]) == g2[i].0);
        } else {
            let k = if i < q { i } else { i - 1 };
            assert(g2[i] == g[k]);
            assert(has_entry(a, g[k].0));
            let m = choose|m: int| 0 <= m < a.len() && app_key(#[trigger] a[m]) == g[k].0;
            assert(b[m] == a[m]);
        }
    }
}

/// Adding entry `n` as a new group at position `q`.
proof fn lemma_open(es: Seq<HistoryEntry>, n: int, g: Seq<(Seq<char>, Seq<u32>)>, q: int,
    g2: Seq<(Seq<char>, Seq<u32>)>)
    requires
        0 <= n < es.len(),
        grouping_ok(es.take(n), g),
        forall|m: int| 0 <= m < g.len() ==> (#[trigger] g[m]).0 != app_key(es[n]),
        0 <= q <= g.len(),
        forall|m: int| 0 <= m < q ==> !lex_le(app_key(es[n]), (#[trigger] g[m]).0),
        q < g.len() ==> lex_le(app_key(es[n]), g[q].0),
        g2 == g.insert(q, (app_key(es[n]), seq![es[n].id])),
    ensures
        grouping_ok(es.take(n + 1), g2),
{
    lemma_open_ids(es, n, g, q, g2);
    lemma_open_sorted(app_key(es[n]), g, q, seq![es[n].id], g2);
    lemma_open_cover(es, n, g, q, g2);
}

/// The panel's groups for the history: application name and the ids of its
/// notifications, names ascending.
pub fn group_by_app(entries: &[HistoryEntry]) -> (r: Vec<(String, Vec<u32>)>)
    ensures
        grouping_ok(entries@, groups_view(r@)),
{
    let mut out: Vec<(String, Vec<u32>)> = Vec::new();
    let mut n: usize = 0;
    proof { assert(groups_view(out@) =~= Seq::<(Seq<char>, Seq<u32>)>::empty()); }
    while n < entries.len()
        invariant
            n <= entries@.len(),
            grouping_ok(entries@.take(n as int), groups_view(out@)),
        decreases entries@.len() - n,
    {
        let e = &entries[n];
        let key = app_key_exec(e);
        let ghost g = groups_view(out@);
        match find_group(&out, &key) {
            Some(p) => {
                let (k, mut ids) = out.remove(p);
                ids.push(e.id);
                out.insert(p, (k, ids));
                proof {
                    assert(groups_view(out@) =~= g.update(p as int, (g[p as int].0, g[p as int].1.push(e.id))));
                    lemma_extend(entries@, n as int, g, p as int, groups_view(out@));
                }
            },
            None => {
                let q = insert_pos(&out, &key);
                let mut ids: Vec<u32> = Vec::new();
                ids.push(e.id);
                proof {
                    assert(ids@ =~= seq![e.id]);
                    assert forall|m: int| 0 <= m < g.len() implies (#[trigger] g[m]).0 != key@ by {
                        assert(g[m].0 == out@[m].0@);
                    }
                    assert forall|m: int| 0 <= m < q implies !lex_le(key@, (#[trigger] g[m]).0) by {
                        assert(g[m].0 == out@[m].0@);
                    }
                }
                out.insert(q, (key, ids));
                proof {
                    assert(groups_view(out@) =~= g.insert(q as int, (app_key(*e), seq![e.id])));
                    lemma_open(entries@, n as int, g, q as int, groups_view(out@));
                }
            },
        }
        n += 1;
    }
    proof { assert(entries@.take(n as int) =~= entries@); }
    out
}

} // verus!
