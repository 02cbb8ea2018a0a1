//! Workspace numbering: keep workspace numbers sequential (1, 2, 3, ...)
//! across monitors, left monitors first, and pick where focus goes when a
//! workspace empties.
//!
//! The functions here decide; the caller sends the resulting i3 commands.

use vstd::prelude::*;
use crate::i3tree::{OutputInfo, WsInfo, str_or_empty};
use crate::model::{out_pos, strings_view, string_eq, out_pos_exec};
use crate::sorting::{key_le, insert_by, sort_by_key, sorted_by, lemma_insert_by_at, lemma_sort_by_key};
use crate::text::{
    idecimal, i64_decimal_chars, parse_i64, parse_i64_chars, strip_prefix, strip_prefix_chars,
    chars_of, push_chars, push_str_chars,
};

verus! {

broadcast use vstd::seq::group_seq_axioms;

/// Prefix of a workspace's temporary name during a two-pass rename.
pub const TMP_PREFIX: &'static str = "_tmp_";

/// The active outputs with a name, as `(x, name)`, in record order; a
/// missing `x` counts as 0.
pub open spec fn active_outputs(outs: Seq<OutputInfo>) -> Seq<(int, Seq<char>)>
    decreases outs.len(),
{
    if outs.len() == 0 {
        Seq::empty()
    } else {
        let r = active_outputs(outs.drop_last());
        let o = outs.last();
        if o.active == Some(true) && o.name is Some {
            r.push((match o.x {
                Some(x) => x as int,
                None => 0,
            }, o.name->0@))
        } else {
            r
        }
    }
}

pub open spec fn x_key_fn() -> spec_fn((int, Seq<char>)) -> (int, int) {
    |p: (int, Seq<char>)| (p.0, 0int)
}

/// The active outputs sorted (stably) by `x`.
pub open spec fn outputs_by_x(outs: Seq<OutputInfo>) -> Seq<(int, Seq<char>)> {
    sort_by_key(active_outputs(outs), x_key_fn())
}

/// The names of the active outputs, left to right.
pub open spec fn spatial_order(outs: Seq<OutputInfo>) -> Seq<Seq<char>> {
    outputs_by_x(outs).map_values(|p: (int, Seq<char>)| p.1)
}

pub open spec fn xs_view(v: Seq<(i64, String)>) -> Seq<(int, Seq<char>)> {
    v.map_values(|p: (i64, String)| (p.0 as int, p.1@))
}

/// The names of the active outputs, sorted left to right by their `x`.
pub fn get_output_spatial_order(outputs: &[OutputInfo]) -> (r: Vec<String>)
    ensures
        strings_view(r@) == spatial_order(outputs@),
{
    let mut res: Vec<(i64, String)> = Vec::new();
    let mut i: usize = 0;
    while i < outputs.len()
        invariant
            i <= outputs@.len(),
            xs_view(res@) == sort_by_key(active_outputs(outputs@.take(i as int)), x_key_fn()),
        decreases outputs@.len() - i,
    {
        let o = &outputs[i];
        proof {
            assert(outputs@.take(i + 1).drop_last() =~= outputs@.take(i as int));
            assert(outputs@.take(i + 1).last() == outputs@[i as int]);
        }
        if o.active == Some(true) {
            if let Some(name) = &o.name {
                let x: i64 = match o.x {
                    Some(v) => v,
                    None => 0,
                };
                let ghost p = (x as int, name@);
                let ghost sv = xs_view(res@);
                proof {
                    let a = active_outputs(outputs@.take(i as int));
                    assert(active_outputs(outputs@.take(i + 1)) == a.push(p));
                    assert(a.push(p).drop_last() =~= a);
                }
                let mut j: usize = res.len();
                while j > 0
                    invariant
                        j <= res@.len(),
                        sv == xs_view(res@),
                        p.0 == x,
                        forall|m: int| j <= m < sv.len() ==> !key_le(#[trigger] x_key_fn()(sv[m]), x_key_fn()(p)),
                    ensures
                        j <= res@.len(),
                        forall|m: int| j <= m < sv.len() ==> !key_le(#[trigger] x_key_fn()(sv[m]), x_key_fn()(p)),
                        j > 0 ==> key_le(x_key_fn()(sv[j - 1]), x_key_fn()(p)),
                    decreases j,
                {
                    if res[j - 1].0 <= x {
                        break;
                    }
                    j -= 1;
                }
                proof { lemma_insert_by_at(sv, p, x_key_fn(), j as int); }
                res.insert(j, (x, name.clone()));
                proof { assert(xs_view(res@) =~= sv.insert(j as int, p)); }
            }
        }
        i += 1;
    }
    proof { assert(outputs@.take(i as int) =~= outputs@); }
    let mut names: Vec<String> = Vec::new();
    let mut k: usize = 0;
    while k < res.len()
        invariant
            k <= res@.len(),
            xs_view(res@) == outputs_by_x(outputs@),
            strings_view(names@) == xs_view(res@).take(k as int).map_values(|p: (int, Seq<char>)| p.1),
        decreases res@.len() - k,
    {
        let ghost before = strings_view(names@);
        let nm = res[k].1.clone();
        names.push(nm);
        proof {
            assert(strings_view(names@) =~= before.push(xs_view(res@)[k as int].1));
            assert(xs_view(res@).take(k + 1) =~= xs_view(res@).take(k as int).push(xs_view(res@)[k as int]));
        }
        k += 1;
        proof {
            assert(strings_view(names@) =~= xs_view(res@).take(k as int).map_values(|p: (int, Seq<char>)| p.1));
        }
    }
    proof { assert(xs_view(res@).take(k as int) =~= xs_view(res@)); }
    names
}

/// The outputs come left to right by `x`, and every active named output
/// appears once per record.
pub proof fn lemma_spatial_order_sorted(outs: Seq<OutputInfo>)
    ensures
        forall|i: int, j: int| 0 <= i < j < outputs_by_x(outs).len()
            ==> (#[trigger] outputs_by_x(outs)[i]).0 <= (#[trigger] outputs_by_x(outs)[j]).0,
        outputs_by_x(outs).to_multiset() == active_outputs(outs).to_multiset(),
{
    lemma_sort_by_key(active_outputs(outs), x_key_fn());
    assert forall|i: int, j: int| 0 <= i < j < outputs_by_x(outs).len()
        implies (#[trigger] outputs_by_x(outs)[i]).0 <= (#[trigger] outputs_by_x(outs)[j]).0 by {
        assert(key_le(x_key_fn()(outputs_by_x(outs)[i]), x_key_fn()(outputs_by_x(outs)[j])));
    }
}

/// The positive workspace numbers on `out` other than `num`, in record order.
pub open spec fn same_output_nums(ws: Seq<WsInfo>, out: Seq<char>, num: i64) -> Seq<i64>
    decreases ws.len(),
{
    if ws.len() == 0 {
        Seq::empty()
    } else {
        let r = same_output_nums(ws.drop_last(), out, num);
        let w = ws.last();
        if w.num is Some && w.output is Some && w.output->0@ == out && w.num->0 != num && w.num->0 > 0 {
            r.push(w.num->0)
        } else {
            r
        }
    }
}

/// The least element above `num`.
pub open spec fn min_above(c: Seq<i64>, num: i64) -> Option<i64>
    decreases c.len(),
{
    if c.len() == 0 {
        None
    } else {
        let m = min_above(c.drop_last(), num);
        let x = c.last();
        if x > num {
            match m {
                Some(y) => Some(if x < y { x } else { y }),
                None => Some(x),
            }
        } else {
            m
        }
    }
}

/// The greatest element below `num`.
pub open spec fn max_below(c: Seq<i64>, num: i64) -> Option<i64>
    decreases c.len(),
{
    if c.len() == 0 {
        None
    } else {
        let m = max_below(c.drop_last(), num);
        let x = c.last();
        if x < num {
            match m {
                Some(y) => Some(if x > y { x } else { y }),
                None => Some(x),
            }
        } else {
            m
        }
    }
}

/// Where focus goes after workspace `num` on `out` emptied: the next
/// higher workspace on the same output, else the previous lower one.
pub open spec fn focus_target(ws: Seq<WsInfo>, out: Seq<char>, num: i64) -> Option<i64> {
    let c = same_output_nums(ws, out, num);
    match min_above(c, num) {
        Some(t) => Some(t),
        None => max_below(c, num),
    }
}

/// The workspace to focus after workspace `empty_num` on `empty_output`
/// emptied; `None` when the output has no other numbered workspace.
pub fn focus_next_on_output(workspaces: &[WsInfo], empty_output: &str, empty_num: i64) -> (r: Option<i64>)
    ensures
        r == focus_target(workspaces@, empty_output@, empty_num),
{
    let out = chars_of(empty_output);
    let mut above: Option<i64> = None;
    let mut below: Option<i64> = None;
    let mut i: usize = 0;
    while i < workspaces.len()
        invariant
            i <= workspaces@.len(),
            out@ == empty_output@,
            above == min_above(same_output_nums(workspaces@.take(i as int), empty_output@, empty_num), empty_num),
            below == max_below(same_output_nums(workspaces@.take(i as int), empty_output@, empty_num), empty_num),
        decreases workspaces@.len() - i,
    {
        let w = &workspaces[i];
        let ghost prev = same_output_nums(workspaces@.take(i as int), empty_output@, empty_num);
        proof {
            assert(workspaces@.take(i + 1).drop_last() =~= workspaces@.take(i as int));
            assert(workspaces@.take(i + 1).last() == workspaces@[i as int]);
        }
        match (w.num, &w.output) {
            (Some(n), Some(o)) => {
                let same = crate::text::chars_eq(chars_of(o.as_str()).as_slice(), out.as_slice());
                if same && n != empty_num && n > 0 {
                    proof {
                        assert(prev.push(n).drop_last() =~= prev);
                    }
                    if n > empty_num {
                        above = match above {
                            Some(y) => Some(if n < y { n } else { y }),
                            None => Some(n),
                        };
                    } else {
                        below = match below {
                            Some(y) => Some(if n > y { n } else { y }),
                            None => Some(n),
                        };
                    }
                }
            },
            _ => {},
        }
        i += 1;
    }
    proof { assert(workspaces@.take(i as int) =~= workspaces@); }
    match above {
        Some(t) => Some(t),
        None => below,
    }
}

/// `min_above` is the least element above `num`; `max_below` the greatest
/// below it.
pub proof fn lemma_min_above_max_below(c: Seq<i64>, num: i64)
    ensures
        (match min_above(c, num) {
            Some(t) => c.contains(t) && t > num && forall|i: int| 0 <= i < c.len() && c[i] > num ==> t <= #[trigger] c[i],
            None => forall|i: int| 0 <= i < c.len() ==> #[trigger] c[i] <= num,
        }),
        (match max_below(c, num) {
            Some(t) => c.contains(t) && t < num && forall|i: int| 0 <= i < c.len() && c[i] < num ==> #[trigger] c[i] <= t,
            None => forall|i: int| 0 <= i < c.len() ==> #[trigger] c[i] >= num,
        }),
    decreases c.len(),
{
    if c.len() > 0 {
        let t = c.drop_last();
        lemma_min_above_max_below(t, num);
        let x = c.last();
        assert forall|i: int| 0 <= i < t.len() implies #[trigger] c[i] == t[i] by {}
        match min_above(t, num) {
            Some(y) => {
                let j = choose|j: int| 0 <= j < t.len() && t[j] == y;
                assert(c[j] == y);
            },
            None => {},
        }
        match max_below(t, num) {
            Some(y) => {
                let j = choose|j: int| 0 <= j < t.len() && t[j] == y;
                assert(c[j] == y);
            },
            None => {},
        }
        assert(c[c.len() - 1] == x);
    }
}

/// The candidates never include the emptied workspace itself, so focus moves
/// whenever the output has another numbered workspace.
pub proof fn lemma_focus_target_found(ws: Seq<WsInfo>, out: Seq<char>, num: i64)
    ensures
        forall|i: int| 0 <= i < same_output_nums(ws, out, num).len() ==> #[trigger] same_output_nums(ws, out, num)[i] != num,
        (focus_target(ws, out, num) is None) == (same_output_nums(ws, out, num).len() == 0),
    decreases ws.len(),
{
    let c = same_output_nums(ws, out, num);
    if ws.len() > 0 {
        lemma_focus_target_found(ws.drop_last(), out, num);
        let p = same_output_nums(ws.drop_last(), out, num);
        assert forall|i: int| 0 <= i < c.len() implies #[trigger] c[i] != num by {
            if i < p.len() {
                assert(c[i] == p[i]);
            }
        }
    }
    lemma_min_above_max_below(c, num);
    if c.len() > 0 {
        assert(c[0] != num);
        if min_above(c, num) is None && max_below(c, num) is None {
            assert(c[0] <= num && c[0] >= num);
        }
    }
}

/// The positive-numbered workspaces as `(num, output, focused)`.
pub open spec fn numbered(ws: Seq<WsInfo>) -> Seq<(int, Seq<char>, bool)>
    decreases ws.len(),
{
    if ws.len() == 0 {
        Seq::empty()
    } else {
        let r = numbered(ws.drop_last());
        let w = ws.last();
        if w.num matches Some(n) && n > 0 {
            r.push((w.num->0 as int, str_or_empty(w.output), w.focused == Some(true)))
        } else {
            r
        }
    }
}

pub open spec fn num_key_fn(oo: Seq<Seq<char>>) -> spec_fn((int, Seq<char>, bool)) -> (int, int) {
    |t: (int, Seq<char>, bool)| (out_pos(oo, t.1), t.0)
}

/// The numbered workspaces sorted (stably) by output position, then number.
pub open spec fn ordered(ws: Seq<WsInfo>, oo: Seq<Seq<char>>) -> Seq<(int, Seq<char>, bool)> {
    sort_by_key(numbered(ws), num_key_fn(oo))
}

/// `(old name, new name, focused)` for every workspace whose number differs
/// from its position (counted from 1) in `s`.
pub open spec fn renames_of(s: Seq<(int, Seq<char>, bool)>) -> Seq<(Seq<char>, Seq<char>, bool)>
    decreases s.len(),
{
    if s.len() == 0 {
        Seq::empty()
    } else {
        let r = renames_of(s.drop_last());
        let l = s.last();
        let target = s.len() as int;
        if l.0 != target { r.push((idecimal(l.0), idecimal(target), l.2)) } else { r }
    }
}

/// The new number of the (last) focused workspace in `s`.
pub open spec fn focused_target_of(s: Seq<(int, Seq<char>, bool)>) -> Option<int>
    decreases s.len(),
{
    if s.len() == 0 {
        None
    } else if s.last().2 {
        Some(s.len() as int)
    } else {
        focused_target_of(s.drop_last())
    }
}

/// The names of all workspaces.
pub open spec fn names_set(ws: Seq<WsInfo>) -> Set<Seq<char>>
    decreases ws.len(),
{
    if ws.len() == 0 {
        Set::empty()
    } else {
        let r = names_set(ws.drop_last());
        match ws.last().name {
            Some(n) => r.insert(n@),
            None => r,
        }
    }
}

/// Whether renaming in order would, at some step, target a name still in
/// use: each step frees its old name, checks the new one, then takes it.
pub open spec fn collides(occ: Set<Seq<char>>, rn: Seq<(Seq<char>, Seq<char>, bool)>) -> bool
    decreases rn.len(),
{
    if rn.len() == 0 {
        false
    } else {
        let occ1 = occ.remove(rn[0].0);
        occ1.contains(rn[0].1) || collides(occ1.insert(rn[0].1), rn.drop_first())
    }
}

/// The renames that make workspace numbers sequential.
pub struct RenamePlan {
    /// `(old name, new name, focused)`, in the order they are applied.
    pub renames: Vec<(String, String, bool)>,
    /// The new number of the focused workspace, to refocus it.
    pub focused_target: Option<i64>,
    /// Whether renaming in one pass would collide, so that every workspace
    /// first takes a temporary `_tmp_` name.
    pub two_pass: bool,
}

pub open spec fn renames_view(v: Seq<(String, String, bool)>) -> Seq<(Seq<char>, Seq<char>, bool)> {
    v.map_values(|t: (String, String, bool)| (t.0@, t.1@, t.2))
}

pub open spec fn numbered_view(v: Seq<(i64, String, bool)>) -> Seq<(int, Seq<char>, bool)> {
    v.map_values(|t: (i64, String, bool)| (t.0 as int, t.1@, t.2))
}

/// The set of strings in a list.
pub open spec fn set_of(v: Seq<Seq<char>>) -> Set<Seq<char>> {
    Set::new(|x: Seq<char>| v.contains(x))
}

/// Adding a string to the list adds it to the set.
proof fn lemma_set_of_push(v: Seq<Seq<char>>, x: Seq<char>)
    ensures
        set_of(v.push(x)) == set_of(v).insert(x),
{
    assert forall|y: Seq<char>| v.push(x).contains(y) <==> (v.contains(y) || y == x) by {
        if v.push(x).contains(y) {
            let k = choose|k: int| 0 <= k < v.push(x).len() && v.push(x)[k] == y;
            if k < v.len() {
                assert(v[k] == y);
            }
        }
        if v.contains(y) {
            let k = choose|k: int| 0 <= k < v.len() && v[k] == y;
            assert(v.push(x)[k] == y);
        }
        if y == x {
            assert(v.push(x)[v.len() as int] == y);
        }
    }
    assert forall|y: Seq<char>| #[trigger] set_of(v.push(x)).contains(y) == set_of(v).insert(x).contains(y) by {
        assert(set_of(v.push(x)).contains(y) == v.push(x).contains(y));
        assert(set_of(v).contains(y) == v.contains(y));
    }
    assert(set_of(v.push(x)) =~= set_of(v).insert(x));
}

/// The numbered workspaces sorted by output position, then number.
fn ordered_exec(workspaces: &[WsInfo], output_order: &[String]) -> (r: Vec<(i64, String, bool)>)
    ensures
        numbered_view(r@) == ordered(workspaces@, strings_view(output_order@)),
{
    let ghost ov = strings_view(output_order@);
    let mut res: Vec<(i64, String, bool)> = Vec::new();
    let mut i: usize = 0;
    while i < workspaces.len()
        invariant
            i <= workspaces@.len(),
            ov == strings_view(output_order@),
            numbered_view(res@) == sort_by_key(numbered(workspaces@.take(i as int)), num_key_fn(ov)),
        decreases workspaces@.len() - i,
    {
        let w = &workspaces[i];
        proof {
            assert(workspaces@.take(i + 1).drop_last() =~= workspaces@.take(i as int));
            assert(workspaces@.take(i + 1).last() == workspaces@[i as int]);
        }
        if let Some(n) = w.num {
            if n > 0 {
                let output = match &w.output {
                    Some(o) => o.clone(),
                    None => String::new(),
                };
                let focused = w.focused == Some(true);
                let ghost t = (n as int, output@, focused);
                let ghost sv = numbered_view(res@);
                proof {
                    let a = numbered(workspaces@.take(i as int));
                    assert(numbered(workspaces@.take(i + 1)) == a.push(t));
                    assert(a.push(t).drop_last() =~= a);
                }
                let pos = out_pos_exec(output_order, &output);
                let mut j: usize = res.len();
                while j > 0
                    invariant
                        j <= res@.len(),
                        sv == numbered_view(res@),
                        ov == strings_view(output_order@),
                        pos as int == out_pos(ov, t.1),
                        t.0 == n,
                        forall|m: int| j <= m < sv.len() ==> !key_le(#[trigger] num_key_fn(ov)(sv[m]), num_key_fn(ov)(t)),
                    ensures
                        j <= res@.len(),
                        forall|m: int| j <= m < sv.len() ==> !key_le(#[trigger] num_key_fn(ov)(sv[m]), num_key_fn(ov)(t)),
                        j > 0 ==> key_le(num_key_fn(ov)(sv[j - 1]), num_key_fn(ov)(t)),
                    decreases j,
                {
                    let pj = out_pos_exec(output_order, &res[j - 1].1);
                    if pj < pos || (pj == pos && res[j - 1].0 <= n) {
                        break;
                    }
                    j -= 1;
                }
                proof { lemma_insert_by_at(sv, t, num_key_fn(ov), j as int); }
                res.insert(j, (n, output, focused));
                proof { assert(numbered_view(res@) =~= sv.insert(j as int, t)); }
            }
        }
        i += 1;
    }
    proof { assert(workspaces@.take(i as int) =~= workspaces@); }
    res
}

/// Removes every copy of `s`.
fn remove_name(occ: &mut Vec<String>, s: &String)
    ensures
        set_of(strings_view(final(occ)@)) == set_of(strings_view(old(occ)@)).remove(s@),
{
    let mut out: Vec<String> = Vec::new();
    let ghost v0 = strings_view(occ@);
    let mut i: usize = 0;
    while i < occ.len()
        invariant
            i <= occ@.len(),
            v0 == strings_view(occ@),
            forall|x: Seq<char>| strings_view(out@).contains(x) <==> (v0.take(i as int).contains(x) && x != s@),
        decreases occ@.len() - i,
    {
        let ghost before = strings_view(out@);
        let ghost t0 = v0.take(i as int);
        let ghost t1 = v0.take(i + 1);
        proof {
            assert(t1 =~= t0.push(v0[i as int]));
        }
        if !string_eq(&occ[i], s) {
            out.push(occ[i].clone());
            proof {
                let o = strings_view(out@);
                assert(o =~= before.push(v0[i as int]));
                assert forall|x: Seq<char>| o.contains(x) <==> (t1.contains(x) && x != s@) by {
                    if o.contains(x) {
                        let k = choose|k: int| 0 <= k < o.len() && o[k] == x;
                        if k < before.len() {
                            assert(before[k] == x);
                            assert(before.contains(x));
                            let m = choose|m: int| 0 <= m < t0.len() && t0[m] == x;
                            assert(t1[m] == x);
                        } else {
                            assert(t1[i as int] == x);
                        }
                    }
                    if t1.contains(x) && x != s@ {
                        let k = choose|k: int| 0 <= k < t1.len() && t1[k] == x;
                        if k < i {
                            assert(t0[k] == x);
                            assert(before.contains(x));
                            let m = choose|m: int| 0 <= m < before.len() && before[m] == x;
                            assert(o[m] == x);
                        } else {
                            assert(o[before.len() as int] == x);
                        }
                    }
                }
            }
        } else {
            proof {
                assert forall|x: Seq<char>| before.contains(x) <==> (t1.contains(x) && x != s@) by {
                    if t1.contains(x) && x != s@ {
                        let k = choose|k: int| 0 <= k < t1.len() && t1[k] == x;
                        if k < i {
                            assert(t0[k] == x);
                        }
                    }
                    if t0.contains(x) {
                        let k = choose|k: int| 0 <= k < t0.len() && t0[k] == x;
                        assert(t1[k] == x);
                    }
                }
            }
        }
        i += 1;
    }
    proof {
        assert(v0.take(i as int) =~= v0);
        assert(set_of(strings_view(out@)) =~= set_of(v0).remove(s@));
    }
    *occ = out;
}

/// Whether renaming in one pass would collide.
fn has_collision(workspaces: &[WsInfo], renames: &Vec<(String, String, bool)>) -> (r: bool)
    ensures
        r == collides(names_set(workspaces@), renames_view(renames@)),
{
    let mut occ: Vec<String> = Vec::new();
    let mut i: usize = 0;
    while i < workspaces.len()
        invariant
            i <= workspaces@.len(),
            set_of(strings_view(occ@)) == names_set(workspaces@.take(i as int)),
        decreases workspaces@.len() - i,
    {
        proof {
            assert(workspaces@.take(i + 1).drop_last() =~= workspaces@.take(i as int));
            assert(workspaces@.take(i + 1).last() == workspaces@[i as int]);
        }
        if let Some(n) = &workspaces[i].name {
            let ghost before = strings_view(occ@);
            occ.push(n.clone());
            proof {
                assert(strings_view(occ@) =~= before.push(n@));
                lemma_set_of_push(before, n@);
            }
        }
        i += 1;
    }
    proof { assert(workspaces@.take(i as int) =~= workspaces@); }
    let ghost rv = renames_view(renames@);
    let mut k: usize = 0;
    proof { assert(rv.skip(0) =~= rv); }
    while k < renames.len()
        invariant
            k <= renames@.len(),
            rv == renames_view(renames@),
            collides(names_set(workspaces@), rv) == collides(set_of(strings_view(occ@)), rv.skip(k as int)),
        decreases renames@.len() - k,
    {
        proof {
            assert(rv.skip(k as int)[0] == rv[k as int]);
            assert(rv.skip(k as int).drop_first() =~= rv.skip(k + 1));
        }
        remove_name(&mut occ, &renames[k].0);
        if contains_name(&occ, &renames[k].1) {
            return true;
        }
        let ghost before = strings_view(occ@);
        occ.push(renames[k].1.clone());
        proof {
            let nn = renames@[k as int].1@;
            assert(strings_view(occ@) =~= before.push(nn));
            lemma_set_of_push(before, nn);
        }
        k += 1;
    }
    proof { assert(rv.skip(k as int) =~= Seq::<(Seq<char>, Seq<char>, bool)>::empty()); }
    false
}

/// Whether the list holds `s`.
fn contains_name(occ: &Vec<String>, s: &String) -> (r: bool)
    ensures
        r == set_of(strings_view(occ@)).contains(s@),
{
    crate::model::contains_string(occ, s)
}

/// The renames that make the numbered workspaces sequential from 1, left
/// monitor first (by the position of their output in `output_order`, then
/// number); `None` when they already are.
pub fn renumber_workspaces(workspaces: &[WsInfo], output_order: &[String]) -> (r: Option<RenamePlan>)
    requires
        workspaces@.len() < i64::MAX,
    ensures
        (match r {
            Some(p) => {
                &&& renames_of(ordered(workspaces@, strings_view(output_order@))).len() > 0
                &&& renames_view(p.renames@) == renames_of(ordered(workspaces@, strings_view(output_order@)))
                &&& (match p.focused_target {
                    Some(t) => focused_target_of(ordered(workspaces@, strings_view(output_order@))) == Some(t as int),
                    None => focused_target_of(ordered(workspaces@, strings_view(output_order@))) is None,
                })
                &&& p.two_pass == collides(names_set(workspaces@), renames_view(p.renames@))
            },
            None => renames_of(ordered(workspaces@, strings_view(output_order@))).len() == 0,
        }),
{
    let sorted = ordered_exec(workspaces, output_order);
    let ghost sv = numbered_view(sorted@);
    proof {
        lemma_sort_by_key(numbered(workspaces@), num_key_fn(strings_view(output_order@)));
        lemma_numbered_len(workspaces@);
    }
    let mut renames: Vec<(String, String, bool)> = Vec::new();
    let mut focused_target: Option<i64> = None;
    let mut idx: usize = 0;
    while idx < sorted.len()
        invariant
            idx <= sorted@.len(),
            sorted@.len() <= workspaces@.len() < i64::MAX,
            sv == numbered_view(sorted@),
            renames_view(renames@) == renames_of(sv.take(idx as int)),
            (match focused_target {
                Some(t) => focused_target_of(sv.take(idx as int)) == Some(t as int),
                None => focused_target_of(sv.take(idx as int)) is None,
            }),
        decreases sorted@.len() - idx,
    {
        let target: i64 = (idx + 1) as i64;
        let cur = sorted[idx].0;
        let focused = sorted[idx].2;
        proof {
            assert(sv.take(idx + 1).drop_last() =~= sv.take(idx as int));
            assert(sv.take(idx + 1).last() == sv[idx as int]);
            assert(sv.take(idx + 1).len() == idx + 1);
        }
        if cur != target {
            let mut old_name = String::new();
            push_chars(&mut old_name, i64_decimal_chars(cur).as_slice());
            let mut new_name = String::new();
            push_chars(&mut new_name, i64_decimal_chars(target).as_slice());
            let ghost before = renames_view(renames@);
            renames.push((old_name, new_name, focused));
            proof {
                assert(renames_view(renames@) =~= before.push((idecimal(cur as int), idecimal(target as int), focused)));
            }
        }
        if focused {
            focused_target = Some(target);
        }
        idx += 1;
    }
    proof { assert(sv.take(idx as int) =~= sv); }
    if renames.len() == 0 {
        return None;
    }
    let two_pass = has_collision(workspaces, &renames);
    Some(RenamePlan { renames, focused_target, two_pass })
}

/// At most one numbered workspace per record.
proof fn lemma_numbered_len(ws: Seq<WsInfo>)
    ensures
        numbered(ws).len() <= ws.len(),
    decreases ws.len(),
{
    if ws.len() > 0 {
        lemma_numbered_len(ws.drop_last());
    }
}

/// After the renames, the workspaces are numbered 1, 2, ... in order: every
/// workspace whose number was off gets its position, and no other is renamed.
pub proof fn lemma_renames_sequential(s: Seq<(int, Seq<char>, bool)>)
    ensures
        forall|k: int| 0 <= k < s.len() && s[k].0 != k + 1 ==>
            #[trigger] renames_of(s.take(k + 1)).last() == (idecimal(s[k].0), idecimal(k + 1), s[k].2),
        renames_of(s).len() <= s.len(),
        (renames_of(s).len() == 0) == (forall|k: int| 0 <= k < s.len() ==> #[trigger] s[k].0 == k + 1),
    decreases s.len(),
{
    if s.len() > 0 {
        let t = s.drop_last();
        lemma_renames_sequential(t);
        assert forall|k: int| 0 <= k < s.len() && s[k].0 != k + 1 implies
            #[trigger] renames_of(s.take(k + 1)).last() == (idecimal(s[k].0), idecimal(k + 1), s[k].2) by {
            let p = s.take(k + 1);
            assert(p.drop_last() =~= s.take(k));
            assert(p.last() == s[k]);
        }
        if renames_of(s).len() == 0 {
            assert(renames_of(t).len() == 0);
            assert forall|k: int| 0 <= k < s.len() implies #[trigger] s[k].0 == k + 1 by {
                if k < t.len() {
                    assert(t[k] == s[k]);
                }
            }
        }
        if forall|k: int| 0 <= k < s.len() ==> #[trigger] s[k].0 == k + 1 {
            assert forall|k: int| 0 <= k < t.len() implies #[trigger] t[k].0 == k + 1 by {
                assert(t[k] == s[k]);
            }
            assert(s.last().0 == s.len());
        }
    }
}

/// `rename workspace "<old>" to "<new>"`.
pub open spec fn rename_cmd_of(old: Seq<char>, new: Seq<char>) -> Seq<char> {
    "rename workspace \""@ + old + "\" to \""@ + new + "\""@
}

/// The i3 command renaming workspace `old` to `new`.
pub fn rename_cmd(old: &str, new: &str) -> (r: String)
    ensures
        r@ == rename_cmd_of(old@, new@),
{
    let mut s = String::new();
    push_str_chars(&mut s, "rename workspace \"");
    push_str_chars(&mut s, old);
    push_str_chars(&mut s, "\" to \"");
    push_str_chars(&mut s, new);
    push_str_chars(&mut s, "\"");
    s
}

/// The temporary name of the workspace that will be named `new`.
pub fn tmp_name(new: &str) -> (r: String)
    ensures
        r@ == TMP_PREFIX@ + new@,
{
    let mut s = String::new();
    push_str_chars(&mut s, TMP_PREFIX);
    push_str_chars(&mut s, new);
    s
}

/// The i3 command focusing workspace number `num`.
pub fn focus_cmd(num: i64) -> (r: String)
    ensures
        r@ == "workspace number "@ + idecimal(num as int),
{
    let mut s = String::new();
    push_str_chars(&mut s, "workspace number ");
    push_chars(&mut s, i64_decimal_chars(num).as_slice());
    s
}

/// The number a `_tmp_` name stands for, when it is one.
pub open spec fn tmp_target(name: Seq<char>) -> Option<Seq<char>> {
    match strip_prefix(name, TMP_PREFIX@) {
        Some(t) => if parse_i64(t) is Some { Some(t) } else { None },
        None => None,
    }
}

/// `(name, number)` of every workspace left with a `_tmp_` name by an
/// interrupted two-pass rename.
pub open spec fn recoveries(ws: Seq<WsInfo>) -> Seq<(Seq<char>, Seq<char>)>
    decreases ws.len(),
{
    if ws.len() == 0 {
        Seq::empty()
    } else {
        let r = recoveries(ws.drop_last());
        match ws.last().name {
            Some(n) => match tmp_target(n@) {
                Some(t) => r.push((n@, t)),
                None => r,
            },
            None => r,
        }
    }
}

pub open spec fn pairs_view(v: Seq<(String, String)>) -> Seq<(Seq<char>, Seq<char>)> {
    v.map_values(|p: (String, String)| (p.0@, p.1@))
}

/// The workspaces to rename back from their `_tmp_` names, with the name
/// each gets.
pub fn tmp_recoveries(workspaces: &[WsInfo]) -> (r: Vec<(String, String)>)
    ensures
        pairs_view(r@) == recoveries(workspaces@),
{
    let prefix = chars_of(TMP_PREFIX);
    let mut out: Vec<(String, String)> = Vec::new();
    let mut i: usize = 0;
    while i < workspaces.len()
        invariant
            i <= workspaces@.len(),
            prefix@ == TMP_PREFIX@,
            pairs_view(out@) == recoveries(workspaces@.take(i as int)),
        decreases workspaces@.len() - i,
    {
        proof {
            assert(workspaces@.take(i + 1).drop_last() =~= workspaces@.take(i as int));
            assert(workspaces@.take(i + 1).last() == workspaces@[i as int]);
        }
        if let Some(n) = &workspaces[i].name {
            let cs = chars_of(n.as_str());
            if let Some(t) = strip_prefix_chars(cs.as_slice(), prefix.as_slice()) {
                if parse_i64_chars(t.as_slice()).is_some() {
                    let mut target = String::new();
                    push_chars(&mut target, t.as_slice());
                    let ghost before = pairs_view(out@);
                    out.push((n.clone(), target));
                    proof { assert(pairs_view(out@) =~= before.push((n@, t@))); }
                }
            }
        }
        i += 1;
    }
    proof { assert(workspaces@.take(i as int) =~= workspaces@); }
    out
}

} // verus!
