//! Carrying out a rename plan: the renames in the order they are sent, and
//! why none of them ever targets a workspace name that is taken at that
//! moment.

use vstd::prelude::*;
use crate::i3tree::WsInfo;
use crate::sequencer::{
    RenamePlan, renames_view, collides, tmp_name, TMP_PREFIX, renames_of, ordered, numbered, names_set, num_key_fn,
};
use crate::sorting::lemma_sort_by_key;
use crate::text::{decimal, idecimal};

verus! {

broadcast use vstd::seq::group_seq_axioms;

/// The renames as sent: in one pass each `old` to `new`; in two passes each
/// `old` to its temporary name, then each temporary name to `new`.
pub open spec fn plan_steps(rn: Seq<(Seq<char>, Seq<char>, bool)>, two_pass: bool) -> Seq<(Seq<char>, Seq<char>, bool)> {
    if two_pass {
        tmp_pass(rn) + final_pass(rn)
    } else {
        rn
    }
}

/// Each `old` to the temporary name of its `new`.
pub open spec fn tmp_pass(rn: Seq<(Seq<char>, Seq<char>, bool)>) -> Seq<(Seq<char>, Seq<char>, bool)> {
    rn.map_values(|t: (Seq<char>, Seq<char>, bool)| (t.0, TMP_PREFIX@ + t.1, t.2))
}

/// Each temporary name to its `new`.
pub open spec fn final_pass(rn: Seq<(Seq<char>, Seq<char>, bool)>) -> Seq<(Seq<char>, Seq<char>, bool)> {
    rn.map_values(|t: (Seq<char>, Seq<char>, bool)| (TMP_PREFIX@ + t.1, t.1, t.2))
}

/// The names in use after carrying out `rn` from `occ`.
pub open spec fn after_steps(occ: Set<Seq<char>>, rn: Seq<(Seq<char>, Seq<char>, bool)>) -> Set<Seq<char>>
    decreases rn.len(),
{
    if rn.len() == 0 {
        occ
    } else {
        after_steps(occ.remove(rn[0].0).insert(rn[0].1), rn.drop_first())
    }
}

/// The `(old, new)` pairs to send for a plan, in order.
pub fn rename_steps(plan: &RenamePlan) -> (r: Vec<(String, String)>)
    ensures
        r@.len() == plan_steps(renames_view(plan.renames@), plan.two_pass).len(),
        forall|i: int| 0 <= i < r@.len() ==> (#[trigger] r@[i].0@, r@[i].1@)
            == (plan_steps(renames_view(plan.renames@), plan.two_pass)[i].0, plan_steps(renames_view(plan.renames@), plan.two_pass)[i].1),
{
    let ghost rn = renames_view(plan.renames@);
    let ghost steps = plan_steps(rn, plan.two_pass);
    let mut out: Vec<(String, String)> = Vec::new();
    let n = plan.renames.len();
    let mut i: usize = 0;
    while i < n
        invariant
            i <= n,
            n == plan.renames@.len(),
            rn == renames_view(plan.renames@),
            steps == plan_steps(rn, plan.two_pass),
            out@.len() == i,
            forall|k: int| 0 <= k < i ==> (#[trigger] out@[k].0@, out@[k].1@) == (steps[k].0, steps[k].1),
        decreases n - i,
    {
        let (old, new, _) = &plan.renames[i];
        proof { assert(rn[i as int] == (old@, new@, plan.renames@[i as int].2)); }
        let target = if plan.two_pass { tmp_name(new.as_str()) } else { new.clone() };
        out.push((old.clone(), target));
        i += 1;
    }
    if plan.two_pass {
        let mut j: usize = 0;
        while j < n
            invariant
                j <= n,
                plan.two_pass,
                n == plan.renames@.len(),
                rn == renames_view(plan.renames@),
                steps == plan_steps(rn, plan.two_pass),
                steps.len() == 2 * n,
                out@.len() == n + j,
                forall|k: int| 0 <= k < n + j ==> (#[trigger] out@[k].0@, out@[k].1@) == (steps[k].0, steps[k].1),
            decreases n - j,
        {
            let (_, new, _) = &plan.renames[j];
            proof {
                assert(rn[j as int] == (plan.renames@[j as int].0@, new@, plan.renames@[j as int].2));
                assert(steps[n + j] == final_pass(rn)[j as int]);
            }
            out.push((tmp_name(new.as_str()), new.clone()));
            j += 1;
        }
    }
    out
}

/// What is in use after a run of renames was either in use before and not
/// renamed away by any of them, or is the target of one of them.
pub proof fn lemma_after_steps(occ: Set<Seq<char>>, rn: Seq<(Seq<char>, Seq<char>, bool)>, x: Seq<char>)
    ensures
        after_steps(occ, rn).contains(x) ==> (occ.contains(x) && forall|i: int| 0 <= i < rn.len() ==> #[trigger] rn[i].0 != x)
            || exists|i: int| 0 <= i < rn.len() && #[trigger] rn[i].1 == x,
    decreases rn.len(),
{
    if rn.len() > 0 {
        let occ1 = occ.remove(rn[0].0).insert(rn[0].1);
        let rest = rn.drop_first();
        lemma_after_steps(occ1, rest, x);
        if after_steps(occ, rn).contains(x) {
            if occ1.contains(x) && forall|i: int| 0 <= i < rest.len() ==> #[trigger] rest[i].0 != x {
                if x == rn[0].1 {
                } else {
                    assert forall|i: int| 0 <= i < rn.len() implies #[trigger] rn[i].0 != x by {
                        if i > 0 {
                            assert(rn[i] == rest[i - 1]);
                        }
                    }
                }
            } else {
                let k = choose|k: int| 0 <= k < rest.len() && #[trigger] rest[k].1 == x;
                assert(rn[k + 1] == rest[k]);
            }
        }
    }
}

/// Renames whose targets are distinct and lie outside a set that covers
/// every name in use never target a name in use.
pub proof fn lemma_fresh_targets(occ: Set<Seq<char>>, rn: Seq<(Seq<char>, Seq<char>, bool)>, cover: Set<Seq<char>>)
    requires
        forall|x: Seq<char>| occ.contains(x) ==> cover.contains(x),
        forall|i: int| 0 <= i < rn.len() ==> !cover.contains(#[trigger] rn[i].1),
        forall|i: int, j: int| 0 <= i < j < rn.len() ==> #[trigger] rn[i].1 != #[trigger] rn[j].1,
    ensures
        !collides(occ, rn),
    decreases rn.len(),
{
    if rn.len() > 0 {
        let occ1 = occ.remove(rn[0].0);
        let rest = rn.drop_first();
        assert(!cover.contains(rn[0].1));
        let c2 = cover.insert(rn[0].1);
        assert forall|i: int| 0 <= i < rest.len() implies !c2.contains(#[trigger] rest[i].1) by {
            assert(rest[i] == rn[i + 1]);
            assert(!cover.contains(rn[i + 1].1));
            assert(rn[0].1 != rn[i + 1].1);
        }
        assert forall|i: int, j: int| 0 <= i < j < rest.len() implies #[trigger] rest[i].1 != #[trigger] rest[j].1 by {
            assert(rest[i] == rn[i + 1]);
            assert(rest[j] == rn[j + 1]);
        }
        lemma_fresh_targets(occ1.insert(rn[0].1), rest, c2);
    }
}

/// Renaming by one run and then another collides exactly when the first
/// collides or the second does from where the first left off.
pub proof fn lemma_collides_concat(occ: Set<Seq<char>>, a: Seq<(Seq<char>, Seq<char>, bool)>, b: Seq<(Seq<char>, Seq<char>, bool)>)
    ensures
        collides(occ, a + b) == (collides(occ, a) || collides(after_steps(occ, a), b)),
    decreases a.len(),
{
    if a.len() > 0 {
        let occ1 = occ.remove(a[0].0);
        assert((a + b)[0] == a[0]);
        assert((a + b).drop_first() =~= a.drop_first() + b);
        lemma_collides_concat(occ1.insert(a[0].1), a.drop_first(), b);
    } else {
        assert(a + b =~= b);
    }
}

proof fn lemma_prefix_cancel(p: Seq<char>, x: Seq<char>, y: Seq<char>)
    requires
        p + x == p + y,
    ensures
        x == y,
{
    assert(x =~= (p + x).skip(p.len() as int));
    assert(y =~= (p + y).skip(p.len() as int));
}

/// Two-pass renaming never targets a name in use, when the new names are
/// distinct, no temporary name is in use beforehand, no new name looks like
/// a temporary one, and every new name that is in use beforehand is the old
/// name of one of the renames.
pub proof fn lemma_two_pass_never_collides(occ: Set<Seq<char>>, rn: Seq<(Seq<char>, Seq<char>, bool)>)
    requires
        forall|i: int, j: int| 0 <= i < j < rn.len() ==> #[trigger] rn[i].1 != #[trigger] rn[j].1,
        forall|i: int| 0 <= i < rn.len() ==> !occ.contains(TMP_PREFIX@ + #[trigger] rn[i].1),
        forall|i: int, j: int| 0 <= i < rn.len() && 0 <= j < rn.len() ==> #[trigger] rn[i].1 != TMP_PREFIX@ + #[trigger] rn[j].1,
        forall|i: int| 0 <= i < rn.len() && occ.contains(#[trigger] rn[i].1) ==>
            exists|j: int| 0 <= j < rn.len() && #[trigger] rn[j].0 == rn[i].1,
    ensures
        !collides(occ, plan_steps(rn, true)),
{
    let a = tmp_pass(rn);
    let b = final_pass(rn);
    assert forall|i: int| 0 <= i < a.len() implies !occ.contains(#[trigger] a[i].1) by {
        assert(a[i].1 == TMP_PREFIX@ + rn[i].1);
    }
    assert forall|i: int, j: int| 0 <= i < j < a.len() implies #[trigger] a[i].1 != #[trigger] a[j].1 by {
        if a[i].1 == a[j].1 {
            lemma_prefix_cancel(TMP_PREFIX@, rn[i].1, rn[j].1);
        }
    }
    lemma_fresh_targets(occ, a, occ);
    let s1 = after_steps(occ, a);
    let cover = Set::new(|x: Seq<char>|
        (occ.contains(x) && forall|i: int| 0 <= i < a.len() ==> #[trigger] a[i].0 != x)
            || exists|i: int| 0 <= i < a.len() && #[trigger] a[i].1 == x);
    assert forall|x: Seq<char>| s1.contains(x) implies cover.contains(x) by {
        lemma_after_steps(occ, a, x);
    }
    assert forall|i: int| 0 <= i < b.len() implies !cover.contains(#[trigger] b[i].1) by {
        let x = b[i].1;
        assert(x == rn[i].1);
        if occ.contains(x) {
            let j = choose|j: int| 0 <= j < rn.len() && #[trigger] rn[j].0 == rn[i].1;
            assert(a[j].0 == x);
        }
        if exists|k: int| 0 <= k < a.len() && #[trigger] a[k].1 == x {
            let k = choose|k: int| 0 <= k < a.len() && #[trigger] a[k].1 == x;
            assert(a[k].1 == TMP_PREFIX@ + rn[k].1);
        }
    }
    assert forall|i: int, j: int| 0 <= i < j < b.len() implies #[trigger] b[i].1 != #[trigger] b[j].1 by {
        assert(b[i].1 == rn[i].1 && b[j].1 == rn[j].1);
    }
    lemma_fresh_targets(s1, b, cover);
    lemma_collides_concat(occ, a, b);
}

/// Whichever pass a plan uses, no rename it sends targets a name in use at
/// that moment: one pass is chosen only when it does not collide, and two
/// passes never collide under the conditions above.
pub proof fn lemma_plan_never_collides(occ: Set<Seq<char>>, rn: Seq<(Seq<char>, Seq<char>, bool)>, two_pass: bool)
    requires
        two_pass == collides(occ, rn),
        forall|i: int, j: int| 0 <= i < j < rn.len() ==> #[trigger] rn[i].1 != #[trigger] rn[j].1,
        forall|i: int| 0 <= i < rn.len() ==> !occ.contains(TMP_PREFIX@ + #[trigger] rn[i].1),
        forall|i: int, j: int| 0 <= i < rn.len() && 0 <= j < rn.len() ==> #[trigger] rn[i].1 != TMP_PREFIX@ + #[trigger] rn[j].1,
        forall|i: int| 0 <= i < rn.len() && occ.contains(#[trigger] rn[i].1) ==>
            exists|j: int| 0 <= j < rn.len() && #[trigger] rn[j].0 == rn[i].1,
    ensures
        !collides(occ, plan_steps(rn, two_pass)),
{
    if two_pass {
        lemma_two_pass_never_collides(occ, rn);
    }
}

proof fn lemma_decimal_head(n: nat)
    ensures
        decimal(n).len() >= 1,
        '0' <= decimal(n)[0] <= '9',
    decreases n,
{
    if n >= 10 {
        lemma_decimal_head(n / 10);
    }
}

proof fn lemma_digit_char(a: nat, b: nat)
    requires
        a < 10,
        b < 10,
        ('0' as u32 + a) as char == ('0' as u32 + b) as char,
    ensures
        a == b,
{
    assert((('0' as u32 + a) as char) as u32 == 48 + a);
    assert((('0' as u32 + b) as char) as u32 == 48 + b);
}

/// Different numbers have different decimal forms.
proof fn lemma_decimal_injective(a: nat, b: nat)
    requires
        decimal(a) == decimal(b),
    ensures
        a == b,
    decreases a,
{
    lemma_decimal_head(a / 10);
    lemma_decimal_head(b / 10);
    let da = decimal(a);
    let db = decimal(b);
    if a < 10 && b < 10 {
        assert(da[0] == db[0]);
        lemma_digit_char(a, b);
    } else if a >= 10 && b >= 10 {
        assert(da == decimal(a / 10).push(('0' as u32 + a % 10) as char));
        assert(db == decimal(b / 10).push(('0' as u32 + b % 10) as char));
        assert(da.last() == db.last());
        lemma_digit_char(a % 10, b % 10);
        assert(da.drop_last() =~= decimal(a / 10));
        assert(db.drop_last() =~= decimal(b / 10));
        lemma_decimal_injective(a / 10, b / 10);
        assert(a == (a / 10) * 10 + a % 10);
        assert(b == (b / 10) * 10 + b % 10);
    } else if a < 10 {
        assert(db == decimal(b / 10).push(('0' as u32 + b % 10) as char));
        assert(da.len() == 1);
        assert(db.len() >= 2);
    } else {
        assert(da == decimal(a / 10).push(('0' as u32 + a % 10) as char));
        assert(db.len() == 1);
        assert(da.len() >= 2);
    }
}

/// Whether the workspace at position `k` is numbered off its position.
pub open spec fn off_at(s: Seq<(int, Seq<char>, bool)>, k: int) -> bool {
    0 <= k < s.len() && s[k].0 != k + 1
}

/// The rename for position `k`.
pub open spec fn entry_at(s: Seq<(int, Seq<char>, bool)>, k: int) -> (Seq<char>, Seq<char>, bool) {
    (idecimal(s[k].0), idecimal(k + 1), s[k].2)
}

/// Whether `e` is the rename for position `k`.
pub open spec fn is_entry(s: Seq<(int, Seq<char>, bool)>, k: int, e: (Seq<char>, Seq<char>, bool)) -> bool {
    e == entry_at(s, k)
}

/// Whether `e` is the rename for some position whose number is off.
pub open spec fn from_some_pos(s: Seq<(int, Seq<char>, bool)>, e: (Seq<char>, Seq<char>, bool)) -> bool {
    exists|k: int| #[trigger] off_at(s, k) && is_entry(s, k, e)
}

/// Each rename is the one for some position whose number is off.
proof fn lemma_renames_from(s: Seq<(int, Seq<char>, bool)>)
    ensures
        forall|i: int| 0 <= i < renames_of(s).len() ==> from_some_pos(s, #[trigger] renames_of(s)[i]),
    decreases s.len(),
{
    if s.len() > 0 {
        let t = s.drop_last();
        lemma_renames_from(t);
        let r = renames_of(t);
        let rs = renames_of(s);
        assert forall|i: int| 0 <= i < rs.len() implies from_some_pos(s, #[trigger] rs[i]) by {
            if i < r.len() {
                assert(rs[i] == r[i]);
                assert(from_some_pos(t, r[i]));
                let k = choose|k: int| #[trigger] off_at(t, k) && is_entry(t, k, r[i]);
                assert(t[k] == s[k]);
                assert(entry_at(t, k) == entry_at(s, k));
                assert(off_at(s, k) && is_entry(s, k, rs[i]));
            } else {
                assert(off_at(s, s.len() - 1));
                assert(is_entry(s, s.len() - 1, rs[i]));
            }
        }
    }
}

/// The position of every number that is off has its rename.
proof fn lemma_renames_cover(s: Seq<(int, Seq<char>, bool)>)
    ensures
        forall|k: int| #[trigger] off_at(s, k) ==> exists|i: int| 0 <= i < renames_of(s).len()
            && is_entry(s, k, renames_of(s)[i]),
    decreases s.len(),
{
    if s.len() > 0 {
        let t = s.drop_last();
        lemma_renames_cover(t);
        let r = renames_of(t);
        let rs = renames_of(s);
        assert forall|k: int| #[trigger] off_at(s, k) implies exists|i: int| 0 <= i < rs.len() && is_entry(s, k, rs[i]) by {
            if k < t.len() {
                assert(t[k] == s[k]);
                assert(off_at(t, k));
                let i = choose|i: int| 0 <= i < r.len() && is_entry(t, k, r[i]);
                assert(rs[i] == r[i]);
                assert(entry_at(t, k) == entry_at(s, k));
                assert(is_entry(s, k, rs[i]));
            } else {
                assert(is_entry(s, k, rs[r.len() as int]));
            }
        }
    }
}

/// The new names of the renames are all different.
proof fn lemma_renames_distinct(s: Seq<(int, Seq<char>, bool)>)
    ensures
        forall|i: int, j: int| 0 <= i < j < renames_of(s).len() ==> #[trigger] renames_of(s)[i].1 != #[trigger] renames_of(s)[j].1,
    decreases s.len(),
{
    if s.len() > 0 {
        let t = s.drop_last();
        lemma_renames_distinct(t);
        lemma_renames_from(t);
        let r = renames_of(t);
        let rs = renames_of(s);
        let n = s.len() as int;
        assert forall|i: int, j: int| 0 <= i < j < rs.len() implies #[trigger] rs[i].1 != #[trigger] rs[j].1 by {
            assert(rs[i] == r[i]);
            if j < r.len() {
                assert(rs[j] == r[j]);
            } else {
                assert(rs[j].1 == idecimal(n));
                assert(from_some_pos(t, r[i]));
                let k = choose|k: int| #[trigger] off_at(t, k) && is_entry(t, k, r[i]);
                if rs[i].1 == rs[j].1 {
                    lemma_decimal_injective((k + 1) as nat, n as nat);
                }
            }
        }
    }
}

/// Every name in use belongs to some workspace.
proof fn lemma_names_set(ws: Seq<WsInfo>, x: Seq<char>)
    ensures
        names_set(ws).contains(x) ==> exists|m: int| 0 <= m < ws.len() && (#[trigger] ws[m].name matches Some(nm) && nm@ == x),
    decreases ws.len(),
{
    if ws.len() > 0 {
        lemma_names_set(ws.drop_last(), x);
        if names_set(ws.drop_last()).contains(x) {
            let m = choose|m: int| 0 <= m < ws.drop_last().len() && (#[trigger] ws.drop_last()[m].name matches Some(nm) && nm@ == x);
            assert(ws[m] == ws.drop_last()[m]);
        }
        assert(ws[ws.len() - 1] == ws.last());
    }
}

/// Every workspace with a positive number is among the numbered ones.
proof fn lemma_numbered_has(ws: Seq<WsInfo>, m: int)
    requires
        0 <= m < ws.len(),
        ws[m].num matches Some(n) && n > 0,
    ensures
        exists|j: int| 0 <= j < numbered(ws).len() && #[trigger] numbered(ws)[j].0 == ws[m].num->0,
    decreases ws.len(),
{
    let t = ws.drop_last();
    if m < t.len() {
        assert(t[m] == ws[m]);
        lemma_numbered_has(t, m);
        let j = choose|j: int| 0 <= j < numbered(t).len() && #[trigger] numbered(t)[j].0 == t[m].num->0;
        assert(numbered(ws)[j] == numbered(t)[j]);
    } else {
        assert(ws.last() == ws[m]);
        assert(numbered(ws)[numbered(t).len() as int].0 == ws[m].num->0);
    }
}

/// Every numbered workspace is named by its number.
pub open spec fn named_by_number(ws: Seq<WsInfo>) -> bool {
    forall|m: int| 0 <= m < ws.len() && (#[trigger] ws[m].num matches Some(n) && n > 0) ==>
        (ws[m].name matches Some(nm) && nm@ == idecimal(ws[m].num->0 as int))
}

/// A name that is a positive number belongs to the workspace with that number.
pub open spec fn numbers_named(ws: Seq<WsInfo>) -> bool {
    forall|m: int, t: int| 0 <= m < ws.len() && t > 0 && (#[trigger] ws[m].name matches Some(nm) && nm@ == #[trigger] idecimal(t)) ==>
        (ws[m].num matches Some(n) && n as int == t)
}

/// No workspace has a temporary name left from an earlier run.
pub open spec fn no_tmp_names(ws: Seq<WsInfo>) -> bool {
    forall|m: int, t: int| 0 <= m < ws.len() ==>
        !(#[trigger] ws[m].name matches Some(nm) && nm@ == TMP_PREFIX@ + #[trigger] idecimal(t))
}

proof fn lemma_tmp_not_in_use(ws: Seq<WsInfo>, oo: Seq<Seq<char>>)
    requires
        no_tmp_names(ws),
    ensures
        forall|i: int| 0 <= i < renames_of(ordered(ws, oo)).len() ==>
            !names_set(ws).contains(TMP_PREFIX@ + #[trigger] renames_of(ordered(ws, oo))[i].1),
{
    let s = ordered(ws, oo);
    let rn = renames_of(s);
    lemma_renames_from(s);
    assert forall|i: int| 0 <= i < rn.len() implies !names_set(ws).contains(TMP_PREFIX@ + #[trigger] rn[i].1) by {
        assert(from_some_pos(s, rn[i]));
        let k = choose|k: int| #[trigger] off_at(s, k) && is_entry(s, k, rn[i]);
        lemma_names_set(ws, TMP_PREFIX@ + rn[i].1);
        if names_set(ws).contains(TMP_PREFIX@ + rn[i].1) {
            let m = choose|m: int| 0 <= m < ws.len() && (#[trigger] ws[m].name matches Some(nm) && nm@ == TMP_PREFIX@ + rn[i].1);
            assert(!(ws[m].name matches Some(nm) && nm@ == TMP_PREFIX@ + idecimal(k + 1)));
        }
    }
}

proof fn lemma_new_not_tmp(s: Seq<(int, Seq<char>, bool)>)
    ensures
        forall|i: int, j: int| 0 <= i < renames_of(s).len() && 0 <= j < renames_of(s).len() ==>
            #[trigger] renames_of(s)[i].1 != TMP_PREFIX@ + #[trigger] renames_of(s)[j].1,
{
    let rn = renames_of(s);
    lemma_renames_from(s);
    assert forall|i: int, j: int| 0 <= i < rn.len() && 0 <= j < rn.len() implies #[trigger] rn[i].1 != TMP_PREFIX@ + #[trigger] rn[j].1 by {
        assert(from_some_pos(s, rn[i]));
        let k = choose|k: int| #[trigger] off_at(s, k) && is_entry(s, k, rn[i]);
        lemma_decimal_head((k + 1) as nat);
        reveal_strlit("_tmp_");
        assert((TMP_PREFIX@ + rn[j].1)[0] == '_');
    }
}

#[verifier::rlimit(60)]
proof fn lemma_new_in_use_is_old(ws: Seq<WsInfo>, oo: Seq<Seq<char>>)
    requires
        numbers_named(ws),
    ensures
        forall|i: int| 0 <= i < renames_of(ordered(ws, oo)).len() && names_set(ws).contains(#[trigger] renames_of(ordered(ws, oo))[i].1) ==>
            exists|j: int| 0 <= j < renames_of(ordered(ws, oo)).len() && #[trigger] renames_of(ordered(ws, oo))[j].0 == renames_of(ordered(ws, oo))[i].1,
{
    let s = ordered(ws, oo);
    let rn = renames_of(s);
    lemma_sort_by_key(numbered(ws), num_key_fn(oo));
    lemma_renames_from(s);
    lemma_renames_cover(s);
    assert forall|i: int| 0 <= i < rn.len() && names_set(ws).contains(#[trigger] rn[i].1) implies
        exists|j: int| 0 <= j < rn.len() && #[trigger] rn[j].0 == rn[i].1 by {
        assert(from_some_pos(s, rn[i]));
        let k = choose|k: int| #[trigger] off_at(s, k) && is_entry(s, k, rn[i]);
        lemma_names_set(ws, rn[i].1);
        let m = choose|m: int| 0 <= m < ws.len() && (#[trigger] ws[m].name matches Some(nm) && nm@ == rn[i].1);
        assert(ws[m].name matches Some(nm) && nm@ == idecimal(k + 1));
        assert(ws[m].num matches Some(n) && n as int == k + 1);
        lemma_numbered_has(ws, m);
        let jn = choose|jn: int| 0 <= jn < numbered(ws).len() && #[trigger] numbered(ws)[jn].0 == ws[m].num->0;
        let e = numbered(ws)[jn];
        assert(numbered(ws).contains(e));
        vstd::seq_lib::to_multiset_contains(numbered(ws), e);
        vstd::seq_lib::to_multiset_contains(s, e);
        assert(s.to_multiset().count(e) == numbered(ws).to_multiset().count(e));
        assert(s.contains(e));
        let q = choose|q: int| 0 <= q < s.len() && s[q] == e;
        assert(s[q].0 == k + 1);
        assert(off_at(s, q));
        let i2 = choose|i2: int| 0 <= i2 < rn.len() && is_entry(s, q, rn[i2]);
        assert(rn[i2].0 == rn[i].1);
    }
}

/// Renumbering never renames a workspace onto a name in use at that moment,
/// whether it takes one pass or two, when every numbered workspace is named
/// by its number, every name that is a positive number belongs to the
/// workspace with that number, and no temporary name is left from an
/// earlier run.
pub proof fn lemma_renumber_never_collides(ws: Seq<WsInfo>, oo: Seq<Seq<char>>)
    requires
        named_by_number(ws),
        numbers_named(ws),
        no_tmp_names(ws),
    ensures
        !collides(names_set(ws), plan_steps(renames_of(ordered(ws, oo)), collides(names_set(ws), renames_of(ordered(ws, oo))))),
{
    let s = ordered(ws, oo);
    let rn = renames_of(s);
    let occ = names_set(ws);
    lemma_renames_distinct(s);
    lemma_tmp_not_in_use(ws, oo);
    lemma_new_not_tmp(s);
    lemma_new_in_use_is_old(ws, oo);
    lemma_plan_never_collides(occ, rn, collides(occ, rn));
}

} // verus!
