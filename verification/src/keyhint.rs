//! The keybinding viewer's logic: reading `bindsym` lines out of an i3
//! config, and the search filter over them.

use vstd::prelude::*;
use crate::i3tree::WsInfo;
use crate::text::{
    chars_of, string_of, trim, trim_chars, starts_with, starts_with_chars, strip_prefix, strip_prefix_chars,
    lines_of, lines_chars, find_from, find_chars, index_from, contains, contains_chars, lowercase,
    to_lowercase, lemma_find_from, lemma_index_from, occurs_at, is_ws, lead_ws, trail_ws, lemma_lead_ws,
    lemma_trail_ws,
};

verus! {

broadcast use vstd::seq::group_seq_axioms;

/// One keybinding: its keys (with `$mod` substituted) and its command.
pub struct Keybinding {
    pub keys: String,
    pub action: String,
}

/// `str::replace`: every non-overlapping occurrence of `from`, left to
/// right, replaced by `to`.
pub open spec fn replace_all(s: Seq<char>, from: Seq<char>, to: Seq<char>) -> Seq<char>
    decreases s.len(),
{
    if from.len() == 0 {
        s
    } else {
        match find_from(s, from, 0) {
            Some(i) => {
                proof { lemma_find_from(s, from, 0); }
                s.take(i) + to + replace_all(s.skip(i + from.len()), from, to)
            },
            None => s,
        }
    }
}

/// The value of the first `set $mod ` line, `Mod4` when there is none.
pub open spec fn mod_key_of(lines: Seq<Seq<char>>) -> Seq<char>
    decreases lines.len(),
{
    if lines.len() == 0 {
        "Mod4"@
    } else if starts_with(trim(lines[0]), "set $mod "@) {
        trim(lines[0]).skip("set $mod "@.len() as int)
    } else {
        mod_key_of(lines.drop_first())
    }
}

/// `splitn(2, ' ')`: the text before the first space and, if there is one,
/// the text after it.
pub open spec fn split_first_space(s: Seq<char>) -> (Seq<char>, Option<Seq<char>>) {
    match index_from(s, ' ', 0) {
        Some(i) => (s.take(i), Some(s.skip(i + 1))),
        None => (s, None),
    }
}

/// The keybinding of a config line, if it is a `bindsym` with a non-empty
/// command: `$mod` becomes the mod key and `Mod1` becomes `Alt`; the
/// command loses its `exec` prefixes and is trimmed.
pub open spec fn binding_of(line: Seq<char>, mod_key: Seq<char>) -> Option<(Seq<char>, Seq<char>)> {
    let t = trim(line);
    if !starts_with(t, "bindsym "@) {
        None
    } else {
        let parts = split_first_space(t.skip("bindsym "@.len() as int));
        match parts.1 {
            None => None,
            Some(a) => {
                let keys = replace_all(replace_all(parts.0, "$mod"@, mod_key), "Mod1"@, "Alt"@);
                let action = trim(replace_all(replace_all(a, "exec --no-startup-id "@, ""@), "exec "@, ""@));
                if action.len() == 0 { None } else { Some((keys, action)) }
            },
        }
    }
}

/// The keybindings of the lines, in order.
pub open spec fn bindings_of(lines: Seq<Seq<char>>, mod_key: Seq<char>) -> Seq<(Seq<char>, Seq<char>)>
    decreases lines.len(),
{
    if lines.len() == 0 {
        Seq::empty()
    } else {
        let r = bindings_of(lines.drop_last(), mod_key);
        match binding_of(lines.last(), mod_key) {
            Some(b) => r.push(b),
            None => r,
        }
    }
}

/// The keybindings of an i3 config.
pub open spec fn config_bindings(content: Seq<char>) -> Seq<(Seq<char>, Seq<char>)> {
    bindings_of(lines_of(content), mod_key_of(lines_of(content)))
}

pub open spec fn bindings_view(v: Seq<Keybinding>) -> Seq<(Seq<char>, Seq<char>)> {
    v.map_values(|b: Keybinding| (b.keys@, b.action@))
}

/// `str::replace` on characters.
fn replace_chars(s: &Vec<char>, from: &Vec<char>, to: &Vec<char>) -> (r: Vec<char>)
    ensures
        r@ == replace_all(s@, from@, to@),
{
    if from.len() == 0 {
        return vstd::slice::slice_to_vec(s.as_slice());
    }
    let mut out: Vec<char> = Vec::new();
    let mut pos: usize = 0;
    proof { assert(s@.skip(0) =~= s@); }
    while pos <= s.len()
        invariant
            from@.len() > 0,
            pos <= s@.len(),
            replace_all(s@, from@, to@) == out@ + replace_all(s@.skip(pos as int), from@, to@),
        decreases s@.len() - pos,
    {
        let ghost rest = s@.skip(pos as int);
        match find_chars(s.as_slice(), from.as_slice(), pos) {
            Some(i) => {
                proof {
                    lemma_find_from(s@, from@, pos as int);
                    lemma_find_from(rest, from@, 0);
                    assert(find_from(rest, from@, 0) == Some(i - pos)) by {
                        lemma_find_shift(s@, from@, pos as int);
                    }
                }
                let ghost before = out@;
                let mut k = pos;
                while k < i
                    invariant
                        pos <= k <= i <= s@.len(),
                        out@ == before + s@.subrange(pos as int, k as int),
                    decreases i - k,
                {
                    out.push(s[k]);
                    k += 1;
                    proof { assert(out@ =~= before + s@.subrange(pos as int, k as int)); }
                }
                let ghost mid = out@;
                let mut m: usize = 0;
                while m < to.len()
                    invariant
                        m <= to@.len(),
                        out@ == mid + to@.take(m as int),
                    decreases to@.len() - m,
                {
                    out.push(to[m]);
                    m += 1;
                    proof { assert(out@ =~= mid + to@.take(m as int)); }
                }
                proof {
                    assert(to@.take(m as int) =~= to@);
                    assert(rest.take(i - pos) =~= s@.subrange(pos as int, i as int));
                    assert(rest.skip(i - pos + from@.len()) =~= s@.skip(i + from@.len()));
                }
                pos = i + from.len();
            },
            None => {
                proof {
                    assert(find_from(rest, from@, 0) is None) by {
                        lemma_find_shift(s@, from@, pos as int);
                    }
                }
                let ghost before = out@;
                let mut k = pos;
                while k < s.len()
                    invariant
                        pos <= k <= s@.len(),
                        out@ == before + s@.subrange(pos as int, k as int),
                    decreases s@.len() - k,
                {
                    out.push(s[k]);
                    k += 1;
                    proof { assert(out@ =~= before + s@.subrange(pos as int, k as int)); }
                }
                proof { assert(s@.subrange(pos as int, k as int) =~= rest); }
                return out;
            },
        }
    }
    out
}

/// Searching the rest of a sequence from 0 is searching the sequence from
/// where the rest starts.
proof fn lemma_find_shift(s: Seq<char>, p: Seq<char>, pos: int)
    requires
        0 <= pos <= s.len(),
    ensures
        find_from(s.skip(pos), p, 0) == (match find_from(s, p, pos) {
            Some(i) => Some(i - pos),
            None => None,
        }),
{
    let r = s.skip(pos);
    lemma_find_from(s, p, pos);
    lemma_find_from(r, p, 0);
    assert forall|j: int| 0 <= j implies #[trigger] crate::text::occurs_at(r, p, j) == crate::text::occurs_at(s, p, j + pos) by {
        if j + p.len() <= r.len() {
            assert(r.subrange(j, j + p.len()) =~= s.subrange(j + pos, j + pos + p.len()));
        }
    }
    match find_from(s, p, pos) {
        Some(i) => {
            assert(crate::text::occurs_at(r, p, i - pos));
            match find_from(r, p, 0) {
                Some(k) => {
                    assert(crate::text::occurs_at(s, p, k + pos));
                    if k < i - pos {
                        assert(!crate::text::occurs_at(s, p, k + pos));
                    }
                    if k > i - pos {
                        assert(!crate::text::occurs_at(r, p, i - pos));
                    }
                },
                None => {},
            }
        },
        None => {
            match find_from(r, p, 0) {
                Some(k) => {
                    assert(crate::text::occurs_at(s, p, k + pos));
                },
                None => {},
            }
        },
    }
}

fn lit(s: &str) -> (r: Vec<char>)
    ensures
        r@ == s@,
{
    chars_of(s)
}

/// The mod key of the config lines.
fn mod_key_exec(lines: &Vec<Vec<char>>) -> (r: Vec<char>)
    ensures
        r@ == mod_key_of(lines@.map_values(|l: Vec<char>| l@)),
{
    let ghost lv = lines@.map_values(|l: Vec<char>| l@);
    let prefix = lit("set $mod ");
    let mut i: usize = 0;
    proof { assert(lv.skip(0) =~= lv); }
    while i < lines.len()
        invariant
            i <= lines@.len(),
            lv == lines@.map_values(|l: Vec<char>| l@),
            prefix@ == "set $mod "@,
            mod_key_of(lv) == mod_key_of(lv.skip(i as int)),
        decreases lines@.len() - i,
    {
        proof {
            assert(lv.skip(i as int)[0] == lines@[i as int]@);
            assert(lv.skip(i as int).drop_first() =~= lv.skip(i + 1));
        }
        let t = trim_chars(lines[i].as_slice());
        if let Some(v) = strip_prefix_chars(t.as_slice(), prefix.as_slice()) {
            return v;
        }
        i += 1;
    }
    proof { assert(lv.skip(i as int) =~= Seq::<Seq<char>>::empty()); }
    lit("Mod4")
}

/// The keybinding of one line.
fn binding_exec(line: &Vec<char>, mod_key: &Vec<char>) -> (r: Option<(Vec<char>, Vec<char>)>)
    ensures
        (match r {
            Some(b) => binding_of(line@, mod_key@) == Some((b.0@, b.1@)),
            None => binding_of(line@, mod_key@) is None,
        }),
{
    let t = trim_chars(line.as_slice());
    let rest = match strip_prefix_chars(t.as_slice(), lit("bindsym ").as_slice()) {
        Some(r) => r,
        None => return None,
    };
    let ghost parts = split_first_space(rest@);
    let mut i: usize = 0;
    while i < rest.len() && rest[i] != ' '
        invariant
            i <= rest@.len(),
            forall|j: int| 0 <= j < i ==> rest@[j] != ' ',
        decreases rest@.len() - i,
    {
        i += 1;
    }
    proof {
        lemma_index_from(rest@, ' ', 0);
        if i < rest@.len() {
            assert(index_from(rest@, ' ', 0) == Some(i as int));
        } else {
            assert(index_from(rest@, ' ', 0) is None);
        }
    }
    if i >= rest.len() {
        return None;
    }
    let k = vstd::slice::slice_to_vec(vstd::slice::slice_subrange(rest.as_slice(), 0, i));
    let a = vstd::slice::slice_to_vec(vstd::slice::slice_subrange(rest.as_slice(), i + 1, rest.len()));
    proof {
        assert(k@ =~= rest@.take(i as int));
        assert(a@ =~= rest@.skip(i + 1));
    }
    let k1 = replace_chars(&k, &lit("$mod"), mod_key);
    let keys = replace_chars(&k1, &lit("Mod1"), &lit("Alt"));
    let a1 = replace_chars(&a, &lit("exec --no-startup-id "), &lit(""));
    let a2 = replace_chars(&a1, &lit("exec "), &lit(""));
    let action = trim_chars(a2.as_slice());
    if action.len() == 0 {
        return None;
    }
    Some((keys, action))
}

/// The keybindings of an i3 config's text.
pub fn parse_keybindings(content: &str) -> (r: Vec<Keybinding>)
    ensures
        bindings_view(r@) == config_bindings(content@),
{
    let lines = lines_chars(chars_of(content).as_slice());
    let ghost lv = lines@.map_values(|l: Vec<char>| l@);
    proof { assert(lv == lines_of(content@)); }
    let mod_key = mod_key_exec(&lines);
    let mut out: Vec<Keybinding> = Vec::new();
    let mut i: usize = 0;
    while i < lines.len()
        invariant
            i <= lines@.len(),
            lv == lines@.map_values(|l: Vec<char>| l@),
            bindings_view(out@) == bindings_of(lv.take(i as int), mod_key@),
        decreases lines@.len() - i,
    {
        proof {
            assert(lv.take(i + 1).drop_last() =~= lv.take(i as int));
            assert(lv.take(i + 1).last() == lines@[i as int]@);
        }
        if let Some(b) = binding_exec(&lines[i], &mod_key) {
            let ghost before = bindings_view(out@);
            out.push(Keybinding { keys: string_of(b.0.as_slice()), action: string_of(b.1.as_slice()) });
            proof { assert(bindings_view(out@) =~= before.push((b.0@, b.1@))); }
        }
        i += 1;
    }
    proof { assert(lv.take(i as int) =~= lv); }
    out
}

/// Whether a keybinding shows for a search query: an empty query shows
/// everything, otherwise the lowercase query must occur in the lowercase
/// keys or command.
pub open spec fn shown(keys: Seq<char>, action: Seq<char>, query: Seq<char>) -> bool {
    query.len() == 0 || contains(lowercase(keys), lowercase(query)) || contains(lowercase(action), lowercase(query))
}

/// Whether the binding matches the search query.
pub fn binding_matches(binding: &Keybinding, query: &str) -> (r: bool)
    ensures
        r == shown(binding.keys@, binding.action@, query@),
{
    if chars_of(query).len() == 0 {
        return true;
    }
    let q = chars_of(to_lowercase(query).as_str());
    let k = chars_of(to_lowercase(binding.keys.as_str()).as_str());
    if contains_chars(k.as_slice(), q.as_slice()) {
        return true;
    }
    let a = chars_of(to_lowercase(binding.action.as_str()).as_str());
    contains_chars(a.as_slice(), q.as_slice())
}

/// The output of the first focused workspace (if that record names one).
pub open spec fn focused_output_of(ws: Seq<WsInfo>) -> Option<Seq<char>>
    decreases ws.len(),
{
    if ws.len() == 0 {
        None
    } else if ws[0].focused == Some(true) {
        match ws[0].output {
            Some(o) => Some(o@),
            None => None,
        }
    } else {
        focused_output_of(ws.drop_first())
    }
}

/// The output holding the focused workspace.
pub fn get_focused_output(workspaces: &[WsInfo]) -> (r: Option<String>)
    ensures
        (match r {
            Some(o) => focused_output_of(workspaces@) == Some(o@),
            None => focused_output_of(workspaces@) is None,
        }),
{
    let mut i: usize = 0;
    proof { assert(workspaces@.skip(0) =~= workspaces@); }
    while i < workspaces.len()
        invariant
            i <= workspaces@.len(),
            focused_output_of(workspaces@) == focused_output_of(workspaces@.skip(i as int)),
        decreases workspaces@.len() - i,
    {
        proof {
            assert(workspaces@.skip(i as int)[0] == workspaces@[i as int]);
            assert(workspaces@.skip(i as int).drop_first() =~= workspaces@.skip(i + 1));
        }
        if workspaces[i].focused == Some(true) {
            return match &workspaces[i].output {
                Some(o) => Some(o.clone()),
                None => None,
            };
        }
        i += 1;
    }
    proof { assert(workspaces@.skip(i as int) =~= Seq::<WsInfo>::empty()); }
    None
}

/// Replacing every `Mod1` by `Alt` leaves no `Mod1` anywhere.
pub proof fn lemma_no_mod1_left(s: Seq<char>)
    ensures
        forall|j: int| !#[trigger] occurs_at(replace_all(s, "Mod1"@, "Alt"@), "Mod1"@, j),
    decreases s.len(),
{
    reveal_strlit("Mod1");
    reveal_strlit("Alt");
    let m = "Mod1"@;
    let a = "Alt"@;
    assert(m.len() == 4);
    lemma_find_from(s, m, 0);
    match find_from(s, m, 0) {
        None => {
            assert(replace_all(s, m, a) == s);
        },
        Some(i) => {
            let rest = s.skip(i + 4);
            lemma_no_mod1_left(rest);
            let r = replace_all(rest, m, a);
            let out = s.take(i) + a + r;
            assert(replace_all(s, m, a) == out);
            assert forall|j: int| !#[trigger] occurs_at(out, m, j) by {
                if occurs_at(out, m, j) {
                    let w = out.subrange(j, j + 4);
                    assert(w == m);
                    if j + 4 <= i {
                        assert(s.subrange(j, j + 4) =~= w);
                        assert(occurs_at(s, m, j));
                    } else if j < i {
                        assert(out[i] == 'A');
                        assert(w[i - j] == out[i]);
                    } else if j < i + 3 {
                        assert(out[j] == a[j - i]);
                        assert(w[0] == out[j]);
                    } else {
                        assert(r.subrange(j - i - 3, j - i + 1) =~= w);
                        assert(occurs_at(r, m, j - i - 3));
                    }
                }
            }
        },
    }
}

/// The keys of a parsed binding never show `Mod1`: every `Mod1`, whether
/// written out or standing behind `$mod`, is shown as `Alt`.
pub proof fn lemma_binding_shows_alt(line: Seq<char>, mod_key: Seq<char>)
    ensures
        binding_of(line, mod_key) matches Some(b) ==> forall|j: int| !#[trigger] occurs_at(b.0, "Mod1"@, j),
{
    let t = trim(line);
    if starts_with(t, "bindsym "@) {
        let parts = split_first_space(t.skip("bindsym "@.len() as int));
        lemma_no_mod1_left(replace_all(parts.0, "$mod"@, mod_key));
    }
}

/// No key combination of a parsed config shows `Mod1`.
pub proof fn lemma_bindings_show_alt(lines: Seq<Seq<char>>, mod_key: Seq<char>)
    ensures
        forall|k: int, j: int| 0 <= k < bindings_of(lines, mod_key).len() ==>
            !#[trigger] occurs_at(bindings_of(lines, mod_key)[k].0, "Mod1"@, j),
    decreases lines.len(),
{
    if lines.len() > 0 {
        let t = lines.drop_last();
        lemma_bindings_show_alt(t, mod_key);
        lemma_binding_shows_alt(lines.last(), mod_key);
        let r = bindings_of(t, mod_key);
        assert forall|k: int, j: int| 0 <= k < bindings_of(lines, mod_key).len() implies
            !#[trigger] occurs_at(bindings_of(lines, mod_key)[k].0, "Mod1"@, j) by {
            if k < r.len() {
                assert(bindings_of(lines, mod_key)[k] == r[k]);
            }
        }
    }
}

/// What `parse_keybindings` gives for a config never shows `Mod1` in keys.
pub proof fn lemma_config_keys_show_alt(content: Seq<char>)
    ensures
        forall|k: int, j: int| 0 <= k < config_bindings(content).len() ==>
            !#[trigger] occurs_at(config_bindings(content)[k].0, "Mod1"@, j),
{
    lemma_bindings_show_alt(lines_of(content), mod_key_of(lines_of(content)));
}

/// Every `$` in `s` begins a `$mod`.
pub open spec fn dollars_are_mod(s: Seq<char>) -> bool {
    forall|i: int| 0 <= i < s.len() && #[trigger] s[i] == '$' ==> occurs_at(s, "$mod"@, i)
}

/// `s` has no `$`.
pub open spec fn no_dollar(s: Seq<char>) -> bool {
    forall|i: int| 0 <= i < s.len() ==> #[trigger] s[i] != '$'
}

/// A window of `s` that cuts no `$mod` in two keeps every `$` at a `$mod`.
proof fn lemma_dollar_window(s: Seq<char>, a: int, b: int)
    requires
        dollars_are_mod(s),
        0 <= a <= b <= s.len(),
        forall|i: int| a <= i < b && #[trigger] s[i] == '$' ==> i + 4 <= b,
    ensures
        dollars_are_mod(s.subrange(a, b)),
{
    reveal_strlit("$mod");
    let w = s.subrange(a, b);
    assert forall|i: int| 0 <= i < w.len() && #[trigger] w[i] == '$' implies occurs_at(w, "$mod"@, i) by {
        assert(s[a + i] == '$');
        assert(occurs_at(s, "$mod"@, a + i));
        assert(w.subrange(i, i + 4) =~= s.subrange(a + i, a + i + 4));
    }
}

/// A `$mod` never reaches into whitespace or a space.
proof fn lemma_mod_chars(s: Seq<char>, i: int, p: int)
    requires
        occurs_at(s, "$mod"@, i),
        i < p < i + 4,
    ensures
        !is_ws(s[p]),
        s[p] != ' ',
{
    reveal_strlit("$mod");
    assert(s[p] == s.subrange(i, i + 4)[p - i]);
}

/// Trimming keeps every `$` at a `$mod`.
proof fn lemma_dollar_trim(s: Seq<char>)
    requires
        dollars_are_mod(s),
    ensures
        dollars_are_mod(trim(s)),
{
    reveal_strlit("$mod");
    lemma_lead_ws(s);
    let t = s.subrange(lead_ws(s) as int, s.len() as int);
    assert forall|i: int| lead_ws(s) <= i < s.len() && #[trigger] s[i] == '$' implies i + 4 <= s.len() by {
        assert(occurs_at(s, "$mod"@, i));
    }
    lemma_dollar_window(s, lead_ws(s) as int, s.len() as int);
    lemma_trail_ws(t);
    let e = t.len() - trail_ws(t);
    assert forall|i: int| 0 <= i < e && #[trigger] t[i] == '$' implies i + 4 <= e by {
        assert(occurs_at(t, "$mod"@, i));
        if i + 4 > e {
            lemma_mod_chars(t, i, e);
            assert(is_ws(t[e]));
        }
    }
    lemma_dollar_window(t, 0, e);
}

/// Replacing each `$mod` by a mod key without `$` leaves no `$`, when every
/// `$` begins a `$mod`.
proof fn lemma_mod_replaced(s: Seq<char>, mk: Seq<char>)
    requires
        dollars_are_mod(s),
        no_dollar(mk),
    ensures
        no_dollar(replace_all(s, "$mod"@, mk)),
    decreases s.len(),
{
    reveal_strlit("$mod");
    let m = "$mod"@;
    lemma_find_from(s, m, 0);
    match find_from(s, m, 0) {
        None => {
            assert forall|i: int| 0 <= i < s.len() implies #[trigger] s[i] != '$' by {
                if s[i] == '$' {
                    assert(occurs_at(s, m, i));
                }
            }
        },
        Some(i) => {
            let rest = s.skip(i + 4);
            assert forall|k: int| 0 <= k < rest.len() && #[trigger] rest[k] == '$' implies occurs_at(rest, m, k) by {
                assert(s[i + 4 + k] == '$');
                assert(occurs_at(s, m, i + 4 + k));
                assert(rest.subrange(k, k + 4) =~= s.subrange(i + 4 + k, i + 8 + k));
            }
            lemma_mod_replaced(rest, mk);
            let r = replace_all(rest, m, mk);
            let out = s.take(i) + mk + r;
            assert(replace_all(s, m, mk) == out);
            assert forall|k: int| 0 <= k < out.len() implies #[trigger] out[k] != '$' by {
                if k < i {
                    if s[k] == '$' {
                        assert(occurs_at(s, m, k));
                    }
                    assert(out[k] == s[k]);
                } else if k < i + mk.len() {
                    assert(out[k] == mk[k - i]);
                } else {
                    assert(out[k] == r[k - i - mk.len()]);
                }
            }
        },
    }
}

/// Replacing `Mod1` by `Alt` brings in no `$`.
proof fn lemma_alt_no_dollar(s: Seq<char>)
    requires
        no_dollar(s),
    ensures
        no_dollar(replace_all(s, "Mod1"@, "Alt"@)),
    decreases s.len(),
{
    reveal_strlit("Mod1");
    reveal_strlit("Alt");
    let m = "Mod1"@;
    let a = "Alt"@;
    lemma_find_from(s, m, 0);
    if let Some(i) = find_from(s, m, 0) {
        let rest = s.skip(i + 4);
        assert forall|k: int| 0 <= k < rest.len() implies #[trigger] rest[k] != '$' by {
            assert(rest[k] == s[i + 4 + k]);
        }
        lemma_alt_no_dollar(rest);
        let r = replace_all(rest, m, a);
        let out = s.take(i) + a + r;
        assert(replace_all(s, m, a) == out);
        assert forall|k: int| 0 <= k < out.len() implies #[trigger] out[k] != '$' by {
            if k < i {
                assert(out[k] == s[k]);
            } else if k < i + 3 {
                assert(out[k] == a[k - i]);
            } else {
                assert(out[k] == r[k - i - 3]);
            }
        }
    }
}

/// With a mod key of its own (no `$` in it), a binding's keys never show
/// `$mod`: every `$mod` of the line is replaced by the mod key.
pub proof fn lemma_binding_mod_replaced(line: Seq<char>, mod_key: Seq<char>)
    requires
        dollars_are_mod(line),
        no_dollar(mod_key),
    ensures
        binding_of(line, mod_key) matches Some(b) ==> no_dollar(b.0)
            && forall|j: int| !#[trigger] occurs_at(b.0, "$mod"@, j),
{
    reveal_strlit("$mod");
    reveal_strlit("bindsym ");
    let t = trim(line);
    lemma_dollar_trim(line);
    if starts_with(t, "bindsym "@) {
        let n = "bindsym "@.len() as int;
        assert forall|i: int| n <= i < t.len() && #[trigger] t[i] == '$' implies i + 4 <= t.len() by {
            assert(occurs_at(t, "$mod"@, i));
        }
        lemma_dollar_window(t, n, t.len() as int);
        assert(t.skip(n) =~= t.subrange(n, t.len() as int));
        let rest = t.skip(n);
        let parts = split_first_space(rest);
        lemma_index_from(rest, ' ', 0);
        if let Some(x) = index_from(rest, ' ', 0) {
            assert(rest[x] == ' ');
            assert forall|i: int| 0 <= i < x && #[trigger] rest[i] == '$' implies i + 4 <= x by {
                assert(occurs_at(rest, "$mod"@, i));
                if i + 4 > x {
                    lemma_mod_chars(rest, i, x);
                }
            }
            lemma_dollar_window(rest, 0, x);
            assert(rest.take(x) =~= rest.subrange(0, x));
            lemma_mod_replaced(parts.0, mod_key);
            lemma_alt_no_dollar(replace_all(parts.0, "$mod"@, mod_key));
            if let Some(b) = binding_of(line, mod_key) {
                assert forall|j: int| !#[trigger] occurs_at(b.0, "$mod"@, j) by {
                    if occurs_at(b.0, "$mod"@, j) {
                        assert(b.0[j] == b.0.subrange(j, j + 4)[0]);
                    }
                }
            }
        }
    }
}

} // verus!
