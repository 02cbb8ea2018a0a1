//! App launcher: .desktop file parsing, search ranking and launch commands.

use vstd::prelude::*;
use crate::icon::{IconResult, IconModel};
use crate::text::{
    chars_of, string_of, trim, trim_chars, lines_of, lines_chars, starts_with, strip_prefix,
    strip_prefix_chars, starts_with_chars, contains, contains_chars, chars_eq, eq_ignore_ascii_case,
    eq_ignore_ascii_case_chars, lowercase, to_lowercase, push_chars, push_str_chars, lex_le, lex_le_chars,
    lemma_lex_total, lemma_lex_trans, lemma_lex_refl, find_chars,
};

verus! {

broadcast use vstd::seq::group_seq_axioms;

/// Raw fields extracted from a .desktop file before icon resolution.
pub struct RawEntry {
    pub name: String,
    pub generic_name: String,
    pub exec_cmd: String,
    pub icon_name: String,
    pub keywords: String,
    pub categories: String,
    pub terminal: bool,
}

/// Model of the fields read from a `.desktop` file.
pub struct RawModel {
    pub name: Seq<char>,
    pub generic_name: Seq<char>,
    pub exec_cmd: Seq<char>,
    pub icon_name: Seq<char>,
    pub keywords: Seq<char>,
    pub categories: Seq<char>,
    pub terminal: bool,
    pub no_display: bool,
    pub entry_type: Seq<char>,
}

impl View for RawEntry {
    type V = RawModel;

    open spec fn view(&self) -> RawModel {
        RawModel {
            name: self.name@,
            generic_name: self.generic_name@,
            exec_cmd: self.exec_cmd@,
            icon_name: self.icon_name@,
            keywords: self.keywords@,
            categories: self.categories@,
            terminal: self.terminal,
            no_display: false,
            entry_type: Seq::empty(),
        }
    }
}

pub open spec fn empty_raw() -> RawModel {
    RawModel {
        name: Seq::empty(),
        generic_name: Seq::empty(),
        exec_cmd: Seq::empty(),
        icon_name: Seq::empty(),
        keywords: Seq::empty(),
        categories: Seq::empty(),
        terminal: false,
        no_display: false,
        entry_type: Seq::empty(),
    }
}

/// What one (trimmed) line of the `[Desktop Entry]` section sets.
pub open spec fn apply_line(t: Seq<char>, m: RawModel) -> RawModel {
    if let Some(v) = strip_prefix(t, "Name="@) {
        if m.name.len() == 0 { RawModel { name: trim(v), ..m } } else { m }
    } else if let Some(v) = strip_prefix(t, "GenericName="@) {
        RawModel { generic_name: trim(v), ..m }
    } else if let Some(v) = strip_prefix(t, "Exec="@) {
        RawModel { exec_cmd: trim(v), ..m }
    } else if let Some(v) = strip_prefix(t, "Icon="@) {
        RawModel { icon_name: trim(v), ..m }
    } else if let Some(v) = strip_prefix(t, "Keywords="@) {
        RawModel { keywords: trim(v), ..m }
    } else if let Some(v) = strip_prefix(t, "Categories="@) {
        RawModel { categories: trim(v), ..m }
    } else if let Some(v) = strip_prefix(t, "Terminal="@) {
        RawModel { terminal: eq_ignore_ascii_case(trim(v), "true"@), ..m }
    } else if let Some(v) = strip_prefix(t, "NoDisplay="@) {
        RawModel { no_display: eq_ignore_ascii_case(trim(v), "true"@), ..m }
    } else if let Some(v) = strip_prefix(t, "Type="@) {
        RawModel { entry_type: trim(v), ..m }
    } else {
        m
    }
}

/// Reads the `[Desktop Entry]` section, up to the next section header.
pub open spec fn launcher_scan(lines: Seq<Seq<char>>, in_entry: bool, m: RawModel) -> RawModel
    decreases lines.len(),
{
    if lines.len() == 0 {
        m
    } else {
        let t = trim(lines[0]);
        let rest = lines.drop_first();
        if t == "[Desktop Entry]"@ {
            launcher_scan(rest, true, m)
        } else if starts_with(t, "["@) {
            if in_entry { m } else { launcher_scan(rest, false, m) }
        } else if in_entry {
            launcher_scan(rest, true, apply_line(t, m))
        } else {
            launcher_scan(rest, false, m)
        }
    }
}

/// The launchable entry a `.desktop` file describes: shown, of type
/// `Application` (or untyped), with a name and a command.
pub open spec fn launcher_entry_of(content: Seq<char>) -> Option<RawModel> {
    let m = launcher_scan(lines_of(content), false, empty_raw());
    if m.no_display || (m.entry_type.len() > 0 && m.entry_type != "Application"@) {
        None
    } else if m.name.len() == 0 || m.exec_cmd.len() == 0 {
        None
    } else {
        Some(RawModel { no_display: false, entry_type: Seq::empty(), ..m })
    }
}

/// The fields being collected while a `.desktop` file is read.
struct ScanAcc {
    name: Vec<char>,
    generic_name: Vec<char>,
    exec_cmd: Vec<char>,
    icon_name: Vec<char>,
    keywords: Vec<char>,
    categories: Vec<char>,
    terminal: bool,
    no_display: bool,
    entry_type: Vec<char>,
}

spec fn acc_model(a: ScanAcc) -> RawModel {
    RawModel {
        name: a.name@,
        generic_name: a.generic_name@,
        exec_cmd: a.exec_cmd@,
        icon_name: a.icon_name@,
        keywords: a.keywords@,
        categories: a.categories@,
        terminal: a.terminal,
        no_display: a.no_display,
        entry_type: a.entry_type@,
    }
}

fn is_true(v: &Vec<char>) -> (r: bool)
    ensures
        r == eq_ignore_ascii_case(trim(v@), "true"@),
{
    let t = trim_chars(v.as_slice());
    let word = chars_of("true");
    eq_ignore_ascii_case_chars(t.as_slice(), word.as_slice())
}

fn apply_key_line(acc: &mut ScanAcc, t: &Vec<char>)
    ensures
        acc_model(*final(acc)) == apply_line(t@, acc_model(*old(acc))),
{
    if let Some(v) = strip_prefix_chars(t.as_slice(), chars_of("Name=").as_slice()) {
        if acc.name.len() == 0 {
            acc.name = trim_chars(v.as_slice());
        }
    } else if let Some(v) = strip_prefix_chars(t.as_slice(), chars_of("GenericName=").as_slice()) {
        acc.generic_name = trim_chars(v.as_slice());
    } else if let Some(v) = strip_prefix_chars(t.as_slice(), chars_of("Exec=").as_slice()) {
        acc.exec_cmd = trim_chars(v.as_slice());
    } else if let Some(v) = strip_prefix_chars(t.as_slice(), chars_of("Icon=").as_slice()) {
        acc.icon_name = trim_chars(v.as_slice());
    } else if let Some(v) = strip_prefix_chars(t.as_slice(), chars_of("Keywords=").as_slice()) {
        acc.keywords = trim_chars(v.as_slice());
    } else if let Some(v) = strip_prefix_chars(t.as_slice(), chars_of("Categories=").as_slice()) {
        acc.categories = trim_chars(v.as_slice());
    } else if let Some(v) = strip_prefix_chars(t.as_slice(), chars_of("Terminal=").as_slice()) {
        acc.terminal = is_true(&v);
    } else if let Some(v) = strip_prefix_chars(t.as_slice(), chars_of("NoDisplay=").as_slice()) {
        acc.no_display = is_true(&v);
    } else if let Some(v) = strip_prefix_chars(t.as_slice(), chars_of("Type=").as_slice()) {
        acc.entry_type = trim_chars(v.as_slice());
    }
}

/// Parse a .desktop file, returning None for non-launchable entries.
pub fn parse_launcher_entry(content: &str) -> (r: Option<RawEntry>)
    ensures
        (match r {
            Some(e) => launcher_entry_of(content@) == Some(e@),
            None => launcher_entry_of(content@) is None,
        }),
{
    let cs = chars_of(content);
    let lines = lines_chars(cs.as_slice());
    let ghost ls = lines@.map_values(|v: Vec<char>| v@);
    let header = chars_of("[Desktop Entry]");
    let bracket = chars_of("[");
    let mut acc = ScanAcc {
        name: Vec::new(),
        generic_name: Vec::new(),
        exec_cmd: Vec::new(),
        icon_name: Vec::new(),
        keywords: Vec::new(),
        categories: Vec::new(),
        terminal: false,
        no_display: false,
        entry_type: Vec::new(),
    };
    let mut in_desktop_entry = false;
    let mut i: usize = 0;
    let mut done = false;
    proof {
        assert(ls.skip(0) =~= ls);
        assert(acc_model(acc) == empty_raw());
    }
    while i < lines.len() && !done
        invariant
            i <= lines@.len(),
            ls == lines@.map_values(|v: Vec<char>| v@),
            ls == lines_of(content@),
            header@ == "[Desktop Entry]"@,
            bracket@ == "["@,
            done ==> launcher_scan(ls, false, empty_raw()) == acc_model(acc),
            !done ==> launcher_scan(ls, false, empty_raw())
                == launcher_scan(ls.skip(i as int), in_desktop_entry, acc_model(acc)),
        decreases lines@.len() - i, if done { 0int } else { 1int },
    {
        proof {
            assert(ls.skip(i as int)[0] == lines@[i as int]@);
            assert(ls.skip(i as int).drop_first() =~= ls.skip(i + 1));
        }
        let trimmed = trim_chars(lines[i].as_slice());
        if chars_eq(trimmed.as_slice(), header.as_slice()) {
            in_desktop_entry = true;
        } else if starts_with_chars(trimmed.as_slice(), bracket.as_slice()) {
            if in_desktop_entry {
                done = true;
            }
        } else if in_desktop_entry {
            apply_key_line(&mut acc, &trimmed);
        }
        if !done {
            i += 1;
        }
    }
    proof {
        if !done {
            assert(ls.skip(i as int) =~= Seq::<Seq<char>>::empty());
        }
    }
    let app = chars_of("Application");
    if acc.no_display || (acc.entry_type.len() > 0 && !chars_eq(acc.entry_type.as_slice(), app.as_slice())) {
        return None;
    }
    if acc.name.len() == 0 || acc.exec_cmd.len() == 0 {
        return None;
    }
    Some(RawEntry {
        name: string_of(acc.name.as_slice()),
        generic_name: string_of(acc.generic_name.as_slice()),
        exec_cmd: string_of(acc.exec_cmd.as_slice()),
        icon_name: string_of(acc.icon_name.as_slice()),
        keywords: string_of(acc.keywords.as_slice()),
        categories: string_of(acc.categories.as_slice()),
        terminal: acc.terminal,
    })
}

/// Freedesktop `Exec` field codes that are dropped.
pub open spec fn is_field_code(c: char) -> bool {
    c == 'U' || c == 'F' || c == 'u' || c == 'f' || c == 'i' || c == 'c' || c == 'k' || c == 'd' || c == 'D'
        || c == 'n' || c == 'N' || c == 'v' || c == 'm'
}

/// `exec` without field codes: `%X` for a field code is dropped, `%%` becomes `%`,
/// any other `%` stays.
pub open spec fn strip_codes(s: Seq<char>) -> Seq<char>
    decreases s.len(),
{
    if s.len() == 0 {
        Seq::empty()
    } else if s[0] == '%' && s.len() > 1 && is_field_code(s[1]) {
        strip_codes(s.subrange(2, s.len() as int))
    } else if s[0] == '%' && s.len() > 1 && s[1] == '%' {
        seq!['%'] + strip_codes(s.subrange(2, s.len() as int))
    } else {
        seq![s[0]] + strip_codes(s.drop_first())
    }
}

/// Strip freedesktop Exec field codes (%U, %F, %u, %f, %i, %c, %k, %%).
pub fn strip_field_codes(exec: &str) -> (r: String)
    ensures
        r@ == strip_codes(exec@),
{
    let cs = chars_of(exec);
    let mut out: Vec<char> = Vec::new();
    let mut i: usize = 0;
    proof { assert(cs@.skip(0) =~= cs@); }
    while i < cs.len()
        invariant
            i <= cs@.len(),
            cs@ == exec@,
            strip_codes(exec@) == out@ + strip_codes(cs@.skip(i as int)),
        decreases cs@.len() - i,
    {
        let ghost t = cs@.skip(i as int);
        let ch = cs[i];
        proof { assert(t[0] == ch); }
        if ch == '%' && i + 1 < cs.len() {
            let nx = cs[i + 1];
            proof { assert(t[1] == nx); }
            if nx == 'U' || nx == 'F' || nx == 'u' || nx == 'f' || nx == 'i' || nx == 'c' || nx == 'k' || nx == 'd'
                || nx == 'D' || nx == 'n' || nx == 'N' || nx == 'v' || nx == 'm' {
                proof { assert(t.subrange(2, t.len() as int) =~= cs@.skip(i + 2)); }
                i += 2;
                continue;
            } else if nx == '%' {
                let ghost o = out@;
                out.push('%');
                proof {
                    assert(t.subrange(2, t.len() as int) =~= cs@.skip(i + 2));
                    assert(out@ + strip_codes(cs@.skip(i + 2)) =~= o + (seq!['%'] + strip_codes(cs@.skip(i + 2))));
                }
                i += 2;
                continue;
            }
        }
        let ghost o = out@;
        out.push(ch);
        proof {
            assert(t.drop_first() =~= cs@.skip(i + 1));
            assert(out@ + strip_codes(cs@.skip(i + 1)) =~= o + (seq![ch] + strip_codes(cs@.skip(i + 1))));
        }
        i += 1;
    }
    proof { assert(out@ + strip_codes(cs@.skip(i as int)) =~= out@); }
    string_of(out.as_slice())
}

/// A launchable application entry parsed from a .desktop file.
pub struct LauncherEntry {
    pub name: String,
    pub generic_name: String,
    pub exec_cmd: String,
    pub icon: IconResult,
    pub terminal: bool,
    /// Lowercased concatenation of name + generic_name + keywords + categories for search.
    pub search_haystack: String,
}

/// The search text of an entry: its fields joined by spaces, lowercased.
pub open spec fn haystack_of(r: RawModel) -> Seq<char> {
    lowercase(r.name + " "@ + r.generic_name + " "@ + r.keywords + " "@ + r.categories)
}

impl LauncherEntry {
    /// An entry from the parsed fields and the resolved icon.
    pub fn from_raw(raw: RawEntry, icon: IconResult) -> (r: Self)
        ensures
            r.name@ == raw.name@,
            r.generic_name@ == raw.generic_name@,
            r.exec_cmd@ == raw.exec_cmd@,
            r.icon@ == icon@,
            r.terminal == raw.terminal,
            r.search_haystack@ == haystack_of(raw@),
    {
        let mut all = String::new();
        push_str_chars(&mut all, raw.name.as_str());
        push_str_chars(&mut all, " ");
        push_str_chars(&mut all, raw.generic_name.as_str());
        push_str_chars(&mut all, " ");
        push_str_chars(&mut all, raw.keywords.as_str());
        push_str_chars(&mut all, " ");
        push_str_chars(&mut all, raw.categories.as_str());
        proof {
            assert(all@ =~= raw.name@ + " "@ + raw.generic_name@ + " "@ + raw.keywords@ + " "@ + raw.categories@);
        }
        let haystack = to_lowercase(all.as_str());
        LauncherEntry {
            name: raw.name,
            generic_name: raw.generic_name,
            exec_cmd: raw.exec_cmd,
            icon,
            terminal: raw.terminal,
            search_haystack: haystack,
        }
    }
}

/// How well an entry's lowercased name matches the lowercased query:
/// 0 when it starts with it, 1 when it contains it, 2 otherwise.
pub open spec fn rank_key(e: LauncherEntry, q: Seq<char>) -> (nat, Seq<char>) {
    let nl = lowercase(e.name@);
    (if starts_with(nl, q) { 0 } else if contains(nl, q) { 1 } else { 2 }, nl)
}

pub open spec fn key_le(a: (nat, Seq<char>), b: (nat, Seq<char>)) -> bool {
    a.0 < b.0 || (a.0 == b.0 && lex_le(a.1, b.1))
}

/// Entry `i` ranks before entry `j`: a better score, then the name, then the input order.
pub open spec fn ranks_before(es: Seq<LauncherEntry>, q: Seq<char>, i: int, j: int) -> bool {
    let ki = rank_key(es[i], q);
    let kj = rank_key(es[j], q);
    (key_le(ki, kj) && ki != kj) || (ki == kj && i < j)
}

/// Entry `i` matches the query.
pub open spec fn matches_query(es: Seq<LauncherEntry>, q: Seq<char>, i: int) -> bool {
    contains(es[i].search_haystack@, q)
}

/// `idx` lists every matching entry once, best ranked first.
pub open spec fn is_ranking(es: Seq<LauncherEntry>, q: Seq<char>, idx: Seq<int>) -> bool {
    &&& forall|k: int| 0 <= k < idx.len() ==> 0 <= #[trigger] idx[k] < es.len() && matches_query(es, q, idx[k])
    &&& forall|i: int| 0 <= i < es.len() && matches_query(es, q, i) ==> #[trigger] idx.contains(i)
    &&& forall|k1: int, k2: int| 0 <= k1 < k2 < idx.len() ==> ranks_before(es, q, #[trigger] idx[k1], #[trigger] idx[k2])
}

proof fn lemma_key_total(a: (nat, Seq<char>), b: (nat, Seq<char>))
    ensures
        key_le(a, b) || key_le(b, a),
        key_le(a, b) && key_le(b, a) ==> a == b,
{
    lemma_lex_total(a.1, b.1);
}

proof fn lemma_key_trans(a: (nat, Seq<char>), b: (nat, Seq<char>), c: (nat, Seq<char>))
    requires
        key_le(a, b),
        key_le(b, c),
    ensures
        key_le(a, c),
{
    if a.0 == b.0 && b.0 == c.0 {
        lemma_lex_trans(a.1, b.1, c.1);
    }
}

fn key_le_exec(a: &(u8, Vec<char>), b: &(u8, Vec<char>)) -> (r: bool)
    ensures
        r == key_le((a.0 as nat, a.1@), (b.0 as nat, b.1@)),
{
    a.0 < b.0 || (a.0 == b.0 && lex_le_chars(a.1.as_slice(), b.1.as_slice()))
}

fn rank_key_exec(e: &LauncherEntry, q: &Vec<char>) -> (r: (u8, Vec<char>))
    ensures
        (r.0 as nat, r.1@) == rank_key(*e, q@),
{
    let nl = chars_of(to_lowercase(e.name.as_str()).as_str());
    let score: u8 = if crate::text::starts_with_chars(nl.as_slice(), q.as_slice()) {
        0
    } else if contains_chars(nl.as_slice(), q.as_slice()) {
        1
    } else {
        2
    };
    (score, nl)
}

/// Index of the first key in `sorted` ranked after `k`.
fn insert_pos(sorted: &Vec<usize>, keys: &Vec<(u8, Vec<char>)>, k: &(u8, Vec<char>)) -> (p: usize)
    requires
        forall|j: int| 0 <= j < sorted@.len() ==> #[trigger] sorted@[j] < keys@.len(),
    ensures
        p <= sorted@.len(),
        forall|j: int| 0 <= j < p ==> key_le(
            (keys@[#[trigger] sorted@[j] as int].0 as nat, keys@[sorted@[j] as int].1@), (k.0 as nat, k.1@)),
        p < sorted@.len() ==> !key_le((keys@[sorted@[p as int] as int].0 as nat, keys@[sorted@[p as int] as int].1@),
            (k.0 as nat, k.1@)),
{
    let mut p: usize = 0;
    while p < sorted.len() && key_le_exec(&keys[sorted[p]], k)
        invariant
            p <= sorted@.len(),
            forall|j: int| 0 <= j < sorted@.len() ==> #[trigger] sorted@[j] < keys@.len(),
            forall|j: int| 0 <= j < p ==> key_le(
                (keys@[#[trigger] sorted@[j] as int].0 as nat, keys@[sorted@[j] as int].1@), (k.0 as nat, k.1@)),
        decreases sorted@.len() - p,
    {
        p += 1;
    }
    p
}

/// Filter entries by query, returning references ranked by relevance. Capped at 50.
pub fn filter_entries<'a>(entries: &'a [LauncherEntry], query: &str) -> (r: Vec<&'a LauncherEntry>)
    ensures
        query@.len() == 0 ==> r@.len() == (if entries@.len() < 50 { entries@.len() } else { 50 })
            && forall|k: int| 0 <= k < r@.len() ==> *#[trigger] r@[k] == entries@[k],
        query@.len() > 0 ==> exists|idx: Seq<int>| #[trigger] is_ranking(entries@, lowercase(query@), idx)
            && r@.len() == (if idx.len() < 50 { idx.len() } else { 50 })
            && forall|k: int| 0 <= k < r@.len() ==> *#[trigger] r@[k] == entries@[idx[k]],
{
    let mut out: Vec<&'a LauncherEntry> = Vec::new();
    if query.is_empty() {
        let mut i: usize = 0;
        while i < entries.len() && i < 50
            invariant
                i <= entries@.len(),
                i <= 50,
                out@.len() == i,
                forall|k: int| 0 <= k < i ==> *#[trigger] out@[k] == entries@[k],
            decreases entries@.len() - i,
        {
            out.push(&entries[i]);
            i += 1;
        }
        return out;
    }
    let ql = to_lowercase(query);
    let q = chars_of(ql.as_str());
    let ghost es = entries@;
    let ghost qv = q@;
    let mut keys: Vec<(u8, Vec<char>)> = Vec::new();
    let mut i: usize = 0;
    while i < entries.len()
        invariant
            i <= entries@.len(),
            keys@.len() == i,
            forall|j: int| 0 <= j < i ==> (#[trigger] keys@[j].0 as nat, keys@[j].1@) == rank_key(entries@[j], q@),
        decreases entries@.len() - i,
    {
        keys.push(rank_key_exec(&entries[i], &q));
        i += 1;
    }
    let mut sorted: Vec<usize> = Vec::new();
    let mut i: usize = 0;
    while i < entries.len()
        invariant
            i <= entries@.len(),
            es == entries@,
            qv == q@,
            keys@.len() == es.len(),
            forall|j: int| 0 <= j < es.len() ==> (#[trigger] keys@[j].0 as nat, keys@[j].1@) == rank_key(es[j], qv),
            forall|k: int| 0 <= k < sorted@.len() ==> #[trigger] sorted@[k] < i && matches_query(es, qv, sorted@[k] as int),
            forall|j: int| 0 <= j < i && matches_query(es, qv, j) ==> #[trigger] sorted@.contains(j as usize),
            forall|k1: int, k2: int| 0 <= k1 < k2 < sorted@.len()
                ==> ranks_before(es, qv, #[trigger] sorted@[k1] as int, #[trigger] sorted@[k2] as int),
        decreases entries@.len() - i,
    {
        let hay = chars_of(entries[i].search_haystack.as_str());
        if contains_chars(hay.as_slice(), q.as_slice()) {
            let p = insert_pos(&sorted, &keys, &keys[i]);
            let ghost old_s = sorted@;
            let ghost ki = rank_key(es[i as int], qv);
            sorted.insert(p, i);
            proof {
                assert(sorted@ == old_s.insert(p as int, i));
                assert forall|k1: int, k2: int| 0 <= k1 < k2 < sorted@.len()
                    implies ranks_before(es, qv, #[trigger] sorted@[k1] as int, #[trigger] sorted@[k2] as int) by {
                    let a = sorted@[k1] as int;
                    let b = sorted@[k2] as int;
                    if k2 < p {
                        assert(a == old_s[k1] && b == old_s[k2]);
                    } else if k2 == p {
                        assert(a == old_s[k1]);
                        assert(b == i);
                        lemma_key_total(rank_key(es[a], qv), ki);
                    } else if k1 < p {
                        assert(a == old_s[k1] && b == old_s[k2 - 1]);
                    } else if k1 == p {
                        assert(a == i && b == old_s[k2 - 1]);
                        let first = old_s[p as int] as int;
                        assert(!key_le(rank_key(es[first], qv), ki));
                        lemma_key_total(rank_key(es[first], qv), ki);
                        if k2 - 1 > p {
                            assert(ranks_before(es, qv, first, b));
                            lemma_lex_refl(rank_key(es[first], qv).1);
                            assert(key_le(rank_key(es[first], qv), rank_key(es[b], qv)));
                            lemma_key_trans(ki, rank_key(es[first], qv), rank_key(es[b], qv));
                            if ki == rank_key(es[b], qv) {
                                lemma_key_total(rank_key(es[first], qv), rank_key(es[b], qv));
                            }
                        }
                    } else {
                        assert(a == old_s[k1 - 1] && b == old_s[k2 - 1]);
                    }
                }
                assert forall|j: int| 0 <= j < i + 1 && matches_query(es, qv, j) implies #[trigger] sorted@.contains(j as usize) by {
                    if j < i {
                        assert(old_s.contains(j as usize));
                        let w = choose|w: int| 0 <= w < old_s.len() && old_s[w] == j as usize;
                        if w < p {
                            assert(sorted@[w] == j as usize);
                        } else {
                            assert(sorted@[w + 1] == j as usize);
                        }
                    } else {
                        assert(sorted@[p as int] == i);
                    }
                }
            }
        } else {
            proof {
                assert forall|j: int| 0 <= j < i + 1 && matches_query(es, qv, j) implies #[trigger] sorted@.contains(j as usize) by {
                    if j == i {
                        assert(!matches_query(es, qv, j));
                    }
                }
            }
        }
        i += 1;
    }
    let ghost idx = sorted@.map_values(|x: usize| x as int);
    let mut k: usize = 0;
    while k < sorted.len() && k < 50
        invariant
            k <= sorted@.len(),
            k <= 50,
            out@.len() == k,
            forall|j: int| 0 <= j < sorted@.len() ==> #[trigger] sorted@[j] < entries@.len(),
            forall|j: int| 0 <= j < k ==> *#[trigger] out@[j] == entries@[sorted@[j] as int],
        decreases sorted@.len() - k,
    {
        out.push(&entries[sorted[k]]);
        k += 1;
    }
    proof {
        assert(qv == lowercase(query@));
        assert forall|i: int| 0 <= i < es.len() && matches_query(es, qv, i) implies #[trigger] idx.contains(i) by {
            assert(sorted@.contains(i as usize));
            let w = choose|w: int| 0 <= w < sorted@.len() && sorted@[w] == i as usize;
            assert(idx[w] == i);
        }
        assert forall|k1: int, k2: int| 0 <= k1 < k2 < idx.len() implies ranks_before(es, qv, #[trigger] idx[k1], #[trigger] idx[k2]) by {
            assert(ranks_before(es, qv, sorted@[k1] as int, sorted@[k2] as int));
        }
        assert(is_ranking(entries@, lowercase(query@), idx));
        assert forall|j: int| 0 <= j < out@.len() implies *#[trigger] out@[j] == entries@[idx[j]] by {}
    }
    out
}

/// Entry `i` sorts before entry `j` by lowercase name, ties kept in order.
pub open spec fn name_before(es: Seq<LauncherEntry>, i: int, j: int) -> bool {
    let a = lowercase(es[i].name@);
    let b = lowercase(es[j].name@);
    (lex_le(a, b) && a != b) || (a == b && i < j)
}

/// `idx` lists every entry once, sorted by lowercase name (stable).
pub open spec fn is_name_order(es: Seq<LauncherEntry>, idx: Seq<int>) -> bool {
    &&& idx.len() == es.len()
    &&& forall|k: int| 0 <= k < idx.len() ==> 0 <= #[trigger] idx[k] < es.len()
    &&& forall|i: int| 0 <= i < es.len() ==> #[trigger] idx.contains(i)
    &&& forall|k1: int, k2: int| 0 <= k1 < k2 < idx.len() ==> name_before(es, #[trigger] idx[k1], #[trigger] idx[k2])
}

/// Entries equal for de-duplication: same name and command.
pub open spec fn same_app(a: LauncherEntry, b: LauncherEntry) -> bool {
    a.name@ == b.name@ && a.exec_cmd@ == b.exec_cmd@
}

/// Drops every entry equal to the entry kept just before it.
pub open spec fn dedup_apps(s: Seq<LauncherEntry>) -> Seq<LauncherEntry>
    decreases s.len(),
{
    if s.len() == 0 {
        Seq::empty()
    } else {
        let d = dedup_apps(s.drop_last());
        if d.len() > 0 && same_app(s.last(), d.last()) { d } else { d.push(s.last()) }
    }
}

/// Entry models that compare by their visible fields.
pub open spec fn entry_view(e: LauncherEntry) -> (Seq<char>, Seq<char>, Seq<char>, IconModel, bool, Seq<char>) {
    (e.name@, e.generic_name@, e.exec_cmd@, e.icon@, e.terminal, e.search_haystack@)
}

pub open spec fn entries_view(s: Seq<LauncherEntry>) -> Seq<(Seq<char>, Seq<char>, Seq<char>, IconModel, bool, Seq<char>)> {
    s.map_values(|e: LauncherEntry| entry_view(e))
}

fn copy_entry(e: &LauncherEntry) -> (r: LauncherEntry)
    ensures
        entry_view(r) == entry_view(*e),
{
    LauncherEntry {
        name: e.name.clone(),
        generic_name: e.generic_name.clone(),
        exec_cmd: e.exec_cmd.clone(),
        icon: e.icon.clone(),
        terminal: e.terminal,
        search_haystack: e.search_haystack.clone(),
    }
}

/// Sorts entries by lowercase name (stable) and drops consecutive duplicates.
pub fn order_entries(entries: Vec<LauncherEntry>) -> (r: Vec<LauncherEntry>)
    ensures
        exists|idx: Seq<int>| #[trigger] is_name_order(entries@, idx)
            && entries_view(r@) == entries_view(dedup_apps(idx.map_values(|k: int| entries@[k]))),
{
    let ghost es = entries@;
    let mut keys: Vec<Vec<char>> = Vec::new();
    let mut i: usize = 0;
    while i < entries.len()
        invariant
            i <= entries@.len(),
            keys@.len() == i,
            forall|j: int| 0 <= j < i ==> (#[trigger] keys@[j])@ == lowercase(entries@[j].name@),
        decreases entries@.len() - i,
    {
        keys.push(chars_of(to_lowercase(entries[i].name.as_str()).as_str()));
        i += 1;
    }
    let mut sorted: Vec<usize> = Vec::new();
    let mut i: usize = 0;
    while i < entries.len()
        invariant
            i <= entries@.len(),
            es == entries@,
            keys@.len() == es.len(),
            forall|j: int| 0 <= j < es.len() ==> (#[trigger] keys@[j])@ == lowercase(es[j].name@),
            sorted@.len() == i,
            forall|k: int| 0 <= k < sorted@.len() ==> #[trigger] sorted@[k] < i,
            forall|j: int| 0 <= j < i ==> #[trigger] sorted@.contains(j as usize),
            forall|k1: int, k2: int| 0 <= k1 < k2 < sorted@.len()
                ==> name_before(es, #[trigger] sorted@[k1] as int, #[trigger] sorted@[k2] as int),
        decreases entries@.len() - i,
    {
        let mut p: usize = 0;
        while p < sorted.len() && lex_le_chars(keys[sorted[p]].as_slice(), keys[i].as_slice())
            invariant
                p <= sorted@.len(),
                i < keys@.len(),
                forall|k: int| 0 <= k < sorted@.len() ==> #[trigger] sorted@[k] < i,
                forall|j: int| 0 <= j < p ==> lex_le(keys@[#[trigger] sorted@[j] as int]@, keys@[i as int]@),
            decreases sorted@.len() - p,
        {
            p += 1;
        }
        let ghost old_s = sorted@;
        let ghost ki = lowercase(es[i as int].name@);
        sorted.insert(p, i);
        proof {
            assert(sorted@ == old_s.insert(p as int, i));
            assert forall|k1: int, k2: int| 0 <= k1 < k2 < sorted@.len()
                implies name_before(es, #[trigger] sorted@[k1] as int, #[trigger] sorted@[k2] as int) by {
                let a = sorted@[k1] as int;
                let b = sorted@[k2] as int;
                if k2 < p {
                    assert(a == old_s[k1] && b == old_s[k2]);
                } else if k2 == p {
                    assert(a == old_s[k1]);
                    assert(b == i);
                    assert(keys@[a]@ == lowercase(es[a].name@));
                    lemma_lex_total(lowercase(es[a].name@), ki);
                } else if k1 < p {
                    assert(a == old_s[k1] && b == old_s[k2 - 1]);
                } else if k1 == p {
                    assert(a == i && b == old_s[k2 - 1]);
                    let first = old_s[p as int] as int;
                    assert(keys@[first]@ == lowercase(es[first].name@));
                    assert(!lex_le(lowercase(es[first].name@), ki));
                    lemma_lex_total(lowercase(es[first].name@), ki);
                    if k2 - 1 > p {
                        assert(name_before(es, first, b));
                        lemma_lex_refl(lowercase(es[first].name@));
                        lemma_lex_trans(ki, lowercase(es[first].name@), lowercase(es[b].name@));
                        if ki == lowercase(es[b].name@) {
                            lemma_lex_total(lowercase(es[first].name@), lowercase(es[b].name@));
                        }
                    }
                } else {
                    assert(a == old_s[k1 - 1] && b == old_s[k2 - 1]);
                }
            }
            assert forall|j: int| 0 <= j < i + 1 implies #[trigger] sorted@.contains(j as usize) by {
                if j < i {
                    assert(old_s.contains(j as usize));
                    let w = choose|w: int| 0 <= w < old_s.len() && old_s[w] == j as usize;
                    if w < p {
                        assert(sorted@[w] == j as usize);
                    } else {
                        assert(sorted@[w + 1] == j as usize);
                    }
                } else {
                    assert(sorted@[p as int] == i);
                }
            }
        }
        i += 1;
    }
    let ghost idx = sorted@.map_values(|x: usize| x as int);
    let ghost picked = idx.map_values(|k: int| es[k]);
    let mut out: Vec<LauncherEntry> = Vec::new();
    let mut k: usize = 0;
    proof { assert(picked.take(0) =~= Seq::<LauncherEntry>::empty()); }
    while k < sorted.len()
        invariant
            k <= sorted@.len(),
            es == entries@,
            idx == sorted@.map_values(|x: usize| x as int),
            picked == idx.map_values(|k: int| es[k]),
            sorted@.len() == es.len(),
            forall|j: int| 0 <= j < sorted@.len() ==> #[trigger] sorted@[j] < es.len(),
            entries_view(out@) == entries_view(dedup_apps(picked.take(k as int))),
        decreases sorted@.len() - k,
    {
        let e = &entries[sorted[k]];
        let ghost d = dedup_apps(picked.take(k as int));
        proof {
            assert(picked.take(k + 1).drop_last() =~= picked.take(k as int));
            assert(picked.take(k + 1).last() == *e);
            assert(d.len() == out@.len()) by {
                assert(entries_view(d).len() == entries_view(out@).len());
            }
        }
        let n = out.len();
        let dup = n > 0 && out[n - 1].name == e.name && out[n - 1].exec_cmd == e.exec_cmd;
        proof {
            if n > 0 {
                assert(entries_view(out@)[n - 1] == entry_view(out@[n - 1]));
                assert(entries_view(d)[n - 1] == entry_view(d.last()));
            }
        }
        if !dup {
            let ghost old_out = out@;
            let c = copy_entry(e);
            out.push(c);
            proof {
                assert(entries_view(out@) =~= entries_view(old_out).push(entry_view(c)));
                assert(entries_view(d.push(*e)) =~= entries_view(d).push(entry_view(*e)));
            }
        }
        k += 1;
    }
    proof {
        assert(picked.take(k as int) =~= picked);
        assert forall|i: int| 0 <= i < es.len() implies #[trigger] idx.contains(i) by {
            assert(sorted@.contains(i as usize));
            let w = choose|w: int| 0 <= w < sorted@.len() && sorted@[w] == i as usize;
            assert(idx[w] == i);
        }
        assert forall|k1: int, k2: int| 0 <= k1 < k2 < idx.len() implies name_before(es, #[trigger] idx[k1], #[trigger] idx[k2]) by {
            assert(name_before(es, sorted@[k1] as int, sorted@[k2] as int));
        }
        assert(is_name_order(entries@, idx));
    }
    out
}

/// The shell command that launches an entry: its command without field
/// codes and trimmed, run in `terminal` for terminal apps; nothing when empty.
pub open spec fn launch_cmd(exec: Seq<char>, terminal_app: bool, terminal: Seq<char>) -> Option<Seq<char>> {
    let cmd = trim(strip_codes(exec));
    if cmd.len() == 0 {
        None
    } else if terminal_app {
        Some(terminal + " -e "@ + cmd)
    } else {
        Some(cmd)
    }
}

/// The command `sh -c` runs for an entry; `terminal` is `$TERMINAL` if set.
pub fn launch_command(entry: &LauncherEntry, terminal: Option<String>) -> (r: Option<String>)
    ensures
        (match r {
            Some(s) => Some(s@),
            None => None,
        }) == launch_cmd(entry.exec_cmd@, entry.terminal, match terminal {
            Some(t) => t@,
            None => "x-terminal-emulator"@,
        }),
{
    let stripped = strip_field_codes(entry.exec_cmd.as_str());
    let sc = chars_of(stripped.as_str());
    let cmd = trim_chars(sc.as_slice());
    if cmd.len() == 0 {
        return None;
    }
    if entry.terminal {
        let mut full = match terminal {
            Some(t) => t,
            None => "x-terminal-emulator".to_owned(),
        };
        push_str_chars(&mut full, " -e ");
        push_chars(&mut full, cmd.as_slice());
        proof { assert(full@ =~= (match terminal { Some(t) => t@, None => "x-terminal-emulator"@ }) + " -e "@ + cmd@); }
        Some(full)
    } else {
        Some(string_of(cmd.as_slice()))
    }
}

/// In every ranking for a query, entries whose lowercased name starts with
/// the query come before all others, and entries whose lowercased name
/// holds the query somewhere come before those matched only through the
/// generic name, keywords or categories.
pub proof fn lemma_ranking_tiers(es: Seq<LauncherEntry>, q: Seq<char>, idx: Seq<int>, k1: int, k2: int)
    requires
        is_ranking(es, q, idx),
        0 <= k1 < k2 < idx.len(),
    ensures
        starts_with(lowercase(es[idx[k2]].name@), q) ==> starts_with(lowercase(es[idx[k1]].name@), q),
        contains(lowercase(es[idx[k2]].name@), q) ==>
            starts_with(lowercase(es[idx[k1]].name@), q) || contains(lowercase(es[idx[k1]].name@), q),
        // within a tier, by lowercased name
        starts_with(lowercase(es[idx[k1]].name@), q) && starts_with(lowercase(es[idx[k2]].name@), q) ==>
            lex_le(lowercase(es[idx[k1]].name@), lowercase(es[idx[k2]].name@)),
        !starts_with(lowercase(es[idx[k1]].name@), q) && !starts_with(lowercase(es[idx[k2]].name@), q)
            && contains(lowercase(es[idx[k1]].name@), q) && contains(lowercase(es[idx[k2]].name@), q) ==>
            lex_le(lowercase(es[idx[k1]].name@), lowercase(es[idx[k2]].name@)),
        !starts_with(lowercase(es[idx[k1]].name@), q) && !starts_with(lowercase(es[idx[k2]].name@), q)
            && !contains(lowercase(es[idx[k1]].name@), q) && !contains(lowercase(es[idx[k2]].name@), q) ==>
            lex_le(lowercase(es[idx[k1]].name@), lowercase(es[idx[k2]].name@)),
{
    let a = lowercase(es[idx[k1]].name@);
    lemma_lex_refl(a);
    assert(ranks_before(es, q, idx[k1], idx[k2]));
}

} // verus!
