//! Volume and output-device logic of the audio helper: icon choice, sink
//! name globs, sink filtering and cycling, and reading `pactl` output.

use vstd::prelude::*;
use crate::text::{
    chars_of, string_of, split_on, split_chars, contains, contains_chars, lines_of,
    lines_chars, words_of, words_chars, parse_u32, parse_u32_chars,
};

verus! {

broadcast use vstd::seq::group_seq_axioms;

pub const VOLUME_STEP: u32 = 1;
pub const MAX_VOLUME: u32 = 100;

/// An output device: its `pactl` index and name.
pub struct Sink {
    pub id: u32,
    pub name: String,
}

impl View for Sink {
    type V = (u32, Seq<char>);

    open spec fn view(&self) -> (u32, Seq<char>) {
        (self.id, self.name@)
    }
}

/// Which output devices to offer: preferred patterns (in priority order)
/// or excluded patterns.
pub struct AudioConfig {
    pub preferred_sinks: Vec<String>,
    pub excluded_sinks: Vec<String>,
}

impl Default for AudioConfig {
    fn default() -> (r: Self)
        ensures
            r.preferred_sinks@.len() == 0,
            r.excluded_sinks@.len() == 0,
    {
        AudioConfig { preferred_sinks: Vec::new(), excluded_sinks: Vec::new() }
    }
}

/// Icon name for a volume level and mute state.
pub open spec fn volume_icon_name(volume: u32, muted: bool) -> Seq<char> {
    if muted {
        "audio-volume-muted"@
    } else if volume < 34 {
        "audio-volume-low"@
    } else if volume < 67 {
        "audio-volume-medium"@
    } else {
        "audio-volume-high"@
    }
}

/// Return the appropriate icon name for the given volume/mute state.
pub fn volume_icon(volume: u32, muted: bool) -> (r: &'static str)
    ensures
        r@ == volume_icon_name(volume, muted),
{
    if muted {
        "audio-volume-muted"
    } else if volume < 34 {
        "audio-volume-low"
    } else if volume < 67 {
        "audio-volume-medium"
    } else {
        "audio-volume-high"
    }
}

/// Whether the whole of `name` matches `pattern`, where each `*` stands for
/// any (possibly empty) run of characters and every other character for itself.
pub open spec fn glob_matches(name: Seq<char>, pattern: Seq<char>) -> bool
    decreases pattern.len(), name.len(),
{
    if pattern.len() == 0 {
        name.len() == 0
    } else if pattern[0] == '*' {
        glob_matches(name, pattern.drop_first())
            || (name.len() > 0 && glob_matches(name.drop_first(), pattern))
    } else {
        name.len() > 0 && name[0] == pattern[0] && glob_matches(name.drop_first(), pattern.drop_first())
    }
}

/// Whether the name from position `i` matches the pattern from position `j`.
pub open spec fn glob_from(n: Seq<char>, p: Seq<char>, i: int, j: int) -> bool {
    glob_matches(n.skip(i), p.skip(j))
}

proof fn lemma_glob_step(n: Seq<char>, p: Seq<char>, i: int, j: int)
    requires
        0 <= i <= n.len(),
        0 <= j <= p.len(),
    ensures
        j == p.len() ==> (glob_from(n, p, i, j) == (i == n.len())),
        j < p.len() && p[j] == '*' ==> glob_from(n, p, i, j)
            == (glob_from(n, p, i, j + 1) || (i < n.len() && glob_from(n, p, i + 1, j))),
        j < p.len() && p[j] != '*' ==> glob_from(n, p, i, j)
            == (i < n.len() && n[i] == p[j] && glob_from(n, p, i + 1, j + 1)),
{
    assert(n.skip(i).len() == n.len() - i);
    assert(p.skip(j).len() == p.len() - j);
    if j < p.len() {
        assert(p.skip(j).drop_first() =~= p.skip(j + 1));
        assert(p.skip(j)[0] == p[j]);
    }
    if i < n.len() {
        assert(n.skip(i).drop_first() =~= n.skip(i + 1));
        assert(n.skip(i)[0] == n[i]);
    }
}

/// One row of the match table: for each pattern position `j`, whether the
/// name from `i` matches the pattern from `j`, given the row for `i + 1`.
fn glob_row(n: &Vec<char>, p: &Vec<char>, i: usize, next: &Vec<bool>) -> (row: Vec<bool>)
    requires
        i <= n@.len(),
        next@.len() == p@.len() + 1,
        i < n@.len() ==> forall|j: int| 0 <= j <= p@.len() ==> #[trigger] next@[j] == glob_from(n@, p@, i + 1, j),
    ensures
        row@.len() == p@.len() + 1,
        forall|j: int| 0 <= j <= p@.len() ==> #[trigger] row@[j] == glob_from(n@, p@, i as int, j),
{
    let pl = p.len();
    let mut row: Vec<bool> = Vec::new();
    while row.len() <= pl
        invariant
            row@.len() <= pl + 1,
            pl == p@.len(),
        decreases pl + 1 - row@.len(),
    {
        row.push(false);
    }
    let at_end = i == n.len();
    proof { lemma_glob_step(n@, p@, i as int, pl as int); }
    row.set(pl, at_end);
    let mut j: usize = pl;
    while j > 0
        invariant
            j <= pl,
            pl == p@.len(),
            row@.len() == pl + 1,
            i <= n@.len(),
            next@.len() == pl + 1,
            i < n@.len() ==> forall|k: int| 0 <= k <= p@.len() ==> #[trigger] next@[k] == glob_from(n@, p@, i + 1, k),
            forall|k: int| j <= k <= pl ==> #[trigger] row@[k] == glob_from(n@, p@, i as int, k),
        decreases j,
    {
        j -= 1;
        proof { lemma_glob_step(n@, p@, i as int, j as int); }
        let v = if p[j] == '*' {
            row[j + 1] || (i < n.len() && next[j])
        } else {
            i < n.len() && n[i] == p[j] && next[j + 1]
        };
        row.set(j, v);
    }
    row
}

/// Simple glob matching: `*` matches any sequence of characters.
pub fn matches_glob(name: &str, pattern: &str) -> (r: bool)
    ensures
        r == glob_matches(name@, pattern@),
{
    let n = chars_of(name);
    let p = chars_of(pattern);
    let empty: Vec<bool> = Vec::new();
    let mut filler = empty;
    while filler.len() <= p.len()
        invariant
            filler@.len() <= p@.len() + 1,
        decreases p@.len() + 1 - filler@.len(),
    {
        filler.push(false);
    }
    let mut i: usize = n.len();
    let mut row = glob_row(&n, &p, i, &filler);
    while i > 0
        invariant
            i <= n@.len(),
            row@.len() == p@.len() + 1,
            forall|j: int| 0 <= j <= p@.len() ==> #[trigger] row@[j] == glob_from(n@, p@, i as int, j),
        decreases i,
    {
        i -= 1;
        row = glob_row(&n, &p, i, &row);
    }
    proof {
        assert(n@.skip(0) =~= n@);
        assert(p@.skip(0) =~= p@);
    }
    row[0]
}

/// A split always has at least one piece.
pub proof fn lemma_split_nonempty(s: Seq<char>, c: char)
    ensures
        split_on(s, c).len() >= 1,
    decreases s.len(),
{
    crate::text::lemma_index_from(s, c, 0);
    if let Some(i) = crate::text::index_from(s, c, 0) {
        lemma_split_nonempty(s.subrange(i + 1, s.len() as int), c);
    }
}

/// `c` does not occur in `s`.
pub open spec fn free_of(s: Seq<char>, c: char) -> bool {
    forall|i: int| 0 <= i < s.len() ==> #[trigger] s[i] != c
}

/// The pattern `*` matches every name.
pub proof fn lemma_glob_star_matches_all(name: Seq<char>)
    ensures
        glob_matches(name, seq!['*']),
    decreases name.len(),
{
    let pat = seq!['*'];
    assert(pat[0] == '*');
    assert(pat.drop_first() =~= Seq::<char>::empty());
    if name.len() > 0 {
        lemma_glob_star_matches_all(name.drop_first());
    } else {
        assert(glob_matches(name, pat.drop_first()));
    }
}

/// A pattern without `*` matches exactly one name: itself.
pub proof fn lemma_glob_literal_exact(name: Seq<char>, p: Seq<char>)
    requires
        free_of(p, '*'),
    ensures
        glob_matches(name, p) == (name == p),
    decreases p.len(),
{
    if p.len() > 0 {
        assert(free_of(p.drop_first(), '*')) by {
            assert forall|i: int| 0 <= i < p.drop_first().len() implies #[trigger] p.drop_first()[i] != '*' by {
                assert(p.drop_first()[i] == p[i + 1]);
            }
        }
        assert(p[0] != '*');
        if name.len() > 0 {
            lemma_glob_literal_exact(name.drop_first(), p.drop_first());
            if name == p {
                assert(name.drop_first() == p.drop_first());
            }
            if name[0] == p[0] && name.drop_first() == p.drop_first() {
                assert(name =~= p) by {
                    assert forall|k: int| 0 <= k < name.len() implies name[k] == p[k] by {
                        if k > 0 {
                            assert(name[k] == name.drop_first()[k - 1]);
                            assert(p[k] == p.drop_first()[k - 1]);
                        }
                    }
                }
            }
        } else {
            assert(name != p) by { assert(name.len() != p.len()); }
        }
    } else {
        assert(name.len() == 0 ==> name =~= p);
    }
}

/// A pattern `P*` (with no other `*`) matches every name that starts with `P`.
pub proof fn lemma_glob_prefix_star(prefix: Seq<char>, rest: Seq<char>)
    requires
        free_of(prefix, '*'),
    ensures
        glob_matches(prefix + rest, prefix + seq!['*']),
    decreases prefix.len(),
{
    if prefix.len() == 0 {
        assert(prefix + rest =~= rest);
        assert(prefix + seq!['*'] =~= seq!['*']);
        lemma_glob_star_matches_all(rest);
    } else {
        let name = prefix + rest;
        let pat = prefix + seq!['*'];
        assert(free_of(prefix.drop_first(), '*')) by {
            assert forall|i: int| 0 <= i < prefix.drop_first().len() implies #[trigger] prefix.drop_first()[i] != '*' by {
                assert(prefix.drop_first()[i] == prefix[i + 1]);
            }
        }
        lemma_glob_prefix_star(prefix.drop_first(), rest);
        assert(name.drop_first() =~= prefix.drop_first() + rest);
        assert(pat.drop_first() =~= prefix.drop_first() + seq!['*']);
        assert(pat[0] == prefix[0]);
        assert(name[0] == prefix[0]);
    }
}

/// A pattern `*S` (with no other `*`) matches every name that ends with `S`.
pub proof fn lemma_glob_star_suffix(rest: Seq<char>, suffix: Seq<char>)
    requires
        free_of(suffix, '*'),
    ensures
        glob_matches(rest + suffix, seq!['*'] + suffix),
    decreases rest.len(),
{
    let pat = seq!['*'] + suffix;
    let name = rest + suffix;
    assert(pat[0] == '*');
    assert(pat.drop_first() =~= suffix);
    if rest.len() == 0 {
        assert(name =~= suffix);
        lemma_glob_literal_exact(suffix, suffix);
    } else {
        lemma_glob_star_suffix(rest.drop_first(), suffix);
        assert(name.drop_first() =~= rest.drop_first() + suffix);
    }
}

/// Abstract views of sinks and of pattern lists.
pub open spec fn sinks_view(v: Seq<Sink>) -> Seq<(u32, Seq<char>)> {
    v.map_values(|s: Sink| s@)
}

pub open spec fn strs_view(v: Seq<String>) -> Seq<Seq<char>> {
    v.map_values(|s: String| s@)
}

/// Some sink of `acc` has the name `name`.
pub open spec fn has_name(acc: Seq<(u32, Seq<char>)>, name: Seq<char>) -> bool {
    exists|j: int| 0 <= j < acc.len() && #[trigger] acc[j].1 == name
}

/// Appends, in order, the sinks matching `pat` whose names are not yet in `acc`.
pub open spec fn pick_matching(acc: Seq<(u32, Seq<char>)>, sinks: Seq<(u32, Seq<char>)>, pat: Seq<char>)
    -> Seq<(u32, Seq<char>)>
    decreases sinks.len(),
{
    if sinks.len() == 0 {
        acc
    } else {
        let s = sinks[0];
        let acc2 = if glob_matches(s.1, pat) && !has_name(acc, s.1) { acc.push(s) } else { acc };
        pick_matching(acc2, sinks.drop_first(), pat)
    }
}

/// Sinks picked pattern by pattern, in the patterns' priority order.
pub open spec fn prefer(acc: Seq<(u32, Seq<char>)>, sinks: Seq<(u32, Seq<char>)>, pats: Seq<Seq<char>>)
    -> Seq<(u32, Seq<char>)>
    decreases pats.len(),
{
    if pats.len() == 0 {
        acc
    } else {
        prefer(pick_matching(acc, sinks, pats[0]), sinks, pats.drop_first())
    }
}

/// Some pattern matches `name`.
pub open spec fn any_match(name: Seq<char>, pats: Seq<Seq<char>>) -> bool {
    exists|k: int| 0 <= k < pats.len() && glob_matches(name, #[trigger] pats[k])
}

/// The sinks that no pattern matches, in order.
pub open spec fn exclude(sinks: Seq<(u32, Seq<char>)>, pats: Seq<Seq<char>>) -> Seq<(u32, Seq<char>)>
    decreases sinks.len(),
{
    if sinks.len() == 0 {
        Seq::empty()
    } else {
        let rest = exclude(sinks.drop_first(), pats);
        if any_match(sinks[0].1, pats) { rest } else { seq![sinks[0]] + rest }
    }
}

/// The sinks offered under a configuration.
pub open spec fn filtered_sinks(sinks: Seq<(u32, Seq<char>)>, preferred: Seq<Seq<char>>, excluded: Seq<Seq<char>>)
    -> Seq<(u32, Seq<char>)>
{
    if preferred.len() > 0 {
        prefer(Seq::empty(), sinks, preferred)
    } else if excluded.len() > 0 {
        exclude(sinks, excluded)
    } else {
        sinks
    }
}

/// Names occur at most once.
pub open spec fn distinct_names(s: Seq<(u32, Seq<char>)>) -> bool {
    forall|i: int, j: int| 0 <= i < j < s.len() ==> (#[trigger] s[i]).1 != (#[trigger] s[j]).1
}

/// What `pick_matching` adds: it keeps `acc` as a prefix, each added sink
/// comes from `sinks` and matches `pat`, and names stay distinct.
proof fn lemma_pick(acc: Seq<(u32, Seq<char>)>, sinks: Seq<(u32, Seq<char>)>, pat: Seq<char>)
    ensures
        pick_matching(acc, sinks, pat).len() >= acc.len(),
        forall|i: int| 0 <= i < acc.len() ==> #[trigger] pick_matching(acc, sinks, pat)[i] == acc[i],
        forall|i: int| acc.len() <= i < pick_matching(acc, sinks, pat).len() ==>
            sinks.contains(#[trigger] pick_matching(acc, sinks, pat)[i])
            && glob_matches(pick_matching(acc, sinks, pat)[i].1, pat),
        distinct_names(acc) ==> distinct_names(pick_matching(acc, sinks, pat)),
    decreases sinks.len(),
{
    if sinks.len() > 0 {
        let s = sinks[0];
        let acc2 = if glob_matches(s.1, pat) && !has_name(acc, s.1) { acc.push(s) } else { acc };
        let rest = sinks.drop_first();
        lemma_pick(acc2, rest, pat);
        let r = pick_matching(acc2, rest, pat);
        assert forall|i: int| acc.len() <= i < r.len() implies sinks.contains(#[trigger] r[i]) && glob_matches(r[i].1, pat) by {
            if i < acc2.len() {
                assert(r[i] == acc2[i]);
                assert(acc2[i] == s);
                assert(sinks[0] == s);
            } else {
                let k = choose|k: int| 0 <= k < rest.len() && rest[k] == r[i];
                assert(sinks[k + 1] == rest[k]);
            }
        }
        if distinct_names(acc) && acc2.len() > acc.len() {
            assert forall|i: int, j: int| 0 <= i < j < acc2.len() implies (#[trigger] acc2[i]).1 != (#[trigger] acc2[j]).1 by {
                if j == acc.len() {
                    if acc2[i].1 == s.1 {
                        assert(acc[i].1 == s.1);
                        assert(has_name(acc, s.1));
                    }
                }
            }
        }
    }
}

/// What `prefer` adds: `acc` stays a prefix, each added sink comes from
/// `sinks` and matches one of `pats`, and names stay distinct.
proof fn lemma_prefer(acc: Seq<(u32, Seq<char>)>, sinks: Seq<(u32, Seq<char>)>, pats: Seq<Seq<char>>)
    ensures
        prefer(acc, sinks, pats).len() >= acc.len(),
        forall|i: int| 0 <= i < acc.len() ==> #[trigger] prefer(acc, sinks, pats)[i] == acc[i],
        forall|i: int| acc.len() <= i < prefer(acc, sinks, pats).len() ==>
            sinks.contains(#[trigger] prefer(acc, sinks, pats)[i]) && any_match(prefer(acc, sinks, pats)[i].1, pats),
        distinct_names(acc) ==> distinct_names(prefer(acc, sinks, pats)),
    decreases pats.len(),
{
    if pats.len() > 0 {
        let a2 = pick_matching(acc, sinks, pats[0]);
        let ps = pats.drop_first();
        lemma_pick(acc, sinks, pats[0]);
        lemma_prefer(a2, sinks, ps);
        let r = prefer(a2, sinks, ps);
        assert forall|i: int| acc.len() <= i < r.len() implies
            sinks.contains(#[trigger] r[i]) && any_match(r[i].1, pats) by {
            if i < a2.len() {
                assert(r[i] == a2[i]);
                assert(glob_matches(a2[i].1, pats[0]));
            } else {
                assert(any_match(r[i].1, ps));
                let k = choose|k: int| 0 <= k < ps.len() && glob_matches(r[i].1, #[trigger] ps[k]);
                assert(pats[k + 1] == ps[k]);
            }
        }
    }
}

/// Every sink `exclude` keeps comes from `sinks` and matches none of the
/// patterns; every sink matching none of them is kept.
proof fn lemma_exclude(sinks: Seq<(u32, Seq<char>)>, pats: Seq<Seq<char>>)
    ensures
        forall|i: int| 0 <= i < exclude(sinks, pats).len() ==>
            sinks.contains(#[trigger] exclude(sinks, pats)[i]) && !any_match(exclude(sinks, pats)[i].1, pats),
        forall|i: int| 0 <= i < sinks.len() && !any_match(sinks[i].1, pats) ==>
            exclude(sinks, pats).contains(#[trigger] sinks[i]),
    decreases sinks.len(),
{
    if sinks.len() > 0 {
        let rest = sinks.drop_first();
        lemma_exclude(rest, pats);
        let r = exclude(sinks, pats);
        let rr = exclude(rest, pats);
        assert forall|i: int| 0 <= i < r.len() implies
            sinks.contains(#[trigger] r[i]) && !any_match(r[i].1, pats) by {
            if any_match(sinks[0].1, pats) {
                assert(r[i] == rr[i]);
                let k = choose|k: int| 0 <= k < rest.len() && rest[k] == rr[i];
                assert(sinks[k + 1] == rest[k]);
            } else if i == 0 {
                assert(r[0] == sinks[0]);
            } else {
                assert(r[i] == rr[i - 1]);
                let k = choose|k: int| 0 <= k < rest.len() && rest[k] == rr[i - 1];
                assert(sinks[k + 1] == rest[k]);
            }
        }
        assert forall|i: int| 0 <= i < sinks.len() && !any_match(sinks[i].1, pats) implies
            r.contains(#[trigger] sinks[i]) by {
            if i == 0 {
                assert(r[0] == sinks[0]);
            } else {
                assert(sinks[i] == rest[i - 1]);
                assert(rr.contains(rest[i - 1]));
                let k = choose|k: int| 0 <= k < rr.len() && rr[k] == rest[i - 1];
                if any_match(sinks[0].1, pats) {
                    assert(r[k] == rr[k]);
                } else {
                    assert(r[k + 1] == rr[k]);
                }
            }
        }
    }
}

/// What the sink filter offers: only sinks it was given; with preferred
/// patterns, only sinks one of them matches, each name once; otherwise with
/// excluded patterns, exactly the sinks none of them matches.
pub proof fn lemma_filtered_sinks(sinks: Seq<(u32, Seq<char>)>, preferred: Seq<Seq<char>>, excluded: Seq<Seq<char>>)
    ensures
        forall|i: int| 0 <= i < filtered_sinks(sinks, preferred, excluded).len() ==>
            sinks.contains(#[trigger] filtered_sinks(sinks, preferred, excluded)[i]),
        preferred.len() > 0 ==> distinct_names(filtered_sinks(sinks, preferred, excluded)),
        preferred.len() > 0 ==> forall|i: int| 0 <= i < filtered_sinks(sinks, preferred, excluded).len() ==>
            any_match((#[trigger] filtered_sinks(sinks, preferred, excluded)[i]).1, preferred),
        preferred.len() == 0 && excluded.len() > 0 ==> forall|i: int|
            0 <= i < filtered_sinks(sinks, preferred, excluded).len() ==>
            !any_match((#[trigger] filtered_sinks(sinks, preferred, excluded)[i]).1, excluded),
        preferred.len() == 0 && excluded.len() > 0 ==> forall|i: int|
            0 <= i < sinks.len() && !any_match(sinks[i].1, excluded) ==>
            filtered_sinks(sinks, preferred, excluded).contains(#[trigger] sinks[i]),
{
    if preferred.len() > 0 {
        lemma_prefer(Seq::empty(), sinks, preferred);
    } else if excluded.len() > 0 {
        lemma_exclude(sinks, excluded);
    } else {
        assert forall|i: int| 0 <= i < sinks.len() implies sinks.contains(#[trigger] sinks[i]) by {}
    }
}

fn copy_sink(s: &Sink) -> (r: Sink)
    ensures
        r@ == s@,
{
    Sink { id: s.id, name: s.name.clone() }
}

fn name_in(acc: &Vec<Sink>, name: &String) -> (r: bool)
    ensures
        r == has_name(sinks_view(acc@), name@),
{
    let mut j: usize = 0;
    while j < acc.len()
        invariant
            j <= acc@.len(),
            forall|k: int| 0 <= k < j ==> #[trigger] acc@[k].name@ != name@,
        decreases acc@.len() - j,
    {
        if acc[j].name == *name {
            proof { assert(sinks_view(acc@)[j as int].1 == name@); }
            return true;
        }
        j += 1;
    }
    proof {
        if has_name(sinks_view(acc@), name@) {
            let k = choose|k: int| 0 <= k < sinks_view(acc@).len() && #[trigger] sinks_view(acc@)[k].1 == name@;
            assert(acc@[k].name@ == name@);
        }
    }
    false
}

fn pick_into(result: &mut Vec<Sink>, sinks: &Vec<Sink>, pattern: &String)
    ensures
        sinks_view(final(result)@) == pick_matching(sinks_view(old(result)@), sinks_view(sinks@), pattern@),
{
    let ghost sv = sinks_view(sinks@);
    let mut k: usize = 0;
    proof { assert(sv.skip(0) =~= sv); }
    while k < sinks.len()
        invariant
            k <= sinks@.len(),
            sv == sinks_view(sinks@),
            pick_matching(sinks_view(old(result)@), sv, pattern@)
                == pick_matching(sinks_view(result@), sv.skip(k as int), pattern@),
        decreases sinks@.len() - k,
    {
        let sink = &sinks[k];
        let ghost acc = sinks_view(result@);
        proof {
            assert(sv.skip(k as int)[0] == sink@);
            assert(sv.skip(k as int).drop_first() =~= sv.skip(k + 1));
        }
        if matches_glob(sink.name.as_str(), pattern.as_str()) && !name_in(result, &sink.name) {
            let c = copy_sink(sink);
            result.push(c);
            proof { assert(sinks_view(result@) =~= acc.push(sink@)); }
        }
        k += 1;
    }
    proof { assert(sv.skip(k as int) =~= Seq::<(u32, Seq<char>)>::empty()); }
}

/// Filter sinks according to config preferences.
/// If preferred_sinks is non-empty: keep only matching, in preferred order.
/// If excluded_sinks is non-empty: remove matching.
/// Otherwise: return all.
pub fn filter_sinks(sinks: Vec<Sink>, config: &AudioConfig) -> (r: Vec<Sink>)
    ensures
        sinks_view(r@) == filtered_sinks(sinks_view(sinks@), strs_view(config.preferred_sinks@),
            strs_view(config.excluded_sinks@)),
{
    let ghost sv = sinks_view(sinks@);
    if config.preferred_sinks.len() > 0 {
        let pats = &config.preferred_sinks;
        let ghost pv = strs_view(pats@);
        let mut result: Vec<Sink> = Vec::new();
        let mut p: usize = 0;
        proof {
            assert(pv.skip(0) =~= pv);
            assert(sinks_view(result@) =~= Seq::<(u32, Seq<char>)>::empty());
        }
        while p < pats.len()
            invariant
                p <= pats@.len(),
                pv == strs_view(pats@),
                sv == sinks_view(sinks@),
                prefer(Seq::empty(), sv, pv) == prefer(sinks_view(result@), sv, pv.skip(p as int)),
            decreases pats@.len() - p,
        {
            proof {
                assert(pv.skip(p as int)[0] == pats@[p as int]@);
                assert(pv.skip(p as int).drop_first() =~= pv.skip(p + 1));
            }
            pick_into(&mut result, &sinks, &pats[p]);
            p += 1;
        }
        proof { assert(pv.skip(p as int) =~= Seq::<Seq<char>>::empty()); }
        result
    } else if config.excluded_sinks.len() > 0 {
        let pats = &config.excluded_sinks;
        let ghost pv = strs_view(pats@);
        let mut result: Vec<Sink> = Vec::new();
        let mut i: usize = 0;
        proof {
            assert(sv.skip(0) =~= sv);
            assert(sinks_view(result@) + exclude(sv, pv) =~= exclude(sv, pv));
        }
        while i < sinks.len()
            invariant
                i <= sinks@.len(),
                pv == strs_view(pats@),
                sv == sinks_view(sinks@),
                exclude(sv, pv) == sinks_view(result@) + exclude(sv.skip(i as int), pv),
            decreases sinks@.len() - i,
        {
            let sink = &sinks[i];
            proof {
                assert(sv.skip(i as int)[0] == sink@);
                assert(sv.skip(i as int).drop_first() =~= sv.skip(i + 1));
            }
            let mut matched = false;
            let mut q: usize = 0;
            while q < pats.len()
                invariant
                    q <= pats@.len(),
                    pv == strs_view(pats@),
                    matched == exists|j: int| 0 <= j < q && glob_matches(sink.name@, #[trigger] pv[j]),
                decreases pats@.len() - q,
            {
                if matches_glob(sink.name.as_str(), pats[q].as_str()) {
                    proof { assert(pv[q as int] == pats@[q as int]@); }
                    matched = true;
                }
                q += 1;
            }
            if !matched {
                let ghost old_res = sinks_view(result@);
                result.push(copy_sink(sink));
                proof { assert(sinks_view(result@) =~= old_res.push(sink@)); }
            }
            i += 1;
        }
        proof { assert(sv.skip(i as int) =~= Seq::<(u32, Seq<char>)>::empty()); }
        result
    } else {
        sinks
    }
}

/// The first word `N%` of `pactl get-sink-volume` output whose `N` is a number.
pub open spec fn volume_in(words: Seq<Seq<char>>) -> Option<u32>
    decreases words.len(),
{
    if words.len() == 0 {
        None
    } else {
        let w = words[0];
        if w.len() > 0 && w.last() == '%' && parse_u32(w.drop_last()) is Some {
            parse_u32(w.drop_last())
        } else {
            volume_in(words.drop_first())
        }
    }
}

/// Reads the volume percentage from `pactl get-sink-volume` output.
pub fn volume_from_output(text: &str) -> (r: Option<u32>)
    ensures
        r == volume_in(words_of(text@)),
{
    let cs = chars_of(text);
    let words = words_chars(cs.as_slice());
    let ghost ws = words@.map_values(|v: Vec<char>| v@);
    let mut i: usize = 0;
    proof { assert(ws.skip(0) =~= ws); }
    while i < words.len()
        invariant
            i <= words@.len(),
            ws == words@.map_values(|v: Vec<char>| v@),
            ws == words_of(text@),
            volume_in(ws) == volume_in(ws.skip(i as int)),
        decreases words@.len() - i,
    {
        let w = &words[i];
        proof {
            assert(ws.skip(i as int)[0] == w@);
            assert(ws.skip(i as int).drop_first() =~= ws.skip(i + 1));
        }
        let n = w.len();
        if n > 0 && w[n - 1] == '%' {
            let digits = vstd::slice::slice_subrange(w.as_slice(), 0, n - 1);
            proof { assert(digits@ =~= w@.drop_last()); }
            match parse_u32_chars(digits) {
                Some(v) => return Some(v),
                None => {},
            }
        }
        i += 1;
    }
    None
}

/// Reads the mute state from `pactl get-sink-mute` output.
pub fn muted_from_output(text: &str) -> (r: bool)
    ensures
        r == contains(text@, "yes"@),
{
    let cs = chars_of(text);
    let yes = chars_of("yes");
    contains_chars(cs.as_slice(), yes.as_slice())
}

/// The sinks listed by `pactl list short sinks`: lines with at least two
/// tab-separated columns whose first is a number.
pub open spec fn sinks_in(lines: Seq<Seq<char>>) -> Seq<(u32, Seq<char>)>
    decreases lines.len(),
{
    if lines.len() == 0 {
        Seq::empty()
    } else {
        let cols = split_on(lines[0], '\t');
        let rest = sinks_in(lines.drop_first());
        if cols.len() >= 2 && parse_u32(cols[0]) is Some {
            seq![(parse_u32(cols[0])->Some_0, cols[1])] + rest
        } else {
            rest
        }
    }
}

/// Parse `pactl list short sinks` output into sinks.
pub fn sinks_from_output(text: &str) -> (r: Vec<Sink>)
    ensures
        sinks_view(r@) == sinks_in(lines_of(text@)),
{
    let cs = chars_of(text);
    let lines = lines_chars(cs.as_slice());
    let ghost ls = lines@.map_values(|v: Vec<char>| v@);
    let mut out: Vec<Sink> = Vec::new();
    let mut i: usize = 0;
    proof {
        assert(ls.skip(0) =~= ls);
        assert(sinks_view(out@) + sinks_in(ls) =~= sinks_in(ls));
    }
    while i < lines.len()
        invariant
            i <= lines@.len(),
            ls == lines@.map_values(|v: Vec<char>| v@),
            ls == lines_of(text@),
            sinks_in(ls) == sinks_view(out@) + sinks_in(ls.skip(i as int)),
        decreases lines@.len() - i,
    {
        proof {
            assert(ls.skip(i as int)[0] == lines@[i as int]@);
            assert(ls.skip(i as int).drop_first() =~= ls.skip(i + 1));
        }
        let cols = split_chars(lines[i].as_slice(), '\t');
        let ghost cv = cols@.map_values(|v: Vec<char>| v@);
        if cols.len() >= 2 {
            proof { assert(cv[0] == cols@[0]@ && cv[1] == cols@[1]@); }
            match parse_u32_chars(cols[0].as_slice()) {
                Some(id) => {
                    let ghost old_out = sinks_view(out@);
                    out.push(Sink { id, name: string_of(cols[1].as_slice()) });
                    proof { assert(sinks_view(out@) =~= old_out.push((id, cv[1]))); }
                },
                None => {},
            }
        }
        i += 1;
    }
    proof { assert(ls.skip(i as int) =~= Seq::<Seq<char>>::empty()); }
    out
}

/// First column of every line of `pactl list short sink-inputs`.
pub open spec fn first_columns(lines: Seq<Seq<char>>) -> Seq<Seq<char>> {
    lines.map_values(|l: Seq<char>| split_on(l, '\t')[0])
}

/// The sink-input ids listed by `pactl list short sink-inputs`.
pub fn sink_input_ids(text: &str) -> (r: Vec<String>)
    ensures
        strs_view(r@) == first_columns(lines_of(text@)),
{
    let cs = chars_of(text);
    let lines = lines_chars(cs.as_slice());
    let ghost ls = lines@.map_values(|v: Vec<char>| v@);
    let mut out: Vec<String> = Vec::new();
    let mut i: usize = 0;
    while i < lines.len()
        invariant
            i <= lines@.len(),
            ls == lines@.map_values(|v: Vec<char>| v@),
            ls == lines_of(text@),
            strs_view(out@) == first_columns(ls.take(i as int)),
        decreases lines@.len() - i,
    {
        let cols = split_chars(lines[i].as_slice(), '\t');
        proof {
            lemma_split_nonempty(lines@[i as int]@, '\t');
            assert(cols@.map_values(|v: Vec<char>| v@)[0] == cols@[0]@);
        }
        let id = string_of(cols[0].as_slice());
        let ghost old_out = strs_view(out@);
        out.push(id);
        i += 1;
        proof {
            assert(ls[i - 1] == lines@[i - 1]@);
            assert(split_on(ls[i - 1], '\t')[0] == id@);
            assert(strs_view(out@) =~= old_out.push(id@));
            assert(first_columns(ls.take(i as int)) =~= first_columns(ls.take(i - 1)).push(split_on(ls[i - 1], '\t')[0]));
        }
    }
    proof { assert(ls.take(i as int) =~= ls); }
    out
}

/// Index of the sink after the current default, wrapping; the first sink
/// when the current one is not offered; `None` when nothing is offered.
pub open spec fn next_index(names: Seq<Seq<char>>, current: Seq<char>) -> Option<int> {
    if names.len() == 0 {
        None
    } else if exists|i: int| 0 <= i < names.len() && #[trigger] names[i] == current {
        let i = choose|i: int| 0 <= i < names.len() && #[trigger] names[i] == current
            && forall|j: int| 0 <= j < i ==> names[j] != current;
        Some((i + 1) % names.len() as int)
    } else {
        Some(0)
    }
}

/// Picks the sink to switch to: the one after `current` in `sinks`, wrapping.
pub fn next_sink_index(sinks: &Vec<Sink>, current: &str) -> (r: Option<usize>)
    ensures
        (match r {
            Some(i) => next_index(sinks_view(sinks@).map_values(|s: (u32, Seq<char>)| s.1), current@) == Some(i as int),
            None => next_index(sinks_view(sinks@).map_values(|s: (u32, Seq<char>)| s.1), current@) is None,
        }),
{
    let ghost names = sinks_view(sinks@).map_values(|s: (u32, Seq<char>)| s.1);
    if sinks.len() == 0 {
        return None;
    }
    let cur = current.to_owned();
    let mut i: usize = 0;
    while i < sinks.len()
        invariant
            i <= sinks@.len(),
            names == sinks_view(sinks@).map_values(|s: (u32, Seq<char>)| s.1),
            cur@ == current@,
            forall|j: int| 0 <= j < i ==> #[trigger] names[j] != cur@,
        decreases sinks@.len() - i,
    {
        if sinks[i].name == cur {
            proof {
                assert(names[i as int] == cur@);
                let k = choose|k: int| 0 <= k < names.len() && #[trigger] names[k] == current@
                    && forall|j: int| 0 <= j < k ==> names[j] != current@;
                assert(k == i) by {
                    if k < i {
                        assert(names[k] != cur@);
                    }
                    if k > i {
                        assert(names[i as int] == current@);
                    }
                }
            }
            return Some((i + 1) % sinks.len());
        }
        i += 1;
    }
    Some(0)
}

/// The volume after one step up, capped at the maximum.
pub fn volume_up_target(current: u32) -> (r: u32)
    requires
        current + VOLUME_STEP <= u32::MAX,
    ensures
        r == if current + VOLUME_STEP < MAX_VOLUME { current + VOLUME_STEP } else { MAX_VOLUME as int },
{
    let t = current + VOLUME_STEP;
    if t < MAX_VOLUME { t } else { MAX_VOLUME }
}

pub open spec fn opt_view(o: Option<String>) -> Option<Seq<char>> {
    match o {
        Some(s) => Some(s@),
        None => None,
    }
}

/// The description of the first sink named `name` that has one; the name
/// itself when none has.
pub open spec fn description_in(sinks: Seq<(Option<Seq<char>>, Option<Seq<char>>)>, name: Seq<char>) -> Seq<char>
    decreases sinks.len(),
{
    if sinks.len() == 0 {
        name
    } else if sinks[0].0 == Some(name) && sinks[0].1 is Some {
        sinks[0].1->0
    } else {
        description_in(sinks.drop_first(), name)
    }
}

/// The human-readable description of a sink, from the `(name, description)`
/// fields of `pactl`'s sink records.
pub fn sink_description_in(sinks: &Vec<(Option<String>, Option<String>)>, sink_name: &str) -> (r: String)
    ensures
        r@ == description_in(sinks@.map_values(|p: (Option<String>, Option<String>)| (opt_view(p.0), opt_view(p.1))), sink_name@),
{
    let ghost sv = sinks@.map_values(|p: (Option<String>, Option<String>)| (opt_view(p.0), opt_view(p.1)));
    let want = sink_name.to_owned();
    let mut i: usize = 0;
    proof { assert(sv.skip(0) =~= sv); }
    while i < sinks.len()
        invariant
            i <= sinks@.len(),
            sv == sinks@.map_values(|p: (Option<String>, Option<String>)| (opt_view(p.0), opt_view(p.1))),
            want@ == sink_name@,
            description_in(sv, sink_name@) == description_in(sv.skip(i as int), sink_name@),
        decreases sinks@.len() - i,
    {
        proof {
            assert(sv.skip(i as int)[0] == sv[i as int]);
            assert(sv.skip(i as int).drop_first() =~= sv.skip(i + 1));
        }
        let (n, d) = &sinks[i];
        if let Some(nm) = n {
            if crate::model::string_eq(nm, &want) {
                if let Some(desc) = d {
                    return desc.clone();
                }
            }
        }
        i += 1;
    }
    want
}

} // verus!
