//! Decisions of the small desktop tools: the power menu's actions, the
//! power-profile list, the microphone indicator, and the speech-to-text
//! widget's session naming.

use vstd::prelude::*;
use crate::speech::{drop_lead, drop_trail, trim_by, collapse_dashes, is_dash, untitled_text, LocalDateTime,
    sanitise_session_name};
use crate::text::{chars_of, string_of, trim, trim_chars, is_ws, is_whitespace, lines_of, lines_chars, contains,
    contains_chars, push_char, push_str_chars, push_chars};
use crate::model::string_eq;

verus! {

broadcast use vstd::seq::group_seq_axioms;

/// One entry of the power menu.
pub struct PowerAction {
    pub label: &'static str,
    pub icon: char,
    /// Destructive actions ask for confirmation first.
    pub needs_confirm: bool,
    /// The notification shown when the action runs, empty for none.
    pub notify_msg: &'static str,
}

/// The power menu, in display order.
pub fn power_actions() -> (r: Vec<PowerAction>)
    ensures
        r@.len() == 6,
        r@[0].label@ == "Lock"@ && !r@[0].needs_confirm,
        r@[1].label@ == "Logout"@ && r@[1].needs_confirm,
        r@[2].label@ == "Suspend"@ && !r@[2].needs_confirm,
        r@[3].label@ == "Hibernate"@ && r@[3].needs_confirm,
        r@[4].label@ == "Reboot"@ && r@[4].needs_confirm,
        r@[5].label@ == "Shutdown"@ && r@[5].needs_confirm,
{
    vec![
        PowerAction { label: "Lock", icon: '\u{f023}', needs_confirm: false, notify_msg: "" },
        PowerAction { label: "Logout", icon: '\u{f2f5}', needs_confirm: true, notify_msg: "Logging out of session..." },
        PowerAction { label: "Suspend", icon: '\u{f186}', needs_confirm: false, notify_msg: "" },
        PowerAction { label: "Hibernate", icon: '\u{f7e4}', needs_confirm: true, notify_msg: "System is hibernating..." },
        PowerAction { label: "Reboot", icon: '\u{f01e}', needs_confirm: true, notify_msg: "System is rebooting..." },
        PowerAction { label: "Shutdown", icon: '\u{f011}', needs_confirm: true, notify_msg: "System is powering off..." },
    ]
}

/// The program and argument a power action runs.
pub open spec fn action_command_of(label: Seq<char>) -> Option<(Seq<char>, Seq<char>)> {
    if label == "Lock"@ {
        Some(("i3more-lock"@, ""@))
    } else if label == "Logout"@ {
        Some(("i3-msg"@, "exit"@))
    } else if label == "Reboot"@ {
        Some(("systemctl"@, "reboot"@))
    } else if label == "Shutdown"@ {
        Some(("systemctl"@, "poweroff"@))
    } else if label == "Suspend"@ {
        Some(("systemctl"@, "suspend"@))
    } else if label == "Hibernate"@ {
        Some(("systemctl"@, "hibernate"@))
    } else {
        None
    }
}

/// The command of a power action: program and argument (empty for none).
pub fn run_action(label: &str) -> (r: Option<(&'static str, &'static str)>)
    ensures
        (match r {
            Some(p) => action_command_of(label@) == Some((p.0@, p.1@)),
            None => action_command_of(label@) is None,
        }),
{
    let l = chars_of(label);
    let s = l.as_slice();
    if crate::text::chars_eq(s, chars_of("Lock").as_slice()) {
        Some(("i3more-lock", ""))
    } else if crate::text::chars_eq(s, chars_of("Logout").as_slice()) {
        Some(("i3-msg", "exit"))
    } else if crate::text::chars_eq(s, chars_of("Reboot").as_slice()) {
        Some(("systemctl", "reboot"))
    } else if crate::text::chars_eq(s, chars_of("Shutdown").as_slice()) {
        Some(("systemctl", "poweroff"))
    } else if crate::text::chars_eq(s, chars_of("Suspend").as_slice()) {
        Some(("systemctl", "suspend"))
    } else if crate::text::chars_eq(s, chars_of("Hibernate").as_slice()) {
        Some(("systemctl", "hibernate"))
    } else {
        None
    }
}

/// A power profile and whether it is the active one.
pub struct Profile {
    pub name: String,
    pub active: bool,
}

pub open spec fn is_star() -> spec_fn(char) -> bool {
    |c: char| c == '*'
}

pub open spec fn is_colon() -> spec_fn(char) -> bool {
    |c: char| c == ':'
}

/// The profile of a `powerprofilesctl list` line: a trimmed line ending in
/// `:`, active when it starts with `*`, named by what remains without the
/// stars, surrounding whitespace and trailing colons.
pub open spec fn profile_of(line: Seq<char>) -> Option<(Seq<char>, bool)> {
    let t = trim(line);
    if t.len() > 0 && t.last() == ':' {
        let name = drop_trail(trim(drop_lead(t, is_star())), is_colon());
        if name.len() > 0 { Some((name, t[0] == '*')) } else { None }
    } else {
        None
    }
}

/// The profiles of the lines, in order.
pub open spec fn profiles_of(lines: Seq<Seq<char>>) -> Seq<(Seq<char>, bool)>
    decreases lines.len(),
{
    if lines.len() == 0 {
        Seq::empty()
    } else {
        let r = profiles_of(lines.drop_last());
        match profile_of(lines.last()) {
            Some(p) => r.push(p),
            None => r,
        }
    }
}

pub open spec fn profiles_view(v: Seq<Profile>) -> Seq<(Seq<char>, bool)> {
    v.map_values(|p: Profile| (p.name@, p.active))
}

/// `s` without leading `c`.
fn drop_lead_char(s: &Vec<char>, c: char) -> (r: Vec<char>)
    ensures
        c == '*' ==> r@ == drop_lead(s@, is_star()),
        c == ':' ==> r@ == drop_lead(s@, is_colon()),
{
    let mut a: usize = 0;
    proof { assert(s@.skip(0) =~= s@); }
    while a < s.len() && s[a] == c
        invariant
            a <= s@.len(),
            c == '*' ==> drop_lead(s@, is_star()) == drop_lead(s@.skip(a as int), is_star()),
            c == ':' ==> drop_lead(s@, is_colon()) == drop_lead(s@.skip(a as int), is_colon()),
        decreases s@.len() - a,
    {
        proof {
            assert(s@.skip(a as int)[0] == s@[a as int]);
            assert(s@.skip(a as int).drop_first() =~= s@.skip(a + 1));
        }
        a += 1;
    }
    proof {
        if a < s@.len() {
            assert(s@.skip(a as int)[0] == s@[a as int]);
        } else {
            assert(s@.skip(a as int) =~= Seq::<char>::empty());
        }
    }
    let r = vstd::slice::slice_to_vec(vstd::slice::slice_subrange(s.as_slice(), a, s.len()));
    proof { assert(r@ =~= s@.skip(a as int)); }
    r
}

/// `s` without trailing colons.
fn drop_trail_colons(s: &Vec<char>) -> (r: Vec<char>)
    ensures
        r@ == drop_trail(s@, is_colon()),
{
    let mut b: usize = s.len();
    proof { assert(s@.take(s@.len() as int) =~= s@); }
    while b > 0 && s[b - 1] == ':'
        invariant
            b <= s@.len(),
            drop_trail(s@, is_colon()) == drop_trail(s@.take(b as int), is_colon()),
        decreases b,
    {
        proof {
            assert(s@.take(b as int).last() == s@[b - 1]);
            assert(s@.take(b as int).drop_last() =~= s@.take(b - 1));
        }
        b -= 1;
    }
    proof {
        if b > 0 {
            assert(s@.take(b as int).last() == s@[b - 1]);
        }
    }
    let r = vstd::slice::slice_to_vec(vstd::slice::slice_subrange(s.as_slice(), 0, b));
    proof { assert(r@ =~= s@.take(b as int)); }
    r
}

/// The profiles listed by `powerprofilesctl list`.
pub fn read_profiles(output: &str) -> (r: Vec<Profile>)
    ensures
        profiles_view(r@) == profiles_of(lines_of(output@)),
{
    let lines = lines_chars(chars_of(output).as_slice());
    let ghost lv = lines@.map_values(|l: Vec<char>| l@);
    let mut out: Vec<Profile> = Vec::new();
    let mut i: usize = 0;
    while i < lines.len()
        invariant
            i <= lines@.len(),
            lv == lines@.map_values(|l: Vec<char>| l@),
            lv == lines_of(output@),
            profiles_view(out@) == profiles_of(lv.take(i as int)),
        decreases lines@.len() - i,
    {
        proof {
            assert(lv.take(i + 1).drop_last() =~= lv.take(i as int));
            assert(lv.take(i + 1).last() == lines@[i as int]@);
        }
        let t = trim_chars(lines[i].as_slice());
        if t.len() > 0 && t[t.len() - 1] == ':' {
            let active = t[0] == '*';
            let n0 = drop_lead_char(&t, '*');
            let n1 = trim_chars(n0.as_slice());
            let name = drop_trail_colons(&n1);
            if name.len() > 0 {
                let ghost before = profiles_view(out@);
                out.push(Profile { name: string_of(name.as_slice()), active });
                proof { assert(profiles_view(out@) =~= before.push((name@, active))); }
            }
        }
        i += 1;
    }
    proof { assert(lv.take(i as int) =~= lv); }
    out
}

/// Whether some source is a real microphone (not a `.monitor` of a sink).
pub open spec fn real_source(names: Seq<Seq<char>>) -> bool {
    exists|i: int| 0 <= i < names.len() && !contains(#[trigger] names[i], ".monitor"@)
}

/// Whether the sources include a real microphone.
pub fn has_real_source(names: &[String]) -> (r: bool)
    ensures
        r == real_source(names@.map_values(|s: String| s@)),
{
    let ghost nv = names@.map_values(|s: String| s@);
    let pat = chars_of(".monitor");
    let mut i: usize = 0;
    while i < names.len()
        invariant
            i <= names@.len(),
            nv == names@.map_values(|s: String| s@),
            pat@ == ".monitor"@,
            forall|j: int| 0 <= j < i ==> contains(#[trigger] nv[j], ".monitor"@),
        decreases names@.len() - i,
    {
        if !contains_chars(chars_of(names[i].as_str()).as_slice(), pat.as_slice()) {
            proof { assert(!contains(nv[i as int], ".monitor"@)); }
            return true;
        }
        i += 1;
    }
    false
}

/// The description of the default source among `(name, description)`
/// records: scanning in order, a record without a name ends the search.
pub open spec fn source_description(items: Seq<(Option<Seq<char>>, Option<Seq<char>>)>, default_name: Seq<char>)
    -> Option<Seq<char>>
    decreases items.len(),
{
    if items.len() == 0 {
        None
    } else {
        match items[0].0 {
            None => None,
            Some(n) => if n == default_name { items[0].1 } else { source_description(items.drop_first(), default_name) },
        }
    }
}

pub open spec fn opt_view(o: Option<String>) -> Option<Seq<char>> {
    match o {
        Some(s) => Some(s@),
        None => None,
    }
}

pub open spec fn items_view(v: Seq<(Option<String>, Option<String>)>) -> Seq<(Option<Seq<char>>, Option<Seq<char>>)> {
    v.map_values(|p: (Option<String>, Option<String>)| (opt_view(p.0), opt_view(p.1)))
}

/// The description of the default source.
pub fn default_source_description(items: &[(Option<String>, Option<String>)], default_name: &str) -> (r: Option<String>)
    ensures
        opt_view(r) == source_description(items_view(items@), default_name@),
{
    let ghost iv = items_view(items@);
    let d = chars_of(default_name);
    let mut i: usize = 0;
    proof { assert(iv.skip(0) =~= iv); }
    while i < items.len()
        invariant
            i <= items@.len(),
            iv == items_view(items@),
            d@ == default_name@,
            source_description(iv, default_name@) == source_description(iv.skip(i as int), default_name@),
        decreases items@.len() - i,
    {
        proof {
            assert(iv.skip(i as int)[0] == iv[i as int]);
            assert(iv.skip(i as int).drop_first() =~= iv.skip(i + 1));
        }
        match &items[i].0 {
            None => return None,
            Some(n) => {
                if crate::text::chars_eq(chars_of(n.as_str()).as_slice(), d.as_slice()) {
                    return match &items[i].1 {
                        Some(desc) => Some(desc.clone()),
                        None => None,
                    };
                }
            },
        }
        i += 1;
    }
    proof { assert(iv.skip(i as int) =~= Seq::<(Option<Seq<char>>, Option<Seq<char>>)>::empty()); }
    None
}

/// The microphone tooltip: the source's description and its state, or a
/// generic label.
pub open spec fn tooltip_text(muted: bool, desc: Option<Seq<char>>) -> Seq<char> {
    let state = if muted { "Muted"@ } else { "Active"@ };
    match desc {
        Some(d) => d + "\n"@ + state,
        None => "Microphone: "@ + state,
    }
}

/// The tooltip of the microphone indicator.
pub fn mic_tooltip(muted: bool, description: Option<String>) -> (r: String)
    ensures
        r@ == tooltip_text(muted, opt_view(description)),
{
    let state = if muted { "Muted" } else { "Active" };
    let mut s = String::new();
    match description {
        Some(d) => {
            push_str_chars(&mut s, d.as_str());
            push_str_chars(&mut s, "\n");
            push_str_chars(&mut s, state);
        },
        None => {
            push_str_chars(&mut s, "Microphone: ");
            push_str_chars(&mut s, state);
        },
    }
    s
}

/// What a `pactl subscribe` line signals to the indicator: a source or
/// server change, and a source added or removed.
pub open spec fn mic_events_of(line: Seq<char>) -> (bool, bool) {
    (contains(line, "'change' on source"@) || contains(line, "'change' on server"@),
        contains(line, "'new' on source"@) || contains(line, "'remove' on source"@))
}

/// `(source changed, device list changed)` for a `pactl subscribe` line.
pub fn mic_events(line: &str) -> (r: (bool, bool))
    ensures
        r == mic_events_of(line@),
{
    let l = chars_of(line);
    let s = l.as_slice();
    let changed = contains_chars(s, chars_of("'change' on source").as_slice())
        || contains_chars(s, chars_of("'change' on server").as_slice());
    let listed = contains_chars(s, chars_of("'new' on source").as_slice())
        || contains_chars(s, chars_of("'remove' on source").as_slice());
    (changed, listed)
}

/// The widget's name filter: safe characters kept, whitespace becomes `-`,
/// anything else dropped; runs of `-` collapse and `-` is trimmed.
pub open spec fn widget_kept(s: Seq<char>) -> Seq<char>
    decreases s.len(),
{
    if s.len() == 0 {
        Seq::empty()
    } else {
        let r = widget_kept(s.drop_last());
        let c = s.last();
        if crate::speech::name_safe(c) { r.push(c) } else if is_ws(c) { r.push('-') } else { r }
    }
}

pub open spec fn widget_sanitised(s: Seq<char>) -> Seq<char> {
    trim_by(collapse_dashes(widget_kept(s)), is_dash())
}

/// The session-name filter of the speech widget.
pub fn sanitise(s: &str) -> (r: String)
    ensures
        r@ == widget_sanitised(s@),
{
    let cs = chars_of(s);
    let mut kept: Vec<char> = Vec::new();
    let mut i: usize = 0;
    while i < cs.len()
        invariant
            i <= cs@.len(),
            cs@ == s@,
            kept@ == widget_kept(cs@.take(i as int)),
        decreases cs@.len() - i,
    {
        let c = cs[i];
        proof {
            assert(cs@.take(i + 1).drop_last() =~= cs@.take(i as int));
            assert(cs@.take(i + 1).last() == c);
        }
        if ('a' <= c && c <= 'z') || ('A' <= c && c <= 'Z') || ('0' <= c && c <= '9') || c == '.' || c == '_' || c == '-' {
            kept.push(c);
        } else if is_whitespace(c) {
            kept.push('-');
        }
        i += 1;
    }
    proof { assert(cs@.take(i as int) =~= s@); }
    let mut out: Vec<char> = Vec::new();
    let mut k: usize = 0;
    while k < kept.len()
        invariant
            k <= kept@.len(),
            out@ == collapse_dashes(kept@.take(k as int)),
            k > 0 ==> (out@.len() > 0 && out@.last() == kept@[k - 1]),
        decreases kept@.len() - k,
    {
        let c = kept[k];
        proof {
            assert(kept@.take(k + 1).drop_last() =~= kept@.take(k as int));
            assert(kept@.take(k + 1).last() == c);
            if k > 0 {
                assert(kept@.take(k + 1)[k - 1] == kept@[k - 1]);
            }
        }
        let prev_dash = k > 0 && kept[k - 1] == '-';
        if !(c == '-' && prev_dash) {
            out.push(c);
        }
        k += 1;
    }
    proof { assert(kept@.take(k as int) =~= kept@); }
    let t = trim_dashes_vec(&out);
    string_of(t.as_slice())
}

fn trim_dashes_vec(s: &Vec<char>) -> (r: Vec<char>)
    ensures
        r@ == trim_by(s@, is_dash()),
{
    let mut a: usize = 0;
    proof { assert(s@.skip(0) =~= s@); }
    while a < s.len() && s[a] == '-'
        invariant
            a <= s@.len(),
            drop_lead(s@, is_dash()) == drop_lead(s@.skip(a as int), is_dash()),
        decreases s@.len() - a,
    {
        proof {
            assert(s@.skip(a as int)[0] == s@[a as int]);
            assert(s@.skip(a as int).drop_first() =~= s@.skip(a + 1));
        }
        a += 1;
    }
    proof {
        if a < s@.len() {
            assert(s@.skip(a as int)[0] == s@[a as int]);
        } else {
            assert(s@.skip(a as int) =~= Seq::<char>::empty());
        }
    }
    let ghost l = s@.skip(a as int);
    let mut b: usize = s.len();
    proof { assert(l.take(l.len() as int) =~= l); }
    while b > a && s[b - 1] == '-'
        invariant
            a <= b <= s@.len(),
            l == s@.skip(a as int),
            drop_trail(l, is_dash()) == drop_trail(l.take(b - a), is_dash()),
        decreases b,
    {
        proof {
            assert(l.take(b - a).last() == s@[b - 1]);
            assert(l.take(b - a).drop_last() =~= l.take(b - 1 - a));
        }
        b -= 1;
    }
    proof {
        if b > a {
            assert(l.take(b - a).last() == s@[b - 1]);
        }
    }
    let r = vstd::slice::slice_to_vec(vstd::slice::slice_subrange(s.as_slice(), a, b));
    proof { assert(r@ =~= l.take(b - a)); }
    r
}

/// The session name the widget shows and passes on: the filtered name, or
/// `untitled-YYYY-MM-DD-HH-MM` of `now` when nothing is left.
pub open spec fn resolved_name(raw: Seq<char>, now: LocalDateTime) -> Seq<char> {
    if widget_sanitised(raw).len() > 0 { widget_sanitised(raw) } else { untitled_text(now) }
}

/// The session name for what the user typed, at local time `now`.
pub fn resolve_session_name(raw: &str, now: LocalDateTime) -> (r: String)
    ensures
        r@ == resolved_name(raw@, now),
{
    let s = sanitise(raw);
    if chars_of(s.as_str()).len() > 0 {
        return s;
    }
    let meta = crate::speech::SessionMeta::new(None, now);
    meta.name
}

/// A one-line preview: newlines become spaces; beyond `n` characters the
/// text is cut and ends with `…`.
pub open spec fn short_text(s: Seq<char>, n: usize) -> Seq<char> {
    let one = s.map_values(|c: char| if c == '\n' { ' ' } else { c });
    if one.len() <= n { one } else { one.take(n as int).push('…') }
}

/// A one-line preview of at most `n` characters (and the ellipsis).
pub fn short(s: &str, n: usize) -> (r: String)
    ensures
        r@ == short_text(s@, n),
{
    let cs = chars_of(s);
    let mut one: Vec<char> = Vec::new();
    let mut i: usize = 0;
    while i < cs.len()
        invariant
            i <= cs@.len(),
            cs@ == s@,
            one@ == cs@.take(i as int).map_values(|c: char| if c == '\n' { ' ' } else { c }),
        decreases cs@.len() - i,
    {
        one.push(if cs[i] == '\n' { ' ' } else { cs[i] });
        i += 1;
        proof {
            assert(one@ =~= cs@.take(i as int).map_values(|c: char| if c == '\n' { ' ' } else { c }));
        }
    }
    proof { assert(cs@.take(i as int) =~= s@); }
    if one.len() <= n {
        return string_of(one.as_slice());
    }
    let mut r = string_of(vstd::slice::slice_subrange(one.as_slice(), 0, n));
    push_char(&mut r, '…');
    proof { assert(r@ =~= one@.take(n as int).push('…')); }
    r
}

/// The microphone glyph: struck through in red while muted, green otherwise.
pub open spec fn mic_icon_text(muted: bool) -> Seq<char> {
    crate::fa::fa_markup(if muted { crate::fa::MICROPHONE_SLASH } else { crate::fa::MICROPHONE },
        if muted { "#fb4934"@ } else { "#b8bb26"@ }, 11)
}

pub fn mic_icon_markup(muted: bool) -> (r: String)
    ensures
        r@ == mic_icon_text(muted),
{
    if muted {
        crate::fa::fa_icon(crate::fa::MICROPHONE_SLASH, "#fb4934", 11)
    } else {
        crate::fa::fa_icon(crate::fa::MICROPHONE, "#b8bb26", 11)
    }
}

} // verus!
