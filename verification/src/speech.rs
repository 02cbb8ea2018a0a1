//! Speech-to-text session logic: session names and transcript paths, the
//! sliding-window bookkeeping of the transcription worker, and the text
//! rules it applies to what the recogniser returns.
//!
//! The worker captures 16 kHz audio into a window of the last `length_ms`;
//! every `step_ms` it transcribes the window. While the speaker talks, only
//! the new suffix of the transcript is emitted as provisional; when speech
//! ends (or the window falls silent) the text is committed as final and the
//! window restarts. Audio capture, voice-activity detection and inference
//! stay with the caller.

use vstd::prelude::*;
use crate::text::{
    is_ws, is_whitespace, decimal, decimal_chars, push_chars, push_str_chars, chars_of, string_of,
    starts_with, starts_with_chars, lowercase, to_lowercase, chars_eq, lead_ws,
};

verus! {

broadcast use vstd::seq::group_seq_axioms;

/// Sample rate of the captured audio, in Hz.
pub const SAMPLE_RATE: u32 = 16_000;

/// Whether a segment may still change or is committed.
#[derive(Debug, Clone, Copy, PartialEq, Eq, Structural)]
pub enum SegmentKind {
    /// Mid-utterance; the text may be extended or revised by the next step.
    Provisional,
    /// The speaker paused; the text is final, written to the transcript and
    /// translated.
    Final,
}

/// One transcribed piece of text.
pub struct Segment {
    /// When the audio finished being captured, in seconds since the epoch.
    pub at_secs: u64,
    pub text: String,
    /// The translation, for final segments when translation is on.
    pub translation: Option<String>,
    pub kind: SegmentKind,
}

/// `s` without its leading characters that satisfy `p`.
pub open spec fn drop_lead(s: Seq<char>, p: spec_fn(char) -> bool) -> Seq<char>
    decreases s.len(),
{
    if s.len() > 0 && p(s[0]) { drop_lead(s.drop_first(), p) } else { s }
}

/// `s` without its trailing characters that satisfy `p`.
pub open spec fn drop_trail(s: Seq<char>, p: spec_fn(char) -> bool) -> Seq<char>
    decreases s.len(),
{
    if s.len() > 0 && p(s.last()) { drop_trail(s.drop_last(), p) } else { s }
}

/// `str::trim_matches` with a predicate.
pub open spec fn trim_by(s: Seq<char>, p: spec_fn(char) -> bool) -> Seq<char> {
    drop_trail(drop_lead(s, p), p)
}

/// A character kept in a session name: ASCII letters and digits, `.`, `_`, `-`.
pub open spec fn name_safe(c: char) -> bool {
    ('a' <= c && c <= 'z') || ('A' <= c && c <= 'Z') || ('0' <= c && c <= '9') || c == '.' || c == '_' || c == '-'
}

/// Every unsafe character replaced by `-`.
pub open spec fn dash_unsafe(s: Seq<char>) -> Seq<char> {
    s.map_values(|c: char| if name_safe(c) { c } else { '-' })
}

/// Runs of `-` collapsed to one.
pub open spec fn collapse_dashes(s: Seq<char>) -> Seq<char>
    decreases s.len(),
{
    if s.len() == 0 {
        Seq::empty()
    } else {
        let r = collapse_dashes(s.drop_last());
        if s.last() == '-' && s.len() >= 2 && s[s.len() - 2] == '-' { r } else { r.push(s.last()) }
    }
}

pub open spec fn is_dash() -> spec_fn(char) -> bool {
    |c: char| c == '-'
}

/// A filesystem-safe session name: unsafe characters become `-`, runs of `-`
/// collapse, and `-` is trimmed from both ends.
pub open spec fn sanitised(s: Seq<char>) -> Seq<char> {
    trim_by(collapse_dashes(dash_unsafe(s)), is_dash())
}

fn name_safe_exec(c: char) -> (r: bool)
    ensures
        r == name_safe(c),
{
    ('a' <= c && c <= 'z') || ('A' <= c && c <= 'Z') || ('0' <= c && c <= '9') || c == '.' || c == '_' || c == '-'
}

/// `trim_matches('-')` on characters.
fn trim_dashes(s: &Vec<char>) -> (r: Vec<char>)
    ensures
        r@ == trim_by(s@, is_dash()),
{
    let mut a: usize = 0;
    proof { assert(s@.skip(0) =~= s@); }
    while a < s.len() && s[a] == '-'
        invariant
            a <= s@.len(),
            drop_lead(s@, is_dash()) == drop_lead(s@.skip(a as int), is_dash()),
        decreases s@.len() - a,
    {
        proof {
            assert(s@.skip(a as int)[0] == s@[a as int]);
            assert(s@.skip(a as int).drop_first() =~= s@.skip(a + 1));
        }
        a += 1;
    }
    proof {
        if a < s@.len() {
            assert(s@.skip(a as int)[0] == s@[a as int]);
        } else {
            assert(s@.skip(a as int) =~= Seq::<char>::empty());
        }
    }
    let ghost l = s@.skip(a as int);
    let mut b: usize = s.len();
    proof { assert(l.take(l.len() as int) =~= l); }
    while b > a && s[b - 1] == '-'
        invariant
            a <= b <= s@.len(),
            l == s@.skip(a as int),
            drop_trail(l, is_dash()) == drop_trail(l.take(b - a), is_dash()),
        decreases b,
    {
        proof {
            assert(l.take(b - a).last() == s@[b - 1]);
            assert(l.take(b - a).drop_last() =~= l.take(b - 1 - a));
        }
        b -= 1;
    }
    proof {
        if b > a {
            assert(l.take(b - a).last() == s@[b - 1]);
        }
    }
    let r = vstd::slice::slice_to_vec(vstd::slice::slice_subrange(s.as_slice(), a, b));
    proof { assert(r@ =~= l.take(b - a)); }
    r
}

/// Replace path-unsafe characters with `-`, keeping `[A-Za-z0-9._-]`;
/// collapse runs of `-` and trim them from the ends.
pub fn sanitise_session_name(s: &str) -> (r: String)
    ensures
        r@ == sanitised(s@),
{
    let cs = chars_of(s);
    let mut out: Vec<char> = Vec::new();
    let mut i: usize = 0;
    while i < cs.len()
        invariant
            i <= cs@.len(),
            cs@ == s@,
            out@ == collapse_dashes(dash_unsafe(cs@.take(i as int))),
            i > 0 ==> (out@.len() > 0 && out@.last() == dash_unsafe(cs@.take(i as int)).last()),
        decreases cs@.len() - i,
    {
        let c = if name_safe_exec(cs[i]) { cs[i] } else { '-' };
        let ghost m = dash_unsafe(cs@.take(i + 1));
        proof {
            assert(m.drop_last() =~= dash_unsafe(cs@.take(i as int)));
            assert(m.last() == c);
            if i > 0 {
                assert(m[m.len() - 2] == dash_unsafe(cs@.take(i as int)).last());
            }
        }
        let prev_dash = i > 0 && out[out.len() - 1] == '-';
        if !(c == '-' && prev_dash) {
            out.push(c);
        }
        i += 1;
    }
    proof { assert(cs@.take(i as int) =~= s@); }
    let t = trim_dashes(&out);
    string_of(t.as_slice())
}

/// The suffix of `new` beyond `prev`, with leading whitespace trimmed, when
/// `new` extends `prev`; otherwise all of `new` (the recogniser revised
/// earlier text).
pub open spec fn new_suffix(new: Seq<char>, prev: Seq<char>) -> Seq<char> {
    if prev.len() == 0 {
        new
    } else if starts_with(new, prev) {
        let rest = new.skip(prev.len() as int);
        rest.skip(lead_ws(rest) as int)
    } else {
        new
    }
}

/// The part of `new` that `prev` did not already show.
pub fn strip_common_prefix(new: &str, prev: &str) -> (r: String)
    ensures
        r@ == new_suffix(new@, prev@),
{
    let n = chars_of(new);
    let p = chars_of(prev);
    if p.len() == 0 || !starts_with_chars(n.as_slice(), p.as_slice()) {
        return string_of(n.as_slice());
    }
    let ghost rest = n@.skip(p@.len() as int);
    let mut a: usize = p.len();
    proof {
        crate::text::lemma_lead_ws(rest);
        assert(rest.skip(0) =~= rest);
    }
    while a < n.len() && is_whitespace(n[a])
        invariant
            p@.len() <= a <= n@.len(),
            rest == n@.skip(p@.len() as int),
            a - p@.len() <= lead_ws(rest),
            forall|i: int| 0 <= i < lead_ws(rest) ==> is_ws(#[trigger] rest[i]),
            lead_ws(rest) < rest.len() ==> !is_ws(rest[lead_ws(rest) as int]),
            lead_ws(rest) <= rest.len(),
        decreases n@.len() - a,
    {
        proof { assert(rest[a - p@.len()] == n@[a as int]); }
        a += 1;
    }
    proof {
        if a < n@.len() {
            assert(rest[a - p@.len()] == n@[a as int]);
        }
        assert(a - p@.len() == lead_ws(rest));
    }
    let r = string_of(vstd::slice::slice_subrange(n.as_slice(), a, n.len()));
    proof { assert(r@ =~= rest.skip(lead_ws(rest) as int)); }
    r
}

/// A bracket, parenthesis, asterisk or whitespace.
pub open spec fn annotation_char() -> spec_fn(char) -> bool {
    |c: char| c == '[' || c == ']' || c == '(' || c == ')' || c == '*' || is_ws(c)
}

/// The annotation words the recogniser produces on silence.
pub open spec fn noise_words() -> Seq<Seq<char>> {
    seq!["musik"@, "music"@, "applaus"@, "applause"@, "geräusche"@, "geräusch"@, "lachen"@, "schweigen"@,
        "..."@, ""@]
}

/// Whether a transcript is only a bracketed annotation such as `[Musik]`.
pub open spec fn hallucination(text: Seq<char>) -> bool {
    noise_words().contains(lowercase(trim_by(crate::text::trim(text), annotation_char())))
}

fn annotation_exec(c: char) -> (r: bool)
    ensures
        r == annotation_char()(c),
{
    c == '[' || c == ']' || c == '(' || c == ')' || c == '*' || is_whitespace(c)
}

/// `trim_matches` of annotation characters.
fn trim_annotation(s: &Vec<char>) -> (r: Vec<char>)
    ensures
        r@ == trim_by(s@, annotation_char()),
{
    let mut a: usize = 0;
    proof { assert(s@.skip(0) =~= s@); }
    while a < s.len() && annotation_exec(s[a])
        invariant
            a <= s@.len(),
            drop_lead(s@, annotation_char()) == drop_lead(s@.skip(a as int), annotation_char()),
        decreases s@.len() - a,
    {
        proof {
            assert(s@.skip(a as int)[0] == s@[a as int]);
            assert(s@.skip(a as int).drop_first() =~= s@.skip(a + 1));
        }
        a += 1;
    }
    proof {
        if a < s@.len() {
            assert(s@.skip(a as int)[0] == s@[a as int]);
        } else {
            assert(s@.skip(a as int) =~= Seq::<char>::empty());
        }
    }
    let ghost l = s@.skip(a as int);
    let mut b: usize = s.len();
    proof { assert(l.take(l.len() as int) =~= l); }
    while b > a && annotation_exec(s[b - 1])
        invariant
            a <= b <= s@.len(),
            l == s@.skip(a as int),
            drop_trail(l, annotation_char()) == drop_trail(l.take(b - a), annotation_char()),
        decreases b,
    {
        proof {
            assert(l.take(b - a).last() == s@[b - 1]);
            assert(l.take(b - a).drop_last() =~= l.take(b - 1 - a));
        }
        b -= 1;
    }
    proof {
        if b > a {
            assert(l.take(b - a).last() == s@[b - 1]);
        }
    }
    let r = vstd::slice::slice_to_vec(vstd::slice::slice_subrange(s.as_slice(), a, b));
    proof { assert(r@ =~= l.take(b - a)); }
    r
}

/// Whether the transcript is a known silence annotation ("[Musik]",
/// "(Applause)", "* Musik *", or nothing).
pub fn is_hallucination(text: &str) -> (r: bool)
    ensures
        r == hallucination(text@),
{
    let t = crate::text::trim_chars(chars_of(text).as_slice());
    let stripped = trim_annotation(&t);
    let s = string_of(stripped.as_slice());
    let lower = to_lowercase(s.as_str());
    let l = chars_of(lower.as_str());
    let words: [&str; 10] = ["musik", "music", "applaus", "applause", "geräusche", "geräusch", "lachen", "schweigen", "...", ""];
    let ghost nw = noise_words();
    let mut i: usize = 0;
    proof {
        assert(nw.len() == 10);
        assert(words@.map_values(|w: &str| w@) =~= nw);
    }
    while i < 10
        invariant
            i <= 10,
            nw == noise_words(),
            nw.len() == 10,
            words@.map_values(|w: &str| w@) == nw,
            l@ == lowercase(trim_by(crate::text::trim(text@), annotation_char())),
            forall|j: int| 0 <= j < i ==> nw[j] != l@,
        decreases 10 - i,
    {
        let w = chars_of(words[i]);
        proof { assert(words@.map_values(|w: &str| w@)[i as int] == words@[i as int]@); }
        if chars_eq(l.as_slice(), w.as_slice()) {
            proof { assert(nw[i as int] == l@); }
            return true;
        }
        i += 1;
    }
    proof {
        if nw.contains(l@) {
            let j = choose|j: int| 0 <= j < nw.len() && nw[j] == l@;
            assert(false);
        }
    }
    false
}

/// A local broken-down time.
#[derive(Debug, Clone, Copy, PartialEq, Eq, Structural)]
pub struct LocalDateTime {
    pub year: i32,
    pub month: u32,
    pub day: u32,
    pub hour: u32,
    pub minute: u32,
    pub second: u32,
}

/// `d` zero-padded to `w` characters.
pub open spec fn zero_pad(d: Seq<char>, w: nat) -> Seq<char> {
    if d.len() < w { Seq::new((w - d.len()) as nat, |i: int| '0') + d } else { d }
}

/// `{:02}` of an unsigned number.
pub open spec fn pad2(n: u32) -> Seq<char> {
    zero_pad(decimal(n as nat), 2)
}

/// `{:04}` of a year: zero padding after the sign, four characters in all.
pub open spec fn pad4(y: i32) -> Seq<char> {
    if y < 0 { seq!['-'] + zero_pad(decimal((-y) as nat), 3) } else { zero_pad(decimal(y as nat), 4) }
}

/// `YYYY-MM-DD`.
pub open spec fn date_text(d: LocalDateTime) -> Seq<char> {
    pad4(d.year) + "-"@ + pad2(d.month) + "-"@ + pad2(d.day)
}

/// `HH:MM:SS`.
pub open spec fn hms_text(d: LocalDateTime) -> Seq<char> {
    pad2(d.hour) + ":"@ + pad2(d.minute) + ":"@ + pad2(d.second)
}

/// `YYYY-MM-DDTHH:MM:SS`.
pub open spec fn iso_text(d: LocalDateTime) -> Seq<char> {
    date_text(d) + "T"@ + hms_text(d)
}

/// `untitled-YYYY-MM-DD-HH-MM`.
pub open spec fn untitled_text(d: LocalDateTime) -> Seq<char> {
    "untitled-"@ + date_text(d) + "-"@ + pad2(d.hour) + "-"@ + pad2(d.minute)
}

fn push_padded(s: &mut String, digits: Vec<char>, w: usize)
    ensures
        final(s)@ == old(s)@ + zero_pad(digits@, w as nat),
{
    let ghost s0 = s@;
    let mut k: usize = digits.len();
    let ghost zeros: Seq<char> = if digits@.len() < w { Seq::new((w - digits@.len()) as nat, |i: int| '0') } else { Seq::empty() };
    let mut n: usize = 0;
    while k < w
        invariant
            digits@.len() <= k <= w || (k == digits@.len() && k >= w),
            n == k - digits@.len(),
            s@ == s0 + Seq::new(n as nat, |i: int| '0'),
        decreases w - k,
    {
        crate::text::push_char(s, '0');
        proof { assert(s@ =~= s0 + Seq::new((n + 1) as nat, |i: int| '0')); }
        k += 1;
        n += 1;
    }
    push_chars(s, digits.as_slice());
    proof {
        if digits@.len() < w {
            assert(s@ =~= s0 + (Seq::new((w - digits@.len()) as nat, |i: int| '0') + digits@));
        } else {
            assert(s@ =~= s0 + digits@);
        }
    }
}

fn push_pad2(s: &mut String, n: u32)
    ensures
        final(s)@ == old(s)@ + pad2(n),
{
    push_padded(s, decimal_chars(n as u64), 2);
}

fn push_pad4(s: &mut String, y: i32)
    ensures
        final(s)@ == old(s)@ + pad4(y),
{
    if y < 0 {
        let ghost s0 = s@;
        crate::text::push_char(s, '-');
        let m: i64 = -(y as i64);
        push_padded(s, decimal_chars(m as u64), 3);
        proof { assert(s@ =~= s0 + (seq!['-'] + zero_pad(decimal((-y) as nat), 3))); }
    } else {
        push_padded(s, decimal_chars(y as u64), 4);
    }
}

fn push_date(s: &mut String, d: &LocalDateTime)
    ensures
        final(s)@ == old(s)@ + date_text(*d),
{
    let ghost s0 = s@;
    push_pad4(s, d.year);
    push_str_chars(s, "-");
    push_pad2(s, d.month);
    push_str_chars(s, "-");
    push_pad2(s, d.day);
    proof { assert(s@ =~= s0 + date_text(*d)); }
}

fn push_hms(s: &mut String, d: &LocalDateTime)
    ensures
        final(s)@ == old(s)@ + hms_text(*d),
{
    let ghost s0 = s@;
    push_pad2(s, d.hour);
    push_str_chars(s, ":");
    push_pad2(s, d.minute);
    push_str_chars(s, ":");
    push_pad2(s, d.second);
    proof { assert(s@ =~= s0 + hms_text(*d)); }
}

/// `YYYY-MM-DDTHH:MM:SS` of a local time, for the transcript's front matter.
pub fn iso_local(d: &LocalDateTime) -> (r: String)
    ensures
        r@ == iso_text(*d),
{
    let mut s = String::new();
    push_date(&mut s, d);
    push_str_chars(&mut s, "T");
    push_hms(&mut s, d);
    proof { assert(s@ =~= iso_text(*d)); }
    s
}

/// `HH:MM:SS` of a local time, for transcript lines.
pub fn hms_local(d: &LocalDateTime) -> (r: String)
    ensures
        r@ == hms_text(*d),
{
    let mut s = String::new();
    push_hms(&mut s, d);
    proof { assert(s@ =~= hms_text(*d)); }
    s
}

/// A capture session: its file-safe name and its local start time.
pub struct SessionMeta {
    pub name: String,
    pub started_at: LocalDateTime,
}

/// The session name for a user-supplied name: trimmed and sanitised, or
/// `untitled-YYYY-MM-DD-HH-MM` when absent or blank.
pub open spec fn session_name(name: Option<Seq<char>>, started: LocalDateTime) -> Seq<char> {
    match name {
        Some(n) => if crate::text::trim(n).len() > 0 { sanitised(crate::text::trim(n)) } else { untitled_text(started) },
        None => untitled_text(started),
    }
}

/// `<root>/YYYY-MM-DD/<name>.md`.
pub open spec fn transcript_path_of(root: Seq<char>, started: LocalDateTime, name: Seq<char>) -> Seq<char> {
    crate::icon::join(crate::icon::join(root, date_text(started)), name + ".md"@)
}

impl SessionMeta {
    /// A session started at `started_at`, named after `name` when given.
    pub fn new(name: Option<String>, started_at: LocalDateTime) -> (r: Self)
        ensures
            r.name@ == session_name(match name {
                Some(n) => Some(n@),
                None => None,
            }, started_at),
            r.started_at == started_at,
    {
        let trimmed: Option<Vec<char>> = match &name {
            Some(n) => {
                let t = crate::text::trim_chars(chars_of(n.as_str()).as_slice());
                if t.len() > 0 { Some(t) } else { None }
            },
            None => None,
        };
        let nm = match trimmed {
            Some(t) => sanitise_session_name(string_of(t.as_slice()).as_str()),
            None => {
                let mut s = String::new();
                push_str_chars(&mut s, "untitled-");
                push_date(&mut s, &started_at);
                push_str_chars(&mut s, "-");
                push_pad2(&mut s, started_at.hour);
                push_str_chars(&mut s, "-");
                push_pad2(&mut s, started_at.minute);
                proof { assert(s@ =~= untitled_text(started_at)); }
                s
            },
        };
        SessionMeta { name: nm, started_at }
    }

    /// The transcript file of the session under `root` (the `stt` data
    /// directory).
    pub fn transcript_path_under(&self, root: &str) -> (r: String)
        ensures
            r@ == transcript_path_of(root@, self.started_at, self.name@),
    {
        let mut day = String::new();
        push_date(&mut day, &self.started_at);
        proof { assert(day@ =~= date_text(self.started_at)); }
        let dir = path_join(root, day.as_str());
        let mut file = String::new();
        push_str_chars(&mut file, self.name.as_str());
        push_str_chars(&mut file, ".md");
        path_join(dir.as_str(), file.as_str())
    }
}

impl SessionMeta {
    /// Absolute path of the transcript file for this session, under the
    /// user's data directory (or `/tmp` when there is none).
    pub fn transcript_path(&self) -> (r: String)
        ensures
            exists|d: Option<Seq<char>>| r@ == transcript_path_of(#[trigger] stt_root(d), self.started_at, self.name@),
    {
        let root = transcript_root();
        let r = self.transcript_path_under(root.as_str());
        r
    }
}

/// `<data dir or /tmp>/i3more/stt`.
pub open spec fn stt_root(data_dir: Option<Seq<char>>) -> Seq<char> {
    let base = match data_dir {
        Some(d) => d,
        None => "/tmp"@,
    };
    crate::icon::join(crate::icon::join(base, "i3more"@), "stt"@)
}

/// The directory that holds the transcripts, for a given data directory.
pub fn stt_root_of(data_dir: Option<String>) -> (r: String)
    ensures
        r@ == stt_root(match data_dir {
            Some(d) => Some(d@),
            None => None,
        }),
{
    let base = match data_dir {
        Some(d) => d,
        None => "/tmp".to_owned(),
    };
    proof { reveal_strlit("/tmp"); }
    let app = path_join(base.as_str(), "i3more");
    proof { reveal_strlit("i3more"); }
    let r = path_join(app.as_str(), "stt");
    proof { reveal_strlit("stt"); }
    r
}

/// The user's data directory, as `dirs::data_dir` finds it from the
/// environment, converted to a string. Nothing is stated of the result: it
/// depends on the environment.
#[verifier::external_body]
fn user_data_dir() -> Option<String> {
    match dirs::data_dir() {
        Some(p) => Some(p.to_string_lossy().into_owned()),
        None => None,
    }
}

/// The directory that holds the transcripts: the data directory (or `/tmp`)
/// joined with `i3more/stt`.
pub fn transcript_root() -> (r: String)
    ensures
        exists|d: Option<Seq<char>>| r@ == #[trigger] stt_root(d),
{
    let d = user_data_dir();
    let ghost dv = match &d {
        Some(x) => Some(x@),
        None => None::<Seq<char>>,
    };
    let r = stt_root_of(d);
    proof { assert(r@ == stt_root(dv)); }
    r
}

/// `Path::join` on strings.
fn path_join(base: &str, comp: &str) -> (r: String)
    ensures
        r@ == crate::icon::join(base@, comp@),
{
    let c = chars_of(comp);
    let slash = chars_of("/");
    if starts_with_chars(c.as_slice(), slash.as_slice()) {
        return string_of(c.as_slice());
    }
    let mut s = String::new();
    push_str_chars(&mut s, base);
    push_str_chars(&mut s, "/");
    push_str_chars(&mut s, comp);
    s
}

/// The last `n` elements of `s` (all of it when shorter).
pub open spec fn last_n(s: Seq<i16>, n: int) -> Seq<i16> {
    if s.len() > n { s.skip(s.len() - n) } else { s }
}

/// `segs` each trimmed and followed by a space, the whole trimmed: the
/// recogniser's segments as one transcript.
pub open spec fn combined(segs: Seq<Seq<char>>) -> Seq<char> {
    crate::text::trim(joined_segments(segs))
}

pub open spec fn joined_segments(segs: Seq<Seq<char>>) -> Seq<char>
    decreases segs.len(),
{
    if segs.len() == 0 {
        Seq::empty()
    } else {
        joined_segments(segs.drop_last()) + crate::text::trim(segs.last()) + " "@
    }
}

/// The recogniser's segments as one trimmed transcript.
pub fn combine_segments(segs: &[String]) -> (r: String)
    ensures
        r@ == combined(segs@.map_values(|s: String| s@)),
{
    let ghost sv = segs@.map_values(|s: String| s@);
    let mut out: Vec<char> = Vec::new();
    let mut i: usize = 0;
    while i < segs.len()
        invariant
            i <= segs@.len(),
            sv == segs@.map_values(|s: String| s@),
            out@ == joined_segments(sv.take(i as int)),
        decreases segs@.len() - i,
    {
        let t = crate::text::trim_chars(chars_of(segs[i].as_str()).as_slice());
        let ghost before = out@;
        let mut k: usize = 0;
        while k < t.len()
            invariant
                k <= t@.len(),
                out@ == before + t@.take(k as int),
            decreases t@.len() - k,
        {
            out.push(t[k]);
            k += 1;
            proof { assert(out@ =~= before + t@.take(k as int)); }
        }
        out.push(' ');
        proof {
            reveal_strlit(" ");
            assert(" "@ =~= seq![' ']);
            assert(sv.take(i + 1).drop_last() =~= sv.take(i as int));
            assert(sv.take(i + 1).last() == segs@[i as int]@);
            assert(t@.take(k as int) =~= t@);
            assert(out@ =~= joined_segments(sv.take(i + 1)));
        }
        i += 1;
    }
    proof { assert(sv.take(i as int) =~= sv); }
    let r = crate::text::trim_chars(out.as_slice());
    string_of(r.as_slice())
}

/// Samples kept after a final commit, as priming for the next utterance
/// (200 ms).
pub const KEEP_AFTER_COMMIT: usize = 3200;

/// The transcription worker's window: the last `length_samples` of audio,
/// the samples since the last step, and the provisional text so far.
pub struct WindowState {
    pub ring: Vec<i16>,
    pub samples_since_step: usize,
    pub prev_text: String,
    pub length_samples: usize,
    pub step_samples: usize,
}

/// The samples needed before a step: one step, and at least a second.
pub open spec fn min_first(step_samples: usize) -> int {
    if step_samples > SAMPLE_RATE { step_samples as int } else { SAMPLE_RATE as int }
}

/// What a transcription step yields.
pub open spec fn step_output(prev: Seq<char>, text_new: Seq<char>, speech_ended: bool) -> Option<(Seq<char>, SegmentKind)> {
    if text_new.len() == 0 || hallucination(text_new) {
        None
    } else if speech_ended {
        Some((text_new, SegmentKind::Final))
    } else if new_suffix(text_new, prev).len() > 0 {
        Some((new_suffix(text_new, prev), SegmentKind::Provisional))
    } else {
        None
    }
}

pub open spec fn seg_view(r: Option<(String, SegmentKind)>) -> Option<(Seq<char>, SegmentKind)> {
    match r {
        Some(p) => Some((p.0@, p.1)),
        None => None,
    }
}

impl WindowState {
    /// A window of `length_ms` stepped every `step_ms`.
    pub fn new(length_ms: u32, step_ms: u32) -> (w: Self)
        ensures
            w.length_samples == (SAMPLE_RATE * length_ms / 1000) as usize,
            w.step_samples == (SAMPLE_RATE * step_ms / 1000) as usize,
            w.ring@ == Seq::<i16>::empty(),
            w.samples_since_step == 0,
            w.prev_text@ == Seq::<char>::empty(),
    {
        let length = (SAMPLE_RATE as u64 * length_ms as u64) / 1000;
        let step = (SAMPLE_RATE as u64 * step_ms as u64) / 1000;
        proof {
            assert(SAMPLE_RATE as u64 * length_ms as u64 <= 16000 * 0xffff_ffffu64) by (nonlinear_arith)
                requires length_ms <= 0xffff_ffffu32;
            assert(SAMPLE_RATE as u64 * step_ms as u64 <= 16000 * 0xffff_ffffu64) by (nonlinear_arith)
                requires step_ms <= 0xffff_ffffu32;
        }
        WindowState {
            ring: Vec::new(),
            samples_since_step: 0,
            prev_text: String::new(),
            length_samples: #[verifier::truncate] (length as usize),
            step_samples: #[verifier::truncate] (step as usize),
        }
    }

    /// Adds captured samples, dropping the oldest beyond the window length.
    pub fn push_samples(&mut self, samples: &[i16])
        requires
            old(self).samples_since_step + samples@.len() <= usize::MAX,
            old(self).ring@.len() + samples@.len() <= usize::MAX,
        ensures
            final(self).samples_since_step == old(self).samples_since_step + samples@.len(),
            final(self).ring@ == last_n(old(self).ring@ + samples@, old(self).length_samples as int),
            final(self).prev_text == old(self).prev_text,
            final(self).length_samples == old(self).length_samples,
            final(self).step_samples == old(self).step_samples,
    {
        self.samples_since_step = self.samples_since_step + samples.len();
        let ghost r0 = self.ring@;
        let mut i: usize = 0;
        while i < samples.len()
            invariant
                i <= samples@.len(),
                self.ring@ == r0 + samples@.take(i as int),
                r0.len() + samples@.len() <= usize::MAX,
                r0 == old(self).ring@,
                self.samples_since_step == old(self).samples_since_step + samples@.len(),
                self.prev_text == old(self).prev_text,
                self.length_samples == old(self).length_samples,
                self.step_samples == old(self).step_samples,
            decreases samples@.len() - i,
        {
            self.ring.push(samples[i]);
            i += 1;
            proof { assert(self.ring@ =~= r0 + samples@.take(i as int)); }
        }
        proof { assert(samples@.take(i as int) =~= samples@); }
        if self.ring.len() > self.length_samples {
            let drop_n = self.ring.len() - self.length_samples;
            let kept = vstd::slice::slice_to_vec(vstd::slice::slice_subrange(self.ring.as_slice(), drop_n, self.ring.len()));
            proof { assert(kept@ =~= (r0 + samples@).skip(drop_n as int)); }
            self.ring = kept;
        }
    }

    /// Whether a step is due; if so, the sample count restarts.
    pub fn step_due(&mut self) -> (r: bool)
        ensures
            r == !(old(self).samples_since_step < old(self).step_samples || old(self).ring@.len() < min_first(old(self).step_samples)),
            final(self).samples_since_step == (if r { 0 } else { old(self).samples_since_step }),
            final(self).ring == old(self).ring,
            final(self).prev_text == old(self).prev_text,
            final(self).length_samples == old(self).length_samples,
            final(self).step_samples == old(self).step_samples,
    {
        let min_first_samples = if self.step_samples > SAMPLE_RATE as usize { self.step_samples } else { SAMPLE_RATE as usize };
        if self.samples_since_step < self.step_samples || self.ring.len() < min_first_samples {
            return false;
        }
        self.samples_since_step = 0;
        true
    }

    /// The window fell silent: pending provisional text is committed as
    /// final and the window restarts.
    pub fn on_silent_window(&mut self) -> (r: Option<String>)
        ensures
            (match r {
                Some(t) => old(self).prev_text@.len() > 0 && t@ == old(self).prev_text@
                    && final(self).prev_text@.len() == 0 && final(self).ring@.len() == 0,
                None => old(self).prev_text@.len() == 0 && final(self).prev_text == old(self).prev_text
                    && final(self).ring == old(self).ring,
            }),
            final(self).samples_since_step == old(self).samples_since_step,
            final(self).length_samples == old(self).length_samples,
            final(self).step_samples == old(self).step_samples,
    {
        if chars_of(self.prev_text.as_str()).len() == 0 {
            return None;
        }
        let mut t = String::new();
        std::mem::swap(&mut t, &mut self.prev_text);
        self.ring = Vec::new();
        Some(t)
    }

    /// The outcome of a transcription step with its text and whether speech
    /// ended: a final segment (the window then keeps only its last 200 ms),
    /// the new suffix as a provisional one, or nothing.
    pub fn on_transcript(&mut self, text_new: String, speech_ended: bool) -> (r: Option<(String, SegmentKind)>)
        ensures
            seg_view(r) == step_output(old(self).prev_text@, text_new@, speech_ended),
            (text_new@.len() == 0 || hallucination(text_new@)) ==> *final(self) == *old(self),
            (text_new@.len() > 0 && !hallucination(text_new@) && speech_ended) ==> {
                &&& final(self).prev_text@.len() == 0
                &&& final(self).ring@ == last_n(old(self).ring@, KEEP_AFTER_COMMIT as int)
            },
            (text_new@.len() > 0 && !hallucination(text_new@) && !speech_ended) ==> {
                &&& final(self).prev_text@ == text_new@
                &&& final(self).ring == old(self).ring
            },
            final(self).samples_since_step == old(self).samples_since_step,
            final(self).length_samples == old(self).length_samples,
            final(self).step_samples == old(self).step_samples,
    {
        if chars_of(text_new.as_str()).len() == 0 || is_hallucination(text_new.as_str()) {
            return None;
        }
        if speech_ended {
            self.prev_text = String::new();
            if self.ring.len() > KEEP_AFTER_COMMIT {
                let drop_n = self.ring.len() - KEEP_AFTER_COMMIT;
                let kept = vstd::slice::slice_to_vec(vstd::slice::slice_subrange(self.ring.as_slice(), drop_n, self.ring.len()));
                proof { assert(kept@ =~= old(self).ring@.skip(drop_n as int)); }
                self.ring = kept;
            }
            return Some((text_new, SegmentKind::Final));
        }
        let suffix = strip_common_prefix(text_new.as_str(), self.prev_text.as_str());
        self.prev_text = text_new;
        if chars_of(suffix.as_str()).len() > 0 {
            Some((suffix, SegmentKind::Provisional))
        } else {
            None
        }
    }

    /// The provisional text still pending, to commit when the session ends.
    pub fn pending_final(&self) -> (r: Option<String>)
        ensures
            (match r {
                Some(t) => self.prev_text@.len() > 0 && t@ == self.prev_text@,
                None => self.prev_text@.len() == 0,
            }),
    {
        if chars_of(self.prev_text.as_str()).len() == 0 { None } else { Some(self.prev_text.clone()) }
    }
}

/// After any push the window holds at most its length in samples.
pub proof fn lemma_ring_bounded(ring: Seq<i16>, samples: Seq<i16>, length: int)
    requires
        length >= 0,
    ensures
        last_n(ring + samples, length).len() <= length,
        (ring + samples).len() <= length ==> last_n(ring + samples, length) == ring + samples,
        (ring + samples).len() > length ==> last_n(ring + samples, length)
            == (ring + samples).skip((ring + samples).len() - length),
{
}

/// The front matter opening a session's transcript; a transcript that
/// already has content first gets a `---` separator.
pub open spec fn front_matter_text(name: Seq<char>, started: LocalDateTime, language: Seq<char>,
    model: Seq<char>, preexisting: bool) -> Seq<char> {
    (if preexisting { "\n---\n\n"@ } else { Seq::empty() }) + "---\ntitle: "@ + name + "\nstarted_at: "@
        + iso_text(started) + "\nlanguage: "@ + language + "\nmodel: "@ + model + "\n---\n\n"@
}

/// The text written at the start of a session's transcript, for the model
/// file named `model_basename`.
pub fn front_matter(session: &SessionMeta, language: &str, model_basename: &str, preexisting: bool) -> (r: String)
    ensures
        r@ == front_matter_text(session.name@, session.started_at, language@, model_basename@, preexisting),
{
    let mut s = String::new();
    proof { assert(s@ =~= Seq::<char>::empty()); }
    if preexisting {
        push_str_chars(&mut s, "\n---\n\n");
    }
    push_str_chars(&mut s, "---\ntitle: ");
    push_str_chars(&mut s, session.name.as_str());
    push_str_chars(&mut s, "\nstarted_at: ");
    push_str_chars(&mut s, iso_local(&session.started_at).as_str());
    push_str_chars(&mut s, "\nlanguage: ");
    push_str_chars(&mut s, language);
    push_str_chars(&mut s, "\nmodel: ");
    push_str_chars(&mut s, model_basename);
    push_str_chars(&mut s, "\n---\n\n");
    s
}

/// A final segment's lines in the transcript: its time and text, then its
/// translation in italics.
pub open spec fn entry_text(at: LocalDateTime, text: Seq<char>, translation: Option<Seq<char>>) -> Seq<char> {
    "- **"@ + hms_text(at) + "** \u{2014} "@ + text + "\n"@ + match translation {
        Some(t) => "  - _"@ + t + "_\n"@,
        None => Seq::empty(),
    }
}

/// The transcript lines of a final segment captured at `at`.
pub fn transcript_entry(at: &LocalDateTime, text: &str, translation: Option<&str>) -> (r: String)
    ensures
        r@ == entry_text(*at, text@, match translation {
            Some(t) => Some(t@),
            None => None,
        }),
{
    let mut s = String::new();
    push_str_chars(&mut s, "- **");
    push_hms(&mut s, at);
    push_str_chars(&mut s, "** \u{2014} ");
    push_str_chars(&mut s, text);
    push_str_chars(&mut s, "\n");
    let ghost head = s@;
    if let Some(t) = translation {
        push_str_chars(&mut s, "  - _");
        push_str_chars(&mut s, t);
        push_str_chars(&mut s, "_\n");
    } else {
        proof { assert(head + Seq::<char>::empty() =~= head); }
    }
    s
}

/// Whether final segments are translated: translation is on and targets a
/// language other than the source.
pub open spec fn wants_translation(enabled: bool, target: Seq<char>, language: Seq<char>) -> bool {
    enabled && target.len() > 0 && target != language
}

pub fn translation_wanted(enabled: bool, target: &str, language: &str) -> (r: bool)
    ensures
        r == wants_translation(enabled, target@, language@),
{
    let t = chars_of(target);
    enabled && t.len() > 0 && !chars_eq(t.as_slice(), chars_of(language).as_slice())
}

/// What a segment shows of a translation attempt: the trimmed translation,
/// nothing for an empty one, and a marker when the translator failed.
pub open spec fn translation_shown(r: Result<Seq<char>, Seq<char>>) -> Option<Seq<char>> {
    match r {
        Ok(t) => if crate::text::trim(t).len() > 0 { Some(crate::text::trim(t)) } else { None },
        Err(_) => Some("\u{2014} translation unavailable \u{2014}"@),
    }
}

pub fn translation_outcome(r: Result<String, String>) -> (o: Option<String>)
    ensures
        (match o {
            Some(t) => Some(t@),
            None => None,
        }) == translation_shown(match r {
            Ok(t) => Ok(t@),
            Err(e) => Err(e@),
        }),
{
    match r {
        Ok(t) => {
            let tr = crate::text::trim_chars(chars_of(t.as_str()).as_slice());
            if tr.len() > 0 { Some(string_of(tr.as_slice())) } else { None }
        },
        Err(_) => Some("\u{2014} translation unavailable \u{2014}".to_string()),
    }
}

} // verus!
