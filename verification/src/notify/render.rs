//! The body-markup filter for notification popups.
//!
//! Pango-safe tags (`<b>`, `<i>`, `<u>`, `<a href=...>`) pass through;
//! `<img>` becomes its escaped `alt` text; any other tag is dropped. The
//! entities `&amp;`, `&lt;`, `&gt;`, `&quot;` and `&apos;` pass through,
//! any other `&` sequence is escaped, and a stray `>` becomes `&gt;`.

use vstd::prelude::*;
use crate::icon::{hex_digit, hex_digit_char};
use crate::text::{
    chars_of, string_of, chars_eq, starts_with, starts_with_chars, contains, contains_chars, find_from,
    find_chars, lowercase, to_lowercase, push_char, push_chars, push_str_chars, index_from, lemma_index_from,
};

verus! {

broadcast use vstd::seq::group_seq_axioms;

/// Number of UTF-8 bytes of a character.
pub open spec fn utf8_len(c: char) -> int {
    let u = c as u32;
    if u < 0x80 { 1 } else if u < 0x800 { 2 } else if u < 0x10000 { 3 } else { 4 }
}

/// Control characters that GLib's markup escaping writes as `&#x..;`.
pub open spec fn control_escaped(c: char) -> bool {
    let u = c as u32;
    (1 <= u && u <= 8) || (0xb <= u && u <= 0xc) || (0xe <= u && u <= 0x1f) || (0x7f <= u && u <= 0x84)
        || (0x86 <= u && u <= 0x9f)
}

/// Lowercase hexadecimal digits of `n`, without leading zeros.
pub open spec fn hex_lower(n: nat) -> Seq<char>
    decreases n,
{
    if n < 16 { seq![hex_digit(n)] } else { hex_lower(n / 16).push(hex_digit(n % 16)) }
}

/// GLib's escaping of one character for markup.
pub open spec fn escape_char(c: char) -> Seq<char> {
    if c == '&' {
        "&amp;"@
    } else if c == '<' {
        "&lt;"@
    } else if c == '>' {
        "&gt;"@
    } else if c == '\'' {
        "&#39;"@
    } else if c == '"' {
        "&quot;"@
    } else if control_escaped(c) {
        "&#x"@ + hex_lower(c as nat) + ";"@
    } else {
        seq![c]
    }
}

/// GLib's `markup_escape_text`: each character escaped in turn.
pub open spec fn markup_escape(s: Seq<char>) -> Seq<char>
    decreases s.len(),
{
    if s.len() == 0 { Seq::empty() } else { markup_escape(s.drop_last()) + escape_char(s.last()) }
}

/// Where a tag that starts before `i` ends: just after the first `>` at or
/// after `i`, or at the end of the text.
pub open spec fn tag_end(s: Seq<char>, i: int) -> int
    decreases s.len() - i,
{
    if i >= s.len() { s.len() as int } else if s[i] == '>' { i + 1 } else { tag_end(s, i + 1) }
}

/// Where an entity that starts before `i` ends, with `b` bytes read so far,
/// and whether it ended at a `;`: it ends after a `;`, after a space, once it
/// is longer than 10 bytes, or at the end of the text.
pub open spec fn entity_scan(s: Seq<char>, i: int, b: int) -> (int, bool)
    decreases s.len() - i,
{
    if i >= s.len() {
        (s.len() as int, false)
    } else {
        let c = s[i];
        if c == ';' {
            (i + 1, true)
        } else if c == ' ' || b + utf8_len(c) > 10 {
            (i + 1, false)
        } else {
            entity_scan(s, i + 1, b + utf8_len(c))
        }
    }
}

pub proof fn lemma_tag_end(s: Seq<char>, i: int)
    requires
        0 <= i <= s.len(),
    ensures
        i <= tag_end(s, i) <= s.len(),
    decreases s.len() - i,
{
    if i < s.len() && s[i] != '>' {
        lemma_tag_end(s, i + 1);
    }
}

pub proof fn lemma_entity_scan(s: Seq<char>, i: int, b: int)
    requires
        0 <= i <= s.len(),
    ensures
        i <= entity_scan(s, i, b).0 <= s.len(),
    decreases s.len() - i,
{
    if i < s.len() && s[i] != ';' && !(s[i] == ' ' || b + utf8_len(s[i]) > 10) {
        lemma_entity_scan(s, i + 1, b + utf8_len(s[i]));
    }
}

/// A lowercase tag that Pango renders and that is kept.
pub open spec fn allowed_tag(tl: Seq<char>) -> bool {
    tl == "<b>"@ || tl == "</b>"@ || tl == "<i>"@ || tl == "</i>"@ || tl == "<u>"@ || tl == "</u>"@ || tl == "</a>"@
        || (starts_with(tl, "<a "@) && contains(tl, "href"@))
}

/// The value of `name="..."` (or, failing that, `name='...'`) in a tag.
pub open spec fn attr_value(tag: Seq<char>, name: Seq<char>, q: char) -> Option<Seq<char>> {
    let pat = name + seq!['=', q];
    match find_from(tag, pat, 0) {
        Some(st) => {
            let vs = st + pat.len();
            match index_from(tag, q, vs) {
                Some(e) => Some(tag.subrange(vs, e)),
                None => None,
            }
        },
        None => None,
    }
}

pub open spec fn extract_attr_of(tag: Seq<char>, name: Seq<char>) -> Option<Seq<char>> {
    match attr_value(tag, name, '"') {
        Some(v) => Some(v),
        None => attr_value(tag, name, '\''),
    }
}

/// An entity passed through unchanged.
pub open spec fn valid_entity(e: Seq<char>) -> bool {
    e == "&amp;"@ || e == "&lt;"@ || e == "&gt;"@ || e == "&quot;"@ || e == "&apos;"@
}

/// What a tag becomes.
pub open spec fn tag_output(tag: Seq<char>) -> Seq<char> {
    let tl = lowercase(tag);
    if allowed_tag(tl) {
        tag
    } else if starts_with(tl, "<img"@) {
        match extract_attr_of(tag, "alt"@) {
            Some(a) => markup_escape(a),
            None => Seq::empty(),
        }
    } else {
        Seq::empty()
    }
}

/// The filtered markup of a notification body.
pub open spec fn markup(s: Seq<char>) -> Seq<char>
    decreases s.len(),
{
    if s.len() == 0 {
        Seq::empty()
    } else if s[0] == '<' {
        let e = tag_end(s, 1);
        proof { lemma_tag_end(s, 1); }
        tag_output(s.take(e)) + markup(s.skip(e))
    } else if s[0] == '&' {
        let r = entity_scan(s, 1, 1);
        proof { lemma_entity_scan(s, 1, 1); }
        let ent = s.take(r.0);
        (if r.1 && valid_entity(ent) { ent } else { markup_escape(ent) }) + markup(s.skip(r.0))
    } else {
        (if s[0] == '>' { "&gt;"@ } else { seq![s[0]] }) + markup(s.skip(1))
    }
}

fn utf8_len_exec(c: char) -> (r: usize)
    ensures
        r == utf8_len(c),
{
    let u = c as u32;
    if u < 0x80 { 1 } else if u < 0x800 { 2 } else if u < 0x10000 { 3 } else { 4 }
}

/// Appends the lowercase hex digits of `n`.
fn push_hex(s: &mut String, n: u32)
    ensures
        final(s)@ == old(s)@ + hex_lower(n as nat),
    decreases n,
{
    if n < 16 {
        push_char(s, hex_digit_char(n as u64));
    } else {
        push_hex(s, n / 16);
        push_char(s, hex_digit_char((n % 16) as u64));
        proof { assert(hex_lower(n as nat) == hex_lower((n / 16) as nat).push(hex_digit((n % 16) as nat))); }
    }
}

/// Appends the escaped form of `c`.
fn push_escaped_char(s: &mut String, c: char)
    ensures
        final(s)@ == old(s)@ + escape_char(c),
{
    let ghost s0 = s@;
    let u = c as u32;
    if c == '&' {
        push_str_chars(s, "&amp;");
    } else if c == '<' {
        push_str_chars(s, "&lt;");
    } else if c == '>' {
        push_str_chars(s, "&gt;");
    } else if c == '\'' {
        push_str_chars(s, "&#39;");
    } else if c == '"' {
        push_str_chars(s, "&quot;");
    } else if (1 <= u && u <= 8) || (0xb <= u && u <= 0xc) || (0xe <= u && u <= 0x1f) || (0x7f <= u && u <= 0x84)
        || (0x86 <= u && u <= 0x9f) {
        push_str_chars(s, "&#x");
        push_hex(s, u);
        push_str_chars(s, ";");
        proof { assert(s@ =~= s0 + escape_char(c)); }
    } else {
        push_char(s, c);
        proof { assert(s@ =~= s0 + escape_char(c)); }
    }
}

/// GLib's `markup_escape_text`: `&`, `<`, `>`, `'` and `"` become entities
/// and the C0/C1 control characters other than tab, newline, carriage
/// return and NEL become `&#x..;` references.
pub fn markup_escape_text(t: &[char], out: &mut String)
    ensures
        final(out)@ == old(out)@ + markup_escape(t@),
{
    let ghost s0 = out@;
    let mut i: usize = 0;
    while i < t.len()
        invariant
            i <= t@.len(),
            out@ == s0 + markup_escape(t@.take(i as int)),
        decreases t@.len() - i,
    {
        push_escaped_char(out, t[i]);
        proof {
            assert(t@.take(i + 1).drop_last() =~= t@.take(i as int));
            assert(t@.take(i + 1).last() == t@[i as int]);
        }
        i += 1;
        proof { assert(out@ =~= s0 + markup_escape(t@.take(i as int))); }
    }
    proof { assert(t@.take(i as int) =~= t@); }
}

fn lit(s: &str) -> (r: Vec<char>)
    ensures
        r@ == s@,
{
    chars_of(s)
}

/// Whether a lowercase tag is kept.
fn is_allowed_tag(tl: &Vec<char>) -> (r: bool)
    ensures
        r == allowed_tag(tl@),
{
    let t = tl.as_slice();
    if chars_eq(t, lit("<b>").as_slice()) || chars_eq(t, lit("</b>").as_slice()) || chars_eq(t, lit("<i>").as_slice())
        || chars_eq(t, lit("</i>").as_slice()) || chars_eq(t, lit("<u>").as_slice()) || chars_eq(t, lit("</u>").as_slice())
        || chars_eq(t, lit("</a>").as_slice()) {
        return true;
    }
    starts_with_chars(t, lit("<a ").as_slice()) && contains_chars(t, lit("href").as_slice())
}

/// The value of an attribute quoted with `q`.
fn attr_value_exec(tag: &Vec<char>, name: &Vec<char>, q: char) -> (r: Option<Vec<char>>)
    ensures
        (match r {
            Some(v) => attr_value(tag@, name@, q) == Some(v@),
            None => attr_value(tag@, name@, q) is None,
        }),
{
    let mut pat = vstd::slice::slice_to_vec(name.as_slice());
    pat.push('=');
    pat.push(q);
    proof { assert(pat@ =~= name@ + seq!['=', q]); }
    let st = match find_chars(tag.as_slice(), pat.as_slice(), 0) {
        Some(st) => st,
        None => return None,
    };
    proof {
        crate::text::lemma_find_from(tag@, pat@, 0);
        assert(crate::text::occurs_at(tag@, pat@, st as int));
        assert(st + pat@.len() <= tag@.len());
        assert(pat@.len() == pat.len());
        assert(tag@.len() == tag.len());
    }
    let vs = st + pat.len();
    let mut e = vs;
    while e < tag.len() && tag[e] != q
        invariant
            vs <= e <= tag@.len(),
            vs <= tag@.len(),
            forall|j: int| vs <= j < e ==> tag@[j] != q,
        decreases tag@.len() - e,
    {
        e += 1;
    }
    proof {
        lemma_index_from(tag@, q, vs as int);
        if e < tag@.len() {
            assert(index_from(tag@, q, vs as int) == Some(e as int));
        } else {
            assert(index_from(tag@, q, vs as int) is None);
        }
    }
    if e >= tag.len() {
        return None;
    }
    let v = vstd::slice::slice_to_vec(vstd::slice::slice_subrange(tag.as_slice(), vs, e));
    proof { assert(v@ =~= tag@.subrange(vs as int, e as int)); }
    Some(v)
}

/// The value of attribute `name`, double quotes first.
fn extract_attr(tag: &Vec<char>, name: &Vec<char>) -> (r: Option<Vec<char>>)
    ensures
        (match r {
            Some(v) => extract_attr_of(tag@, name@) == Some(v@),
            None => extract_attr_of(tag@, name@) is None,
        }),
{
    match attr_value_exec(tag, name, '"') {
        Some(v) => Some(v),
        None => attr_value_exec(tag, name, '\''),
    }
}

/// Appends what a tag becomes.
fn push_tag(out: &mut String, tag: &Vec<char>)
    ensures
        final(out)@ == old(out)@ + tag_output(tag@),
{
    let ghost s0 = out@;
    let tag_s = string_of(tag.as_slice());
    let tl = chars_of(to_lowercase(tag_s.as_str()).as_str());
    if is_allowed_tag(&tl) {
        push_chars(out, tag.as_slice());
    } else if starts_with_chars(tl.as_slice(), lit("<img").as_slice()) {
        match extract_attr(tag, &lit("alt")) {
            Some(a) => markup_escape_text(a.as_slice(), out),
            None => {
                proof { assert(out@ =~= s0 + Seq::<char>::empty()); }
            },
        }
    } else {
        proof { assert(out@ =~= s0 + Seq::<char>::empty()); }
    }
}

/// Whether an entity passes through.
fn is_valid_entity(e: &Vec<char>) -> (r: bool)
    ensures
        r == valid_entity(e@),
{
    let t = e.as_slice();
    chars_eq(t, lit("&amp;").as_slice()) || chars_eq(t, lit("&lt;").as_slice()) || chars_eq(t, lit("&gt;").as_slice())
        || chars_eq(t, lit("&quot;").as_slice()) || chars_eq(t, lit("&apos;").as_slice())
}

/// Filters a notification body for Pango: safe tags kept, `<img>` replaced
/// by its alt text, other tags dropped, stray characters escaped.
pub fn parse_notification_markup(body: &str) -> (r: String)
    ensures
        r@ == markup(body@),
{
    let s = chars_of(body);
    let mut out = String::new();
    let mut i: usize = 0;
    proof { assert(s@.skip(0) =~= s@); }
    while i < s.len()
        invariant
            i <= s@.len(),
            s@ == body@,
            markup(body@) == out@ + markup(s@.skip(i as int)),
        decreases s@.len() - i,
    {
        let ghost rest = s@.skip(i as int);
        let ghost before = out@;
        proof { assert(rest[0] == s@[i as int]); }
        if s[i] == '<' {
            let mut j = i + 1;
            proof { lemma_tag_end(rest, 1); }
            while j < s.len() && s[j] != '>'
                invariant
                    i < j <= s@.len(),
                    rest == s@.skip(i as int),
                    tag_end(rest, 1) == tag_end(rest, j - i),
                decreases s@.len() - j,
            {
                proof { assert(rest[j - i] == s@[j as int]); }
                j += 1;
            }
            if j < s.len() {
                proof { assert(rest[j - i] == s@[j as int]); }
                j += 1;
            }
            let tag = vstd::slice::slice_to_vec(vstd::slice::slice_subrange(s.as_slice(), i, j));
            proof {
                assert(tag_end(rest, 1) == j - i);
                assert(tag@ =~= rest.take(j - i));
                assert(rest.skip(j - i) =~= s@.skip(j as int));
            }
            push_tag(&mut out, &tag);
            i = j;
        } else if s[i] == '&' {
            let mut j = i + 1;
            let mut b: usize = 1;
            let mut found = false;
            proof { lemma_entity_scan(rest, 1, 1); }
            loop
                invariant_except_break
                    i < j <= s@.len(),
                    rest == s@.skip(i as int),
                    b <= 10,
                    !found,
                    entity_scan(rest, 1, 1) == entity_scan(rest, j - i, b as int),
                ensures
                    i < j <= s@.len(),
                    entity_scan(rest, 1, 1) == (j - i, found),
                decreases s@.len() - j,
            {
                if j >= s.len() {
                    break;
                }
                let c = s[j];
                proof { assert(rest[j - i] == c); }
                j += 1;
                if c == ';' {
                    found = true;
                    break;
                }
                let nb = b + utf8_len_exec(c);
                if c == ' ' || nb > 10 {
                    break;
                }
                b = nb;
            }
            let ent = vstd::slice::slice_to_vec(vstd::slice::slice_subrange(s.as_slice(), i, j));
            proof {
                assert(ent@ =~= rest.take(j - i));
                assert(rest.skip(j - i) =~= s@.skip(j as int));
            }
            if found && is_valid_entity(&ent) {
                push_chars(&mut out, ent.as_slice());
            } else {
                markup_escape_text(ent.as_slice(), &mut out);
            }
            i = j;
        } else {
            if s[i] == '>' {
                push_str_chars(&mut out, "&gt;");
            } else {
                push_char(&mut out, s[i]);
            }
            proof { assert(rest.skip(1) =~= s@.skip(i + 1)); }
            i += 1;
        }
    }
    proof { assert(s@.skip(i as int) =~= Seq::<char>::empty()); }
    out
}

/// Text without markup characters (`<`, `>`, `&`) passes through the
/// filter unchanged.
pub proof fn lemma_plain_text_unchanged(s: Seq<char>)
    requires
        forall|i: int| 0 <= i < s.len() ==> #[trigger] s[i] != '<' && s[i] != '>' && s[i] != '&',
    ensures
        markup(s) == s,
    decreases s.len(),
{
    if s.len() > 0 {
        let t = s.skip(1);
        assert forall|i: int| 0 <= i < t.len() implies #[trigger] t[i] != '<' && t[i] != '>' && t[i] != '&' by {
            assert(t[i] == s[i + 1]);
        }
        lemma_plain_text_unchanged(t);
        assert(seq![s[0]] + t =~= s);
    }
}

/// Plain text in front of anything passes through unchanged, and the rest
/// is filtered as it would be on its own.
pub proof fn lemma_plain_prefix(s: Seq<char>, t: Seq<char>)
    requires
        forall|i: int| 0 <= i < s.len() ==> #[trigger] s[i] != '<' && s[i] != '>' && s[i] != '&',
    ensures
        markup(s + t) == s + markup(t),
    decreases s.len(),
{
    if s.len() > 0 {
        let u = s.skip(1);
        assert forall|i: int| 0 <= i < u.len() implies #[trigger] u[i] != '<' && u[i] != '>' && u[i] != '&' by {
            assert(u[i] == s[i + 1]);
        }
        lemma_plain_prefix(u, t);
        assert((s + t)[0] == s[0]);
        assert((s + t).skip(1) =~= u + t);
        assert(seq![s[0]] + (u + markup(t)) =~= s + markup(t));
    } else {
        assert(s + t =~= t);
    }
}

/// The Pango tags `<b>`, `<i>` and `<u>` and their closing tags pass
/// through the filter unchanged around plain text (lowercasing leaves these
/// lowercase tags as they are).
pub proof fn lemma_pango_tags_kept(c: char, s: Seq<char>)
    requires
        c == 'b' || c == 'i' || c == 'u',
        forall|i: int| 0 <= i < s.len() ==> #[trigger] s[i] != '<' && s[i] != '>' && s[i] != '&',
        lowercase(seq!['<', c, '>']) == seq!['<', c, '>'],
        lowercase(seq!['<', '/', c, '>']) == seq!['<', '/', c, '>'],
    ensures
        markup(seq!['<', c, '>'] + s + seq!['<', '/', c, '>']) == seq!['<', c, '>'] + s + seq!['<', '/', c, '>'],
{
    let open = seq!['<', c, '>'];
    let close = seq!['<', '/', c, '>'];
    reveal_strlit("<b>");
    reveal_strlit("</b>");
    reveal_strlit("<i>");
    reveal_strlit("</i>");
    reveal_strlit("<u>");
    reveal_strlit("</u>");
    if c == 'b' {
        assert(open =~= "<b>"@);
        assert(close =~= "</b>"@);
    } else if c == 'i' {
        assert(open =~= "<i>"@);
        assert(close =~= "</i>"@);
    } else {
        assert(open =~= "<u>"@);
        assert(close =~= "</u>"@);
    }
    assert(allowed_tag(open));
    assert(allowed_tag(close));
    let whole = open + s + close;
    // the closing tag on its own
    assert(tag_end(close, 3) == 4);
    assert(tag_end(close, 2) == 4);
    assert(tag_end(close, 1) == 4);
    assert(close.take(4) =~= close);
    assert(close.skip(4) =~= Seq::<char>::empty());
    assert(markup(close) == tag_output(close) + markup(close.skip(4)));
    assert(markup(close) == close);
    // the text and the closing tag
    lemma_plain_prefix(s, close);
    // the opening tag
    assert(whole[0] == '<' && whole[1] == c && whole[2] == '>');
    assert(tag_end(whole, 2) == 3);
    assert(tag_end(whole, 1) == 3);
    assert(whole.take(3) =~= open);
    assert(whole.skip(3) =~= s + close);
    assert(markup(whole) == tag_output(open) + markup(s + close));
    assert(open + (s + close) =~= whole);
}

/// A stray `>` is written as `&gt;`.
pub proof fn lemma_stray_gt_escaped(t: Seq<char>)
    ensures
        markup(seq!['>'] + t) == "&gt;"@ + markup(t),
{
    let w = seq!['>'] + t;
    assert(w[0] == '>');
    assert(w.skip(1) =~= t);
}

/// A `&` that starts no entity (here, one followed by a space) is written
/// as `&amp;`.
pub proof fn lemma_stray_amp_escaped(t: Seq<char>)
    ensures
        markup(seq!['&', ' '] + t) == "&amp; "@ + markup(t),
{
    reveal_strlit("&amp;");
    reveal_strlit("&amp; ");
    let w = seq!['&', ' '] + t;
    assert(w[0] == '&' && w[1] == ' ');
    assert(entity_scan(w, 1, 1) == (2int, false));
    let ent = w.take(2);
    assert(ent =~= seq!['&', ' ']);
    assert(ent.drop_last() =~= seq!['&']);
    assert(seq!['&'].drop_last() =~= Seq::<char>::empty());
    assert(markup_escape(Seq::<char>::empty()) == Seq::<char>::empty());
    assert(seq!['&'].last() == '&');
    assert(escape_char('&') == "&amp;"@);
    assert(markup_escape(seq!['&']) == markup_escape(Seq::<char>::empty()) + escape_char('&'));
    assert(markup_escape(seq!['&']) =~= "&amp;"@);
    assert(markup_escape(ent) =~= "&amp; "@);
    assert(w.skip(2) =~= t);
}

/// The entity `&amp;` passes through unchanged.
pub proof fn lemma_amp_entity_kept(t: Seq<char>)
    ensures
        markup("&amp;"@ + t) == "&amp;"@ + markup(t),
{
    reveal_strlit("&amp;");
    let w = "&amp;"@ + t;
    assert(w[0] == '&' && w[1] == 'a' && w[2] == 'm' && w[3] == 'p' && w[4] == ';');
    assert(entity_scan(w, 4, 4) == (5int, true));
    assert(entity_scan(w, 3, 3) == (5int, true));
    assert(entity_scan(w, 2, 2) == (5int, true));
    assert(entity_scan(w, 1, 1) == (5int, true));
    assert(w.take(5) =~= "&amp;"@);
    assert(w.skip(5) =~= t);
}

/// A tag Pango does not know, other than `<img>`, is dropped with all its
/// attributes (here `<script>`, whose lowercase form is itself).
pub proof fn lemma_unknown_tag_dropped(t: Seq<char>)
    requires
        lowercase("<script>"@) == "<script>"@,
    ensures
        markup("<script>"@ + t) == markup(t),
{
    reveal_strlit("<script>");
    reveal_strlit("<b>");
    reveal_strlit("</b>");
    reveal_strlit("<i>");
    reveal_strlit("</i>");
    reveal_strlit("<u>");
    reveal_strlit("</u>");
    reveal_strlit("</a>");
    reveal_strlit("<a ");
    reveal_strlit("<img");
    let tag = "<script>"@;
    let w = tag + t;
    assert(tag.len() == 8);
    assert(w[7] == '>');
    assert(tag_end(w, 7) == 8);
    assert(tag_end(w, 6) == 8);
    assert(tag_end(w, 5) == 8);
    assert(tag_end(w, 4) == 8);
    assert(tag_end(w, 3) == 8);
    assert(tag_end(w, 2) == 8);
    assert(tag_end(w, 1) == 8);
    assert(w.take(8) =~= tag);
    assert(w.skip(8) =~= t);
    assert(!starts_with(tag, "<a "@)) by {
        assert(tag.subrange(0, 3)[1] == 's');
    }
    assert(!starts_with(tag, "<img"@)) by {
        assert(tag.subrange(0, 4)[1] == 's');
    }
    assert(tag != "<b>"@ && tag != "</b>"@ && tag != "<i>"@ && tag != "</i>"@);
    assert(tag != "<u>"@ && tag != "</u>"@ && tag != "</a>"@);
    assert(tag_output(tag) =~= Seq::<char>::empty());
    assert(Seq::<char>::empty() + markup(t) =~= markup(t));
}

} // verus!
