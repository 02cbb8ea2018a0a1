//! Font Awesome glyphs for the bar: codepoints, Pango markup and the
//! battery glyph for a charge level.

use vstd::prelude::*;
use crate::text::{push_str_chars, push_chars, decimal, decimal_chars, push_char};

verus! {

/// Font family name (must match the .otf metadata).
pub const FA_FONT: &'static str = "Font Awesome 6 Free Solid";

// Icon codepoints (Font Awesome 6 Free Solid)
pub const MICROCHIP: char = '\u{f2db}';
pub const TEMPERATURE: char = '\u{f2c9}';
pub const MEMORY: char = '\u{f538}';
pub const BATTERY_FULL: char = '\u{f240}';
pub const BATTERY_3Q: char = '\u{f241}';
pub const BATTERY_HALF: char = '\u{f242}';
pub const BATTERY_1Q: char = '\u{f243}';
pub const BATTERY_EMPTY: char = '\u{f244}';
pub const BOLT: char = '\u{f0e7}';
pub const GAUGE: char = '\u{f3fd}';
pub const COPY: char = '\u{f0c5}';
pub const VOLUME_UP: char = '\u{f028}';
pub const ERASER: char = '\u{f12d}';
pub const EXCHANGE: char = '\u{f362}';
pub const BELL: char = '\u{f0f3}';
pub const BELL_SLASH: char = '\u{f1f6}';
pub const PLAY: char = '\u{f04b}';
pub const PAUSE: char = '\u{f04c}';
pub const FORWARD_STEP: char = '\u{f051}';
pub const BACKWARD_STEP: char = '\u{f048}';
pub const MUSIC: char = '\u{f001}';
pub const VOLUME_OFF: char = '\u{f6a9}';
pub const VOLUME_LOW: char = '\u{f027}';
pub const VOLUME_HIGH: char = '\u{f028}';
pub const SUN: char = '\u{f185}';
pub const IMAGE: char = '\u{f03e}';
pub const SLIDERS: char = '\u{f1de}';
pub const MICROPHONE: char = '\u{f130}';
pub const MICROPHONE_SLASH: char = '\u{f131}';

/// The Pango markup of a glyph in the icon font at a size and colour.
pub open spec fn fa_markup(icon: char, color: Seq<char>, size_pt: u32) -> Seq<char> {
    "<span font=\""@ + FA_FONT@ + " "@ + decimal(size_pt as nat) + "\" foreground=\""@ + color
        + "\">"@ + seq![icon] + "</span>"@
}

/// Wrap an FA glyph in Pango markup with color and size.
pub fn fa_icon(icon: char, color: &str, size_pt: u32) -> (r: String)
    ensures
        r@ == fa_markup(icon, color@, size_pt),
{
    let mut r = String::new();
    push_str_chars(&mut r, "<span font=\"");
    push_str_chars(&mut r, FA_FONT);
    push_str_chars(&mut r, " ");
    let digits = decimal_chars(size_pt as u64);
    push_chars(&mut r, digits.as_slice());
    push_str_chars(&mut r, "\" foreground=\"");
    push_str_chars(&mut r, color);
    push_str_chars(&mut r, "\">");
    push_char(&mut r, icon);
    push_str_chars(&mut r, "</span>");
    assert(r@ =~= fa_markup(icon, color@, size_pt));
    r
}

/// The battery glyph for a charge level and charging state.
pub open spec fn battery_glyph_for(capacity: u8, charging: bool) -> char {
    if charging {
        BOLT
    } else if 75 <= capacity && capacity <= 100 {
        BATTERY_FULL
    } else if 50 <= capacity && capacity <= 74 {
        BATTERY_3Q
    } else if 25 <= capacity && capacity <= 49 {
        BATTERY_HALF
    } else if 10 <= capacity && capacity <= 24 {
        BATTERY_1Q
    } else {
        BATTERY_EMPTY
    }
}

/// Pick the appropriate battery icon based on capacity and charging state.
pub fn battery_glyph(capacity: u8, charging: bool) -> (r: char)
    ensures
        r == battery_glyph_for(capacity, charging),
{
    if charging {
        return BOLT;
    }
    if 75 <= capacity && capacity <= 100 {
        BATTERY_FULL
    } else if 50 <= capacity && capacity <= 74 {
        BATTERY_3Q
    } else if 25 <= capacity && capacity <= 49 {
        BATTERY_HALF
    } else if 10 <= capacity && capacity <= 24 {
        BATTERY_1Q
    } else {
        BATTERY_EMPTY
    }
}

} // verus!
