//! Do-not-disturb: the on/off state (persisted by the caller) and what the
//! bell and the panel's toggle button show for it.

use vstd::prelude::*;
use crate::fa::{fa_icon, fa_markup, BELL, BELL_SLASH};
use crate::text::push_str_chars;

verus! {

/// Whether notifications are silenced.
#[derive(Debug, Clone, Copy, PartialEq, Eq, Structural)]
pub struct DndState {
    pub enabled: bool,
}

/// The bell glyph for a state.
pub open spec fn bell_glyph(enabled: bool) -> char {
    if enabled { BELL_SLASH } else { BELL }
}

/// The bar's bell: the glyph in the muted bar colour.
pub open spec fn bell_text(enabled: bool) -> Seq<char> {
    fa_markup(bell_glyph(enabled), "#a89984"@, 11)
}

/// The panel's toggle: the glyph (red while on) and its caption.
pub open spec fn toggle_text(enabled: bool) -> Seq<char> {
    fa_markup(bell_glyph(enabled), if enabled { "#fb4934"@ } else { "#a89984"@ }, 11) + " "@
        + if enabled { "DND on"@ } else { "DND off"@ }
}

impl DndState {
    /// The state restored at start-up.
    pub fn new(enabled: bool) -> (s: Self)
        ensures
            s.enabled == enabled,
    {
        DndState { enabled }
    }

    pub fn is_enabled(&self) -> (r: bool)
        ensures
            r == self.enabled,
    {
        self.enabled
    }

    /// Sets the state; `true` when it changed (the caller then saves it
    /// and redraws).
    pub fn set_enabled(&mut self, enabled: bool) -> (changed: bool)
        ensures
            final(self).enabled == enabled,
            changed == (old(self).enabled != enabled),
    {
        if self.enabled == enabled {
            return false;
        }
        self.enabled = enabled;
        true
    }

    /// Flips the state; it always changes.
    pub fn toggle(&mut self)
        ensures
            final(self).enabled == !old(self).enabled,
    {
        let e = !self.enabled;
        self.set_enabled(e);
    }
}

/// The bell's markup for a state.
pub fn bell_markup(enabled: bool) -> (r: String)
    ensures
        r@ == bell_text(enabled),
{
    fa_icon(if enabled { BELL_SLASH } else { BELL }, "#a89984", 11)
}

/// The toggle button's markup for a state.
pub fn toggle_markup(enabled: bool) -> (r: String)
    ensures
        r@ == toggle_text(enabled),
{
    let glyph = if enabled { BELL_SLASH } else { BELL };
    let color = if enabled { "#fb4934" } else { "#a89984" };
    let mut s = fa_icon(glyph, color, 11);
    push_str_chars(&mut s, " ");
    push_str_chars(&mut s, if enabled { "DND on" } else { "DND off" });
    s
}

} // verus!
