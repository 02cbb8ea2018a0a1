//! Turning X11 key presses into lock-screen actions.

use vstd::prelude::*;
use x11rb::protocol::xproto::KeyButMask;

verus! {

/// What a key press means to the password prompt.
#[derive(Debug, Clone, Copy, PartialEq, Eq, Structural)]
pub enum KeyAction {
    Character(char),
    Backspace,
    Return,
    Escape,
}

/// The server's keyboard mapping: for each keycode from `min_keycode` on,
/// `keysyms_per_keycode` keysyms in a row.
pub struct KeyboardMap {
    pub min_keycode: u8,
    pub keysyms_per_keycode: usize,
    pub keysyms: Vec<u32>,
}

/// Wrapper for `KeyButMask::SHIFT` as a `u16`: the X11 Shift modifier bit,
/// bit 0 in x11rb's definition.
#[verifier::external_body]
fn shift_mask() -> (r: u16)
    ensures
        r == 1,
{
    u16::from(KeyButMask::SHIFT)
}

/// Wrapper for `KeyButMask::LOCK` as a `u16`: the X11 Lock (Caps Lock)
/// modifier bit, bit 1 in x11rb's definition.
#[verifier::external_body]
fn lock_mask() -> (r: u16)
    ensures
        r == 2,
{
    u16::from(KeyButMask::LOCK)
}

/// An ASCII letter keysym (`a`-`z`, `A`-`Z`).
pub open spec fn is_letter_sym(keysym: u32) -> bool {
    (0x61 <= keysym && keysym <= 0x7a) || (0x41 <= keysym && keysym <= 0x5a)
}

/// The action of a keysym: BackSpace, Return and KP_Enter, Escape, and the
/// printable Basic Latin and Latin-1 keysyms (which equal their code points).
pub open spec fn action_of(keysym: u32) -> Option<KeyAction> {
    if keysym == 0xff08 {
        Some(KeyAction::Backspace)
    } else if keysym == 0xff0d || keysym == 0xff8d {
        Some(KeyAction::Return)
    } else if keysym == 0xff1b {
        Some(KeyAction::Escape)
    } else if (0x20 <= keysym && keysym <= 0x7e) || (0xa0 <= keysym && keysym <= 0xff) {
        Some(KeyAction::Character(keysym as char))
    } else {
        None
    }
}

/// The keysym at index `i` of the mapping, 0 when out of range.
pub open spec fn sym_at(m: KeyboardMap, i: int) -> u32 {
    if 0 <= i < m.keysyms@.len() { m.keysyms@[i] } else { 0 }
}

/// The keysym a key press produces: Shift picks the shifted keysym, Caps
/// Lock does so for letters only, and both together cancel for letters.
pub open spec fn effective_keysym(m: KeyboardMap, keycode: u8, state: u16) -> u32 {
    let off = (keycode - m.min_keycode) * m.keysyms_per_keycode;
    let shifted = state & 1u16 != 0;
    let caps = state & 2u16 != 0;
    let base = sym_at(m, off);
    let shift = if m.keysyms_per_keycode > 1 { sym_at(m, off + 1) } else { 0 };
    if shifted && caps && is_letter_sym(base) {
        base
    } else if shifted {
        if shift != 0 { shift } else { base }
    } else if caps && is_letter_sym(base) {
        if shift != 0 { shift } else { base }
    } else {
        base
    }
}

/// Whether a keysym is an ASCII letter.
pub fn is_letter(keysym: u32) -> (r: bool)
    ensures
        r == is_letter_sym(keysym),
{
    (0x0061 <= keysym && keysym <= 0x007a) || (0x0041 <= keysym && keysym <= 0x005a)
}

/// The character of a Latin-1 code point.
fn latin1_char(u: u32) -> (c: char)
    requires
        u < 0x100,
    ensures
        c == u as char,
{
    let b = u as u8;
    b as char
}

/// The action of a keysym, if it has one.
pub fn keysym_to_action(keysym: u32) -> (r: Option<KeyAction>)
    ensures
        r == action_of(keysym),
{
    if keysym == 0xff08 {
        Some(KeyAction::Backspace)
    } else if keysym == 0xff0d || keysym == 0xff8d {
        Some(KeyAction::Return)
    } else if keysym == 0xff1b {
        Some(KeyAction::Escape)
    } else if (0x0020 <= keysym && keysym <= 0x007e) || (0x00a0 <= keysym && keysym <= 0x00ff) {
        Some(KeyAction::Character(latin1_char(keysym)))
    } else {
        None
    }
}

/// The keysym at `i`, 0 when out of range.
fn get_sym(m: &KeyboardMap, i: usize) -> (r: u32)
    ensures
        r == sym_at(*m, i as int),
{
    if i < m.keysyms.len() { m.keysyms[i] } else { 0 }
}

/// The action of a key press with modifier state `state`.
pub fn resolve_key(mapping: &KeyboardMap, keycode: u8, state: u16) -> (r: Option<KeyAction>)
    requires
        keycode >= mapping.min_keycode,
        (keycode - mapping.min_keycode) * mapping.keysyms_per_keycode < usize::MAX,
    ensures
        r == action_of(effective_keysym(*mapping, keycode, state)),
{
    let offset = (keycode - mapping.min_keycode) as usize * mapping.keysyms_per_keycode;
    let shifted = state & shift_mask() != 0;
    let caps_lock = state & lock_mask() != 0;
    let base_sym = get_sym(mapping, offset);
    let shift_sym = if mapping.keysyms_per_keycode > 1 { get_sym(mapping, offset + 1) } else { 0 };
    let keysym = if shifted && caps_lock && is_letter(base_sym) {
        base_sym
    } else if shifted {
        if shift_sym != 0 { shift_sym } else { base_sym }
    } else if caps_lock && is_letter(base_sym) {
        if shift_sym != 0 { shift_sym } else { base_sym }
    } else {
        base_sym
    };
    keysym_to_action(keysym)
}

/// Shift and Caps Lock together leave a letter unchanged; either alone
/// gives the shifted keysym (when there is one).
pub proof fn lemma_shift_caps_cancel(m: KeyboardMap, keycode: u8)
    requires
        keycode >= m.min_keycode,
        is_letter_sym(sym_at(m, (keycode - m.min_keycode) * m.keysyms_per_keycode)),
    ensures
        effective_keysym(m, keycode, 3) == sym_at(m, (keycode - m.min_keycode) * m.keysyms_per_keycode),
        effective_keysym(m, keycode, 1) == effective_keysym(m, keycode, 2),
{
    assert(3u16 & 1u16 == 1u16) by (bit_vector);
    assert(3u16 & 2u16 == 2u16) by (bit_vector);
    assert(1u16 & 1u16 == 1u16) by (bit_vector);
    assert(1u16 & 2u16 == 0u16) by (bit_vector);
    assert(2u16 & 1u16 == 0u16) by (bit_vector);
    assert(2u16 & 2u16 == 2u16) by (bit_vector);
}

} // verus!
