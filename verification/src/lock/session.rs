//! The password prompt's decisions: which key presses count, when to
//! authenticate, how long to lock out after repeated failures, and the
//! dots that stand for the typed password.
//!
//! The caller holds the password buffer and the timers; it hands each key
//! press and authentication result here, with the current time in
//! milliseconds, and carries out the effect that comes back.

use vstd::prelude::*;
use vstd::arithmetic::power2::pow2;
use crate::lock::keys::KeyAction;
use crate::text::{push_char, chars_of};

verus! {

/// The lockout, in seconds, after `failed_count` failed attempts: none
/// before the third, then 1 s doubling up to 32 s.
pub open spec fn backoff(failed_count: u32) -> Option<u64> {
    if failed_count < 3 {
        None
    } else {
        let k = if failed_count - 3 < 5 { failed_count - 3 } else { 5 };
        Some(pow2(k as nat) as u64)
    }
}

/// Brute-force backoff for a failure count.
pub fn backoff_secs(failed_count: u32) -> (r: Option<u64>)
    ensures
        r == backoff(failed_count),
{
    if failed_count < 3 {
        return None;
    }
    let d = failed_count - 3;
    let k: u64 = if d < 5 { d as u64 } else { 5 };
    proof {
        vstd::arithmetic::power2::lemma2_to64();
        vstd::bits::lemma_u64_shl_is_mul(1, k);
    }
    Some(1u64 << k)
}

/// The lockout grows with the failure count and never exceeds 32 s.
pub proof fn lemma_backoff_monotone(a: u32, b: u32)
    requires
        3 <= a <= b,
    ensures
        backoff(a) is Some && backoff(b) is Some,
        backoff(a)->0 <= backoff(b)->0,
        1 <= backoff(a)->0 <= 32,
{
    vstd::arithmetic::power2::lemma2_to64();
    let ka = if a - 3 < 5 { a - 3 } else { 5 };
    let kb = if b - 3 < 5 { b - 3 } else { 5 };
    assert(ka == 0 || ka == 1 || ka == 2 || ka == 3 || ka == 4 || ka == 5);
    assert(kb == 0 || kb == 1 || kb == 2 || kb == 3 || kb == 4 || kb == 5);
}

/// What to do with a key press.
#[derive(Debug, Clone, Copy, PartialEq, Eq, Structural)]
pub enum KeyEffect {
    /// The key does not count (authenticating or locked out).
    Ignored,
    /// Append the character to the password.
    Append(char),
    /// Remove the last character of the password.
    RemoveLast,
    /// Clear the password.
    Clear,
    /// Authenticate with the password.
    Submit,
    /// Return with an empty password: nothing to do.
    EmptySubmit,
}

/// A key press's effect, and whether it ended an expired lockout (the
/// lockout message is then cleared).
#[derive(Debug, Clone, Copy, PartialEq, Eq, Structural)]
pub struct KeyOutcome {
    pub lock_expired: bool,
    pub effect: KeyEffect,
}

/// The prompt's state.
#[derive(Debug, Clone, Copy, PartialEq, Eq, Structural)]
pub struct LockSession {
    pub failed_attempts: u32,
    /// End of the current lockout, in milliseconds.
    pub locked_until_ms: Option<u64>,
    /// An authentication is in progress.
    pub authenticating: bool,
}

/// Whether key presses are ignored at `now`.
pub open spec fn blocked(s: LockSession, now_ms: u64) -> bool {
    s.authenticating || (s.locked_until_ms matches Some(u) && now_ms < u)
}

/// The outcome of a key press.
pub open spec fn key_outcome(s: LockSession, action: KeyAction, password_len: usize, now_ms: u64) -> KeyOutcome {
    if blocked(s, now_ms) {
        KeyOutcome { lock_expired: false, effect: KeyEffect::Ignored }
    } else {
        KeyOutcome {
            lock_expired: s.locked_until_ms is Some,
            effect: match action {
                KeyAction::Character(c) => KeyEffect::Append(c),
                KeyAction::Backspace => KeyEffect::RemoveLast,
                KeyAction::Escape => KeyEffect::Clear,
                KeyAction::Return => if password_len == 0 { KeyEffect::EmptySubmit } else { KeyEffect::Submit },
            },
        }
    }
}

/// The state after a key press.
pub open spec fn after_key(s: LockSession, action: KeyAction, password_len: usize, now_ms: u64) -> LockSession {
    if blocked(s, now_ms) {
        s
    } else {
        LockSession {
            failed_attempts: s.failed_attempts,
            locked_until_ms: None,
            authenticating: action == KeyAction::Return && password_len > 0,
        }
    }
}

/// The password after a key press's effect: the character appended, the
/// last character removed (nothing when empty), or everything cleared.
pub open spec fn after_effect(p: Seq<char>, e: KeyEffect) -> Seq<char> {
    match e {
        KeyEffect::Append(c) => p.push(c),
        KeyEffect::RemoveLast => if p.len() > 0 { p.drop_last() } else { p },
        KeyEffect::Clear => Seq::empty(),
        _ => p,
    }
}

/// Carries out a key press's effect on the password buffer.
pub fn apply_effect(password: &mut String, effect: KeyEffect)
    ensures
        final(password)@ == after_effect(old(password)@, effect),
{
    match effect {
        KeyEffect::Append(c) => push_char(password, c),
        KeyEffect::RemoveLast => {
            let cs = chars_of(password.as_str());
            if cs.len() > 0 {
                let keep = cs.len() - 1;
                let mut kept = String::new();
                let mut i: usize = 0;
                while i < keep
                    invariant
                        i <= keep,
                        keep == cs@.len() - 1,
                        kept@ == cs@.take(i as int),
                    decreases keep - i,
                {
                    push_char(&mut kept, cs[i]);
                    i += 1;
                    proof { assert(kept@ =~= cs@.take(i as int)); }
                }
                proof { assert(kept@ =~= cs@.drop_last()); }
                *password = kept;
            }
        },
        KeyEffect::Clear => {
            *password = String::new();
        },
        _ => {},
    }
}

impl LockSession {
    /// No failures, no lockout, nothing in progress.
    pub fn new() -> (s: Self)
        ensures
            s == (LockSession { failed_attempts: 0, locked_until_ms: None, authenticating: false }),
    {
        LockSession { failed_attempts: 0, locked_until_ms: None, authenticating: false }
    }

    /// Handles a key press with the password `password_len` characters long.
    pub fn handle_key(&mut self, action: KeyAction, password_len: usize, now_ms: u64) -> (r: KeyOutcome)
        ensures
            r == key_outcome(*old(self), action, password_len, now_ms),
            *final(self) == after_key(*old(self), action, password_len, now_ms),
    {
        if self.authenticating {
            return KeyOutcome { lock_expired: false, effect: KeyEffect::Ignored };
        }
        let mut lock_expired = false;
        if let Some(until) = self.locked_until_ms {
            if now_ms < until {
                return KeyOutcome { lock_expired: false, effect: KeyEffect::Ignored };
            }
            self.locked_until_ms = None;
            lock_expired = true;
        }
        let effect = match action {
            KeyAction::Character(c) => KeyEffect::Append(c),
            KeyAction::Backspace => KeyEffect::RemoveLast,
            KeyAction::Escape => KeyEffect::Clear,
            KeyAction::Return => {
                if password_len == 0 {
                    KeyEffect::EmptySubmit
                } else {
                    self.authenticating = true;
                    KeyEffect::Submit
                }
            },
        };
        KeyOutcome { lock_expired, effect }
    }

    /// Handles a key press against the password buffer itself: decides the
    /// effect from the buffer's emptiness and carries it out on the buffer.
    pub fn press_key(&mut self, password: &mut String, action: KeyAction, now_ms: u64) -> (r: KeyOutcome)
        ensures
            r == key_outcome(*old(self), action, old(password)@.len() as usize, now_ms),
            *final(self) == after_key(*old(self), action, old(password)@.len() as usize, now_ms),
            final(password)@ == after_effect(old(password)@, r.effect),
    {
        let len = chars_of(password.as_str()).len();
        let r = self.handle_key(action, len, now_ms);
        apply_effect(password, r.effect);
        r
    }

    /// A rejected password: records the failure as `auth_failed` does and
    /// clears the buffer.
    pub fn reject(&mut self, password: &mut String, now_ms: u64) -> (r: Option<u64>)
        requires
            old(self).failed_attempts < u32::MAX,
            now_ms <= u64::MAX - 32000,
        ensures
            final(self).failed_attempts == old(self).failed_attempts + 1,
            !final(self).authenticating,
            r == backoff(final(self).failed_attempts),
            final(self).locked_until_ms == (match r {
                Some(secs) => Some((now_ms + secs * 1000) as u64),
                None => old(self).locked_until_ms,
            }),
            final(password)@.len() == 0,
    {
        let r = self.auth_failed(now_ms);
        apply_effect(password, KeyEffect::Clear);
        r
    }

    /// Records a failed authentication at `now_ms`; returns the lockout in
    /// seconds, if one starts.
    pub fn auth_failed(&mut self, now_ms: u64) -> (r: Option<u64>)
        requires
            old(self).failed_attempts < u32::MAX,
            now_ms <= u64::MAX - 32000,
        ensures
            final(self).failed_attempts == old(self).failed_attempts + 1,
            !final(self).authenticating,
            r == backoff(final(self).failed_attempts),
            final(self).locked_until_ms == (match r {
                Some(secs) => Some((now_ms + secs * 1000) as u64),
                None => old(self).locked_until_ms,
            }),
    {
        self.authenticating = false;
        self.failed_attempts = self.failed_attempts + 1;
        let b = backoff_secs(self.failed_attempts);
        if let Some(secs) = b {
            proof { lemma_backoff_monotone(self.failed_attempts, self.failed_attempts); }
            self.locked_until_ms = Some(now_ms + secs * 1000);
        }
        b
    }

    /// The authentication ended without a result; input is accepted again.
    pub fn auth_aborted(&mut self)
        ensures
            final(self).failed_attempts == old(self).failed_attempts,
            final(self).locked_until_ms == old(self).locked_until_ms,
            !final(self).authenticating,
    {
        self.authenticating = false;
    }
}

/// While an authentication runs, or a lockout lasts, every key press is
/// ignored and leaves the state unchanged.
pub proof fn lemma_blocked_ignores(s: LockSession, action: KeyAction, password_len: usize, now_ms: u64)
    requires
        blocked(s, now_ms),
    ensures
        key_outcome(s, action, password_len, now_ms).effect == KeyEffect::Ignored,
        after_key(s, action, password_len, now_ms) == s,
{
}

/// From the third failure on, a failure always starts a lockout that
/// blocks input until it ends.
pub proof fn lemma_failure_locks(failed: u32, now_ms: u64)
    requires
        failed >= 3,
        now_ms <= u64::MAX - 32000,
    ensures
        backoff(failed) is Some,
        blocked(LockSession {
            failed_attempts: failed,
            locked_until_ms: Some((now_ms + backoff(failed)->0 * 1000) as u64),
            authenticating: false,
        }, now_ms),
{
    lemma_backoff_monotone(failed, failed);
}

/// The prompt's dots for a password `n` characters long: one `●` per
/// character, two spaces apart.
pub open spec fn dots_text(n: nat) -> Seq<char>
    decreases n,
{
    if n == 0 {
        Seq::empty()
    } else if n == 1 {
        seq!['\u{25cf}']
    } else {
        dots_text((n - 1) as nat) + seq![' ', ' ', '\u{25cf}']
    }
}

/// The dots shown for a password of `count` characters.
pub fn password_dots(count: usize) -> (r: String)
    ensures
        r@ == dots_text(count as nat),
{
    let mut s = String::new();
    proof { assert(s@ =~= dots_text(0)); }
    let mut i: usize = 0;
    while i < count
        invariant
            i <= count,
            s@ == dots_text(i as nat),
        decreases count - i,
    {
        if i > 0 {
            push_char(&mut s, ' ');
            push_char(&mut s, ' ');
        }
        push_char(&mut s, '\u{25cf}');
        proof {
            if i == 0 {
                assert(s@ =~= dots_text(1));
            } else {
                assert(s@ =~= dots_text(i as nat) + seq![' ', ' ', '\u{25cf}']);
            }
        }
        i += 1;
    }
    s
}

} // verus!
