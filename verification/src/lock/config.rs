//! Lock screen configuration (`~/.config/i3more/lock.json`); reading and
//! parsing the file is the caller's, with these defaults for what it lacks.

use vstd::prelude::*;

verus! {

/// The configuration of the lock screen.
pub struct LockConfig {
    /// `strftime`-style format of the clock.
    pub clock_format: String,
    pub avatar_path: Option<String>,
}

/// The clock format used when none is configured.
pub fn default_clock_format() -> (r: String)
    ensures
        r@ == "%H:%M"@,
{
    "%H:%M".to_string()
}

impl Default for LockConfig {
    fn default() -> (c: Self)
        ensures
            c.clock_format@ == "%H:%M"@,
            c.avatar_path is None,
    {
        LockConfig { clock_format: default_clock_format(), avatar_path: None }
    }
}

} // verus!
