//! Who is authenticated, and with which PAM service: the environment's
//! answers (read by the caller) with their fallbacks.

use vstd::prelude::*;

verus! {

/// The PAM service used when none is configured.
pub const DEFAULT_PAM_SERVICE: &'static str = "i3more-lock";

/// The PAM service: the value of `I3MORE_LOCK_PAM_SERVICE` when set, else
/// `i3more-lock`.
pub fn pam_service_from(configured: Option<String>) -> (r: String)
    ensures
        r@ == (match configured {
            Some(s) => s@,
            None => DEFAULT_PAM_SERVICE@,
        }),
{
    match configured {
        Some(s) => s,
        None => DEFAULT_PAM_SERVICE.to_string(),
    }
}

/// The user name: `USER` when set, else `LOGNAME`, else `unknown`.
pub fn username_from(user: Option<String>, logname: Option<String>) -> (r: String)
    ensures
        r@ == (match user {
            Some(u) => u@,
            None => match logname {
                Some(l) => l@,
                None => "unknown"@,
            },
        }),
{
    match user {
        Some(u) => u,
        None => match logname {
            Some(l) => l,
            None => "unknown".to_string(),
        },
    }
}

} // verus!
