//! The screen locker's logic: key resolution for the X11 keyboard grab, the
//! password-entry session with its brute-force backoff, and the
//! configuration defaults and the PAM service and user name.

pub mod keys;
pub mod session;
pub mod config;
pub mod auth;
