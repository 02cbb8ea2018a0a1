use vstd::prelude::*;
use crate::text::{decimal, decimal_chars, push_chars, push_str_chars};

verus! {

/// The I/O error of the standard library, carried through unread.
#[verifier::external_type_specification]
#[verifier::external_body]
pub struct ExIoError(std::io::Error);

/// The `nix` crate's error (an errno), carried through unread.
#[verifier::external_type_specification]
#[verifier::external_body]
pub struct ExErrno(nix::errno::Errno);

/// Errors of the D-Bus codec and connection layer.
#[derive(Debug)]
pub enum LinbusError {
    Io(std::io::Error),
    Nix(nix::errno::Errno),
    AuthFailed(String),
    ProtocolError(String),
    NameRequestFailed(u32),
    MethodError { name: String, message: String },
    Timeout,
    InvalidSignature(String),
}

/// Wrapper for `ToString::to_string` on `std::io::Error`: the error's
/// text as its `Display` writes it. What the text says is left unsaid.
#[verifier::external_body]
fn io_error_text(e: &std::io::Error) -> String {
    e.to_string()
}

/// Wrapper for `ToString::to_string` on `nix::errno::Errno`: the errno's
/// text as its `Display` writes it. What the text says is left unsaid.
#[verifier::external_body]
fn errno_text(e: &nix::errno::Errno) -> String {
    e.to_string()
}

impl LinbusError {
    /// The error as text (what `Display` shows).
    pub fn describe(&self) -> (r: String)
        ensures
            (match self {
                LinbusError::AuthFailed(s) => r@ == "auth failed: "@ + s@,
                LinbusError::ProtocolError(s) => r@ == "protocol error: "@ + s@,
                LinbusError::NameRequestFailed(code) => r@ == "RequestName failed (code="@ + decimal(*code as nat) + ")"@,
                LinbusError::MethodError { name, message } => r@ == "D-Bus error "@ + name@ + ": "@ + message@,
                LinbusError::Timeout => r@ == "timeout"@,
                LinbusError::InvalidSignature(s) => r@ == "invalid signature: "@ + s@,
                LinbusError::Io(_) => exists|t: Seq<char>| r@ == "I/O error: "@ + t,
                LinbusError::Nix(_) => exists|t: Seq<char>| r@ == "nix error: "@ + t,
            }),
    {
        let mut r = String::new();
        match self {
            LinbusError::Io(e) => {
                push_str_chars(&mut r, "I/O error: ");
                let t = io_error_text(e);
                push_str_chars(&mut r, t.as_str());
            },
            LinbusError::Nix(e) => {
                push_str_chars(&mut r, "nix error: ");
                let t = errno_text(e);
                push_str_chars(&mut r, t.as_str());
            },
            LinbusError::AuthFailed(s) => {
                push_str_chars(&mut r, "auth failed: ");
                push_str_chars(&mut r, s.as_str());
            },
            LinbusError::ProtocolError(s) => {
                push_str_chars(&mut r, "protocol error: ");
                push_str_chars(&mut r, s.as_str());
            },
            LinbusError::NameRequestFailed(code) => {
                push_str_chars(&mut r, "RequestName failed (code=");
                push_chars(&mut r, decimal_chars(*code as u64).as_slice());
                push_str_chars(&mut r, ")");
            },
            LinbusError::MethodError { name, message } => {
                push_str_chars(&mut r, "D-Bus error ");
                push_str_chars(&mut r, name.as_str());
                push_str_chars(&mut r, ": ");
                push_str_chars(&mut r, message.as_str());
            },
            LinbusError::Timeout => {
                push_str_chars(&mut r, "timeout");
            },
            LinbusError::InvalidSignature(s) => {
                push_str_chars(&mut r, "invalid signature: ");
                push_str_chars(&mut r, s.as_str());
            },
        }
        r
    }
}

} // verus!
