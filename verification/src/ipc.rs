//! The framing of i3's IPC protocol: every message is the magic `i3-ipc`,
//! the payload length and the message type (both little-endian `u32`), then
//! the payload. The socket itself is the caller's.

use vstd::prelude::*;
use crate::linbus::marshal::{le_u32, push_u32};
use crate::linbus::unmarshal::le32;

verus! {

/// The magic that starts every message: `i3-ipc`.
pub const I3_MAGIC: [u8; 6] = [0x69, 0x33, 0x2d, 0x69, 0x70, 0x63];
/// Length of the header: magic, length, type.
pub const HEADER_LEN: usize = 14;

pub const MSG_RUN_COMMAND: u32 = 0;
pub const MSG_GET_WORKSPACES: u32 = 1;
pub const MSG_SUBSCRIBE: u32 = 2;
pub const MSG_GET_OUTPUTS: u32 = 3;
pub const MSG_GET_TREE: u32 = 4;

/// Event replies have bit 31 of the type set.
pub const EVENT_WORKSPACE: u32 = 0x8000_0000;
pub const EVENT_WINDOW: u32 = 0x8000_0003;

/// The magic as a sequence.
pub open spec fn magic() -> Seq<u8> {
    seq![0x69u8, 0x33u8, 0x2du8, 0x69u8, 0x70u8, 0x63u8]
}

/// A framed message. The length field holds the payload length truncated to
/// 32 bits.
pub open spec fn frame(msg_type: u32, payload: Seq<u8>) -> Seq<u8> {
    magic() + le_u32(payload.len() as u32) + le_u32(msg_type) + payload
}

/// Why a reply header was refused.
#[derive(Debug, Clone, Copy, PartialEq, Eq, Structural)]
pub enum IpcError {
    /// The header does not start with `i3-ipc`.
    BadMagic,
}

/// Frames a request of `msg_type` with `payload`.
pub fn encode_message(msg_type: u32, payload: &[u8]) -> (r: Vec<u8>)
    ensures
        r@ == frame(msg_type, payload@),
{
    let mut out: Vec<u8> = Vec::new();
    let mut k: usize = 0;
    while k < 6
        invariant
            k <= 6,
            out@ == magic().take(k as int),
        decreases 6 - k,
    {
        out.push(I3_MAGIC[k]);
        k += 1;
        proof { assert(out@ =~= magic().take(k as int)); }
    }
    proof { assert(magic().take(6) =~= magic()); }
    let len: u32 = #[verifier::truncate] (payload.len() as u32);
    push_u32(&mut out, len);
    push_u32(&mut out, msg_type);
    let ghost head = out@;
    let mut i: usize = 0;
    while i < payload.len()
        invariant
            i <= payload@.len(),
            out@ == head + payload@.take(i as int),
        decreases payload@.len() - i,
    {
        out.push(payload[i]);
        i += 1;
        proof { assert(out@ =~= head + payload@.take(i as int)); }
    }
    proof {
        assert(payload@.take(i as int) =~= payload@);
        assert(out@ =~= frame(msg_type, payload@));
    }
    out
}

/// Reads a reply header: `(type, payload length)`.
pub fn decode_header(header: &[u8]) -> (r: Result<(u32, usize), IpcError>)
    requires
        header@.len() == HEADER_LEN,
    ensures
        (match r {
            Ok((t, n)) => header@.take(6) == magic() && t == le32(header@, 10) && n == le32(header@, 6),
            Err(e) => header@.take(6) != magic() && e == IpcError::BadMagic,
        }),
{
    let mut k: usize = 0;
    while k < 6
        invariant
            k <= 6,
            header@.len() == HEADER_LEN,
            header@.take(k as int) == magic().take(k as int),
        decreases 6 - k,
    {
        if header[k] != I3_MAGIC[k] {
            proof { assert(header@.take(6)[k as int] != magic()[k as int]); }
            return Err(IpcError::BadMagic);
        }
        k += 1;
        proof { assert(header@.take(k as int) =~= magic().take(k as int)); }
    }
    proof { assert(magic().take(6) =~= magic()); }
    let len = header[6] as u32 + (header[7] as u32) * 256 + (header[8] as u32) * 65536 + (header[9] as u32) * 16777216;
    let t = header[10] as u32 + (header[11] as u32) * 256 + (header[12] as u32) * 65536 + (header[13] as u32) * 16777216;
    Ok((t, len as usize))
}

/// The header of a framed message reads back as its type and payload length.
pub proof fn lemma_header_roundtrip(msg_type: u32, payload: Seq<u8>)
    requires
        payload.len() <= u32::MAX,
    ensures
        frame(msg_type, payload).len() >= HEADER_LEN,
        frame(msg_type, payload).take(6) == magic(),
        le32(frame(msg_type, payload), 10) == msg_type,
        le32(frame(msg_type, payload), 6) == payload.len(),
{
    let f = frame(msg_type, payload);
    let n = payload.len() as u32;
    crate::linbus::roundtrip::lemma_le32(n);
    crate::linbus::roundtrip::lemma_le32(msg_type);
    assert(f.take(6) =~= magic());
    assert(f[6] == le_u32(n)[0] && f[7] == le_u32(n)[1] && f[8] == le_u32(n)[2] && f[9] == le_u32(n)[3]);
    assert(f[10] == le_u32(msg_type)[0] && f[11] == le_u32(msg_type)[1] && f[12] == le_u32(msg_type)[2]
        && f[13] == le_u32(msg_type)[3]);
}

} // verus!
