//! The decisions of a bus connection that do not touch the socket: where
//! the bus address points, the SASL EXTERNAL lines, cutting complete
//! messages off the receive buffer, and telling a method's reply apart.

use vstd::prelude::*;
use vstd::utf8::*;
use crate::icon::{hex_digit, hex_digit_char};
use crate::linbus::error::LinbusError;
use crate::linbus::message::{
    Message, MessageType, MsgModel, msg_total, body_start, body_in_range, header_len, spec_message, read_message,
    message_length,
};
use crate::linbus::unmarshal::fault_matches;
use crate::linbus::value::{Value, VModel, str_of, u32_of, models, model, lemma_models};
use crate::linbus::unmarshal::le32;
use crate::text::{
    chars_of, string_of, split_on, split_chars, strip_prefix, strip_prefix_chars, starts_with, starts_with_chars,
    decimal, decimal_chars, push_char, push_chars, push_str_chars, str_from_utf8, sbytes,
};

verus! {

broadcast use vstd::seq::group_seq_axioms;

/// The socket of the first `key=value` in `kvs` that names one: `path=` as
/// is, `abstract=` with a leading NUL (the abstract namespace).
pub open spec fn kv_socket(kvs: Seq<Seq<char>>) -> Option<Seq<char>>
    decreases kvs.len(),
{
    if kvs.len() == 0 {
        None
    } else {
        match strip_prefix(kvs[0], "path="@) {
            Some(p) => Some(p),
            None => match strip_prefix(kvs[0], "abstract="@) {
                Some(a) => Some(seq!['\0'] + a),
                None => kv_socket(kvs.drop_first()),
            },
        }
    }
}

/// The socket of the first `unix:` address (of those separated by `;`)
/// that names one.
pub open spec fn address_socket(parts: Seq<Seq<char>>) -> Option<Seq<char>>
    decreases parts.len(),
{
    if parts.len() == 0 {
        None
    } else {
        match strip_prefix(parts[0], "unix:"@) {
            Some(rest) => match kv_socket(split_on(rest, ',')) {
                Some(s) => Some(s),
                None => address_socket(parts.drop_first()),
            },
            None => address_socket(parts.drop_first()),
        }
    }
}

fn kv_socket_exec(kvs: &Vec<Vec<char>>) -> (r: Option<Vec<char>>)
    ensures
        (match r {
            Some(s) => kv_socket(kvs@.map_values(|v: Vec<char>| v@)) == Some(s@),
            None => kv_socket(kvs@.map_values(|v: Vec<char>| v@)) is None,
        }),
{
    let ghost kv = kvs@.map_values(|v: Vec<char>| v@);
    let path = chars_of("path=");
    let abs = chars_of("abstract=");
    let mut i: usize = 0;
    proof { assert(kv.skip(0) =~= kv); }
    while i < kvs.len()
        invariant
            i <= kvs@.len(),
            kv == kvs@.map_values(|v: Vec<char>| v@),
            path@ == "path="@,
            abs@ == "abstract="@,
            kv_socket(kv) == kv_socket(kv.skip(i as int)),
        decreases kvs@.len() - i,
    {
        proof {
            assert(kv.skip(i as int)[0] == kvs@[i as int]@);
            assert(kv.skip(i as int).drop_first() =~= kv.skip(i + 1));
        }
        if let Some(p) = strip_prefix_chars(kvs[i].as_slice(), path.as_slice()) {
            return Some(p);
        }
        if let Some(a) = strip_prefix_chars(kvs[i].as_slice(), abs.as_slice()) {
            let mut r = vec!['\0'];
            let mut k: usize = 0;
            while k < a.len()
                invariant
                    k <= a@.len(),
                    r@ == seq!['\0'] + a@.take(k as int),
                decreases a@.len() - k,
            {
                r.push(a[k]);
                k += 1;
                proof { assert(r@ =~= seq!['\0'] + a@.take(k as int)); }
            }
            proof { assert(a@.take(k as int) =~= a@); }
            return Some(r);
        }
        i += 1;
    }
    proof { assert(kv.skip(i as int) =~= Seq::<Seq<char>>::empty()); }
    None
}

/// The socket path of a bus address such as `unix:path=/run/user/1000/bus`
/// or `unix:abstract=/tmp/dbus-x,guid=...` (several separated by `;`); an
/// abstract socket's path starts with NUL. `None` when no `unix:` address
/// names a socket.
pub fn parse_bus_address(addr: &str) -> (r: Option<String>)
    ensures
        (match r {
            Some(s) => address_socket(split_on(addr@, ';')) == Some(s@),
            None => address_socket(split_on(addr@, ';')) is None,
        }),
{
    let parts = split_chars(chars_of(addr).as_slice(), ';');
    let ghost pv = parts@.map_values(|v: Vec<char>| v@);
    proof { assert(pv == split_on(addr@, ';')); }
    let unix = chars_of("unix:");
    let mut i: usize = 0;
    proof { assert(pv.skip(0) =~= pv); }
    while i < parts.len()
        invariant
            i <= parts@.len(),
            pv == parts@.map_values(|v: Vec<char>| v@),
            unix@ == "unix:"@,
            pv == split_on(addr@, ';'),
            address_socket(pv) == address_socket(pv.skip(i as int)),
        decreases parts@.len() - i,
    {
        proof {
            assert(pv.skip(i as int)[0] == parts@[i as int]@);
            assert(pv.skip(i as int).drop_first() =~= pv.skip(i + 1));
        }
        if let Some(rest) = strip_prefix_chars(parts[i].as_slice(), unix.as_slice()) {
            let kvs = split_chars(rest.as_slice(), ',');
            proof {
                assert(strip_prefix(pv.skip(i as int)[0], "unix:"@) == Some(rest@));
                assert(kvs@.map_values(|v: Vec<char>| v@) == split_on(rest@, ','));
            }
            if let Some(s) = kv_socket_exec(&kvs) {
                let r = string_of(s.as_slice());
                proof { assert(address_socket(pv.skip(i as int)) == Some(s@)); }
                return Some(r);
            }
        }
        i += 1;
    }
    proof { assert(pv.skip(i as int) =~= Seq::<Seq<char>>::empty()); }
    None
}

/// Two lowercase hex digits of a byte (`{:02x}`).
pub open spec fn hex2(b: u8) -> Seq<char> {
    seq![hex_digit((b / 16) as nat), hex_digit((b % 16) as nat)]
}

/// Each (ASCII) character written as the two hex digits of its byte.
pub open spec fn hex_ascii(s: Seq<char>) -> Seq<char>
    decreases s.len(),
{
    if s.len() == 0 { Seq::empty() } else { hex_ascii(s.drop_last()) + hex2((s.last() as u32) as u8) }
}

/// The uid as SASL EXTERNAL sends it: its decimal digits, hex-encoded.
pub open spec fn uid_hex(uid: u32) -> Seq<char> {
    hex_ascii(decimal(uid as nat))
}

/// The uid's decimal digits, hex-encoded (`1000` becomes `31303030`).
pub fn hex_encode_uid(uid: u32) -> (r: String)
    ensures
        r@ == uid_hex(uid),
{
    let d = decimal_chars(uid as u64);
    let mut s = String::new();
    let mut i: usize = 0;
    while i < d.len()
        invariant
            i <= d@.len(),
            d@ == decimal(uid as nat),
            s@ == hex_ascii(d@.take(i as int)),
        decreases d@.len() - i,
    {
        let c = d[i];
        let b: u8 = #[verifier::truncate] ((c as u32) as u8);
        push_char(&mut s, hex_digit_char((b / 16) as u64));
        push_char(&mut s, hex_digit_char((b % 16) as u64));
        proof {
            assert(d@.take(i + 1).drop_last() =~= d@.take(i as int));
            assert(d@.take(i + 1).last() == c);
        }
        i += 1;
        proof { assert(s@ =~= hex_ascii(d@.take(i as int))); }
    }
    proof { assert(d@.take(i as int) =~= d@); }
    s
}

/// `AUTH EXTERNAL <hex uid>\r\n`.
pub fn auth_line(uid: u32) -> (r: String)
    ensures
        r@ == "AUTH EXTERNAL "@ + uid_hex(uid) + "\r\n"@,
{
    let mut s = String::new();
    push_str_chars(&mut s, "AUTH EXTERNAL ");
    let h = hex_encode_uid(uid);
    push_str_chars(&mut s, h.as_str());
    push_str_chars(&mut s, "\r\n");
    s
}

/// Whether the server accepted the authentication (`OK <guid>`).
pub fn auth_accepted(response: &str) -> (r: bool)
    ensures
        r == starts_with(response@, "OK "@),
{
    starts_with_chars(chars_of(response).as_slice(), chars_of("OK ").as_slice())
}

/// Where reading a response line stands.
pub enum LineStatus {
    /// No `\r\n` yet; read on.
    Pending,
    /// The line, without its `\r\n`.
    Line(String),
    /// The line is not valid UTF-8.
    Invalid,
    /// More than 4096 bytes without `\r\n`.
    TooLong,
}

/// The bytes end with `\r\n`.
pub open spec fn ends_crlf(b: Seq<u8>) -> bool {
    b.len() >= 2 && b[b.len() - 2] == 13 && b[b.len() - 1] == 10
}

/// Whether a received line is complete, and what it says.
pub fn line_status(buf: &[u8]) -> (r: LineStatus)
    ensures
        (match r {
            LineStatus::Line(s) => ends_crlf(buf@) && sbytes(s) == buf@.drop_last().drop_last(),
            LineStatus::Invalid => ends_crlf(buf@) && !valid_utf8(buf@.drop_last().drop_last()),
            LineStatus::TooLong => !ends_crlf(buf@) && buf@.len() > 4096,
            LineStatus::Pending => !ends_crlf(buf@) && buf@.len() <= 4096,
        }),
{
    let n = buf.len();
    if n >= 2 && buf[n - 2] == 13 && buf[n - 1] == 10 {
        let body = vstd::slice::slice_subrange(buf, 0, n - 2);
        proof { assert(body@ =~= buf@.drop_last().drop_last()); }
        return match str_from_utf8(body) {
            Some(s) => LineStatus::Line(s.to_owned()),
            None => LineStatus::Invalid,
        };
    }
    if n > 4096 {
        return LineStatus::TooLong;
    }
    LineStatus::Pending
}

/// Cuts the first complete message off the receive buffer and reads it;
/// `None` while the buffer holds less than a whole message.
pub fn take_message(buf: &mut Vec<u8>) -> (r: Result<Option<Message>, LinbusError>)
    requires
        old(buf)@.len() <= isize::MAX,
        old(buf)@.len() >= 16 ==> msg_total(old(buf)@) <= usize::MAX,
    ensures
        (old(buf)@.len() < 16 || old(buf)@.len() < msg_total(old(buf)@)) ==> (r matches Ok(None) && final(buf)@ == old(buf)@),
        (old(buf)@.len() >= 16 && old(buf)@.len() >= msg_total(old(buf)@)) ==> {
            let n = msg_total(old(buf)@);
            &&& final(buf)@ == old(buf)@.skip(n)
            &&& match r {
                Ok(Some(m)) => spec_message(old(buf)@.take(n)) matches Ok((mm, _)) && mm == m@,
                Ok(None) => false,
                Err(e) => spec_message(old(buf)@.take(n)) matches Err(f) && fault_matches(f, e),
            }
        },
{
    let len = match message_length(buf.as_slice()) {
        Some(n) => n,
        None => return Ok(None),
    };
    if buf.len() < len {
        return Ok(None);
    }
    let ghost b0 = buf@;
    let data = vstd::slice::slice_to_vec(vstd::slice::slice_subrange(buf.as_slice(), 0, len));
    let rest = vstd::slice::slice_to_vec(vstd::slice::slice_subrange(buf.as_slice(), len, buf.len()));
    proof {
        let d = data@;
        assert(d =~= b0.take(len as int));
        assert(rest@ =~= b0.skip(len as int));
        assert(d[4] == b0[4] && d[5] == b0[5] && d[6] == b0[6] && d[7] == b0[7]);
        assert(d[12] == b0[12] && d[13] == b0[13] && d[14] == b0[14] && d[15] == b0[15]);
        assert(header_len(d) == header_len(b0));
        assert(le32(d, 4) == le32(b0, 4));
        assert(body_start(d) == body_start(b0));
        assert(msg_total(d) == msg_total(b0));
        assert(body_start(d) <= d.len()) by {
            assert(le32(b0, 4) >= 0);
        }
    }
    *buf = rest;
    match read_message(data.as_slice()) {
        Ok((m, _)) => Ok(Some(m)),
        Err(e) => Err(e),
    }
}

/// How a received message relates to a call with serial `serial`.
pub enum ReplyMatch {
    /// Not a reply to this call; keep reading.
    Other,
    /// The method's return.
    Reply(Message),
    /// The method failed: its error name and first string argument.
    Failed(LinbusError),
}

/// The first string argument of a body (through variants), empty if none.
pub open spec fn first_str(body: Seq<VModel>) -> Seq<u8> {
    if body.len() > 0 && str_of(body[0]) is Some { str_of(body[0])->0 } else { Seq::empty() }
}

/// The `MethodError` of an error reply: its error name (empty if absent)
/// and first string argument (empty if none).
pub open spec fn method_error_of(m: MsgModel, e: LinbusError) -> bool {
    e matches LinbusError::MethodError { name, message }
        && sbytes(name) == (match m.error_name {
            Some(n) => n,
            None => Seq::empty(),
        })
        && sbytes(message) == first_str(m.body)
}

/// The error that an error reply stands for.
pub fn method_error(msg: &Message) -> (e: LinbusError)
    ensures
        method_error_of(msg@, e),
{
    proof { lemma_models(msg.body@); }
    let name = match &msg.error_name {
        Some(n) => n.clone(),
        None => {
            let e = String::new();
            proof { assert(e@ =~= Seq::<char>::empty()); assert(sbytes(e) =~= Seq::<u8>::empty()); }
            e
        },
    };
    let empty = String::new();
    proof { assert(empty@ =~= Seq::<char>::empty()); assert(sbytes(empty) =~= Seq::<u8>::empty()); }
    let message = if msg.body.len() > 0 {
        match msg.body[0].as_str() {
            Some(s) => s.to_owned(),
            None => empty,
        }
    } else {
        empty
    };
    LinbusError::MethodError { name, message }
}

/// Sorts a received message for a pending call: a message whose reply
/// serial is the call's is its reply, or its failure when it is an error.
pub fn match_reply(msg: Message, serial: u32) -> (r: ReplyMatch)
    ensures
        (match r {
            ReplyMatch::Other => msg@.reply_serial != Some(serial),
            ReplyMatch::Reply(m) => msg@.reply_serial == Some(serial) && msg@.msg_type != MessageType::Error && m@ == msg@,
            ReplyMatch::Failed(e) => msg@.reply_serial == Some(serial) && msg@.msg_type == MessageType::Error
                && method_error_of(msg@, e),
        }),
{
    if msg.reply_serial != Some(serial) {
        return ReplyMatch::Other;
    }
    if msg.msg_type == MessageType::Error {
        return ReplyMatch::Failed(method_error(&msg));
    }
    ReplyMatch::Reply(msg)
}

/// The first argument of a reply as a `u32` (through variants), 0 if none.
pub open spec fn first_u32(body: Seq<VModel>) -> u32 {
    if body.len() > 0 && u32_of(body[0]) is Some { u32_of(body[0])->0 } else { 0 }
}

/// The outcome of `RequestName` from its reply body: primary owner (1) and
/// already owner (4) succeed, any other code fails with that code.
pub fn name_request_result(body: &[Value]) -> (r: Result<(), LinbusError>)
    ensures
        (match r {
            Ok(()) => first_u32(models(body@)) == 1 || first_u32(models(body@)) == 4,
            Err(e) => first_u32(models(body@)) != 1 && first_u32(models(body@)) != 4
                && e == LinbusError::NameRequestFailed(first_u32(models(body@))),
        }),
{
    let code = if body.len() > 0 {
        match body[0].as_u32() {
            Some(c) => c,
            None => 0,
        }
    } else {
        0
    };
    proof {
        lemma_models(body@);
    }
    if code != 1 && code != 4 {
        return Err(LinbusError::NameRequestFailed(code));
    }
    Ok(())
}

/// The unique name a `Hello` reply assigns: its first string argument, or
/// empty.
pub fn unique_name_of(reply: &Message) -> (r: String)
    ensures
        sbytes(r) == first_str(reply@.body),
{
    proof { lemma_models(reply.body@); }
    let empty = String::new();
    proof { assert(empty@ =~= Seq::<char>::empty()); assert(sbytes(empty) =~= Seq::<u8>::empty()); }
    if reply.body.len() > 0 {
        match reply.body[0].as_str() {
            Some(s) => s.to_owned(),
            None => empty,
        }
    } else {
        empty
    }
}

/// A call of the bus daemon's `member` (on `org.freedesktop.DBus` at
/// `/org/freedesktop/DBus`) with the given arguments.
pub open spec fn bus_call_model(member: Seq<char>, body: Seq<VModel>) -> MsgModel {
    MsgModel {
        path: Some(encode_utf8("/org/freedesktop/DBus"@)),
        interface: Some(encode_utf8("org.freedesktop.DBus"@)),
        member: Some(encode_utf8(member)),
        destination: Some(encode_utf8("org.freedesktop.DBus"@)),
        body,
        ..crate::linbus::message::bare(MessageType::MethodCall, 0, 0)
    }
}

/// `RequestName` for `name` with the flags allow-replacement,
/// replace-existing and do-not-queue (7).
pub fn request_name_msg(name: &str) -> (m: Message)
    ensures
        m@ == bus_call_model("RequestName"@, seq![VModel::Str(encode_utf8(name@)), VModel::U32(7)]),
{
    let flags: u32 = 0x1 | 0x2 | 0x4;
    assert(0x1u32 | 0x2u32 | 0x4u32 == 7u32) by (bit_vector);
    let body = vec![Value::String(name.to_owned()), Value::U32(flags)];
    let m = Message::method_call("org.freedesktop.DBus", "/org/freedesktop/DBus", "org.freedesktop.DBus", "RequestName")
        .with_body(body);
    proof {
        lemma_models(body@);
        assert(models(body@) =~= seq![VModel::Str(encode_utf8(name@)), VModel::U32(7)]);
    }
    m
}

/// A call of the bus daemon's `member` with one string argument
/// (`ReleaseName`, `AddMatch`, `RemoveMatch`).
pub fn bus_string_call(member: &str, arg: &str) -> (m: Message)
    ensures
        m@ == bus_call_model(member@, seq![VModel::Str(encode_utf8(arg@))]),
{
    let body = vec![Value::String(arg.to_owned())];
    let m = Message::method_call("org.freedesktop.DBus", "/org/freedesktop/DBus", "org.freedesktop.DBus", member)
        .with_body(body);
    proof {
        lemma_models(body@);
        assert(models(body@) =~= seq![VModel::Str(encode_utf8(arg@))]);
    }
    m
}

} // verus!
