//! D-Bus messages: construction, serialisation and parsing.

use vstd::prelude::*;
use vstd::utf8::*;
use crate::text::{sbytes, string_from_utf8, lemma_ascii_byte_valid};
use crate::linbus::error::LinbusError;
use crate::linbus::value::{
    Value, VModel, model, models, lemma_models, sig_list, str_of, u32_of, opt_str_bytes, C_STRING,
};
use crate::linbus::marshal::{zeros, le_u32, ser_list, marshal_body, marshal_list, push_u32, patch_u32, pad_to};
use crate::linbus::unmarshal::{
    Reader, ReadFault, pad, le32, spec_byte, spec_signature, parse, spec_body, pos_ok, fault_matches,
    lemma_small_pos_ok, lemma_align8,
};

verus! {

broadcast use vstd::seq::group_seq_axioms;

/// Endianness mark `l` (little-endian).
pub const C_LITTLE: u8 = 108;
/// Endianness mark `B` (big-endian).
pub const C_BIG: u8 = 66;

// Header field codes
pub const FIELD_PATH: u8 = 1;
pub const FIELD_INTERFACE: u8 = 2;
pub const FIELD_MEMBER: u8 = 3;
pub const FIELD_ERROR_NAME: u8 = 4;
pub const FIELD_REPLY_SERIAL: u8 = 5;
pub const FIELD_DESTINATION: u8 = 6;
pub const FIELD_SENDER: u8 = 7;
pub const FIELD_SIGNATURE: u8 = 8;

#[derive(Debug, Clone, Copy, PartialEq, Eq, Structural)]
pub enum MessageType {
    MethodCall,
    MethodReturn,
    Error,
    Signal,
}

/// Wire code of a message type.
pub open spec fn type_code(t: MessageType) -> u8 {
    match t {
        MessageType::MethodCall => 1,
        MessageType::MethodReturn => 2,
        MessageType::Error => 3,
        MessageType::Signal => 4,
    }
}

/// Message type of a wire code.
pub open spec fn type_of_code(c: u8) -> Option<MessageType> {
    if c == 1 {
        Some(MessageType::MethodCall)
    } else if c == 2 {
        Some(MessageType::MethodReturn)
    } else if c == 3 {
        Some(MessageType::Error)
    } else if c == 4 {
        Some(MessageType::Signal)
    } else {
        None
    }
}

impl MessageType {
    pub fn from_u8(v: u8) -> (r: Result<Self, LinbusError>)
        ensures
            (match r {
                Ok(t) => type_of_code(v) == Some(t),
                Err(e) => type_of_code(v) is None && e is ProtocolError,
            }),
    {
        if v == 1 {
            Ok(MessageType::MethodCall)
        } else if v == 2 {
            Ok(MessageType::MethodReturn)
        } else if v == 3 {
            Ok(MessageType::Error)
        } else if v == 4 {
            Ok(MessageType::Signal)
        } else {
            Err(LinbusError::ProtocolError("unknown msg type".to_owned()))
        }
    }

    pub fn to_u8(self) -> (r: u8)
        ensures
            r == type_code(self),
            type_of_code(r) == Some(self),
    {
        match self {
            MessageType::MethodCall => 1,
            MessageType::MethodReturn => 2,
            MessageType::Error => 3,
            MessageType::Signal => 4,
        }
    }
}

#[derive(Debug, Clone)]
pub struct Message {
    pub msg_type: MessageType,
    pub flags: u8,
    pub serial: u32,
    pub reply_serial: Option<u32>,
    pub path: Option<String>,
    pub interface: Option<String>,
    pub member: Option<String>,
    pub error_name: Option<String>,
    pub destination: Option<String>,
    pub sender: Option<String>,
    pub signature: Option<String>,
    pub body: Vec<Value>,
}

/// Mathematical model of a [`Message`]: strings are their UTF-8 bytes.
pub struct MsgModel {
    pub msg_type: MessageType,
    pub flags: u8,
    pub serial: u32,
    pub reply_serial: Option<u32>,
    pub path: Option<Seq<u8>>,
    pub interface: Option<Seq<u8>>,
    pub member: Option<Seq<u8>>,
    pub error_name: Option<Seq<u8>>,
    pub destination: Option<Seq<u8>>,
    pub sender: Option<Seq<u8>>,
    pub signature: Option<Seq<u8>>,
    pub body: Seq<VModel>,
}

/// UTF-8 bytes of an optional string.
pub open spec fn opt_sbytes(o: Option<String>) -> Option<Seq<u8>> {
    match o {
        Some(s) => Some(sbytes(s)),
        None => None,
    }
}

impl View for Message {
    type V = MsgModel;

    open spec fn view(&self) -> MsgModel {
        MsgModel {
            msg_type: self.msg_type,
            flags: self.flags,
            serial: self.serial,
            reply_serial: self.reply_serial,
            path: opt_sbytes(self.path),
            interface: opt_sbytes(self.interface),
            member: opt_sbytes(self.member),
            error_name: opt_sbytes(self.error_name),
            destination: opt_sbytes(self.destination),
            sender: opt_sbytes(self.sender),
            signature: opt_sbytes(self.signature),
            body: models(self.body@),
        }
    }
}

/// A message with every optional part absent and no body.
pub open spec fn bare(t: MessageType, flags: u8, serial: u32) -> MsgModel {
    MsgModel {
        msg_type: t,
        flags,
        serial,
        reply_serial: None,
        path: None,
        interface: None,
        member: None,
        error_name: None,
        destination: None,
        sender: None,
        signature: None,
        body: Seq::empty(),
    }
}

impl Message {
    pub fn method_call(dest: &str, path: &str, iface: &str, member: &str) -> (r: Self)
        ensures
            r@ == (MsgModel {
                path: Some(encode_utf8(path@)),
                interface: Some(encode_utf8(iface@)),
                member: Some(encode_utf8(member@)),
                destination: Some(encode_utf8(dest@)),
                ..bare(MessageType::MethodCall, 0, 0)
            }),
    {
        let r = Message {
            msg_type: MessageType::MethodCall,
            flags: 0,
            serial: 0,
            reply_serial: None,
            path: Some(path.to_owned()),
            interface: Some(iface.to_owned()),
            member: Some(member.to_owned()),
            error_name: None,
            destination: Some(dest.to_owned()),
            sender: None,
            signature: None,
            body: Vec::new(),
        };
        proof { assert(models(r.body@) =~= Seq::<VModel>::empty()); }
        r
    }

    pub fn method_return(reply_serial: u32) -> (r: Self)
        ensures
            r@ == (MsgModel { reply_serial: Some(reply_serial), ..bare(MessageType::MethodReturn, 0, 0) }),
    {
        let r = Message {
            msg_type: MessageType::MethodReturn,
            flags: 0,
            serial: 0,
            reply_serial: Some(reply_serial),
            path: None,
            interface: None,
            member: None,
            error_name: None,
            destination: None,
            sender: None,
            signature: None,
            body: Vec::new(),
        };
        proof { assert(models(r.body@) =~= Seq::<VModel>::empty()); }
        r
    }

    /// A signal; flags carry NO_REPLY_EXPECTED.
    pub fn signal(path: &str, iface: &str, member: &str) -> (r: Self)
        ensures
            r@ == (MsgModel {
                path: Some(encode_utf8(path@)),
                interface: Some(encode_utf8(iface@)),
                member: Some(encode_utf8(member@)),
                ..bare(MessageType::Signal, 1, 0)
            }),
    {
        let r = Message {
            msg_type: MessageType::Signal,
            flags: 1,
            serial: 0,
            reply_serial: None,
            path: Some(path.to_owned()),
            interface: Some(iface.to_owned()),
            member: Some(member.to_owned()),
            error_name: None,
            destination: None,
            sender: None,
            signature: None,
            body: Vec::new(),
        };
        proof { assert(models(r.body@) =~= Seq::<VModel>::empty()); }
        r
    }

    /// An error reply carrying its message as a single string.
    pub fn error(reply_serial: u32, error_name: &str, message: &str) -> (r: Self)
        ensures
            r@ == (MsgModel {
                reply_serial: Some(reply_serial),
                error_name: Some(encode_utf8(error_name@)),
                signature: Some(seq![C_STRING]),
                body: seq![VModel::Str(encode_utf8(message@))],
                ..bare(MessageType::Error, 1, 0)
            }),
    {
        proof { lemma_ascii_byte_valid(C_STRING); }
        let code = vec![C_STRING];
        assert(code@ =~= seq![C_STRING]);
        let s = string_from_utf8(code.as_slice());
        let r = Message {
            msg_type: MessageType::Error,
            flags: 1,
            serial: 0,
            reply_serial: Some(reply_serial),
            path: None,
            interface: None,
            member: None,
            error_name: Some(error_name.to_owned()),
            destination: None,
            sender: None,
            signature: Some(s),
            body: vec![Value::String(message.to_owned())],
        };
        proof {
            lemma_models(r.body@);
            assert(models(r.body@) =~= seq![VModel::Str(encode_utf8(message@))]);
        }
        r
    }

    pub fn with_body(self, body: Vec<Value>) -> (r: Self)
        ensures
            r@ == (MsgModel { body: models(body@), ..self@ }),
    {
        let mut m = self;
        m.body = body;
        m
    }
}

/// A header field: a struct of its code and its value in a variant.
pub open spec fn hfield(code: u8, v: VModel) -> VModel {
    VModel::Struct(seq![VModel::Byte(code), VModel::Variant(Box::new(v))])
}

/// The header field written for an optional part, if it is present.
pub open spec fn opt_field(code: u8, o: Option<VModel>) -> Seq<VModel> {
    match o {
        Some(v) => seq![hfield(code, v)],
        None => Seq::empty(),
    }
}

pub open spec fn str_field(o: Option<Seq<u8>>) -> Option<VModel> {
    match o {
        Some(s) => Some(VModel::Str(s)),
        None => None,
    }
}

/// Header fields written for a message whose body has signature `bsig`.
pub open spec fn header_fields(m: MsgModel, bsig: Seq<u8>) -> Seq<VModel> {
    opt_field(FIELD_PATH, match m.path {
        Some(p) => Some(VModel::ObjectPath(p)),
        None => None,
    }) + opt_field(FIELD_INTERFACE, str_field(m.interface)) + opt_field(FIELD_MEMBER, str_field(m.member))
        + opt_field(FIELD_ERROR_NAME, str_field(m.error_name)) + opt_field(FIELD_REPLY_SERIAL, match m.reply_serial {
        Some(x) => Some(VModel::U32(x)),
        None => None,
    }) + opt_field(FIELD_DESTINATION, str_field(m.destination)) + opt_field(FIELD_SIGNATURE, if bsig.len() > 0 {
        Some(VModel::Signature(bsig))
    } else {
        None
    })
}

/// The fixed header, the header field array and its padding.
pub open spec fn msg_head(m: MsgModel, serial: u32) -> Seq<u8> {
    let body = ser_list(m.body, 0);
    let arr = ser_list(header_fields(m, sig_list(m.body)), 16);
    seq![C_LITTLE, type_code(m.msg_type), m.flags, 1u8] + le_u32(body.len() as u32) + le_u32(serial)
        + le_u32(arr.len() as u32) + arr
}

/// The bytes of a message sent with serial `serial`.
pub open spec fn msg_bytes(m: MsgModel, serial: u32) -> Seq<u8> {
    let head = msg_head(m, serial);
    head + zeros(pad(head.len(), 8)) + ser_list(m.body, 0)
}

pub proof fn lemma_models_push(s: Seq<Value>, x: Value)
    ensures
        models(s.push(x)) == models(s).push(model(x)),
{
    assert(s.push(x).drop_last() =~= s);
}

fn header_field(code: u8, val: Value) -> (r: Value)
    ensures
        r@ == hfield(code, val@),
{
    let r = Value::Struct(vec![Value::Byte(code), Value::Variant(Box::new(val))]);
    proof {
        let fs = seq![Value::Byte(code), Value::Variant(Box::new(val))];
        lemma_models(fs);
        assert(models(fs) =~= seq![VModel::Byte(code), VModel::Variant(Box::new(val@))]);
    }
    r
}

fn push_field(fields: &mut Vec<Value>, code: u8, val: Option<Value>)
    ensures
        models(final(fields)@) == models(old(fields)@) + opt_field(code, match val {
            Some(v) => Some(v@),
            None => None,
        }),
{
    match val {
        Some(v) => {
            let f = header_field(code, v);
            proof { lemma_models_push(fields@, f); }
            fields.push(f);
            proof {
                assert(models(fields@) =~= models(old(fields)@) + seq![f@]);
            }
        },
        None => {
            assert(models(fields@) =~= models(old(fields)@) + Seq::<VModel>::empty());
        },
    }
}

fn opt_string_value(o: &Option<String>, path: bool) -> (r: Option<Value>)
    ensures
        (match r {
            Some(v) => o matches Some(s) && v@ == (if path { VModel::ObjectPath(sbytes(*s)) } else { VModel::Str(sbytes(*s)) }),
            None => o is None,
        }),
{
    match o {
        Some(s) => if path {
            Some(Value::ObjectPath(s.clone()))
        } else {
            Some(Value::String(s.clone()))
        },
        None => None,
    }
}

/// The header fields of `msg` whose body has the signature `body_sig`.
fn build_fields(msg: &Message, body_sig: String) -> (r: Vec<Value>)
    ensures
        models(r@) == header_fields(msg@, sbytes(body_sig)),
{
    let ghost m = msg@;
    let ghost bsig = sbytes(body_sig);
    let mut fields: Vec<Value> = Vec::new();
    push_field(&mut fields, FIELD_PATH, opt_string_value(&msg.path, true));
    push_field(&mut fields, FIELD_INTERFACE, opt_string_value(&msg.interface, false));
    push_field(&mut fields, FIELD_MEMBER, opt_string_value(&msg.member, false));
    push_field(&mut fields, FIELD_ERROR_NAME, opt_string_value(&msg.error_name, false));
    let rs = match msg.reply_serial {
        Some(rs) => Some(Value::U32(rs)),
        None => None,
    };
    push_field(&mut fields, FIELD_REPLY_SERIAL, rs);
    push_field(&mut fields, FIELD_DESTINATION, opt_string_value(&msg.destination, false));
    let has_sig = body_sig.as_str().as_bytes().len() > 0;
    let sv = if has_sig {
        Some(Value::Signature(body_sig))
    } else {
        None
    };
    push_field(&mut fields, FIELD_SIGNATURE, sv);
    proof {
        assert(models(Seq::<Value>::empty()) =~= Seq::<VModel>::empty());
        assert(models(fields@) =~= header_fields(m, bsig));
    }
    fields
}

/// The fixed header followed by the header field array.
fn write_head(msg: &Message, serial: u32, body_len: usize, fields: &Vec<Value>) -> (r: Vec<u8>)
    ensures
        r@ == seq![C_LITTLE, type_code(msg.msg_type), msg.flags, 1u8] + le_u32(body_len as u32)
            + le_u32(serial) + le_u32(ser_list(models(fields@), 16).len() as u32) + ser_list(models(fields@), 16),
{
    let mut buf: Vec<u8> = Vec::new();
    buf.push(C_LITTLE);
    buf.push(msg.msg_type.to_u8());
    buf.push(msg.flags);
    buf.push(1);
    push_u32(&mut buf, body_len as u32);
    push_u32(&mut buf, serial);
    let array_len_pos = buf.len();
    push_u32(&mut buf, 0);
    let array_data_start = buf.len();
    let ghost b1 = buf@;
    marshal_list(&mut buf, fields);
    let array_data_len = (buf.len() - array_data_start) as u32;
    let ghost b2 = buf@;
    patch_u32(&mut buf, array_len_pos, array_data_len);
    proof {
        let arr = ser_list(models(fields@), 16);
        assert(b1.len() == 16);
        assert(b2 == b1 + arr);
        assert(buf@ =~= seq![C_LITTLE, type_code(msg.msg_type), msg.flags, 1u8] + le_u32(body_len as u32)
            + le_u32(serial) + le_u32(arr.len() as u32) + arr);
    }
    buf
}

/// Serialize a message to bytes.
pub fn marshal_message(msg: &Message, serial: u32) -> (r: Vec<u8>)
    ensures
        r@ == msg_bytes(msg@, serial),
{
    let (body_bytes, body_sig) = marshal_body(msg.body.as_slice());
    let fields = build_fields(msg, body_sig);
    let mut buf = write_head(msg, serial, body_bytes.len(), &fields);
    proof { assert(buf@ == msg_head(msg@, serial)); }
    pad_to(&mut buf, 8);
    crate::linbus::value::append_bytes(&mut buf, body_bytes.as_slice());
    buf
}

/// What a header field does to the message being read.
pub open spec fn update_header(h: MsgModel, code: u8, val: VModel) -> MsgModel {
    if code == FIELD_PATH {
        MsgModel { path: str_of(val), ..h }
    } else if code == FIELD_INTERFACE {
        MsgModel { interface: str_of(val), ..h }
    } else if code == FIELD_MEMBER {
        MsgModel { member: str_of(val), ..h }
    } else if code == FIELD_ERROR_NAME {
        MsgModel { error_name: str_of(val), ..h }
    } else if code == FIELD_REPLY_SERIAL {
        MsgModel { reply_serial: u32_of(val), ..h }
    } else if code == FIELD_DESTINATION {
        MsgModel { destination: str_of(val), ..h }
    } else if code == FIELD_SENDER {
        MsgModel { sender: str_of(val), ..h }
    } else if code == FIELD_SIGNATURE {
        match val {
            VModel::Signature(s) => MsgModel { signature: Some(s), ..h },
            _ => h,
        }
    } else {
        h
    }
}

/// Reads one header field at `p`: its code and value, and the bytes it took.
#[verifier::opaque]
pub open spec fn spec_field(d: Seq<u8>, p: nat) -> (Result<(u8, VModel), ReadFault>, nat) {
    match spec_byte(d, p).0 {
        None => (Err(ReadFault::Data), 0),
        Some(code) => {
            let (os, n2) = spec_signature(d, p + 1);
            match os {
                None => (Err(ReadFault::Data), 1 + n2),
                Some(s) => {
                    let (rv, n3) = parse(d, p + 1 + n2, s);
                    match rv {
                        Err(f) => (Err(f), 1 + n2 + n3),
                        Ok(val) => (Ok((code, val)), 1 + n2 + n3),
                    }
                },
            }
        },
    }
}

/// Reads header fields (each aligned to 8: a code byte, then a variant)
/// from `pos` while the position is below `end`.
pub open spec fn parse_header(d: Seq<u8>, pos: nat, end: int, h: MsgModel) -> Result<MsgModel, ReadFault>
    decreases if end > pos { end - pos } else { 0 },
{
    if pos < end {
        let p = pos + pad(pos, 8);
        if p >= end {
            Ok(h)
        } else {
            let (r, n) = spec_field(d, p);
            match r {
                Err(f) => Err(f),
                Ok((code, val)) => if n >= 1 {
                    parse_header(d, p + n, end, update_header(h, code, val))
                } else {
                    Err(ReadFault::Data)
                },
            }
        }
    } else {
        Ok(h)
    }
}

/// Length of the header array, from the fixed header.
pub open spec fn header_len(d: Seq<u8>) -> int {
    le32(d, 12)
}

/// Where the body starts: the header padded to 8.
pub open spec fn body_start(d: Seq<u8>) -> int {
    16 + header_len(d) + pad((16 + header_len(d)) as nat, 8)
}

/// Total length of the message that starts `d`.
pub open spec fn msg_total(d: Seq<u8>) -> int {
    body_start(d) + le32(d, 4)
}

/// The fixed header and the header fields of `d`.
pub open spec fn spec_header(d: Seq<u8>) -> Result<MsgModel, ReadFault> {
    if d.len() < 16 || d[0] != C_LITTLE {
        Err(ReadFault::Data)
    } else {
        match type_of_code(d[1]) {
            None => Err(ReadFault::Data),
            Some(t) => parse_header(d, 16, 16 + header_len(d), bare(t, d[2], le32(d, 8) as u32)),
        }
    }
}

/// The message that `d` starts with, and its length.
pub open spec fn spec_message(d: Seq<u8>) -> Result<(MsgModel, nat), ReadFault> {
    match spec_header(d) {
        Err(f) => Err(f),
        Ok(h) => match h.signature {
            None => Ok((h, msg_total(d) as nat)),
            Some(sig) => match spec_body(d.subrange(body_start(d), d.len() as int), 0, sig).0 {
                Err(f) => Err(f),
                Ok(b) => Ok((MsgModel { body: b, ..h }, msg_total(d) as nat)),
            },
        },
    }
}

/// The body of a message lies within the data whenever the header names its signature.
pub open spec fn body_in_range(d: Seq<u8>) -> bool {
    spec_header(d) matches Ok(h) && h.signature is Some ==> body_start(d) <= d.len()
}

fn opt_owned(o: Option<&str>) -> (r: Option<String>)
    ensures
        opt_sbytes(r) == opt_str_bytes(o),
{
    match o {
        Some(s) => Some(s.to_owned()),
        None => None,
    }
}

/// The optional parts of a message, as collected from its header.
struct HeaderParts {
    reply_serial: Option<u32>,
    path: Option<String>,
    interface: Option<String>,
    member: Option<String>,
    error_name: Option<String>,
    destination: Option<String>,
    sender: Option<String>,
    signature: Option<String>,
}

/// `base` with the optional parts of `p`.
spec fn with_parts(base: MsgModel, p: HeaderParts) -> MsgModel {
    MsgModel {
        reply_serial: p.reply_serial,
        path: opt_sbytes(p.path),
        interface: opt_sbytes(p.interface),
        member: opt_sbytes(p.member),
        error_name: opt_sbytes(p.error_name),
        destination: opt_sbytes(p.destination),
        sender: opt_sbytes(p.sender),
        signature: opt_sbytes(p.signature),
        ..base
    }
}

fn apply_field(parts: &mut HeaderParts, code: u8, val: Value, Ghost(base): Ghost<MsgModel>)
    ensures
        with_parts(base, *final(parts)) == update_header(with_parts(base, *old(parts)), code, val@),
{
    if code == FIELD_PATH {
        parts.path = opt_owned(val.as_str());
    } else if code == FIELD_INTERFACE {
        parts.interface = opt_owned(val.as_str());
    } else if code == FIELD_MEMBER {
        parts.member = opt_owned(val.as_str());
    } else if code == FIELD_ERROR_NAME {
        parts.error_name = opt_owned(val.as_str());
    } else if code == FIELD_REPLY_SERIAL {
        parts.reply_serial = val.as_u32();
    } else if code == FIELD_DESTINATION {
        parts.destination = opt_owned(val.as_str());
    } else if code == FIELD_SENDER {
        parts.sender = opt_owned(val.as_str());
    } else if code == FIELD_SIGNATURE {
        match val {
            Value::Signature(s) => {
                parts.signature = Some(s);
            },
            _ => {},
        }
    }
}

/// Reads one header field: a code byte, then a variant.
fn read_field(reader: &mut Reader) -> (r: Result<(u8, Value), LinbusError>)
    requires
        old(reader).data@.len() <= isize::MAX,
        pos_ok(old(reader).pos as int),
    ensures
        final(reader).data == old(reader).data,
        ({
            let (res, n) = spec_field(old(reader).data@, old(reader).pos as nat);
            &&& n >= 1 ==> final(reader).pos == old(reader).pos + n
            &&& match r {
                Ok((code, v)) => res == Ok::<(u8, VModel), ReadFault>((code, v@)) && n >= 1
                    && pos_ok(final(reader).pos as int),
                Err(e) => res matches Err(f) && fault_matches(f, e),
            }
        }),
{
    proof {
        reveal(spec_field);
        lemma_small_pos_ok(reader.data@.len() as int);
    }
    let code = reader.read_byte()?;
    let field_sig = reader.read_signature()?;
    let val = reader.read_value(field_sig.as_str())?;
    Ok((code, val))
}

/// Reads the header fields from the reader's position while it is below `end`.
fn read_header_fields(reader: &mut Reader, end: u64, Ghost(base): Ghost<MsgModel>) -> (r: Result<HeaderParts, LinbusError>)
    requires
        old(reader).data@.len() <= isize::MAX,
        pos_ok(old(reader).pos as int),
        base == bare(base.msg_type, base.flags, base.serial),
    ensures
        (match r {
            Ok(p) => parse_header(old(reader).data@, old(reader).pos as nat, end as int, base)
                == Ok::<MsgModel, ReadFault>(with_parts(base, p)),
            Err(e) => parse_header(old(reader).data@, old(reader).pos as nat, end as int, base) matches Err(f)
                && fault_matches(f, e),
        }),
{
    let ghost d = reader.data@;
    let ghost pos0 = reader.pos;
    let mut parts = HeaderParts {
        reply_serial: None,
        path: None,
        interface: None,
        member: None,
        error_name: None,
        destination: None,
        sender: None,
        signature: None,
    };
    proof { assert(with_parts(base, parts) == base); }
    while (reader.pos as u64) < end
        invariant
            reader.data@ == d,
            d == old(reader).data@,
            pos0 == old(reader).pos,
            d.len() <= isize::MAX,
            pos_ok(reader.pos as int),
            parse_header(d, pos0 as nat, end as int, base)
                == parse_header(d, reader.pos as nat, end as int, with_parts(base, parts)),
        ensures
            parse_header(d, pos0 as nat, end as int, base) == Ok::<MsgModel, ReadFault>(with_parts(base, parts)),
        decreases if end > reader.pos { end - reader.pos } else { 0 },
    {
        proof {
            lemma_align8(reader.pos as int);
            lemma_small_pos_ok(d.len() as int);
        }
        let ghost before = reader.pos;
        let ghost cur = with_parts(base, parts);
        reader.align_to(8);
        if (reader.pos as u64) >= end {
            proof {
                assert(parse_header(d, before as nat, end as int, cur) == Ok::<MsgModel, ReadFault>(cur));
                assert(parse_header(d, reader.pos as nat, end as int, cur) == Ok::<MsgModel, ReadFault>(cur));
            }
            break;
        }
        let ghost p = reader.pos;
        let (code, val) = match read_field(reader) {
            Ok(x) => x,
            Err(e) => {
                proof {
                    let (res, n) = spec_field(d, p as nat);
                    assert(res is Err);
                    assert(parse_header(d, before as nat, end as int, cur) == Err::<MsgModel, ReadFault>(res->Err_0));
                }
                return Err(e);
            },
        };
        apply_field(&mut parts, code, val, Ghost(base));
        proof {
            let (res, n) = spec_field(d, p as nat);
            assert(parse_header(d, before as nat, end as int, cur)
                == parse_header(d, (p + n) as nat, end as int, update_header(cur, code, val@)));
        }
    }
    Ok(parts)
}

/// Read a message from a byte buffer. Returns (message, total_bytes_consumed).
pub fn read_message(data: &[u8]) -> (r: Result<(Message, usize), LinbusError>)
    requires
        data@.len() <= isize::MAX,
        data@.len() >= 16 ==> msg_total(data@) <= usize::MAX,
        body_in_range(data@),
    ensures
        (match r {
            Ok((m, n)) => spec_message(data@) == Ok::<(MsgModel, nat), ReadFault>((m@, n as nat)),
            Err(e) => spec_message(data@) matches Err(f) && fault_matches(f, e),
        }),
{
    let ghost d = data@;
    if data.len() < 16 {
        return Err(LinbusError::ProtocolError("message too short".to_owned()));
    }
    let endian = data[0];
    if endian != C_LITTLE && endian != C_BIG {
        return Err(LinbusError::ProtocolError("bad endian byte".to_owned()));
    }
    if endian != C_LITTLE {
        return Err(LinbusError::ProtocolError("big-endian not supported".to_owned()));
    }
    let msg_type = MessageType::from_u8(data[1])?;
    let flags = data[2];
    let body_length = data[4] as u64 + (data[5] as u64) * 256 + (data[6] as u64) * 65536 + (data[7] as u64) * 16777216;
    let serial = data[8] as u32 + (data[9] as u32) * 256 + (data[10] as u32) * 65536 + (data[11] as u32) * 16777216;

    let mut reader = Reader::new(data);
    reader.pos = 12;
    proof { lemma_small_pos_ok(d.len() as int); }
    let header_fields_len = reader.read_u32()?;
    let end: u64 = reader.pos as u64 + header_fields_len as u64;
    let ghost base = bare(msg_type, flags, serial);
    proof {
        assert(end == 16 + header_len(d));
        assert(spec_header(d) == parse_header(d, 16, end as int, base));
    }
    let parts = read_header_fields(&mut reader, end, Ghost(base))?;

    let total_header = 16 + header_fields_len as usize;
    let padded_header = total_header + (8 - (total_header % 8)) % 8;
    let body_at = padded_header;
    proof { assert(body_at == body_start(d)); }

    let body = match &parts.signature {
        Some(sig) => {
            let slice = vstd::slice::slice_subrange(data, body_at, data.len());
            let mut body_reader = Reader::new(slice);
            body_reader.read_body(sig.as_str())?
        },
        None => Vec::new(),
    };

    let total = body_at + body_length as usize;
    let m = Message {
        msg_type,
        flags,
        serial,
        reply_serial: parts.reply_serial,
        path: parts.path,
        interface: parts.interface,
        member: parts.member,
        error_name: parts.error_name,
        destination: parts.destination,
        sender: parts.sender,
        signature: parts.signature,
        body,
    };
    proof {
        if m.signature is None {
            assert(models(m.body@) =~= Seq::<VModel>::empty());
        }
    }
    Ok((m, total))
}

/// Minimum bytes needed to determine the full message length.
/// Returns None if not enough data yet.
pub fn message_length(data: &[u8]) -> (r: Option<usize>)
    requires
        data@.len() >= 16 ==> msg_total(data@) <= usize::MAX,
    ensures
        r == (if data@.len() < 16 { None } else { Some(msg_total(data@) as usize) }),
{
    if data.len() < 16 {
        return None;
    }
    let body_length = data[4] as usize + (data[5] as usize) * 256 + (data[6] as usize) * 65536
        + (data[7] as usize) * 16777216;
    let header_fields_len = data[12] as usize + (data[13] as usize) * 256 + (data[14] as usize) * 65536
        + (data[15] as usize) * 16777216;
    let total_header = 12 + 4 + header_fields_len;
    let padded_header = total_header + (8 - (total_header % 8)) % 8;
    Some(padded_header + body_length)
}

} // verus!
