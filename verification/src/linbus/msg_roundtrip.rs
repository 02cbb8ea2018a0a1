//! What a marshalled message reads back as: its type, flags and the serial
//! it was sent with, every header part it carries, the signature of its
//! body, and the body's values.

use vstd::prelude::*;
use vstd::utf8::*;
use crate::linbus::value::{VModel, sig, sig_list, str_of, u32_of};
use crate::linbus::marshal::{zeros, le_u32, ser, ser_list};
use crate::linbus::unmarshal::{pad, le32, spec_byte, spec_signature, parse, spec_body, ReadFault};
use crate::linbus::message::{
    MsgModel, MessageType, msg_bytes, msg_head, header_fields, hfield, opt_field, str_field, spec_message,
    spec_header, parse_header, spec_field, update_header, header_len, body_start, msg_total, bare, type_code,
    type_of_code, C_LITTLE, FIELD_PATH, FIELD_INTERFACE, FIELD_MEMBER, FIELD_ERROR_NAME, FIELD_REPLY_SERIAL,
    FIELD_DESTINATION, FIELD_SIGNATURE,
};
use crate::linbus::roundtrip::{
    wf, norm, norm_list, at, lemma_at_split, lemma_read_sig, lemma_read_ser, lemma_body_roundtrip, lemma_le32,
    lemma_wf_sig_valid, lemma_wf_sig_list_valid, lemma_wf_list, lemma_sig_head, lemma_sig_list_front,
    no_typed_list, lemma_norm_list_identity,
};

verus! {

broadcast use vstd::seq::group_seq_axioms;

/// A header field as written: a struct of its code and a variant.
pub open spec fn field_ok(f: VModel) -> bool {
    &&& f is Struct
    &&& f->Struct_0.len() == 2
    &&& f->Struct_0[0] is Byte
    &&& f->Struct_0[1] is Variant
    &&& wf(field_value(f))
    &&& sig(field_value(f)).len() <= 255
}

pub open spec fn field_code(f: VModel) -> u8 {
    match f {
        VModel::Struct(s) => match s[0] {
            VModel::Byte(c) => c,
            _ => 0,
        },
        _ => 0,
    }
}

pub open spec fn field_value(f: VModel) -> VModel {
    match f {
        VModel::Struct(s) => match s[1] {
            VModel::Variant(x) => *x,
            _ => f,
        },
        _ => f,
    }
}

/// The header after reading the fields `fs` in order.
pub open spec fn fold_fields(h: MsgModel, fs: Seq<VModel>) -> MsgModel
    decreases fs.len(),
{
    if fs.len() == 0 {
        h
    } else {
        fold_fields(update_header(h, field_code(fs[0]), norm(field_value(fs[0]))), fs.subrange(1, fs.len() as int))
    }
}

/// The bytes of a header field written at `off`: padding to 8, the code,
/// the value's signature, then the value.
proof fn lemma_field_bytes(f: VModel, off: nat)
    requires
        field_ok(f),
    ensures
        ({
            let q = pad(off, 8);
            let g = sig(field_value(f));
            ser(f, off) == zeros(q) + (seq![field_code(f)] + (seq![g.len() as u8] + g + seq![0u8]
                + ser(field_value(f), off + q + 1 + g.len() + 2)))
        }),
{
    let s = f->Struct_0;
    let q = pad(off, 8);
    let o = off + q;
    let c = field_code(f);
    let x = field_value(f);
    let g = sig(x);
    assert(s[0] == VModel::Byte(c));
    assert(s[1] == VModel::Variant(Box::new(x)));
    let t = s.subrange(1, 2);
    assert(t[0] == s[1]);
    assert(t.subrange(1, 1) =~= Seq::<VModel>::empty());
    assert(ser(s[0], o) == seq![c]);
    assert(ser_list(t, o + 1) == ser(t[0], o + 1) + ser_list(t.subrange(1, 1), o + 1 + ser(t[0], o + 1).len()));
    assert(ser_list(t, o + 1) =~= ser(t[0], o + 1));
    assert(ser_list(s, o) == ser(s[0], o) + ser_list(s.subrange(1, 2), o + ser(s[0], o).len()));
    assert(ser(t[0], o + 1) == seq![g.len() as u8] + g + seq![0u8] + ser(x, o + 1 + g.len() + 2));
    assert(ser(f, off) == zeros(q) + ser_list(s, o));
}

/// Reading the field written at `off`.
#[verifier::rlimit(40)]
proof fn lemma_read_field(d: Seq<u8>, f: VModel, off: nat)
    requires
        field_ok(f),
        at(d, off as int, ser(f, off)),
        off + ser(f, off).len() < 0x1_0000_0000,
    ensures
        spec_field(d, off + pad(off, 8)) == (Ok::<(u8, VModel), ReadFault>((field_code(f), norm(field_value(f)))),
            (ser(f, off).len() - pad(off, 8)) as nat),
        ser(f, off).len() > pad(off, 8),
{
    let q = pad(off, 8);
    let o = off + q;
    let c = field_code(f);
    let x = field_value(f);
    let g = sig(x);
    let vb = ser(x, o + 1 + g.len() + 2);
    lemma_field_bytes(f, off);
    lemma_at_split(d, off as int, zeros(q), seq![c] + (seq![g.len() as u8] + g + seq![0u8] + vb));
    lemma_at_split(d, o as int, seq![c], seq![g.len() as u8] + g + seq![0u8] + vb);
    lemma_at_split(d, (o + 1) as int, seq![g.len() as u8] + g + seq![0u8], vb);
    assert(d[o as int] == c) by {
        assert(d.subrange(o as int, (o + 1) as int)[0] == c);
    }
    lemma_wf_sig_valid(x);
    lemma_read_sig(d, o + 1, g);
    lemma_read_ser(x, d, o + 1 + g.len() + 2);
    assert(spec_byte(d, o) == (Some(c), 1nat));
    let p3 = (o + 1 + g.len() + 2) as nat;
    assert(spec_signature(d, o + 1) == (Some(g), (g.len() + 2) as nat));
    assert(parse(d, p3, g) == (Ok::<VModel, ReadFault>(norm(x)), vb.len()));
    assert(zeros(q).len() == q);
    assert(ser(f, off).len() == q + 1 + g.len() + 2 + vb.len());
    reveal(spec_field);
}

proof fn lemma_parse_fields(d: Seq<u8>, fs: Seq<VModel>, off: nat, h: MsgModel)
    requires
        forall|i: int| 0 <= i < fs.len() ==> field_ok(#[trigger] fs[i]),
        at(d, off as int, ser_list(fs, off)),
        off + ser_list(fs, off).len() < 0x1_0000_0000,
    ensures
        parse_header(d, off, (off + ser_list(fs, off).len()) as int, h) == Ok::<MsgModel, ReadFault>(fold_fields(h, fs)),
    decreases fs.len(),
{
    if fs.len() > 0 {
        let f = fs[0];
        assert(field_ok(f));
        let rest = fs.subrange(1, fs.len() as int);
        let hb = ser(f, off);
        assert(ser_list(fs, off) == hb + ser_list(rest, off + hb.len()));
        lemma_at_split(d, off as int, hb, ser_list(rest, off + hb.len()));
        lemma_read_field(d, f, off);
        assert forall|i: int| 0 <= i < rest.len() implies field_ok(#[trigger] rest[i]) by {
            assert(rest[i] == fs[i + 1]);
        }
        lemma_parse_fields(d, rest, off + hb.len(), update_header(h, field_code(f), norm(field_value(f))));
    }
}

proof fn lemma_fold_concat(h: MsgModel, a: Seq<VModel>, b: Seq<VModel>)
    ensures
        fold_fields(h, a + b) == fold_fields(fold_fields(h, a), b),
    decreases a.len(),
{
    if a.len() > 0 {
        let h2 = update_header(h, field_code(a[0]), norm(field_value(a[0])));
        assert((a + b).subrange(1, (a + b).len() as int) =~= a.subrange(1, a.len() as int) + b);
        assert((a + b)[0] == a[0]);
        lemma_fold_concat(h2, a.subrange(1, a.len() as int), b);
    }
}

proof fn lemma_fold_one(h: MsgModel, code: u8, o: Option<VModel>)
    requires
        o is Some ==> norm(o->Some_0) == o->Some_0,
    ensures
        fold_fields(h, opt_field(code, o)) == (match o {
            Some(v) => update_header(h, code, v),
            None => h,
        }),
{
    if let Some(v) = o {
        let fs = opt_field(code, o);
        assert(fs.subrange(1, 1) =~= Seq::<VModel>::empty());
        assert(field_code(hfield(code, v)) == code);
        assert(field_value(hfield(code, v)) == v);
        let h2 = update_header(h, code, v);
        assert(fold_fields(h2, fs.subrange(1, 1)) == h2);
        assert(fold_fields(h, fs) == fold_fields(h2, fs.subrange(1, 1)));
    }
}

/// The message that reading back `m`, sent with `serial`, yields: the
/// serial it was sent with, no sender, the signature of a non-empty body,
/// and the body's values (typed arrays as plain arrays).
pub open spec fn read_back(m: MsgModel, serial: u32) -> MsgModel {
    MsgModel {
        serial,
        sender: None,
        signature: if m.body.len() > 0 { Some(sig_list(m.body)) } else { None },
        body: norm_list(m.body),
        ..m
    }
}

pub open spec fn opt_valid(o: Option<Seq<u8>>) -> bool {
    match o {
        Some(s) => valid_utf8(s),
        None => true,
    }
}

/// What a message needs for its bytes to read back: UTF-8 header strings,
/// well-formed body values with a signature of at most 255 bytes, and
/// header and body lengths that fit their 32-bit length words.
pub open spec fn message_ok(m: MsgModel) -> bool {
    &&& opt_valid(m.path)
    &&& opt_valid(m.interface)
    &&& opt_valid(m.member)
    &&& opt_valid(m.error_name)
    &&& opt_valid(m.destination)
    &&& forall|i: int| 0 <= i < m.body.len() ==> #[trigger] wf(m.body[i])
    &&& sig_list(m.body).len() <= 255
    &&& ser_list(m.body, 0).len() < 0x1_0000_0000
    &&& 16 + ser_list(header_fields(m, sig_list(m.body)), 16).len() < 0x1_0000_0000
}

/// Every value of `fs` is a header field as written.
pub open spec fn fields_ok(fs: Seq<VModel>) -> bool {
    forall|i: int| 0 <= i < fs.len() ==> field_ok(#[trigger] fs[i])
}

proof fn lemma_fields_ok_concat(a: Seq<VModel>, b: Seq<VModel>)
    requires
        fields_ok(a),
        fields_ok(b),
    ensures
        fields_ok(a + b),
{
    assert forall|i: int| 0 <= i < (a + b).len() implies field_ok(#[trigger] (a + b)[i]) by {
        if i < a.len() {
            assert((a + b)[i] == a[i]);
        } else {
            assert((a + b)[i] == b[i - a.len()]);
        }
    }
}

proof fn lemma_opt_field_ok(code: u8, o: Option<VModel>)
    requires
        o is Some ==> wf(o->Some_0) && sig(o->Some_0).len() <= 255,
    ensures
        fields_ok(opt_field(code, o)),
{
    if let Some(v) = o {
        let f = hfield(code, v);
        assert(field_value(f) == v);
        assert(opt_field(code, o)[0] == f);
    }
}

pub open spec fn path_field(p: Option<Seq<u8>>) -> Option<VModel> {
    match p {
        Some(x) => Some(VModel::ObjectPath(x)),
        None => None,
    }
}

pub open spec fn serial_field(r: Option<u32>) -> Option<VModel> {
    match r {
        Some(x) => Some(VModel::U32(x)),
        None => None,
    }
}

pub open spec fn sig_field(bsig: Seq<u8>) -> Option<VModel> {
    if bsig.len() > 0 { Some(VModel::Signature(bsig)) } else { None }
}

/// The header read back from the fields of `m` with body signature `bsig`.
pub open spec fn header_back(m: MsgModel, serial: u32, bsig: Seq<u8>) -> MsgModel {
    MsgModel {
        serial,
        sender: None,
        signature: if bsig.len() > 0 { Some(bsig) } else { None },
        body: Seq::empty(),
        ..m
    }
}

proof fn lemma_header_fields(m: MsgModel, serial: u32, bsig: Seq<u8>)
    requires
        opt_valid(m.path),
        opt_valid(m.interface),
        opt_valid(m.member),
        opt_valid(m.error_name),
        opt_valid(m.destination),
        valid_utf8(bsig),
        bsig.len() <= 255,
    ensures
        fields_ok(header_fields(m, bsig)),
        fold_fields(bare(m.msg_type, m.flags, serial), header_fields(m, bsig)) == header_back(m, serial, bsig),
{
    let a1 = opt_field(FIELD_PATH, path_field(m.path));
    let a2 = opt_field(FIELD_INTERFACE, str_field(m.interface));
    let a3 = opt_field(FIELD_MEMBER, str_field(m.member));
    let a4 = opt_field(FIELD_ERROR_NAME, str_field(m.error_name));
    let a5 = opt_field(FIELD_REPLY_SERIAL, serial_field(m.reply_serial));
    let a6 = opt_field(FIELD_DESTINATION, str_field(m.destination));
    let a7 = opt_field(FIELD_SIGNATURE, sig_field(bsig));
    assert(header_fields(m, bsig) == a1 + a2 + a3 + a4 + a5 + a6 + a7);
    lemma_opt_field_ok(FIELD_PATH, path_field(m.path));
    lemma_opt_field_ok(FIELD_INTERFACE, str_field(m.interface));
    lemma_opt_field_ok(FIELD_MEMBER, str_field(m.member));
    lemma_opt_field_ok(FIELD_ERROR_NAME, str_field(m.error_name));
    lemma_opt_field_ok(FIELD_REPLY_SERIAL, serial_field(m.reply_serial));
    lemma_opt_field_ok(FIELD_DESTINATION, str_field(m.destination));
    lemma_opt_field_ok(FIELD_SIGNATURE, sig_field(bsig));
    lemma_fields_ok_concat(a1, a2);
    lemma_fields_ok_concat(a1 + a2, a3);
    lemma_fields_ok_concat(a1 + a2 + a3, a4);
    lemma_fields_ok_concat(a1 + a2 + a3 + a4, a5);
    lemma_fields_ok_concat(a1 + a2 + a3 + a4 + a5, a6);
    lemma_fields_ok_concat(a1 + a2 + a3 + a4 + a5 + a6, a7);
    let h0 = bare(m.msg_type, m.flags, serial);
    lemma_fold_concat(h0, a1, a2);
    lemma_fold_concat(h0, a1 + a2, a3);
    lemma_fold_concat(h0, a1 + a2 + a3, a4);
    lemma_fold_concat(h0, a1 + a2 + a3 + a4, a5);
    lemma_fold_concat(h0, a1 + a2 + a3 + a4 + a5, a6);
    lemma_fold_concat(h0, a1 + a2 + a3 + a4 + a5 + a6, a7);
    let h1 = fold_fields(h0, a1);
    lemma_fold_one(h0, FIELD_PATH, path_field(m.path));
    let h2 = fold_fields(h1, a2);
    lemma_fold_one(h1, FIELD_INTERFACE, str_field(m.interface));
    let h3 = fold_fields(h2, a3);
    lemma_fold_one(h2, FIELD_MEMBER, str_field(m.member));
    let h4 = fold_fields(h3, a4);
    lemma_fold_one(h3, FIELD_ERROR_NAME, str_field(m.error_name));
    let h5 = fold_fields(h4, a5);
    lemma_fold_one(h4, FIELD_REPLY_SERIAL, serial_field(m.reply_serial));
    let h6 = fold_fields(h5, a6);
    lemma_fold_one(h5, FIELD_DESTINATION, str_field(m.destination));
    lemma_fold_one(h6, FIELD_SIGNATURE, sig_field(bsig));
}

/// A message's bytes read back as the message: what `read_message` gives
/// for the bytes `marshal_message` writes is the message sent, with the
/// serial it was sent with, no sender, the signature of a non-empty body,
/// and the body's values (typed arrays as plain arrays); it takes all the
/// bytes.
pub proof fn lemma_message_roundtrip(m: MsgModel, serial: u32)
    requires
        message_ok(m),
    ensures
        spec_message(msg_bytes(m, serial)) == Ok::<(MsgModel, nat), ReadFault>(
            (read_back(m, serial), msg_bytes(m, serial).len())),
{
    let body = ser_list(m.body, 0);
    let bsig = sig_list(m.body);
    let fs = header_fields(m, bsig);
    let arr = ser_list(fs, 16);
    let prefix = seq![C_LITTLE, type_code(m.msg_type), m.flags, 1u8] + le_u32(body.len() as u32)
        + le_u32(serial) + le_u32(arr.len() as u32);
    let head = msg_head(m, serial);
    let d = msg_bytes(m, serial);
    assert(head == prefix + arr);
    assert(prefix.len() == 16);
    assert(d == head + zeros(pad(head.len(), 8)) + body);
    assert forall|k: int| 0 <= k < 16 implies #[trigger] d[k] == prefix[k] by {
        assert(d[k] == head[k]);
        assert(head[k] == prefix[k]);
    }
    lemma_le32(body.len() as u32);
    lemma_le32(serial);
    lemma_le32(arr.len() as u32);
    assert(d[4] == prefix[4] && d[5] == prefix[5] && d[6] == prefix[6] && d[7] == prefix[7]);
    assert(d[8] == prefix[8] && d[9] == prefix[9] && d[10] == prefix[10] && d[11] == prefix[11]);
    assert(d[12] == prefix[12] && d[13] == prefix[13] && d[14] == prefix[14] && d[15] == prefix[15]);
    assert(le32(d, 4) == body.len());
    assert(le32(d, 8) == serial);
    assert(header_len(d) == arr.len());
    assert(d[0] == C_LITTLE && d[1] == type_code(m.msg_type) && d[2] == m.flags);
    assert(type_of_code(type_code(m.msg_type)) == Some(m.msg_type));
    // the header fields
    lemma_wf_list(m.body);
    lemma_wf_sig_list_valid(m.body);
    lemma_header_fields(m, serial, bsig);
    assert(d.subrange(16, 16 + arr.len() as int) =~= arr) by {
        assert forall|k: int| 0 <= k < arr.len() implies d.subrange(16, 16 + arr.len() as int)[k] == arr[k] by {
            assert(d[16 + k] == head[16 + k]);
            assert(head[16 + k] == arr[k]);
        }
    }
    lemma_parse_fields(d, fs, 16, bare(m.msg_type, m.flags, serial));
    assert(spec_header(d) == Ok::<MsgModel, ReadFault>(header_back(m, serial, bsig)));
    // where the body lies
    let bs = head.len() + pad(head.len(), 8);
    assert(body_start(d) == bs);
    assert(msg_total(d) == d.len());
    if m.body.len() > 0 {
        lemma_sig_list_front(m.body);
        lemma_sig_head(m.body[0]);
        assert(bsig.len() > 0);
        assert(d.subrange(bs as int, d.len() as int) =~= body) by {
            assert forall|k: int| 0 <= k < body.len() implies d.subrange(bs as int, d.len() as int)[k] == body[k] by {
                assert(d[bs + k] == body[k]);
            }
        }
        lemma_body_roundtrip(m.body);
        assert(read_back(m, serial) == MsgModel { body: norm_list(m.body), ..header_back(m, serial, bsig) });
    } else {
        assert(bsig =~= Seq::<u8>::empty());
        assert(norm_list(m.body) =~= Seq::<VModel>::empty());
        assert(read_back(m, serial) == header_back(m, serial, bsig));
    }
}

/// A message followed by more bytes on the stream: its length is read
/// from its own header, so the receive buffer is cut exactly after it and
/// the cut-off part reads back as the message.
pub proof fn lemma_stream_take(m: MsgModel, serial: u32, rest: Seq<u8>)
    requires
        message_ok(m),
    ensures
        msg_total(msg_bytes(m, serial) + rest) == msg_bytes(m, serial).len(),
        (msg_bytes(m, serial) + rest).take(msg_bytes(m, serial).len() as int) == msg_bytes(m, serial),
        spec_message((msg_bytes(m, serial) + rest).take(msg_bytes(m, serial).len() as int))
            == Ok::<(MsgModel, nat), ReadFault>((read_back(m, serial), msg_bytes(m, serial).len())),
{
    let d = msg_bytes(m, serial);
    let e = d + rest;
    lemma_message_roundtrip(m, serial);
    assert(e.take(d.len() as int) =~= d);
    assert(d.len() >= 16) by {
        let head = msg_head(m, serial);
        assert(d == head + zeros(pad(head.len(), 8)) + ser_list(m.body, 0));
    }
    assert forall|k: int| 0 <= k < 16 implies #[trigger] e[k] == d[k] by {}
    assert(le32(e, 4) == le32(d, 4));
    assert(le32(e, 12) == le32(d, 12));
    assert(msg_total(e) == msg_total(d));
}

/// The length of a marshalled message can be read from its first 16 bytes
/// alone, and it is the length of the whole message, whenever its body and
/// header array fit their 32-bit length words.
pub proof fn lemma_length_from_fixed_header(m: MsgModel, serial: u32)
    requires
        ser_list(m.body, 0).len() < 0x1_0000_0000,
        ser_list(header_fields(m, sig_list(m.body)), 16).len() < 0x1_0000_0000,
    ensures
        msg_bytes(m, serial).len() >= 16,
        msg_total(msg_bytes(m, serial)) == msg_bytes(m, serial).len(),
        msg_total(msg_bytes(m, serial).take(16)) == msg_bytes(m, serial).len(),
{
    let body = ser_list(m.body, 0);
    let arr = ser_list(header_fields(m, sig_list(m.body)), 16);
    let prefix = seq![C_LITTLE, type_code(m.msg_type), m.flags, 1u8] + le_u32(body.len() as u32)
        + le_u32(serial) + le_u32(arr.len() as u32);
    let head = msg_head(m, serial);
    let d = msg_bytes(m, serial);
    let f = d.take(16);
    assert(head == prefix + arr);
    assert(prefix.len() == 16);
    assert(d == head + zeros(pad(head.len(), 8)) + body);
    assert forall|k: int| 0 <= k < 16 implies #[trigger] d[k] == prefix[k] && f[k] == prefix[k] by {
        assert(d[k] == head[k]);
        assert(head[k] == prefix[k]);
    }
    lemma_le32(body.len() as u32);
    lemma_le32(arr.len() as u32);
    assert(d[4] == prefix[4] && d[5] == prefix[5] && d[6] == prefix[6] && d[7] == prefix[7]);
    assert(d[12] == prefix[12] && d[13] == prefix[13] && d[14] == prefix[14] && d[15] == prefix[15]);
    assert(f[4] == prefix[4] && f[5] == prefix[5] && f[6] == prefix[6] && f[7] == prefix[7]);
    assert(f[12] == prefix[12] && f[13] == prefix[13] && f[14] == prefix[14] && f[15] == prefix[15]);
    assert(le32(d, 4) == body.len());
    assert(le32(d, 12) == arr.len());
    assert(le32(f, 4) == body.len());
    assert(le32(f, 12) == arr.len());
    assert(msg_total(d) == d.len());
    assert(msg_total(f) == d.len());
}

/// A message without typed arrays in its body reads back with exactly the
/// body it was sent with, the serial it was sent with, no sender, the
/// signature of a non-empty body, and every other header part unchanged.
pub proof fn lemma_message_roundtrip_exact(m: MsgModel, serial: u32)
    requires
        message_ok(m),
        no_typed_list(m.body),
    ensures
        spec_message(msg_bytes(m, serial)) == Ok::<(MsgModel, nat), ReadFault>((
            MsgModel {
                serial,
                sender: None,
                signature: if m.body.len() > 0 { Some(sig_list(m.body)) } else { None },
                ..m
            },
            msg_bytes(m, serial).len(),
        )),
{
    lemma_message_roundtrip(m, serial);
    lemma_norm_list_identity(m.body);
}

} // verus!
