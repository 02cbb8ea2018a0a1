//! Writing D-Bus values as little-endian wire bytes.

use vstd::prelude::*;
use vstd::utf8::*;
use crate::text::{sbytes, string_from_utf8};
use crate::linbus::value::{
    Value, VModel, model, models, lemma_models, pair_models, lemma_pair_models, sig, sig_list,
    append_bytes, lemma_sig_list_valid,
};
use crate::linbus::signature::{align_of, alignment_of_bytes};
use crate::linbus::unmarshal::pad;

verus! {

broadcast use vstd::seq::group_seq_axioms;

/// `n` zero bytes.
pub open spec fn zeros(n: nat) -> Seq<u8> {
    Seq::new(n, |i: int| 0u8)
}

/// Little-endian bytes of a 16-bit word.
pub open spec fn le_u16(x: u16) -> Seq<u8> {
    seq![(x & 0xff) as u8, (x >> 8) as u8]
}

/// Little-endian bytes of a 32-bit word.
pub open spec fn le_u32(x: u32) -> Seq<u8> {
    seq![(x & 0xff) as u8, ((x >> 8) & 0xff) as u8, ((x >> 16) & 0xff) as u8, (x >> 24) as u8]
}

/// Little-endian bytes of a 64-bit word.
pub open spec fn le_u64(x: u64) -> Seq<u8> {
    le_u32((x & 0xffff_ffff) as u32) + le_u32((x >> 32) as u32)
}

/// Wire bytes of `v` when written at offset `off` of a buffer.
pub open spec fn ser(v: VModel, off: nat) -> Seq<u8>
    decreases v,
{
    match v {
        VModel::Byte(x) => seq![x],
        VModel::Bool(b) => zeros(pad(off, 4)) + le_u32(if b { 1u32 } else { 0u32 }),
        VModel::I16(x) => zeros(pad(off, 2)) + le_u16(x as u16),
        VModel::U16(x) => zeros(pad(off, 2)) + le_u16(x),
        VModel::I32(x) => zeros(pad(off, 4)) + le_u32(x as u32),
        VModel::U32(x) => zeros(pad(off, 4)) + le_u32(x),
        VModel::I64(x) => zeros(pad(off, 8)) + le_u64(x as u64),
        VModel::U64(x) => zeros(pad(off, 8)) + le_u64(x),
        VModel::F64(x) => zeros(pad(off, 8)) + le_u64(x),
        VModel::Str(s) => zeros(pad(off, 4)) + le_u32(s.len() as u32) + s + seq![0u8],
        VModel::ObjectPath(s) => zeros(pad(off, 4)) + le_u32(s.len() as u32) + s + seq![0u8],
        VModel::Signature(s) => seq![s.len() as u8] + s + seq![0u8],
        VModel::Array(es) => {
            let p = pad(off, 4);
            let a = if es.len() > 0 { align_of(sig(es[0])) } else { 1 };
            let q = pad(off + p + 4, a);
            let body = ser_list(es, off + p + 4 + q);
            zeros(p) + le_u32(body.len() as u32) + zeros(q) + body
        },
        VModel::TypedArray(_, es) => {
            let p = pad(off, 4);
            let a = if es.len() > 0 { align_of(sig(es[0])) } else { 1 };
            let q = pad(off + p + 4, a);
            let body = ser_list(es, off + p + 4 + q);
            zeros(p) + le_u32(body.len() as u32) + zeros(q) + body
        },
        VModel::Dict(ps) => {
            let p = pad(off, 4);
            let q = pad(off + p + 4, 8);
            let body = ser_pairs(ps, off + p + 4 + q);
            zeros(p) + le_u32(body.len() as u32) + zeros(q) + body
        },
        VModel::Struct(fs) => zeros(pad(off, 8)) + ser_list(fs, off + pad(off, 8)),
        VModel::Variant(x) => {
            let g = sig(*x);
            seq![g.len() as u8] + g + seq![0u8] + ser(*x, off + g.len() + 2)
        },
        VModel::DictEntry(k, x) => {
            let o = off + pad(off, 8);
            let kb = ser(*k, o);
            zeros(pad(off, 8)) + kb + ser(*x, o + kb.len())
        },
    }
}

/// Wire bytes of consecutive values written from offset `off`.
pub open spec fn ser_list(es: Seq<VModel>, off: nat) -> Seq<u8>
    decreases es,
{
    if es.len() == 0 {
        Seq::empty()
    } else {
        let h = ser(es[0], off);
        h + ser_list(es.subrange(1, es.len() as int), off + h.len())
    }
}

/// Wire bytes of dict entries written from offset `off`, each aligned to 8.
pub open spec fn ser_pairs(ps: Seq<(VModel, VModel)>, off: nat) -> Seq<u8>
    decreases ps,
{
    if ps.len() == 0 {
        Seq::empty()
    } else {
        let o = off + pad(off, 8);
        let kb = ser(ps[0].0, o);
        let vb = ser(ps[0].1, o + kb.len());
        let h = zeros(pad(off, 8)) + kb + vb;
        h + ser_pairs(ps.subrange(1, ps.len() as int), off + h.len())
    }
}

/// Pad buffer to alignment boundary.
pub(crate) fn pad_to(buf: &mut Vec<u8>, alignment: usize)
    requires
        alignment > 0,
    ensures
        final(buf)@ == old(buf)@ + zeros(pad(old(buf)@.len(), alignment as int)),
{
    let ghost b0 = buf@;
    let pad = (alignment - (buf.len() % alignment)) % alignment;
    let mut i: usize = 0;
    while i < pad
        invariant
            i <= pad,
            pad == crate::linbus::unmarshal::pad(b0.len(), alignment as int),
            buf@ == b0 + zeros(i as nat),
        decreases pad - i,
    {
        buf.push(0);
        i += 1;
        assert(buf@ =~= b0 + zeros(i as nat));
    }
}

fn push_u16(buf: &mut Vec<u8>, x: u16)
    ensures
        final(buf)@ == old(buf)@ + le_u16(x),
{
    buf.push((x & 0xff) as u8);
    buf.push((x >> 8) as u8);
    assert(buf@ =~= old(buf)@ + le_u16(x));
}

pub(crate) fn push_u32(buf: &mut Vec<u8>, x: u32)
    ensures
        final(buf)@ == old(buf)@ + le_u32(x),
{
    buf.push((x & 0xff) as u8);
    buf.push(((x >> 8) & 0xff) as u8);
    buf.push(((x >> 16) & 0xff) as u8);
    buf.push((x >> 24) as u8);
    assert(buf@ =~= old(buf)@ + le_u32(x));
}

fn push_u64(buf: &mut Vec<u8>, x: u64)
    ensures
        final(buf)@ == old(buf)@ + le_u64(x),
{
    push_u32(buf, (x & 0xffff_ffff) as u32);
    push_u32(buf, (x >> 32) as u32);
    assert(buf@ =~= old(buf)@ + le_u64(x));
}

/// Writes a length-prefixed (u32) string and its NUL terminator.
fn push_string(buf: &mut Vec<u8>, s: &str)
    ensures
        final(buf)@ == old(buf)@ + zeros(pad(old(buf)@.len(), 4)) + le_u32(sbytes_of(s).len() as u32)
            + sbytes_of(s) + seq![0u8],
{
    pad_to(buf, 4);
    let b = s.as_bytes();
    push_u32(buf, b.len() as u32);
    append_bytes(buf, b);
    buf.push(0);
}

/// UTF-8 bytes of a `&str`.
pub open spec fn sbytes_of(s: &str) -> Seq<u8> {
    encode_utf8(s@)
}

proof fn lemma_pad_small(off: nat, a: int)
    requires
        a == 1 || a == 2 || a == 4 || a == 8,
    ensures
        pad(off, a) < a,
        ((off + pad(off, a)) as int) % a == 0,
{
    let r = (off as int) % a;
    assert(0 <= r < a);
    if r == 0 {
        assert(pad(off, a) == 0);
    } else {
        assert(pad(off, a) == a - r);
        assert((off as int) == a * ((off as int) / a) + r) by (nonlinear_arith)
            requires a > 0, r == (off as int) % a;
        assert(((off + pad(off, a)) as int) == a * ((off as int) / a + 1));
        vstd::arithmetic::div_mod::lemma_mod_multiples_basic((off as int) / a + 1, a);
    }
}

/// A value's bytes open with the zero padding that brings the offset it is
/// written at to the next multiple of its type's alignment: written after
/// `off` bytes, its encoding proper starts at the first multiple of the
/// alignment that is not below `off`.
#[verifier::rlimit(40)]
pub proof fn lemma_ser_starts_aligned(v: VModel, off: nat)
    ensures
        ({
            let a = align_of(sig(v));
            let p = pad(off, a);
            &&& 1 <= a <= 8
            &&& p < a
            &&& ((off + p) as int) % a == 0
            &&& p <= ser(v, off).len()
            &&& ser(v, off).take(p as int) == zeros(p)
        }),
{
    let a = align_of(sig(v));
    let p = pad(off, a);
    let b = ser(v, off);
    assert(a == 1 || a == 2 || a == 4 || a == 8);
    lemma_pad_small(off, a);
    match v {
        VModel::Array(es) => {
            let q = pad(off + p + 4, if es.len() > 0 { align_of(sig(es[0])) } else { 1 });
            let body = ser_list(es, off + p + 4 + q);
            assert(b == zeros(p) + le_u32(body.len() as u32) + zeros(q) + body);
        },
        VModel::TypedArray(_, es) => {
            let q = pad(off + p + 4, if es.len() > 0 { align_of(sig(es[0])) } else { 1 });
            let body = ser_list(es, off + p + 4 + q);
            assert(b == zeros(p) + le_u32(body.len() as u32) + zeros(q) + body);
        },
        VModel::Dict(ps) => {
            let q = pad(off + p + 4, 8);
            let body = ser_pairs(ps, off + p + 4 + q);
            assert(b == zeros(p) + le_u32(body.len() as u32) + zeros(q) + body);
        },
        VModel::Str(t) => {
            assert(b == zeros(p) + le_u32(t.len() as u32) + t + seq![0u8]);
        },
        VModel::ObjectPath(t) => {
            assert(b == zeros(p) + le_u32(t.len() as u32) + t + seq![0u8]);
        },
        VModel::DictEntry(k, x) => {
            let o = off + p;
            let kb = ser(*k, o);
            assert(b == zeros(p) + kb + ser(*x, o + kb.len()));
        },
        _ => {},
    }
    assert(b.take(p as int) =~= zeros(p));
}

/// Marshal a single Value into the buffer according to its type.
#[verifier::rlimit(30)]
pub fn marshal_value(buf: &mut Vec<u8>, value: &Value)
    ensures
        final(buf)@ == old(buf)@ + ser(value@, old(buf)@.len()),
    decreases value, 2nat,
{
    let ghost b0 = buf@;
    match value {
        Value::Byte(v) => {
            buf.push(*v);
            assert(buf@ =~= b0 + ser(value@, b0.len()));
        },
        Value::Bool(v) => {
            pad_to(buf, 4);
            push_u32(buf, if *v { 1u32 } else { 0u32 });
            assert(buf@ =~= b0 + ser(value@, b0.len()));
        },
        Value::I16(v) => {
            pad_to(buf, 2);
            push_u16(buf, *v as u16);
            assert(buf@ =~= b0 + ser(value@, b0.len()));
        },
        Value::U16(v) => {
            pad_to(buf, 2);
            push_u16(buf, *v);
            assert(buf@ =~= b0 + ser(value@, b0.len()));
        },
        Value::I32(v) => {
            pad_to(buf, 4);
            push_u32(buf, *v as u32);
            assert(buf@ =~= b0 + ser(value@, b0.len()));
        },
        Value::U32(v) => {
            pad_to(buf, 4);
            push_u32(buf, *v);
            assert(buf@ =~= b0 + ser(value@, b0.len()));
        },
        Value::I64(v) => {
            pad_to(buf, 8);
            push_u64(buf, *v as u64);
            assert(buf@ =~= b0 + ser(value@, b0.len()));
        },
        Value::U64(v) => {
            pad_to(buf, 8);
            push_u64(buf, *v);
            assert(buf@ =~= b0 + ser(value@, b0.len()));
        },
        Value::F64(v) => {
            pad_to(buf, 8);
            push_u64(buf, *v);
            assert(buf@ =~= b0 + ser(value@, b0.len()));
        },
        Value::String(s) => {
            push_string(buf, s.as_str());
            assert(buf@ =~= b0 + ser(value@, b0.len()));
        },
        Value::ObjectPath(s) => {
            push_string(buf, s.as_str());
            assert(buf@ =~= b0 + ser(value@, b0.len()));
        },
        Value::Signature(s) => {
            let b = s.as_str().as_bytes();
            buf.push(b.len() as u8);
            append_bytes(buf, b);
            buf.push(0);
            assert(buf@ =~= b0 + ser(value@, b0.len()));
        },
        Value::Array(elems) => {
            proof { assert(decreases_to!(*value => *elems)); }
            marshal_array(buf, elems);
            assert(buf@ =~= b0 + ser(value@, b0.len()));
        },
        Value::TypedArray(_, elems) => {
            proof { assert(decreases_to!(*value => *elems)); }
            marshal_array(buf, elems);
            assert(buf@ =~= b0 + ser(value@, b0.len()));
        },
        Value::Dict(pairs) => {
            proof { assert(decreases_to!(*value => *pairs)); }
            marshal_dict(buf, pairs);
            assert(buf@ =~= b0 + ser(value@, b0.len()));
        },
        Value::Struct(fields) => {
            pad_to(buf, 8);
            proof {
                lemma_models(fields@);
                assert(decreases_to!(*value => *fields));
            }
            marshal_list(buf, fields);
            assert(buf@ =~= b0 + ser(value@, b0.len()));
        },
        Value::Variant(inner) => {
            let g = inner.sig_bytes();
            buf.push(g.len() as u8);
            append_bytes(buf, g.as_slice());
            buf.push(0);
            marshal_value(buf, inner);
            assert(buf@ =~= b0 + ser(value@, b0.len()));
        },
        Value::DictEntry(pair) => {
            pad_to(buf, 8);
            marshal_value(buf, &pair.0);
            marshal_value(buf, &pair.1);
            assert(buf@ =~= b0 + ser(value@, b0.len()));
        },
    }
}

/// Writes consecutive values.
pub(crate) fn marshal_list(buf: &mut Vec<u8>, elems: &Vec<Value>)
    ensures
        final(buf)@ == old(buf)@ + ser_list(models(elems@), old(buf)@.len()),
    decreases elems, 0nat,
{
    let ghost b0 = buf@;
    let ghost ms = models(elems@);
    proof {
        lemma_models(elems@);
        assert(ms.subrange(0, ms.len() as int) =~= ms);
    }
    let mut i: usize = 0;
    while i < elems.len()
        invariant
            i <= elems@.len(),
            ms == models(elems@),
            ms.len() == elems@.len(),
            forall|j: int| 0 <= j < elems@.len() ==> #[trigger] ms[j] == model(elems@[j]),
            b0 + ser_list(ms, b0.len()) == buf@ + ser_list(ms.subrange(i as int, ms.len() as int), buf@.len()),
        decreases elems@.len() - i,
    {
        proof {
            assert(decreases_to!(*elems => elems@));
            assert(decreases_to!(elems@ => elems@[i as int]));
            let rest = ms.subrange(i as int, ms.len() as int);
            assert(rest[0] == ms[i as int]);
            assert(rest.subrange(1, rest.len() as int) =~= ms.subrange(i + 1, ms.len() as int));
        }
        let ghost before = buf@;
        marshal_value(buf, &elems[i]);
        i += 1;
        proof {
            let h = ser(ms[i - 1], before.len());
            assert(buf@ == before + h);
            assert(before + (h + ser_list(ms.subrange(i as int, ms.len() as int), before.len() + h.len()))
                =~= buf@ + ser_list(ms.subrange(i as int, ms.len() as int), buf@.len()));
        }
    }
    proof {
        assert(ms.subrange(i as int, ms.len() as int) =~= Seq::<VModel>::empty());
        assert(b0 + ser_list(ms, b0.len()) =~= buf@ + Seq::<u8>::empty());
    }
}

/// Writes the little-endian `x` over the four bytes at `at`.
pub(crate) fn patch_u32(buf: &mut Vec<u8>, at: usize, x: u32)
    requires
        at + 4 <= old(buf)@.len(),
    ensures
        final(buf)@ == old(buf)@.subrange(0, at as int) + le_u32(x) + old(buf)@.subrange(at + 4, old(buf)@.len() as int),
{
    let n = buf.len();
    assert(at + 4 <= n);
    buf[at] = (x & 0xff) as u8;
    buf[at + 1] = ((x >> 8) & 0xff) as u8;
    buf[at + 2] = ((x >> 16) & 0xff) as u8;
    buf[at + 3] = (x >> 24) as u8;
    assert(buf@ =~= old(buf)@.subrange(0, at as int) + le_u32(x) + old(buf)@.subrange(at + 4, old(buf)@.len() as int));
}

fn marshal_array(buf: &mut Vec<u8>, elems: &Vec<Value>)
    ensures
        ({
            let es = models(elems@);
            let off = old(buf)@.len();
            let p = pad(off, 4);
            let a = if es.len() > 0 { align_of(sig(es[0])) } else { 1 };
            let q = pad(off + p + 4, a);
            let body = ser_list(es, off + p + 4 + q);
            final(buf)@ == old(buf)@ + (zeros(p) + le_u32(body.len() as u32) + zeros(q) + body)
        }),
    decreases elems, 1nat,
{
    let ghost b0 = buf@;
    proof { lemma_models(elems@); }
    pad_to(buf, 4);
    let length_pos = buf.len();
    push_u32(buf, 0);
    if elems.len() > 0 {
        let g = elems[0].sig_bytes();
        let elem_align = alignment_of_bytes(g.as_slice());
        pad_to(buf, elem_align);
    }
    let data_start = buf.len();
    let ghost b1 = buf@;
    marshal_list(buf, elems);
    let data_len = (buf.len() - data_start) as u32;
    let ghost b2 = buf@;
    patch_u32(buf, length_pos, data_len);
    proof {
        let es = models(elems@);
        let body = ser_list(es, b1.len());
        assert(b2 == b1 + body);
        assert(buf@ =~= b0 + (zeros(pad(b0.len(), 4)) + le_u32(body.len() as u32)
            + zeros((b1.len() - b0.len() - pad(b0.len(), 4) - 4) as nat) + body));
    }
}

fn marshal_dict(buf: &mut Vec<u8>, pairs: &Vec<(Value, Value)>)
    ensures
        ({
            let ps = pair_models(pairs@);
            let off = old(buf)@.len();
            let p = pad(off, 4);
            let q = pad(off + p + 4, 8);
            let body = ser_pairs(ps, off + p + 4 + q);
            final(buf)@ == old(buf)@ + (zeros(p) + le_u32(body.len() as u32) + zeros(q) + body)
        }),
    decreases pairs, 1nat,
{
    let ghost b0 = buf@;
    let ghost ps = pair_models(pairs@);
    proof {
        lemma_pair_models(pairs@);
        assert(ps.subrange(0, ps.len() as int) =~= ps);
    }
    pad_to(buf, 4);
    let length_pos = buf.len();
    push_u32(buf, 0);
    pad_to(buf, 8);
    let data_start = buf.len();
    let ghost b1 = buf@;
    let mut i: usize = 0;
    while i < pairs.len()
        invariant
            i <= pairs@.len(),
            ps == pair_models(pairs@),
            ps.len() == pairs@.len(),
            forall|j: int| 0 <= j < pairs@.len() ==> #[trigger] ps[j] == (model(pairs@[j].0), model(pairs@[j].1)),
            b1 + ser_pairs(ps, b1.len()) == buf@ + ser_pairs(ps.subrange(i as int, ps.len() as int), buf@.len()),
            b1.len() <= buf@.len(),
        decreases pairs@.len() - i,
    {
        proof {
            assert(decreases_to!(*pairs => pairs@));
            assert(decreases_to!(pairs@ => pairs@[i as int]));
            assert(decreases_to!(pairs@[i as int] => pairs@[i as int].0));
            assert(decreases_to!(pairs@[i as int] => pairs@[i as int].1));
            let rest = ps.subrange(i as int, ps.len() as int);
            assert(rest[0] == ps[i as int]);
            assert(rest.subrange(1, rest.len() as int) =~= ps.subrange(i + 1, ps.len() as int));
        }
        let ghost before = buf@;
        pad_to(buf, 8);
        let ghost mid = buf@;
        marshal_value(buf, &pairs[i].0);
        let ghost mid2 = buf@;
        marshal_value(buf, &pairs[i].1);
        i += 1;
        proof {
            let o = before.len() + pad(before.len(), 8);
            let kb = ser(ps[i - 1].0, o);
            let vb = ser(ps[i - 1].1, o + kb.len());
            let h = zeros(pad(before.len(), 8)) + kb + vb;
            assert(mid2 == mid + kb);
            assert(buf@ =~= before + h);
            assert(before + (h + ser_pairs(ps.subrange(i as int, ps.len() as int), before.len() + h.len()))
                =~= buf@ + ser_pairs(ps.subrange(i as int, ps.len() as int), buf@.len()));
        }
    }
    proof {
        assert(ps.subrange(i as int, ps.len() as int) =~= Seq::<(VModel, VModel)>::empty());
        assert(b1 + ser_pairs(ps, b1.len()) =~= buf@ + Seq::<u8>::empty());
    }
    let data_len = (buf.len() - data_start) as u32;
    let ghost b2 = buf@;
    patch_u32(buf, length_pos, data_len);
    proof {
        let body = ser_pairs(ps, b1.len());
        assert(b2 == b1 + body);
        assert(buf@ =~= b0 + (zeros(pad(b0.len(), 4)) + le_u32(body.len() as u32)
            + zeros(pad(b0.len() + pad(b0.len(), 4) + 4, 8)) + body));
    }
}

/// Marshal a list of values into a body buffer, returning the body bytes and signature.
pub fn marshal_body(values: &[Value]) -> (r: (Vec<u8>, String))
    ensures
        r.0@ == ser_list(models(values@), 0),
        sbytes(r.1) == sig_list(models(values@)),
{
    let mut buf: Vec<u8> = Vec::new();
    let mut sig_buf: Vec<u8> = Vec::new();
    let ghost ms = models(values@);
    proof {
        lemma_models(values@);
        assert(ms.subrange(0, ms.len() as int) =~= ms);
        assert(ms.take(0) =~= Seq::<VModel>::empty());
    }
    let mut i: usize = 0;
    while i < values.len()
        invariant
            i <= values@.len(),
            ms == models(values@),
            ms.len() == values@.len(),
            forall|j: int| 0 <= j < values@.len() ==> #[trigger] ms[j] == model(values@[j]),
            ser_list(ms, 0) == buf@ + ser_list(ms.subrange(i as int, ms.len() as int), buf@.len()),
            sig_buf@ == sig_list(ms.take(i as int)),
        decreases values@.len() - i,
    {
        proof {
            let rest = ms.subrange(i as int, ms.len() as int);
            assert(rest[0] == ms[i as int]);
            assert(rest.subrange(1, rest.len() as int) =~= ms.subrange(i + 1, ms.len() as int));
            assert(ms.take(i + 1).drop_last() =~= ms.take(i as int));
            assert(ms.take(i + 1).last() == ms[i as int]);
        }
        let g = values[i].sig_bytes();
        append_bytes(&mut sig_buf, g.as_slice());
        let ghost before = buf@;
        marshal_value(&mut buf, &values[i]);
        i += 1;
        proof {
            let h = ser(ms[i - 1], before.len());
            assert(before + (h + ser_list(ms.subrange(i as int, ms.len() as int), before.len() + h.len()))
                =~= buf@ + ser_list(ms.subrange(i as int, ms.len() as int), buf@.len()));
        }
    }
    proof {
        assert(ms.subrange(i as int, ms.len() as int) =~= Seq::<VModel>::empty());
        assert(buf@ + Seq::<u8>::empty() =~= buf@);
        assert(ms.take(i as int) =~= ms);
        lemma_sig_list_valid(values@);
    }
    let sig = string_from_utf8(sig_buf.as_slice());
    (buf, sig)
}

} // verus!
