//! D-Bus values and their mathematical model.

use vstd::prelude::*;
use vstd::utf8::*;
use crate::text::{sbytes, string_from_utf8, lemma_ascii_byte_valid, lemma_ascii_valid};

verus! {

broadcast use vstd::seq::group_seq_axioms;

/// Type code `y`.
pub const C_BYTE: u8 = 121;
/// Type code `b`.
pub const C_BOOL: u8 = 98;
/// Type code `n`.
pub const C_I16: u8 = 110;
/// Type code `q`.
pub const C_U16: u8 = 113;
/// Type code `i`.
pub const C_I32: u8 = 105;
/// Type code `u`.
pub const C_U32: u8 = 117;
/// Type code `x`.
pub const C_I64: u8 = 120;
/// Type code `t`.
pub const C_U64: u8 = 116;
/// Type code `d`.
pub const C_F64: u8 = 100;
/// Type code `s`.
pub const C_STRING: u8 = 115;
/// Type code `o`.
pub const C_PATH: u8 = 111;
/// Type code `g`.
pub const C_SIG: u8 = 103;
/// Type code `v`.
pub const C_VARIANT: u8 = 118;
/// Type code `h`.
pub const C_FD: u8 = 104;
/// Type code `a`.
pub const C_ARRAY: u8 = 97;
/// Type code `(`.
pub const C_LPAREN: u8 = 40;
/// Type code `)`.
pub const C_RPAREN: u8 = 41;
/// Type code `{`.
pub const C_LBRACE: u8 = 123;
/// Type code `}`.
pub const C_RBRACE: u8 = 125;

/// A D-Bus value: any type of the D-Bus type system.
#[derive(Debug, PartialEq)]
pub enum Value {
    Byte(u8),
    Bool(bool),
    I16(i16),
    U16(u16),
    I32(i32),
    U32(u32),
    I64(i64),
    U64(u64),
    /// A DOUBLE, held as its IEEE-754 bit pattern.
    F64(u64),
    String(String),
    ObjectPath(String),
    Signature(String),
    /// Array whose element type is that of its first element.
    Array(Vec<Value>),
    /// Array with an explicit element signature (needed for empty arrays).
    TypedArray(String, Vec<Value>),
    Struct(Vec<Value>),
    Variant(Box<Value>),
    DictEntry(Box<(Value, Value)>),
    Dict(Vec<(Value, Value)>),
}

/// Mathematical model of a [`Value`]: strings are their UTF-8 bytes.
pub enum VModel {
    Byte(u8),
    Bool(bool),
    I16(i16),
    U16(u16),
    I32(i32),
    U32(u32),
    I64(i64),
    U64(u64),
    F64(u64),
    Str(Seq<u8>),
    ObjectPath(Seq<u8>),
    Signature(Seq<u8>),
    Array(Seq<VModel>),
    TypedArray(Seq<u8>, Seq<VModel>),
    Struct(Seq<VModel>),
    Variant(Box<VModel>),
    DictEntry(Box<VModel>, Box<VModel>),
    Dict(Seq<(VModel, VModel)>),
}

pub open spec fn model(v: Value) -> VModel
    decreases v,
{
    match v {
        Value::Byte(x) => VModel::Byte(x),
        Value::Bool(x) => VModel::Bool(x),
        Value::I16(x) => VModel::I16(x),
        Value::U16(x) => VModel::U16(x),
        Value::I32(x) => VModel::I32(x),
        Value::U32(x) => VModel::U32(x),
        Value::I64(x) => VModel::I64(x),
        Value::U64(x) => VModel::U64(x),
        Value::F64(x) => VModel::F64(x),
        Value::String(s) => VModel::Str(sbytes(s)),
        Value::ObjectPath(s) => VModel::ObjectPath(sbytes(s)),
        Value::Signature(s) => VModel::Signature(sbytes(s)),
        Value::Array(es) => VModel::Array(models(es@)),
        Value::TypedArray(s, es) => VModel::TypedArray(sbytes(s), models(es@)),
        Value::Struct(fs) => VModel::Struct(models(fs@)),
        Value::Variant(b) => VModel::Variant(Box::new(model(*b))),
        Value::DictEntry(p) => VModel::DictEntry(Box::new(model(p.0)), Box::new(model(p.1))),
        Value::Dict(ps) => VModel::Dict(pair_models(ps@)),
    }
}

pub open spec fn models(s: Seq<Value>) -> Seq<VModel>
    decreases s,
{
    if s.len() == 0 {
        Seq::empty()
    } else {
        models(s.drop_last()).push(model(s.last()))
    }
}

pub open spec fn pair_models(s: Seq<(Value, Value)>) -> Seq<(VModel, VModel)>
    decreases s,
{
    if s.len() == 0 {
        Seq::empty()
    } else {
        pair_models(s.drop_last()).push((model(s.last().0), model(s.last().1)))
    }
}

impl View for Value {
    type V = VModel;

    open spec fn view(&self) -> VModel {
        model(*self)
    }
}

/// The D-Bus type signature of a value, as bytes.
pub open spec fn sig(v: VModel) -> Seq<u8>
    decreases v,
{
    match v {
        VModel::Byte(_) => seq![C_BYTE],
        VModel::Bool(_) => seq![C_BOOL],
        VModel::I16(_) => seq![C_I16],
        VModel::U16(_) => seq![C_U16],
        VModel::I32(_) => seq![C_I32],
        VModel::U32(_) => seq![C_U32],
        VModel::I64(_) => seq![C_I64],
        VModel::U64(_) => seq![C_U64],
        VModel::F64(_) => seq![C_F64],
        VModel::Str(_) => seq![C_STRING],
        VModel::ObjectPath(_) => seq![C_PATH],
        VModel::Signature(_) => seq![C_SIG],
        VModel::Array(es) => seq![C_ARRAY] + (if es.len() == 0 { seq![C_VARIANT] } else { sig(es[0]) }),
        VModel::TypedArray(s, _) => seq![C_ARRAY] + s,
        VModel::Dict(ps) => seq![C_ARRAY, C_LBRACE] + (if ps.len() == 0 {
            seq![C_STRING, C_VARIANT]
        } else {
            sig(ps[0].0) + sig(ps[0].1)
        }) + seq![C_RBRACE],
        VModel::Struct(fs) => seq![C_LPAREN] + sig_list(fs) + seq![C_RPAREN],
        VModel::Variant(_) => seq![C_VARIANT],
        VModel::DictEntry(k, x) => seq![C_LBRACE] + sig(*k) + sig(*x) + seq![C_RBRACE],
    }
}

/// Concatenated signatures of a sequence of values.
pub open spec fn sig_list(fs: Seq<VModel>) -> Seq<u8>
    decreases fs,
{
    if fs.len() == 0 {
        Seq::empty()
    } else {
        sig_list(fs.drop_last()) + sig(fs.last())
    }
}

pub proof fn lemma_models(s: Seq<Value>)
    ensures
        models(s).len() == s.len(),
        forall|i: int| 0 <= i < s.len() ==> #[trigger] models(s)[i] == model(s[i]),
    decreases s.len(),
{
    if s.len() > 0 {
        lemma_models(s.drop_last());
    }
}

pub proof fn lemma_pair_models(s: Seq<(Value, Value)>)
    ensures
        pair_models(s).len() == s.len(),
        forall|i: int| 0 <= i < s.len() ==> #[trigger] pair_models(s)[i] == (model(s[i].0), model(s[i].1)),
    decreases s.len(),
{
    if s.len() > 0 {
        lemma_pair_models(s.drop_last());
    }
}

/// Appends the bytes of a slice to a vector.
pub fn append_bytes(dst: &mut Vec<u8>, src: &[u8])
    ensures
        final(dst)@ == old(dst)@ + src@,
{
    let ghost d0 = dst@;
    let mut i: usize = 0;
    while i < src.len()
        invariant
            i <= src@.len(),
            dst@ == d0 + src@.take(i as int),
        decreases src@.len() - i,
    {
        dst.push(src[i]);
        i += 1;
        assert(src@.take(i as int) =~= src@.take(i - 1).push(src@[i - 1]));
    }
    assert(src@.take(i as int) =~= src@);
}

/// Signatures of values built from strings are well-formed UTF-8.
pub proof fn lemma_sig_valid(v: Value)
    ensures
        valid_utf8(sig(model(v))),
    decreases v,
{
    broadcast use vstd::utf8::valid_utf8_concat, vstd::utf8::encode_utf8_valid_utf8;
    lemma_ascii_byte_valid(C_ARRAY);
    lemma_ascii_byte_valid(C_VARIANT);
    lemma_ascii_byte_valid(C_LBRACE);
    lemma_ascii_byte_valid(C_RBRACE);
    lemma_ascii_byte_valid(C_LPAREN);
    lemma_ascii_byte_valid(C_RPAREN);
    lemma_ascii_valid(seq![C_ARRAY, C_LBRACE]);
    lemma_ascii_valid(seq![C_STRING, C_VARIANT]);
    match v {
        Value::Array(es) => {
            lemma_models(es@);
            if es@.len() > 0 {
                assert(decreases_to!(es => es@));
                lemma_sig_valid(es@[0]);
                valid_utf8_concat(seq![C_ARRAY], sig(model(es@[0])));
                assert(model(v) == VModel::Array(models(es@)));
                assert(models(es@)[0] == model(es@[0]));
                assert(sig(model(v)) == seq![C_ARRAY] + sig(model(es@[0])));
                assert(valid_utf8(seq![C_ARRAY] + sig(model(es@[0]))));
                assert(valid_utf8(sig(model(v))));
            } else {
                valid_utf8_concat(seq![C_ARRAY], seq![C_VARIANT]);
                assert(sig(model(v)) == seq![C_ARRAY] + seq![C_VARIANT]);
                assert(valid_utf8(seq![C_ARRAY] + seq![C_VARIANT]));
                assert(valid_utf8(sig(model(v))));
            }
        },
        Value::Dict(ps) => {
            lemma_pair_models(ps@);
            if ps@.len() > 0 {
                assert(decreases_to!(ps => ps@));
                assert(decreases_to!(ps@ => ps@[0]));
                lemma_sig_valid(ps@[0].0);
                lemma_sig_valid(ps@[0].1);
                let k = sig(model(ps@[0].0));
                let x = sig(model(ps@[0].1));
                valid_utf8_concat(k, x);
                valid_utf8_concat(seq![C_ARRAY, C_LBRACE], k + x);
                valid_utf8_concat(seq![C_ARRAY, C_LBRACE] + (k + x), seq![C_RBRACE]);
                assert(seq![C_ARRAY, C_LBRACE] + (k + x) + seq![C_RBRACE] == sig(model(v)));
            } else {
                valid_utf8_concat(seq![C_ARRAY, C_LBRACE], seq![C_STRING, C_VARIANT]);
                valid_utf8_concat(seq![C_ARRAY, C_LBRACE] + seq![C_STRING, C_VARIANT], seq![C_RBRACE]);
                assert(seq![C_ARRAY, C_LBRACE] + seq![C_STRING, C_VARIANT] + seq![C_RBRACE] == sig(model(v)));
            }
        },
        Value::Struct(fs) => {
            assert(decreases_to!(fs => fs@));
            lemma_sig_list_valid(fs@);
            let l = sig_list(models(fs@));
            valid_utf8_concat(seq![C_LPAREN], l);
            valid_utf8_concat(seq![C_LPAREN] + l, seq![C_RPAREN]);
        },
        Value::DictEntry(p) => {
            lemma_sig_valid(p.0);
            lemma_sig_valid(p.1);
            let k = sig(model(p.0));
            let x = sig(model(p.1));
            valid_utf8_concat(seq![C_LBRACE], k);
            valid_utf8_concat(seq![C_LBRACE] + k, x);
            valid_utf8_concat(seq![C_LBRACE] + k + x, seq![C_RBRACE]);
        },
        Value::TypedArray(s, _) => {
            valid_utf8_concat(seq![C_ARRAY], sbytes(s));
        },
        Value::Variant(_) => {},
        _ => {
            lemma_ascii_valid(sig(model(v)));
        },
    }
}

pub proof fn lemma_sig_list_valid(fs: Seq<Value>)
    ensures
        valid_utf8(sig_list(models(fs))),
    decreases fs,
{
    broadcast use vstd::utf8::valid_utf8_concat;
    if fs.len() == 0 {
        lemma_ascii_valid(Seq::<u8>::empty());
    } else {
        lemma_sig_list_valid(fs.drop_last());
        lemma_sig_valid(fs.last());
        valid_utf8_concat(sig_list(models(fs.drop_last())), sig(model(fs.last())));
        assert(models(fs).drop_last() == models(fs.drop_last()));
        assert(models(fs).last() == model(fs.last()));
    }
}

impl Value {
    /// Returns the D-Bus type signature of this value.
    pub fn signature(&self) -> (r: String)
        ensures
            sbytes(r) == sig(self@),
    {
        let b = self.sig_bytes();
        proof { lemma_sig_valid(*self); }
        string_from_utf8(b.as_slice())
    }

    /// Signature bytes of this value.
    pub fn sig_bytes(&self) -> (r: Vec<u8>)
        ensures
            r@ == sig(self@),
        decreases self,
    {
        match self {
            Value::Byte(_) => vec![C_BYTE],
            Value::Bool(_) => vec![C_BOOL],
            Value::I16(_) => vec![C_I16],
            Value::U16(_) => vec![C_U16],
            Value::I32(_) => vec![C_I32],
            Value::U32(_) => vec![C_U32],
            Value::I64(_) => vec![C_I64],
            Value::U64(_) => vec![C_U64],
            Value::F64(_) => vec![C_F64],
            Value::String(_) => vec![C_STRING],
            Value::ObjectPath(_) => vec![C_PATH],
            Value::Signature(_) => vec![C_SIG],
            Value::Array(es) => {
                proof { lemma_models(es@); }
                let mut r = vec![C_ARRAY];
                if es.len() == 0 {
                    r.push(C_VARIANT);
                } else {
                    let inner = es[0].sig_bytes();
                    append_bytes(&mut r, inner.as_slice());
                }
                r
            },
            Value::TypedArray(s, _) => {
                let mut r = vec![C_ARRAY];
                append_bytes(&mut r, s.as_str().as_bytes());
                r
            },
            Value::Dict(ps) => {
                proof { lemma_pair_models(ps@); }
                let mut r = vec![C_ARRAY, C_LBRACE];
                if ps.len() == 0 {
                    r.push(C_STRING);
                    r.push(C_VARIANT);
                } else {
                    let k = ps[0].0.sig_bytes();
                    let x = ps[0].1.sig_bytes();
                    append_bytes(&mut r, k.as_slice());
                    append_bytes(&mut r, x.as_slice());
                }
                r.push(C_RBRACE);
                r
            },
            Value::Struct(fs) => {
                proof { lemma_models(fs@); 
                  assert(decreases_to!(*self => *fs));
                }
                let mut r = vec![C_LPAREN];
                let mut i: usize = 0;
                while i < fs.len()
                    invariant
                        i <= fs@.len(),
                        decreases_to!(*self => *fs),
                        models(fs@).len() == fs@.len(),
                        forall|j: int| 0 <= j < fs@.len() ==> #[trigger] models(fs@)[j] == model(fs@[j]),
                        r@ == seq![C_LPAREN] + sig_list(models(fs@).take(i as int)),
                    decreases fs@.len() - i,
                {
                    proof {
                        assert(decreases_to!(*fs => fs@));
                        assert(decreases_to!(fs@ => fs@[i as int]));
                        assert(decreases_to!(*self => fs@[i as int]));
                    }
                    let f = fs[i].sig_bytes();
                    append_bytes(&mut r, f.as_slice());
                    assert(models(fs@).take(i + 1).drop_last() =~= models(fs@).take(i as int));
                    i += 1;
                }
                assert(models(fs@).take(i as int) =~= models(fs@));
                r.push(C_RPAREN);
                r
            },
            Value::Variant(_) => vec![C_VARIANT],
            Value::DictEntry(p) => {
                let mut r = vec![C_LBRACE];
                let k = p.0.sig_bytes();
                let x = p.1.sig_bytes();
                append_bytes(&mut r, k.as_slice());
                append_bytes(&mut r, x.as_slice());
                r.push(C_RBRACE);
                r
            },
        }
    }
}

/// The string carried by a value (looking through variants).
pub open spec fn str_of(v: VModel) -> Option<Seq<u8>>
    decreases v,
{
    match v {
        VModel::Str(s) => Some(s),
        VModel::ObjectPath(s) => Some(s),
        VModel::Variant(x) => str_of(*x),
        _ => None,
    }
}

pub open spec fn bool_of(v: VModel) -> Option<bool>
    decreases v,
{
    match v {
        VModel::Bool(b) => Some(b),
        VModel::Variant(x) => bool_of(*x),
        _ => None,
    }
}

pub open spec fn u8_of(v: VModel) -> Option<u8>
    decreases v,
{
    match v {
        VModel::Byte(b) => Some(b),
        VModel::Variant(x) => u8_of(*x),
        _ => None,
    }
}

pub open spec fn i32_of(v: VModel) -> Option<i32>
    decreases v,
{
    match v {
        VModel::I32(b) => Some(b),
        VModel::Variant(x) => i32_of(*x),
        _ => None,
    }
}

pub open spec fn u32_of(v: VModel) -> Option<u32>
    decreases v,
{
    match v {
        VModel::U32(b) => Some(b),
        VModel::Variant(x) => u32_of(*x),
        _ => None,
    }
}

/// The elements of an array value (looking through variants).
pub open spec fn array_of(v: VModel) -> Option<Seq<VModel>>
    decreases v,
{
    match v {
        VModel::Array(es) => Some(es),
        VModel::TypedArray(_, es) => Some(es),
        VModel::Variant(x) => array_of(*x),
        _ => None,
    }
}

pub open spec fn fields_of(v: VModel) -> Option<Seq<VModel>>
    decreases v,
{
    match v {
        VModel::Struct(fs) => Some(fs),
        VModel::Variant(x) => fields_of(*x),
        _ => None,
    }
}

pub open spec fn pairs_of(v: VModel) -> Option<Seq<(VModel, VModel)>>
    decreases v,
{
    match v {
        VModel::Dict(ps) => Some(ps),
        VModel::Variant(x) => pairs_of(*x),
        _ => None,
    }
}

/// UTF-8 bytes of an optional string slice.
pub open spec fn opt_str_bytes(r: Option<&str>) -> Option<Seq<u8>> {
    match r {
        Some(s) => Some(encode_utf8(s@)),
        None => None,
    }
}

/// Models of an optional slice of values.
pub open spec fn opt_models(r: Option<&[Value]>) -> Option<Seq<VModel>> {
    match r {
        Some(s) => Some(models(s@)),
        None => None,
    }
}

impl Value {
    pub fn as_str(&self) -> (r: Option<&str>)
        ensures
            opt_str_bytes(r) == str_of(self@),
        decreases self,
    {
        match self {
            Value::String(s) => Some(s.as_str()),
            Value::ObjectPath(s) => Some(s.as_str()),
            Value::Variant(v) => v.as_str(),
            _ => None,
        }
    }

    pub fn as_bool(&self) -> (r: Option<bool>)
        ensures
            r == bool_of(self@),
        decreases self,
    {
        match self {
            Value::Bool(b) => Some(*b),
            Value::Variant(v) => v.as_bool(),
            _ => None,
        }
    }

    pub fn as_u8(&self) -> (r: Option<u8>)
        ensures
            r == u8_of(self@),
        decreases self,
    {
        match self {
            Value::Byte(v) => Some(*v),
            Value::Variant(inner) => inner.as_u8(),
            _ => None,
        }
    }

    pub fn as_i32(&self) -> (r: Option<i32>)
        ensures
            r == i32_of(self@),
        decreases self,
    {
        match self {
            Value::I32(v) => Some(*v),
            Value::Variant(inner) => inner.as_i32(),
            _ => None,
        }
    }

    pub fn as_u32(&self) -> (r: Option<u32>)
        ensures
            r == u32_of(self@),
        decreases self,
    {
        match self {
            Value::U32(v) => Some(*v),
            Value::Variant(inner) => inner.as_u32(),
            _ => None,
        }
    }

    pub fn as_i64(&self) -> (r: Option<i64>)
        ensures
            r == (match self@ {
                VModel::I64(v) => Some(v),
                _ => None,
            }),
    {
        match self {
            Value::I64(v) => Some(*v),
            _ => None,
        }
    }

    pub fn as_u64(&self) -> (r: Option<u64>)
        ensures
            r == (match self@ {
                VModel::U64(v) => Some(v),
                _ => None,
            }),
    {
        match self {
            Value::U64(v) => Some(*v),
            _ => None,
        }
    }

    /// The DOUBLE held by this value, as its IEEE-754 bit pattern.
    pub fn as_f64(&self) -> (r: Option<u64>)
        ensures
            r == (match self@ {
                VModel::F64(v) => Some(v),
                _ => None,
            }),
    {
        match self {
            Value::F64(v) => Some(*v),
            _ => None,
        }
    }

    pub fn as_array(&self) -> (r: Option<&[Value]>)
        ensures
            opt_models(r) == array_of(self@),
        decreases self,
    {
        match self {
            Value::Array(v) => Some(v.as_slice()),
            Value::TypedArray(_, v) => Some(v.as_slice()),
            Value::Variant(inner) => inner.as_array(),
            _ => None,
        }
    }

    pub fn as_struct_fields(&self) -> (r: Option<&[Value]>)
        ensures
            opt_models(r) == fields_of(self@),
        decreases self,
    {
        match self {
            Value::Struct(v) => Some(v.as_slice()),
            Value::Variant(inner) => inner.as_struct_fields(),
            _ => None,
        }
    }

    pub fn as_variant(&self) -> (r: Option<&Value>)
        ensures
            (match r {
                Some(x) => self@ == VModel::Variant(Box::new(x@)),
                None => !(self@ is Variant),
            }),
    {
        match self {
            Value::Variant(v) => Some(v),
            _ => None,
        }
    }

    pub fn as_dict_pairs(&self) -> (r: Option<&[(Value, Value)]>)
        ensures
            (match r {
                Some(s) => pairs_of(self@) == Some(pair_models(s@)),
                None => pairs_of(self@) is None,
            }),
        decreases self,
    {
        match self {
            Value::Dict(v) => Some(v.as_slice()),
            Value::Variant(inner) => inner.as_dict_pairs(),
            _ => None,
        }
    }
}

/// A deep copy of a value.
pub fn copy_value(v: &Value) -> (r: Value)
    ensures
        r@ == v@,
    decreases v, 1nat,
{
    match v {
        Value::Byte(x) => Value::Byte(*x),
        Value::Bool(x) => Value::Bool(*x),
        Value::I16(x) => Value::I16(*x),
        Value::U16(x) => Value::U16(*x),
        Value::I32(x) => Value::I32(*x),
        Value::U32(x) => Value::U32(*x),
        Value::I64(x) => Value::I64(*x),
        Value::U64(x) => Value::U64(*x),
        Value::F64(x) => Value::F64(*x),
        Value::String(s) => Value::String(s.clone()),
        Value::ObjectPath(s) => Value::ObjectPath(s.clone()),
        Value::Signature(s) => Value::Signature(s.clone()),
        Value::Array(es) => Value::Array(copy_values(es)),
        Value::TypedArray(s, es) => Value::TypedArray(s.clone(), copy_values(es)),
        Value::Struct(fs) => Value::Struct(copy_values(fs)),
        Value::Variant(b) => Value::Variant(Box::new(copy_value(b))),
        Value::DictEntry(p) => Value::DictEntry(Box::new((copy_value(&p.0), copy_value(&p.1)))),
        Value::Dict(ps) => Value::Dict(copy_pairs(ps)),
    }
}

/// A deep copy of a vector of values.
pub fn copy_values(es: &Vec<Value>) -> (r: Vec<Value>)
    ensures
        models(r@) == models(es@),
    decreases es, 0nat,
{
    let mut r: Vec<Value> = Vec::new();
    let mut i: usize = 0;
    proof { lemma_models(es@); }
    while i < es.len()
        invariant
            i <= es@.len(),
            r@.len() == i,
            models(es@).len() == es@.len(),
            forall|j: int| 0 <= j < es@.len() ==> #[trigger] models(es@)[j] == model(es@[j]),
            forall|j: int| 0 <= j < i ==> #[trigger] model(r@[j]) == model(es@[j]),
        decreases es@.len() - i,
    {
        proof {
            assert(decreases_to!(*es => es@));
            assert(decreases_to!(es@ => es@[i as int]));
        }
        let x = copy_value(&es[i]);
        r.push(x);
        i += 1;
    }
    proof {
        lemma_models(r@);
        assert(models(r@) =~= models(es@));
    }
    r
}

/// A deep copy of a vector of value pairs.
pub fn copy_pairs(ps: &Vec<(Value, Value)>) -> (r: Vec<(Value, Value)>)
    ensures
        pair_models(r@) == pair_models(ps@),
    decreases ps, 0nat,
{
    let mut r: Vec<(Value, Value)> = Vec::new();
    let mut i: usize = 0;
    proof { lemma_pair_models(ps@); }
    while i < ps.len()
        invariant
            i <= ps@.len(),
            r@.len() == i,
            pair_models(ps@).len() == ps@.len(),
            forall|j: int| 0 <= j < ps@.len() ==> #[trigger] pair_models(ps@)[j] == (model(ps@[j].0), model(ps@[j].1)),
            forall|j: int| 0 <= j < i ==> model(#[trigger] r@[j].0) == model(ps@[j].0) && model(r@[j].1) == model(ps@[j].1),
        decreases ps@.len() - i,
    {
        proof {
            assert(decreases_to!(*ps => ps@));
            assert(decreases_to!(ps@ => ps@[i as int]));
            assert(decreases_to!(ps@[i as int] => ps@[i as int].0));
            assert(decreases_to!(ps@[i as int] => ps@[i as int].1));
        }
        let k = copy_value(&ps[i].0);
        let x = copy_value(&ps[i].1);
        r.push((k, x));
        i += 1;
    }
    proof {
        lemma_pair_models(r@);
        assert(pair_models(r@) =~= pair_models(ps@));
    }
    r
}

impl Clone for Value {
    fn clone(&self) -> (r: Self)
        ensures
            r@ == self@,
    {
        copy_value(self)
    }
}

/// Position of the first entry with key `k`, or -1.
pub open spec fn key_index(s: Seq<(Seq<u8>, VModel)>, k: Seq<u8>) -> int
    decreases s.len(),
{
    if s.len() == 0 {
        -1
    } else if s[0].0 == k {
        0
    } else {
        let j = key_index(s.drop_first(), k);
        if j >= 0 { j + 1 } else { -1 }
    }
}

/// Sets the value of key `k`, appending the key if it is new.
pub open spec fn upsert(s: Seq<(Seq<u8>, VModel)>, k: Seq<u8>, v: VModel) -> Seq<(Seq<u8>, VModel)> {
    let i = key_index(s, k);
    if i >= 0 {
        s.update(i, (k, v))
    } else {
        s.push((k, v))
    }
}

/// The string-keyed entries of a dict: each key once, in order of first
/// appearance, with the value of its last entry; other keys are skipped.
pub open spec fn string_dict(ps: Seq<(VModel, VModel)>) -> Seq<(Seq<u8>, VModel)>
    decreases ps.len(),
{
    if ps.len() == 0 {
        Seq::empty()
    } else {
        let acc = string_dict(ps.drop_last());
        match str_of(ps.last().0) {
            Some(k) => upsert(acc, k, ps.last().1),
            None => acc,
        }
    }
}

pub proof fn lemma_key_index(s: Seq<(Seq<u8>, VModel)>, k: Seq<u8>)
    ensures
        -1 <= key_index(s, k) < s.len(),
        key_index(s, k) >= 0 ==> s[key_index(s, k)].0 == k,
        key_index(s, k) >= 0 ==> forall|j: int| 0 <= j < key_index(s, k) ==> #[trigger] s[j].0 != k,
        key_index(s, k) == -1 ==> forall|j: int| 0 <= j < s.len() ==> #[trigger] s[j].0 != k,
    decreases s.len(),
{
    if s.len() > 0 && s[0].0 != k {
        lemma_key_index(s.drop_first(), k);
        assert forall|j: int| 0 < j < s.len() implies #[trigger] s[j] == s.drop_first()[j - 1] by {}
    }
}

/// Models of keyed entries.
pub open spec fn keyed_models(r: Seq<(String, Value)>) -> Seq<(Seq<u8>, VModel)> {
    r.map_values(|p: (String, Value)| (sbytes(p.0), model(p.1)))
}

fn same_string(a: &String, b: &String) -> (r: bool)
    ensures
        r == (sbytes(*a) == sbytes(*b)),
{
    proof {
        vstd::utf8::encode_utf8_decode_utf8(a@);
        vstd::utf8::encode_utf8_decode_utf8(b@);
    }
    *a == *b
}

impl Value {
    /// Convert a Dict of String keys to a key/value list, each key once.
    pub fn to_string_dict(&self) -> (r: Option<Vec<(String, Value)>>)
        ensures
            (match r {
                Some(v) => pairs_of(self@) matches Some(ps) && keyed_models(v@) == string_dict(ps),
                None => pairs_of(self@) is None,
            }),
    {
        let pairs = match self.as_dict_pairs() {
            Some(p) => p,
            None => return None,
        };
        let ghost ps = pair_models(pairs@);
        proof { lemma_pair_models(pairs@); }
        let mut out: Vec<(String, Value)> = Vec::new();
        let mut i: usize = 0;
        while i < pairs.len()
            invariant
                i <= pairs@.len(),
                ps == pair_models(pairs@),
                ps.len() == pairs@.len(),
                forall|j: int| 0 <= j < pairs@.len() ==> #[trigger] ps[j] == (model(pairs@[j].0), model(pairs@[j].1)),
                keyed_models(out@) == string_dict(ps.take(i as int)),
            decreases pairs@.len() - i,
        {
            let ghost acc = keyed_models(out@);
            proof {
                assert(ps.take(i + 1).drop_last() =~= ps.take(i as int));
                assert(ps.take(i + 1).last() == ps[i as int]);
            }
            match pairs[i].0.as_str() {
                Some(key) => {
                    let ks = key.to_owned();
                    let val = copy_value(&pairs[i].1);
                    let ghost kb = sbytes(ks);
                    proof { lemma_key_index(acc, kb); }
                    let mut j: usize = 0;
                    let mut found = false;
                    while j < out.len()
                        invariant_except_break
                            !found,
                        invariant
                            j <= out@.len(),
                            acc == keyed_models(out@),
                            acc.len() == out@.len(),
                            kb == sbytes(ks),
                            forall|m: int| 0 <= m < j ==> #[trigger] acc[m].0 != kb,
                        ensures
                            found ==> j < out@.len() && acc[j as int].0 == kb,
                            !found ==> j == out@.len(),
                        decreases out@.len() - j,
                    {
                        if same_string(&out[j].0, &ks) {
                            found = true;
                            break;
                        }
                        j += 1;
                    }
                    if found {
                        proof {
                            assert(acc[j as int].0 == kb);
                            lemma_key_index(acc, kb);
                            assert(key_index(acc, kb) == j);
                        }
                        out.set(j, (ks, val));
                        proof {
                            assert(keyed_models(out@) =~= acc.update(j as int, (kb, ps[i as int].1)));
                        }
                    } else {
                        proof { assert(key_index(acc, kb) == -1); }
                        out.push((ks, val));
                        proof {
                            assert(keyed_models(out@) =~= acc.push((kb, ps[i as int].1)));
                        }
                    }
                },
                None => {},
            }
            i += 1;
        }
        proof { assert(ps.take(i as int) =~= ps); }
        Some(out)
    }
}

} // verus!
