//! Reading D-Bus values back from little-endian wire bytes.

use vstd::prelude::*;
use vstd::utf8::*;
use crate::text::{sbytes, str_from_utf8};
use crate::linbus::error::LinbusError;
use crate::linbus::value::{
    Value, VModel, model, models, lemma_models, pair_models, lemma_pair_models,
    C_BYTE, C_BOOL, C_I16, C_U16, C_I32, C_U32, C_I64, C_U64, C_F64, C_STRING, C_PATH, C_SIG,
    C_VARIANT, C_FD, C_ARRAY, C_LPAREN, C_LBRACE,
};
use crate::linbus::signature::{
    split_sig, align_of, struct_fields, dict_kv, array_elem, all_sbytes, lemma_split_bounds,
    split_from, array_elem_bytes, dict_kv_bytes, struct_fields_bytes, alignment_of_bytes,
};

verus! {

broadcast use vstd::seq::group_seq_axioms;

/// What went wrong while reading: malformed data, or a malformed signature.
pub enum ReadFault {
    Data,
    Sig,
}

/// Padding needed to bring `pos` to a multiple of `a`.
pub open spec fn pad(pos: nat, a: int) -> nat {
    if a <= 0 {
        0
    } else {
        ((a - (pos as int) % a) % a) as nat
    }
}

/// Bytes left after `pos`.
pub open spec fn rem(len: nat, pos: nat) -> nat {
    if pos < len {
        (len - pos) as nat
    } else {
        0
    }
}

pub open spec fn le16(d: Seq<u8>, p: int) -> int {
    d[p] as int + d[p + 1] as int * 256
}

/// Padding takes a position to the least multiple of the alignment that is
/// not below it; an aligned position needs no padding, so aligning twice is
/// aligning once.
pub proof fn lemma_pad_aligns(pos: nat, a: int)
    requires
        a > 0,
    ensures
        pad(pos, a) < a,
        ((pos + pad(pos, a)) as int) % a == 0,
        pad((pos + pad(pos, a)) as nat, a) == 0,
{
    let r = (pos as int) % a;
    vstd::arithmetic::div_mod::lemma_fundamental_div_mod(pos as int, a);
    vstd::arithmetic::div_mod::lemma_mod_bound(pos as int, a);
    vstd::arithmetic::div_mod::lemma_mod_self_0(a);
    if r == 0 {
        assert(pad(pos, a) == 0);
    } else {
        vstd::arithmetic::div_mod::lemma_small_mod((a - r) as nat, a as nat);
        assert(pad(pos, a) == a - r);
        assert((pos + pad(pos, a)) as int == a * ((pos as int) / a + 1)) by (nonlinear_arith)
            requires
                pos as int == a * ((pos as int) / a) + r,
                pad(pos, a) == a - r;
        vstd::arithmetic::div_mod::lemma_mod_multiples_basic((pos as int) / a + 1, a);
    }
}

pub open spec fn le32(d: Seq<u8>, p: int) -> int {
    d[p] as int + d[p + 1] as int * 256 + d[p + 2] as int * 65536 + d[p + 3] as int * 16777216
}

pub open spec fn le64(d: Seq<u8>, p: int) -> int {
    le32(d, p) + le32(d, p + 4) * 4294967296
}

/// Reads `n` bytes aligned to `a` at `pos`: where they start, if they fit, and the advance.
pub open spec fn spec_fixed(d: Seq<u8>, pos: nat, a: int, n: nat) -> (Option<int>, nat) {
    let p: int = (pos + pad(pos, a)) as int;
    if p + n <= d.len() {
        (Some(p), pad(pos, a) + n)
    } else {
        (None, pad(pos, a))
    }
}

pub open spec fn spec_byte(d: Seq<u8>, pos: nat) -> (Option<u8>, nat) {
    if pos + 1 <= d.len() {
        (Some(d[pos as int]), 1)
    } else {
        (None, 0)
    }
}

pub open spec fn spec_u16(d: Seq<u8>, pos: nat) -> (Option<u16>, nat) {
    let (o, n) = spec_fixed(d, pos, 2, 2);
    match o {
        Some(p) => (Some(le16(d, p) as u16), n),
        None => (None, n),
    }
}

pub open spec fn spec_u32(d: Seq<u8>, pos: nat) -> (Option<u32>, nat) {
    let (o, n) = spec_fixed(d, pos, 4, 4);
    match o {
        Some(p) => (Some(le32(d, p) as u32), n),
        None => (None, n),
    }
}

pub open spec fn spec_u64(d: Seq<u8>, pos: nat) -> (Option<u64>, nat) {
    let (o, n) = spec_fixed(d, pos, 8, 8);
    match o {
        Some(p) => (Some(le64(d, p) as u64), n),
        None => (None, n),
    }
}

/// A length-prefixed (u32) string followed by a NUL byte.
pub open spec fn spec_string(d: Seq<u8>, pos: nat) -> (Option<Seq<u8>>, nat) {
    let (o, n) = spec_u32(d, pos);
    match o {
        None => (None, n),
        Some(l) => {
            let p: int = (pos + n) as int;
            if p + l + 1 <= d.len() && valid_utf8(d.subrange(p, p + l)) {
                (Some(d.subrange(p, p + l)), (n + l + 1) as nat)
            } else {
                (None, n)
            }
        },
    }
}

/// A length-prefixed (u8) signature followed by a NUL byte.
pub open spec fn spec_signature(d: Seq<u8>, pos: nat) -> (Option<Seq<u8>>, nat) {
    let (o, n) = spec_byte(d, pos);
    match o {
        None => (None, n),
        Some(l) => {
            let p: int = (pos + n) as int;
            if p + l + 1 <= d.len() && valid_utf8(d.subrange(p, p + l)) {
                (Some(d.subrange(p, p + l)), (n + l + 1) as nat)
            } else {
                (None, n)
            }
        },
    }
}

/// The longest of a list of signatures.
pub open spec fn maxlen(ts: Seq<Seq<u8>>) -> nat
    decreases ts.len(),
{
    if ts.len() == 0 {
        0
    } else {
        let m = maxlen(ts.drop_first());
        if ts[0].len() > m {
            ts[0].len()
        } else {
            m
        }
    }
}

pub proof fn lemma_maxlen(ts: Seq<Seq<u8>>)
    ensures
        forall|k: int| 0 <= k < ts.len() ==> #[trigger] ts[k].len() <= maxlen(ts),
        ts.len() > 0 ==> maxlen(ts.drop_first()) <= maxlen(ts),
        (forall|k: int| 0 <= k < ts.len() ==> #[trigger] ts[k].len() <= maxlen(ts) - 0),
    decreases ts.len(),
{
    if ts.len() > 0 {
        lemma_maxlen(ts.drop_first());
        assert forall|k: int| 0 <= k < ts.len() implies #[trigger] ts[k].len() <= maxlen(ts) by {
            if k > 0 {
                assert(ts[k] == ts.drop_first()[k - 1]);
            }
        }
    }
}

pub proof fn lemma_maxlen_bound(ts: Seq<Seq<u8>>, n: nat)
    requires
        forall|k: int| 0 <= k < ts.len() ==> #[trigger] ts[k].len() <= n,
    ensures
        maxlen(ts) <= n,
    decreases ts.len(),
{
    if ts.len() > 0 {
        assert forall|k: int| 0 <= k < ts.drop_first().len() implies #[trigger] ts.drop_first()[k].len() <= n by {
            assert(ts.drop_first()[k] == ts[k + 1]);
        }
        lemma_maxlen_bound(ts.drop_first(), n);
    }
}

/// Reads one value of type `sig` at `pos`: the outcome and how far the
/// position moved (also on failure).
pub open spec fn parse(d: Seq<u8>, pos: nat, sig: Seq<u8>) -> (Result<VModel, ReadFault>, nat)
    decreases rem(d.len(), pos), sig.len(), 0nat, 0nat,
{
    if sig.len() == 0 {
        (Err(ReadFault::Sig), 0)
    } else {
        let c = sig[0];
        if c == C_BYTE {
            let (o, n) = spec_byte(d, pos);
            (match o { Some(x) => Ok(VModel::Byte(x)), None => Err(ReadFault::Data) }, n)
        } else if c == C_BOOL {
            let (o, n) = spec_u32(d, pos);
            (match o { Some(x) => Ok(VModel::Bool(x != 0)), None => Err(ReadFault::Data) }, n)
        } else if c == C_I16 {
            let (o, n) = spec_u16(d, pos);
            (match o { Some(x) => Ok(VModel::I16(x as i16)), None => Err(ReadFault::Data) }, n)
        } else if c == C_U16 {
            let (o, n) = spec_u16(d, pos);
            (match o { Some(x) => Ok(VModel::U16(x)), None => Err(ReadFault::Data) }, n)
        } else if c == C_I32 {
            let (o, n) = spec_u32(d, pos);
            (match o { Some(x) => Ok(VModel::I32(x as i32)), None => Err(ReadFault::Data) }, n)
        } else if c == C_U32 || c == C_FD {
            let (o, n) = spec_u32(d, pos);
            (match o { Some(x) => Ok(VModel::U32(x)), None => Err(ReadFault::Data) }, n)
        } else if c == C_I64 {
            let (o, n) = spec_u64(d, pos);
            (match o { Some(x) => Ok(VModel::I64(x as i64)), None => Err(ReadFault::Data) }, n)
        } else if c == C_U64 {
            let (o, n) = spec_u64(d, pos);
            (match o { Some(x) => Ok(VModel::U64(x)), None => Err(ReadFault::Data) }, n)
        } else if c == C_F64 {
            let (o, n) = spec_u64(d, pos);
            (match o { Some(x) => Ok(VModel::F64(x)), None => Err(ReadFault::Data) }, n)
        } else if c == C_STRING {
            let (o, n) = spec_string(d, pos);
            (match o { Some(x) => Ok(VModel::Str(x)), None => Err(ReadFault::Data) }, n)
        } else if c == C_PATH {
            let (o, n) = spec_string(d, pos);
            (match o { Some(x) => Ok(VModel::ObjectPath(x)), None => Err(ReadFault::Data) }, n)
        } else if c == C_SIG {
            let (o, n) = spec_signature(d, pos);
            (match o { Some(x) => Ok(VModel::Signature(x)), None => Err(ReadFault::Data) }, n)
        } else if c == C_VARIANT {
            let (o, n) = spec_signature(d, pos);
            match o {
                None => (Err(ReadFault::Data), n),
                Some(s) => {
                    let (r, m) = parse(d, (pos + n) as nat, s);
                    (match r { Ok(x) => Ok(VModel::Variant(Box::new(x))), Err(f) => Err(f) }, (n + m) as nat)
                },
            }
        } else if c == C_ARRAY {
            if sig.len() > 1 && sig[1] == C_LBRACE {
                match array_elem(sig) {
                    None => (Err(ReadFault::Sig), 0),
                    Some(e) => match dict_kv(e) {
                        None => (Err(ReadFault::Sig), 0),
                        Some((k, v)) => {
                            proof {
                                lemma_split_bounds(sig.subrange(1, sig.len() as int), 0);
                                lemma_split_bounds(e.subrange(1, e.len() - 1), 0);
                            }
                            let (o, n) = spec_u32(d, pos);
                            match o {
                                None => (Err(ReadFault::Data), n),
                                Some(l) => {
                                    let p = (pos + n + pad(pos + n, 8)) as nat;
                                    let (r, m) = parse_pairs(d, p, p + l, k, v);
                                    (match r { Ok(x) => Ok(VModel::Dict(x)), Err(f) => Err(f) },
                                        (n + pad(pos + n, 8) + m) as nat)
                                },
                            }
                        },
                    },
                }
            } else {
                match array_elem(sig) {
                    None => (Err(ReadFault::Sig), 0),
                    Some(e) => {
                        proof { lemma_split_bounds(sig.subrange(1, sig.len() as int), 0); }
                        let (o, n) = spec_u32(d, pos);
                        match o {
                            None => (Err(ReadFault::Data), n),
                            Some(l) => {
                                let q = pad(pos + n, align_of(e));
                                let p = (pos + n + q) as nat;
                                let (r, m) = parse_elems(d, p, p + l, e);
                                (match r { Ok(x) => Ok(VModel::Array(x)), Err(f) => Err(f) }, (n + q + m) as nat)
                            },
                        }
                    },
                }
            }
        } else if c == C_LPAREN {
            let q = pad(pos, 8);
            match struct_fields(sig) {
                None => (Err(ReadFault::Sig), q),
                Some(fs) => {
                    proof {
                        lemma_split_bounds(sig.subrange(1, sig.len() - 1), 0);
                        lemma_maxlen_bound(fs, (sig.len() - 2) as nat);
                    }
                    let (r, m) = parse_fields(d, (pos + q) as nat, fs);
                    (match r { Ok(x) => Ok(VModel::Struct(x)), Err(f) => Err(f) }, (q + m) as nat)
                },
            }
        } else {
            (Err(ReadFault::Sig), 0)
        }
    }
}

/// Array elements of type `e` from `pos` while the position is below `end`.
pub open spec fn parse_elems(d: Seq<u8>, pos: nat, end: int, e: Seq<u8>) -> (Result<Seq<VModel>, ReadFault>, nat)
    decreases rem(d.len(), pos), e.len(), 1nat, if end > pos { (end - pos) as nat } else { 0nat },
{
    if pos < end {
        let (r, n) = parse(d, pos, e);
        match r {
            Err(f) => (Err(f), n),
            Ok(x) => if n == 0 {
                (Err(ReadFault::Data), 0)
            } else {
                let (r2, m) = parse_elems(d, (pos + n) as nat, end, e);
                (match r2 { Ok(xs) => Ok(seq![x] + xs), Err(f) => Err(f) }, (n + m) as nat)
            },
        }
    } else {
        (Ok(Seq::empty()), 0)
    }
}

/// Dict entries (each aligned to 8) from `pos` while the position is below `end`.
pub open spec fn parse_pairs(d: Seq<u8>, pos: nat, end: int, k: Seq<u8>, v: Seq<u8>)
    -> (Result<Seq<(VModel, VModel)>, ReadFault>, nat)
    decreases rem(d.len(), pos), if k.len() > v.len() { k.len() } else { v.len() }, 1nat,
        if end > pos { (end - pos) as nat } else { 0nat },
{
    if pos < end {
        let q = pad(pos, 8);
        let (rk, nk) = parse(d, (pos + q) as nat, k);
        match rk {
            Err(f) => (Err(f), (q + nk) as nat),
            Ok(x) => {
                let (rv, nv) = parse(d, (pos + q + nk) as nat, v);
                match rv {
                    Err(f) => (Err(f), (q + nk + nv) as nat),
                    Ok(y) => if q + nk + nv == 0 {
                        (Err(ReadFault::Data), 0)
                    } else {
                        let (r2, m) = parse_pairs(d, (pos + q + nk + nv) as nat, end, k, v);
                        (match r2 { Ok(ps) => Ok(seq![(x, y)] + ps), Err(f) => Err(f) }, (q + nk + nv + m) as nat)
                    },
                }
            },
        }
    } else {
        (Ok(Seq::empty()), 0)
    }
}

/// Consecutive values of the types `fs`.
pub open spec fn parse_fields(d: Seq<u8>, pos: nat, fs: Seq<Seq<u8>>) -> (Result<Seq<VModel>, ReadFault>, nat)
    decreases rem(d.len(), pos), maxlen(fs), 1nat, fs.len(),
{
    if fs.len() == 0 {
        (Ok(Seq::empty()), 0)
    } else {
        proof { lemma_maxlen(fs); }
        let (r, n) = parse(d, pos, fs[0]);
        match r {
            Err(f) => (Err(f), n),
            Ok(x) => {
                let (r2, m) = parse_fields(d, (pos + n) as nat, fs.drop_first());
                (match r2 { Ok(xs) => Ok(seq![x] + xs), Err(f) => Err(f) }, (n + m) as nat)
            },
        }
    }
}

/// Reading a dict: `sig` is `a{kv}` or a bare entry type `{kv}`.
pub open spec fn spec_dict(d: Seq<u8>, pos: nat, sig: Seq<u8>) -> (Result<VModel, ReadFault>, nat) {
    let kv = if sig.len() >= 1 && sig[0] == C_ARRAY {
        match array_elem(sig) {
            None => None,
            Some(e) => dict_kv(e),
        }
    } else {
        dict_kv(sig)
    };
    match kv {
        None => (Err(ReadFault::Sig), 0),
        Some((k, v)) => {
            let (o, n) = spec_u32(d, pos);
            match o {
                None => (Err(ReadFault::Data), n),
                Some(l) => {
                    let p = (pos + n + pad(pos + n, 8)) as nat;
                    let (r, m) = parse_pairs(d, p, p + l, k, v);
                    (match r { Ok(x) => Ok(VModel::Dict(x)), Err(f) => Err(f) }, (n + pad(pos + n, 8) + m) as nat)
                },
            }
        },
    }
}

/// Reading a message body of signature `sig`.
pub open spec fn spec_body(d: Seq<u8>, pos: nat, sig: Seq<u8>) -> (Result<Seq<VModel>, ReadFault>, nat) {
    if sig.len() == 0 {
        (Ok(Seq::empty()), 0)
    } else {
        match split_sig(sig) {
            None => (Err(ReadFault::Sig), 0),
            Some(ts) => parse_fields(d, pos, ts),
        }
    }
}

/// A reader position that leaves room for one alignment step below `usize::MAX`.
pub open spec fn pos_ok(pos: int) -> bool {
    pos <= usize::MAX - 8 || (pos <= usize::MAX - 7 && pos % 8 == 0)
}

/// Positions up to seven bytes past any slice can still be aligned.
pub proof fn lemma_small_pos_ok(len: int)
    requires
        len <= isize::MAX,
    ensures
        forall|p: int| p <= len + 7 ==> #[trigger] pos_ok(p),
{
    assert(usize::MAX == 0xffff_ffff && isize::MAX == 0x7fff_ffff
        || usize::MAX == 0xffff_ffff_ffff_ffff && isize::MAX == 0x7fff_ffff_ffff_ffff);
}

/// Aligning a usable position to 8 stays in range and leaves a usable position.
pub proof fn lemma_align8(p: int)
    requires
        0 <= p,
        pos_ok(p),
    ensures
        p + pad(p as nat, 8) <= usize::MAX,
        pos_ok(p + pad(p as nat, 8)),
        (p + pad(p as nat, 8)) % 8 == 0,
{
    assert(usize::MAX == 0xffff_ffff || usize::MAX == 0xffff_ffff_ffff_ffff);
}

/// Padding to any of the D-Bus alignments is less than eight bytes.
pub proof fn lemma_pad_small(p: nat, a: int)
    requires
        a == 1 || a == 2 || a == 4 || a == 8,
    ensures
        pad(p, a) < a,
        pad(p, a) <= 7,
{
}

/// How a read failure of kind `f` surfaces as an error.
pub open spec fn fault_matches(f: ReadFault, e: LinbusError) -> bool {
    match f {
        ReadFault::Data => e is ProtocolError,
        ReadFault::Sig => e is InvalidSignature,
    }
}

/// An exec value read matches the spec outcome `res`.
pub open spec fn outcome_matches(res: Result<VModel, ReadFault>, r: Result<Value, LinbusError>) -> bool {
    match r {
        Ok(v) => res == Ok::<VModel, ReadFault>(model(v)),
        Err(e) => res matches Err(f) && fault_matches(f, e),
    }
}

pub open spec fn outcomes_match(res: Result<Seq<VModel>, ReadFault>, r: Result<Vec<Value>, LinbusError>) -> bool {
    match r {
        Ok(v) => res == Ok::<Seq<VModel>, ReadFault>(models(v@)),
        Err(e) => res matches Err(f) && fault_matches(f, e),
    }
}

pub open spec fn pairs_match(res: Result<Seq<(VModel, VModel)>, ReadFault>, r: Result<Vec<(Value, Value)>, LinbusError>) -> bool {
    match r {
        Ok(v) => res == Ok::<Seq<(VModel, VModel)>, ReadFault>(pair_models(v@)),
        Err(e) => res matches Err(f) && fault_matches(f, e),
    }
}

fn data_error(msg: &str) -> (e: LinbusError)
    ensures
        e matches LinbusError::ProtocolError(text) && text@ == msg@,
{
    LinbusError::ProtocolError(msg.to_owned())
}

fn sig_error(msg: &str) -> (e: LinbusError)
    ensures
        e is InvalidSignature,
{
    LinbusError::InvalidSignature(msg.to_owned())
}

/// Reader that tracks position for alignment calculations.
pub struct Reader<'a> {
    pub data: &'a [u8],
    pub pos: usize,
}

impl<'a> Reader<'a> {
    pub fn new(data: &'a [u8]) -> (r: Self)
        ensures
            r.data@ == data@,
            r.pos == 0,
    {
        Reader { data, pos: 0 }
    }

    pub fn remaining(&self) -> (r: usize)
        ensures
            r == rem(self.data@.len(), self.pos as nat),
    {
        if self.pos < self.data.len() {
            self.data.len() - self.pos
        } else {
            0
        }
    }

    /// Whether `n` more bytes are available at the current position.
    fn check(&self, n: usize) -> (r: bool)
        ensures
            r == (self.pos + n <= self.data@.len()),
    {
        n <= self.data.len() && self.pos <= self.data.len() - n
    }

    pub fn align_to(&mut self, alignment: usize)
        requires
            alignment > 0,
            old(self).pos + pad(old(self).pos as nat, alignment as int) <= usize::MAX,
        ensures
            final(self).data@ == old(self).data@,
            final(self).pos == old(self).pos + pad(old(self).pos as nat, alignment as int),
    {
        let pad = (alignment - (self.pos % alignment)) % alignment;
        self.pos = self.pos + pad;
    }

    pub fn read_byte(&mut self) -> (r: Result<u8, LinbusError>)
        ensures
            final(self).data@ == old(self).data@,
            ({
                let (o, n) = spec_byte(old(self).data@, old(self).pos as nat);
                &&& final(self).pos == old(self).pos + n
                &&& match r {
                    Ok(x) => o == Some(x),
                    Err(e) => o is None && e is ProtocolError,
                }
            }),
    {
        if !self.check(1) {
            return Err(data_error("read past end"));
        }
        let v = self.data[self.pos];
        self.pos += 1;
        Ok(v)
    }

    pub fn read_u16(&mut self) -> (r: Result<u16, LinbusError>)
        requires
            pos_ok(old(self).pos as int),
        ensures
            final(self).data@ == old(self).data@,
            ({
                let (o, n) = spec_u16(old(self).data@, old(self).pos as nat);
                &&& final(self).pos == old(self).pos + n
                &&& match r {
                    Ok(x) => o == Some(x),
                    Err(e) => o is None && e is ProtocolError,
                }
            }),
    {
        self.align_to(2);
        if !self.check(2) {
            return Err(data_error("read past end"));
        }
        let p = self.pos;
        let v = self.data[p] as u16 + (self.data[p + 1] as u16) * 256;
        self.pos += 2;
        Ok(v)
    }

    pub fn read_i16(&mut self) -> (r: Result<i16, LinbusError>)
        requires
            pos_ok(old(self).pos as int),
        ensures
            final(self).data@ == old(self).data@,
            ({
                let (o, n) = spec_u16(old(self).data@, old(self).pos as nat);
                &&& final(self).pos == old(self).pos + n
                &&& match r {
                    Ok(x) => o matches Some(u) && x == u as i16,
                    Err(e) => o is None && e is ProtocolError,
                }
            }),
    {
        let v = self.read_u16()?;
        Ok(v as i16)
    }

    pub fn read_u32(&mut self) -> (r: Result<u32, LinbusError>)
        requires
            pos_ok(old(self).pos as int),
        ensures
            final(self).data@ == old(self).data@,
            ({
                let (o, n) = spec_u32(old(self).data@, old(self).pos as nat);
                &&& final(self).pos == old(self).pos + n
                &&& match r {
                    Ok(x) => o == Some(x),
                    Err(e) => o is None && e is ProtocolError,
                }
            }),
    {
        self.align_to(4);
        if !self.check(4) {
            return Err(data_error("read past end"));
        }
        let p = self.pos;
        let v = self.data[p] as u32 + (self.data[p + 1] as u32) * 256 + (self.data[p + 2] as u32)
            * 65536 + (self.data[p + 3] as u32) * 16777216;
        self.pos += 4;
        Ok(v)
    }

    pub fn read_i32(&mut self) -> (r: Result<i32, LinbusError>)
        requires
            pos_ok(old(self).pos as int),
        ensures
            final(self).data@ == old(self).data@,
            ({
                let (o, n) = spec_u32(old(self).data@, old(self).pos as nat);
                &&& final(self).pos == old(self).pos + n
                &&& match r {
                    Ok(x) => o matches Some(u) && x == u as i32,
                    Err(e) => o is None && e is ProtocolError,
                }
            }),
    {
        let v = self.read_u32()?;
        Ok(v as i32)
    }

    pub fn read_u64(&mut self) -> (r: Result<u64, LinbusError>)
        requires
            pos_ok(old(self).pos as int),
        ensures
            final(self).data@ == old(self).data@,
            ({
                let (o, n) = spec_u64(old(self).data@, old(self).pos as nat);
                &&& final(self).pos == old(self).pos + n
                &&& match r {
                    Ok(x) => o == Some(x),
                    Err(e) => o is None && e is ProtocolError,
                }
            }),
    {
        self.align_to(8);
        if !self.check(8) {
            return Err(data_error("read past end"));
        }
        let p = self.pos;
        let lo = self.data[p] as u64 + (self.data[p + 1] as u64) * 256 + (self.data[p + 2] as u64)
            * 65536 + (self.data[p + 3] as u64) * 16777216;
        let hi = self.data[p + 4] as u64 + (self.data[p + 5] as u64) * 256 + (self.data[p + 6] as u64)
            * 65536 + (self.data[p + 7] as u64) * 16777216;
        let v = lo + hi * 4294967296;
        self.pos += 8;
        Ok(v)
    }

    pub fn read_i64(&mut self) -> (r: Result<i64, LinbusError>)
        requires
            pos_ok(old(self).pos as int),
        ensures
            final(self).data@ == old(self).data@,
            ({
                let (o, n) = spec_u64(old(self).data@, old(self).pos as nat);
                &&& final(self).pos == old(self).pos + n
                &&& match r {
                    Ok(x) => o matches Some(u) && x == u as i64,
                    Err(e) => o is None && e is ProtocolError,
                }
            }),
    {
        let v = self.read_u64()?;
        Ok(v as i64)
    }

    /// Reads a DOUBLE; the result is its IEEE-754 bit pattern.
    pub fn read_f64(&mut self) -> (r: Result<u64, LinbusError>)
        requires
            pos_ok(old(self).pos as int),
        ensures
            final(self).data@ == old(self).data@,
            ({
                let (o, n) = spec_u64(old(self).data@, old(self).pos as nat);
                &&& final(self).pos == old(self).pos + n
                &&& match r {
                    Ok(x) => o == Some(x),
                    Err(e) => o is None && e is ProtocolError,
                }
            }),
    {
        self.read_u64()
    }

    pub fn read_string(&mut self) -> (r: Result<String, LinbusError>)
        requires
            pos_ok(old(self).pos as int),
        ensures
            final(self).data@ == old(self).data@,
            ({
                let (o, n) = spec_string(old(self).data@, old(self).pos as nat);
                &&& final(self).pos == old(self).pos + n
                &&& match r {
                    Ok(s) => o == Some(sbytes(s)),
                    Err(e) => o is None && e is ProtocolError,
                }
            }),
    {
        let len = self.read_u32()? as usize;
        if !(len < self.data.len() && self.pos <= self.data.len() - len - 1) {
            return Err(data_error("read past end"));
        }
        let slice = vstd::slice::slice_subrange(self.data, self.pos, self.pos + len);
        match str_from_utf8(slice) {
            Some(s) => {
                let out = s.to_owned();
                self.pos += len + 1;
                Ok(out)
            },
            None => Err(data_error("invalid utf8")),
        }
    }

    pub fn read_object_path(&mut self) -> (r: Result<String, LinbusError>)
        requires
            pos_ok(old(self).pos as int),
        ensures
            final(self).data@ == old(self).data@,
            ({
                let (o, n) = spec_string(old(self).data@, old(self).pos as nat);
                &&& final(self).pos == old(self).pos + n
                &&& match r {
                    Ok(s) => o == Some(sbytes(s)),
                    Err(e) => o is None && e is ProtocolError,
                }
            }),
    {
        self.read_string()
    }

    pub fn read_signature(&mut self) -> (r: Result<String, LinbusError>)
        ensures
            final(self).data@ == old(self).data@,
            ({
                let (o, n) = spec_signature(old(self).data@, old(self).pos as nat);
                &&& final(self).pos == old(self).pos + n
                &&& match r {
                    Ok(s) => o == Some(sbytes(s)),
                    Err(e) => o is None && e is ProtocolError,
                }
            }),
    {
        let len = self.read_byte()? as usize;
        if !(len < self.data.len() && self.pos <= self.data.len() - len - 1) {
            return Err(data_error("read past end"));
        }
        let slice = vstd::slice::slice_subrange(self.data, self.pos, self.pos + len);
        match str_from_utf8(slice) {
            Some(s) => {
                let out = s.to_owned();
                self.pos += len + 1;
                Ok(out)
            },
            None => Err(data_error("invalid sig utf8")),
        }
    }

    pub fn read_bool(&mut self) -> (r: Result<bool, LinbusError>)
        requires
            pos_ok(old(self).pos as int),
        ensures
            final(self).data@ == old(self).data@,
            ({
                let (o, n) = spec_u32(old(self).data@, old(self).pos as nat);
                &&& final(self).pos == old(self).pos + n
                &&& match r {
                    Ok(x) => o matches Some(u) && x == (u != 0),
                    Err(e) => o is None && e is ProtocolError,
                }
            }),
    {
        let v = self.read_u32()?;
        Ok(v != 0)
    }

    /// Read a value given its type signature.
    pub fn read_value(&mut self, sig: &str) -> (r: Result<Value, LinbusError>)
        requires
            old(self).data@.len() <= isize::MAX,
            pos_ok(old(self).pos as int),
        ensures
            final(self).data == old(self).data,
            ({
                let (res, n) = parse(old(self).data@, old(self).pos as nat, encode_utf8(sig@));
                &&& final(self).pos == old(self).pos + n
                &&& outcome_matches(res, r)
                &&& (r is Ok ==> pos_ok(final(self).pos as int))
            }),
        decreases rem(old(self).data@.len(), old(self).pos as nat), encode_utf8(sig@).len(), 1nat,
    {
        proof { lemma_small_pos_ok(self.data@.len() as int); }
        let b = sig.as_bytes();
        if b.len() == 0 {
            return Err(sig_error("empty sig"));
        }
        let c = b[0];
        if c == C_BYTE {
            Ok(Value::Byte(self.read_byte()?))
        } else if c == C_BOOL {
            Ok(Value::Bool(self.read_bool()?))
        } else if c == C_I16 {
            Ok(Value::I16(self.read_i16()?))
        } else if c == C_U16 {
            Ok(Value::U16(self.read_u16()?))
        } else if c == C_I32 {
            Ok(Value::I32(self.read_i32()?))
        } else if c == C_U32 || c == C_FD {
            Ok(Value::U32(self.read_u32()?))
        } else if c == C_I64 {
            Ok(Value::I64(self.read_i64()?))
        } else if c == C_U64 {
            Ok(Value::U64(self.read_u64()?))
        } else if c == C_F64 {
            Ok(Value::F64(self.read_f64()?))
        } else if c == C_STRING {
            Ok(Value::String(self.read_string()?))
        } else if c == C_PATH {
            Ok(Value::ObjectPath(self.read_object_path()?))
        } else if c == C_SIG {
            Ok(Value::Signature(self.read_signature()?))
        } else if c == C_VARIANT {
            self.read_variant()
        } else if c == C_ARRAY {
            if b.len() > 1 && b[1] == C_LBRACE {
                self.read_dict(sig)
            } else {
                self.read_array(sig)
            }
        } else if c == C_LPAREN {
            self.read_struct(sig)
        } else {
            Err(sig_error("unknown type code"))
        }
    }

    fn read_variant(&mut self) -> (r: Result<Value, LinbusError>)
        requires
            old(self).data@.len() <= isize::MAX,
        ensures
            final(self).data == old(self).data,
            ({
                let (res, n) = parse(old(self).data@, old(self).pos as nat, seq![C_VARIANT]);
                &&& final(self).pos == old(self).pos + n
                &&& outcome_matches(res, r)
                &&& (r is Ok ==> pos_ok(final(self).pos as int))
            }),
        decreases rem(old(self).data@.len(), old(self).pos as nat), 0nat, 0nat,
    {
        proof { lemma_small_pos_ok(self.data@.len() as int); }
        let sig = self.read_signature()?;
        let inner = self.read_value(sig.as_str())?;
        Ok(Value::Variant(Box::new(inner)))
    }

    fn read_array(&mut self, sig: &str) -> (r: Result<Value, LinbusError>)
        requires
            old(self).data@.len() <= isize::MAX,
            pos_ok(old(self).pos as int),
            encode_utf8(sig@).len() >= 1,
            encode_utf8(sig@)[0] == C_ARRAY,
            !(encode_utf8(sig@).len() > 1 && encode_utf8(sig@)[1] == C_LBRACE),
        ensures
            final(self).data == old(self).data,
            ({
                let (res, n) = parse(old(self).data@, old(self).pos as nat, encode_utf8(sig@));
                &&& final(self).pos == old(self).pos + n
                &&& outcome_matches(res, r)
                &&& (r is Ok ==> pos_ok(final(self).pos as int))
            }),
        decreases rem(old(self).data@.len(), old(self).pos as nat), encode_utf8(sig@).len(), 0nat,
    {
        proof { lemma_small_pos_ok(self.data@.len() as int); }
        let ghost d = self.data@;
        let ghost sb = encode_utf8(sig@);
        let ghost pos_in = self.pos;
        let elem_sig = crate::linbus::signature::array_element_sig(sig)?;
        let ghost e = encode_utf8(elem_sig@);
        proof {
            lemma_split_bounds(sb.subrange(1, sb.len() as int), 0);
        }
        let byte_len = self.read_u32()?;
        let ghost n_len = (self.pos - pos_in) as nat;
        let elem_align = crate::linbus::signature::alignment_of(elem_sig.as_str());
        proof { lemma_pad_small(self.pos as nat, elem_align as int); }
        self.align_to(elem_align);
        let end: u64 = self.pos as u64 + byte_len as u64;
        let elems = self.read_elems(elem_sig.as_str(), end)?;
        Ok(Value::Array(elems))
    }

    /// Reads array elements of signature `elem` while the position is below `end`.
    fn read_elems(&mut self, elem: &str, end: u64) -> (r: Result<Vec<Value>, LinbusError>)
        requires
            old(self).data@.len() <= isize::MAX,
            pos_ok(old(self).pos as int),
        ensures
            final(self).data == old(self).data,
            ({
                let (res, n) = parse_elems(old(self).data@, old(self).pos as nat, end as int, encode_utf8(elem@));
                &&& final(self).pos == old(self).pos + n
                &&& outcomes_match(res, r)
                &&& (r is Ok ==> pos_ok(final(self).pos as int))
            }),
        decreases rem(old(self).data@.len(), old(self).pos as nat), encode_utf8(elem@).len(), 2nat,
    {
        let ghost d = self.data@;
        let ghost e = encode_utf8(elem@);
        let ghost p0 = self.pos;
        proof {
            assert(models(Seq::<Value>::empty()) + parse_elems(d, p0 as nat, end as int, e).0->Ok_0
                =~= parse_elems(d, p0 as nat, end as int, e).0->Ok_0);
        }
        let mut elems: Vec<Value> = Vec::new();
        while (self.pos as u64) < end
            invariant
                self.data == old(self).data,
                d == self.data@,
                d.len() <= isize::MAX,
                p0 == old(self).pos,
                p0 <= self.pos,
                pos_ok(self.pos as int),
                e == encode_utf8(elem@),
                ({
                    let (r0, n0) = parse_elems(d, p0 as nat, end as int, e);
                    let (r1, n1) = parse_elems(d, self.pos as nat, end as int, e);
                    &&& n0 == (self.pos - p0) + n1
                    &&& r0 == (match r1 {
                        Ok(xs) => Ok(models(elems@) + xs),
                        Err(f) => Err::<Seq<VModel>, ReadFault>(f),
                    })
                }),
            decreases if end > self.pos { end - self.pos } else { 0 },
        {
            let before = self.pos;
            let x = self.read_value(elem)?;
            if self.pos == before {
                return Err(data_error("array element made no progress"));
            }
            let ghost old_elems = elems@;
            elems.push(x);
            proof {
                assert(elems@.drop_last() =~= old_elems);
                let (r2, m2) = parse_elems(d, self.pos as nat, end as int, e);
                match r2 {
                    Ok(xs) => {
                        assert(models(elems@) + xs =~= models(old_elems) + (seq![model(x)] + xs));
                    },
                    Err(_) => {},
                }
            }
        }
        Ok(elems)
    }

    /// Read a dict: `sig` is `a{kv}` (an array of entries) or a bare entry type `{kv}`.
    pub fn read_dict(&mut self, sig: &str) -> (r: Result<Value, LinbusError>)
        requires
            old(self).data@.len() <= isize::MAX,
            pos_ok(old(self).pos as int),
        ensures
            final(self).data == old(self).data,
            ({
                let (res, n) = spec_dict(old(self).data@, old(self).pos as nat, encode_utf8(sig@));
                &&& final(self).pos == old(self).pos + n
                &&& outcome_matches(res, r)
                &&& (r is Ok ==> pos_ok(final(self).pos as int))
            }),
        decreases rem(old(self).data@.len(), old(self).pos as nat), encode_utf8(sig@).len(), 0nat,
    {
        proof { lemma_small_pos_ok(self.data@.len() as int); }
        let ghost d = self.data@;
        let ghost sb = encode_utf8(sig@);
        let ghost pos_in = self.pos;
        let b = sig.as_bytes();
        let (key_sig, val_sig) = if b.len() >= 1 && b[0] == C_ARRAY {
            let elem_sig = crate::linbus::signature::array_element_sig(sig)?;
            proof {
                lemma_split_bounds(sb.subrange(1, sb.len() as int), 0);
                let e = encode_utf8(elem_sig@);
                lemma_split_bounds(e.subrange(1, e.len() - 1), 0);
            }
            crate::linbus::signature::parse_dict_key_value(elem_sig.as_str())?
        } else {
            proof { lemma_split_bounds(sb.subrange(1, sb.len() - 1), 0); }
            crate::linbus::signature::parse_dict_key_value(sig)?
        };
        let ghost k = encode_utf8(key_sig@);
        let ghost v = encode_utf8(val_sig@);
        let byte_len = self.read_u32()?;
        self.align_to(8);
        let end: u64 = self.pos as u64 + byte_len as u64;
        let pairs = self.read_pairs(key_sig.as_str(), val_sig.as_str(), end)?;
        Ok(Value::Dict(pairs))
    }

    /// Reads dict entries (each aligned to 8) while the position is below `end`.
    #[verifier::rlimit(40)]
    fn read_pairs(&mut self, key_sig: &str, val_sig: &str, end: u64) -> (r: Result<Vec<(Value, Value)>, LinbusError>)
        requires
            old(self).data@.len() <= isize::MAX,
            pos_ok(old(self).pos as int),
        ensures
            final(self).data == old(self).data,
            ({
                let (res, n) = parse_pairs(old(self).data@, old(self).pos as nat, end as int,
                    encode_utf8(key_sig@), encode_utf8(val_sig@));
                &&& final(self).pos == old(self).pos + n
                &&& pairs_match(res, r)
                &&& (r is Ok ==> pos_ok(final(self).pos as int))
            }),
        decreases rem(old(self).data@.len(), old(self).pos as nat),
            if encode_utf8(key_sig@).len() > encode_utf8(val_sig@).len() { encode_utf8(key_sig@).len() } else { encode_utf8(val_sig@).len() },
            2nat,
    {
        let ghost d = self.data@;
        let ghost k = encode_utf8(key_sig@);
        let ghost v = encode_utf8(val_sig@);
        let ghost p0 = self.pos;
        proof {
            assert(pair_models(Seq::<(Value, Value)>::empty()) + parse_pairs(d, p0 as nat, end as int, k, v).0->Ok_0
                =~= parse_pairs(d, p0 as nat, end as int, k, v).0->Ok_0);
        }
        let mut pairs: Vec<(Value, Value)> = Vec::new();
        while (self.pos as u64) < end
            invariant
                self.data == old(self).data,
                d == self.data@,
                d.len() <= isize::MAX,
                p0 == old(self).pos,
                p0 <= self.pos,
                pos_ok(self.pos as int),
                k == encode_utf8(key_sig@),
                v == encode_utf8(val_sig@),
                ({
                    let (r0, n0) = parse_pairs(d, p0 as nat, end as int, k, v);
                    let (r1, n1) = parse_pairs(d, self.pos as nat, end as int, k, v);
                    &&& n0 == (self.pos - p0) + n1
                    &&& r0 == (match r1 {
                        Ok(xs) => Ok(pair_models(pairs@) + xs),
                        Err(f) => Err::<Seq<(VModel, VModel)>, ReadFault>(f),
                    })
                }),
            decreases if end > self.pos { end - self.pos } else { 0 },
        {
            let before = self.pos;
            proof { lemma_align8(before as int); }
            self.align_to(8);
            let key = self.read_value(key_sig)?;
            let val = self.read_value(val_sig)?;
            if self.pos == before {
                return Err(data_error("dict entry made no progress"));
            }
            let ghost old_pairs = pairs@;
            pairs.push((key, val));
            proof {
                assert(pairs@.drop_last() =~= old_pairs);
                let (r2, m2) = parse_pairs(d, self.pos as nat, end as int, k, v);
                match r2 {
                    Ok(xs) => {
                        assert(pair_models(pairs@) + xs =~= pair_models(old_pairs) + (seq![(model(key), model(val))] + xs));
                    },
                    Err(_) => {},
                }
            }
        }
        Ok(pairs)
    }

    fn read_struct(&mut self, sig: &str) -> (r: Result<Value, LinbusError>)
        requires
            old(self).data@.len() <= isize::MAX,
            pos_ok(old(self).pos as int),
            encode_utf8(sig@).len() >= 1,
            encode_utf8(sig@)[0] == C_LPAREN,
        ensures
            final(self).data == old(self).data,
            ({
                let (res, n) = parse(old(self).data@, old(self).pos as nat, encode_utf8(sig@));
                &&& final(self).pos == old(self).pos + n
                &&& outcome_matches(res, r)
                &&& (r is Ok ==> pos_ok(final(self).pos as int))
            }),
        decreases rem(old(self).data@.len(), old(self).pos as nat), encode_utf8(sig@).len(), 0nat,
    {
        let ghost d = self.data@;
        let ghost sb = encode_utf8(sig@);
        let ghost pos_in = self.pos;
        proof { lemma_align8(self.pos as int); }
        self.align_to(8);
        let field_sigs = crate::linbus::signature::parse_struct_fields(sig)?;
        let ghost fs = all_sbytes(field_sigs@);
        let ghost p0 = self.pos;
        proof {
            lemma_split_bounds(sb.subrange(1, sb.len() - 1), 0);
            assert(fs.skip(0) =~= fs);
            assert(models(Seq::<Value>::empty()) + parse_fields(d, p0 as nat, fs).0->Ok_0
                =~= parse_fields(d, p0 as nat, fs).0->Ok_0);
        }
        let mut fields: Vec<Value> = Vec::new();
        let mut i: usize = 0;
        while i < field_sigs.len()
            invariant
                self.data == old(self).data,
                d == self.data@,
                d.len() <= isize::MAX,
                pos_in == old(self).pos,
                p0 <= self.pos,
                pos_in <= p0,
                pos_ok(self.pos as int),
                i <= field_sigs@.len(),
                fs == all_sbytes(field_sigs@),
                sb == encode_utf8(sig@),
                forall|j: int| 0 <= j < fs.len() ==> #[trigger] fs[j].len() <= sb.len() - 2,
                parse(d, pos_in as nat, sb) == ({
                    let (r0, m0) = parse_fields(d, p0 as nat, fs);
                    (match r0 { Ok(x) => Ok(VModel::Struct(x)), Err(f) => Err(f) }, (p0 - pos_in + m0) as nat)
                }),
                ({
                    let (r0, n0) = parse_fields(d, p0 as nat, fs);
                    let (r1, n1) = parse_fields(d, self.pos as nat, fs.skip(i as int));
                    &&& n0 == (self.pos - p0) + n1
                    &&& r0 == (match r1 {
                        Ok(xs) => Ok(models(fields@) + xs),
                        Err(f) => Err::<Seq<VModel>, ReadFault>(f),
                    })
                }),
            decreases field_sigs@.len() - i,
        {
            proof {
                assert(fs[i as int] == encode_utf8(field_sigs@[i as int]@));
                assert(fs.skip(i as int)[0] == fs[i as int]);
                assert(fs.skip(i as int).drop_first() =~= fs.skip(i + 1));
            }
            let x = self.read_value(field_sigs[i].as_str())?;
            let ghost old_fields = fields@;
            fields.push(x);
            i += 1;
            proof {
                assert(fields@.drop_last() =~= old_fields);
                let (r2, m2) = parse_fields(d, self.pos as nat, fs.skip(i as int));
                match r2 {
                    Ok(xs) => {
                        assert(models(fields@) + xs =~= models(old_fields) + (seq![model(x)] + xs));
                    },
                    Err(_) => {},
                }
            }
        }
        proof { assert(fs.skip(i as int) =~= Seq::<Seq<u8>>::empty()); }
        Ok(Value::Struct(fields))
    }

    /// Read body values given a signature string.
    pub fn read_body(&mut self, sig: &str) -> (r: Result<Vec<Value>, LinbusError>)
        requires
            old(self).data@.len() <= isize::MAX,
            pos_ok(old(self).pos as int),
        ensures
            final(self).data == old(self).data,
            ({
                let (res, n) = spec_body(old(self).data@, old(self).pos as nat, encode_utf8(sig@));
                &&& final(self).pos == old(self).pos + n
                &&& outcomes_match(res, r)
            }),
    {
        let ghost d = self.data@;
        let ghost sb = encode_utf8(sig@);
        let ghost pos_in = self.pos;
        if sig.as_bytes().len() == 0 {
            proof { assert(models(Seq::<Value>::empty()) =~= Seq::<VModel>::empty()); }
            return Ok(Vec::new());
        }
        let types = crate::linbus::signature::split_signature(sig)?;
        let ghost fs = all_sbytes(types@);
        proof {
            assert(fs.skip(0) =~= fs);
            assert(models(Seq::<Value>::empty()) + parse_fields(d, pos_in as nat, fs).0->Ok_0
                =~= parse_fields(d, pos_in as nat, fs).0->Ok_0);
        }
        let mut values: Vec<Value> = Vec::new();
        let mut i: usize = 0;
        while i < types.len()
            invariant
                self.data == old(self).data,
                d == self.data@,
                d.len() <= isize::MAX,
                pos_in == old(self).pos,
                pos_in <= self.pos,
                pos_ok(self.pos as int),
                i <= types@.len(),
                fs == all_sbytes(types@),
                sb == encode_utf8(sig@),
                spec_body(d, pos_in as nat, sb) == parse_fields(d, pos_in as nat, fs),
                ({
                    let (r0, n0) = parse_fields(d, pos_in as nat, fs);
                    let (r1, n1) = parse_fields(d, self.pos as nat, fs.skip(i as int));
                    &&& n0 == (self.pos - pos_in) + n1
                    &&& r0 == (match r1 {
                        Ok(xs) => Ok(models(values@) + xs),
                        Err(f) => Err::<Seq<VModel>, ReadFault>(f),
                    })
                }),
            decreases types@.len() - i,
        {
            proof {
                assert(fs[i as int] == encode_utf8(types@[i as int]@));
                assert(fs.skip(i as int)[0] == fs[i as int]);
                assert(fs.skip(i as int).drop_first() =~= fs.skip(i + 1));
            }
            let x = self.read_value(types[i].as_str())?;
            let ghost old_values = values@;
            values.push(x);
            i += 1;
            proof {
                assert(values@.drop_last() =~= old_values);
                let (r2, m2) = parse_fields(d, self.pos as nat, fs.skip(i as int));
                match r2 {
                    Ok(xs) => {
                        assert(models(values@) + xs =~= models(old_values) + (seq![model(x)] + xs));
                    },
                    Err(_) => {},
                }
            }
        }
        proof { assert(fs.skip(i as int) =~= Seq::<Seq<u8>>::empty()); }
        Ok(values)
    }
}

} // verus!
