//! What a marshalled body reads back as: the values that were written.

use vstd::prelude::*;
use vstd::utf8::*;
use crate::text::{lemma_ascii_byte_valid, lemma_ascii_valid};
use crate::linbus::value::{
    VModel, sig, sig_list, C_BYTE, C_BOOL, C_I16, C_U16, C_I32, C_U32, C_I64, C_U64, C_F64,
    C_STRING, C_PATH, C_SIG, C_VARIANT, C_FD, C_ARRAY, C_LPAREN, C_RPAREN, C_LBRACE, C_RBRACE,
};
use crate::linbus::marshal::{zeros, le_u16, le_u32, le_u64, ser, ser_list, ser_pairs};
use crate::linbus::unmarshal::{
    pad, le16, le32, le64, spec_fixed, spec_byte, spec_u16, spec_u32, spec_u64, spec_string,
    spec_signature, parse, parse_elems, parse_pairs, parse_fields, spec_body, ReadFault,
};
use crate::linbus::signature::{
    is_basic_code, scan_close, bracket_len, entry_len, type_len, split_from, split_sig, align_of,
    struct_fields, dict_kv, array_elem,
};

verus! {

broadcast use vstd::seq::group_seq_axioms;

/// Every value of `es` has the signature of the first.
pub open spec fn same_sig(es: Seq<VModel>) -> bool {
    forall|i: int| 0 <= i < es.len() ==> #[trigger] sig(es[i]) == sig(es[0])
}

/// Every entry of `ps` has the key and value signatures of the first.
pub open spec fn same_kv_sig(ps: Seq<(VModel, VModel)>) -> bool {
    forall|i: int| 0 <= i < ps.len() ==> sig(#[trigger] ps[i].0) == sig(ps[0].0) && sig(ps[i].1) == sig(ps[0].1)
}

/// A struct whose fields are all such structs, down to empty ones: it is
/// written as padding alone.
pub open spec fn zero_width(v: VModel) -> bool
    decreases v,
{
    match v {
        VModel::Struct(fs) => zero_width_list(fs),
        _ => false,
    }
}

pub open spec fn zero_width_list(fs: Seq<VModel>) -> bool
    decreases fs,
{
    if fs.len() == 0 {
        true
    } else {
        zero_width(fs[0]) && zero_width_list(fs.subrange(1, fs.len() as int))
    }
}

/// Values that the wire format can carry and give back: strings are UTF-8,
/// signatures fit their one-byte length, arrays and dicts are uniform, no
/// array element or dict entry is written as padding alone (the reader
/// counts them by bytes), and dict entries stand only inside dicts.
pub open spec fn wf(v: VModel) -> bool
    decreases v,
{
    match v {
        VModel::Str(s) => valid_utf8(s),
        VModel::ObjectPath(s) => valid_utf8(s),
        VModel::Signature(s) => valid_utf8(s) && s.len() <= 255,
        VModel::Array(es) => wf_list(es) && same_sig(es) && widths_ok(es),
        VModel::TypedArray(s, es) => wf_list(es) && widths_ok(es) && (if es.len() > 0 {
            same_sig(es) && sig(es[0]) == s
        } else {
            s.len() == 1 && is_basic_code(s[0]) && align_of(s) <= 4
        }),
        VModel::Dict(ps) => wf_pairs(ps) && same_kv_sig(ps) && keys_ok(ps),
        VModel::Struct(fs) => wf_list(fs),
        VModel::Variant(x) => wf(*x) && sig(*x).len() <= 255,
        VModel::DictEntry(_, _) => false,
        _ => true,
    }
}

/// No element is written as padding alone (an array's length counts bytes,
/// so such elements could not be counted back).
pub open spec fn widths_ok(es: Seq<VModel>) -> bool {
    forall|i: int| 0 <= i < es.len() ==> !zero_width(#[trigger] es[i])
}

/// No dict entry is written as padding alone.
pub open spec fn keys_ok(ps: Seq<(VModel, VModel)>) -> bool {
    forall|i: int| 0 <= i < ps.len() ==> !(zero_width(#[trigger] ps[i].0) && zero_width(ps[i].1))
}

pub open spec fn wf_list(es: Seq<VModel>) -> bool
    decreases es,
{
    if es.len() == 0 {
        true
    } else {
        wf(es[0]) && wf_list(es.subrange(1, es.len() as int))
    }
}

pub open spec fn wf_pairs(ps: Seq<(VModel, VModel)>) -> bool
    decreases ps,
{
    if ps.len() == 0 {
        true
    } else {
        wf(ps[0].0) && wf(ps[0].1) && wf_pairs(ps.subrange(1, ps.len() as int))
    }
}

/// Signatures of a sequence of values, one per value.
pub open spec fn sig_seq(fs: Seq<VModel>) -> Seq<Seq<u8>> {
    fs.map_values(|f: VModel| sig(f))
}

pub proof fn lemma_wf_list(es: Seq<VModel>)
    ensures
        wf_list(es) <==> forall|i: int| 0 <= i < es.len() ==> #[trigger] wf(es[i]),
    decreases es.len(),
{
    if es.len() > 0 {
        let t = es.subrange(1, es.len() as int);
        lemma_wf_list(t);
        if forall|i: int| 0 <= i < es.len() ==> #[trigger] wf(es[i]) {
            assert forall|i: int| 0 <= i < t.len() implies #[trigger] wf(t[i]) by {
                assert(t[i] == es[i + 1]);
                assert(wf(es[i + 1]));
            }
            assert(wf(es[0]));
            assert(wf_list(t));
        }
        if wf_list(es) {
            assert forall|i: int| 0 <= i < es.len() implies #[trigger] wf(es[i]) by {
                if i > 0 {
                    assert(t[i - 1] == es[i]);
                    assert(wf(t[i - 1]));
                }
            }
        }
    }
}

pub proof fn lemma_wf_pairs(ps: Seq<(VModel, VModel)>)
    ensures
        wf_pairs(ps) <==> forall|i: int| 0 <= i < ps.len() ==> wf(#[trigger] ps[i].0) && wf(ps[i].1),
    decreases ps.len(),
{
    if ps.len() > 0 {
        let t = ps.subrange(1, ps.len() as int);
        lemma_wf_pairs(t);
        if forall|i: int| 0 <= i < ps.len() ==> wf(#[trigger] ps[i].0) && wf(ps[i].1) {
            assert forall|i: int| 0 <= i < t.len() implies wf(#[trigger] t[i].0) && wf(t[i].1) by {
                assert(t[i] == ps[i + 1]);
                assert(wf(ps[i + 1].0));
            }
            assert(wf(ps[0].0));
            assert(wf_pairs(t));
        }
        if wf_pairs(ps) {
            assert forall|i: int| 0 <= i < ps.len() implies wf(#[trigger] ps[i].0) && wf(ps[i].1) by {
                if i > 0 {
                    assert(t[i - 1] == ps[i]);
                    assert(wf(t[i - 1].0));
                }
            }
        }
    }
}

/// `sig_list` peeled from the front.
pub proof fn lemma_sig_list_front(fs: Seq<VModel>)
    requires
        fs.len() > 0,
    ensures
        sig_list(fs) == sig(fs[0]) + sig_list(fs.subrange(1, fs.len() as int)),
    decreases fs.len(),
{
    if fs.len() == 1 {
        assert(fs.drop_last() =~= Seq::<VModel>::empty());
        assert(fs.subrange(1, 1) =~= Seq::<VModel>::empty());
        assert(sig_list(fs) == sig_list(fs.drop_last()) + sig(fs.last()));
        assert(sig(fs[0]) + Seq::<u8>::empty() =~= sig(fs[0]));
    } else {
        let t = fs.subrange(1, fs.len() as int);
        lemma_sig_list_front(fs.drop_last());
        assert(fs.drop_last().subrange(1, fs.len() - 1) =~= t.drop_last());
        assert(t.last() == fs.last());
        assert(sig_list(fs) =~= sig(fs[0]) + sig_list(t));
    }
}

/// A signature of a well-formed value never starts a dict entry and is non-empty.
pub proof fn lemma_sig_head(v: VModel)
    requires
        wf(v),
    ensures
        sig(v).len() >= 1,
        sig(v)[0] != C_LBRACE,
        sig(v)[0] != C_RBRACE,
        sig(v)[0] != C_RPAREN,
        is_basic_code(sig(v)[0]) || sig(v)[0] == C_ARRAY || sig(v)[0] == C_LPAREN,
{
}

/// Signatures of well-formed values are well-formed UTF-8.
pub proof fn lemma_wf_sig_valid(v: VModel)
    requires
        wf(v),
    ensures
        valid_utf8(sig(v)),
    decreases v,
{
    broadcast use vstd::utf8::valid_utf8_concat;
    lemma_ascii_byte_valid(C_ARRAY);
    lemma_ascii_byte_valid(C_LBRACE);
    lemma_ascii_byte_valid(C_RBRACE);
    lemma_ascii_byte_valid(C_LPAREN);
    lemma_ascii_byte_valid(C_RPAREN);
    lemma_ascii_valid(seq![C_ARRAY, C_LBRACE]);
    lemma_ascii_valid(seq![C_STRING, C_VARIANT]);
    match v {
        VModel::Array(es) => {
            if es.len() > 0 {
                lemma_wf_list(es);
                lemma_wf_sig_valid(es[0]);
                valid_utf8_concat(seq![C_ARRAY], sig(es[0]));
            } else {
                lemma_ascii_valid(seq![C_ARRAY, C_VARIANT]);
                assert(sig(v) =~= seq![C_ARRAY, C_VARIANT]);
            }
        },
        VModel::TypedArray(s, es) => {
            if es.len() > 0 {
                lemma_wf_list(es);
                lemma_wf_sig_valid(es[0]);
            } else {
                lemma_ascii_byte_valid(s[0]);
                assert(s =~= seq![s[0]]);
            }
            valid_utf8_concat(seq![C_ARRAY], s);
        },
        VModel::Dict(ps) => {
            if ps.len() > 0 {
                lemma_wf_pairs(ps);
                lemma_wf_sig_valid(ps[0].0);
                lemma_wf_sig_valid(ps[0].1);
                let k = sig(ps[0].0);
                let x = sig(ps[0].1);
                valid_utf8_concat(k, x);
                valid_utf8_concat(seq![C_ARRAY, C_LBRACE], k + x);
                valid_utf8_concat(seq![C_ARRAY, C_LBRACE] + (k + x), seq![C_RBRACE]);
                assert(seq![C_ARRAY, C_LBRACE] + (k + x) + seq![C_RBRACE] =~= sig(v));
            } else {
                valid_utf8_concat(seq![C_ARRAY, C_LBRACE], seq![C_STRING, C_VARIANT]);
                valid_utf8_concat(seq![C_ARRAY, C_LBRACE] + seq![C_STRING, C_VARIANT], seq![C_RBRACE]);
                assert(seq![C_ARRAY, C_LBRACE] + seq![C_STRING, C_VARIANT] + seq![C_RBRACE] =~= sig(v));
            }
        },
        VModel::Struct(fs) => {
            lemma_wf_sig_list_valid(fs);
            let l = sig_list(fs);
            valid_utf8_concat(seq![C_LPAREN], l);
            valid_utf8_concat(seq![C_LPAREN] + l, seq![C_RPAREN]);
        },
        VModel::Variant(_) => {
            lemma_ascii_byte_valid(C_VARIANT);
        },
        _ => {
            lemma_ascii_valid(sig(v));
        },
    }
}

pub proof fn lemma_wf_sig_list_valid(fs: Seq<VModel>)
    requires
        wf_list(fs),
    ensures
        valid_utf8(sig_list(fs)),
    decreases fs,
{
    broadcast use vstd::utf8::valid_utf8_concat;
    lemma_wf_list(fs);
    if fs.len() == 0 {
        lemma_ascii_valid(Seq::<u8>::empty());
    } else {
        lemma_wf_list(fs.drop_last());
        lemma_wf_sig_list_valid(fs.drop_last());
        lemma_wf_sig_valid(fs.last());
        valid_utf8_concat(sig_list(fs.drop_last()), sig(fs.last()));
    }
}

/// Two pieces of a concatenation found at `i` in `b`.
pub proof fn lemma_sub_concat(b: Seq<u8>, i: int, x: Seq<u8>, y: Seq<u8>)
    requires
        0 <= i,
        i + x.len() + y.len() <= b.len(),
        b.subrange(i, i + x.len() + y.len()) == x + y,
    ensures
        b.subrange(i, i + x.len()) == x,
        b.subrange(i + x.len(), i + x.len() + y.len()) == y,
{
    assert forall|j: int| 0 <= j < x.len() implies b.subrange(i, i + x.len())[j] == x[j] by {
        assert(b.subrange(i, i + x.len() + y.len())[j] == (x + y)[j]);
    }
    assert forall|j: int| 0 <= j < y.len() implies b.subrange(i + x.len(), i + x.len() + y.len())[j] == y[j] by {
        assert(b.subrange(i, i + x.len() + y.len())[x.len() + j] == (x + y)[x.len() + j]);
        assert(b.subrange(i, i + x.len() + y.len())[x.len() + j] == b[i + x.len() + j]);
        assert(b.subrange(i + x.len(), i + x.len() + y.len())[j] == b[i + x.len() + j]);
        assert((x + y)[x.len() + j] == y[j]);
    }
    assert(b.subrange(i, i + x.len()) =~= x);
    assert(b.subrange(i + x.len(), i + x.len() + y.len()) =~= y);
}

/// One step of a bracket scan.
pub proof fn lemma_scan_step(b: Seq<u8>, o: u8, c: u8, i: int, depth: int)
    requires
        0 <= i < b.len(),
        depth >= 1,
        o != c,
    ensures
        scan_close(b, o, c, i, depth) == scan_close(b, o, c, i + 1,
            if b[i] == o { depth + 1 } else if b[i] == c { depth - 1 } else { depth }),
{
}

/// Scanning brackets over a complete signature returns to the same nesting
/// and never closes the bracket it started in.
pub proof fn lemma_scan_sig(v: VModel, b: Seq<u8>, i: int, o: u8, c: u8, depth: int)
    requires
        wf(v),
        0 <= i,
        i + sig(v).len() <= b.len(),
        b.subrange(i, i + sig(v).len()) == sig(v),
        depth >= 1,
        (o == C_LPAREN && c == C_RPAREN) || (o == C_LBRACE && c == C_RBRACE),
    ensures
        scan_close(b, o, c, i, depth) == scan_close(b, o, c, i + sig(v).len(), depth),
    decreases v,
{
    let g = sig(v);
    assert(b[i] == g[0]) by { assert(b.subrange(i, i + g.len())[0] == g[0]); }
    match v {
        VModel::Array(es) => {
            let e = if es.len() > 0 { sig(es[0]) } else { seq![C_VARIANT] };
            lemma_sub_concat(b, i, seq![C_ARRAY], e);
            lemma_scan_step(b, o, c, i, depth);
            if es.len() > 0 {
                lemma_wf_list(es);
                lemma_scan_sig(es[0], b, i + 1, o, c, depth);
            } else {
                assert(b[i + 1] == C_VARIANT) by { assert(b.subrange(i + 1, i + 2)[0] == e[0]); }
                lemma_scan_step(b, o, c, i + 1, depth);
            }
        },
        VModel::TypedArray(s, es) => {
            lemma_sub_concat(b, i, seq![C_ARRAY], s);
            lemma_scan_step(b, o, c, i, depth);
            if es.len() > 0 {
                lemma_wf_list(es);
                lemma_scan_sig(es[0], b, i + 1, o, c, depth);
            } else {
                assert(b[i + 1] == s[0]) by { assert(b.subrange(i + 1, i + 2)[0] == s[0]); }
                lemma_scan_step(b, o, c, i + 1, depth);
            }
        },
        VModel::Dict(ps) => {
            let k = if ps.len() > 0 { sig(ps[0].0) } else { seq![C_STRING] };
            let x = if ps.len() > 0 { sig(ps[0].1) } else { seq![C_VARIANT] };
            assert(g =~= seq![C_ARRAY, C_LBRACE] + k + x + seq![C_RBRACE]);
            lemma_sub_concat(b, i, seq![C_ARRAY, C_LBRACE] + k + x, seq![C_RBRACE]);
            lemma_sub_concat(b, i, seq![C_ARRAY, C_LBRACE] + k, x);
            lemma_sub_concat(b, i, seq![C_ARRAY, C_LBRACE], k);
            assert(b[i + 1] == C_LBRACE) by { assert(b.subrange(i, i + 2)[1] == C_LBRACE); }
            let d1 = if o == C_LBRACE { depth + 1 } else { depth };
            lemma_scan_step(b, o, c, i, depth);
            lemma_scan_step(b, o, c, i + 1, depth);
            if ps.len() > 0 {
                lemma_wf_pairs(ps);
                assert(decreases_to!(ps => ps[0]));
                lemma_scan_sig(ps[0].0, b, i + 2, o, c, d1);
                lemma_scan_sig(ps[0].1, b, i + 2 + k.len(), o, c, d1);
            } else {
                assert(b[i + 2] == C_STRING) by { assert(b.subrange(i + 2, i + 3)[0] == C_STRING); }
                assert(b[i + 3] == C_VARIANT) by { assert(b.subrange(i + 3, i + 4)[0] == C_VARIANT); }
                lemma_scan_step(b, o, c, i + 2, d1);
                lemma_scan_step(b, o, c, i + 3, d1);
            }
            let j = i + 2 + k.len() + x.len();
            assert(b[j] == C_RBRACE) by { assert(b.subrange(j, j + 1)[0] == C_RBRACE); }
            lemma_scan_step(b, o, c, j, d1);
        },
        VModel::Struct(fs) => {
            let l = sig_list(fs);
            assert(g =~= seq![C_LPAREN] + l + seq![C_RPAREN]);
            lemma_sub_concat(b, i, seq![C_LPAREN] + l, seq![C_RPAREN]);
            lemma_sub_concat(b, i, seq![C_LPAREN], l);
            let d1 = if o == C_LPAREN { depth + 1 } else { depth };
            lemma_scan_step(b, o, c, i, depth);
            lemma_scan_sig_list(fs, b, i + 1, o, c, d1);
            let j = i + 1 + l.len();
            assert(b[j] == C_RPAREN) by { assert(b.subrange(j, j + 1)[0] == C_RPAREN); }
            lemma_scan_step(b, o, c, j, d1);
        },
        VModel::DictEntry(_, _) => {},
        _ => {
            lemma_scan_step(b, o, c, i, depth);
        },
    }
}

pub proof fn lemma_scan_sig_list(fs: Seq<VModel>, b: Seq<u8>, i: int, o: u8, c: u8, depth: int)
    requires
        wf_list(fs),
        0 <= i,
        i + sig_list(fs).len() <= b.len(),
        b.subrange(i, i + sig_list(fs).len()) == sig_list(fs),
        depth >= 1,
        (o == C_LPAREN && c == C_RPAREN) || (o == C_LBRACE && c == C_RBRACE),
    ensures
        scan_close(b, o, c, i, depth) == scan_close(b, o, c, i + sig_list(fs).len(), depth),
    decreases fs,
{
    if fs.len() > 0 {
        let t = fs.subrange(1, fs.len() as int);
        lemma_sig_list_front(fs);
        lemma_sub_concat(b, i, sig(fs[0]), sig_list(t));
        lemma_scan_sig(fs[0], b, i, o, c, depth);
        lemma_scan_sig_list(t, b, i + sig(fs[0]).len(), o, c, depth);
    }
}

/// Key and value signatures of a dict's entries.
pub open spec fn dict_key_sig(ps: Seq<(VModel, VModel)>) -> Seq<u8> {
    if ps.len() > 0 { sig(ps[0].0) } else { seq![C_STRING] }
}

pub open spec fn dict_val_sig(ps: Seq<(VModel, VModel)>) -> Seq<u8> {
    if ps.len() > 0 { sig(ps[0].1) } else { seq![C_VARIANT] }
}

/// The dict entry type `{kv}` of a dict.
pub open spec fn entry_sig(ps: Seq<(VModel, VModel)>) -> Seq<u8> {
    seq![C_LBRACE] + dict_key_sig(ps) + dict_val_sig(ps) + seq![C_RBRACE]
}

/// Element signature of an array or typed array.
pub open spec fn elem_sig(v: VModel) -> Seq<u8> {
    match v {
        VModel::Array(es) => if es.len() > 0 { sig(es[0]) } else { seq![C_VARIANT] },
        VModel::TypedArray(s, _) => s,
        _ => Seq::empty(),
    }
}

pub proof fn lemma_dict_sig(ps: Seq<(VModel, VModel)>)
    ensures
        sig(VModel::Dict(ps)) == seq![C_ARRAY] + entry_sig(ps),
{
    assert(sig(VModel::Dict(ps)) =~= seq![C_ARRAY] + entry_sig(ps));
}

/// The entry signature of a dict of well-formed entries is valid UTF-8 and its
/// key and value signatures are complete types.
pub proof fn lemma_entry_parts(ps: Seq<(VModel, VModel)>)
    requires
        wf_pairs(ps),
    ensures
        valid_utf8(entry_sig(ps)),
        valid_utf8(dict_key_sig(ps)),
        valid_utf8(dict_val_sig(ps)),
{
    broadcast use vstd::utf8::valid_utf8_concat;
    lemma_ascii_byte_valid(C_LBRACE);
    lemma_ascii_byte_valid(C_RBRACE);
    lemma_ascii_byte_valid(C_STRING);
    lemma_ascii_byte_valid(C_VARIANT);
    lemma_wf_pairs(ps);
    if ps.len() > 0 {
        lemma_wf_sig_valid(ps[0].0);
        lemma_wf_sig_valid(ps[0].1);
    }
    let k = dict_key_sig(ps);
    let x = dict_val_sig(ps);
    valid_utf8_concat(seq![C_LBRACE], k);
    valid_utf8_concat(seq![C_LBRACE] + k, x);
    valid_utf8_concat(seq![C_LBRACE] + k + x, seq![C_RBRACE]);
}

/// A dict entry signature found at `i` is one complete type.
pub proof fn lemma_entry_len(ps: Seq<(VModel, VModel)>, b: Seq<u8>, i: int)
    requires
        wf_pairs(ps),
        0 <= i,
        i + entry_sig(ps).len() <= b.len(),
        b.subrange(i, i + entry_sig(ps).len()) == entry_sig(ps),
    ensures
        entry_len(b, i) == Some(entry_sig(ps).len() as int),
    decreases ps, 0nat,
{
    let k = dict_key_sig(ps);
    let x = dict_val_sig(ps);
    let e = entry_sig(ps);
    lemma_entry_parts(ps);
    lemma_wf_pairs(ps);
    lemma_sub_concat(b, i, seq![C_LBRACE] + k + x, seq![C_RBRACE]);
    lemma_sub_concat(b, i, seq![C_LBRACE] + k, x);
    lemma_sub_concat(b, i, seq![C_LBRACE], k);
    assert(b[i] == C_LBRACE) by { assert(b.subrange(i, i + 1)[0] == C_LBRACE); }
    if ps.len() > 0 {
        assert(decreases_to!(ps => ps[0]));
        lemma_scan_sig(ps[0].0, b, i + 1, C_LBRACE, C_RBRACE, 1);
        lemma_scan_sig(ps[0].1, b, i + 1 + k.len(), C_LBRACE, C_RBRACE, 1);
    } else {
        assert(b[i + 1] == C_STRING) by { assert(b.subrange(i + 1, i + 2)[0] == C_STRING); }
        assert(b[i + 2] == C_VARIANT) by { assert(b.subrange(i + 2, i + 3)[0] == C_VARIANT); }
        lemma_scan_step(b, C_LBRACE, C_RBRACE, i + 1, 1);
        lemma_scan_step(b, C_LBRACE, C_RBRACE, i + 2, 1);
    }
    let j = i + 1 + k.len() + x.len();
    assert(b[j] == C_RBRACE) by { assert(b.subrange(j, j + 1)[0] == C_RBRACE); }
    lemma_scan_step(b, C_LBRACE, C_RBRACE, j, 1);
    assert(scan_close(b, C_LBRACE, C_RBRACE, j + 1, 0) == (j + 1, 0int));
    assert(b.subrange(i, j + 1) == e);
}

/// A complete signature found at `i` is read as exactly one type.
pub proof fn lemma_type_len_sig(v: VModel, b: Seq<u8>, i: int)
    requires
        wf(v),
        0 <= i,
        i + sig(v).len() <= b.len(),
        b.subrange(i, i + sig(v).len()) == sig(v),
    ensures
        type_len(b, i) == Some(sig(v).len() as int),
    decreases v, 1nat,
{
    let g = sig(v);
    assert(b[i] == g[0]) by { assert(b.subrange(i, i + g.len())[0] == g[0]); }
    match v {
        VModel::Array(es) => {
            let e = elem_sig(v);
            lemma_sub_concat(b, i, seq![C_ARRAY], e);
            if es.len() > 0 {
                lemma_wf_list(es);
                lemma_sig_head(es[0]);
                assert(b[i + 1] == e[0]) by { assert(b.subrange(i + 1, i + 1 + e.len())[0] == e[0]); }
                lemma_type_len_sig(es[0], b, i + 1);
            } else {
                assert(b[i + 1] == C_VARIANT) by { assert(b.subrange(i + 1, i + 2)[0] == e[0]); }
            }
        },
        VModel::TypedArray(s, es) => {
            lemma_sub_concat(b, i, seq![C_ARRAY], s);
            if es.len() > 0 {
                lemma_wf_list(es);
                lemma_sig_head(es[0]);
                assert(b[i + 1] == s[0]) by { assert(b.subrange(i + 1, i + 1 + s.len())[0] == s[0]); }
                lemma_type_len_sig(es[0], b, i + 1);
            } else {
                assert(b[i + 1] == s[0]) by { assert(b.subrange(i + 1, i + 2)[0] == s[0]); }
            }
        },
        VModel::Dict(ps) => {
            lemma_dict_sig(ps);
            lemma_sub_concat(b, i, seq![C_ARRAY], entry_sig(ps));
            assert(b[i + 1] == C_LBRACE) by { assert(b.subrange(i + 1, i + 2)[0] == entry_sig(ps)[0]); }
            lemma_entry_len(ps, b, i + 1);
        },
        VModel::Struct(fs) => {
            let l = sig_list(fs);
            assert(g =~= seq![C_LPAREN] + l + seq![C_RPAREN]);
            lemma_sub_concat(b, i, seq![C_LPAREN] + l, seq![C_RPAREN]);
            lemma_sub_concat(b, i, seq![C_LPAREN], l);
            lemma_scan_sig_list(fs, b, i + 1, C_LPAREN, C_RPAREN, 1);
            let j = i + 1 + l.len();
            assert(b[j] == C_RPAREN) by { assert(b.subrange(j, j + 1)[0] == C_RPAREN); }
            lemma_scan_step(b, C_LPAREN, C_RPAREN, j, 1);
            assert(scan_close(b, C_LPAREN, C_RPAREN, j + 1, 0) == (j + 1, 0int));
            lemma_wf_sig_valid(v);
        },
        _ => {},
    }
}

/// Consecutive complete signatures filling `b` from `i` split into exactly those.
pub proof fn lemma_split_sig_list(fs: Seq<VModel>, b: Seq<u8>, i: int)
    requires
        wf_list(fs),
        0 <= i,
        i + sig_list(fs).len() == b.len(),
        b.subrange(i, b.len() as int) == sig_list(fs),
    ensures
        split_from(b, i) == Some(sig_seq(fs)),
    decreases fs,
{
    if fs.len() == 0 {
        assert(sig_seq(fs) =~= Seq::<Seq<u8>>::empty());
    } else {
        let t = fs.subrange(1, fs.len() as int);
        lemma_sig_list_front(fs);
        lemma_sub_concat(b, i, sig(fs[0]), sig_list(t));
        lemma_type_len_sig(fs[0], b, i);
        lemma_split_sig_list(t, b, i + sig(fs[0]).len());
        assert(seq![b.subrange(i, i + sig(fs[0]).len())] + sig_seq(t) =~= sig_seq(fs));
    }
}

/// A single complete signature splits into itself.
pub proof fn lemma_split_one(b: Seq<u8>)
    requires
        type_len(b, 0) == Some(b.len() as int),
    ensures
        split_sig(b) == Some(seq![b]),
{
    assert(b.subrange(0, b.len() as int) =~= b);
    assert(split_from(b, b.len() as int) == Some(Seq::<Seq<u8>>::empty()));
    assert(seq![b] + Seq::<Seq<u8>>::empty() =~= seq![b]);
}

/// What reading gives back for a written value: typed arrays come back as plain arrays.
pub open spec fn norm(v: VModel) -> VModel
    decreases v,
{
    match v {
        VModel::Array(es) => VModel::Array(norm_list(es)),
        VModel::TypedArray(_, es) => VModel::Array(norm_list(es)),
        VModel::Struct(fs) => VModel::Struct(norm_list(fs)),
        VModel::Variant(x) => VModel::Variant(Box::new(norm(*x))),
        VModel::Dict(ps) => VModel::Dict(norm_pairs(ps)),
        _ => v,
    }
}

pub open spec fn norm_list(es: Seq<VModel>) -> Seq<VModel>
    decreases es,
{
    if es.len() == 0 {
        Seq::empty()
    } else {
        seq![norm(es[0])] + norm_list(es.subrange(1, es.len() as int))
    }
}

pub open spec fn norm_pairs(ps: Seq<(VModel, VModel)>) -> Seq<(VModel, VModel)>
    decreases ps,
{
    if ps.len() == 0 {
        Seq::empty()
    } else {
        seq![(norm(ps[0].0), norm(ps[0].1))] + norm_pairs(ps.subrange(1, ps.len() as int))
    }
}

/// The bytes `w` stand in `d` at `off`.
pub open spec fn at(d: Seq<u8>, off: int, w: Seq<u8>) -> bool {
    &&& 0 <= off
    &&& off + w.len() <= d.len()
    &&& d.subrange(off, off + w.len()) == w
}

pub proof fn lemma_at_split(d: Seq<u8>, off: int, x: Seq<u8>, y: Seq<u8>)
    requires
        at(d, off, x + y),
    ensures
        at(d, off, x),
        at(d, off + x.len(), y),
{
    lemma_sub_concat(d, off, x, y);
}

proof fn lemma_le16(x: u16)
    ensures
        ((x & 0xff) as u8) as int + ((x >> 8) as u8) as int * 256 == x,
{
    assert((x & 0xff) < 256 && (x >> 8) < 256) by (bit_vector);
    assert(x == (x & 0xff) + (x >> 8) * 256) by (bit_vector);
}

pub proof fn lemma_le32(x: u32)
    ensures
        ((x & 0xff) as u8) as int + (((x >> 8) & 0xff) as u8) as int * 256
            + (((x >> 16) & 0xff) as u8) as int * 65536 + ((x >> 24) as u8) as int * 16777216 == x,
{
    assert((x & 0xff) < 256 && ((x >> 8) & 0xff) < 256 && ((x >> 16) & 0xff) < 256 && (x >> 24) < 256)
        by (bit_vector);
    assert(x == (x & 0xff) + ((x >> 8) & 0xff) * 256 + ((x >> 16) & 0xff) * 65536 + (x >> 24) * 16777216)
        by (bit_vector);
}

proof fn lemma_split64(x: u64)
    ensures
        x == ((x & 0xffff_ffff) as u32) as int + ((x >> 32) as u32) as int * 4294967296,
{
    assert((x & 0xffff_ffff) < 0x1_0000_0000 && (x >> 32) < 0x1_0000_0000) by (bit_vector);
    assert(x == (x & 0xffff_ffff) + (x >> 32) * 4294967296) by (bit_vector);
}

/// A padded little-endian 16-bit word reads back.
pub proof fn lemma_read_u16(d: Seq<u8>, off: nat, x: u16)
    requires
        at(d, off as int, zeros(pad(off, 2)) + le_u16(x)),
    ensures
        spec_u16(d, off) == (Some(x), pad(off, 2) + 2),
{
    lemma_at_split(d, off as int, zeros(pad(off, 2)), le_u16(x));
    let p: int = (off + pad(off, 2)) as int;
    assert(d[p] == le_u16(x)[0]) by { assert(d.subrange(p, p + 2)[0] == le_u16(x)[0]); }
    assert(d[p + 1] == le_u16(x)[1]) by { assert(d.subrange(p, p + 2)[1] == le_u16(x)[1]); }
    lemma_le16(x);
}

/// A padded little-endian 32-bit word reads back.
pub proof fn lemma_read_u32(d: Seq<u8>, off: nat, x: u32)
    requires
        at(d, off as int, zeros(pad(off, 4)) + le_u32(x)),
    ensures
        spec_u32(d, off) == (Some(x), pad(off, 4) + 4),
{
    lemma_at_split(d, off as int, zeros(pad(off, 4)), le_u32(x));
    let p: int = (off + pad(off, 4)) as int;
    assert forall|j: int| 0 <= j < 4 implies d[p + j] == #[trigger] le_u32(x)[j] by {
        assert(d.subrange(p, p + 4)[j] == le_u32(x)[j]);
    }
    assert(d[p + 0] == le_u32(x)[0]);
    assert(d[p + 1] == le_u32(x)[1]);
    assert(d[p + 2] == le_u32(x)[2]);
    assert(d[p + 3] == le_u32(x)[3]);
    lemma_le32(x);
}

/// A padded little-endian 64-bit word reads back.
pub proof fn lemma_read_u64(d: Seq<u8>, off: nat, x: u64)
    requires
        at(d, off as int, zeros(pad(off, 8)) + le_u64(x)),
    ensures
        spec_u64(d, off) == (Some(x), pad(off, 8) + 8),
{
    let lo = (x & 0xffff_ffff) as u32;
    let hi = (x >> 32) as u32;
    lemma_at_split(d, off as int, zeros(pad(off, 8)), le_u64(x));
    let p: int = (off + pad(off, 8)) as int;
    lemma_at_split(d, p, le_u32(lo), le_u32(hi));
    assert forall|j: int| 0 <= j < 4 implies d[p + j] == #[trigger] le_u32(lo)[j] by {
        assert(d.subrange(p, p + 4)[j] == le_u32(lo)[j]);
    }
    assert forall|j: int| 0 <= j < 4 implies d[p + 4 + j] == #[trigger] le_u32(hi)[j] by {
        assert(d.subrange(p + 4, p + 8)[j] == le_u32(hi)[j]);
    }
    assert(d[p + 0] == le_u32(lo)[0]);
    assert(d[p + 1] == le_u32(lo)[1]);
    assert(d[p + 2] == le_u32(lo)[2]);
    assert(d[p + 3] == le_u32(lo)[3]);
    assert(d[p + 4 + 0] == le_u32(hi)[0]);
    assert(d[p + 4 + 1] == le_u32(hi)[1]);
    assert(d[p + 4 + 2] == le_u32(hi)[2]);
    assert(d[p + 4 + 3] == le_u32(hi)[3]);
    lemma_le32(lo);
    lemma_le32(hi);
    lemma_split64(x);
    assert(le32(d, p) == lo);
    assert(le32(d, p + 4) == hi);
}

/// A length-prefixed string with its NUL reads back.
pub proof fn lemma_read_string(d: Seq<u8>, off: nat, s: Seq<u8>)
    requires
        valid_utf8(s),
        s.len() < 0x1_0000_0000,
        at(d, off as int, zeros(pad(off, 4)) + le_u32(s.len() as u32) + s + seq![0u8]),
    ensures
        spec_string(d, off) == (Some(s), pad(off, 4) + 4 + s.len() + 1),
{
    let h = zeros(pad(off, 4)) + le_u32(s.len() as u32);
    lemma_at_split(d, off as int, h + s, seq![0u8]);
    lemma_at_split(d, off as int, h, s);
    lemma_read_u32(d, off, s.len() as u32);
}

/// A length-prefixed signature with its NUL reads back.
pub proof fn lemma_read_sig(d: Seq<u8>, off: nat, g: Seq<u8>)
    requires
        valid_utf8(g),
        g.len() <= 255,
        at(d, off as int, seq![g.len() as u8] + g + seq![0u8]),
    ensures
        spec_signature(d, off) == (Some(g), g.len() + 2),
{
    lemma_at_split(d, off as int, seq![g.len() as u8] + g, seq![0u8]);
    lemma_at_split(d, off as int, seq![g.len() as u8], g);
    assert(d[off as int] == g.len() as u8) by { assert(d.subrange(off as int, off + 1int)[0] == g.len() as u8); }
}

proof fn lemma_signed_roundtrip(a: i16, b: i32, c: i64)
    ensures
        (a as u16) as i16 == a,
        (b as u32) as i32 == b,
        (c as u64) as i64 == c,
{
    assert((a as u16) as i16 == a) by (bit_vector);
    assert((b as u32) as i32 == b) by (bit_vector);
    assert((c as u64) as i64 == c) by (bit_vector);
}

/// An array's signature is `a` followed by one complete element type.
pub proof fn lemma_elem_type(v: VModel)
    requires
        wf(v),
        v is Array || v is TypedArray,
    ensures
        sig(v) == seq![C_ARRAY] + elem_sig(v),
        elem_sig(v).len() >= 1,
        elem_sig(v)[0] != C_LBRACE,
        array_elem(sig(v)) == Some(elem_sig(v)),
        align_of(elem_sig(v)) == 1 || align_of(elem_sig(v)) == 2 || align_of(elem_sig(v)) == 4
            || align_of(elem_sig(v)) == 8,
{
    let e = elem_sig(v);
    match v {
        VModel::Array(es) => {
            if es.len() > 0 {
                lemma_wf_list(es);
                lemma_sig_head(es[0]);
                assert(e.subrange(0, e.len() as int) =~= e);
                lemma_type_len_sig(es[0], e, 0);
            }
        },
        VModel::TypedArray(s, es) => {
            if es.len() > 0 {
                lemma_wf_list(es);
                lemma_sig_head(es[0]);
                assert(e.subrange(0, e.len() as int) =~= e);
                lemma_type_len_sig(es[0], e, 0);
            }
        },
        _ => {},
    }
    lemma_split_one(e);
    assert(sig(v) =~= seq![C_ARRAY] + e);
    assert(sig(v).subrange(1, sig(v).len() as int) =~= e);
}

/// A dict's signature is `a` followed by its entry type, which splits into key and value.
pub proof fn lemma_dict_type(ps: Seq<(VModel, VModel)>)
    requires
        wf_pairs(ps),
    ensures
        array_elem(sig(VModel::Dict(ps))) == Some(entry_sig(ps)),
        dict_kv(entry_sig(ps)) == Some((dict_key_sig(ps), dict_val_sig(ps))),
{
    let e = entry_sig(ps);
    let k = dict_key_sig(ps);
    let x = dict_val_sig(ps);
    lemma_dict_sig(ps);
    lemma_wf_pairs(ps);
    assert(e.subrange(0, e.len() as int) =~= e);
    lemma_entry_len(ps, e, 0);
    lemma_split_one(e);
    assert(sig(VModel::Dict(ps)).subrange(1, sig(VModel::Dict(ps)).len() as int) =~= e);
    let b = k + x;
    assert(e.subrange(1, e.len() - 1) =~= b);
    assert(b.subrange(0, k.len() as int) =~= k);
    assert(b.subrange(k.len() as int, (k.len() + x.len()) as int) =~= x);
    if ps.len() > 0 {
        lemma_type_len_sig(ps[0].0, b, 0);
        lemma_type_len_sig(ps[0].1, b, k.len() as int);
    }
    assert(type_len(b, 0) == Some(k.len() as int));
    assert(type_len(b, k.len() as int) == Some(x.len() as int));
    assert(split_from(b, b.len() as int) == Some(Seq::<Seq<u8>>::empty()));
    assert(split_from(b, k.len() as int) == Some(seq![x] + Seq::<Seq<u8>>::empty()));
    assert(split_from(b, 0) == Some(seq![k] + (seq![x] + Seq::<Seq<u8>>::empty())));
    assert(seq![k] + (seq![x] + Seq::<Seq<u8>>::empty()) =~= seq![k, x]);
}

/// A written value reads back, normalised, and takes at least one byte.
pub proof fn lemma_read_ser(v: VModel, d: Seq<u8>, off: nat)
    requires
        wf(v),
        at(d, off as int, ser(v, off)),
        ser(v, off).len() < 0x1_0000_0000,
    ensures
        parse(d, off, sig(v)) == (Ok::<VModel, ReadFault>(norm(v)), ser(v, off).len()),
        !zero_width(v) ==> ser(v, off).len() >= 1,
    decreases v, 2nat,
{
    match v {
        VModel::Variant(_) => lemma_read_variant(v, d, off),
        VModel::Array(_) => lemma_read_array(v, d, off),
        VModel::TypedArray(_, _) => lemma_read_array(v, d, off),
        VModel::Dict(_) => lemma_read_dict(v, d, off),
        VModel::Struct(_) => lemma_read_struct(v, d, off),
        VModel::DictEntry(_, _) => {},
        _ => lemma_read_scalar(v, d, off),
    }
}

/// A written scalar, string or signature reads back.
#[verifier::spinoff_prover]
#[verifier::rlimit(60)]
proof fn lemma_read_scalar(v: VModel, d: Seq<u8>, off: nat)
    requires
        wf(v),
        !(v is Variant || v is Array || v is TypedArray || v is Dict || v is Struct || v is DictEntry),
        at(d, off as int, ser(v, off)),
        ser(v, off).len() < 0x1_0000_0000,
    ensures
        parse(d, off, sig(v)) == (Ok::<VModel, ReadFault>(norm(v)), ser(v, off).len()),
        ser(v, off).len() >= 1,
{
    match v {
        VModel::Byte(x) => {
            assert(d[off as int] == x) by { assert(d.subrange(off as int, off + 1int)[0] == x); }
        },
        VModel::Bool(b) => {
            lemma_read_u32(d, off, if b { 1u32 } else { 0u32 });
        },
        VModel::I16(x) => {
            lemma_read_u16(d, off, x as u16);
            lemma_signed_roundtrip(x, 0, 0);
        },
        VModel::U16(x) => {
            lemma_read_u16(d, off, x);
        },
        VModel::I32(x) => {
            lemma_read_u32(d, off, x as u32);
            lemma_signed_roundtrip(0, x, 0);
        },
        VModel::U32(x) => {
            lemma_read_u32(d, off, x);
        },
        VModel::I64(x) => {
            lemma_read_u64(d, off, x as u64);
            lemma_signed_roundtrip(0, 0, x);
        },
        VModel::U64(x) => {
            lemma_read_u64(d, off, x);
        },
        VModel::F64(x) => {
            lemma_read_u64(d, off, x);
        },
        VModel::Str(s) => {
            lemma_read_string(d, off, s);
        },
        VModel::ObjectPath(s) => {
            lemma_read_string(d, off, s);
        },
        VModel::Signature(s) => {
            lemma_read_sig(d, off, s);
        },
        _ => {},
    }
}

proof fn lemma_read_variant(v: VModel, d: Seq<u8>, off: nat)
    requires
        wf(v),
        v is Variant,
        at(d, off as int, ser(v, off)),
        ser(v, off).len() < 0x1_0000_0000,
    ensures
        parse(d, off, sig(v)) == (Ok::<VModel, ReadFault>(norm(v)), ser(v, off).len()),
        ser(v, off).len() >= 1,
    decreases v, 1nat,
{
    let x = *v->Variant_0;
    let g = sig(x);
    lemma_wf_sig_valid(x);
    lemma_at_split(d, off as int, seq![g.len() as u8] + g + seq![0u8], ser(x, off + g.len() + 2));
    lemma_read_sig(d, off, g);
    lemma_read_ser(x, d, off + g.len() + 2);
}

proof fn lemma_read_struct(v: VModel, d: Seq<u8>, off: nat)
    requires
        wf(v),
        v is Struct,
        at(d, off as int, ser(v, off)),
        ser(v, off).len() < 0x1_0000_0000,
    ensures
        parse(d, off, sig(v)) == (Ok::<VModel, ReadFault>(norm(v)), ser(v, off).len()),
        !zero_width(v) ==> ser(v, off).len() >= 1,
    decreases v, 1nat,
{
    let fs = v->Struct_0;
    let q = pad(off, 8);
    let l = sig_list(fs);
    assert(sig(v) =~= seq![C_LPAREN] + l + seq![C_RPAREN]);
    assert(sig(v).subrange(1, sig(v).len() - 1) =~= l);
    assert(l.subrange(0, l.len() as int) =~= l);
    lemma_split_sig_list(fs, l, 0);
    lemma_at_split(d, off as int, zeros(q), ser_list(fs, off + q));
    lemma_read_fields(fs, d, off + q);
}

proof fn lemma_read_array(v: VModel, d: Seq<u8>, off: nat)
    requires
        wf(v),
        v is Array || v is TypedArray,
        at(d, off as int, ser(v, off)),
        ser(v, off).len() < 0x1_0000_0000,
    ensures
        parse(d, off, sig(v)) == (Ok::<VModel, ReadFault>(norm(v)), ser(v, off).len()),
        ser(v, off).len() >= 1,
    decreases v, 1nat,
{
    let es = match v {
        VModel::Array(es) => es,
        VModel::TypedArray(_, es) => es,
        _ => Seq::empty(),
    };
    let e = elem_sig(v);
    lemma_elem_type(v);
    lemma_wf_list(es);
    let p = pad(off, 4);
    let a = if es.len() > 0 { align_of(sig(es[0])) } else { 1 };
    let q = pad(off + p + 4, a);
    let ds = off + p + 4 + q;
    let body = ser_list(es, ds);
    let hdr = zeros(p) + le_u32(body.len() as u32);
    assert(ser(v, off) == hdr + zeros(q) + body);
    lemma_at_split(d, off as int, hdr + zeros(q), body);
    lemma_at_split(d, off as int, hdr, zeros(q));
    lemma_read_u32(d, off, body.len() as u32);
    assert((off + p + 4) % 4 == 0);
    assert(pad(off + p + 4, align_of(e)) == q);
    if es.len() > 0 {
        assert forall|i: int| 0 <= i < es.len() implies #[trigger] sig(es[i]) == e by {}
    }
    lemma_read_elems(es, d, ds, e, (ds + body.len()) as int);
}

proof fn lemma_read_elems(es: Seq<VModel>, d: Seq<u8>, off: nat, e: Seq<u8>, end: int)
    requires
        wf_list(es),
        widths_ok(es),
        forall|i: int| 0 <= i < es.len() ==> #[trigger] sig(es[i]) == e,
        at(d, off as int, ser_list(es, off)),
        ser_list(es, off).len() < 0x1_0000_0000,
        end == off + ser_list(es, off).len(),
    ensures
        parse_elems(d, off, end, e) == (Ok::<Seq<VModel>, ReadFault>(norm_list(es)), ser_list(es, off).len()),
    decreases es, 2nat,
{
    if es.len() > 0 {
        let t = es.subrange(1, es.len() as int);
        let h = ser(es[0], off);
        lemma_at_split(d, off as int, h, ser_list(t, off + h.len()));
        lemma_read_ser(es[0], d, off);
        assert(sig(es[0]) == e);
        assert forall|i: int| 0 <= i < t.len() implies #[trigger] sig(t[i]) == e by {
            assert(t[i] == es[i + 1]);
            assert(sig(es[i + 1]) == e);
        }
        assert(!zero_width(es[0]));
        assert forall|i: int| 0 <= i < t.len() implies !zero_width(#[trigger] t[i]) by {
            assert(t[i] == es[i + 1]);
        }
        lemma_read_elems(t, d, off + h.len(), e, end);
    }
}

proof fn lemma_read_dict(v: VModel, d: Seq<u8>, off: nat)
    requires
        wf(v),
        v is Dict,
        at(d, off as int, ser(v, off)),
        ser(v, off).len() < 0x1_0000_0000,
    ensures
        parse(d, off, sig(v)) == (Ok::<VModel, ReadFault>(norm(v)), ser(v, off).len()),
        ser(v, off).len() >= 1,
    decreases v, 1nat,
{
    let ps = v->Dict_0;
    let k = dict_key_sig(ps);
    let x = dict_val_sig(ps);
    lemma_dict_sig(ps);
    lemma_dict_type(ps);
    lemma_wf_pairs(ps);
    let p = pad(off, 4);
    let q = pad(off + p + 4, 8);
    let ds = off + p + 4 + q;
    let body = ser_pairs(ps, ds);
    let hdr = zeros(p) + le_u32(body.len() as u32);
    assert(ser(v, off) == hdr + zeros(q) + body);
    lemma_at_split(d, off as int, hdr + zeros(q), body);
    lemma_at_split(d, off as int, hdr, zeros(q));
    lemma_read_u32(d, off, body.len() as u32);
    assert(sig(v)[1] == C_LBRACE);
    if ps.len() > 0 {
        assert forall|i: int| 0 <= i < ps.len() implies sig(#[trigger] ps[i].0) == k && sig(ps[i].1) == x by {}
    }
    lemma_read_pairs(ps, d, ds, k, x, (ds + body.len()) as int);
}

proof fn lemma_read_pairs(ps: Seq<(VModel, VModel)>, d: Seq<u8>, off: nat, k: Seq<u8>, x: Seq<u8>, end: int)
    requires
        wf_pairs(ps),
        keys_ok(ps),
        forall|i: int| 0 <= i < ps.len() ==> sig(#[trigger] ps[i].0) == k && sig(ps[i].1) == x,
        at(d, off as int, ser_pairs(ps, off)),
        ser_pairs(ps, off).len() < 0x1_0000_0000,
        end == off + ser_pairs(ps, off).len(),
    ensures
        parse_pairs(d, off, end, k, x)
            == (Ok::<Seq<(VModel, VModel)>, ReadFault>(norm_pairs(ps)), ser_pairs(ps, off).len()),
    decreases ps, 2nat,
{
    if ps.len() > 0 {
        let t = ps.subrange(1, ps.len() as int);
        let q = pad(off, 8);
        let o = off + q;
        let kb = ser(ps[0].0, o);
        let vb = ser(ps[0].1, o + kb.len());
        let h = zeros(q) + kb + vb;
        lemma_at_split(d, off as int, h, ser_pairs(t, off + h.len()));
        lemma_at_split(d, off as int, zeros(q) + kb, vb);
        lemma_at_split(d, off as int, zeros(q), kb);
        assert(decreases_to!(ps => ps[0]));
        lemma_read_ser(ps[0].0, d, o);
        lemma_read_ser(ps[0].1, d, o + kb.len());
        assert(sig(ps[0].0) == k && sig(ps[0].1) == x);
        assert forall|i: int| 0 <= i < t.len() implies sig(#[trigger] t[i].0) == k && sig(t[i].1) == x by {
            assert(t[i] == ps[i + 1]);
            assert(sig(ps[i + 1].0) == k && sig(ps[i + 1].1) == x);
        }
        assert(!(zero_width(ps[0].0) && zero_width(ps[0].1)));
        assert forall|i: int| 0 <= i < t.len() implies !(zero_width(#[trigger] t[i].0) && zero_width(t[i].1)) by {
            assert(t[i] == ps[i + 1]);
        }
        lemma_read_pairs(t, d, off + h.len(), k, x, end);
    }
}

proof fn lemma_read_fields(fs: Seq<VModel>, d: Seq<u8>, off: nat)
    requires
        wf_list(fs),
        at(d, off as int, ser_list(fs, off)),
        ser_list(fs, off).len() < 0x1_0000_0000,
    ensures
        parse_fields(d, off, sig_seq(fs)) == (Ok::<Seq<VModel>, ReadFault>(norm_list(fs)), ser_list(fs, off).len()),
        !zero_width_list(fs) ==> ser_list(fs, off).len() >= 1,
    decreases fs, 2nat,
{
    if fs.len() == 0 {
        assert(sig_seq(fs) =~= Seq::<Seq<u8>>::empty());
    } else {
        let t = fs.subrange(1, fs.len() as int);
        let h = ser(fs[0], off);
        lemma_at_split(d, off as int, h, ser_list(t, off + h.len()));
        lemma_read_ser(fs[0], d, off);
        lemma_read_fields(t, d, off + h.len());
        assert(sig_seq(fs).drop_first() =~= sig_seq(t));
        assert(sig_seq(fs)[0] == sig(fs[0]));
    }
}

/// Reading back a marshalled body with the signature it was written with
/// gives the values that were written, each typed array as a plain array,
/// and consumes exactly the written bytes.
pub proof fn lemma_body_roundtrip(ms: Seq<VModel>)
    requires
        forall|i: int| 0 <= i < ms.len() ==> #[trigger] wf(ms[i]),
        ser_list(ms, 0).len() < 0x1_0000_0000,
    ensures
        spec_body(ser_list(ms, 0), 0, sig_list(ms))
            == (Ok::<Seq<VModel>, ReadFault>(norm_list(ms)), ser_list(ms, 0).len()),
{
    let d = ser_list(ms, 0);
    let l = sig_list(ms);
    lemma_wf_list(ms);
    assert(d.subrange(0, d.len() as int) =~= d);
    lemma_read_fields(ms, d, 0);
    if ms.len() == 0 {
        assert(l =~= Seq::<u8>::empty());
    } else {
        lemma_sig_list_front(ms);
        lemma_sig_head(ms[0]);
        assert(l.subrange(0, l.len() as int) =~= l);
        lemma_split_sig_list(ms, l, 0);
    }
}

/// Values without typed arrays anywhere inside.
pub open spec fn no_typed(v: VModel) -> bool
    decreases v,
{
    match v {
        VModel::TypedArray(_, _) => false,
        VModel::Array(es) => no_typed_list(es),
        VModel::Struct(fs) => no_typed_list(fs),
        VModel::Variant(x) => no_typed(*x),
        VModel::Dict(ps) => no_typed_pairs(ps),
        _ => true,
    }
}

pub open spec fn no_typed_list(es: Seq<VModel>) -> bool
    decreases es,
{
    if es.len() == 0 {
        true
    } else {
        no_typed(es[0]) && no_typed_list(es.subrange(1, es.len() as int))
    }
}

pub open spec fn no_typed_pairs(ps: Seq<(VModel, VModel)>) -> bool
    decreases ps,
{
    if ps.len() == 0 {
        true
    } else {
        no_typed(ps[0].0) && no_typed(ps[0].1) && no_typed_pairs(ps.subrange(1, ps.len() as int))
    }
}

/// Normalising changes nothing in a value without typed arrays.
pub proof fn lemma_norm_identity(v: VModel)
    requires
        no_typed(v),
    ensures
        norm(v) == v,
    decreases v, 1nat,
{
    match v {
        VModel::Array(es) => {
            lemma_norm_list_identity(es);
        },
        VModel::Struct(fs) => {
            lemma_norm_list_identity(fs);
        },
        VModel::Variant(x) => {
            lemma_norm_identity(*x);
        },
        VModel::Dict(ps) => {
            lemma_norm_pairs_identity(ps);
        },
        _ => {},
    }
}

pub proof fn lemma_norm_list_identity(es: Seq<VModel>)
    requires
        no_typed_list(es),
    ensures
        norm_list(es) == es,
    decreases es, 0nat,
{
    if es.len() > 0 {
        let t = es.subrange(1, es.len() as int);
        assert(decreases_to!(es => es[0]));
        lemma_norm_identity(es[0]);
        lemma_norm_list_identity(t);
        assert(seq![es[0]] + t =~= es);
    } else {
        assert(norm_list(es) =~= es);
    }
}

pub proof fn lemma_norm_pairs_identity(ps: Seq<(VModel, VModel)>)
    requires
        no_typed_pairs(ps),
    ensures
        norm_pairs(ps) == ps,
    decreases ps, 0nat,
{
    if ps.len() > 0 {
        let t = ps.subrange(1, ps.len() as int);
        assert(decreases_to!(ps => ps[0]));
        lemma_norm_identity(ps[0].0);
        lemma_norm_identity(ps[0].1);
        lemma_norm_pairs_identity(t);
        assert(seq![(ps[0].0, ps[0].1)] + t =~= ps);
    } else {
        assert(norm_pairs(ps) =~= ps);
    }
}

/// A body without typed arrays reads back as exactly the values written.
pub proof fn lemma_body_roundtrip_exact(ms: Seq<VModel>)
    requires
        forall|i: int| 0 <= i < ms.len() ==> #[trigger] wf(ms[i]),
        no_typed_list(ms),
        ser_list(ms, 0).len() < 0x1_0000_0000,
    ensures
        spec_body(ser_list(ms, 0), 0, sig_list(ms)) == (Ok::<Seq<VModel>, ReadFault>(ms), ser_list(ms, 0).len()),
{
    lemma_body_roundtrip(ms);
    lemma_norm_list_identity(ms);
}

} // verus!
