//! D-Bus type signatures: splitting into complete types, alignment, and
//! the inner types of structs, dict entries and arrays.

use vstd::prelude::*;
use vstd::utf8::*;
use crate::text::{sbytes, str_from_utf8};
use crate::linbus::error::LinbusError;
use crate::linbus::value::{
    C_BYTE, C_BOOL, C_I16, C_U16, C_I32, C_U32, C_I64, C_U64, C_F64, C_STRING, C_PATH, C_SIG,
    C_VARIANT, C_FD, C_ARRAY, C_LPAREN, C_RPAREN, C_LBRACE, C_RBRACE,
};

verus! {

broadcast use vstd::seq::group_seq_axioms;

/// Single-character type codes.
pub open spec fn is_basic_code(c: u8) -> bool {
    c == C_BYTE || c == C_BOOL || c == C_I16 || c == C_U16 || c == C_I32 || c == C_U32
        || c == C_I64 || c == C_U64 || c == C_F64 || c == C_STRING || c == C_PATH || c == C_SIG
        || c == C_VARIANT || c == C_FD
}

/// Scans forward from `end` with nesting `depth` until the nesting drops to
/// zero or the input ends; returns the position reached and the final nesting.
pub open spec fn scan_close(b: Seq<u8>, open: u8, close: u8, end: int, depth: int) -> (int, int)
    decreases b.len() - end,
{
    if 0 <= end < b.len() && depth > 0 {
        let d1 = if b[end] == open { depth + 1 } else { depth };
        let d2 = if b[end] == close { d1 - 1 } else { d1 };
        scan_close(b, open, close, end + 1, d2)
    } else {
        (end, depth)
    }
}

/// Length of a bracketed type starting at `start`, if its bracket closes
/// and its bytes are well-formed UTF-8.
pub open spec fn bracket_len(b: Seq<u8>, start: int, open: u8, close: u8) -> Option<int> {
    let (end, depth) = scan_close(b, open, close, start + 1, 1);
    if depth != 0 {
        None
    } else if !valid_utf8(b.subrange(start, end)) {
        None
    } else {
        Some(end - start)
    }
}

/// Length of a dict entry type `{..}` starting at `start`.
pub open spec fn entry_len(b: Seq<u8>, start: int) -> Option<int> {
    if !(0 <= start < b.len()) || b[start] != C_LBRACE {
        None
    } else {
        bracket_len(b, start, C_LBRACE, C_RBRACE)
    }
}

/// Length in bytes of the single complete type that starts at `start`.
pub open spec fn type_len(b: Seq<u8>, start: int) -> Option<int>
    decreases b.len() - start,
{
    if !(0 <= start < b.len()) {
        None
    } else if is_basic_code(b[start]) {
        Some(1)
    } else if b[start] == C_ARRAY {
        if start + 1 >= b.len() {
            None
        } else if b[start + 1] == C_LBRACE {
            match entry_len(b, start + 1) {
                Some(c) => Some(1 + c),
                None => None,
            }
        } else {
            match type_len(b, start + 1) {
                Some(c) => Some(1 + c),
                None => None,
            }
        }
    } else if b[start] == C_LPAREN {
        bracket_len(b, start, C_LPAREN, C_RPAREN)
    } else if b[start] == C_LBRACE {
        entry_len(b, start)
    } else {
        None
    }
}

pub proof fn lemma_scan_close(b: Seq<u8>, open: u8, close: u8, end: int, depth: int)
    requires
        0 <= end <= b.len(),
        depth >= 0,
        open != close,
    ensures
        ({
            let (e, d) = scan_close(b, open, close, end, depth);
            &&& d >= 0
            &&& end <= e
            &&& e <= b.len()
            &&& (d == 0 && depth > 0 ==> end < e)
            &&& d <= depth + (e - end)
        }),
    decreases b.len() - end,
{
    if 0 <= end < b.len() && depth > 0 {
        let d1 = if b[end] == open { depth + 1 } else { depth };
        let d2 = if b[end] == close { d1 - 1 } else { d1 };
        lemma_scan_close(b, open, close, end + 1, d2);
    }
}

pub proof fn lemma_type_len(b: Seq<u8>, start: int)
    ensures
        type_len(b, start) matches Some(c) ==> 1 <= c && start + c <= b.len(),
    decreases b.len() - start,
{
    if 0 <= start < b.len() {
        if b[start] == C_ARRAY && start + 1 < b.len() {
            if b[start + 1] == C_LBRACE {
                lemma_scan_close(b, C_LBRACE, C_RBRACE, start + 2, 1);
            } else {
                lemma_type_len(b, start + 1);
            }
        } else if b[start] == C_LPAREN {
            lemma_scan_close(b, C_LPAREN, C_RPAREN, start + 1, 1);
        } else if b[start] == C_LBRACE {
            lemma_scan_close(b, C_LBRACE, C_RBRACE, start + 1, 1);
        }
    }
}

/// Splits `b[i..]` into consecutive complete types.
pub open spec fn split_from(b: Seq<u8>, i: int) -> Option<Seq<Seq<u8>>>
    decreases b.len() - i,
{
    if i < 0 || i >= b.len() {
        Some(Seq::empty())
    } else {
        match type_len(b, i) {
            None => None,
            Some(c) => {
                proof { lemma_type_len(b, i); }
                match split_from(b, i + c) {
                    Some(rest) => Some(seq![b.subrange(i, i + c)] + rest),
                    None => None,
                }
            },
        }
    }
}

/// Every piece produced by a split is non-empty and no longer than what was split.
pub proof fn lemma_split_bounds(b: Seq<u8>, i: int)
    requires
        0 <= i,
    ensures
        split_from(b, i) matches Some(ts) ==> forall|k: int| 0 <= k < ts.len() ==> 1 <= #[trigger] ts[k].len() <= b.len() - i,
    decreases b.len() - i,
{
    if 0 <= i < b.len() {
        lemma_type_len(b, i);
        if let Some(c) = type_len(b, i) {
            lemma_split_bounds(b, i + c);
            if let Some(ts) = split_from(b, i) {
                let rest = split_from(b, i + c).unwrap();
                assert forall|k: int| 0 <= k < ts.len() implies 1 <= #[trigger] ts[k].len() <= b.len() - i by {
                    if k > 0 {
                        assert(ts[k] == rest[k - 1]);
                    }
                }
            }
        }
    }
}

proof fn lemma_split_from_concat(b: Seq<u8>, i: int)
    requires
        0 <= i,
    ensures
        split_from(b, i) matches Some(ts) ==> ts.flatten() == (if i < b.len() { b.subrange(i, b.len() as int) } else { Seq::<u8>::empty() }),
    decreases b.len() - i,
{
    if i < b.len() {
        lemma_type_len(b, i);
        if let Some(c) = type_len(b, i) {
            lemma_split_from_concat(b, i + c);
            if let Some(ts) = split_from(b, i) {
                let rest = split_from(b, i + c).unwrap();
                assert(ts.drop_first() =~= rest);
                assert(ts.first() == b.subrange(i, i + c));
                assert(ts.flatten() == ts.first() + ts.drop_first().flatten());
                assert(b.subrange(i, i + c) + rest.flatten() =~= b.subrange(i, b.len() as int));
            }
        }
    }
}

/// The complete types a signature splits into are never empty, and put back
/// together in order they give the signature.
pub proof fn lemma_split_sig_concat(b: Seq<u8>)
    ensures
        split_sig(b) matches Some(ts) ==> ts.flatten() == b && forall|k: int| 0 <= k < ts.len() ==> #[trigger] ts[k].len() >= 1,
{
    lemma_split_from_concat(b, 0);
    lemma_split_bounds(b, 0);
    assert(b.subrange(0, b.len() as int) =~= b);
    if b.len() == 0 {
        if let Some(ts) = split_sig(b) {
            assert(ts =~= Seq::<Seq<u8>>::empty());
        }
    }
}

/// The complete types of a signature, in order; `None` when it is malformed.
pub open spec fn split_sig(b: Seq<u8>) -> Option<Seq<Seq<u8>>> {
    split_from(b, 0)
}

/// Alignment, in bytes, of the type whose signature starts with `b`.
pub open spec fn align_of(b: Seq<u8>) -> int {
    if b.len() == 0 {
        1
    } else {
        let c = b[0];
        if c == C_BYTE {
            1
        } else if c == C_BOOL {
            4
        } else if c == C_I16 || c == C_U16 {
            2
        } else if c == C_I32 || c == C_U32 || c == C_FD {
            4
        } else if c == C_I64 || c == C_U64 || c == C_F64 {
            8
        } else if c == C_STRING || c == C_PATH {
            4
        } else if c == C_SIG {
            1
        } else if c == C_ARRAY {
            4
        } else if c == C_LPAREN {
            8
        } else if c == C_LBRACE {
            8
        } else {
            1
        }
    }
}

/// Field types of a struct signature `(..)`.
pub open spec fn struct_fields(b: Seq<u8>) -> Option<Seq<Seq<u8>>> {
    if b.len() >= 1 && b[0] == C_LPAREN && b[b.len() - 1] == C_RPAREN {
        split_sig(b.subrange(1, b.len() - 1))
    } else {
        None
    }
}

/// Key and value types of a dict entry signature `{kv}`.
pub open spec fn dict_kv(b: Seq<u8>) -> Option<(Seq<u8>, Seq<u8>)> {
    if b.len() >= 1 && b[0] == C_LBRACE && b[b.len() - 1] == C_RBRACE {
        match split_sig(b.subrange(1, b.len() - 1)) {
            Some(ts) => if ts.len() == 2 {
                Some((ts[0], ts[1]))
            } else {
                None
            },
            None => None,
        }
    } else {
        None
    }
}

/// Element type of an array signature `a..`.
pub open spec fn array_elem(b: Seq<u8>) -> Option<Seq<u8>> {
    if b.len() >= 2 && b[0] == C_ARRAY {
        match split_sig(b.subrange(1, b.len() as int)) {
            Some(ts) => if ts.len() == 1 {
                Some(ts[0])
            } else {
                None
            },
            None => None,
        }
    } else {
        None
    }
}

/// The byte strings of a sequence of `String`s.
pub open spec fn all_sbytes(v: Seq<String>) -> Seq<Seq<u8>> {
    v.map_values(|s: String| sbytes(s))
}

fn is_basic(c: u8) -> (r: bool)
    ensures
        r == is_basic_code(c),
{
    c == C_BYTE || c == C_BOOL || c == C_I16 || c == C_U16 || c == C_I32 || c == C_U32
        || c == C_I64 || c == C_U64 || c == C_F64 || c == C_STRING || c == C_PATH || c == C_SIG
        || c == C_VARIANT || c == C_FD
}

/// Byte length of the bracketed type opening at `start`.
fn bracket_length(bytes: &[u8], start: usize, open: u8, close: u8) -> (r: Option<usize>)
    requires
        start < bytes@.len(),
        open != close,
    ensures
        r matches Some(c) ==> bracket_len(bytes@, start as int, open, close) == Some(c as int),
        r is None ==> bracket_len(bytes@, start as int, open, close) is None,
{
    let n = bytes.len();
    let mut depth: usize = 1;
    let mut end: usize = start + 1;
    while end < bytes.len() && depth > 0
        invariant
            start < end <= bytes@.len(),
            depth <= end - start,
            scan_close(bytes@, open, close, start as int + 1, 1)
                == scan_close(bytes@, open, close, end as int, depth as int),
        decreases bytes@.len() - end,
    {
        if bytes[end] == open {
            depth += 1;
        }
        if bytes[end] == close {
            depth -= 1;
        }
        end += 1;
    }
    if depth != 0 {
        return None;
    }
    let slice = vstd::slice::slice_subrange(bytes, start, end);
    match str_from_utf8(slice) {
        Some(_) => Some(end - start),
        None => None,
    }
}

/// Byte length of the single complete type starting at `start`.
fn single_type_length(bytes: &[u8], start: usize) -> (r: Option<usize>)
    ensures
        r matches Some(c) ==> type_len(bytes@, start as int) == Some(c as int),
        r is None ==> type_len(bytes@, start as int) is None,
    decreases bytes@.len() - start,
{
    if start >= bytes.len() {
        return None;
    }
    let c = bytes[start];
    if is_basic(c) {
        Some(1)
    } else if c == C_ARRAY {
        if start + 1 >= bytes.len() {
            return None;
        }
        if bytes[start + 1] == C_LBRACE {
            match bracket_length(bytes, start + 1, C_LBRACE, C_RBRACE) {
                Some(n) => {
                    proof { lemma_scan_close(bytes@, C_LBRACE, C_RBRACE, start + 2, 1); }
                    Some(1 + n)
                },
                None => None,
            }
        } else {
            match single_type_length(bytes, start + 1) {
                Some(n) => {
                    proof { lemma_type_len(bytes@, start + 1); }
                    Some(1 + n)
                },
                None => None,
            }
        }
    } else if c == C_LPAREN {
        bracket_length(bytes, start, C_LPAREN, C_RPAREN)
    } else if c == C_LBRACE {
        bracket_length(bytes, start, C_LBRACE, C_RBRACE)
    } else {
        None
    }
}

pub proof fn lemma_type_len_valid(b: Seq<u8>, start: int)
    ensures
        type_len(b, start) matches Some(c) ==> valid_utf8(b.subrange(start, start + c)),
    decreases b.len() - start,
{
    lemma_type_len(b, start);
    if 0 <= start < b.len() {
        if is_basic_code(b[start]) {
            crate::text::lemma_ascii_byte_valid(b[start]);
            assert(b.subrange(start, start + 1) =~= seq![b[start]]);
        } else if b[start] == C_ARRAY && start + 1 < b.len() {
            crate::text::lemma_ascii_byte_valid(C_ARRAY);
            if let Some(c) = type_len(b, start) {
                if b[start + 1] != C_LBRACE {
                    lemma_type_len_valid(b, start + 1);
                }
                valid_utf8_concat(seq![C_ARRAY], b.subrange(start + 1, start + c));
                assert(seq![C_ARRAY] + b.subrange(start + 1, start + c) =~= b.subrange(start, start + c));
            }
        }
    }
}

/// Splits the bytes `bytes[i..]` into complete types.
fn split_bytes(bytes: &[u8]) -> (r: Option<Vec<String>>)
    ensures
        r matches Some(v) ==> split_sig(bytes@) == Some(all_sbytes(v@)),
        r is None ==> split_sig(bytes@) is None,
{
    let mut result: Vec<String> = Vec::new();
    let mut i: usize = 0;
    while i < bytes.len()
        invariant
            i <= bytes@.len(),
            split_sig(bytes@) == (match split_from(bytes@, i as int) {
                Some(rest) => Some(all_sbytes(result@) + rest),
                None => None::<Seq<Seq<u8>>>,
            }),
        decreases bytes@.len() - i,
    {
        match single_type_length(bytes, i) {
            None => return None,
            Some(c) => {
                proof {
                    lemma_type_len(bytes@, i as int);
                    lemma_type_len_valid(bytes@, i as int);
                }
                let slice = vstd::slice::slice_subrange(bytes, i, i + c);
                let tok = crate::text::string_from_utf8(slice);
                let ghost old_result = result@;
                result.push(tok);
                proof {
                    assert(all_sbytes(result@) =~= all_sbytes(old_result).push(bytes@.subrange(i as int, i + c)));
                    match split_from(bytes@, i + c) {
                        Some(rest) => {
                            assert(all_sbytes(old_result) + (seq![bytes@.subrange(i as int, i + c)] + rest)
                                =~= all_sbytes(result@) + rest);
                        },
                        None => {},
                    }
                }
                i = i + c;
            },
        }
    }
    proof {
        assert(all_sbytes(result@) + Seq::<Seq<u8>>::empty() =~= all_sbytes(result@));
    }
    Some(result)
}

fn sig_error(msg: &str) -> (e: LinbusError)
    ensures
        e is InvalidSignature,
{
    LinbusError::InvalidSignature(msg.to_owned())
}

/// Split a D-Bus type signature string into individual complete types.
/// e.g. "su" → ["s", "u"], "a{sv}" → ["a{sv}"], "(iiibiiay)" → ["(iiibiiay)"]
pub fn split_signature(sig: &str) -> (r: Result<Vec<String>, LinbusError>)
    ensures
        r matches Ok(v) ==> split_sig(encode_utf8(sig@)) == Some(all_sbytes(v@)),
        r matches Err(e) ==> split_sig(encode_utf8(sig@)) is None && e is InvalidSignature,
{
    match split_bytes(sig.as_bytes()) {
        Some(v) => Ok(v),
        None => Err(sig_error("malformed signature")),
    }
}

/// Returns the alignment requirement for a given signature type.
pub fn alignment_of(sig: &str) -> (r: usize)
    ensures
        r == align_of(encode_utf8(sig@)),
{
    let b = sig.as_bytes();
    alignment_of_bytes(b)
}

pub fn alignment_of_bytes(b: &[u8]) -> (r: usize)
    ensures
        r == align_of(b@),
{
    if b.len() == 0 {
        return 1;
    }
    let c = b[0];
    if c == C_BYTE {
        1
    } else if c == C_BOOL {
        4
    } else if c == C_I16 || c == C_U16 {
        2
    } else if c == C_I32 || c == C_U32 || c == C_FD {
        4
    } else if c == C_I64 || c == C_U64 || c == C_F64 {
        8
    } else if c == C_STRING || c == C_PATH {
        4
    } else if c == C_SIG {
        1
    } else if c == C_ARRAY {
        4
    } else if c == C_LPAREN {
        8
    } else if c == C_LBRACE {
        8
    } else {
        1
    }
}

/// Field types of a struct signature, given as bytes.
pub fn struct_fields_bytes(b: &[u8]) -> (r: Option<Vec<String>>)
    ensures
        r matches Some(v) ==> struct_fields(b@) == Some(all_sbytes(v@)),
        r is None ==> struct_fields(b@) is None,
{
    if b.len() >= 1 && b[0] == C_LPAREN && b[b.len() - 1] == C_RPAREN {
        let inner = vstd::slice::slice_subrange(b, 1, b.len() - 1);
        split_bytes(inner)
    } else {
        None
    }
}

/// Parse the struct fields inside a "(...)".
/// Input should include the parens: "(isu)"
pub fn parse_struct_fields(sig: &str) -> (r: Result<Vec<String>, LinbusError>)
    ensures
        r matches Ok(v) ==> struct_fields(encode_utf8(sig@)) == Some(all_sbytes(v@)),
        r matches Err(e) ==> struct_fields(encode_utf8(sig@)) is None && e is InvalidSignature,
{
    match struct_fields_bytes(sig.as_bytes()) {
        Some(v) => Ok(v),
        None => Err(sig_error("not a struct")),
    }
}

/// Key and value types of a dict entry signature, given as bytes.
pub fn dict_kv_bytes(b: &[u8]) -> (r: Option<(String, String)>)
    ensures
        r matches Some(p) ==> dict_kv(b@) == Some((sbytes(p.0), sbytes(p.1))),
        r is None ==> dict_kv(b@) is None,
{
    if b.len() >= 1 && b[0] == C_LBRACE && b[b.len() - 1] == C_RBRACE {
        let inner = vstd::slice::slice_subrange(b, 1, b.len() - 1);
        match split_bytes(inner) {
            Some(mut ts) => {
                if ts.len() == 2 {
                    let v = ts.pop().unwrap();
                    let k = ts.pop().unwrap();
                    Some((k, v))
                } else {
                    None
                }
            },
            None => None,
        }
    } else {
        None
    }
}

/// Parse dict entry key and value types from "{kv}".
pub fn parse_dict_key_value(sig: &str) -> (r: Result<(String, String), LinbusError>)
    ensures
        r matches Ok(p) ==> dict_kv(encode_utf8(sig@)) == Some((sbytes(p.0), sbytes(p.1))),
        r matches Err(e) ==> dict_kv(encode_utf8(sig@)) is None && e is InvalidSignature,
{
    match dict_kv_bytes(sig.as_bytes()) {
        Some(p) => Ok(p),
        None => Err(sig_error("not a dict entry with two types")),
    }
}

/// Element type of an array signature, given as bytes.
pub fn array_elem_bytes(b: &[u8]) -> (r: Option<String>)
    ensures
        r matches Some(s) ==> array_elem(b@) == Some(sbytes(s)),
        r is None ==> array_elem(b@) is None,
{
    if b.len() >= 2 && b[0] == C_ARRAY {
        let inner = vstd::slice::slice_subrange(b, 1, b.len());
        match split_bytes(inner) {
            Some(mut ts) => {
                if ts.len() == 1 {
                    ts.pop()
                } else {
                    None
                }
            },
            None => None,
        }
    } else {
        None
    }
}

/// Get the element signature of an array. "ai" → "i", "a{sv}" → "{sv}", "a(ii)" → "(ii)"
pub fn array_element_sig(sig: &str) -> (r: Result<String, LinbusError>)
    ensures
        r matches Ok(s) ==> array_elem(encode_utf8(sig@)) == Some(sbytes(s)),
        r matches Err(e) ==> array_elem(encode_utf8(sig@)) is None && e is InvalidSignature,
{
    match array_elem_bytes(sig.as_bytes()) {
        Some(s) => Ok(s),
        None => Err(sig_error("not an array with one element type")),
    }
}

} // verus!
