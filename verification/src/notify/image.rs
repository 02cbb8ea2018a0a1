//! The `image-data` hint of a notification: raw pixels as the struct
//! `(iiibiiay)` (width, height, rowstride, alpha, bits per sample,
//! channels, bytes).

use vstd::prelude::*;
use crate::linbus::value::{Value, VModel, model, models, lemma_models, i32_of, bool_of, u8_of, array_of, fields_of};

verus! {

broadcast use vstd::seq::group_seq_axioms;

/// Pixels ready for a texture.
pub struct ImageData {
    pub width: i32,
    pub height: i32,
    pub rowstride: i32,
    pub has_alpha: bool,
    pub data: Vec<u8>,
}

/// The bytes among the values, in order; others are skipped.
pub open spec fn bytes_of(es: Seq<VModel>) -> Seq<u8>
    decreases es.len(),
{
    if es.len() == 0 {
        Seq::empty()
    } else {
        let r = bytes_of(es.drop_last());
        match u8_of(es.last()) {
            Some(b) => r.push(b),
            None => r,
        }
    }
}

/// The image a hint value describes: `None` unless it is a struct of at
/// least seven fields of the expected types with a positive size and some
/// bytes.
pub open spec fn image_of(v: VModel) -> Option<(i32, i32, i32, bool, Seq<u8>)> {
    match fields_of(v) {
        None => None,
        Some(fs) => if fs.len() < 7 {
            None
        } else {
            match (i32_of(fs[0]), i32_of(fs[1]), i32_of(fs[2]), bool_of(fs[3]), i32_of(fs[4]), i32_of(fs[5]),
                array_of(fs[6])) {
                (Some(w), Some(h), Some(r), Some(a), Some(_), Some(_), Some(es)) => {
                    let data = bytes_of(es);
                    if w <= 0 || h <= 0 || data.len() == 0 { None } else { Some((w, h, r, a, data)) }
                },
                _ => None,
            }
        },
    }
}

pub open spec fn image_view(r: Option<ImageData>) -> Option<(i32, i32, i32, bool, Seq<u8>)> {
    match r {
        Some(i) => Some((i.width, i.height, i.rowstride, i.has_alpha, i.data@)),
        None => None,
    }
}

fn collect_bytes(es: &[Value]) -> (r: Vec<u8>)
    ensures
        r@ == bytes_of(models(es@)),
{
    proof { lemma_models(es@); }
    let mut out: Vec<u8> = Vec::new();
    let mut i: usize = 0;
    while i < es.len()
        invariant
            i <= es@.len(),
            models(es@).len() == es@.len(),
            forall|k: int| 0 <= k < es@.len() ==> #[trigger] models(es@)[k] == model(es@[k]),
            out@ == bytes_of(models(es@).take(i as int)),
        decreases es@.len() - i,
    {
        proof {
            assert(models(es@).take(i + 1).drop_last() =~= models(es@).take(i as int));
            assert(models(es@).take(i + 1).last() == model(es@[i as int]));
        }
        if let Some(b) = es[i].as_u8() {
            out.push(b);
        }
        i += 1;
    }
    proof { assert(models(es@).take(i as int) =~= models(es@)); }
    out
}

/// Reads the `image-data` hint.
pub fn image_data_of(value: &Value) -> (r: Option<ImageData>)
    ensures
        image_view(r) == image_of(value@),
{
    let fields = match value.as_struct_fields() {
        Some(f) => f,
        None => return None,
    };
    proof { lemma_models(fields@); }
    if fields.len() < 7 {
        return None;
    }
    let width = match fields[0].as_i32() {
        Some(x) => x,
        None => return None,
    };
    let height = match fields[1].as_i32() {
        Some(x) => x,
        None => return None,
    };
    let rowstride = match fields[2].as_i32() {
        Some(x) => x,
        None => return None,
    };
    let has_alpha = match fields[3].as_bool() {
        Some(x) => x,
        None => return None,
    };
    if fields[4].as_i32().is_none() || fields[5].as_i32().is_none() {
        return None;
    }
    let elems = match fields[6].as_array() {
        Some(e) => e,
        None => return None,
    };
    let data = collect_bytes(elems);
    if width <= 0 || height <= 0 || data.len() == 0 {
        return None;
    }
    Some(ImageData { width, height, rowstride, has_alpha, data })
}

} // verus!
