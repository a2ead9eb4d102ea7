//! The scalar byte codec: an affine map from the fixed-point component
//! range onto one byte and back.
//!
//! Plainly: a collection configured for quantization stores the encoded
//! copy beside every raw vector, and nothing else. The copies use fixed
//! parameters spanning the whole component range — there is no calibration
//! window — and no search or re-ranking path ever reads them; every score
//! is computed from the raw components. The copies are inert data that a
//! caller can read back through the store; they never affect results.

use vstd::prelude::*;
use crate::config::COMP_LIMIT;

verus! {

/// The codec's step: the component range `[-COMP_LIMIT, COMP_LIMIT]`
/// spread over the byte values `0 ..= 254`.
pub const QUANT_STEP: i32 = 257;

/// The byte a component encodes to.
pub open spec fn encode_comp(x: int) -> int {
    (x + COMP_LIMIT) / (QUANT_STEP as int)
}

/// The component a byte decodes to: the midpoint of its cell.
pub open spec fn decode_comp(q: int) -> int {
    q * (QUANT_STEP as int) + 128 - COMP_LIMIT
}

/// Law: the codec's round trip moves a component by at most half a step,
/// and stays within the component range.
pub proof fn lemma_codec_roundtrip(x: int)
    requires
        -COMP_LIMIT <= x <= COMP_LIMIT,
    ensures
        -128 <= decode_comp(encode_comp(x)) - x <= 128,
        -COMP_LIMIT <= decode_comp(encode_comp(x)) <= COMP_LIMIT,
{
    let y = x + COMP_LIMIT;
    let q = y / 257;
    let r = y % 257;
    assert(y == 257 * q + r && 0 <= r < 257);
    assert(decode_comp(q) - x == 128 - r);
    assert(0 <= q <= 254);
}

/// Encodes every component of a vector.
pub fn encode_vector(v: &Vec<i32>) -> (r: Vec<u8>)
    requires
        crate::metric::bounded(v@, COMP_LIMIT as int),
    ensures
        r@.len() == v@.len(),
        forall|k: int| 0 <= k < v@.len() ==> (#[trigger] r@[k]) as int == encode_comp(v@[k] as int),
{
    let mut r: Vec<u8> = Vec::new();
    let mut i: usize = 0;
    while i < v.len()
        invariant
            0 <= i <= v@.len(),
            r@.len() == i,
            crate::metric::bounded(v@, COMP_LIMIT as int),
            forall|k: int| 0 <= k < i ==> (#[trigger] r@[k]) as int == encode_comp(v@[k] as int),
        decreases v@.len() - i,
    {
        let x = v[i];
        proof {
            assert(-COMP_LIMIT <= v@[i as int] <= COMP_LIMIT);
            let y = (x + COMP_LIMIT) as int;
            assert(0 <= y / 257 <= 254);
        }
        let q: u8 = ((x + COMP_LIMIT) / QUANT_STEP) as u8;
        r.push(q);
        i = i + 1;
    }
    r
}

/// Decodes every byte of a quantized copy.
pub fn decode_vector(q: &Vec<u8>) -> (r: Vec<i32>)
    requires
        forall|k: int| 0 <= k < q@.len() ==> (#[trigger] q@[k]) <= 254,
    ensures
        r@.len() == q@.len(),
        forall|k: int| 0 <= k < q@.len() ==> (#[trigger] r@[k]) as int == decode_comp(q@[k] as int),
{
    let mut r: Vec<i32> = Vec::new();
    let mut i: usize = 0;
    while i < q.len()
        invariant
            0 <= i <= q@.len(),
            r@.len() == i,
            forall|k: int| 0 <= k < q@.len() ==> (#[trigger] q@[k]) <= 254,
            forall|k: int| 0 <= k < i ==> (#[trigger] r@[k]) as int == decode_comp(q@[k] as int),
        decreases q@.len() - i,
    {
        let b = q[i];
        let x: i32 = (b as i32) * QUANT_STEP + 128 - COMP_LIMIT;
        r.push(x);
        i = i + 1;
    }
    r
}

} // verus!
