//! Decoding of an index-extension header.
use vstd::prelude::*;

verus! {

/// The four-byte tag that names an index extension.
pub type Signature = [u8; 4];

/// The big-endian value of four bytes.
pub open spec fn spec_u32_be(b0: u8, b1: u8, b2: u8, b3: u8) -> u32 {
    (b0 * 0x1000000 + b1 * 0x10000 + b2 * 0x100 + b3) as u32
}

/// Split extension `data` into its signature, the size of its payload, and
/// the bytes that follow the eight header bytes.
pub fn header(data: &[u8]) -> (r: (Signature, u32, &[u8]))
    requires
        data@.len() >= 8,
    ensures
        r.0@ == data@.subrange(0, 4),
        r.1 == spec_u32_be(data@[4], data@[5], data@[6], data@[7]),
        r.2@ == data@.subrange(8, data@.len() as int),
{
    let signature: Signature = [data[0], data[1], data[2], data[3]];
    let size: u32 = (data[4] as u32) * 0x1000000 + (data[5] as u32) * 0x10000 + (data[6] as u32)
        * 0x100 + (data[7] as u32);
    let rest = vstd::slice::slice_subrange(data, 8, data.len());
    proof {
        assert(signature@ =~= data@.subrange(0, 4));
    }
    (signature, size, rest)
}

} // verus!
