//! Big-endian views of `u16` and `u32` values, as the ASE wire format
//! stores every integer field.

use vstd::prelude::*;

verus! {

/// The `u16` whose big-endian bytes are `hi`, `lo`.
pub open spec fn u16_be(hi: u8, lo: u8) -> u16 {
    (hi as int * 256 + lo as int) as u16
}

/// The `u32` whose big-endian bytes are `b0`, `b1`, `b2`, `b3`.
pub open spec fn u32_be(b0: u8, b1: u8, b2: u8, b3: u8) -> u32 {
    (b0 as int * 0x1000000 + b1 as int * 0x10000 + b2 as int * 256 + b3 as int) as u32
}

/// The two big-endian bytes of `v`.
pub open spec fn be16(v: u16) -> Seq<u8> {
    seq![(v / 256) as u8, (v % 256) as u8]
}

/// The four big-endian bytes of `v`.
pub open spec fn be32(v: u32) -> Seq<u8> {
    seq![
        (v / 0x1000000) as u8,
        ((v / 0x10000) % 256) as u8,
        ((v / 256) % 256) as u8,
        (v % 256) as u8,
    ]
}

/// The big-endian `u16` standing at offset `off` of `bytes`.
pub open spec fn u16_at(bytes: Seq<u8>, off: int) -> u16 {
    u16_be(bytes[off], bytes[off + 1])
}

/// The big-endian `u32` standing at offset `off` of `bytes`.
pub open spec fn u32_at(bytes: Seq<u8>, off: int) -> u32 {
    u32_be(bytes[off], bytes[off + 1], bytes[off + 2], bytes[off + 3])
}

/// Reading the two bytes written by `be16` gives the value back.
pub proof fn lemma_be16_round_trip(v: u16)
    ensures
        u16_be(be16(v)[0], be16(v)[1]) == v,
{
}

/// Reading the four bytes written by `be32` gives the value back.
pub proof fn lemma_be32_round_trip(v: u32)
    ensures
        u32_be(be32(v)[0], be32(v)[1], be32(v)[2], be32(v)[3]) == v,
{
}

/// Read a big-endian `u16` at offset `off`.
pub fn read_u16_be(bytes: &[u8], off: usize) -> (r: u16)
    requires
        off + 2 <= bytes@.len(),
    ensures
        r == u16_be(bytes@[off as int], bytes@[off as int + 1]),
{
    proof {
        assert(vstd::slice::spec_slice_len(bytes) == bytes@.len());
    }
    let hi = *vstd::slice::slice_index_get(bytes, off);
    let lo = *vstd::slice::slice_index_get(bytes, off + 1);
    (hi as u16) * 256 + lo as u16
}

/// Read a big-endian `u32` at offset `off`.
pub fn read_u32_be(bytes: &[u8], off: usize) -> (r: u32)
    requires
        off + 4 <= bytes@.len(),
    ensures
        r == u32_be(
            bytes@[off as int],
            bytes@[off as int + 1],
            bytes@[off as int + 2],
            bytes@[off as int + 3],
        ),
{
    proof {
        assert(vstd::slice::spec_slice_len(bytes) == bytes@.len());
    }
    let b0 = *vstd::slice::slice_index_get(bytes, off);
    let b1 = *vstd::slice::slice_index_get(bytes, off + 1);
    let b2 = *vstd::slice::slice_index_get(bytes, off + 2);
    let b3 = *vstd::slice::slice_index_get(bytes, off + 3);
    (b0 as u32) * 0x1000000 + (b1 as u32) * 0x10000 + (b2 as u32) * 256 + b3 as u32
}

} // verus!
