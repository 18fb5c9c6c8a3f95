//! An append-only byte sink with typed big-endian write operations.

use vstd::prelude::*;
use vstd::string::StrSliceExecFns;

use crate::endian::{be16, be32};
use crate::utf16::{
    lemma_utf16_units_push, lemma_units_bytes_concat, lemma_units_bytes_push, units_bytes,
    utf16_units, utf16_units_of_char,
};

verus! {

/// Represents an infinite buffer designed to hold individual bytes
/// ([`u8`]).
///
/// It provides methods for easily writing other data types as bytes.
/// All bytes are written in big-endian byte order.
#[derive(Debug, Clone)]
pub struct Buffer {
    data: Vec<u8>,
}

impl View for Buffer {
    type V = Seq<u8>;

    closed spec fn view(&self) -> Seq<u8> {
        self.data@
    }
}

impl Buffer {
    /// Create a new empty Buffer with the specified capacity.
    pub fn with_capacity(capacity: usize) -> (r: Self)
        ensures
            r@ == Seq::<u8>::empty(),
    {
        Self { data: Vec::with_capacity(capacity) }
    }

    /// Write the slice to self.
    pub fn write_slice(&mut self, src: &[u8])
        ensures
            final(self)@ == old(self)@ + src@,
    {
        self.data.extend_from_slice(src);
    }

    /// Write the big-endian bytes of a [`u32`] to self.
    pub fn write_u32(&mut self, n: u32)
        ensures
            final(self)@ == old(self)@ + be32(n),
    {
        self.data.push((n / 0x1000000) as u8);
        self.data.push(((n / 0x10000) % 256) as u8);
        self.data.push(((n / 256) % 256) as u8);
        self.data.push((n % 256) as u8);
        proof {
            assert(final(self)@ =~= old(self)@ + be32(n));
        }
    }

    /// Write the big-endian bytes of a [`u16`] to self.
    pub fn write_u16(&mut self, n: u16)
        ensures
            final(self)@ == old(self)@ + be16(n),
    {
        self.data.push((n / 256) as u8);
        self.data.push((n % 256) as u8);
        proof {
            assert(final(self)@ =~= old(self)@ + be16(n));
        }
    }

    /// Write a null terminated UTF-16 string to self: the big-endian
    /// code units of `src`, then one zero unit.
    pub fn write_null_terminated_utf_16_str(&mut self, src: &str)
        ensures
            final(self)@ == old(self)@ + units_bytes(utf16_units(src@)) + seq![0u8, 0u8],
    {
        let len = src.unicode_len();
        let mut i: usize = 0;
        while i < len
            invariant
                i <= len,
                len == src@.len(),
                self@ == old(self)@ + units_bytes(utf16_units(src@.subrange(0, i as int))),
            decreases len - i,
        {
            let c = src.get_char(i);
            let ghost prefix = src@.subrange(0, i as int);
            let v = c as u32;
            if v < 0x10000 {
                self.write_u16(v as u16);
            } else {
                let x = v - 0x10000;
                self.write_u16((0xd800 + x / 0x400) as u16);
                self.write_u16((0xdc00 + x % 0x400) as u16);
            }
            proof {
                assert(src@.subrange(0, i + 1) =~= prefix.push(c));
                lemma_utf16_units_push(prefix, c);
                lemma_units_bytes_concat(utf16_units(prefix), utf16_units_of_char(c));
                if (c as int) < 0x10000 {
                    assert(utf16_units_of_char(c) =~= seq![v as u16]);
                    lemma_units_bytes_push(Seq::<u16>::empty(), v as u16);
                    assert(Seq::<u16>::empty().push(v as u16) =~= utf16_units_of_char(c));
                    assert(units_bytes(Seq::<u16>::empty()) =~= Seq::<u8>::empty());
                    assert(units_bytes(utf16_units_of_char(c)) =~= be16(v as u16));
                } else {
                    let u0 = (0xd800 + (v - 0x10000) / 0x400) as u16;
                    let u1 = (0xdc00 + (v - 0x10000) % 0x400) as u16;
                    assert(utf16_units_of_char(c) =~= seq![u0].push(u1));
                    lemma_units_bytes_push(seq![u0], u1);
                    lemma_units_bytes_push(Seq::<u16>::empty(), u0);
                    assert(Seq::<u16>::empty().push(u0) =~= seq![u0]);
                    assert(units_bytes(Seq::<u16>::empty()) =~= Seq::<u8>::empty());
                    assert(units_bytes(utf16_units_of_char(c)) =~= be16(u0) + be16(u1));
                }
                assert(self@ =~= old(self)@ + units_bytes(utf16_units(src@.subrange(0, i + 1))));
            }
            i += 1;
        }
        proof {
            assert(src@.subrange(0, len as int) =~= src@);
        }
        self.write_u16(0);
        proof {
            assert(be16(0) =~= seq![0u8, 0u8]);
            assert(final(self)@ =~= old(self)@ + units_bytes(utf16_units(src@)) + seq![0u8, 0u8]);
        }
    }

    /// Returns the written buffer as a [`Vec<u8>`] of bytes.
    pub fn into_vec(self) -> (r: Vec<u8>)
        ensures
            r@ == self@,
    {
        self.data
    }
}

} // verus!
