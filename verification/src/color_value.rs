//! Color data: the four color-space payloads and their 4-byte tags.

use vstd::prelude::*;

use crate::buffer::Buffer;
use crate::endian::{be32, u32_at};
use crate::error::ASEError;

verus! {

/// Color data.
///
/// Each channel holds the IEEE-754 bit pattern of the 32-bit float
/// stored on disk, so a value carries exactly what the wire format
/// carries.  For `Lab`, the on-disk first channel is the logical
/// lightness scaled by 1/100: a caller working in the logical range
/// `[0, 100]` divides by 100 before building the value and multiplies
/// by 100 after reading it back.
#[derive(Debug, Clone, Copy, PartialEq, Eq, Structural)]
pub enum ColorValue {
    Cmyk(u32, u32, u32, u32),
    Rgb(u32, u32, u32),
    Lab(u32, u32, u32),
    Gray(u32),
}

/// The 4-byte ASCII tag a color value is stored under: `"CMYK"`,
/// `"RGB "`, `"LAB "` or `"Gray"`.
pub open spec fn spec_color_tag(v: ColorValue) -> Seq<u8> {
    match v {
        ColorValue::Cmyk(_, _, _, _) => seq![67u8, 77u8, 89u8, 75u8],
        ColorValue::Rgb(_, _, _) => seq![82u8, 71u8, 66u8, 32u8],
        ColorValue::Lab(_, _, _) => seq![76u8, 65u8, 66u8, 32u8],
        ColorValue::Gray(_) => seq![71u8, 114u8, 97u8, 121u8],
    }
}

/// The channel payload of a color value: each channel as four
/// big-endian bytes, in declaration order.
pub open spec fn spec_color_payload(v: ColorValue) -> Seq<u8> {
    match v {
        ColorValue::Cmyk(c, m, y, k) => be32(c) + be32(m) + be32(y) + be32(k),
        ColorValue::Rgb(r, g, b) => be32(r) + be32(g) + be32(b),
        ColorValue::Lab(l, a, b) => be32(l) + be32(a) + be32(b),
        ColorValue::Gray(g) => be32(g),
    }
}

/// The payload length of a color value in bytes (the tag counted
/// separately by the caller).
pub open spec fn spec_color_payload_len(v: ColorValue) -> u32 {
    match v {
        ColorValue::Cmyk(_, _, _, _) => 16,
        ColorValue::Rgb(_, _, _) => 12,
        ColorValue::Lab(_, _, _) => 12,
        ColorValue::Gray(_) => 4,
    }
}

/// Tag and payload together: the full wire form of a color value.
pub open spec fn spec_color_bytes(v: ColorValue) -> Seq<u8> {
    spec_color_tag(v) + spec_color_payload(v)
}

/// The color value read from the head of `bytes`: the 4-byte tag picks
/// the variant, whose channels follow; an unknown tag is a
/// `ColorFormat` error, a payload cut short an `InputDataParseError`.
/// Bytes past the payload are ignored.
pub open spec fn spec_parse_color_value(bytes: Seq<u8>) -> Result<ColorValue, ASEError> {
    if bytes.len() < 4 {
        Err(ASEError::InputDataParseError)
    } else if bytes.subrange(0, 4) == seq![67u8, 77u8, 89u8, 75u8] {
        if bytes.len() >= 20 {
            Ok(
                ColorValue::Cmyk(
                    u32_at(bytes, 4),
                    u32_at(bytes, 8),
                    u32_at(bytes, 12),
                    u32_at(bytes, 16),
                ),
            )
        } else {
            Err(ASEError::InputDataParseError)
        }
    } else if bytes.subrange(0, 4) == seq![82u8, 71u8, 66u8, 32u8] {
        if bytes.len() >= 16 {
            Ok(ColorValue::Rgb(u32_at(bytes, 4), u32_at(bytes, 8), u32_at(bytes, 12)))
        } else {
            Err(ASEError::InputDataParseError)
        }
    } else if bytes.subrange(0, 4) == seq![76u8, 65u8, 66u8, 32u8] {
        if bytes.len() >= 16 {
            Ok(ColorValue::Lab(u32_at(bytes, 4), u32_at(bytes, 8), u32_at(bytes, 12)))
        } else {
            Err(ASEError::InputDataParseError)
        }
    } else if bytes.subrange(0, 4) == seq![71u8, 114u8, 97u8, 121u8] {
        if bytes.len() >= 8 {
            Ok(ColorValue::Gray(u32_at(bytes, 4)))
        } else {
            Err(ASEError::InputDataParseError)
        }
    } else {
        Err(ASEError::ColorFormat)
    }
}

/// A color's payload takes exactly the bytes its length arithmetic
/// declares.
pub proof fn lemma_color_payload_len(v: ColorValue)
    ensures
        spec_color_payload(v).len() == spec_color_payload_len(v),
        spec_color_payload_len(v) >= 4,
{
}

impl ColorValue {
    /// Returns the color type identifier: the 4-byte ASCII tag.
    pub fn get_type(&self) -> (r: Vec<u8>)
        ensures
            r@ == spec_color_tag(*self),
    {
        let r = match self {
            ColorValue::Cmyk(_, _, _, _) => vec![67u8, 77u8, 89u8, 75u8],
            ColorValue::Rgb(_, _, _) => vec![82u8, 71u8, 66u8, 32u8],
            ColorValue::Lab(_, _, _) => vec![76u8, 65u8, 66u8, 32u8],
            ColorValue::Gray(_) => vec![71u8, 114u8, 97u8, 121u8],
        };
        proof {
            assert(r@ =~= spec_color_tag(*self));
        }
        r
    }

    /// Write the channel payload to the given [`Buffer`].
    pub fn write_values(self, buf: &mut Buffer)
        ensures
            final(buf)@ == old(buf)@ + spec_color_payload(self),
    {
        match self {
            ColorValue::Cmyk(c, m, y, k) => {
                buf.write_u32(c);
                buf.write_u32(m);
                buf.write_u32(y);
                buf.write_u32(k);
            },
            ColorValue::Rgb(r, g, b) => {
                buf.write_u32(r);
                buf.write_u32(g);
                buf.write_u32(b);
            },
            ColorValue::Lab(l, a, b) => {
                buf.write_u32(l);
                buf.write_u32(a);
                buf.write_u32(b);
            },
            ColorValue::Gray(value) => buf.write_u32(value),
        }
        proof {
            assert(final(buf)@ =~= old(buf)@ + spec_color_payload(self));
        }
    }

    /// Calculate the payload length of the color.
    ///
    /// The length is the number of channels times 4, as each channel
    /// takes 4 bytes.
    pub fn calculate_length(&self) -> (r: u32)
        ensures
            r == spec_color_payload_len(*self),
    {
        match self {
            ColorValue::Cmyk(_, _, _, _) => 16,
            ColorValue::Rgb(_, _, _) => 12,
            ColorValue::Lab(_, _, _) => 12,
            ColorValue::Gray(_) => 4,
        }
    }

    /// Parse a color value from the head of `value`; trailing bytes are
    /// ignored.
    pub fn try_from(value: &[u8]) -> (r: Result<ColorValue, ASEError>)
        ensures
            r == spec_parse_color_value(value@),
    {
        let n = value.len();
        if n < 4 {
            return Err(ASEError::InputDataParseError);
        }
        let b0 = *vstd::slice::slice_index_get(value, 0);
        let b1 = *vstd::slice::slice_index_get(value, 1);
        let b2 = *vstd::slice::slice_index_get(value, 2);
        let b3 = *vstd::slice::slice_index_get(value, 3);
        proof {
            assert(value@.subrange(0, 4) =~= seq![b0, b1, b2, b3]);
        }
        if b0 == 67 && b1 == 77 && b2 == 89 && b3 == 75 {
            if n >= 20 {
                let cyan = crate::endian::read_u32_be(value, 4);
                let magenta = crate::endian::read_u32_be(value, 8);
                let yellow = crate::endian::read_u32_be(value, 12);
                let black = crate::endian::read_u32_be(value, 16);
                Ok(ColorValue::Cmyk(cyan, magenta, yellow, black))
            } else {
                Err(ASEError::InputDataParseError)
            }
        } else if b0 == 82 && b1 == 71 && b2 == 66 && b3 == 32 {
            if n >= 16 {
                let red = crate::endian::read_u32_be(value, 4);
                let green = crate::endian::read_u32_be(value, 8);
                let blue = crate::endian::read_u32_be(value, 12);
                Ok(ColorValue::Rgb(red, green, blue))
            } else {
                Err(ASEError::InputDataParseError)
            }
        } else if b0 == 76 && b1 == 65 && b2 == 66 && b3 == 32 {
            if n >= 16 {
                let l = crate::endian::read_u32_be(value, 4);
                let a = crate::endian::read_u32_be(value, 8);
                let b = crate::endian::read_u32_be(value, 12);
                Ok(ColorValue::Lab(l, a, b))
            } else {
                Err(ASEError::InputDataParseError)
            }
        } else if b0 == 71 && b1 == 114 && b2 == 97 && b3 == 121 {
            if n >= 8 {
                Ok(ColorValue::Gray(crate::endian::read_u32_be(value, 4)))
            } else {
                Err(ASEError::InputDataParseError)
            }
        } else {
            Err(ASEError::ColorFormat)
        }
    }
}

} // verus!
