//! A single named color entry and its wire form.

use vstd::prelude::*;

use crate::block_type::BlockType;
use crate::buffer::Buffer;
use crate::color_type::{color_type_code, spec_color_type_from_byte, ColorType};
use crate::color_value::{
    spec_color_bytes, spec_color_payload_len, spec_parse_color_value, ColorValue,
};
use crate::endian::{be16, be32};
use crate::error::ASEError;
use crate::names::{name_wf, parse_name, spec_name_field_bytes, spec_parse_name};
use crate::utf16::{utf16_unit_count, utf16_units};

verus! {

/// A single color with an associated name.
#[derive(Debug, Clone, PartialEq)]
pub struct ColorBlock {
    /// The name associated with the color.
    pub name: String,
    /// The specific color value of the block.
    pub color: ColorValue,
    /// The type of color.
    pub color_type: ColorType,
}

/// The mathematical content of a [`ColorBlock`]: its name as a
/// character sequence, its color and its color type.
pub ghost struct ColorBlockView {
    pub name: Seq<char>,
    pub color: ColorValue,
    pub color_type: ColorType,
}

impl View for ColorBlock {
    type V = ColorBlockView;

    open spec fn view(&self) -> ColorBlockView {
        ColorBlockView { name: self.name@, color: self.color, color_type: self.color_type }
    }
}

impl DeepView for ColorBlock {
    type V = ColorBlockView;

    open spec fn deep_view(&self) -> ColorBlockView {
        self.view()
    }
}

/// A color block fits its wire form: its name does.
pub open spec fn block_wf(b: ColorBlockView) -> bool {
    name_wf(b.name)
}

/// The length of a color block's body: name length field, name units
/// with terminator, color tag, color payload, color type.
pub open spec fn spec_block_len(b: ColorBlockView) -> int {
    2 + 2 * utf16_units(b.name).len() + 2 + 4 + spec_color_payload_len(b.color) + 2
}

/// The body of a color block: what its length field counts.
pub open spec fn spec_block_body(b: ColorBlockView) -> Seq<u8> {
    spec_name_field_bytes(b.name) + spec_color_bytes(b.color) + be16(color_type_code(b.color_type))
}

/// The full wire form of a color block: tag, length field, body.
pub open spec fn spec_block_bytes(b: ColorBlockView) -> Seq<u8> {
    be16(0x0001) + be32(spec_block_len(b) as u32) + spec_block_body(b)
}

/// A block's length field counts exactly its body bytes.
pub proof fn lemma_block_body_len(b: ColorBlockView)
    ensures
        spec_block_body(b).len() == spec_block_len(b),
{
    crate::utf16::lemma_units_bytes_len(utf16_units(b.name));
}

/// The color block read from the head of `bytes`: a name field, a
/// color value, then — one byte past the color payload — the color
/// type byte.  Bytes past the color type are ignored.
pub open spec fn spec_parse_color_block(bytes: Seq<u8>) -> Result<ColorBlockView, ASEError> {
    match spec_parse_name(bytes) {
        Err(e) => Err(e),
        Ok((name, cvs)) => {
            if cvs > bytes.len() {
                Err(ASEError::InputDataParseError)
            } else {
                match spec_parse_color_value(bytes.subrange(cvs, bytes.len() as int)) {
                    Err(e) => Err(e),
                    Ok(color) => {
                        let cts = cvs + spec_color_payload_len(color) + 4;
                        if cts + 1 >= bytes.len() {
                            Err(ASEError::InputDataParseError)
                        } else {
                            match spec_color_type_from_byte(bytes[cts + 1]) {
                                Err(e) => Err(e),
                                Ok(color_type) => Ok(
                                    ColorBlockView { name, color, color_type },
                                ),
                            }
                        }
                    },
                }
            }
        },
    }
}

impl ColorBlock {
    /// Creates a new `ColorBlock` with the given name, color and color
    /// type.
    pub fn new(name: String, color: ColorValue, color_type: ColorType) -> (r: Self)
        ensures
            r@ == (ColorBlockView { name: name@, color, color_type }),
    {
        Self { name, color, color_type }
    }

    /// Calculate the length of a color block.
    ///
    /// The length counts the following layout:
    ///  - name length field (2)
    ///  - name as UTF-16 units plus null terminator (2 each)
    ///  - color tag (4)
    ///  - color payload (4/12/16)
    ///  - color type (2)
    pub fn calculate_length(&self) -> (r: u32)
        requires
            block_wf(self@),
        ensures
            r == spec_block_len(self@),
    {
        let units = utf16_unit_count(self.name.as_str());
        2 + (units as u32) * 2 + 2 + 4 + self.color.calculate_length() + 2
    }

    /// Write the block to the given [`Buffer`].
    pub fn write(self, buf: &mut Buffer)
        requires
            block_wf(self@),
        ensures
            final(buf)@ == old(buf)@ + spec_block_bytes(self@),
    {
        buf.write_u16(BlockType::ColorEntry.tag());
        buf.write_u32(self.calculate_length());
        // name length, +1 for null terminator
        let units = utf16_unit_count(self.name.as_str());
        buf.write_u16((units + 1) as u16);
        buf.write_null_terminated_utf_16_str(self.name.as_str());

        // write color
        let tag = self.color.get_type();
        buf.write_slice(tag.as_slice());
        self.color.write_values(buf);
        buf.write_u16(self.color_type.code());
        proof {
            assert(final(buf)@ =~= old(buf)@ + spec_block_bytes(self@));
        }
    }

    /// Parses a [`ColorBlock`] from the head of `bytes`; trailing bytes
    /// are ignored.
    ///
    /// # Errors
    /// This function will return an error if parsing fails.
    pub fn parse(bytes: &[u8]) -> (r: Result<Self, ASEError>)
        ensures
            match r {
                Ok(b) => spec_parse_color_block(bytes@) == Ok::<_, ASEError>(b@),
                Err(e) => spec_parse_color_block(bytes@) == Err::<ColorBlockView, _>(e),
            },
    {
        let n = bytes.len();
        let (name, cvs) = match parse_name(bytes) {
            Ok(p) => p,
            Err(e) => {
                return Err(e);
            },
        };
        if cvs > n {
            return Err(ASEError::InputDataParseError);
        }
        let rest = vstd::slice::slice_subrange(bytes, cvs, n);
        let color = match ColorValue::try_from(rest) {
            Ok(c) => c,
            Err(e) => {
                return Err(e);
            },
        };
        let payload = color.calculate_length() as usize;
        if n - cvs < payload + 6 {
            return Err(ASEError::InputDataParseError);
        }
        let type_byte = *vstd::slice::slice_index_get(bytes, cvs + payload + 5);
        let color_type = match ColorType::try_from(type_byte) {
            Ok(t) => t,
            Err(e) => {
                return Err(e);
            },
        };
        Ok(Self::new(name, color, color_type))
    }
}

} // verus!
