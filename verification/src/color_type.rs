//! The semantic role of a color within a document.

use vstd::prelude::*;

use crate::error::ASEError;

verus! {

/// Type of Color in the ASE file.
/// Specifies how the color behaves in a document.
#[derive(Debug, Clone, Copy, PartialEq, Eq, Structural)]
pub enum ColorType {
    /// Represents Global colors in ASE files.
    ///
    /// Essentially the same as Process colors, but with the property
    /// that changes to them reflect throughout the entire artwork.
    Global,
    /// Represents Spot colors in ASE files.
    ///
    /// Spot colors allow the creation of new swatches based on "tints",
    /// some screened value of that color. They are inherently global.
    Spot,
    /// Represents Process colors in ASE files.
    ///
    /// Process colors are standard colors, typically the default when
    /// defining a new color.
    Normal,
}

/// The numeric code a color type is stored as on disk.
pub open spec fn color_type_code(t: ColorType) -> u16 {
    match t {
        ColorType::Global => 0,
        ColorType::Spot => 1,
        ColorType::Normal => 2,
    }
}

/// The color type a stored byte decodes to: `0`, `1` and `2` are the
/// only valid codes.
pub open spec fn spec_color_type_from_byte(value: u8) -> Result<ColorType, ASEError> {
    if value == 0 {
        Ok(ColorType::Global)
    } else if value == 1 {
        Ok(ColorType::Spot)
    } else if value == 2 {
        Ok(ColorType::Normal)
    } else {
        Err(ASEError::ColorTypeError)
    }
}

impl Default for ColorType {
    /// Process color is the default, as in the tools that write the
    /// format.
    fn default() -> (r: Self)
        ensures
            r == ColorType::Normal,
    {
        ColorType::Normal
    }
}

impl ColorType {
    /// The numeric code this color type is stored as on disk.
    pub fn code(&self) -> (r: u16)
        ensures
            r == color_type_code(*self),
    {
        match self {
            ColorType::Global => 0,
            ColorType::Spot => 1,
            ColorType::Normal => 2,
        }
    }

    /// Decode a stored color-type byte; codes other than `0`, `1` and
    /// `2` are rejected with `ColorTypeError`.
    pub fn try_from(value: u8) -> (r: Result<ColorType, ASEError>)
        ensures
            r == spec_color_type_from_byte(value),
    {
        match value {
            0 => Ok(ColorType::Global),
            1 => Ok(ColorType::Spot),
            2 => Ok(ColorType::Normal),
            _ => Err(ASEError::ColorTypeError),
        }
    }
}

} // verus!
