//! The error taxonomy shared by every decoder in the crate.

use vstd::prelude::*;

verus! {

/// Indicates a failure in decoding the ASE.
#[derive(Debug, Clone, Copy, PartialEq, Eq, Structural)]
pub enum ASEError {
    /// The byte source ended before a header field or a block could be
    /// read in full.
    Io,
    /// An error was encountered while parsing the ASE.
    ///
    /// This means that the input data did not conform to the ASE
    /// specification.
    Invalid(ConformationError),
    /// An error occurred due to an invalid color format.
    ///
    /// Valid color formats are: `CMYK`, `RGB `, `LAB ` and `Gray`.
    ColorFormat,
    /// An error occurred due to UTF-16 parsing issues.
    UTF16Error,
    /// An error occurred due to an invalid color type.
    ColorTypeError,
    /// An error occurred due to an invalid block type.
    BlockTypeError,
    /// An error occurred while parsing the input data.
    InputDataParseError,
}

/// Indicates the cause of the file being an invalid ASE.
#[derive(Debug, Clone, Copy, PartialEq, Eq, Structural)]
pub enum ConformationError {
    /// An invalid file version was detected.
    ///
    /// Currently only version `1.0` of the format exists.
    FileVersion,
    /// An invalid file signature was detected.
    ///
    /// The file signature must be `ASEF`.
    FileSignature,
    /// Groups must be terminated with a `GroupEnd` block.
    GroupEnd,
}

} // verus!
