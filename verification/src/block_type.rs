//! The wire-level tags that open and close the blocks of the stream.

use vstd::prelude::*;

use crate::error::ASEError;

verus! {

/// Block identifier.
#[derive(Debug, Clone, Copy, PartialEq, Eq, Structural)]
pub(crate) enum BlockType {
    /// Indicates the start of a group.
    GroupStart,
    /// Indicates the end of a group.
    GroupEnd,
    /// Indicates the start of a single color block.
    ColorEntry,
}

/// The tag a block type is stored as on disk.
pub(crate) open spec fn block_type_tag(t: BlockType) -> u16 {
    match t {
        BlockType::GroupStart => 0xc001,
        BlockType::GroupEnd => 0xc002,
        BlockType::ColorEntry => 0x0001,
    }
}

/// The block type a stored tag decodes to: `0x0001`, `0xc001` and
/// `0xc002` are the only valid tags.
pub(crate) open spec fn spec_block_type_from_tag(value: u16) -> Result<BlockType, ASEError> {
    if value == 0x0001 {
        Ok(BlockType::ColorEntry)
    } else if value == 0xc001 {
        Ok(BlockType::GroupStart)
    } else if value == 0xc002 {
        Ok(BlockType::GroupEnd)
    } else {
        Err(ASEError::BlockTypeError)
    }
}

impl BlockType {
    /// The tag this block type is stored as on disk.
    pub(crate) fn tag(&self) -> (r: u16)
        ensures
            r == block_type_tag(*self),
    {
        match self {
            BlockType::GroupStart => 0xc001,
            BlockType::GroupEnd => 0xc002,
            BlockType::ColorEntry => 0x0001,
        }
    }

    /// Decode a stored block tag; tags other than the three known
    /// values are rejected with `BlockTypeError`.
    pub(crate) fn try_from(value: u16) -> (r: Result<BlockType, ASEError>)
        ensures
            r == spec_block_type_from_tag(value),
    {
        match value {
            0x0001 => Ok(BlockType::ColorEntry),
            0xc001 => Ok(BlockType::GroupStart),
            0xc002 => Ok(BlockType::GroupEnd),
            _ => Err(ASEError::BlockTypeError),
        }
    }
}

} // verus!
