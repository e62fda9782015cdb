use vstd::prelude::*;

pub mod bits;
pub mod blocks;
pub mod container;
pub mod generate;

verus! {

/// The two major versions of the display-management metadata format.
/// Each version admits a different set of extension-block levels.
#[derive(Clone, Copy, Debug, PartialEq, Eq, Structural)]
pub enum CmVersion {
    V29,
    V40,
}

/// Errors of the block codec and the generation pipeline.
#[derive(Clone, Copy, Debug, PartialEq, Eq, Structural)]
pub enum MetadataError {
    /// Structural violation while decoding: bad alignment padding, a length
    /// prefix that disagrees with the level's payload size, an unknown or
    /// illegal level, or a truncated stream.
    MalformedStream,
    /// A block whose level is outside the active version's allowed set was
    /// handed to a container.
    InvalidLevelForVersion,
    /// Generation was invoked with no way to derive the output frame count.
    MissingRequiredInput,
}

/// Which block levels a given format version may carry.
pub open spec fn spec_level_allowed(v: CmVersion, level: u8) -> bool {
    match v {
        CmVersion::V29 => level == 1 || level == 2 || level == 5 || level == 6,
        CmVersion::V40 => level == 1 || level == 2 || level == 3 || level == 5 || level == 6,
    }
}

/// Runtime check that a block level is legal for a format version.
pub fn level_allowed(v: CmVersion, level: u8) -> (r: bool)
    ensures
        r == spec_level_allowed(v, level),
{
    match v {
        CmVersion::V29 => level == 1 || level == 2 || level == 5 || level == 6,
        CmVersion::V40 => level == 1 || level == 2 || level == 3 || level == 5 || level == 6,
    }
}

} // verus!
