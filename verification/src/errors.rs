//! What the library reports when it refuses an input.

use vstd::prelude::*;

verus! {

/// Why a sequence of retention policies, or of their specifications in text, is
/// not a schema. The archives are examined in order, and the first fault found
/// is the one reported.
#[derive(Clone, Copy, Debug, PartialEq, Eq, Structural)]
pub enum SchemaError {
    /// There is no archive at all.
    Empty,
    /// An archive has a precision of zero seconds.
    ZeroPrecision,
    /// An archive holds no point.
    ZeroPoints,
    /// An archive's retention, precision times points, does not fit in 32 bits.
    RetentionTooLong,
    /// An archive's precision is not greater than that of the archive before it.
    PrecisionNotIncreasing,
    /// An archive's precision is not a multiple of that of the archive before it.
    PrecisionNotMultiple,
    /// An archive's retention is not greater than that of the archive before it.
    RetentionNotIncreasing,
    /// The file would end beyond what a 32-bit offset can address.
    TooLarge,
    /// A retention specification is not of the form `<number><unit>:<number><unit>`.
    BadSpec,
    /// A retention specification names a duration that does not fit in 32 bits.
    DurationTooLong,
}

/// Why bytes are refused as the image of a file.
#[derive(Clone, Copy, Debug, PartialEq, Eq, Structural)]
pub enum HeaderError {
    /// The bytes end before the header does.
    Truncated,
    /// The header breaks a rule of the format: an aggregation method that does not
    /// exist, a factor that is not between zero and one, archives that do not form
    /// a schema or do not lie where the layout puts them, or a maximum retention
    /// that is not that of the coarsest archive.
    Malformed,
    /// The bytes end before the last archive does.
    ShortFile,
}

/// Why a point was not written.
#[derive(Clone, Copy, Debug, PartialEq, Eq, Structural)]
pub enum WriteError {
    /// The point is older than what the finest archive retains. Nothing was written.
    PointTooOld,
    /// An aggregate was offered to an archive that takes none: the finest one, or
    /// one that the file does not have. Nothing was written.
    NoSuchArchive,
}

} // verus!
