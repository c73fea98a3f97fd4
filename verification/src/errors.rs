use vstd::prelude::*;

verus! {

/// Everything that can go wrong while splitting a file.
///
/// The I/O variants are produced by the caller that performs the actual file
/// operations; the library itself only ever reports `InvalidPartitioning`.
#[derive(Clone, Copy, Debug, PartialEq, Eq, Structural)]
pub enum SplitError {
    /// The source file does not exist.
    SourceNotFound,
    /// The source file exists but could not be read.
    SourceUnreadable,
    /// The requested partitioning is degenerate: zero parts would be
    /// produced, or the source file is empty.
    InvalidPartitioning,
    /// A part file could not be written.
    PartWriteFailed,
    /// The metadata file could not be written.
    MetadataWriteFailed,
}

/// Everything that can go wrong while recombining part files.
///
/// The I/O variants are produced by the caller that performs the actual file
/// operations; the library itself reports `MetadataCorrupt`,
/// `PartChecksumMismatch` and `WholeFileChecksumMismatch`.
#[derive(Clone, Copy, Debug, PartialEq, Eq, Structural)]
pub enum CombineError {
    /// The metadata file does not exist.
    MetadataNotFound,
    /// The metadata file does not hold a well-formed serialized `SplitInfo`.
    MetadataCorrupt,
    /// The part file with the given index does not exist or could not be read.
    PartNotFound(usize),
    /// The part file with the given index does not match its recorded checksum.
    PartChecksumMismatch(usize),
    /// The concatenation of all parts does not match the recorded checksum of
    /// the whole file.
    WholeFileChecksumMismatch,
    /// The reconstructed file could not be written.
    OutputWriteFailed,
}

} // verus!
