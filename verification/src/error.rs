//! The error values surfaced by the library.
use vstd::prelude::*;

verus! {

/// What can go wrong while reading or writing an archive.
#[derive(Debug, Clone, Copy, PartialEq, Eq, Structural)]
pub enum PmtError {
    /// An underlying read, write or seek failed.
    Io,
    /// The input bytes do not form a valid archive: bad magic, wrong
    /// specification version, unknown enum tag, corrupt varint or a
    /// malformed offset column.
    Malformed,
    /// `Compression::Unknown` reached a compression or decompression call.
    UnsupportedCompression,
    /// A tile stored as an offset reference was fetched while no source
    /// reader is attached.
    MissingReader,
    /// The root directory cannot be made to fit its size budget.
    RootDirOverflow,
}

} // verus!
