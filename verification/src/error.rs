//! The ways in which reading an archive can fail.

use vstd::prelude::*;

verus! {

/// Why an archive, or a read from one of its files, was refused.
#[derive(Clone, Copy, Debug, PartialEq, Eq, Structural)]
pub enum Error {
    /// The bytes asked for lie beyond the end of the archive or of the payload.
    Io,
    /// Bad magic, unsupported header size, or a file table that overlaps the header.
    HeaderInvalid,
    /// A table reference used the reserved index 0.
    IndexZero,
    /// A name entry whose kind is neither file nor directory.
    UnknownKind,
    /// A name entry reaches past the end of the directory that holds it.
    NameEntrySpanOverrun,
    /// The directory tree is nested deeper than the reader accepts.
    DepthExceeded,
    /// A directory is its own ancestor.
    DirectoryCycle,
    /// Bad magic or a block size out of range at the head of a blocked payload.
    ZlibHeaderInvalid,
    /// A packed block is larger than the payload's declared block size.
    BlockOverlarge,
    /// A seek to a position before the start or past the end of the content,
    /// or a block table that points past the end of its payload.
    SeekOutOfRange,
    /// A block could not be inflated, or inflated to the wrong number of bytes.
    InflateFailure,
}

} // verus!
