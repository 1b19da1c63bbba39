use vstd::prelude::*;

verus! {

/// The error kinds the storage engine raises.
#[derive(Clone, Copy, Debug, PartialEq, Eq, Structural)]
pub enum ErrorKind {
    /// An index read past its populated range, or a streaming read that
    /// exhausted a segment.
    EndOfData,
    /// A random read at an offset that no segment covers.
    OffsetOutOfRange,
    /// A directory entry whose name does not parse to a base offset.
    ParseError,
    /// An empty segment list where the list should have content.
    CorruptLog,
    /// An underlying resource failure (for this in-memory core: a size
    /// that cannot be addressed on this machine).
    IoError,
    /// A record deframing failure.
    DecodeError,
}

} // verus!
