use vstd::prelude::*;

verus! {

/// Why an operation on a chunk file was refused.
#[derive(Debug, Clone, Copy, PartialEq, Eq, Structural)]
pub enum SeqError {
    /// The header given does not have the format's header size.
    HeaderSize { expected: usize, found: usize },
    /// The file is shorter than the magic bytes and the header together.
    TooShort,
    /// The file does not start with the format's magic bytes.
    MagicMismatch,
    /// The header stored in the file differs from the header given.
    HeaderMismatch,
    /// The stream ends inside a length prefix or inside a payload.
    Truncated,
    /// An offset at or past the end of the chunk area.
    OutOfRange { offset: u64, len: u64 },
}

} // verus!
