//! A file format holding a sequence of length-prefixed chunks, after an
//! optional magic signature and a fixed-size header.
//!
//! Everything here works on byte values: the bytes to write when a file is
//! created or a chunk appended, and the bytes of an existing file to read.
//! Moving those bytes to and from the file system is left to the caller.

mod codec;
mod error;
mod format;
mod ioutils;
pub mod laws;
mod layout;
mod reader;
mod seek;
mod writer;

pub use codec::{
    chunk_offset, decode_at, encode_all, encode_chunk, frame, le_bytes, le_value, read_chunk,
    reports, Decoded, PREFIX_LEN,
};
pub use error::SeqError;
pub use format::{FormatDescriptor, NoMagicNoHeader, SeqDataFormat};
pub use ioutils::optional_read_exact;
pub use layout::{
    check_header_size, file_image, min_size, open_check, payload_domain, payload_length,
    read_magic_and_header, same_outcome,
};
pub use reader::{ReaderView, SeqDataReader};
pub use seek::{seek_reports, SeekView, SeqDataReaderSeek};
pub use writer::{append_check, SeqDataWriter};
