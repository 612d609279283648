use vstd::prelude::*;

verus! {

/// The fixed shape of one family of files: the magic bytes that open each
/// file of the family, and the size of the header that follows them.
pub struct FormatDescriptor {
    /// Magic bytes; may be empty.
    pub magic: Vec<u8>,
    /// Size of the header in bytes.
    pub header_size: usize,
}

impl FormatDescriptor {
    /// The descriptor of the family that `F` names.
    pub fn of<F: SeqDataFormat>() -> (r: FormatDescriptor) {
        FormatDescriptor { magic: F::magic(), header_size: F::header_size() }
    }
}

/// Names a family of files at the type level.
pub trait SeqDataFormat {
    /// Magic bytes; may be empty.
    fn magic() -> Vec<u8>;

    /// Size of the header in bytes.
    fn header_size() -> usize;
}

/// A format with neither magic bytes nor a header: the chunks start at the
/// first byte of the file.
pub struct NoMagicNoHeader;

impl SeqDataFormat for NoMagicNoHeader {
    fn magic() -> (r: Vec<u8>) {
        Vec::new()
    }

    fn header_size() -> (r: usize) {
        0
    }
}

} // verus!
