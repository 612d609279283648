use vstd::prelude::*;
use crate::codec::{encode_chunk, frame};
use crate::error::SeqError;
use crate::format::FormatDescriptor;
use crate::layout::{check_header_size, open_check, read_magic_and_header};

verus! {

/// Opening a file for appending, with the header `header`, where the file
/// holds `file`: the header read back, or why the file is refused.
pub open spec fn append_check(d: FormatDescriptor, header: Seq<u8>, file: Seq<u8>) -> Result<
    Seq<u8>,
    SeqError,
> {
    if header.len() != d.header_size {
        Err(SeqError::HeaderSize { expected: d.header_size, found: header.len() as usize })
    } else {
        match open_check(d, file) {
            Err(e) => Err(e),
            Ok(h) => if h != header {
                Err(SeqError::HeaderMismatch)
            } else {
                Ok(h)
            },
        }
    }
}

/// Appends chunks to a file of one format. It computes the bytes; the caller
/// writes them at the end of the file, in the order they were returned.
pub struct SeqDataWriter {
    format: FormatDescriptor,
}

impl SeqDataWriter {
    /// The format this writer was made for.
    pub closed spec fn format(&self) -> FormatDescriptor {
        self.format
    }

    /// Starts a new file with this header: returns the writer and the bytes
    /// that begin the file, the magic bytes and then the header.
    pub fn create(format: FormatDescriptor, header: &[u8]) -> (r: Result<
        (SeqDataWriter, Vec<u8>),
        SeqError,
    >)
        ensures
            header@.len() != format.header_size ==> r == Err::<(SeqDataWriter, Vec<u8>), SeqError>(
                SeqError::HeaderSize { expected: format.header_size, found: header@.len() as usize },
            ),
            header@.len() == format.header_size ==> (r matches Ok((w, bytes)) && w.format()
                == format && bytes@ == format.magic@ + header@),
    {
        match check_header_size(&format, header) {
            Err(e) => Err(e),
            Ok(()) => {
                let mut bytes: Vec<u8> = Vec::new();
                let mut i: usize = 0;
                while i < format.magic.len()
                    invariant
                        i <= format.magic@.len(),
                        bytes@ == format.magic@.subrange(0, i as int),
                    decreases format.magic@.len() - i,
                {
                    bytes.push(format.magic[i]);
                    i = i + 1;
                    assert(bytes@ =~= format.magic@.subrange(0, i as int));
                }
                let mut j: usize = 0;
                while j < header.len()
                    invariant
                        j <= header@.len(),
                        bytes@ == format.magic@ + header@.subrange(0, j as int),
                    decreases header@.len() - j,
                {
                    bytes.push(header[j]);
                    j = j + 1;
                    assert(bytes@ =~= format.magic@ + header@.subrange(0, j as int));
                }
                assert(format.magic@.subrange(0, format.magic@.len() as int) =~= format.magic@);
                assert(header@.subrange(0, header@.len() as int) =~= header@);
                Ok((SeqDataWriter { format }, bytes))
            },
        }
    }

    /// Reopens a file for appending, where `existing` holds the file's first
    /// bytes (at least the magic bytes and the header, where the file has
    /// them). The file must start with the format's magic bytes and with
    /// exactly this header. Returns the writer and the header read back.
    pub fn open(format: FormatDescriptor, header: &[u8], existing: &[u8]) -> (r: Result<
        (SeqDataWriter, Vec<u8>),
        SeqError,
    >)
        ensures
            match append_check(format, header@, existing@) {
                Ok(h) => r matches Ok((w, got)) && w.format() == format && got@ == h,
                Err(e) => r == Err::<(SeqDataWriter, Vec<u8>), SeqError>(e),
            },
    {
        match check_header_size(&format, header) {
            Err(e) => Err(e),
            Ok(()) => match read_magic_and_header(&format, existing) {
                Err(e) => Err(e),
                Ok(got) => {
                    let mut k: usize = 0;
                    while k < got.len()
                        invariant
                            got@.len() == header@.len(),
                            header@.len() == format.header_size,
                            open_check(format, existing@) == Ok::<Seq<u8>, SeqError>(got@),
                            k <= got@.len(),
                            forall|m: int| 0 <= m < k ==> got@[m] == header@[m],
                        decreases got@.len() - k,
                    {
                        if got[k] != header[k] {
                            assert(got@[k as int] != header@[k as int]);
                            return Err(SeqError::HeaderMismatch);
                        }
                        k = k + 1;
                    }
                    assert(got@ =~= header@);
                    Ok((SeqDataWriter { format }, got))
                },
            },
        }
    }

    /// The bytes of one chunk holding `data`, to be written at the end of the
    /// file: the file then grows by four bytes plus the length of `data`.
    pub fn append(&self, data: &[u8]) -> (r: Vec<u8>)
        requires
            data@.len() <= u32::MAX,
        ensures
            r@ == frame(data@),
            r@.len() == 4 + data@.len(),
    {
        encode_chunk(data)
    }
}

} // verus!
