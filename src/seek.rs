use vstd::prelude::*;
use crate::codec::{decode_at, read_chunk, Decoded, PREFIX_LEN};
use crate::error::SeqError;
use crate::format::FormatDescriptor;
use crate::layout::{open_check, payload_domain, payload_length, read_magic_and_header};

verus! {

/// What a seekable reader stands for.
pub struct SeekView {
    /// The chunk area of the file, as it was when the reader was opened.
    pub payload: Seq<u8>,
    /// Where in `payload` the next plain read starts.
    pub cursor: nat,
}

/// `r` is what a seekable reader returns for the outcome `d`, which is never
/// the end of the chunks.
pub open spec fn seek_reports(r: Result<Vec<u8>, SeqError>, d: Decoded) -> bool {
    match d {
        Decoded::End => false,
        Decoded::Truncated => r == Err::<Vec<u8>, SeqError>(SeqError::Truncated),
        Decoded::Chunk(p) => r matches Ok(v) && v@ == p,
    }
}

/// Reads the chunk found at any offset that a sequential reader returned, in
/// any order.
pub struct SeqDataReaderSeek {
    data: Vec<u8>,
    cursor: usize,
}

impl View for SeqDataReaderSeek {
    type V = SeekView;

    closed spec fn view(&self) -> SeekView {
        SeekView { payload: self.data@, cursor: self.cursor as nat }
    }
}

impl SeqDataReaderSeek {
    /// The cursor stays within the chunk area.
    pub open spec fn wf(&self) -> bool {
        self@.cursor <= self@.payload.len()
    }

    /// Opens a reader on the bytes `file` of a whole file of format `format`.
    /// Returns the reader and the file's header.
    pub fn open(format: &FormatDescriptor, file: Vec<u8>) -> (r: Result<
        (SeqDataReaderSeek, Vec<u8>),
        SeqError,
    >)
        ensures
            match open_check(*format, file@) {
                Ok(h) => r matches Ok((rd, header)) && header@ == h && rd.wf() && rd@.payload
                    == payload_domain(*format, file@) && rd@.cursor == 0,
                Err(e) => r == Err::<(SeqDataReaderSeek, Vec<u8>), SeqError>(e),
            },
    {
        let total: usize = file.len();
        if let Err(e) = payload_length(format, total as u64) {
            return Err(e);
        }
        match read_magic_and_header(format, file.as_slice()) {
            Err(e) => Err(e),
            Ok(header) => {
                assert(format.magic@.len() + format.header_size <= total);
                let start: usize = format.magic.len() + format.header_size;
                let mut file = file;
                let data = file.split_off(start);
                Ok((SeqDataReaderSeek { data, cursor: 0 }, header))
            },
        }
    }

    /// Length of the chunk area, fixed when the reader was opened.
    pub fn len(&self) -> (r: u64)
        ensures
            r == self@.payload.len(),
    {
        self.data.len() as u64
    }

    /// Whether a chunk starts at the cursor, rather than the end of the
    /// chunk area.
    pub fn has_more(&self) -> (r: bool)
        ensures
            r == (self@.cursor < self@.payload.len()),
    {
        self.cursor < self.data.len()
    }

    /// Returns the chunk at the cursor and moves the cursor past it. The
    /// cursor must not stand at the end of the chunk area.
    pub fn next(&mut self) -> (r: Result<Vec<u8>, SeqError>)
        requires
            old(self).wf(),
            old(self)@.cursor < old(self)@.payload.len(),
        ensures
            final(self).wf(),
            final(self)@.payload == old(self)@.payload,
            seek_reports(r, decode_at(old(self)@.payload, old(self)@.cursor as int)),
            r matches Ok(v) ==> final(self)@.cursor == old(self)@.cursor + 4 + v@.len(),
            r is Err ==> final(self)@.cursor == old(self)@.payload.len(),
    {
        let total: usize = self.data.len();
        match read_chunk(self.data.as_slice(), self.cursor) {
            None => {
                self.cursor = total;
                Err(SeqError::Truncated)
            },
            Some(Err(e)) => {
                self.cursor = total;
                Err(e)
            },
            Some(Ok(buf)) => {
                assert(self.cursor + 4 + buf@.len() <= total);
                self.cursor = self.cursor + PREFIX_LEN + buf.len();
                Ok(buf)
            },
        }
    }

    /// Returns the chunk whose length prefix starts at offset `pos` of the
    /// chunk area. Where `pos` is not an offset that a reader returned, the
    /// bytes there are read as a chunk all the same.
    pub fn next_at(&mut self, pos: u64) -> (r: Result<Vec<u8>, SeqError>)
        requires
            old(self).wf(),
        ensures
            final(self).wf(),
            final(self)@.payload == old(self)@.payload,
            pos >= old(self)@.payload.len() ==> r == Err::<Vec<u8>, SeqError>(
                SeqError::OutOfRange { offset: pos, len: old(self)@.payload.len() as u64 },
            ),
            pos < old(self)@.payload.len() ==> seek_reports(
                r,
                decode_at(old(self)@.payload, pos as int),
            ),
    {
        let len: u64 = self.data.len() as u64;
        if pos >= len {
            return Err(SeqError::OutOfRange { offset: pos, len });
        }
        self.cursor = pos as usize;
        self.next()
    }
}

} // verus!
