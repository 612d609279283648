use vstd::prelude::*;
use crate::codec::{decode_at, read_chunk, Decoded, PREFIX_LEN};
use crate::error::SeqError;
use crate::format::FormatDescriptor;
use crate::layout::{open_check, payload_domain, payload_length, read_magic_and_header};

verus! {

/// What a sequential reader stands for.
pub struct ReaderView {
    /// The chunk area of the file, as it was when the reader was opened.
    pub payload: Seq<u8>,
    /// How far into `payload` the stream has been consumed.
    pub cursor: nat,
    /// Offset of the next chunk to be returned.
    pub pos: nat,
}

/// Reads the chunks of a file in order, one at a time, with each chunk's
/// offset.
pub struct SeqDataReader {
    data: Vec<u8>,
    cursor: usize,
    pos: u64,
}

impl View for SeqDataReader {
    type V = ReaderView;

    closed spec fn view(&self) -> ReaderView {
        ReaderView { payload: self.data@, cursor: self.cursor as nat, pos: self.pos as nat }
    }
}

impl SeqDataReader {
    /// The stream is consumed no further than its end, and the offset keeps
    /// up with the stream until the stream has been consumed.
    pub open spec fn wf(&self) -> bool {
        &&& self@.cursor <= self@.payload.len()
        &&& self@.pos <= self@.cursor
        &&& (self@.pos == self@.cursor || self@.cursor == self@.payload.len())
    }

    /// Opens a reader on the bytes `file` of a whole file of format `format`.
    /// Returns the reader, at offset zero, and the file's header.
    pub fn open(format: &FormatDescriptor, file: Vec<u8>) -> (r: Result<
        (SeqDataReader, Vec<u8>),
        SeqError,
    >)
        ensures
            match open_check(*format, file@) {
                Ok(h) => r matches Ok((rd, header)) && header@ == h && rd.wf() && rd@.payload
                    == payload_domain(*format, file@) && rd@.cursor == 0 && rd@.pos == 0,
                Err(e) => r == Err::<(SeqDataReader, Vec<u8>), SeqError>(e),
            },
    {
        let total: usize = file.len();
        if let Err(e) = payload_length(format, total as u64) {
            return Err(e);
        }
        match read_magic_and_header(format, file.as_slice()) {
            Err(e) => Err(e),
            Ok(header) => {
                assert(format.magic@.len() + format.header_size <= total);
                let start: usize = format.magic.len() + format.header_size;
                let mut file = file;
                let data = file.split_off(start);
                Ok((SeqDataReader { data, cursor: 0, pos: 0 }, header))
            },
        }
    }

    /// Length of the chunk area, fixed when the reader was opened.
    pub fn len(&self) -> (r: u64)
        ensures
            r == self@.payload.len(),
    {
        self.data.len() as u64
    }

    /// Offset of the next chunk to be returned.
    pub fn position(&self) -> (r: u64)
        ensures
            r == self@.pos,
    {
        self.pos
    }

    /// Returns the next chunk with its offset; `None` at the end of the
    /// chunks, and an error where the file ends inside a chunk.
    pub fn next(&mut self) -> (r: Option<Result<(u64, Vec<u8>), SeqError>>)
        requires
            old(self).wf(),
        ensures
            final(self).wf(),
            final(self)@.payload == old(self)@.payload,
            match decode_at(old(self)@.payload, old(self)@.cursor as int) {
                Decoded::End => r is None && final(self)@ == old(self)@,
                Decoded::Truncated => r == Some(
                    Err::<(u64, Vec<u8>), SeqError>(SeqError::Truncated),
                ) && final(self)@.pos == old(self)@.pos && final(self)@.cursor
                    == old(self)@.payload.len(),
                Decoded::Chunk(p) => r matches Some(Ok((off, v))) && off == old(self)@.pos
                    && v@ == p && old(self)@.cursor == old(self)@.pos && final(self)@.pos
                    == old(self)@.pos + 4 + p.len() && final(self)@.cursor == final(self)@.pos,
            },
    {
        let total: usize = self.data.len();
        match read_chunk(self.data.as_slice(), self.cursor) {
            None => None,
            Some(Err(e)) => {
                self.cursor = self.data.len();
                Some(Err(e))
            },
            Some(Ok(buf)) => {
                let current_pos: u64 = self.pos;
                assert(self.cursor + 4 + buf@.len() <= total);
                self.cursor = self.cursor + PREFIX_LEN + buf.len();
                self.pos = self.cursor as u64;
                Some(Ok((current_pos, buf)))
            },
        }
    }
}

} // verus!
