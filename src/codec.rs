use vstd::prelude::*;
use crate::error::SeqError;
use crate::ioutils::optional_read_exact;

verus! {

/// Number of bytes in a chunk's length prefix.
pub const PREFIX_LEN: usize = 4;

/// The number that the first four bytes of `b` spell in little-endian order.
pub open spec fn le_value(b: Seq<u8>) -> nat {
    b[0] as nat + 256 * (b[1] as nat) + 65536 * (b[2] as nat) + 16777216 * (b[3] as nat)
}

/// The four little-endian bytes of `n`, for `n` below 2^32.
pub open spec fn le_bytes(n: nat) -> Seq<u8> {
    seq![
        (n % 256) as u8,
        ((n / 256) % 256) as u8,
        ((n / 65536) % 256) as u8,
        ((n / 16777216) % 256) as u8,
    ]
}

/// One chunk as it stands in a file: the payload's length as four
/// little-endian bytes, then the payload.
pub open spec fn frame(p: Seq<u8>) -> Seq<u8> {
    le_bytes(p.len()) + p
}

/// The chunk area of a file that holds the payloads `ps`, in order.
pub open spec fn encode_all(ps: Seq<Seq<u8>>) -> Seq<u8>
    decreases ps.len(),
{
    if ps.len() == 0 {
        Seq::empty()
    } else {
        encode_all(ps.drop_last()) + frame(ps.last())
    }
}

/// Offset of chunk `i` among the payloads `ps`: the running sum of four plus
/// the length of each payload before it.
pub open spec fn chunk_offset(ps: Seq<Seq<u8>>, i: int) -> nat
    decreases i,
{
    if i <= 0 {
        0
    } else {
        chunk_offset(ps, i - 1) + 4 + ps[i - 1].len()
    }
}

/// What decoding one chunk gives.
pub enum Decoded {
    /// No byte is left: the normal end of the chunks.
    End,
    /// The stream ends inside the length prefix or inside the payload.
    Truncated,
    /// A whole chunk, with this payload.
    Chunk(Seq<u8>),
}

/// Decoding the chunk whose length prefix starts at `pos` in `s`.
pub open spec fn decode_at(s: Seq<u8>, pos: int) -> Decoded {
    if pos >= s.len() {
        Decoded::End
    } else if s.len() - pos < 4 {
        Decoded::Truncated
    } else {
        let n = le_value(s.subrange(pos, pos + 4));
        if s.len() - pos - 4 < n {
            Decoded::Truncated
        } else {
            Decoded::Chunk(s.subrange(pos + 4, pos + 4 + n))
        }
    }
}

/// `r` is what a decoder returns for the outcome `d`.
pub open spec fn reports(r: Option<Result<Vec<u8>, SeqError>>, d: Decoded) -> bool {
    match d {
        Decoded::End => r is None,
        Decoded::Truncated => r == Some(Err::<Vec<u8>, SeqError>(SeqError::Truncated)),
        Decoded::Chunk(p) => r matches Some(Ok(v)) && v@ == p,
    }
}

/// Reads a little-endian length prefix.
fn le_u32(b: &[u8]) -> (r: u32)
    requires
        b@.len() == 4,
    ensures
        r as nat == le_value(b@),
{
    (b[0] as u32) + (b[1] as u32) * 256 + (b[2] as u32) * 65536 + (b[3] as u32) * 16777216
}

/// Reads exactly `want` bytes of `stream` from `pos` on.
pub(crate) fn read_exact(stream: &[u8], pos: usize, want: usize) -> (r: Result<Vec<u8>, SeqError>)
    ensures
        pos + want <= stream@.len() ==> (r matches Ok(v) && v@ == stream@.subrange(
            pos as int,
            pos + want,
        )),
        pos + want > stream@.len() ==> r == Err::<Vec<u8>, SeqError>(SeqError::Truncated),
{
    match optional_read_exact(stream, pos, want) {
        None => {
            if want == 0 && pos <= stream.len() {
                let empty: Vec<u8> = Vec::new();
                proof {
                    assert(empty@ =~= stream@.subrange(pos as int, pos + want));
                }
                Ok(empty)
            } else {
                Err(SeqError::Truncated)
            }
        },
        Some(r) => r,
    }
}

/// Decodes the chunk whose length prefix starts at `pos` in `stream`:
/// `None` where no byte is left, an error where the stream ends inside the
/// chunk, and the payload otherwise.
pub fn read_chunk(stream: &[u8], pos: usize) -> (r: Option<Result<Vec<u8>, SeqError>>)
    ensures
        reports(r, decode_at(stream@, pos as int)),
{
    match optional_read_exact(stream, pos, PREFIX_LEN) {
        None => None,
        Some(Err(e)) => Some(Err(e)),
        Some(Ok(lenbuf)) => {
            let total: usize = stream.len();
            assert(pos + 4 <= total);
            let n: u32 = le_u32(lenbuf.as_slice());
            assert(lenbuf@ == stream@.subrange(pos as int, pos + 4));
            match read_exact(stream, pos + PREFIX_LEN, n as usize) {
                Err(e) => Some(Err(e)),
                Ok(out) => Some(Ok(out)),
            }
        },
    }
}

/// The bytes of one chunk holding `data`, ready to be appended to a file.
pub fn encode_chunk(data: &[u8]) -> (r: Vec<u8>)
    requires
        data@.len() <= u32::MAX,
    ensures
        r@ == frame(data@),
{
    let n: usize = data.len();
    let mut out: Vec<u8> = Vec::new();
    out.push((n % 256) as u8);
    out.push(((n / 256) % 256) as u8);
    out.push(((n / 65536) % 256) as u8);
    out.push(((n / 16777216) % 256) as u8);
    assert(out@ =~= le_bytes(data@.len()));
    let mut i: usize = 0;
    while i < n
        invariant
            n == data@.len(),
            i <= n,
            out@ == le_bytes(data@.len()) + data@.subrange(0, i as int),
        decreases n - i,
    {
        out.push(data[i]);
        i = i + 1;
        assert(out@ =~= le_bytes(data@.len()) + data@.subrange(0, i as int));
    }
    assert(data@.subrange(0, n as int) =~= data@);
    out
}

} // verus!
