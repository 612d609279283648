use vstd::prelude::*;
use crate::codec::{encode_all, read_exact};
use crate::error::SeqError;
use crate::format::FormatDescriptor;

verus! {

/// Number of bytes before the chunk area: the magic bytes and the header.
pub open spec fn min_size(d: FormatDescriptor) -> nat {
    d.magic@.len() + d.header_size as nat
}

/// Opening the bytes `file` under the format `d`: the header stored in the
/// file, or why the file is refused.
pub open spec fn open_check(d: FormatDescriptor, file: Seq<u8>) -> Result<Seq<u8>, SeqError> {
    if file.len() < min_size(d) {
        Err(SeqError::TooShort)
    } else if file.subrange(0, d.magic@.len() as int) != d.magic@ {
        Err(SeqError::MagicMismatch)
    } else {
        Ok(file.subrange(d.magic@.len() as int, min_size(d) as int))
    }
}

/// The chunk area of the bytes `file` under the format `d`.
pub open spec fn payload_domain(d: FormatDescriptor, file: Seq<u8>) -> Seq<u8> {
    file.subrange(min_size(d) as int, file.len() as int)
}

/// The bytes of a file of format `d` with this header and these payloads.
pub open spec fn file_image(d: FormatDescriptor, header: Seq<u8>, ps: Seq<Seq<u8>>) -> Seq<u8> {
    d.magic@ + header + encode_all(ps)
}

/// `r` holds the bytes that `s` holds, or the same error.
pub open spec fn same_outcome(r: Result<Vec<u8>, SeqError>, s: Result<Seq<u8>, SeqError>) -> bool {
    match s {
        Ok(b) => r matches Ok(v) && v@ == b,
        Err(e) => r == Err::<Vec<u8>, SeqError>(e),
    }
}

/// Checks that a header has the size that the format fixes.
pub fn check_header_size(d: &FormatDescriptor, header: &[u8]) -> (r: Result<(), SeqError>)
    ensures
        header@.len() == d.header_size <==> r is Ok,
        r is Err ==> r == Err::<(), SeqError>(
            SeqError::HeaderSize { expected: d.header_size, found: header@.len() as usize },
        ),
{
    if d.header_size != header.len() {
        Err(SeqError::HeaderSize { expected: d.header_size, found: header.len() })
    } else {
        Ok(())
    }
}

/// Length of the chunk area of a file of `total_len` bytes, or `TooShort`
/// where the file cannot even hold the magic bytes and the header.
pub fn payload_length(d: &FormatDescriptor, total_len: u64) -> (r: Result<u64, SeqError>)
    ensures
        total_len < min_size(*d) ==> r == Err::<u64, SeqError>(SeqError::TooShort),
        total_len >= min_size(*d) ==> r == Ok::<u64, SeqError>(
            (total_len - min_size(*d)) as u64,
        ),
{
    let mlen: usize = d.magic.len();
    if (total_len as u128) < (mlen as u128) + (d.header_size as u128) {
        Err(SeqError::TooShort)
    } else {
        Ok(total_len - (mlen as u64) - (d.header_size as u64))
    }
}

/// Checks the magic bytes at the start of `file` and returns the header that
/// follows them.
pub fn read_magic_and_header(d: &FormatDescriptor, file: &[u8]) -> (r: Result<Vec<u8>, SeqError>)
    ensures
        same_outcome(r, open_check(*d, file@)),
{
    let mlen: usize = d.magic.len();
    let total: usize = file.len();
    if total < mlen || total - mlen < d.header_size {
        return Err(SeqError::TooShort);
    }
    let mut i: usize = 0;
    while i < mlen
        invariant
            mlen == d.magic@.len(),
            mlen <= file@.len(),
            file@.len() >= min_size(*d),
            i <= mlen,
            forall|j: int| 0 <= j < i ==> file@[j] == d.magic@[j],
        decreases mlen - i,
    {
        if file[i] != d.magic[i] {
            proof {
                assert(file@.subrange(0, mlen as int)[i as int] != d.magic@[i as int]);
                assert(file@.subrange(0, d.magic@.len() as int) != d.magic@);
            }
            return Err(SeqError::MagicMismatch);
        }
        i = i + 1;
    }
    assert(file@.subrange(0, mlen as int) =~= d.magic@);
    read_exact(file, mlen, d.header_size)
}

} // verus!
