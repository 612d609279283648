use vstd::prelude::*;
use crate::error::SeqError;

verus! {

/// Reads `want` bytes of `stream` from `pos` on, telling apart a stream that
/// has no byte left at `pos` (`None`) from one that ends before `want` bytes
/// were read (an error).
pub fn optional_read_exact(stream: &[u8], pos: usize, want: usize) -> (r: Option<
    Result<Vec<u8>, SeqError>,
>)
    ensures
        (want == 0 || pos >= stream@.len()) <==> r is None,
        r == Some(Err::<Vec<u8>, SeqError>(SeqError::Truncated)) <==> (want > 0 && pos
            < stream@.len() < pos + want),
        r matches Some(Ok(v)) ==> (pos + want <= stream@.len() && v@ == stream@.subrange(
            pos as int,
            pos + want,
        )),
        (want > 0 && pos + want <= stream@.len()) ==> r is Some && r->Some_0 is Ok,
{
    let mut buf: Vec<u8> = Vec::with_capacity(want);
    let mut read_bytes: usize = 0;
    while read_bytes < want && pos < stream.len() && read_bytes < stream.len() - pos
        invariant
            read_bytes <= want,
            pos >= stream@.len() ==> read_bytes == 0,
            pos < stream@.len() ==> read_bytes <= stream@.len() - pos,
            buf@.len() == read_bytes,
            pos < stream@.len() ==> buf@ == stream@.subrange(pos as int, pos + read_bytes),
        decreases want - read_bytes,
    {
        buf.push(stream[pos + read_bytes]);
        read_bytes = read_bytes + 1;
        proof {
            assert(buf@ =~= stream@.subrange(pos as int, pos + read_bytes));
        }
    }
    if read_bytes == 0 {
        None
    } else if read_bytes < want {
        Some(Err(SeqError::Truncated))
    } else {
        Some(Ok(buf))
    }
}

} // verus!
