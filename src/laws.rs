//! Facts that relate the writer's bytes to what the readers decode.
use vstd::prelude::*;
use crate::codec::{chunk_offset, decode_at, encode_all, frame, le_bytes, le_value, Decoded};
use crate::error::SeqError;
use crate::format::FormatDescriptor;
use crate::layout::{file_image, min_size, open_check, payload_domain};

verus! {

/// Every payload fits the four-byte length prefix.
pub open spec fn all_fit(ps: Seq<Seq<u8>>) -> bool {
    forall|i: int| 0 <= i < ps.len() ==> #[trigger] ps[i].len() <= u32::MAX
}

/// Four little-endian bytes read back as the number they were made from.
pub proof fn lemma_le_round_trip(n: nat)
    requires
        n <= u32::MAX,
    ensures
        le_bytes(n).len() == 4,
        le_value(le_bytes(n)) == n,
{
    let b = le_bytes(n);
    assert(b[0] as nat == n % 256);
    assert(b[1] as nat == (n / 256) % 256);
    assert(b[2] as nat == (n / 65536) % 256);
    assert(b[3] as nat == (n / 16777216) % 256);
    assert(n % 256 + 256 * ((n / 256) % 256) + 65536 * ((n / 65536) % 256) + 16777216 * ((n
        / 16777216) % 256) == n) by (nonlinear_arith)
        requires
            n <= u32::MAX,
    ;
}

/// Appending one chunk to a chunk area appends its frame.
pub proof fn lemma_encode_push(ps: Seq<Seq<u8>>, p: Seq<u8>)
    ensures
        encode_all(ps.push(p)) == encode_all(ps) + frame(p),
{
    assert(ps.push(p).drop_last() =~= ps);
}

/// The chunk area of the first `i` payloads has the length of the `i`-th
/// offset, and starts the chunk area of all of them.
proof fn lemma_encode_take(ps: Seq<Seq<u8>>, i: int)
    requires
        0 <= i <= ps.len(),
    ensures
        encode_all(ps.take(i)).len() == chunk_offset(ps, i),
        encode_all(ps.take(i)).len() <= encode_all(ps).len(),
        encode_all(ps).subrange(0, encode_all(ps.take(i)).len() as int) == encode_all(ps.take(i)),
    decreases ps.len(),
{
    if i == ps.len() {
        assert(ps.take(i) =~= ps);
        if i > 0 {
            lemma_encode_take(ps.drop_last(), i - 1);
            lemma_offsets_of_prefix(ps, ps.drop_last(), i - 1);
            assert(ps.take(i).drop_last() =~= ps.drop_last().take(i - 1));
        } else {
            assert(ps.take(0) =~= Seq::<Seq<u8>>::empty());
        }
        assert(encode_all(ps).subrange(0, encode_all(ps).len() as int) =~= encode_all(ps));
    } else {
        let q = ps.drop_last();
        lemma_encode_take(q, i);
        assert(q.take(i) =~= ps.take(i));
        lemma_offsets_of_prefix(ps, q, i);
        assert(encode_all(ps) == encode_all(q) + frame(ps.last()));
        assert(encode_all(ps).subrange(0, encode_all(ps.take(i)).len() as int) =~= encode_all(
            q,
        ).subrange(0, encode_all(ps.take(i)).len() as int));
    }
}

/// Offsets up to `i` depend only on the payloads before `i`.
proof fn lemma_offsets_of_prefix(ps: Seq<Seq<u8>>, qs: Seq<Seq<u8>>, i: int)
    requires
        0 <= i <= qs.len() <= ps.len(),
        forall|j: int| 0 <= j < qs.len() ==> qs[j] == ps[j],
    ensures
        chunk_offset(qs, i) == chunk_offset(ps, i),
    decreases i,
{
    if i > 0 {
        lemma_offsets_of_prefix(ps, qs, i - 1);
    }
}

/// A chunk decoded from a prefix of a stream decodes the same from the
/// whole stream.
proof fn lemma_decode_extends(t: Seq<u8>, s: Seq<u8>, pos: int)
    requires
        0 <= pos,
        t.len() <= s.len(),
        s.subrange(0, t.len() as int) == t,
        decode_at(t, pos) is Chunk,
    ensures
        decode_at(s, pos) == decode_at(t, pos),
{
    let n = le_value(t.subrange(pos, pos + 4));
    assert(s.subrange(pos, pos + 4) =~= t.subrange(pos, pos + 4));
    assert(s.subrange(pos + 4, pos + 4 + n) =~= t.subrange(pos + 4, pos + 4 + n));
}

/// Chunk `i` decodes at its offset in the chunk area of the payloads.
proof fn lemma_chunk_at(ps: Seq<Seq<u8>>, i: int)
    requires
        0 <= i < ps.len(),
        all_fit(ps),
    ensures
        chunk_offset(ps, i) + 4 + ps[i].len() <= encode_all(ps).len(),
        decode_at(encode_all(ps), chunk_offset(ps, i) as int) == Decoded::Chunk(ps[i]),
{
    let a = encode_all(ps.take(i));
    let q = ps.take(i + 1);
    lemma_encode_take(ps, i);
    lemma_encode_take(ps, i + 1);
    assert(q.drop_last() =~= ps.take(i));
    let b = encode_all(q);
    assert(b == a + frame(ps[i]));
    let off = a.len() as int;
    let len = ps[i].len();
    lemma_le_round_trip(len);
    assert(b.subrange(off, off + 4) =~= le_bytes(len));
    assert(b.subrange(off + 4, off + 4 + len) =~= ps[i]);
    assert(decode_at(b, off) == Decoded::Chunk(ps[i]));
    lemma_decode_extends(b, encode_all(ps), off);
}

/// A stream read to its very end reports the end of the chunks, not an error.
pub proof fn lemma_end_of_stream(s: Seq<u8>)
    ensures
        decode_at(s, s.len() as int) == Decoded::End,
{
}

/// Round trip: a file made of a valid header and payloads, written in
/// order, opens with that header, and its chunk area yields each payload at
/// the running sum of four plus the lengths of the payloads before it, then
/// the end of the chunks right after the last one.
pub proof fn lemma_round_trip(d: FormatDescriptor, header: Seq<u8>, ps: Seq<Seq<u8>>)
    requires
        header.len() == d.header_size,
        all_fit(ps),
    ensures
        open_check(d, file_image(d, header, ps)) == Ok::<Seq<u8>, SeqError>(header),
        payload_domain(d, file_image(d, header, ps)) == encode_all(ps),
        chunk_offset(ps, 0) == 0,
        forall|i: int|
            0 <= i < ps.len() ==> decode_at(encode_all(ps), #[trigger] chunk_offset(ps, i) as int)
                == Decoded::Chunk(ps[i]),
        forall|i: int|
            0 <= i < ps.len() ==> #[trigger] chunk_offset(ps, i + 1) == chunk_offset(ps, i) + 4
                + ps[i].len(),
        chunk_offset(ps, ps.len() as int) == encode_all(ps).len(),
        decode_at(encode_all(ps), chunk_offset(ps, ps.len() as int) as int) == Decoded::End,
{
    let image = file_image(d, header, ps);
    let m = d.magic@.len() as int;
    assert(image.subrange(0, m) =~= d.magic@);
    assert(image.subrange(m, min_size(d) as int) =~= header);
    assert(payload_domain(d, image) =~= encode_all(ps));
    assert forall|i: int| 0 <= i < ps.len() implies decode_at(
        encode_all(ps),
        #[trigger] chunk_offset(ps, i) as int,
    ) == Decoded::Chunk(ps[i]) by {
        lemma_chunk_at(ps, i);
    }
    lemma_encode_take(ps, ps.len() as int);
    assert(ps.take(ps.len() as int) =~= ps);
}

/// Offsets address their chunks: each offset of the payloads lies inside
/// the chunk area, and the chunk that starts there is the payload written.
/// Nothing else enters, so the answer is the same in any order of queries.
pub proof fn lemma_offset_addressable(ps: Seq<Seq<u8>>, i: int)
    requires
        0 <= i < ps.len(),
        all_fit(ps),
    ensures
        chunk_offset(ps, i) < encode_all(ps).len(),
        decode_at(encode_all(ps), chunk_offset(ps, i) as int) == Decoded::Chunk(ps[i]),
{
    lemma_chunk_at(ps, i);
}

/// A file written under format `a` does not open under a format `b` whose
/// magic bytes differ from those of `a` at some position that both have:
/// it is refused as too short or for its magic bytes.
pub proof fn lemma_foreign_magic_rejected(
    a: FormatDescriptor,
    b: FormatDescriptor,
    header: Seq<u8>,
    ps: Seq<Seq<u8>>,
    k: int,
)
    requires
        header.len() == a.header_size,
        0 <= k < a.magic@.len(),
        k < b.magic@.len(),
        a.magic@[k] != b.magic@[k],
    ensures
        open_check(b, file_image(a, header, ps)) == Err::<Seq<u8>, SeqError>(SeqError::TooShort)
            || open_check(b, file_image(a, header, ps)) == Err::<Seq<u8>, SeqError>(
            SeqError::MagicMismatch,
        ),
{
    let image = file_image(a, header, ps);
    if image.len() >= min_size(b) {
        assert(image.subrange(0, b.magic@.len() as int)[k] == a.magic@[k]);
    }
}

/// A chunk that ends before the cut still decodes from the cut stream.
proof fn lemma_chunk_before_cut(ps: Seq<Seq<u8>>, t: int, i: int)
    requires
        all_fit(ps),
        0 <= i < ps.len() - 1,
        chunk_offset(ps, ps.len() - 1) < t <= encode_all(ps).len(),
    ensures
        decode_at(encode_all(ps).take(t), chunk_offset(ps, i) as int) == Decoded::Chunk(ps[i]),
{
    let s = encode_all(ps);
    let st = s.take(t);
    lemma_chunk_at(ps, i);
    lemma_offsets_increase(ps, i + 1, ps.len() - 1);
    let off = chunk_offset(ps, i) as int;
    let len = ps[i].len() as int;
    assert(st.subrange(off, off + 4) =~= s.subrange(off, off + 4));
    assert(st.subrange(off + 4, off + 4 + len) =~= s.subrange(off + 4, off + 4 + len));
}

/// The last chunk, cut inside, decodes as truncated.
proof fn lemma_last_chunk_cut(ps: Seq<Seq<u8>>, t: int)
    requires
        all_fit(ps),
        ps.len() > 0,
        chunk_offset(ps, ps.len() - 1) < t < chunk_offset(ps, ps.len() as int),
    ensures
        t <= encode_all(ps).len(),
        decode_at(encode_all(ps).take(t), chunk_offset(ps, ps.len() - 1) as int)
            == Decoded::Truncated,
{
    let n = ps.len() as int;
    let s = encode_all(ps);
    let st = s.take(t);
    lemma_chunk_at(ps, n - 1);
    let off = chunk_offset(ps, n - 1) as int;
    if t - off >= 4 {
        assert(st.subrange(off, off + 4) =~= s.subrange(off, off + 4));
    }
}

/// A file cut short inside its last chunk, at `cut` bytes, still opens; its
/// chunk area yields every chunk before the last one at its offset, and then
/// reports the last one as truncated.
pub proof fn lemma_truncated_file(d: FormatDescriptor, header: Seq<u8>, ps: Seq<Seq<u8>>, cut: int)
    requires
        header.len() == d.header_size,
        all_fit(ps),
        ps.len() > 0,
        min_size(d) + chunk_offset(ps, ps.len() - 1) < cut,
        cut < min_size(d) + chunk_offset(ps, ps.len() as int),
    ensures
        open_check(d, file_image(d, header, ps).take(cut)) == Ok::<Seq<u8>, SeqError>(header),
        payload_domain(d, file_image(d, header, ps).take(cut)) == encode_all(ps).take(
            cut - min_size(d),
        ),
        forall|i: int|
            0 <= i < ps.len() - 1 ==> decode_at(
                encode_all(ps).take(cut - min_size(d)),
                #[trigger] chunk_offset(ps, i) as int,
            ) == Decoded::Chunk(ps[i]),
        decode_at(encode_all(ps).take(cut - min_size(d)), chunk_offset(ps, ps.len() - 1) as int)
            == Decoded::Truncated,
{
    let t = cut - min_size(d);
    let cutimg = file_image(d, header, ps).take(cut);
    let m = d.magic@.len() as int;
    lemma_last_chunk_cut(ps, t);
    assert(cutimg.subrange(0, m) =~= d.magic@);
    assert(cutimg.subrange(m, min_size(d) as int) =~= header);
    assert(payload_domain(d, cutimg) =~= encode_all(ps).take(t));
    assert forall|i: int| 0 <= i < ps.len() - 1 implies decode_at(
        encode_all(ps).take(t),
        #[trigger] chunk_offset(ps, i) as int,
    ) == Decoded::Chunk(ps[i]) by {
        lemma_chunk_before_cut(ps, t, i);
    }
}

/// Offsets grow with the index.
proof fn lemma_offsets_increase(ps: Seq<Seq<u8>>, i: int, j: int)
    requires
        0 <= i <= j <= ps.len(),
    ensures
        chunk_offset(ps, i) <= chunk_offset(ps, j),
    decreases j - i,
{
    if i < j {
        lemma_offsets_increase(ps, i, j - 1);
    }
}

} // verus!
