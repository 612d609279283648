use seq_data_file::{
    encode_chunk, optional_read_exact, payload_length, read_chunk, read_magic_and_header,
    FormatDescriptor, NoMagicNoHeader, SeqDataFormat, SeqDataReader, SeqDataReaderSeek,
    SeqDataWriter, SeqError,
};

struct H2;

impl SeqDataFormat for H2 {
    fn magic() -> Vec<u8> {
        vec![0xde, 0xad, 0xbe, 0xef]
    }

    fn header_size() -> usize {
        10
    }
}

const DATA1: &[u8] = &[1, 2, 3, 4, 5, 6, 7];
const DATA2: &[u8] = &[125, 33, 6, 35, 6, 235, 46, 43, 25, 37];
const DATA3: &[u8] = &[
    10, 20, 30, 40, 50, 60, 70, 80, 90, 10, 20, 30, 40, 50, 60, 70, 80, 90, 10, 20, 30, 40, 50, 60,
    70, 80, 90,
];

/// Builds the bytes of a file the way a caller of the writer would write them.
fn write_file(format: FormatDescriptor, header: &[u8], payloads: &[&[u8]]) -> Vec<u8> {
    let (writer, mut bytes) = SeqDataWriter::create(format, header).unwrap();
    for p in payloads {
        bytes.extend_from_slice(&writer.append(p));
    }
    bytes
}

#[test]
fn no_magic_no_header_offsets() {
    let format = FormatDescriptor::of::<NoMagicNoHeader>();
    let file = write_file(format, &[], &[DATA1, DATA2, DATA3]);
    assert_eq!(file.len(), 3 * 4 + 7 + 10 + 27);
    let format = FormatDescriptor::of::<NoMagicNoHeader>();
    let (mut rd, header) = SeqDataReader::open(&format, file).unwrap();
    assert!(header.is_empty());
    assert_eq!(rd.len(), 56);
    let (off1, r1) = rd.next().unwrap().unwrap();
    let (off2, r2) = rd.next().unwrap().unwrap();
    let (off3, r3) = rd.next().unwrap().unwrap();
    assert_eq!(off1, 0);
    assert_eq!(r1, DATA1);
    assert_eq!(off2, 11);
    assert_eq!(r2, DATA2);
    assert_eq!(off3, 25);
    assert_eq!(r3, DATA3);
    assert_eq!(rd.position(), 56);
    assert!(rd.next().is_none());
}

#[test]
fn magic_and_header_seek_in_any_order() {
    let header = vec![0x90; 10];
    let file = write_file(FormatDescriptor::of::<H2>(), &header, &[DATA1, DATA2, DATA3]);
    assert_eq!(&file[0..4], &[0xde, 0xad, 0xbe, 0xef]);
    assert_eq!(&file[4..14], &header[..]);

    let format = FormatDescriptor::of::<H2>();
    let (mut rd, got) = SeqDataReader::open(&format, file.clone()).unwrap();
    assert_eq!(got, header);
    let mut pos = Vec::new();
    while let Some(item) = rd.next() {
        pos.push(item.unwrap().0);
    }
    assert_eq!(pos, vec![0, 11, 25]);

    let (mut sk, got) = SeqDataReaderSeek::open(&format, file).unwrap();
    assert_eq!(got, header);
    assert_eq!(sk.next_at(pos[1]).unwrap(), DATA2);
    assert_eq!(sk.next_at(pos[0]).unwrap(), DATA1);
    assert_eq!(sk.next_at(pos[2]).unwrap(), DATA3);
    assert_eq!(sk.next_at(pos[0]).unwrap(), DATA1);
}

#[test]
fn round_trip_with_empty_payloads() {
    let format = FormatDescriptor { magic: vec![7, 7], header_size: 3 };
    let payloads: Vec<&[u8]> = vec![&[], &[1], &[], &[2, 3, 4, 5, 6], &[]];
    let file = write_file(
        FormatDescriptor { magic: vec![7, 7], header_size: 3 },
        &[9, 8, 7],
        &payloads,
    );
    let (mut rd, header) = SeqDataReader::open(&format, file).unwrap();
    assert_eq!(header, vec![9, 8, 7]);
    let mut expected_offset: u64 = 0;
    for p in &payloads {
        let (off, got) = rd.next().unwrap().unwrap();
        assert_eq!(off, expected_offset);
        assert_eq!(&got[..], *p);
        expected_offset += 4 + p.len() as u64;
    }
    assert!(rd.next().is_none());
}

#[test]
fn end_of_stream_repeats() {
    let format = FormatDescriptor { magic: vec![1], header_size: 0 };
    let file = write_file(FormatDescriptor { magic: vec![1], header_size: 0 }, &[], &[DATA1]);
    let (mut rd, _) = SeqDataReader::open(&format, file).unwrap();
    assert!(rd.next().unwrap().is_ok());
    assert!(rd.next().is_none());
    assert!(rd.next().is_none());
    assert_eq!(rd.position(), 11);
}

#[test]
fn empty_file_body_ends_at_once() {
    let format = FormatDescriptor { magic: vec![], header_size: 0 };
    let (mut rd, header) = SeqDataReader::open(&format, Vec::new()).unwrap();
    assert!(header.is_empty());
    assert_eq!(rd.len(), 0);
    assert!(rd.next().is_none());
}

#[test]
fn foreign_magic_is_refused() {
    let file = write_file(FormatDescriptor::of::<H2>(), &[0; 10], &[DATA1]);
    let other = FormatDescriptor { magic: vec![0xde, 0xad, 0xbe, 0xee], header_size: 10 };
    let r = SeqDataReader::open(&other, file.clone());
    assert!(matches!(r, Err(SeqError::MagicMismatch)));
    let r = SeqDataReaderSeek::open(&other, file.clone());
    assert!(matches!(r, Err(SeqError::MagicMismatch)));
    let r = SeqDataWriter::open(other, &[0; 10], &file);
    assert!(matches!(r, Err(SeqError::MagicMismatch)));
}

#[test]
fn short_file_is_refused() {
    let format = FormatDescriptor::of::<H2>();
    let r = SeqDataReader::open(&format, vec![0xde, 0xad, 0xbe, 0xef, 1, 2]);
    assert!(matches!(r, Err(SeqError::TooShort)));
    let r = SeqDataReaderSeek::open(&format, vec![0xde]);
    assert!(matches!(r, Err(SeqError::TooShort)));
}

#[test]
fn header_size_is_checked() {
    let r = SeqDataWriter::create(FormatDescriptor::of::<H2>(), &[1, 2, 3]);
    assert!(matches!(r, Err(SeqError::HeaderSize { expected: 10, found: 3 })));
    let file = write_file(FormatDescriptor::of::<H2>(), &[0; 10], &[]);
    let r = SeqDataWriter::open(FormatDescriptor::of::<H2>(), &[0; 11], &file);
    assert!(matches!(r, Err(SeqError::HeaderSize { expected: 10, found: 11 })));
}

#[test]
fn reopen_for_append() {
    let header = [4u8; 10];
    let mut file = write_file(FormatDescriptor::of::<H2>(), &header, &[DATA1]);
    let (writer, got) = SeqDataWriter::open(FormatDescriptor::of::<H2>(), &header, &file).unwrap();
    assert_eq!(got, header.to_vec());
    file.extend_from_slice(&writer.append(DATA2));
    let r = SeqDataWriter::open(FormatDescriptor::of::<H2>(), &[5u8; 10], &file);
    assert!(matches!(r, Err(SeqError::HeaderMismatch)));

    let (mut rd, _) = SeqDataReader::open(&FormatDescriptor::of::<H2>(), file).unwrap();
    assert_eq!(rd.next().unwrap().unwrap(), (0, DATA1.to_vec()));
    assert_eq!(rd.next().unwrap().unwrap(), (11, DATA2.to_vec()));
    assert!(rd.next().is_none());
}

#[test]
fn truncated_inside_length_prefix() {
    let file = write_file(FormatDescriptor::of::<H2>(), &[0; 10], &[DATA1, DATA2, DATA3]);
    // 14 bytes of magic and header; the third chunk starts at offset 25.
    let cut = file[..14 + 25 + 2].to_vec();
    let (mut rd, _) = SeqDataReader::open(&FormatDescriptor::of::<H2>(), cut).unwrap();
    assert_eq!(rd.next().unwrap().unwrap().1, DATA1);
    assert_eq!(rd.next().unwrap().unwrap().1, DATA2);
    assert!(matches!(rd.next(), Some(Err(SeqError::Truncated))));
    assert!(rd.next().is_none());
    assert_eq!(rd.position(), 25);
}

#[test]
fn truncated_inside_payload() {
    let file = write_file(FormatDescriptor::of::<H2>(), &[0; 10], &[DATA1, DATA2, DATA3]);
    let cut = file[..file.len() - 1].to_vec();
    let (mut rd, _) = SeqDataReader::open(&FormatDescriptor::of::<H2>(), cut.clone()).unwrap();
    assert_eq!(rd.next().unwrap().unwrap().1, DATA1);
    assert_eq!(rd.next().unwrap().unwrap().1, DATA2);
    assert!(matches!(rd.next(), Some(Err(SeqError::Truncated))));
    let (mut sk, _) = SeqDataReaderSeek::open(&FormatDescriptor::of::<H2>(), cut).unwrap();
    assert!(matches!(sk.next_at(25), Err(SeqError::Truncated)));
    assert_eq!(sk.next_at(11).unwrap(), DATA2);
}

#[test]
fn next_at_out_of_range() {
    let file = write_file(FormatDescriptor::of::<H2>(), &[0; 10], &[DATA1]);
    let (mut sk, _) = SeqDataReaderSeek::open(&FormatDescriptor::of::<H2>(), file).unwrap();
    assert_eq!(sk.len(), 11);
    assert_eq!(sk.next_at(11), Err(SeqError::OutOfRange { offset: 11, len: 11 }));
    assert_eq!(sk.next_at(500), Err(SeqError::OutOfRange { offset: 500, len: 11 }));
}

#[test]
fn seek_reader_reads_on_after_next_at() {
    let file = write_file(FormatDescriptor::of::<NoMagicNoHeader>(), &[], &[DATA1, DATA2, DATA3]);
    let (mut sk, _) =
        SeqDataReaderSeek::open(&FormatDescriptor::of::<NoMagicNoHeader>(), file).unwrap();
    assert_eq!(sk.next_at(11).unwrap(), DATA2);
    assert_eq!(sk.next().unwrap(), DATA3);
    assert_eq!(sk.next_at(0).unwrap(), DATA1);
    assert_eq!(sk.next().unwrap(), DATA2);
}

#[test]
fn misaligned_offset_reads_bytes_as_a_chunk() {
    // Inside a payload of zeros, four zero bytes read as an empty chunk.
    let file = write_file(FormatDescriptor::of::<NoMagicNoHeader>(), &[], &[&[0, 0, 0, 0, 0]]);
    assert_eq!(file, vec![5, 0, 0, 0, 0, 0, 0, 0, 0]);
    let (mut sk, _) =
        SeqDataReaderSeek::open(&FormatDescriptor::of::<NoMagicNoHeader>(), file).unwrap();
    assert_eq!(sk.next_at(4).unwrap(), Vec::<u8>::new());
    assert!(matches!(sk.next_at(6), Err(SeqError::Truncated)));
}

#[test]
fn chunk_bytes_are_little_endian() {
    let data = vec![0xabu8; 300];
    let c = encode_chunk(&data);
    assert_eq!(&c[0..4], &[44, 1, 0, 0]);
    assert_eq!(c.len(), 304);
    assert_eq!(&c[4..], &data[..]);
    assert_eq!(encode_chunk(&[]), vec![0, 0, 0, 0]);
    let big = vec![0u8; 0x0102_0304];
    assert_eq!(&encode_chunk(&big)[0..4], &[4, 3, 2, 1]);
}

#[test]
fn read_chunk_outcomes() {
    let s = [2u8, 0, 0, 0, 5, 6, 1, 0];
    assert_eq!(read_chunk(&s, 0), Some(Ok(vec![5, 6])));
    assert_eq!(read_chunk(&s, 6), Some(Err(SeqError::Truncated)));
    assert_eq!(read_chunk(&s, 8), None);
    let s = [3u8, 0, 0, 0, 5, 6];
    assert_eq!(read_chunk(&s, 0), Some(Err(SeqError::Truncated)));
    let s = [0u8, 1, 0, 0];
    assert_eq!(read_chunk(&s, 0), Some(Err(SeqError::Truncated)));
}

#[test]
fn optional_read_exact_outcomes() {
    let s = [1u8, 2, 3, 4, 5];
    assert_eq!(optional_read_exact(&s, 0, 4), Some(Ok(vec![1, 2, 3, 4])));
    assert_eq!(optional_read_exact(&s, 1, 4), Some(Ok(vec![2, 3, 4, 5])));
    assert_eq!(optional_read_exact(&s, 2, 4), Some(Err(SeqError::Truncated)));
    assert_eq!(optional_read_exact(&s, 5, 4), None);
    assert_eq!(optional_read_exact(&s, 0, 0), None);
}

#[test]
fn payload_length_of_files() {
    let format = FormatDescriptor::of::<H2>();
    assert_eq!(payload_length(&format, 14), Ok(0));
    assert_eq!(payload_length(&format, 100), Ok(86));
    assert_eq!(payload_length(&format, 13), Err(SeqError::TooShort));
    let huge = FormatDescriptor { magic: vec![1], header_size: usize::MAX };
    assert_eq!(payload_length(&huge, u64::MAX), Err(SeqError::TooShort));
}

#[test]
fn magic_and_header_are_read_back() {
    let format = FormatDescriptor::of::<H2>();
    let mut file = vec![0xde, 0xad, 0xbe, 0xef];
    file.extend_from_slice(&[1, 2, 3, 4, 5, 6, 7, 8, 9, 10, 11]);
    assert_eq!(
        read_magic_and_header(&format, &file),
        Ok(vec![1, 2, 3, 4, 5, 6, 7, 8, 9, 10])
    );
    file[2] = 0;
    assert_eq!(read_magic_and_header(&format, &file), Err(SeqError::MagicMismatch));
}
