use value_log::coding::put_bytes;
use value_log::coding::put_u16;
use value_log::coding::put_u32;
use value_log::coding::put_u64;
use value_log::coding::put_u64_varint;
use value_log::coding::ByteReader;
use value_log::coding::Decode;
use value_log::coding::DecodeError;
use value_log::coding::Encode;
use value_log::coding::EncodeError;
use value_log::key_range::put_short_string;
use value_log::key_range::read_short_string;
use value_log::segment::meta::CompressionType;
use value_log::segment::meta::Metadata;
use value_log::segment::trailer::SegmentFileTrailer;
use value_log::KeyRange;
use value_log::Slice;
use value_log::ValueHandle;

#[test]
fn big_endian_bytes() {
    let mut out = vec![0xff];
    put_u16(&mut out, 0x0102);
    put_u32(&mut out, 0x0304_0506);
    put_u64(&mut out, 0x0708_090a_0b0c_0d0e);
    put_bytes(&mut out, &[0x0f, 0x10]);
    assert_eq!(
        out,
        [0xff, 1, 2, 3, 4, 5, 6, 7, 8, 9, 10, 11, 12, 13, 14, 15, 16]
    );
}

#[test]
fn big_endian_reads() {
    let bytes = [1, 2, 3, 4, 5, 6, 7, 8, 9, 10, 11, 12, 13, 14, 15];
    let mut reader = ByteReader::new(&bytes);
    assert_eq!(reader.read_u8().unwrap(), 1);
    assert_eq!(reader.read_u16().unwrap(), 0x0203);
    assert_eq!(reader.read_u32().unwrap(), 0x0405_0607);
    assert_eq!(reader.read_u64().unwrap(), 0x0809_0a0b_0c0d_0e0f);
    assert_eq!(reader.position(), 15);
    assert_eq!(reader.remaining(), 0);
}

#[test]
fn reads_beyond_the_end_fail_and_stay() {
    let bytes = [1, 2, 3];
    let mut reader = ByteReader::new(&bytes);
    assert_eq!(reader.read_u8().unwrap(), 1);
    match reader.read_u32() {
        Err(DecodeError::Io(e)) => assert_eq!(e.kind(), std::io::ErrorKind::UnexpectedEof),
        _ => panic!("the read should fail"),
    }
    assert!(matches!(reader.read_u64(), Err(DecodeError::Io(_))));
    assert_eq!(reader.position(), 1);
    assert_eq!(reader.read_u16().unwrap(), 0x0203);
    assert!(matches!(reader.read_u8(), Err(DecodeError::Io(_))));
    assert!(matches!(reader.read_u16(), Err(DecodeError::Io(_))));
    assert!(matches!(reader.take(1), Err(DecodeError::Io(_))));
    assert_eq!(reader.take(0).unwrap(), &[] as &[u8]);
}

#[test]
fn cursor_moves() {
    let bytes = [1, 2, 3, 4, 5];
    let mut reader = ByteReader::starting_at(&bytes, 2);
    assert_eq!(reader.position(), 2);
    assert_eq!(reader.remaining(), 3);
    assert_eq!(reader.peek(2).unwrap(), &[3, 4]);
    assert!(reader.peek(4).is_none());
    assert_eq!(reader.position(), 2);
    reader.advance(1);
    let second = reader.fork();
    assert_eq!(reader.take(2).unwrap(), &[4, 5]);
    assert_eq!(second.position(), 3);
    assert_eq!(reader.position(), 5);

    // A start beyond the end counts as the end
    let reader = ByteReader::starting_at(&bytes, 9);
    assert_eq!(reader.position(), 5);
    assert_eq!(reader.remaining(), 0);
}

#[test]
fn varint_bytes() {
    let cases: [(u64, &[u8]); 7] = [
        (0, &[0x00]),
        (1, &[0x01]),
        (127, &[0x7f]),
        (128, &[0x80, 0x01]),
        (300, &[0xac, 0x02]),
        (16_384, &[0x80, 0x80, 0x01]),
        (
            u64::MAX,
            &[0xff, 0xff, 0xff, 0xff, 0xff, 0xff, 0xff, 0xff, 0xff, 0x01],
        ),
    ];
    for (value, bytes) in cases {
        let mut out = vec![];
        put_u64_varint(&mut out, value).unwrap();
        assert_eq!(out, bytes);

        let mut reader = ByteReader::new(bytes);
        assert_eq!(reader.read_u64_varint().unwrap(), value);
        assert_eq!(reader.position(), bytes.len());
    }
}

#[test]
fn varint_that_does_not_end() {
    // The input ends before the integer does
    let mut reader = ByteReader::new(&[0x80, 0x80]);
    assert!(matches!(reader.read_u64_varint(), Err(DecodeError::Io(_))));
    assert_eq!(reader.position(), 0);

    let mut reader = ByteReader::new(&[]);
    assert!(matches!(reader.read_u64_varint(), Err(DecodeError::Io(_))));

    // Ten bytes without an end, and the input ends with them
    let mut reader = ByteReader::new(&[0x80; 10]);
    assert!(matches!(reader.read_u64_varint(), Err(DecodeError::Io(_))));

    // Ten bytes without an end, and more bytes follow
    let mut bytes = vec![0x81; 10];
    bytes.push(0x01);
    let mut reader = ByteReader::new(&bytes);
    assert!(matches!(
        reader.read_u64_varint(),
        Err(DecodeError::InvalidTag(("Varint", 0x81)))
    ));
    assert_eq!(reader.position(), 0);
}

#[test]
fn varint_of_ten_bytes_is_cut_to_64_bits() {
    // The tenth group has more than one bit: only the lowest one counts
    let bytes = [0x80, 0x80, 0x80, 0x80, 0x80, 0x80, 0x80, 0x80, 0x80, 0x03];
    let mut reader = ByteReader::new(&bytes);
    assert_eq!(reader.read_u64_varint().unwrap(), 1 << 63);
}

#[test]
fn value_handle_round_trip() {
    let handle = ValueHandle { segment_id: 300, offset: 1 };
    let bytes = handle.encode_into_vec().unwrap();
    assert_eq!(bytes, [0x01, 0xac, 0x02]);

    let mut out = vec![9];
    handle.encode_into(&mut out).unwrap();
    assert_eq!(out, [9, 0x01, 0xac, 0x02]);

    let mut reader = ByteReader::new(&bytes);
    assert_eq!(ValueHandle::decode_from(&mut reader).unwrap(), handle);
    assert_eq!(reader.position(), 3);

    let greatest = ValueHandle { segment_id: u64::MAX, offset: u64::MAX };
    let bytes = greatest.encode_into_vec().unwrap();
    assert_eq!(bytes.len(), 20);
    let mut reader = ByteReader::new(&bytes);
    assert_eq!(ValueHandle::decode_from(&mut reader).unwrap(), greatest);
}

#[test]
fn value_handle_that_is_cut_off() {
    let mut reader = ByteReader::new(&[0x01]);
    assert!(matches!(ValueHandle::decode_from(&mut reader), Err(DecodeError::Io(_))));
    assert_eq!(reader.position(), 0);
}

#[test]
fn short_strings() {
    let mut out = vec![];
    put_short_string(&mut out, b"abc");
    put_short_string(&mut out, b"");
    assert_eq!(out, [0, 3, b'a', b'b', b'c', 0, 0]);

    let mut reader = ByteReader::new(&out);
    assert_eq!(read_short_string(&mut reader).unwrap().as_bytes(), b"abc");
    assert_eq!(read_short_string(&mut reader).unwrap().as_bytes(), b"");
    assert!(matches!(read_short_string(&mut reader), Err(DecodeError::Io(_))));

    let mut reader = ByteReader::new(&[0, 3, b'a']);
    assert!(matches!(read_short_string(&mut reader), Err(DecodeError::Io(_))));
    assert_eq!(reader.position(), 0);
}

#[test]
fn key_range_round_trip() {
    let range = KeyRange::new((Slice::new(b"a"), Slice::new(b"zz")));
    let bytes = range.encode_into_vec().unwrap();
    assert_eq!(bytes, [0, 1, b'a', 0, 2, b'z', b'z']);

    let mut reader = ByteReader::new(&bytes);
    let back = KeyRange::decode_from(&mut reader).unwrap();
    assert_eq!(back.min().as_bytes(), b"a");
    assert_eq!(back.max().as_bytes(), b"zz");
    assert_eq!(reader.position(), 7);

    let copy = range.clone();
    assert_eq!(copy.min().as_bytes(), b"a");
    assert_eq!(copy.max().as_bytes(), b"zz");
}

#[test]
fn key_range_with_a_long_key_is_refused() {
    let long = vec![7u8; 65_536];
    let range = KeyRange::new((Slice::new(b"a"), Slice::new(&long)));
    let mut out = vec![1, 2];
    assert!(matches!(
        range.encode_into(&mut out),
        Err(EncodeError::KeyLength(65_536))
    ));
    assert_eq!(out, [1, 2]);

    let longest = vec![7u8; 65_535];
    let range = KeyRange::new((Slice::new(&longest), Slice::new(&longest)));
    assert_eq!(range.encode_into_vec().unwrap().len(), 2 * 65_537);
}

fn metadata() -> Metadata {
    Metadata {
        item_count: 5,
        compressed_bytes: 0x0102,
        total_uncompressed_bytes: 0x0304_0506,
        compression: CompressionType::Custom,
        key_range: KeyRange::new((Slice::new(b"a"), Slice::new(b"e"))),
    }
}

#[test]
fn metadata_bytes() {
    let bytes = metadata().encode_into_vec().unwrap();
    let mut expected = b"VLOGSMD1".to_vec();
    expected.extend([0, 0, 0, 0, 0, 0, 0, 5]);
    expected.extend([0, 0, 0, 0, 0, 0, 1, 2]);
    expected.extend([0, 0, 0, 0, 3, 4, 5, 6]);
    expected.push(1);
    expected.extend([0, 1, b'a', 0, 1, b'e']);
    assert_eq!(bytes, expected);

    let mut reader = ByteReader::new(&bytes);
    let back = Metadata::decode_from(&mut reader).unwrap();
    assert_eq!(back.item_count, 5);
    assert_eq!(back.compressed_bytes, 0x0102);
    assert_eq!(back.total_uncompressed_bytes, 0x0304_0506);
    assert_eq!(back.compression, CompressionType::Custom);
    assert_eq!(back.key_range.min().as_bytes(), b"a");
    assert_eq!(back.key_range.max().as_bytes(), b"e");
    assert_eq!(reader.position(), bytes.len());
}

#[test]
fn metadata_faults() {
    let bytes = metadata().encode_into_vec().unwrap();

    let mut wrong = bytes.clone();
    wrong[7] = b'2';
    let mut reader = ByteReader::new(&wrong);
    assert!(matches!(
        Metadata::decode_from(&mut reader),
        Err(DecodeError::InvalidHeader("SegmentMetadata"))
    ));
    assert_eq!(reader.position(), 0);

    let mut wrong = bytes.clone();
    wrong[32] = 2;
    let mut reader = ByteReader::new(&wrong);
    assert!(matches!(
        Metadata::decode_from(&mut reader),
        Err(DecodeError::InvalidTag(("CompressionType", 2)))
    ));

    for len in [0, 7, 8, 31, 32, 33, bytes.len() - 1] {
        let mut reader = ByteReader::new(&bytes[..len]);
        assert!(matches!(
            Metadata::decode_from(&mut reader),
            Err(DecodeError::Io(_))
        ));
        assert_eq!(reader.position(), 0);
    }
}

#[test]
fn trailer_bytes() {
    let trailer = SegmentFileTrailer { metadata: metadata(), metadata_ptr: 0x0102_0304 };
    let bytes = trailer.encode_into_vec().unwrap();
    assert_eq!(bytes.len(), 256);
    assert_eq!(&bytes[..8], [0, 0, 0, 0, 1, 2, 3, 4]);
    assert!(bytes[8..248].iter().all(|b| *b == 0));
    assert_eq!(&bytes[248..], b"VLOGTRL1");
}

#[test]
fn trailer_of_a_file() {
    let mut file = b"records".to_vec();
    let metadata_ptr = file.len() as u64;
    metadata().encode_into(&mut file).unwrap();
    let trailer = SegmentFileTrailer { metadata: metadata(), metadata_ptr };
    trailer.encode_into(&mut file).unwrap();

    assert!(SegmentFileTrailer::is_complete(&file));
    let back = SegmentFileTrailer::from_file(&file).unwrap();
    assert_eq!(back.metadata_ptr, 7);
    assert_eq!(back.metadata.item_count, 5);
    assert_eq!(back.metadata.key_range.max().as_bytes(), b"e");

    // Without the magic at the end, the file is not complete
    let cut = &file[..file.len() - 1];
    assert!(!SegmentFileTrailer::is_complete(cut));
    assert!(matches!(
        SegmentFileTrailer::from_file(cut),
        Err(DecodeError::InvalidTrailer)
    ));

    // A file that is shorter than a trailer
    assert!(!SegmentFileTrailer::is_complete(&file[..255]));
    assert!(matches!(
        SegmentFileTrailer::from_file(&file[..255]),
        Err(DecodeError::Io(_))
    ));

    // A pointer beyond the file
    let mut wrong = file.clone();
    let at = wrong.len() - 256;
    wrong[at] = 1;
    assert!(matches!(
        SegmentFileTrailer::from_file(&wrong),
        Err(DecodeError::Io(_))
    ));

    // A pointer at something that is no metadata block
    let mut wrong = file.clone();
    let at = wrong.len() - 249;
    wrong[at] = 0;
    assert!(matches!(
        SegmentFileTrailer::from_file(&wrong),
        Err(DecodeError::InvalidHeader("SegmentMetadata"))
    ));
}
