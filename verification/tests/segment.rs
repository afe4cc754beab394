use value_log::coding::DecodeError;
use value_log::coding::EncodeError;
use value_log::id::IdGenerator;
use value_log::segment::merge::MergeReader;
use value_log::segment::reader::pack;
use value_log::segment::reader::unpack;
use value_log::segment::reader::Reader;
use value_log::segment::trailer::SegmentFileTrailer;
use value_log::segment::writer::checksum;
use value_log::segment::writer::Writer;
use value_log::Compressor;
use value_log::Error;
use value_log::SegmentWriter;
use value_log::Slice;

#[derive(Clone, Default)]
struct NoCompressor;

impl Compressor for NoCompressor {
    fn compress(&self, bytes: &[u8]) -> value_log::Result<Vec<u8>> {
        Ok(bytes.into())
    }

    fn decompress(&self, bytes: &[u8]) -> value_log::Result<Vec<u8>> {
        Ok(bytes.into())
    }
}

/// Stores every byte twice.
#[derive(Clone, Default)]
struct Doubler;

impl Compressor for Doubler {
    fn compress(&self, bytes: &[u8]) -> value_log::Result<Vec<u8>> {
        Ok(bytes.iter().flat_map(|b| [*b, *b]).collect())
    }

    fn decompress(&self, bytes: &[u8]) -> value_log::Result<Vec<u8>> {
        if bytes.len() % 2 != 0 {
            return Err(Error::Decompress);
        }
        Ok(bytes.chunks(2).map(|pair| pair[0]).collect())
    }
}

/// Fails at everything.
#[derive(Clone, Default)]
struct Broken;

impl Compressor for Broken {
    fn compress(&self, _: &[u8]) -> value_log::Result<Vec<u8>> {
        Err(Error::Compress)
    }

    fn decompress(&self, _: &[u8]) -> value_log::Result<Vec<u8>> {
        Err(Error::Decompress)
    }
}

#[test]
fn checksum_is_crc32() {
    assert_eq!(checksum(b"123456789"), 0xcbf4_3926);
    assert_eq!(checksum(b""), 0);
    assert_eq!(checksum(b"a"), 0xe8b7_be43);
}

#[test]
fn record_bytes() -> value_log::Result<()> {
    let mut writer: Writer<NoCompressor> = Writer::new(7);
    assert_eq!(writer.offset(), 0);
    assert_eq!(writer.segment_id(), 7);
    assert_eq!(writer.item_count(), 0);
    assert!(writer.first_key().is_none());
    assert!(!writer.is_compressed());

    assert_eq!(writer.write(b"ab", b"123456789")?, 9);

    let mut expected = b"VBLB".to_vec();
    expected.extend([0, 0, 0, 0, 0xcb, 0xf4, 0x39, 0x26]);
    expected.extend([0, 2, b'a', b'b']);
    expected.extend([0, 0, 0, 9]);
    expected.extend(b"123456789");
    assert_eq!(writer.bytes(), expected);
    assert_eq!(writer.offset(), 18 + 2 + 9);
    assert_eq!(writer.item_count(), 1);
    assert_eq!(writer.written_blob_bytes(), 9);
    assert_eq!(writer.uncompressed_bytes(), 9);
    assert_eq!(writer.first_key().unwrap().as_bytes(), b"ab");
    assert_eq!(writer.last_key().unwrap().as_bytes(), b"ab");

    assert_eq!(writer.write(b"cd", b"")?, 0);
    assert_eq!(writer.offset(), 29 + 20);
    assert_eq!(writer.item_count(), 2);
    assert_eq!(writer.first_key().unwrap().as_bytes(), b"ab");
    assert_eq!(writer.last_key().unwrap().as_bytes(), b"cd");
    Ok(())
}

#[test]
fn writer_refuses_bad_keys() {
    let mut writer: Writer<NoCompressor> = Writer::new(0);
    assert!(matches!(
        writer.write(b"", b"value"),
        Err(Error::Encode(EncodeError::KeyLength(0)))
    ));
    let long = vec![1u8; 65_536];
    assert!(matches!(
        writer.write(&long, b"value"),
        Err(Error::Encode(EncodeError::KeyLength(65_536)))
    ));
    assert_eq!(writer.offset(), 0);
    assert_eq!(writer.item_count(), 0);

    let longest = vec![1u8; 65_535];
    assert_eq!(writer.write(&longest, b"value").unwrap(), 5);
    assert_eq!(writer.offset(), 18 + 65_535 + 5);

    // The stored value may not claim to stand for more than 2^32 - 1 bytes
    assert!(matches!(
        writer.write_stored(b"k", 1 << 32, b"v"),
        Err(Error::Encode(EncodeError::ValueLength(4_294_967_296)))
    ));
    assert_eq!(writer.item_count(), 1);
}

#[test]
fn writer_with_a_compressor() -> value_log::Result<()> {
    let mut writer = Writer::new(0).use_compression(Some(Doubler));
    assert!(writer.is_compressed());
    assert_eq!(writer.write(b"k", b"abc")?, 6);
    assert_eq!(writer.written_blob_bytes(), 6);
    assert_eq!(writer.uncompressed_bytes(), 3);
    assert_eq!(&writer.bytes()[15..], [0, 0, 0, 6, b'a', b'a', b'b', b'b', b'c', b'c']);
    // The checksum is that of what is stored
    assert_eq!(&writer.bytes()[4..12], checksum(b"aabbcc").to_be_bytes());

    let mut broken = Writer::new(0).use_compression(Some(Broken));
    assert!(matches!(broken.write(b"k", b"abc"), Err(Error::Compress)));
    assert_eq!(broken.offset(), 0);
    // A bad key fails before the compressor is asked
    assert!(matches!(
        broken.write(b"", b"abc"),
        Err(Error::Encode(EncodeError::KeyLength(0)))
    ));
    Ok(())
}

#[test]
fn flushed_file() -> value_log::Result<()> {
    let mut writer: Writer<NoCompressor> = Writer::new(3);
    writer.write(b"b", b"one")?;
    writer.write(b"a", b"three")?;
    let records = writer.offset();
    writer.flush()?;

    let file = writer.bytes();
    assert_eq!(file.len() as u64, records + 37 + 2 + 256);
    assert_eq!(&file[records as usize..records as usize + 8], b"VLOGSMD1");
    assert_eq!(&file[file.len() - 8..], b"VLOGTRL1");

    let trailer = SegmentFileTrailer::from_file(file).unwrap();
    assert_eq!(trailer.metadata_ptr, records);
    assert_eq!(trailer.metadata.item_count, 2);
    assert_eq!(trailer.metadata.compressed_bytes, 8);
    assert_eq!(trailer.metadata.total_uncompressed_bytes, 8);
    // The range holds the first and the last key that were written
    assert_eq!(trailer.metadata.key_range.min().as_bytes(), b"b");
    assert_eq!(trailer.metadata.key_range.max().as_bytes(), b"a");

    let metadata = writer.metadata();
    assert_eq!(metadata.item_count, 2);
    assert_eq!(writer.into_bytes().len() as u64, records + 37 + 2 + 256);
    Ok(())
}

#[test]
fn reader_reads_what_was_written() -> value_log::Result<()> {
    let mut writer: Writer<NoCompressor> = Writer::new(3);
    writer.write(b"a", b"one")?;
    let second = writer.offset();
    writer.write(b"b", b"")?;
    writer.write(b"c", &[7u8; 1000])?;
    writer.flush()?;

    let mut reader: Reader<NoCompressor> = Reader::new(writer.bytes(), 3);
    assert_eq!(reader.segment_id(), 3);
    assert_eq!(reader.get_offset(), 0);

    let (key, value, sum) = reader.next().unwrap()?;
    assert_eq!(key.as_bytes(), b"a");
    assert_eq!(value.as_bytes(), b"one");
    assert_eq!(sum, checksum(b"one"));
    assert_eq!(reader.get_offset(), second);

    let (key, value, sum) = reader.next().unwrap()?;
    assert_eq!(key.as_bytes(), b"b");
    assert_eq!(value.as_bytes(), b"");
    assert_eq!(sum, 0);

    let (key, value, _) = reader.next().unwrap()?;
    assert_eq!(key.as_bytes(), b"c");
    assert_eq!(value.as_bytes(), &[7u8; 1000]);

    // The metadata block ends the reading, for good
    let end = reader.get_offset();
    assert!(reader.next().is_none());
    assert!(reader.next().is_none());
    assert!(reader.next_stored().is_none());
    assert_eq!(reader.get_offset(), end);
    Ok(())
}

#[test]
fn reader_faults() -> value_log::Result<()> {
    let mut writer: Writer<NoCompressor> = Writer::new(3);
    writer.write(b"a", b"one")?;
    let file = writer.bytes();

    // No metadata block: the file ends behind the record
    let mut reader: Reader<NoCompressor> = Reader::new(file, 3);
    assert!(reader.next().unwrap().is_ok());
    assert!(matches!(reader.next(), Some(Err(Error::Io(_)))));
    assert!(matches!(reader.next(), Some(Err(Error::Io(_)))));

    // A record that is cut off, at every place
    for len in 0..file.len() {
        let mut reader: Reader<NoCompressor> = Reader::new(&file[..len], 3);
        assert!(matches!(reader.next(), Some(Err(Error::Io(_)))), "at {len}");
        assert_eq!(reader.get_offset(), 0);
    }

    // A block that is neither a record nor the metadata block
    let mut wrong = file.to_vec();
    wrong[0] = b'X';
    let mut reader: Reader<NoCompressor> = Reader::new(&wrong, 3);
    assert!(matches!(
        reader.next(),
        Some(Err(Error::Decode(DecodeError::InvalidHeader("Blob"))))
    ));
    assert_eq!(reader.get_offset(), 0);

    // The first half of the metadata magic is no metadata block
    let mut reader: Reader<NoCompressor> = Reader::new(b"VLOGXXXX", 3);
    assert!(matches!(
        reader.next(),
        Some(Err(Error::Decode(DecodeError::InvalidHeader("Blob"))))
    ));
    let mut reader: Reader<NoCompressor> = Reader::new(b"VLOG", 3);
    assert!(matches!(
        reader.next(),
        Some(Err(Error::Decode(DecodeError::InvalidHeader("Blob"))))
    ));
    let mut reader: Reader<NoCompressor> = Reader::new(b"VLOGSMD1", 3);
    assert!(reader.next().is_none());
    Ok(())
}

#[test]
fn reader_with_a_compressor() -> value_log::Result<()> {
    let mut writer = Writer::new(0).use_compression(Some(Doubler));
    writer.write(b"k", b"abc")?;
    writer.flush()?;

    let mut reader = Reader::new(writer.bytes(), 0).use_compression(Some(Doubler));
    let (key, value, sum) = reader.next().unwrap()?;
    assert_eq!(key.as_bytes(), b"k");
    assert_eq!(value.as_bytes(), b"abc");
    assert_eq!(sum, checksum(b"aabbcc"));

    // Without the compressor the value is the stored one
    let mut reader: Reader<Doubler> = Reader::new(writer.bytes(), 0);
    let (_, value, _) = reader.next().unwrap()?;
    assert_eq!(value.as_bytes(), b"aabbcc");
    let mut reader = Reader::new(writer.bytes(), 0).use_compression(Some(Doubler));
    let (_, value, _) = reader.next_stored().unwrap()?;
    assert_eq!(value.as_bytes(), b"aabbcc");

    // The error of the compressor is handed on
    let mut reader = Reader::new(writer.bytes(), 0).use_compression(Some(Broken));
    assert!(matches!(reader.next(), Some(Err(Error::Decompress))));

    let item = unpack(&Doubler, Slice::new(b"k"), Slice::new(b"xxyy"), 5)?;
    assert_eq!(item.0.as_bytes(), b"k");
    assert_eq!(item.1.as_bytes(), b"xy");
    assert_eq!(item.2, 5);
    assert!(matches!(
        unpack(&Doubler, Slice::new(b"k"), Slice::new(b"xxy"), 5),
        Err(Error::Decompress)
    ));
    Ok(())
}

#[test]
fn multi_writer_rotates_at_the_target_size() -> value_log::Result<()> {
    let mut ids = IdGenerator::new(10);
    let mut writer: SegmentWriter<NoCompressor> = SegmentWriter::new(&mut ids, 100)?;

    let handle = writer.get_next_value_handle();
    assert_eq!((handle.segment_id, handle.offset), (10, 0));
    assert_eq!(writer.offset(), 0);
    assert_eq!(writer.segment_id(), 10);

    // 18 + 1 + 50 = 69 bytes: below the target
    writer.write(&mut ids, b"a", &[1; 50])?;
    let handle = writer.get_next_value_handle();
    assert_eq!((handle.segment_id, handle.offset), (10, 69));

    // 138 bytes: the file is ended, and the next one begun
    writer.write(&mut ids, b"b", &[2; 50])?;
    let handle = writer.get_next_value_handle();
    assert_eq!((handle.segment_id, handle.offset), (11, 0));
    assert_eq!(writer.get_active_writer().item_count(), 0);

    // Exactly the target size ends the file too
    writer.write(&mut ids, b"c", &[3; 81])?;
    let handle = writer.get_next_value_handle();
    assert_eq!((handle.segment_id, handle.offset), (12, 0));

    writer.write(&mut ids, b"d", &[4; 5])?;

    // A failed write changes nothing
    assert!(writer.write(&mut ids, b"", b"x").is_err());
    let handle = writer.get_next_value_handle();
    assert_eq!((handle.segment_id, handle.offset), (12, 24));

    let writers = writer.finish()?;
    assert_eq!(writers.len(), 3);
    assert_eq!(writers[0].segment_id(), 10);
    assert_eq!(writers[0].item_count(), 2);
    assert_eq!(writers[1].segment_id(), 11);
    assert_eq!(writers[1].item_count(), 1);
    assert_eq!(writers[2].segment_id(), 12);
    assert_eq!(writers[2].item_count(), 1);
    for w in &writers {
        assert!(SegmentFileTrailer::is_complete(w.bytes()));
    }

    // The generator has handed out three IDs
    assert_eq!(ids.next(), 13);
    Ok(())
}

#[test]
fn multi_writer_without_items_is_not_ended() -> value_log::Result<()> {
    let mut ids = IdGenerator::default();
    let writer: SegmentWriter<NoCompressor> = SegmentWriter::new(&mut ids, 100)?;
    let writers = writer.finish()?;
    assert_eq!(writers.len(), 1);
    assert_eq!(writers[0].item_count(), 0);
    assert_eq!(writers[0].bytes(), b"");
    Ok(())
}

#[test]
fn multi_writer_hands_its_compressor_on() -> value_log::Result<()> {
    let mut ids = IdGenerator::default();
    let writer: SegmentWriter<Doubler> = SegmentWriter::new(&mut ids, 30)?;
    let mut writer = writer.use_compression(Some(Doubler));
    assert_eq!(writer.write(&mut ids, b"a", b"abcdef")?, 12);
    assert_eq!(writer.segment_id(), 1);
    assert!(writer.get_active_writer().is_compressed());
    assert_eq!(writer.write(&mut ids, b"b", b"ab")?, 4);
    Ok(())
}

fn file_of(id: u64, items: &[(&[u8], &[u8])]) -> Vec<u8> {
    let mut writer: Writer<NoCompressor> = Writer::new(id);
    for (key, value) in items {
        writer.write(key, value).unwrap();
    }
    writer.flush().unwrap();
    writer.into_bytes()
}

fn merge_all(files: &[(u64, Vec<u8>)]) -> Vec<(Vec<u8>, Vec<u8>, u64)> {
    let readers: Vec<Reader<NoCompressor>> = files
        .iter()
        .map(|(id, data)| Reader::new(data, *id))
        .collect();
    let mut merge = MergeReader::new(readers);
    assert_eq!(merge.len(), files.len());
    let mut out = vec![];
    while let Some(item) = merge.next() {
        let (key, value, id, sum) = item.unwrap();
        assert_eq!(sum, checksum(value.as_bytes()));
        out.push((key.to_vec(), value.to_vec(), id));
    }
    assert!(merge.next().is_none());
    out
}

#[test]
fn merge_yields_each_key_once_from_the_newest_file() {
    let files = vec![
        (0, file_of(0, &[(b"a", b"a0"), (b"b", b"b0"), (b"d", b"d0")])),
        (2, file_of(2, &[(b"b", b"b2"), (b"c", b"c2")])),
        (1, file_of(1, &[(b"a", b"a1"), (b"b", b"b1"), (b"e", b"e1")])),
    ];
    let out = merge_all(&files);
    assert_eq!(
        out,
        vec![
            (b"a".to_vec(), b"a1".to_vec(), 1),
            (b"b".to_vec(), b"b2".to_vec(), 2),
            (b"c".to_vec(), b"c2".to_vec(), 2),
            (b"d".to_vec(), b"d0".to_vec(), 0),
            (b"e".to_vec(), b"e1".to_vec(), 1),
        ]
    );
}

#[test]
fn merge_orders_keys_as_byte_strings() {
    let files = vec![
        (0, file_of(0, &[(b"a", b"1"), (b"ab", b"2"), (b"b", b"3")])),
        (1, file_of(1, &[(&[0u8], b"4"), (b"aa", b"5"), (&[0xff], b"6")])),
    ];
    let keys: Vec<Vec<u8>> = merge_all(&files).into_iter().map(|e| e.0).collect();
    assert_eq!(
        keys,
        vec![
            vec![0u8],
            b"a".to_vec(),
            b"aa".to_vec(),
            b"ab".to_vec(),
            b"b".to_vec(),
            vec![0xff]
        ]
    );
}

#[test]
fn merge_of_nothing() {
    assert!(merge_all(&[]).is_empty());
    assert!(merge_all(&[(0, file_of(0, &[]))]).is_empty());
    let one = merge_all(&[(0, file_of(0, &[])), (1, file_of(1, &[(b"k", b"v")]))]);
    assert_eq!(one, vec![(b"k".to_vec(), b"v".to_vec(), 1)]);
}

#[test]
fn merge_passes_a_key_over_that_comes_again() {
    // Within one file a key that comes twice in a row is handed out once
    let files = vec![(0, file_of(0, &[(b"a", b"first"), (b"a", b"second"), (b"b", b"b")]))];
    let out = merge_all(&files);
    assert_eq!(
        out,
        vec![
            (b"a".to_vec(), b"first".to_vec(), 0),
            (b"b".to_vec(), b"b".to_vec(), 0)
        ]
    );
}

#[test]
fn merge_fails_where_a_file_cannot_be_read() {
    let good = file_of(0, &[(b"a", b"a0"), (b"c", b"c0")]);
    let mut bad = file_of(1, &[(b"b", b"b1")]);
    bad.truncate(18 + 1 + 2 + 3);

    let readers: Vec<Reader<NoCompressor>> = vec![Reader::new(&good, 0), Reader::new(&bad, 1)];
    let mut merge = MergeReader::new(readers);
    let (key, _, _, _) = merge.next().unwrap().unwrap();
    assert_eq!(key.as_bytes(), b"a");
    // The file 1 ends behind its record: the merge fails there, for good
    assert!(matches!(merge.next(), Some(Err(Error::Io(_)))));
    assert!(merge.next().is_none());
    assert!(merge.next().is_none());

    // A file that cannot be read at all
    let readers: Vec<Reader<NoCompressor>> = vec![Reader::new(&good, 0), Reader::new(b"XXXX", 1)];
    let mut merge = MergeReader::new(readers);
    assert!(matches!(
        merge.next(),
        Some(Err(Error::Decode(DecodeError::InvalidHeader("Blob"))))
    ));
    assert!(merge.next().is_none());
}

#[test]
fn pack_makes_the_record_of_what_the_compressor_gave() {
    let item = pack(Ok(b"value".to_vec()), Slice::new(b"key"), 7).unwrap();
    assert_eq!(item.0.as_bytes(), b"key");
    assert_eq!(item.1.as_bytes(), b"value");
    assert_eq!(item.2, 7);

    let item = pack(Ok(vec![]), Slice::new(b"k"), 0).unwrap();
    assert_eq!(item.1.as_bytes(), b"");

    // The error of the compressor is handed on as it is
    assert!(matches!(
        pack(Err(Error::Compress), Slice::new(b"key"), 7),
        Err(Error::Compress)
    ));
    assert!(matches!(
        pack(Err(Error::Unrecoverable), Slice::new(b"key"), 7),
        Err(Error::Unrecoverable)
    ));
}

/// Stores the bytes in reverse, and refuses the value "no"
#[derive(Clone, Default)]
struct Mirror;

impl Compressor for Mirror {
    fn compress(&self, bytes: &[u8]) -> value_log::Result<Vec<u8>> {
        if bytes == b"no" {
            return Err(Error::Compress);
        }
        Ok(bytes.iter().rev().copied().collect())
    }

    fn decompress(&self, bytes: &[u8]) -> value_log::Result<Vec<u8>> {
        if bytes == b"on" {
            return Err(Error::Decompress);
        }
        Ok(bytes.iter().rev().copied().collect())
    }
}

#[test]
fn writer_stores_what_the_compressor_gave() -> value_log::Result<()> {
    let mut ids = IdGenerator::new(0);
    let mut writer: SegmentWriter<Mirror> =
        SegmentWriter::new(&mut ids, 1_000)?.use_compression(Some(Mirror));

    assert_eq!(writer.write(&mut ids, b"k", b"abc")?, 3);
    let file = writer.get_active_writer().bytes().to_vec();
    assert_eq!(&file[18 + 1..], b"cba");

    // The error of the compressor is handed on, and nothing is written
    assert!(matches!(writer.write(&mut ids, b"k", b"no"), Err(Error::Compress)));
    assert_eq!(writer.get_active_writer().bytes(), file);
    assert_eq!(writer.get_active_writer().item_count(), 1);

    Ok(())
}

#[test]
fn reader_hands_on_what_the_compressor_gave() -> value_log::Result<()> {
    let mut ids = IdGenerator::new(0);
    let mut writer: SegmentWriter<NoCompressor> = SegmentWriter::new(&mut ids, 1_000)?;
    writer.write(&mut ids, b"a", b"abc")?;
    writer.write(&mut ids, b"b", b"on")?;
    let writers = writer.finish()?;
    let file = writers[0].bytes();

    let mut reader = Reader::new(file, 0).use_compression(Some(Mirror));
    let (key, value, _) = reader.next().unwrap()?;
    assert_eq!(key.as_bytes(), b"a");
    assert_eq!(value.as_bytes(), b"cba");
    assert!(matches!(reader.next(), Some(Err(Error::Decompress))));
    assert!(reader.next().is_none());

    Ok(())
}
