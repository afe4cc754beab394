use std::cell::RefCell;
use std::collections::BTreeMap;
use std::rc::Rc;
use value_log::value_log::Changes;
use value_log::manifest::SegmentFile;
use value_log::scanner::Scanner;
use value_log::value_log::Disk;
use value_log::value_log::Lookup;
use value_log::value_log::Opened;
use value_log::value_log::Rollover;
use value_log::BlobCache;
use value_log::Compressor;
use value_log::Config;
use value_log::Error;
use value_log::GcStrategy;
use value_log::IndexReader;
use value_log::IndexWriter;
use value_log::SpaceAmpStrategy;
use value_log::StaleThresholdStrategy;
use value_log::UserValue;
use value_log::ValueHandle;
use value_log::ValueLog;
use value_log::ValueLogId;

/// What stands for the folder of a value log.
#[derive(Default)]
struct Folder {
    marker: Option<Vec<u8>>,
    manifest: Vec<u8>,
    segments: BTreeMap<String, Vec<u8>>,
}

impl Folder {
    fn open<BC: BlobCache, C: Compressor + Clone>(
        &mut self,
        config: Config<BC, C>,
    ) -> value_log::Result<ValueLog<BC, C>> {
        let names: Vec<String> = self.segments.keys().cloned().collect();
        let opened = match &self.marker {
            Some(marker) => {
                let disk = Disk {
                    marker,
                    manifest: &self.manifest,
                    names: names.iter().map(|n| n.as_bytes().to_vec()).collect(),
                    segments: self.files(),
                };
                ValueLog::open(0, config, Some(&disk))?
            }
            None => ValueLog::open(0, config, None)?,
        };
        match opened {
            Opened::Created(log, files) => {
                self.marker = Some(files.marker);
                self.manifest = files.manifest;
                Ok(log)
            }
            Opened::Recovered(log, unlink) => {
                for place in unlink {
                    self.segments.remove(&names[place]);
                }
                Ok(log)
            }
        }
    }

    fn apply(&mut self, changes: Changes) {
        for file in changes.files {
            self.segments.insert(file.id.to_string(), file.bytes);
        }
        self.manifest = changes.manifest;
        for id in changes.unlink {
            self.segments.remove(&id.to_string());
        }
    }

    fn files(&self) -> Vec<SegmentFile<'_>> {
        self.segments
            .iter()
            .filter_map(|(name, data)| {
                name.parse::<u64>().ok().map(|id| SegmentFile { id, data })
            })
            .collect()
    }

    fn file(&self, id: u64) -> &[u8] {
        match self.segments.get(&id.to_string()) {
            Some(data) => data,
            None => &[],
        }
    }
}

type MockIndexInner = RefCell<BTreeMap<Vec<u8>, (ValueHandle, u32)>>;

/// Mock in-memory index
#[derive(Clone, Default)]
struct MockIndex(Rc<MockIndexInner>);

impl MockIndex {
    fn remove(&self, key: &[u8]) {
        self.0.borrow_mut().remove(key);
    }

    fn entries(&self) -> Vec<std::io::Result<(ValueHandle, u32)>> {
        self.0.borrow().values().cloned().map(Ok).collect()
    }

    fn pairs(&self) -> Vec<(Vec<u8>, ValueHandle)> {
        self.0
            .borrow()
            .iter()
            .map(|(k, (h, _))| (k.clone(), *h))
            .collect()
    }

    fn insert_indirect(&self, key: &[u8], value: ValueHandle, size: u32) {
        self.0.borrow_mut().insert(key.into(), (value, size));
    }
}

impl IndexReader for MockIndex {
    fn get(&self, key: &[u8]) -> std::io::Result<Option<ValueHandle>> {
        Ok(self.0.borrow().get(key).map(|(vhandle, _)| *vhandle))
    }
}

/// Used for tests only
struct MockIndexWriter(pub MockIndex);

impl IndexWriter for MockIndexWriter {
    fn insert_indirect(
        &mut self,
        key: &[u8],
        value: ValueHandle,
        size: u32,
    ) -> std::io::Result<()> {
        self.0.insert_indirect(key, value, size);
        Ok(())
    }

    fn finish(self) -> std::io::Result<()> {
        Ok(())
    }
}

struct DebugIndexWriter;

impl IndexWriter for DebugIndexWriter {
    fn insert_indirect(&mut self, _: &[u8], _: ValueHandle, _: u32) -> std::io::Result<()> {
        Ok(())
    }

    fn finish(self) -> std::io::Result<()> {
        Err(std::io::Error::new(std::io::ErrorKind::Other, "Oh no"))
    }
}

#[derive(Clone, Default)]
struct NoCompressor;

impl Compressor for NoCompressor {
    fn compress(&self, bytes: &[u8]) -> value_log::Result<Vec<u8>> {
        Ok(bytes.into())
    }

    fn decompress(&self, bytes: &[u8]) -> value_log::Result<Vec<u8>> {
        Ok(bytes.into())
    }
}

#[derive(Clone, Debug, Default)]
struct Lz4Compressor;

impl Compressor for Lz4Compressor {
    fn compress(&self, bytes: &[u8]) -> value_log::Result<Vec<u8>> {
        Ok(lz4_flex::compress_prepend_size(bytes))
    }

    fn decompress(&self, bytes: &[u8]) -> value_log::Result<Vec<u8>> {
        lz4_flex::decompress_size_prepended(bytes).map_err(|_| value_log::Error::Decompress)
    }
}

#[derive(Clone)]
struct NoCacher;

impl BlobCache for NoCacher {
    fn get(&self, _: ValueLogId, _: &ValueHandle) -> Option<UserValue> {
        None
    }

    fn insert(&self, _: ValueLogId, _: &ValueHandle, _: UserValue) {}
}

/// A blob cache that keeps everything, and counts its hits.
#[derive(Clone, Default)]
struct MemCacher {
    values: Rc<RefCell<BTreeMap<(ValueLogId, u64, u64), UserValue>>>,
    hits: Rc<RefCell<u32>>,
}

impl BlobCache for MemCacher {
    fn get(&self, vlog_id: ValueLogId, vhandle: &ValueHandle) -> Option<UserValue> {
        let found = self
            .values
            .borrow()
            .get(&(vlog_id, vhandle.segment_id, vhandle.offset))
            .cloned();
        if found.is_some() {
            *self.hits.borrow_mut() += 1;
        }
        found
    }

    fn insert(&self, vlog_id: ValueLogId, vhandle: &ValueHandle, value: UserValue) {
        self.values
            .borrow_mut()
            .insert((vlog_id, vhandle.segment_id, vhandle.offset), value);
    }
}

/// Runs a rollover to its end: the new files are written, then the index
/// writer is finished, then the rollover is told what that gave.
fn finish_rollover<BC: BlobCache, C: Compressor + Clone, W: IndexWriter>(
    folder: &mut Folder,
    value_log: &mut ValueLog<BC, C>,
    rolled: Rollover,
    index_writer: W,
) -> value_log::Result<u64> {
    let Rollover { result, changes, ids, size_before, .. } = rolled;
    let Some(changes) = changes else {
        return result.map(|_| 0);
    };
    folder.apply(changes);
    result?;
    value_log.conclude(&ids, index_writer.finish(), size_before)
}

fn as_f32(ratio: value_log::ratio::Ratio) -> f32 {
    ratio.num as f32 / ratio.den as f32
}

fn write_items<BC: BlobCache, C: Compressor + Clone>(
    folder: &mut Folder,
    value_log: &mut ValueLog<BC, C>,
    index: &MockIndex,
    items: &[&str],
    repeat: usize,
) -> value_log::Result<()> {
    let mut index_writer = MockIndexWriter(index.clone());
    let mut writer = value_log.get_writer()?;

    for key in items {
        let value = key.repeat(repeat);
        let value = value.as_bytes();

        let key = key.as_bytes();

        let vhandle = writer.get_next_value_handle();
        index_writer.insert_indirect(key, vhandle, value.len() as u32)?;

        writer.write(&mut value_log.id_generator, key, value)?;
    }

    folder.apply(value_log.register_writer(writer)?);
    Ok(())
}

#[test]
fn basic_kv() -> value_log::Result<()> {
    let mut folder = Folder::default();

    let index = MockIndex::default();

    let items = ["a", "b", "c", "d", "e"];

    {
        let mut value_log = folder.open(Config::<_, NoCompressor>::new(NoCacher))?;
        write_items(&mut folder, &mut value_log, &index, &items, 10_000)?;
    }

    {
        let value_log = folder.open(Config::<_, NoCompressor>::new(NoCacher))?;

        assert_eq!(1, value_log.segment_count());

        let segments = value_log.manifest.list_segments();

        let segment = segments.first().unwrap();

        assert_eq!(items.len() as u64, segment.len());
        assert_eq!(0, segment.gc_stats.stale_items());

        assert_eq!(segment.meta.key_range.min().as_bytes(), b"a");
        assert_eq!(segment.meta.key_range.max().as_bytes(), b"e");

        let mut scanner = segment.scan::<NoCompressor>(folder.file(segment.id));
        let mut count = 0;
        while let Some(item) = scanner.next() {
            item?;
            count += 1;
        }
        assert_eq!(segment.len(), count);

        for (key, vhandle) in index.pairs() {
            let item = value_log
                .get(&vhandle, folder.file(vhandle.segment_id))?
                .unwrap();
            assert_eq!(item.as_bytes(), key.repeat(10_000));
        }
    }

    Ok(())
}

#[test]
fn basic_gc() -> value_log::Result<()> {
    let mut folder = Folder::default();

    let index = MockIndex::default();

    let mut value_log = folder.open(Config::<_, NoCompressor>::new(NoCacher))?;

    let items = ["a", "b", "c", "d", "e"];
    write_items(&mut folder, &mut value_log, &index, &items, 10_000)?;

    {
        assert_eq!(1, value_log.segment_count());

        let segments = value_log.manifest.list_segments();

        assert_eq!(5, segments.first().unwrap().len());
        assert_eq!(0, segments.first().unwrap().gc_stats.stale_items());
    }

    for (key, vhandle) in index.pairs() {
        let item = value_log
            .get(&vhandle, folder.file(vhandle.segment_id))?
            .unwrap();
        assert_eq!(item.as_bytes(), key.repeat(10_000));
    }

    write_items(&mut folder, &mut value_log, &index, &items, 10_000)?;

    {
        assert_eq!(2, value_log.segment_count());

        let segments = value_log.manifest.list_segments();

        assert_eq!(5, segments.first().unwrap().len());
        assert_eq!(0, segments.first().unwrap().gc_stats.stale_items());
    }

    for (key, vhandle) in index.pairs() {
        let item = value_log
            .get(&vhandle, folder.file(vhandle.segment_id))?
            .unwrap();
        assert_eq!(item.as_bytes(), key.repeat(10_000));
    }

    let mut index_writer = MockIndexWriter(index.clone());
    let rolled = value_log.major_compact(&folder.files(), &index, &mut index_writer);
    finish_rollover(&mut folder, &mut value_log, rolled, index_writer)?;
    if let (_, Some(changes)) = value_log.drop_stale_segments()? {
        folder.apply(changes);
    }

    {
        assert_eq!(1, value_log.segment_count());

        let segments = value_log.manifest.list_segments();

        assert_eq!(5, segments.first().unwrap().len());
        assert_eq!(0, segments.first().unwrap().gc_stats.stale_items());
    }

    for (key, vhandle) in index.pairs() {
        let item = value_log
            .get(&vhandle, folder.file(vhandle.segment_id))?
            .unwrap();
        assert_eq!(item.as_bytes(), key.repeat(10_000));
    }

    Ok(())
}

#[test]
fn accidental_drop_rc() -> value_log::Result<()> {
    let mut folder = Folder::default();

    let index = MockIndex::default();

    let mut value_log = folder.open(Config::<_, NoCompressor>::new(NoCacher))?;

    for key in ["a", "b"] {
        write_items(&mut folder, &mut value_log, &index, &[key], 1)?;
    }

    assert_eq!(2, value_log.segment_count());

    value_log.scan_for_stats(&index.entries())?;
    if let (_, Some(changes)) = value_log.drop_stale_segments()? {
        folder.apply(changes);
    }
    assert_eq!(2, value_log.segment_count());

    let segment_ids = value_log.manifest.list_segment_ids();

    // NOTE: Now start a new GC scan
    let mut scanner = Scanner::new(&segment_ids);
    scanner.scan(&index.entries())?;
    let scan_result = scanner.finish();

    // NOTE: Now, we create a new blob file, that won't be referenced in the GC report
    write_items(&mut folder, &mut value_log, &index, &["c"], 1)?;
    assert_eq!(3, value_log.segment_count());

    // NOTE: Now we can consume the scan result, which, in a bad implementation
    // would cause the new blob file to be marked as stale
    //
    // But we are forced to pass the list of segment IDs we saw before starting the
    // scan, which prevents marking ones as stale that were created later
    let _ = value_log.consume_scan_result(&scan_result);

    // IMPORTANT: The new blob file should not be dropped
    if let (_, Some(changes)) = value_log.drop_stale_segments()? {
        folder.apply(changes);
    }
    assert_eq!(3, value_log.segment_count());

    Ok(())
}

#[test]
fn compression() -> value_log::Result<()> {
    let mut folder = Folder::default();

    let index = MockIndex::default();

    let mut value_log =
        folder.open(Config::<_, Lz4Compressor>::new(NoCacher).compression(Some(Lz4Compressor)))?;

    let mut index_writer = MockIndexWriter(index.clone());
    let mut writer = value_log.get_writer()?;

    let key = "abc";
    let value = "verycompressable".repeat(10);

    {
        let vhandle = writer.get_next_value_handle();
        index_writer.insert_indirect(key.as_bytes(), vhandle, value.len() as u32)?;

        let written_bytes =
            writer.write(&mut value_log.id_generator, key.as_bytes(), value.as_bytes())?;
        assert!(written_bytes < value.len() as u32);

        folder.apply(value_log.register_writer(writer)?);

        assert_eq!(
            value_log
                .get(&vhandle, folder.file(vhandle.segment_id))?
                .expect("value should exist")
                .as_bytes(),
            value.as_bytes(),
        );
    }

    {
        let segments = value_log.manifest.list_segments();
        let segment = segments.first().unwrap();
        assert_eq!(segment.meta.compressed_bytes, 32);
        assert_eq!(segment.meta.total_uncompressed_bytes, value.len() as u64);
    }

    {
        let mut index_writer = MockIndexWriter(index.clone());
        let rolled = value_log.major_compact(&folder.files(), &index, &mut index_writer);
        let bytes_saved = finish_rollover(&mut folder, &mut value_log, rolled, index_writer)?;
        if let (_, Some(changes)) = value_log.drop_stale_segments()? {
            folder.apply(changes);
        }

        assert_eq!(0, bytes_saved);

        let vhandle = index.get(key.as_bytes())?.unwrap();

        assert_eq!(
            value_log
                .get(&vhandle, folder.file(vhandle.segment_id))?
                .expect("value should exist")
                .as_bytes(),
            value.as_bytes(),
        );
    }

    {
        let segments = value_log.manifest.list_segments();
        let segment = segments.first().unwrap();
        assert_eq!(segment.meta.compressed_bytes, 32);
        assert_eq!(segment.meta.total_uncompressed_bytes, value.len() as u64);
    }

    Ok(())
}

#[test]
fn gc_space_amp_target_1() -> value_log::Result<()> {
    let mut folder = Folder::default();

    let index = MockIndex::default();

    let mut value_log = folder.open(Config::<_, NoCompressor>::new(NoCacher))?;

    assert_eq!(0.0, as_f32(value_log.space_amp()));
    assert_eq!(0.0, as_f32(value_log.manifest.stale_ratio()));

    let key = b"key";
    let value = "value".repeat(20_000);

    // NOTE: Write a single item 10x
    // -> should result in space amp = 10.0x
    for x in 1..=10 {
        let mut index_writer = MockIndexWriter(index.clone());
        let mut writer = value_log.get_writer()?;

        let handle = writer.get_next_value_handle();
        index_writer.insert_indirect(key, handle, value.len() as u32)?;

        writer.write(&mut value_log.id_generator, key, value.as_bytes())?;

        {
            let key = format!("key{x}");
            let value = "value".repeat(5_000);

            let key = key.as_bytes();

            let handle = writer.get_next_value_handle();
            index_writer.insert_indirect(key, handle, value.len() as u32)?;

            writer.write(&mut value_log.id_generator, key, value.as_bytes())?;
        }

        folder.apply(value_log.register_writer(writer)?);
    }

    value_log.scan_for_stats(&index.entries())?;

    assert!(as_f32(value_log.space_amp()) > 2.0);

    {
        let target_space_amp = 8.0;

        let strategy = SpaceAmpStrategy::new(8, 1);
        let mut index_writer = MockIndexWriter(index.clone());
        let rolled =
            value_log.apply_gc_strategy(&strategy, &folder.files(), &index, &mut index_writer);
        finish_rollover(&mut folder, &mut value_log, rolled, index_writer)?;
        if let (_, Some(changes)) = value_log.drop_stale_segments()? {
            folder.apply(changes);
        }

        value_log.scan_for_stats(&index.entries())?;
        assert!(as_f32(value_log.space_amp()) <= target_space_amp);
    }

    {
        let target_space_amp = 2.0;

        let strategy = SpaceAmpStrategy::new(2, 1);
        let mut index_writer = MockIndexWriter(index.clone());
        let rolled =
            value_log.apply_gc_strategy(&strategy, &folder.files(), &index, &mut index_writer);
        finish_rollover(&mut folder, &mut value_log, rolled, index_writer)?;
        if let (_, Some(changes)) = value_log.drop_stale_segments()? {
            folder.apply(changes);
        }

        // The strategy has picked the six oldest segments. The index had a
        // handle for the key into a newer segment, so that the record of the
        // key was rewritten with the others: the new segment holds 250000
        // bytes, and the log 750000 bytes, of which 350000 are live.
        assert!((target_space_amp - 2.0f32).abs() < f32::EPSILON);
        assert_eq!(value_log.manifest.list_segment_ids(), [6, 7, 8, 9, 10]);
        assert_eq!(index.get(key)?.unwrap().segment_id, 10);
        value_log.scan_for_stats(&index.entries())?;
        let amp = value_log.space_amp();
        assert_eq!((amp.num, amp.den), (750_000, 350_000));
    }

    for (key, vhandle) in index.pairs() {
        let item = value_log
            .get(&vhandle, folder.file(vhandle.segment_id))?
            .unwrap();
        if key == b"key" {
            assert_eq!(item.as_bytes(), "value".repeat(20_000).as_bytes());
        } else {
            assert_eq!(item.as_bytes(), "value".repeat(5_000).as_bytes());
        }
    }

    Ok(())
}

#[test]
fn basic_recovery() -> value_log::Result<()> {
    let mut folder = Folder::default();

    let index = MockIndex::default();

    let items = ["a", "b", "c", "d", "e"];

    {
        let mut value_log = folder.open(Config::<_, NoCompressor>::new(NoCacher))?;
        write_items(&mut folder, &mut value_log, &index, &items, 10_000)?;

        {
            assert_eq!(1, value_log.segment_count());

            let segments = value_log.manifest.list_segments();

            assert_eq!(items.len() as u64, segments.first().unwrap().len());
            assert_eq!(0, segments.first().unwrap().gc_stats.stale_items());
        }

        for (key, vhandle) in index.pairs() {
            let item = value_log
                .get(&vhandle, folder.file(vhandle.segment_id))?
                .unwrap();
            assert_eq!(item.as_bytes(), key.repeat(10_000));
        }
    }

    {
        let mut value_log = folder.open(Config::<_, NoCompressor>::new(NoCacher))?;

        value_log.scan_for_stats(&index.entries())?;

        {
            assert_eq!(1, value_log.segment_count());

            let segments = value_log.manifest.list_segments();

            assert_eq!(items.len() as u64, segments.first().unwrap().len());
            assert_eq!(0, segments.first().unwrap().gc_stats.stale_items());
        }

        for (key, vhandle) in index.pairs() {
            let item = value_log
                .get(&vhandle, folder.file(vhandle.segment_id))?
                .unwrap();
            assert_eq!(item.as_bytes(), key.repeat(10_000));
        }
    }

    Ok(())
}

#[test]
fn recovery_delete_unfinished() -> value_log::Result<()> {
    let mut folder = Folder::default();

    let index = MockIndex::default();

    let items = ["a", "b", "c", "d", "e"];

    {
        let mut value_log = folder.open(Config::<_, NoCompressor>::new(NoCacher))?;
        write_items(&mut folder, &mut value_log, &index, &items, 10_000)?;
    }

    folder.segments.insert("5".to_string(), vec![]);

    {
        let value_log = folder.open(Config::<_, NoCompressor>::new(NoCacher))?;
        assert_eq!(1, value_log.segment_count());
    }

    assert!(!folder.segments.contains_key("5"));

    Ok(())
}

#[test]
fn recovery_fail() -> value_log::Result<()> {
    let mut folder = Folder::default();

    let index = MockIndex::default();

    let items = ["a", "b", "c", "d", "e"];

    {
        let mut value_log = folder.open(Config::<_, NoCompressor>::new(NoCacher))?;

        for _ in 0..2 {
            write_items(&mut folder, &mut value_log, &index, &items, 10_000)?;
        }

        {
            assert_eq!(2, value_log.segment_count());
        }
    }

    // NOTE: Delete blob file to trigger Unrecoverable (it is referenced in manifest, but not on disk anymore)
    folder.segments.remove("1");

    {
        assert!(matches!(
            folder.open(Config::<_, NoCompressor>::new(NoCacher)),
            Err(value_log::Error::Unrecoverable),
        ));
    }

    Ok(())
}

#[test]
fn recovery_mac_ds_store() -> value_log::Result<()> {
    let mut folder = Folder::default();

    {
        let mut value_log = folder.open(Config::<_, NoCompressor>::new(NoCacher))?;

        let mut writer = value_log.get_writer()?;
        writer.write(&mut value_log.id_generator, b"a", b"a")?;
        folder.apply(value_log.register_writer(writer)?);
    }

    folder.segments.insert(".DS_Store".to_string(), vec![]);
    assert!(folder.segments.contains_key(".DS_Store"));

    {
        let value_log = folder.open(Config::<_, NoCompressor>::new(NoCacher))?;
        assert_eq!(1, value_log.segment_count());
    }
    assert!(folder.segments.contains_key(".DS_Store"));

    Ok(())
}

#[test]
fn rollover_index_fail_finish() -> value_log::Result<()> {
    let mut folder = Folder::default();

    let index = MockIndex::default();

    let mut value_log = folder.open(Config::<_, NoCompressor>::new(NoCacher))?;

    let items = ["a", "b", "c", "d", "e"];
    write_items(&mut folder, &mut value_log, &index, &items, 10_000)?;

    assert_eq!(value_log.manifest.list_segment_ids(), [0]);
    value_log.scan_for_stats(&index.entries())?;
    assert_eq!(1.0, as_f32(value_log.space_amp()));

    index.remove(b"a");
    index.remove(b"b");
    index.remove(b"c");
    index.remove(b"d");

    value_log.scan_for_stats(&index.entries())?;
    assert_eq!(
        as_f32(value_log.manifest.get_segment(0).unwrap().stale_ratio()),
        0.8
    );
    assert!(as_f32(value_log.space_amp()) > 1.0);

    let mut index_writer = DebugIndexWriter;
    let rolled = value_log.rollover(&[0], &folder.files(), &index, &mut index_writer);
    // The rewriting has succeeded, and the new file is to be written
    assert!(rolled.result.is_ok());
    assert!(rolled.changes.is_some());
    let result = finish_rollover(&mut folder, &mut value_log, rolled, index_writer);
    assert!(matches!(result, Err(Error::Io(_))));
    assert!(result.is_err());

    // NOTE: Segment 1's value handles were not committed to index, so it's not referenced at all
    // We get no data loss, the segment is just left dangling and can be removed
    assert_eq!(
        {
            let mut ids = value_log.manifest.list_segment_ids();
            ids.sort();
            ids
        },
        [0, 1]
    );

    value_log.scan_for_stats(&index.entries())?;
    assert_eq!(
        as_f32(value_log.manifest.get_segment(0).unwrap().stale_ratio()),
        0.8
    );
    assert!(as_f32(value_log.space_amp()) > 1.0);

    if let (_, Some(changes)) = value_log.drop_stale_segments()? {
        folder.apply(changes);
    }
    assert_eq!(value_log.manifest.list_segment_ids(), [0]);

    index.remove(b"e");

    // NOTE: Now all values are stale, and everything can be dropped
    value_log.scan_for_stats(&index.entries())?;
    if let (_, Some(changes)) = value_log.drop_stale_segments()? {
        folder.apply(changes);
    }
    assert_eq!(value_log.manifest.list_segment_ids(), []);
    assert_eq!(0.0, as_f32(value_log.space_amp()));

    Ok(())
}

#[test]
fn worst_case_space_amp() -> value_log::Result<()> {
    let mut folder = Folder::default();

    let index = MockIndex::default();

    let mut value_log = folder.open(Config::<_, NoCompressor>::new(NoCacher))?;

    assert_eq!(0.0, as_f32(value_log.space_amp()));
    assert_eq!(0.0, as_f32(value_log.manifest.stale_ratio()));

    let key = b"key";
    let value = "value".repeat(5_000);

    // NOTE: Write a single item 10x
    // -> should result in space amp = 10.0x
    for x in 1..=10 {
        let mut index_writer = MockIndexWriter(index.clone());
        let mut writer = value_log.get_writer()?;

        let vhandle = writer.get_next_value_handle();
        index_writer.insert_indirect(key, vhandle, value.len() as u32)?;

        writer.write(&mut value_log.id_generator, key, value.as_bytes())?;

        folder.apply(value_log.register_writer(writer)?);

        value_log.scan_for_stats(&index.entries())?;

        assert_eq!(x as f32, as_f32(value_log.space_amp()));

        if x > 1 {
            assert!(
                (1.0 - (1.0 / x as f32) - as_f32(value_log.manifest.stale_ratio())) < 0.00001
            );
        }
    }

    Ok(())
}

#[test]
fn no_overlap_space_amp() -> value_log::Result<()> {
    let mut folder = Folder::default();

    let index = MockIndex::default();

    let mut value_log = folder.open(Config::<_, NoCompressor>::new(NoCacher))?;

    assert_eq!(0.0, as_f32(value_log.manifest.stale_ratio()));
    assert_eq!(0.0, as_f32(value_log.space_amp()));

    // NOTE: No blobs overlap, so there are no dead blobs => space amp = 1.0 => perfect space amp
    for i in 0..100 {
        let key = i.to_string();
        let value = "afsasfdfasdfsda".repeat(5_000);

        let mut index_writer = MockIndexWriter(index.clone());
        let mut writer = value_log.get_writer()?;

        let vhandle = writer.get_next_value_handle();
        index_writer.insert_indirect(key.as_bytes(), vhandle, value.len() as u32)?;

        writer.write(&mut value_log.id_generator, key.as_bytes(), value.as_bytes())?;
        folder.apply(value_log.register_writer(writer)?);

        value_log.scan_for_stats(&index.entries())?;

        assert_eq!(1.0, as_f32(value_log.space_amp()));
        assert_eq!(0.0, as_f32(value_log.manifest.stale_ratio()));
    }

    Ok(())
}

#[test]
fn vlog_clear() -> value_log::Result<()> {
    let mut folder = Folder::default();

    let index = MockIndex::default();

    let items = ["a", "b", "c", "d", "e"];

    {
        let mut value_log = folder.open(Config::<_, NoCompressor>::new(NoCacher))?;

        for _ in 0..5 {
            write_items(&mut folder, &mut value_log, &index, &items, 10_000)?;
        }

        assert_eq!(5, value_log.segment_count());

        folder.apply(value_log.clear());
        assert_eq!(0, value_log.segment_count());

        // NOTE: Need to clear the index to get rid of all vHandles
        index.0.borrow_mut().clear();
    }

    assert!(folder.segments.is_empty());

    {
        let mut value_log = folder.open(Config::<_, NoCompressor>::new(NoCacher))?;

        value_log.scan_for_stats(&index.entries())?;

        assert_eq!(0, value_log.segment_count());

        folder.apply(value_log.clear());
        assert_eq!(0, value_log.segment_count());
    }

    Ok(())
}

#[test]
fn round_trip_five_keys() -> value_log::Result<()> {
    let mut folder = Folder::default();
    let index = MockIndex::default();
    let mut value_log = folder.open(Config::<_, NoCompressor>::new(NoCacher))?;

    write_items(
        &mut folder,
        &mut value_log,
        &index,
        &["a", "b", "c", "d", "e"],
        10_000,
    )?;

    assert_eq!(1, value_log.segment_count());
    let segments = value_log.manifest.list_segments();
    assert_eq!(5, segments[0].len());
    assert_eq!(5, segments[0].meta.item_count);
    assert_eq!(0, segments[0].gc_stats.stale_items());
    assert_eq!(50_000, segments[0].meta.total_uncompressed_bytes);
    assert_eq!(50_000, segments[0].meta.compressed_bytes);
    assert_eq!(segments[0].meta.key_range.min().as_bytes(), b"a");
    assert_eq!(segments[0].meta.key_range.max().as_bytes(), b"e");

    let pairs = index.pairs();
    assert_eq!(5, pairs.len());
    for (key, vhandle) in pairs {
        let item = value_log
            .get(&vhandle, folder.file(vhandle.segment_id))?
            .unwrap();
        assert_eq!(item.as_bytes(), key.repeat(10_000));
        assert_eq!(item.len(), 10_000);
    }

    Ok(())
}

#[test]
fn two_writers_full_compaction() -> value_log::Result<()> {
    let mut folder = Folder::default();
    let index = MockIndex::default();
    let mut value_log = folder.open(Config::<_, NoCompressor>::new(NoCacher))?;

    let items = ["a", "b", "c", "d", "e"];
    write_items(&mut folder, &mut value_log, &index, &items, 10_000)?;
    write_items(&mut folder, &mut value_log, &index, &items, 10_000)?;

    assert_eq!(2, value_log.segment_count());
    value_log.scan_for_stats(&index.entries())?;
    assert_eq!(2.0, as_f32(value_log.space_amp()));
    assert!(value_log.space_amp().num == 2 * value_log.space_amp().den);

    let mut index_writer = MockIndexWriter(index.clone());
    let rolled = value_log.major_compact(&folder.files(), &index, &mut index_writer);
    assert_eq!(rolled.size_before, 100_000);
    assert_eq!(rolled.ids, [0, 1]);
    assert_eq!(finish_rollover(&mut folder, &mut value_log, rolled, index_writer)?, 0);
    assert_eq!(3, value_log.segment_count());

    let (freed, changes) = value_log.drop_stale_segments()?;
    assert_eq!(freed, 100_000);
    folder.apply(changes.unwrap());

    assert_eq!(1, value_log.segment_count());
    assert_eq!(value_log.manifest.list_segment_ids(), [2]);
    assert_eq!(folder.segments.len(), 1);
    let segments = value_log.manifest.list_segments();
    assert_eq!(5, segments[0].len());

    value_log.scan_for_stats(&index.entries())?;
    assert_eq!(1.0, as_f32(value_log.space_amp()));

    for (key, vhandle) in index.pairs() {
        assert_eq!(vhandle.segment_id, 2);
        let item = value_log
            .get(&vhandle, folder.file(vhandle.segment_id))?
            .unwrap();
        assert_eq!(item.as_bytes(), key.repeat(10_000));
    }

    Ok(())
}

#[test]
fn space_amp_target() -> value_log::Result<()> {
    let mut folder = Folder::default();
    let index = MockIndex::default();
    let mut value_log = folder.open(Config::<_, NoCompressor>::new(NoCacher))?;

    let value = "v".repeat(20_000);
    for pass in 0..10 {
        let mut index_writer = MockIndexWriter(index.clone());
        let mut writer = value_log.get_writer()?;

        let handle = writer.get_next_value_handle();
        index_writer.insert_indirect(b"k", handle, value.len() as u32)?;
        writer.write(&mut value_log.id_generator, b"k", value.as_bytes())?;

        let other = format!("other{pass}");
        let handle = writer.get_next_value_handle();
        index_writer.insert_indirect(other.as_bytes(), handle, 10)?;
        writer.write(&mut value_log.id_generator, other.as_bytes(), b"0123456789")?;

        folder.apply(value_log.register_writer(writer)?);
    }
    assert_eq!(10, value_log.segment_count());

    value_log.scan_for_stats(&index.entries())?;
    assert!(as_f32(value_log.space_amp()) > 2.0);

    // The target 8 is reached by dropping two values of the key
    let strategy = SpaceAmpStrategy::new(8, 1);
    let picked = strategy.select(&value_log.manifest);
    assert_eq!(picked, [0, 1]);
    let mut index_writer = MockIndexWriter(index.clone());
    let rolled = value_log.apply_gc_strategy(&strategy, &folder.files(), &index, &mut index_writer);
    finish_rollover(&mut folder, &mut value_log, rolled, index_writer)?;
    let (_, changes) = value_log.drop_stale_segments()?;
    folder.apply(changes.unwrap());
    assert!(value_log.space_amp().is_le(&value_log::ratio::Ratio::new(8, 1)));
    assert!(as_f32(value_log.space_amp()) <= 8.0);

    let strategy = SpaceAmpStrategy::new(2, 1);
    let mut index_writer = MockIndexWriter(index.clone());
    let rolled = value_log.apply_gc_strategy(&strategy, &folder.files(), &index, &mut index_writer);
    finish_rollover(&mut folder, &mut value_log, rolled, index_writer)?;
    let (_, changes) = value_log.drop_stale_segments()?;
    folder.apply(changes.unwrap());
    assert!(as_f32(value_log.space_amp()) <= 2.0);

    // The record of the key was rewritten by both rollovers: the index
    // had a handle for it, into a newer segment than the ones rolled over
    let vhandle = index.get(b"k")?.unwrap();
    assert_eq!(vhandle.segment_id, 11);
    let item = value_log
        .get(&vhandle, folder.file(vhandle.segment_id))?
        .unwrap();
    assert_eq!(item.as_bytes(), value.as_bytes());

    Ok(())
}

#[test]
fn prefetch_fills_the_cache() -> value_log::Result<()> {
    let mut folder = Folder::default();
    let cache = MemCacher::default();
    let mut value_log = folder.open(Config::<_, NoCompressor>::new(cache.clone()))?;

    let mut handles = vec![];
    let mut writer = value_log.get_writer()?;
    for i in 0u8..10 {
        handles.push(writer.get_next_value_handle());
        writer.write(&mut value_log.id_generator, &[b'k', i], &[i; 1024])?;
    }
    folder.apply(value_log.register_writer(writer)?);

    assert!(matches!(value_log.probe(&handles[0]), Lookup::Load(0)));

    let first = value_log
        .get_with_prefetch(&handles[0], 9, folder.file(0))?
        .unwrap();
    assert_eq!(first.as_bytes(), &[0u8; 1024]);
    assert_eq!(*cache.hits.borrow(), 0);
    assert_eq!(cache.values.borrow().len(), 10);

    for i in 1u8..10 {
        // The file is not needed: the value comes from the cache
        let value = value_log.get(&handles[i as usize], &[])?.unwrap();
        assert_eq!(value.len(), 1024);
        assert_eq!(value.as_bytes(), &[i; 1024]);
        assert_eq!(*cache.hits.borrow(), i as u32);
        assert!(matches!(
            value_log.probe(&handles[i as usize]),
            Lookup::Hit(_)
        ));
        *cache.hits.borrow_mut() -= 1;
    }

    Ok(())
}

#[test]
fn prefetch_stops_at_the_metadata() -> value_log::Result<()> {
    let mut folder = Folder::default();
    let cache = MemCacher::default();
    let mut value_log = folder.open(Config::<_, NoCompressor>::new(cache.clone()))?;

    let mut writer = value_log.get_writer()?;
    let first = writer.get_next_value_handle();
    writer.write(&mut value_log.id_generator, b"a", b"one")?;
    writer.write(&mut value_log.id_generator, b"b", b"two")?;
    folder.apply(value_log.register_writer(writer)?);

    let value = value_log
        .get_with_prefetch(&first, 100, folder.file(0))?
        .unwrap();
    assert_eq!(value.as_bytes(), b"one");
    assert_eq!(cache.values.borrow().len(), 2);

    // A file that is cut off behind the first record ends the prefetch silently
    let cache = MemCacher::default();
    let value_log = {
        let mut config = value_log.config;
        config.blob_cache = cache.clone();
        ValueLog { config, ..value_log }
    };
    let cut = &folder.file(0)[..18 + 1 + 3 + 5];
    let value = value_log.get_with_prefetch(&first, 5, cut)?.unwrap();
    assert_eq!(value.as_bytes(), b"one");
    assert_eq!(cache.values.borrow().len(), 1);

    Ok(())
}

#[test]
fn recovery_with_orphan() -> value_log::Result<()> {
    let mut folder = Folder::default();
    let index = MockIndex::default();
    {
        let mut value_log = folder.open(Config::<_, NoCompressor>::new(NoCacher))?;
        write_items(
            &mut folder,
            &mut value_log,
            &index,
            &["a", "b", "c", "d", "e"],
            10_000,
        )?;
    }
    let manifest_before = folder.manifest.clone();

    folder.segments.insert("999999".to_string(), vec![]);

    let value_log = folder.open(Config::<_, NoCompressor>::new(NoCacher))?;
    assert_eq!(1, value_log.segment_count());
    assert!(!folder.segments.contains_key("999999"));
    assert!(folder.segments.contains_key("0"));
    assert_eq!(folder.manifest, manifest_before);
    assert_eq!(folder.manifest, [0, 0, 0, 0, 0, 0, 0, 1, 0, 0, 0, 0, 0, 0, 0, 0]);

    // The next segment gets the ID after the greatest one
    let mut value_log = value_log;
    let writer = value_log.get_writer()?;
    assert_eq!(writer.get_next_value_handle().segment_id, 1);

    Ok(())
}

#[test]
fn gc_race_safety() -> value_log::Result<()> {
    let mut folder = Folder::default();
    let index = MockIndex::default();
    let mut value_log = folder.open(Config::<_, NoCompressor>::new(NoCacher))?;

    // Segment 0 is written, and then no longer referenced
    write_items(&mut folder, &mut value_log, &index, &["a"], 10)?;
    index.remove(b"a");

    // The scan has taken its snapshot: { 0 }
    let mut scanner = Scanner::new(&value_log.manifest.list_segment_ids());

    // Segment 1 is registered before the scan is consumed
    write_items(&mut folder, &mut value_log, &index, &["b"], 10)?;
    assert_eq!(value_log.manifest.list_segment_ids(), [0, 1]);

    // The index that the scan walks does not hold the new handle yet
    scanner.scan(&[])?;
    let report = value_log.consume_scan_result(&scanner.finish());
    assert_eq!(report.segment_count, 2);
    assert_eq!(report.stale_segment_count, 1);
    assert_eq!(report.total_blobs, 1);
    assert_eq!(report.stale_blobs, 1);
    assert_eq!(report.total_bytes, 10);
    assert_eq!(report.stale_bytes, 10);

    let (freed, changes) = value_log.drop_stale_segments()?;
    assert_eq!(freed, 10);
    let changes = changes.unwrap();
    assert_eq!(changes.unlink, [0]);
    folder.apply(changes);

    assert_eq!(value_log.manifest.list_segment_ids(), [1]);
    assert!(folder.segments.contains_key("1"));
    assert!(!folder.segments.contains_key("0"));

    let vhandle = index.get(b"b")?.unwrap();
    let item = value_log.get(&vhandle, folder.file(1))?.unwrap();
    assert_eq!(item.as_bytes(), b"bbbbbbbbbb");

    Ok(())
}

#[test]
fn unreferenced_segment_is_dropped() -> value_log::Result<()> {
    let mut folder = Folder::default();
    let index = MockIndex::default();
    let mut value_log = folder.open(Config::<_, NoCompressor>::new(NoCacher))?;

    write_items(&mut folder, &mut value_log, &index, &["a", "b"], 100)?;
    write_items(&mut folder, &mut value_log, &index, &["c"], 100)?;

    // The scan omits every handle of segment 0
    let entries: Vec<std::io::Result<(ValueHandle, u32)>> = index
        .pairs()
        .into_iter()
        .filter(|(_, h)| h.segment_id != 0)
        .map(|(_, h)| Ok((h, 100)))
        .collect();
    assert_eq!(entries.len(), 1);
    let report = value_log.scan_for_stats(&entries)?;
    assert_eq!(report.stale_segment_count, 1);
    assert_eq!(report.stale_blobs, 2);
    assert_eq!(report.stale_bytes, 200);
    assert_eq!(report.total_bytes, 300);
    assert_eq!(report.total_blobs, 3);
    assert!(value_log.manifest.get_segment(0).unwrap().is_stale());
    assert!(!value_log.manifest.get_segment(1).unwrap().is_stale());

    let (freed, changes) = value_log.drop_stale_segments()?;
    assert_eq!(freed, 200);
    folder.apply(changes.unwrap());
    assert!(value_log.manifest.get_segment(0).is_none());
    assert!(!folder.segments.contains_key("0"));
    assert_eq!(value_log.manifest.list_segment_ids(), [1]);

    // Nothing is stale any more: nothing is to be done
    let (freed, changes) = value_log.drop_stale_segments()?;
    assert_eq!(freed, 0);
    assert!(changes.is_none());

    Ok(())
}

#[test]
fn scan_stops_at_a_failure_of_the_index() -> value_log::Result<()> {
    let mut folder = Folder::default();
    let index = MockIndex::default();
    let mut value_log = folder.open(Config::<_, NoCompressor>::new(NoCacher))?;
    write_items(&mut folder, &mut value_log, &index, &["a"], 100)?;

    let entries = vec![
        Ok((ValueHandle { segment_id: 0, offset: 0 }, 100)),
        Err(std::io::Error::new(std::io::ErrorKind::Other, "broken")),
    ];
    assert!(matches!(value_log.scan_for_stats(&entries), Err(Error::Io(_))));
    assert_eq!(0, value_log.manifest.get_segment(0).unwrap().gc_stats.stale_items());

    Ok(())
}

#[test]
fn stale_threshold_picks_above_the_ratio() -> value_log::Result<()> {
    let mut folder = Folder::default();
    let index = MockIndex::default();
    let mut value_log = folder.open(Config::<_, NoCompressor>::new(NoCacher))?;

    write_items(&mut folder, &mut value_log, &index, &["a", "b", "c", "d"], 10)?;
    write_items(&mut folder, &mut value_log, &index, &["a", "b", "e", "f"], 10)?;
    write_items(&mut folder, &mut value_log, &index, &["g"], 10)?;
    value_log.scan_for_stats(&index.entries())?;

    // Segment 0 has 2 of 4 items stale, the others none
    assert_eq!(StaleThresholdStrategy::new(1, 2).select(&value_log.manifest), []);
    assert_eq!(StaleThresholdStrategy::new(49, 100).select(&value_log.manifest), [0]);
    assert_eq!(StaleThresholdStrategy::new(0, 1).select(&value_log.manifest), [0]);
    // A threshold above 1 counts as 1
    assert_eq!(StaleThresholdStrategy::new(7, 2).select(&value_log.manifest), []);

    assert_eq!(StaleThresholdStrategy::new(1, 4).pick(&value_log), [0]);

    Ok(())
}

#[test]
fn rollover_of_nothing_does_nothing() -> value_log::Result<()> {
    let mut folder = Folder::default();
    let index = MockIndex::default();
    let mut value_log = folder.open(Config::<_, NoCompressor>::new(NoCacher))?;
    write_items(&mut folder, &mut value_log, &index, &["a"], 10)?;

    let mut index_writer = MockIndexWriter(index.clone());
    let rolled = value_log.rollover(&[], &folder.files(), &index, &mut index_writer);
    assert!(rolled.result.is_ok());
    assert!(rolled.changes.is_none());

    // An ID that no segment has
    let rolled = value_log.rollover(&[0, 7], &folder.files(), &index, &mut index_writer);
    assert!(rolled.result.is_ok());
    assert!(rolled.changes.is_none());
    assert_eq!(finish_rollover(&mut folder, &mut value_log, rolled, MockIndexWriter(index.clone()))?, 0);
    assert_eq!(value_log.manifest.list_segment_ids(), [0]);

    // A missing file
    let rolled = value_log.rollover(&[0], &[], &index, &mut index_writer);
    assert!(matches!(rolled.result, Err(Error::Io(_))));
    assert!(rolled.changes.is_none());
    assert_eq!(value_log.manifest.list_segment_ids(), [0]);

    Ok(())
}

#[test]
fn rollover_keeps_what_the_index_points_at() -> value_log::Result<()> {
    let mut folder = Folder::default();
    let index = MockIndex::default();
    let mut value_log = folder.open(Config::<_, NoCompressor>::new(NoCacher))?;

    // Segment 0 holds a, b, c; segment 1 holds another b, at which the
    // index points; c is deleted
    write_items(&mut folder, &mut value_log, &index, &["a", "b", "c"], 10)?;
    write_items(&mut folder, &mut value_log, &index, &["b"], 20)?;
    index.remove(b"c");

    let mut index_writer = MockIndexWriter(index.clone());
    let rolled = value_log.rollover(&[0], &folder.files(), &index, &mut index_writer);
    finish_rollover(&mut folder, &mut value_log, rolled, index_writer)?;

    // The index has a handle for a and for b, into segment 0 or a newer
    // one: both records are rewritten. It has none for c.
    let segment = value_log.manifest.get_segment(2).unwrap();
    assert_eq!(segment.len(), 2);
    assert_eq!(segment.meta.key_range.min().as_bytes(), b"a");
    assert_eq!(segment.meta.key_range.max().as_bytes(), b"b");
    assert!(value_log.manifest.get_segment(0).unwrap().is_stale());
    assert!(!value_log.manifest.get_segment(1).unwrap().is_stale());

    assert_eq!(index.get(b"a")?.unwrap().segment_id, 2);
    assert_eq!(index.get(b"b")?.unwrap().segment_id, 2);
    assert!(index.get(b"c")?.is_none());
    let vhandle = index.get(b"a")?.unwrap();
    let item = value_log.get(&vhandle, folder.file(2))?.unwrap();
    assert_eq!(item.as_bytes(), "a".repeat(10).as_bytes());
    let vhandle = index.get(b"b")?.unwrap();
    let item = value_log.get(&vhandle, folder.file(2))?.unwrap();
    assert_eq!(item.as_bytes(), "b".repeat(10).as_bytes());

    Ok(())
}

#[test]
fn rollover_passes_an_older_handle_over() -> value_log::Result<()> {
    let mut folder = Folder::default();
    let index = MockIndex::default();
    let mut value_log = folder.open(Config::<_, NoCompressor>::new(NoCacher))?;

    // The index points at a in segment 0; segment 1 holds another a
    write_items(&mut folder, &mut value_log, &index, &["a"], 10)?;
    let first = index.get(b"a")?.unwrap();
    write_items(&mut folder, &mut value_log, &index, &["a", "b"], 20)?;
    index.insert_indirect(b"a", first, 10);

    let mut index_writer = MockIndexWriter(index.clone());
    let rolled = value_log.rollover(&[1], &folder.files(), &index, &mut index_writer);
    finish_rollover(&mut folder, &mut value_log, rolled, index_writer)?;

    // Only b is rewritten: the handle of a points into an older segment
    let segment = value_log.manifest.get_segment(2).unwrap();
    assert_eq!(segment.len(), 1);
    assert_eq!(segment.meta.key_range.min().as_bytes(), b"b");
    assert_eq!(index.get(b"a")?.unwrap(), first);
    assert_eq!(index.get(b"b")?.unwrap().segment_id, 2);

    Ok(())
}

#[test]
fn verify_counts_broken_checksums() -> value_log::Result<()> {
    let mut folder = Folder::default();
    let index = MockIndex::default();
    let mut value_log = folder.open(Config::<_, NoCompressor>::new(NoCacher))?;
    write_items(&mut folder, &mut value_log, &index, &["a", "b", "c"], 10)?;

    assert_eq!(value_log.verify(&folder.files())?, 0);

    // One byte of the value of b is changed
    let handle = index.get(b"b")?.unwrap();
    let file = folder.segments.get_mut("0").unwrap();
    let place = handle.offset as usize + 18 + 1 + 4;
    assert_eq!(file[place], b'b');
    file[place] = b'x';
    assert_eq!(value_log.verify(&folder.files())?, 1);

    // A missing file gives an I/O error
    assert!(matches!(value_log.verify(&[]), Err(Error::Io(_))));

    Ok(())
}

#[test]
fn get_of_an_unknown_segment_is_nothing() -> value_log::Result<()> {
    let mut folder = Folder::default();
    let index = MockIndex::default();
    let mut value_log = folder.open(Config::<_, NoCompressor>::new(NoCacher))?;
    write_items(&mut folder, &mut value_log, &index, &["a"], 10)?;

    let unknown = ValueHandle { segment_id: 5, offset: 0 };
    assert!(value_log.get(&unknown, &[])?.is_none());
    assert!(matches!(value_log.probe(&unknown), Lookup::Unknown));

    // At the metadata block there is no value
    let meta = ValueHandle { segment_id: 0, offset: 18 + 1 + 10 };
    assert!(value_log.get(&meta, folder.file(0))?.is_none());

    // In the middle of a record there is no header
    let inside = ValueHandle { segment_id: 0, offset: 3 };
    assert!(matches!(
        value_log.get(&inside, folder.file(0)),
        Err(Error::Decode(value_log::coding::DecodeError::InvalidHeader("Blob")))
    ));

    // Behind the end of the file there is nothing to read
    let beyond = ValueHandle { segment_id: 0, offset: 1 << 40 };
    assert!(matches!(value_log.get(&beyond, folder.file(0)), Err(Error::Io(_))));

    Ok(())
}

#[test]
fn open_rejects_a_bad_marker() {
    let mut folder = Folder::default();
    folder.marker = Some(vec![b'V', b'L', b'G', 9]);
    assert!(matches!(
        folder.open(Config::<_, NoCompressor>::new(NoCacher)),
        Err(Error::InvalidVersion(None))
    ));

    folder.marker = Some(vec![b'V', b'L', b'G', 1]);
    folder.manifest = vec![0, 0, 0];
    assert!(matches!(
        folder.open(Config::<_, NoCompressor>::new(NoCacher)),
        Err(Error::Io(_))
    ));
}

#[test]
fn new_value_log_files() -> value_log::Result<()> {
    let mut folder = Folder::default();
    let value_log = folder.open(Config::<_, NoCompressor>::new(NoCacher))?;
    assert_eq!(folder.marker, Some(vec![b'V', b'L', b'G', 1]));
    assert_eq!(folder.manifest, vec![0; 8]);
    assert_eq!(value_log.segment_count(), 0);
    assert_eq!(value_log.config.segment_size_bytes, 128 * 1024 * 1024);
    Ok(())
}

#[test]
fn config_builders() {
    let config = Config::<_, Lz4Compressor>::new(NoCacher);
    assert_eq!(config.segment_size_bytes, 134_217_728);
    assert!(config.compression.is_none());

    let config = config
        .segment_size_bytes(1_000)
        .compression(Some(Lz4Compressor))
        .blob_cache(NoCacher);
    assert_eq!(config.segment_size_bytes, 1_000);
    assert!(config.compression.is_some());
    let config = config.compression(None);
    assert!(config.compression.is_none());
    assert_eq!(config.segment_size_bytes, 1_000);
}

#[test]
fn compressed_segment_needs_a_compressor() -> value_log::Result<()> {
    let mut folder = Folder::default();
    let index = MockIndex::default();
    {
        let mut value_log =
            folder.open(Config::<_, Lz4Compressor>::new(NoCacher).compression(Some(Lz4Compressor)))?;
        write_items(&mut folder, &mut value_log, &index, &["a"], 100)?;
    }

    // The same folder, opened without a compressor
    let mut value_log = folder.open(Config::<_, Lz4Compressor>::new(NoCacher))?;
    let vhandle = index.get(b"a")?.unwrap();
    assert!(matches!(
        value_log.get(&vhandle, folder.file(0)),
        Err(Error::Decompress)
    ));
    let mut index_writer = MockIndexWriter(index.clone());
    let rolled = value_log.major_compact(&folder.files(), &index, &mut index_writer);
    assert!(matches!(rolled.result, Err(Error::Decompress)));
    // The rollover has failed: no segment is marked as stale
    assert!(!value_log.manifest.get_segment(0).unwrap().is_stale());

    // With the compressor the value comes back
    let value_log =
        folder.open(Config::<_, Lz4Compressor>::new(NoCacher).compression(Some(Lz4Compressor)))?;
    let value = value_log.get(&vhandle, folder.file(0))?.unwrap();
    assert_eq!(value.as_bytes(), "a".repeat(100).as_bytes());
    Ok(())
}

#[test]
fn writer_goes_on_to_new_segments() -> value_log::Result<()> {
    let mut folder = Folder::default();
    let index = MockIndex::default();
    let mut value_log =
        folder.open(Config::<_, NoCompressor>::new(NoCacher).segment_size_bytes(1_000))?;

    let items = ["a", "b", "c", "d", "e", "f", "g"];
    write_items(&mut folder, &mut value_log, &index, &items, 400)?;

    // 419 bytes for each record: three records end a file
    assert_eq!(value_log.manifest.list_segment_ids(), [0, 1, 2]);
    assert_eq!(value_log.manifest.get_segment(0).unwrap().len(), 3);
    assert_eq!(value_log.manifest.get_segment(2).unwrap().len(), 1);
    for (key, vhandle) in index.pairs() {
        let item = value_log
            .get(&vhandle, folder.file(vhandle.segment_id))?
            .unwrap();
        assert_eq!(item.as_bytes(), key.repeat(400));
    }

    let mut merge = value_log.get_reader(&folder.files())?;
    let mut keys = vec![];
    while let Some(item) = merge.next() {
        let (key, _, id, _) = item?;
        keys.push((key.to_vec(), id));
    }
    assert_eq!(
        keys,
        vec![
            (b"a".to_vec(), 0),
            (b"b".to_vec(), 0),
            (b"c".to_vec(), 0),
            (b"d".to_vec(), 1),
            (b"e".to_vec(), 1),
            (b"f".to_vec(), 1),
            (b"g".to_vec(), 2)
        ]
    );

    // After a reopening the next segment gets the ID 3
    let mut value_log =
        folder.open(Config::<_, NoCompressor>::new(NoCacher).segment_size_bytes(1_000))?;
    assert_eq!(value_log.get_writer()?.get_next_value_handle().segment_id, 3);
    Ok(())
}

#[test]
fn mark_as_stale_passes_unknown_ids_over() -> value_log::Result<()> {
    let mut folder = Folder::default();
    let index = MockIndex::default();
    let mut value_log = folder.open(Config::<_, NoCompressor>::new(NoCacher))?;
    write_items(&mut folder, &mut value_log, &index, &["a", "b"], 10)?;
    write_items(&mut folder, &mut value_log, &index, &["c"], 10)?;

    value_log.mark_as_stale(&[1, 9]);
    assert!(!value_log.manifest.get_segment(0).unwrap().is_stale());
    assert!(value_log.manifest.get_segment(1).unwrap().is_stale());
    assert_eq!(value_log.manifest.stale_bytes(), 10);
    Ok(())
}

/// A folder with two segments of two records each.
fn two_segments() -> value_log::Result<(Folder, MockIndex)> {
    let mut folder = Folder::default();
    let index = MockIndex::default();
    let mut value_log = folder.open(Config::<_, NoCompressor>::new(NoCacher))?;
    write_items(&mut folder, &mut value_log, &index, &["a", "b"], 100)?;
    write_items(&mut folder, &mut value_log, &index, &["c", "d"], 100)?;
    Ok((folder, index))
}

fn load_and_count(folder: &mut Folder) -> value_log::Result<()> {
    let value_log = folder.open(Config::<_, NoCompressor>::new(NoCacher))?;

    let count = {
        let mut count = 0;

        let mut reader = value_log.get_reader(&folder.files())?;
        while let Some(kv) = reader.next() {
            let _ = kv?;
            count += 1;
        }

        count
    };

    assert_eq!(4, count);
    assert_eq!(2, value_log.segment_count());
    assert_eq!(0, value_log.verify(&folder.files())?);

    Ok(())
}

fn load_corrupt(folder: &mut Folder, index: &MockIndex) -> value_log::Result<()> {
    // One value in each segment is changed
    for key in [b"a", b"d"] {
        let handle = index.get(key)?.unwrap();
        let file = folder
            .segments
            .get_mut(&handle.segment_id.to_string())
            .unwrap();
        file[handle.offset as usize + 18 + 1 + 50] ^= 0xff;
    }

    let value_log = folder.open(Config::<_, NoCompressor>::new(NoCacher))?;

    assert_eq!(2, value_log.verify(&folder.files())?);

    Ok(())
}

#[test]
fn vlog_load_fixture_vlog_load_v1() -> value_log::Result<()> {
    let (mut folder, _) = two_segments()?;
    load_and_count(&mut folder)
}

#[test]
fn vlog_load_fixture_vlog_load_v1_corrupt() -> value_log::Result<()> {
    let (mut folder, index) = two_segments()?;
    load_corrupt(&mut folder, &index)
}

#[test]
fn vlog_v1_load_fixture_vlog_load_v1() -> value_log::Result<()> {
    let (mut folder, _) = two_segments()?;
    load_and_count(&mut folder)
}

#[test]
fn vlog_v1_load_fixture_vlog_load_v1_corrupt() -> value_log::Result<()> {
    let (mut folder, index) = two_segments()?;
    load_corrupt(&mut folder, &index)
}

#[test]
fn classify_goes_by_the_cache_first() -> value_log::Result<()> {
    let mut folder = Folder::default();
    let index = MockIndex::default();
    let mut value_log = folder.open(Config::<_, NoCompressor>::new(NoCacher))?;
    write_items(&mut folder, &mut value_log, &index, &["a"], 10)?;

    let known = ValueHandle { segment_id: 0, offset: 0 };
    let unknown = ValueHandle { segment_id: 5, offset: 0 };

    match value_log.classify(Some(value_log::Slice::new(b"cached")), &unknown) {
        Lookup::Hit(value) => assert_eq!(value.as_bytes(), b"cached"),
        _ => panic!("the cached value should be handed out"),
    }
    assert!(matches!(value_log.classify(None, &known), Lookup::Load(0)));
    assert!(matches!(value_log.classify(None, &unknown), Lookup::Unknown));

    // What the cache has is handed out, whatever the file holds
    let value = value_log
        .resolve(Some(value_log::Slice::new(b"cached")), &known, 0, &[])?
        .unwrap();
    assert_eq!(value.as_bytes(), b"cached");
    Ok(())
}

#[test]
fn load_gives_the_values_under_their_handles() -> value_log::Result<()> {
    let mut folder = Folder::default();
    let mut value_log = folder.open(Config::<_, NoCompressor>::new(NoCacher))?;

    let mut handles = vec![];
    let mut writer = value_log.get_writer()?;
    for (key, value) in [("a", "one"), ("b", "two"), ("c", "three")] {
        handles.push(writer.get_next_value_handle());
        writer.write(&mut value_log.id_generator, key.as_bytes(), value.as_bytes())?;
    }
    folder.apply(value_log.register_writer(writer)?);
    assert_eq!(handles[1], ValueHandle { segment_id: 0, offset: 18 + 1 + 3 });

    let (list, failure) = value_log.load(&handles[0], 100, folder.file(0));
    assert!(failure.is_none());
    let pairs: Vec<(ValueHandle, &[u8])> = list.iter().map(|(h, v)| (*h, v.as_bytes())).collect();
    assert_eq!(
        pairs,
        vec![
            (handles[0], &b"one"[..]),
            (handles[1], &b"two"[..]),
            (handles[2], &b"three"[..])
        ]
    );

    // No more than the records that were asked for
    let (list, failure) = value_log.load(&handles[1], 0, folder.file(0));
    assert!(failure.is_none());
    assert_eq!(list.len(), 1);
    assert_eq!(list[0].0, handles[1]);
    assert_eq!(list[0].1.as_bytes(), b"two");

    let (list, failure) = value_log.load(&handles[0], 1, folder.file(0));
    assert!(failure.is_none());
    assert_eq!(list.len(), 2);
    assert_eq!(list[1].0, handles[1]);
    assert_eq!(list[1].1.as_bytes(), b"two");

    Ok(())
}

#[test]
fn load_of_nothing_is_empty() -> value_log::Result<()> {
    let mut folder = Folder::default();
    let index = MockIndex::default();
    let mut value_log = folder.open(Config::<_, NoCompressor>::new(NoCacher))?;
    write_items(&mut folder, &mut value_log, &index, &["a"], 10)?;

    let unknown = ValueHandle { segment_id: 5, offset: 0 };
    let (list, failure) = value_log.load(&unknown, 3, folder.file(0));
    assert!(list.is_empty() && failure.is_none());

    let meta = ValueHandle { segment_id: 0, offset: 18 + 1 + 10 };
    let (list, failure) = value_log.load(&meta, 3, folder.file(0));
    assert!(list.is_empty() && failure.is_none());

    let beyond = ValueHandle { segment_id: 0, offset: 1 << 40 };
    let (list, failure) = value_log.load(&beyond, 3, folder.file(0));
    assert!(list.is_empty());
    assert!(matches!(failure, Some(Error::Io(_))));

    Ok(())
}

#[test]
fn load_fails_on_a_bad_header_behind_the_value() -> value_log::Result<()> {
    let mut folder = Folder::default();
    let cache = MemCacher::default();
    let mut value_log = folder.open(Config::<_, NoCompressor>::new(cache.clone()))?;

    let mut writer = value_log.get_writer()?;
    let first = writer.get_next_value_handle();
    writer.write(&mut value_log.id_generator, b"a", b"one")?;
    let second = writer.get_next_value_handle();
    writer.write(&mut value_log.id_generator, b"b", b"two")?;
    folder.apply(value_log.register_writer(writer)?);

    let mut broken = folder.file(0).to_vec();
    broken[second.offset as usize] ^= 0xff;

    // Without a prefetch the broken record is not read
    let (list, failure) = value_log.load(&first, 0, &broken);
    assert!(failure.is_none());
    assert_eq!(list.len(), 1);
    assert_eq!(list[0].1.as_bytes(), b"one");

    // With one, the value that was loaded before it comes with the error
    let (list, failure) = value_log.load(&first, 1, &broken);
    assert_eq!(list.len(), 1);
    assert_eq!(list[0].0, first);
    assert_eq!(list[0].1.as_bytes(), b"one");
    assert!(matches!(
        failure,
        Some(Error::Decode(value_log::coding::DecodeError::InvalidHeader("Blob")))
    ));

    // A read through the value log puts that value into the blob cache
    assert!(cache.values.borrow().is_empty());
    assert!(matches!(
        value_log.get_with_prefetch(&first, 1, &broken),
        Err(Error::Decode(value_log::coding::DecodeError::InvalidHeader("Blob")))
    ));
    assert_eq!(cache.values.borrow().len(), 1);
    assert_eq!(value_log.get(&first, &[])?.unwrap().as_bytes(), b"one");

    Ok(())
}

#[test]
fn load_unpacks_what_a_compressed_segment_holds() -> value_log::Result<()> {
    let mut folder = Folder::default();
    let cache = MemCacher::default();
    let mut value_log = folder.open(Config::new(cache.clone()).compression(Some(Lz4Compressor)))?;

    let mut handles = vec![];
    let mut writer = value_log.get_writer()?;
    for i in 0u8..3 {
        handles.push(writer.get_next_value_handle());
        writer.write(&mut value_log.id_generator, &[b'k', i], &[i; 500])?;
    }
    folder.apply(value_log.register_writer(writer)?);

    let (list, failure) = value_log.load(&handles[0], 2, folder.file(0));
    assert!(failure.is_none());
    assert_eq!(list.len(), 3);
    for i in 0u8..3 {
        assert_eq!(list[i as usize].0, handles[i as usize]);
        assert_eq!(list[i as usize].1.as_bytes(), &[i; 500]);
    }

    let value = value_log
        .get_with_prefetch(&handles[1], 1, folder.file(0))?
        .unwrap();
    assert_eq!(value.as_bytes(), &[1u8; 500]);
    assert_eq!(cache.values.borrow().len(), 2);

    Ok(())
}

#[test]
fn conclude_goes_by_what_the_index_writer_gave() -> value_log::Result<()> {
    let mut folder = Folder::default();
    let index = MockIndex::default();
    let mut value_log = folder.open(Config::<_, NoCompressor>::new(NoCacher))?;
    write_items(&mut folder, &mut value_log, &index, &["a", "b"], 100)?;
    write_items(&mut folder, &mut value_log, &index, &["c"], 100)?;

    let size_before = value_log.manifest.disk_space_used();
    assert_eq!(size_before, 300);

    let failed = value_log.conclude(
        &[0],
        Err(std::io::Error::new(std::io::ErrorKind::Other, "no")),
        size_before,
    );
    assert!(matches!(failed, Err(Error::Io(_))));
    assert!(!value_log.manifest.get_segment(0).unwrap().is_stale());
    assert!(!value_log.manifest.get_segment(1).unwrap().is_stale());
    assert_eq!(value_log.manifest.disk_space_used(), 300);

    // Nothing was added meanwhile, so nothing is freed
    assert_eq!(value_log.conclude(&[0], Ok(()), size_before)?, 0);
    assert!(value_log.manifest.get_segment(0).unwrap().is_stale());
    assert!(!value_log.manifest.get_segment(1).unwrap().is_stale());

    // What has left the disk since the rollover began counts as freed
    let (_, changes) = value_log.drop_stale_segments()?;
    folder.apply(changes.unwrap());
    assert_eq!(value_log.conclude(&[], Ok(()), size_before)?, 200);

    Ok(())
}

#[test]
fn plan_rewrite_goes_by_the_index() -> value_log::Result<()> {
    let mut folder = Folder::default();
    let index = MockIndex::default();
    let mut value_log = folder.open(Config::<_, NoCompressor>::new(NoCacher))?;
    write_items(&mut folder, &mut value_log, &index, &["a"], 10)?;
    write_items(&mut folder, &mut value_log, &index, &["a"], 10)?;

    let writer = value_log.get_writer()?;
    let next = writer.get_next_value_handle();
    assert_eq!(next, ValueHandle { segment_id: 2, offset: 0 });
    let stored = UserValue::new(b"aaaaaaaaaa");

    // A key that the index does not know
    assert!(value_log.plan_rewrite(&writer, &None, &stored, 0)?.is_none());

    // A key whose handle points at an older segment
    let older = Some(ValueHandle { segment_id: 0, offset: 0 });
    assert!(value_log.plan_rewrite(&writer, &older, &stored, 1)?.is_none());

    // A key whose handle points at the segment of the record, or at a later one
    for source in [0, 1] {
        let found = Some(ValueHandle { segment_id: 1, offset: 0 });
        let (handle, value) = value_log
            .plan_rewrite(&writer, &found, &stored, source)?
            .unwrap();
        assert_eq!(handle, next);
        assert_eq!(value.as_bytes(), b"aaaaaaaaaa");
    }

    Ok(())
}

#[test]
fn carry_out_writes_where_the_index_writer_took_the_handle() -> value_log::Result<()> {
    let mut folder = Folder::default();
    let mut value_log = folder.open(Config::<_, NoCompressor>::new(NoCacher))?;

    let mut writer = value_log.get_writer()?;
    let handle = writer.get_next_value_handle();
    let key = UserValue::new(b"key");

    let refused = value_log.carry_out(
        &mut writer,
        &key,
        handle,
        UserValue::new(b"value"),
        Err(std::io::Error::new(std::io::ErrorKind::Other, "no")),
    );
    assert!(matches!(refused, Err(Error::Io(_))));
    assert_eq!(writer.offset(), 0);

    let (given, value, written) = value_log
        .carry_out(&mut writer, &key, handle, UserValue::new(b"value"), Ok(()))?
        .unwrap();
    assert_eq!(given, handle);
    assert_eq!(value.as_bytes(), b"value");
    assert_eq!(written, 5);
    assert_eq!(writer.offset(), 18 + 3 + 5);

    folder.apply(value_log.register_writer(writer)?);
    let read = value_log.get(&handle, folder.file(0))?.unwrap();
    assert_eq!(read.as_bytes(), b"value");

    Ok(())
}

#[test]
fn no_writer_without_a_segment_id() -> value_log::Result<()> {
    let mut folder = Folder::default();
    let mut value_log = folder.open(Config::<_, NoCompressor>::new(NoCacher))?;

    value_log.id_generator = value_log::id::IdGenerator::new(u64::MAX - 1);
    let mut writer = value_log.get_writer()?;
    assert_eq!(writer.segment_id(), u64::MAX - 1);

    // The last ID is never handed out
    assert!(matches!(value_log.get_writer(), Err(Error::Io(_))));

    // And a writer that has no ID to go on to stays with its segment
    let mut small = value_log::segment::multi_writer::MultiWriter::<NoCompressor>::new(
        &mut value_log::id::IdGenerator::new(7),
        10,
    )?;
    let mut ids = value_log::id::IdGenerator::new(u64::MAX);
    small.write(&mut ids, b"a", &[1; 100])?;
    small.write(&mut ids, b"b", &[2; 100])?;
    assert_eq!(small.segment_id(), 7);
    assert_eq!(small.finish()?.len(), 1);

    writer.write(&mut value_log.id_generator, b"a", b"one")?;
    folder.apply(value_log.register_writer(writer)?);
    assert_eq!(value_log.manifest.list_segment_ids(), [u64::MAX - 1]);

    Ok(())
}

#[test]
fn registering_raises_the_generator() -> value_log::Result<()> {
    let mut folder = Folder::default();
    let mut value_log = folder.open(Config::<_, NoCompressor>::new(NoCacher))?;

    let mut theirs = value_log::id::IdGenerator::new(40);
    let mut writer =
        value_log::segment::multi_writer::MultiWriter::<NoCompressor>::new(&mut theirs, 1_000)?;
    writer.write(&mut theirs, b"a", b"one")?;
    folder.apply(value_log.register_writer(writer)?);

    assert_eq!(value_log.manifest.list_segment_ids(), [40]);
    assert_eq!(value_log.get_writer()?.segment_id(), 41);

    Ok(())
}

/// Stores the bytes as they are, and gives nothing back
#[derive(Clone, Default)]
struct OneWay;

impl Compressor for OneWay {
    fn compress(&self, bytes: &[u8]) -> value_log::Result<Vec<u8>> {
        Ok(bytes.to_vec())
    }

    fn decompress(&self, _: &[u8]) -> value_log::Result<Vec<u8>> {
        Err(Error::Decompress)
    }
}

#[test]
fn load_hands_on_what_the_compressor_refuses() -> value_log::Result<()> {
    let mut folder = Folder::default();
    let cache = MemCacher::default();
    let mut value_log = folder.open(Config::new(cache.clone()).compression(Some(OneWay)))?;

    let mut writer = value_log.get_writer()?;
    let first = writer.get_next_value_handle();
    writer.write(&mut value_log.id_generator, b"a", b"one")?;
    writer.write(&mut value_log.id_generator, b"b", b"two")?;
    folder.apply(value_log.register_writer(writer)?);

    let (list, failure) = value_log.load(&first, 1, folder.file(0));
    assert!(list.is_empty());
    assert!(matches!(failure, Some(Error::Decompress)));
    assert!(matches!(
        value_log.get(&first, folder.file(0)),
        Err(Error::Decompress)
    ));
    assert!(cache.values.borrow().is_empty());

    Ok(())
}

/// Keeps what it is handed, in order, and refuses from the given call on
#[derive(Default)]
struct RecordingIndexWriter {
    staged: Vec<(Vec<u8>, ValueHandle, u32)>,
    refuse_from: Option<usize>,
}

impl IndexWriter for RecordingIndexWriter {
    fn insert_indirect(
        &mut self,
        key: &[u8],
        value: ValueHandle,
        size: u32,
    ) -> std::io::Result<()> {
        if self.refuse_from.is_some_and(|n| self.staged.len() >= n) {
            return Err(std::io::Error::new(std::io::ErrorKind::Other, "full"));
        }
        self.staged.push((key.to_vec(), value, size));
        Ok(())
    }

    fn finish(self) -> std::io::Result<()> {
        Ok(())
    }
}

#[test]
fn rollover_stages_each_record_under_its_new_handle() -> value_log::Result<()> {
    let mut folder = Folder::default();
    let index = MockIndex::default();
    let mut value_log = folder.open(Config::<_, NoCompressor>::new(NoCacher))?;

    write_items(&mut folder, &mut value_log, &index, &["a", "b", "c"], 10)?;
    write_items(&mut folder, &mut value_log, &index, &["b"], 20)?;
    index.remove(b"c");

    let mut index_writer = RecordingIndexWriter::default();
    let rolled = value_log.rollover(&[0, 1], &folder.files(), &index, &mut index_writer);
    assert!(rolled.result.is_ok());

    // One binding for each live record, in the order of the merge: the
    // key, the place of the record in the new file, the length of the value
    assert_eq!(
        index_writer.staged,
        vec![
            (b"a".to_vec(), ValueHandle { segment_id: 2, offset: 0 }, 10),
            (b"b".to_vec(), ValueHandle { segment_id: 2, offset: 18 + 1 + 10 }, 20),
        ]
    );

    // And each of them reads its value from the new file
    let staged = index_writer.staged.clone();
    finish_rollover(&mut folder, &mut value_log, rolled, index_writer)?;
    for (key, vhandle, size) in staged {
        let item = value_log.get(&vhandle, folder.file(2))?.unwrap();
        assert_eq!(item.len(), size as usize);
        assert_eq!(item.as_bytes(), key.repeat(size as usize));
    }

    Ok(())
}

#[test]
fn rewrite_hands_the_plan_to_the_index_writer() -> value_log::Result<()> {
    let mut folder = Folder::default();
    let index = MockIndex::default();
    let mut value_log = folder.open(Config::<_, NoCompressor>::new(NoCacher))?;
    write_items(&mut folder, &mut value_log, &index, &["a"], 10)?;

    let mut writer = value_log.get_writer()?;
    let mut index_writer = RecordingIndexWriter::default();
    let key = UserValue::new(b"a");
    let stored = UserValue::new(b"aaaaaaaaaa");

    // A record that is not live is passed over, and nothing is staged
    let done = value_log.rewrite(&mut writer, &mut index_writer, None, &key, &stored, 0)?;
    assert!(done.is_none());
    assert!(index_writer.staged.is_empty());
    assert_eq!(writer.offset(), 0);

    // A live one is staged under the next handle of the writer, and written
    let next = writer.get_next_value_handle();
    let found = index.get(b"a")?;
    let (handle, value, stored_len) = value_log
        .rewrite(&mut writer, &mut index_writer, found, &key, &stored, 0)?
        .unwrap();
    assert_eq!(handle, next);
    assert_eq!(value.as_bytes(), b"aaaaaaaaaa");
    assert_eq!(stored_len, 10);
    assert_eq!(index_writer.staged, vec![(b"a".to_vec(), next, 10)]);
    assert_eq!(writer.offset(), 18 + 1 + 10);

    // Where the index writer refuses, nothing is written
    index_writer.refuse_from = Some(1);
    let refused = value_log.rewrite(&mut writer, &mut index_writer, found, &key, &stored, 0);
    assert!(matches!(refused, Err(Error::Io(_))));
    assert_eq!(index_writer.staged.len(), 1);
    assert_eq!(writer.offset(), 18 + 1 + 10);

    Ok(())
}

#[test]
fn rollover_stops_where_the_index_writer_refuses() -> value_log::Result<()> {
    let mut folder = Folder::default();
    let index = MockIndex::default();
    let mut value_log = folder.open(Config::<_, NoCompressor>::new(NoCacher))?;
    write_items(&mut folder, &mut value_log, &index, &["a", "b", "c"], 10)?;

    let mut index_writer = RecordingIndexWriter { staged: vec![], refuse_from: Some(1) };
    let rolled = value_log.rollover(&[0], &folder.files(), &index, &mut index_writer);
    assert!(matches!(rolled.result, Err(Error::Io(_))));
    assert_eq!(index_writer.staged.len(), 1);

    // The new file holds the one record that was staged, and is listed
    // beside the old one, which is not marked as stale
    let failed = finish_rollover(&mut folder, &mut value_log, rolled, index_writer);
    assert!(matches!(failed, Err(Error::Io(_))));
    assert_eq!(value_log.manifest.list_segment_ids(), [0, 1]);
    assert_eq!(value_log.manifest.get_segment(1).unwrap().len(), 1);
    assert!(!value_log.manifest.get_segment(0).unwrap().is_stale());

    Ok(())
}
