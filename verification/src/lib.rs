//! A value log: an append-only store of immutable blob files that hold
//! variable-sized values, addressed by value handles.
//!
//! The crate holds the file format, the segment manifest and the garbage
//! collection rules as functions on bytes and plain values: it reads and
//! writes no file itself. Every function states what it computes, and the
//! statements are machine-checked.

pub mod blob_cache;
pub mod coding;
pub mod compression;
pub mod config;
pub mod error;
pub mod gc;
pub mod handle;
pub mod id;
pub mod index;
pub mod key_range;
pub mod manifest;
pub mod ratio;
pub mod round_trip;
pub mod scanner;
pub mod segment;
pub mod slice;
pub mod value;
pub mod value_log;
pub mod version;

pub use blob_cache::BlobCache;
pub use blob_cache::ValueLogId;
pub use compression::Compressor;
pub use config::Config;
pub use error::Error;
pub use error::Result;
pub use gc::report::GcReport;
pub use gc::GcStrategy;
pub use gc::SpaceAmpStrategy;
pub use gc::StaleThresholdStrategy;
pub use handle::ValueHandle;
pub use index::Reader as IndexReader;
pub use index::Writer as IndexWriter;
pub use key_range::KeyRange;
pub use segment::multi_writer::MultiWriter as SegmentWriter;
pub use segment::reader::Reader as SegmentReader;
pub use segment::Segment;
pub use slice::Slice;
pub use value::UserKey;
pub use value::UserValue;
pub use value_log::ValueLog;
pub use version::Version;
