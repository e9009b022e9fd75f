//! An embedded key-value store built on sorted segment files.
//!
//! The library holds the engine's logic: the record format of logs and
//! segments, the two-tier memtable, the sparse segment index, compaction
//! and the lookup path. Reading and writing files is left to the caller.

pub mod builder;
pub mod codec;
pub mod errors;
pub mod framing;
pub mod keys;
pub mod memtable;
pub mod merge;
pub mod names;
pub mod segment;
pub mod store;
pub mod table;

pub use builder::DatabaseBuilder;
pub use errors::{Error, MapError, MemtableError};
pub use memtable::{Memtable, RawSegment};
pub use segment::Segment;
pub use store::SegmentSet;
