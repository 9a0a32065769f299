//! An embedded, single-node key-value datastore with last-write-wins
//! semantics over caller-supplied timestamps.
//!
//! The storage core is a small LSM tree: writes go to a write-ahead log and
//! an in-memory ordered memtable; when the memtable crosses a size threshold
//! it is flushed as an immutable sorted string table (SST) and merged into a
//! unified lookup index.  Reads consult the memtable and the index and return
//! the record with the highest timestamp.

pub mod codec;
pub mod model;
pub mod skiplist;
pub mod memtable;
pub mod index;
pub mod store;
pub mod lsm;
pub mod sst;
pub mod laws;
pub mod probe;
pub mod error;
pub mod record;

pub use error::{DatastoreError, Result};
pub use index::Index;
pub use lsm::LsmEngine;
pub use store::Store;
pub use memtable::{MemTable, MemTableEntry, MemTableOperation, MemTableValue};
pub use probe::{MeasureCode, Message, ProbePayload, ProbeResponse, ProbeValue};
pub use record::{Operations, Record};
