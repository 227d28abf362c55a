//! An embedded, single-process key-value store built on an append-only
//! record log with an in-memory index.
//!
//! The log is modelled as a byte image held in memory: every record is
//! appended through the binary codec in [`codec`], the index maps each key
//! to the location of its most recent value, and [`Store::reduce`] rewrites
//! the log into a key-sorted, tombstone-free form by an external sort
//! (bounded chunks, then a k-way merge).  Callers that want the log on disk
//! persist the byte image themselves.

pub mod bytes;
pub mod codec;
pub mod file;
pub mod index;
pub mod kv;
pub mod model;
pub mod record;
pub mod reduce;
pub mod store;
pub mod util;

pub use file::{FileId, StoreFile};
pub use record::Record;
pub use store::Store;
