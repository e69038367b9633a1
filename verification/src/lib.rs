//! A fixed-capacity, append-oriented key-value page held in a memory-mapped
//! file.
//!
//! A page maps string keys to text, integers or blobs. Entries are packed
//! from offset 0 upwards; a deletion tombstones an entry in place, and
//! `defrag` reclaims the room of one tombstoned entry per call. Every
//! operation is proved to keep the bytes of the page, the index of live
//! entries and the queue of gaps in agreement with one another.
//!
//! The page works on the mapped memory. Creating the file and the mapping,
//! and flushing the mapping back to the file after a change, are the
//! caller's steps; `MemKvPage::mapping` hands the mapping out for the
//! latter.

pub mod bytes;
pub mod entry;
pub mod errors;
pub mod format;
pub mod gaps;
pub mod laws;
pub mod layout;
pub mod mapping;
pub mod page;
pub mod text;
pub mod value;

pub use entry::{MemKvPageEntry, MemKvPageEntryHeader, MemKvPageGap};
pub use errors::{
    EntryAlreadyDeletedInFileError, InvalidDataTypeError, KeyAlreadyExistsError,
    KeyDoesNotExistError, MemKvError, MemmapCreationFailureError, NoSpaceLeftError,
};
pub use format::{HEADER_SIZE, KV_PAGE_SIZE};
pub use page::MemKvPage;
pub use value::{Value, ValueDataType};
