//! An entry as it is handled in memory: its header, its payloads, and the gap
//! it leaves behind when deleted.

use vstd::prelude::*;
use vstd::slice::slice_to_vec;
use vstd::string::StringExecFns;
use vstd::utf8::encode_utf8;
use crate::format::{
    be_value, header_bytes, u64_to_be_bytes, HEADER_SIZE, TAG_BLOB, TAG_INTEGER, TAG_STRING,
};
use crate::value::{Value, ValueDataType};

verus! {

/// The fixed-size prefix of an entry, together with the offset it was read
/// from or is to be written at.
#[derive(Clone, Copy, Debug, PartialEq, Eq, Structural)]
pub struct MemKvPageEntryHeader {
    pub data_type: ValueDataType,
    /// `0x00` for a live entry, `0x01` for a tombstoned one.
    pub flags: u8,
    pub key_size: u64,
    pub value_size: u64,
    pub offset: u64,
}

impl MemKvPageEntryHeader {
    /// Offset of the first key byte.
    pub open spec fn data_offset(self) -> int {
        self.offset + HEADER_SIZE
    }

    /// Bytes of the whole entry: header, key and value.
    pub open spec fn entry_size(self) -> int {
        self.key_size + self.value_size + HEADER_SIZE
    }

    /// The header as it lies in the page.
    pub open spec fn bytes(self) -> Seq<u8> {
        header_bytes(self.data_type.tag(), self.flags, self.key_size, self.value_size)
    }

    /// A header can be read at `start`: eighteen bytes lie there, and the
    /// first names a value kind.
    pub open spec fn readable(bytes: Seq<u8>, start: int) -> bool {
        &&& 0 <= start
        &&& start + HEADER_SIZE <= bytes.len()
        &&& (bytes[start] == TAG_STRING || bytes[start] == TAG_INTEGER || bytes[start] == TAG_BLOB)
    }

    /// The header that the eighteen bytes at `start` spell, where a header
    /// can be read there.
    pub open spec fn decoded(bytes: Seq<u8>, start: int) -> MemKvPageEntryHeader {
        MemKvPageEntryHeader {
            data_type: if bytes[start] == TAG_STRING {
                ValueDataType::String
            } else if bytes[start] == TAG_INTEGER {
                ValueDataType::Integer
            } else {
                ValueDataType::Blob
            },
            flags: bytes[start + 1],
            key_size: be_value(bytes.subrange(start + 2, start + 10)),
            value_size: be_value(bytes.subrange(start + 10, start + 18)),
            offset: start as u64,
        }
    }

    /// The key payload lies within the first `total` bytes of the page.
    pub open spec fn key_fits(self, total: int) -> bool {
        self.offset + HEADER_SIZE + self.key_size <= total
    }

    /// The whole entry lies within the first `total` bytes of the page.
    pub open spec fn fits(self, total: int) -> bool {
        self.offset + self.entry_size() <= total
    }

    /// The bytes of the key payload.
    pub open spec fn key_range(self, bytes: Seq<u8>) -> Seq<u8> {
        bytes.subrange(self.data_offset(), self.data_offset() + self.key_size)
    }

    /// The bytes of the value payload.
    pub open spec fn value_range(self, bytes: Seq<u8>) -> Seq<u8> {
        bytes.subrange(self.data_offset() + self.key_size, self.offset + self.entry_size())
    }

    /// Offset of the first key byte.
    pub fn get_absolute_data_offset(&self) -> (data_offset: u64)
        requires
            self.data_offset() <= u64::MAX,
        ensures
            data_offset == self.data_offset(),
    {
        self.offset + HEADER_SIZE
    }

    /// Bytes of the whole entry: header, key and value.
    pub fn get_entry_size(&self) -> (size: u64)
        requires
            self.entry_size() <= u64::MAX,
        ensures
            size == self.entry_size(),
    {
        self.key_size + self.value_size + HEADER_SIZE
    }

    /// The header of a live entry at `offset` with the given key and value
    /// payload.
    pub fn new(offset: u64, key: &str, value: &[u8], value_data_type: ValueDataType) -> (header:
        MemKvPageEntryHeader)
        ensures
            header.offset == offset,
            header.flags == 0,
            header.key_size == encode_utf8(key@).len(),
            header.value_size == value@.len(),
            header.data_type == value_data_type,
    {
        MemKvPageEntryHeader {
            offset,
            flags: 0,
            key_size: key.as_bytes().len() as u64,
            value_size: value.len() as u64,
            data_type: value_data_type,
        }
    }
}

/// An entry ready to be written: header, key, value, and the value's payload
/// bytes.
pub struct MemKvPageEntry {
    pub header: MemKvPageEntryHeader,
    pub key: String,
    pub value: Value,
    pub value_data: Vec<u8>,
}

impl MemKvPageEntry {
    /// The live entry for `key` and `value` at `offset`, with the value
    /// encoded: text as UTF-8, an integer as eight big-endian bytes, a blob
    /// verbatim. The header carries `value_data_type` as given.
    pub fn new(offset: u64, key: &str, value: Value, value_data_type: ValueDataType) -> (entry:
        MemKvPageEntry)
        ensures
            entry.key@ == key@,
            entry.value == value,
            entry.value_data@ == value@.bytes(),
            entry.header.offset == offset,
            entry.header.flags == 0,
            entry.header.key_size == encode_utf8(key@).len(),
            entry.header.value_size == value@.bytes().len(),
            entry.header.data_type == value_data_type,
    {
        let value_data: Vec<u8> = match &value {
            Value::String(text) => slice_to_vec(text.as_str().as_bytes()),
            Value::Integer(number) => slice_to_vec(u64_to_be_bytes(*number).as_slice()),
            Value::Blob(bytes) => bytes.clone(),
        };
        MemKvPageEntry {
            header: MemKvPageEntryHeader::new(offset, key, value_data.as_slice(), value_data_type),
            key: String::from_str(key),
            value,
            value_data,
        }
    }
}

/// The room a tombstoned entry takes up: where it starts and how long it is.
#[derive(Clone, Copy, Debug, PartialEq, Eq, Structural)]
pub struct MemKvPageGap {
    pub offset: u64,
    pub length: u64,
}

impl MemKvPageGap {
    /// The gap that the entry under `deleted_header` leaves.
    pub fn new(deleted_header: MemKvPageEntryHeader) -> (gap: MemKvPageGap)
        requires
            deleted_header.entry_size() <= u64::MAX,
        ensures
            gap.offset == deleted_header.offset,
            gap.length == deleted_header.entry_size(),
    {
        MemKvPageGap { offset: deleted_header.offset, length: deleted_header.get_entry_size() }
    }
}

} // verus!
