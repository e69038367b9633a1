//! The on-page format as mathematics: how an entry is laid out in bytes, and
//! what a sequence of entries occupies.

use vstd::prelude::*;
use vstd::utf8::encode_utf8;

verus! {

/// Capacity of a page in bytes: 4 MiB.
pub const KV_PAGE_SIZE: u64 = 4194304;

/// Bytes in an entry header: type, flags, and two 8-byte sizes.
pub const HEADER_SIZE: u64 = 18;

/// Type byte of a text value.
pub const TAG_STRING: u8 = 1;

/// Type byte of an integer value.
pub const TAG_INTEGER: u8 = 2;

/// Type byte of a blob value.
pub const TAG_BLOB: u8 = 3;

/// Flags byte of a live entry.
pub const FLAG_LIVE: u8 = 0;

/// Flags byte of a tombstoned entry.
pub const FLAG_DELETED: u8 = 1;

/// The eight bytes of `x`, most significant first.
pub open spec fn be_bytes(x: u64) -> Seq<u8> {
    seq![
        ((x >> 56) & 0xff) as u8,
        ((x >> 48) & 0xff) as u8,
        ((x >> 40) & 0xff) as u8,
        ((x >> 32) & 0xff) as u8,
        ((x >> 24) & 0xff) as u8,
        ((x >> 16) & 0xff) as u8,
        ((x >> 8) & 0xff) as u8,
        (x & 0xff) as u8,
    ]
}

/// The number whose big-endian bytes are the first eight of `bytes`.
pub open spec fn be_value(bytes: Seq<u8>) -> u64
    recommends
        bytes.len() == 8,
{
    ((bytes[0] as u64) << 56) | ((bytes[1] as u64) << 48) | ((bytes[2] as u64) << 40) | ((
    bytes[3] as u64) << 32) | ((bytes[4] as u64) << 24) | ((bytes[5] as u64) << 16) | ((
    bytes[6] as u64) << 8) | (bytes[7] as u64)
}

/// Decoding undoes encoding.
pub proof fn lemma_be_round_trip(x: u64)
    ensures
        be_bytes(x).len() == 8,
        be_value(be_bytes(x)) == x,
{
    let b0 = ((x >> 56) & 0xff) as u8;
    let b1 = ((x >> 48) & 0xff) as u8;
    let b2 = ((x >> 40) & 0xff) as u8;
    let b3 = ((x >> 32) & 0xff) as u8;
    let b4 = ((x >> 24) & 0xff) as u8;
    let b5 = ((x >> 16) & 0xff) as u8;
    let b6 = ((x >> 8) & 0xff) as u8;
    let b7 = (x & 0xff) as u8;
    assert(((b0 as u64) << 56) | ((b1 as u64) << 48) | ((b2 as u64) << 40) | ((b3 as u64) << 32)
        | ((b4 as u64) << 24) | ((b5 as u64) << 16) | ((b6 as u64) << 8) | (b7 as u64) == x)
        by (bit_vector)
        requires
            b0 == ((x >> 56) & 0xff) as u8,
            b1 == ((x >> 48) & 0xff) as u8,
            b2 == ((x >> 40) & 0xff) as u8,
            b3 == ((x >> 32) & 0xff) as u8,
            b4 == ((x >> 24) & 0xff) as u8,
            b5 == ((x >> 16) & 0xff) as u8,
            b6 == ((x >> 8) & 0xff) as u8,
            b7 == (x & 0xff) as u8,
    ;
}

/// The big-endian bytes of `x`.
pub fn u64_to_be_bytes(x: u64) -> (out: [u8; 8])
    ensures
        out@ == be_bytes(x),
{
    assert(((x >> 56) & 0xff) < 256 && ((x >> 48) & 0xff) < 256 && ((x >> 40) & 0xff) < 256 && ((x
        >> 32) & 0xff) < 256 && ((x >> 24) & 0xff) < 256 && ((x >> 16) & 0xff) < 256 && ((x >> 8)
        & 0xff) < 256 && (x & 0xff) < 256) by (bit_vector);
    let out: [u8; 8] = [
        ((x >> 56) & 0xff) as u8,
        ((x >> 48) & 0xff) as u8,
        ((x >> 40) & 0xff) as u8,
        ((x >> 32) & 0xff) as u8,
        ((x >> 24) & 0xff) as u8,
        ((x >> 16) & 0xff) as u8,
        ((x >> 8) & 0xff) as u8,
        (x & 0xff) as u8,
    ];
    assert(out@ =~= be_bytes(x));
    out
}

/// The number that eight big-endian bytes spell.
pub fn u64_from_be_bytes(bytes: &[u8]) -> (x: u64)
    requires
        bytes@.len() == 8,
    ensures
        x == be_value(bytes@),
{
    ((bytes[0] as u64) << 56) | ((bytes[1] as u64) << 48) | ((bytes[2] as u64) << 40) | ((
    bytes[3] as u64) << 32) | ((bytes[4] as u64) << 24) | ((bytes[5] as u64) << 16) | ((
    bytes[6] as u64) << 8) | (bytes[7] as u64)
}

/// What a value is, apart from how it is held in memory.
pub enum ValueView {
    /// Text, as its characters.
    String(Seq<char>),
    /// An unsigned 64-bit integer.
    Integer(u64),
    /// Opaque bytes.
    Blob(Seq<u8>),
}

impl ValueView {
    /// The type byte that a header carries for this kind of value.
    pub open spec fn tag(self) -> u8 {
        match self {
            ValueView::String(_) => TAG_STRING,
            ValueView::Integer(_) => TAG_INTEGER,
            ValueView::Blob(_) => TAG_BLOB,
        }
    }

    /// The payload bytes: UTF-8 for text, eight big-endian bytes for an
    /// integer, a blob verbatim.
    pub open spec fn bytes(self) -> Seq<u8> {
        match self {
            ValueView::String(text) => encode_utf8(text),
            ValueView::Integer(number) => be_bytes(number),
            ValueView::Blob(bytes) => bytes,
        }
    }
}

/// The eighteen header bytes: type, flags, key size, value size.
pub open spec fn header_bytes(tag: u8, flags: u8, key_size: u64, value_size: u64) -> Seq<u8> {
    seq![tag, flags] + be_bytes(key_size) + be_bytes(value_size)
}

/// One entry of a page: a key, its value, and whether it has been deleted.
pub struct EntryView {
    pub key: Seq<char>,
    pub value: ValueView,
    pub deleted: bool,
}

impl EntryView {
    /// The flags byte of the entry's header.
    pub open spec fn flags(self) -> u8 {
        if self.deleted {
            FLAG_DELETED
        } else {
            FLAG_LIVE
        }
    }

    /// The key's UTF-8 bytes.
    pub open spec fn key_bytes(self) -> Seq<u8> {
        encode_utf8(self.key)
    }

    /// Bytes that the entry occupies: header, key and value.
    pub open spec fn size(self) -> nat {
        HEADER_SIZE as nat + self.key_bytes().len() + self.value.bytes().len()
    }

    /// The entry as it lies in the page.
    pub open spec fn bytes(self) -> Seq<u8> {
        header_bytes(
            self.value.tag(),
            self.flags(),
            self.key_bytes().len() as u64,
            self.value.bytes().len() as u64,
        ) + self.key_bytes() + self.value.bytes()
    }

    /// The same entry, marked deleted.
    pub open spec fn tombstoned(self) -> EntryView {
        EntryView { key: self.key, value: self.value, deleted: true }
    }
}

/// Bytes that a sequence of entries occupies when packed without padding.
pub open spec fn span(entries: Seq<EntryView>) -> nat
    decreases entries.len(),
{
    if entries.len() == 0 {
        0
    } else {
        span(entries.drop_last()) + entries.last().size()
    }
}

/// Offset at which entry `i` starts: the span of the entries before it.
pub open spec fn start_of(entries: Seq<EntryView>, i: int) -> int {
    span(entries.take(i)) as int
}

/// Entry `i` exists and is live.
pub open spec fn is_live(entries: Seq<EntryView>, i: int) -> bool {
    0 <= i < entries.len() && !entries[i].deleted
}

/// Entry `i` exists and is tombstoned.
pub open spec fn is_dead(entries: Seq<EntryView>, i: int) -> bool {
    0 <= i < entries.len() && entries[i].deleted
}

/// The key-value map that the live entries denote.
pub open spec fn live_map(entries: Seq<EntryView>) -> Map<Seq<char>, ValueView>
    decreases entries.len(),
{
    if entries.len() == 0 {
        Map::empty()
    } else if entries.last().deleted {
        live_map(entries.drop_last())
    } else {
        live_map(entries.drop_last()).insert(entries.last().key, entries.last().value)
    }
}

/// Bytes that the live entries occupy.
pub open spec fn live_span(entries: Seq<EntryView>) -> nat
    decreases entries.len(),
{
    if entries.len() == 0 {
        0
    } else if entries.last().deleted {
        live_span(entries.drop_last())
    } else {
        live_span(entries.drop_last()) + entries.last().size()
    }
}

/// Bytes that the tombstoned entries occupy.
pub open spec fn dead_span(entries: Seq<EntryView>) -> nat
    decreases entries.len(),
{
    if entries.len() == 0 {
        0
    } else if entries.last().deleted {
        dead_span(entries.drop_last()) + entries.last().size()
    } else {
        dead_span(entries.drop_last())
    }
}

/// No two live entries share a key.
pub open spec fn live_keys_unique(entries: Seq<EntryView>) -> bool {
    forall|i: int, j: int|
        #![trigger is_live(entries, i), is_live(entries, j)]
        is_live(entries, i) && is_live(entries, j) && entries[i].key == entries[j].key ==> i == j
}

/// Index of the first tombstoned entry, or the number of entries if none is
/// tombstoned.
pub open spec fn first_dead(entries: Seq<EntryView>) -> int
    decreases entries.len(),
{
    if entries.len() == 0 {
        0
    } else if entries[0].deleted {
        0
    } else {
        1 + first_dead(entries.drop_first())
    }
}

/// Index of the live entry under `key`, or -1 if there is none. Where several
/// live entries share the key, the last one.
pub open spec fn live_slot(entries: Seq<EntryView>, key: Seq<char>) -> int
    decreases entries.len(),
{
    if entries.len() == 0 {
        -1
    } else if !entries.last().deleted && entries.last().key == key {
        entries.len() - 1
    } else {
        live_slot(entries.drop_last(), key)
    }
}

} // verus!
