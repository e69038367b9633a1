//! The page: a memory-mapped region of fixed capacity, its index of live
//! entries, its list of gaps, and the operations on them.

use vstd::prelude::*;
use vstd::hash_map::StringHashMap;
use vstd::slice::slice_to_vec;
use vstd::string::StringExecFns;
use vstd::utf8::{decode_utf8, encode_utf8, valid_utf8};
use memmap::MmapMut;
use crate::bytes::{closed_up, move_down, write_at, zero_fill};
use crate::entry::{MemKvPageEntry, MemKvPageEntryHeader, MemKvPageGap};
use crate::errors::{
    EntryAlreadyDeletedInFileError, InvalidDataTypeError, KeyAlreadyExistsError,
    KeyDoesNotExistError, MemKvError, MemmapCreationFailureError, NoSpaceLeftError,
};
use crate::format::{
    first_dead, is_dead, is_live, live_keys_unique, live_map, live_slot, span, start_of,
    u64_from_be_bytes, u64_to_be_bytes, EntryView, ValueView, FLAG_DELETED, HEADER_SIZE,
    KV_PAGE_SIZE,
};
use crate::gaps::{lowered, lowered_index, place_of, queue_gap, shift_gaps};
use crate::layout::{
    entry_at, gap_of, header_of, image_holds, lemma_entry_fields, lemma_index_unique,
    lemma_insert_holds, lemma_live_map_keys, lemma_live_map_value, lemma_live_slot_is,
    lemma_next_gap, lemma_reclaim_inner, lemma_reclaim_moved, lemma_reclaim_tail,
    lemma_start_apart, lemma_start_ends, lemma_start_order, lemma_start_step,
    lemma_tombstone_gaps, lemma_tombstone_image, lemma_tombstone_index, lemma_tombstone_map,
    lemma_tombstone_starts, page_holds, splice,
};
use crate::mapping::{map_bytes, map_bytes_mut, mapped_bytes};
use crate::text::text_from_utf8;
use crate::value::{Value, ValueDataType};

verus! {

/// A page of `KV_PAGE_SIZE` bytes in a memory mapping, holding entries packed
/// from offset 0 up to a cursor.
pub struct MemKvPage {
    mmap: MmapMut,
    index: StringHashMap<u64>,
    /// By descending offset: the gap to reclaim next is the last.
    deleted_entries: Vec<MemKvPageGap>,
    offset: u64,
    layout: Ghost<Seq<EntryView>>,
}

impl View for MemKvPage {
    type V = Map<Seq<char>, ValueView>;

    /// The key-value map that the page holds.
    open spec fn view(&self) -> Map<Seq<char>, ValueView> {
        live_map(self.entries())
    }
}

impl MemKvPage {
    /// The entries between offset 0 and the cursor, in the order in which
    /// they lie, tombstoned ones included.
    pub closed spec fn entries(&self) -> Seq<EntryView> {
        self.layout@
    }

    /// All bytes of the mapping.
    pub closed spec fn bytes(&self) -> Seq<u8> {
        mapped_bytes(self.mmap)
    }

    /// The first byte beyond the last entry.
    pub closed spec fn cursor(&self) -> u64 {
        self.offset
    }

    /// The offsets that the index holds, by key.
    pub closed spec fn index_map(&self) -> Map<Seq<char>, u64> {
        self.index@
    }

    /// The gaps queued for reclamation, by descending offset.
    pub closed spec fn gaps(&self) -> Seq<MemKvPageGap> {
        self.deleted_entries@
    }

    /// The page is well formed: bytes, cursor, index and gaps agree with the
    /// entries.
    pub open spec fn wf(&self) -> bool {
        page_holds(self.entries(), self.bytes(), self.cursor(), self.index_map(), self.gaps())
    }

    /// `other` differs from this page in its bytes at most.
    pub open spec fn same_but_bytes(&self, other: &MemKvPage) -> bool {
        &&& other.entries() == self.entries()
        &&& other.cursor() == self.cursor()
        &&& other.index_map() == self.index_map()
        &&& other.gaps() == self.gaps()
        &&& other.bytes().len() == self.bytes().len()
    }

    /// The entry that an insertion of `value` under `key` appends.
    pub open spec fn fresh(key: Seq<char>, value: ValueView) -> EntryView {
        EntryView { key, value, deleted: false }
    }

    /// What `get` answers for `key`: the value that the map holds for it, or
    /// `KeyDoesNotExist`.
    pub open spec fn lookup(&self, key: Seq<char>) -> Result<ValueView, MemKvError> {
        if self@.contains_key(key) {
            Ok(self@[key])
        } else {
            Err(MemKvError::KeyDoesNotExist(KeyDoesNotExistError))
        }
    }

    /// Why `insert` turns `value` under `key` away, if it does. The value's
    /// length alone is held against the room left first, then the key against
    /// the map, then the whole entry against the room left.
    pub open spec fn insert_refusal(&self, key: Seq<char>, value: ValueView) -> Option<
        MemKvError,
    > {
        if self.cursor() + value.bytes().len() > KV_PAGE_SIZE {
            Some(MemKvError::NoSpaceLeft(NoSpaceLeftError))
        } else if self@.contains_key(key) {
            Some(MemKvError::KeyAlreadyExists(KeyAlreadyExistsError))
        } else if self.cursor() + Self::fresh(key, value).size() > KV_PAGE_SIZE {
            Some(MemKvError::NoSpaceLeft(NoSpaceLeftError))
        } else {
            None
        }
    }

    /// `after` is this page with `value` appended under `key`: a live entry
    /// written at the cursor, the key indexed there, the cursor moved past
    /// it, and nothing else touched.
    pub open spec fn inserted(&self, after: &MemKvPage, key: Seq<char>, value: ValueView) -> bool {
        &&& after.entries() == self.entries().push(Self::fresh(key, value))
        &&& after.bytes() == splice(
            self.bytes(),
            self.cursor() as int,
            Self::fresh(key, value).bytes(),
        )
        &&& after.cursor() == self.cursor() + Self::fresh(key, value).size()
        &&& after.index_map() == self.index_map().insert(key, self.cursor())
        &&& after.gaps() == self.gaps()
    }

    /// `after` is this page with the live entry under `key` tombstoned: the
    /// flags byte of its header set, the key dropped from the index, the
    /// entry's room queued as a gap behind the gaps with a greater offset,
    /// and nothing else touched.
    pub open spec fn deleted(&self, after: &MemKvPage, key: Seq<char>) -> bool {
        let slot = live_slot(self.entries(), key);
        &&& is_live(self.entries(), slot)
        &&& after.entries() == self.entries().update(slot, self.entries()[slot].tombstoned())
        &&& after.bytes() == self.bytes().update(
            start_of(self.entries(), slot) + 1,
            FLAG_DELETED,
        )
        &&& after.cursor() == self.cursor()
        &&& after.index_map() == self.index_map().remove(key)
        &&& after.gaps() == self.gaps().insert(
            place_of(self.gaps(), gap_of(self.entries(), slot).offset),
            gap_of(self.entries(), slot),
        )
    }

    /// The gap that `defrag` reclaims next ends at the cursor.
    pub open spec fn next_gap_is_last(&self) -> bool {
        self.gaps().len() > 0 && self.gaps().last().offset + self.gaps().last().length
            == self.cursor()
    }

    /// `after` is this page with one gap reclaimed, the one with the smallest
    /// offset, which is the room of the first tombstoned entry: that entry
    /// is gone, the cursor is lower by the gap's length, and so are the
    /// offsets of the other gaps and the offsets that the index holds for
    /// entries behind the gap. Where the gap ended at the cursor, the bytes
    /// are untouched; otherwise the bytes behind the gap have moved down over
    /// it and the bytes they freed are zero.
    pub open spec fn defragged(&self, after: &MemKvPage) -> bool {
        let gap = self.gaps().last();
        let slot = first_dead(self.entries());
        &&& is_dead(self.entries(), slot)
        &&& gap == gap_of(self.entries(), slot)
        &&& after.entries() == self.entries().remove(slot)
        &&& after.cursor() == self.cursor() - gap.length
        &&& after.gaps() == lowered(self.gaps().drop_last(), gap.length)
        &&& after.index_map() == lowered_index(self.index_map(), gap)
        &&& if self.next_gap_is_last() {
            after.bytes() == self.bytes()
        } else {
            after.bytes() == closed_up(
                self.bytes(),
                gap.offset as int,
                gap.offset + gap.length,
                self.cursor() as int,
            )
        }
    }

    /// Every byte from the cursor to the end of the page is zero.
    pub open spec fn tail_is_zero(&self) -> bool {
        forall|i: int| self.cursor() <= i < self.bytes().len() ==> self.bytes()[i] == 0
    }

    /// The index holds exactly the keys of the map.
    pub proof fn lemma_index_keys(&self)
        requires
            self.wf(),
        ensures
            self.index_map().dom() == self@.dom(),
    {
        lemma_live_map_keys(self.entries());
    }

    /// An empty page over `mmap`, which must span exactly `KV_PAGE_SIZE`
    /// bytes. The bytes of the mapping are taken as they are: over a mapping
    /// of zeros, as a file just created and sized gives one, every byte from
    /// the cursor on is zero.
    pub fn new(mmap: MmapMut) -> (page: Result<MemKvPage, MemmapCreationFailureError>)
        ensures
            page is Ok <==> mapped_bytes(mmap).len() == KV_PAGE_SIZE,
            page matches Ok(p) ==> ({
                &&& p.wf()
                &&& p.entries() == Seq::<EntryView>::empty()
                &&& p.bytes() == mapped_bytes(mmap)
                &&& p.cursor() == 0
                &&& p.index_map() == Map::<Seq<char>, u64>::empty()
                &&& p.gaps() == Seq::<MemKvPageGap>::empty()
                &&& p@ == Map::<Seq<char>, ValueView>::empty()
                &&& p.tail_is_zero() <==> forall|i: int|
                    0 <= i < KV_PAGE_SIZE ==> mapped_bytes(mmap)[i] == 0
            }),
    {
        if map_bytes(&mmap).len() as u64 != KV_PAGE_SIZE {
            return Err(MemmapCreationFailureError);
        }
        let page = MemKvPage {
            mmap,
            index: StringHashMap::new(),
            deleted_entries: Vec::new(),
            offset: 0,
            layout: Ghost(Seq::empty()),
        };
        Ok(page)
    }

    /// The cursor: the first byte beyond the last entry.
    pub fn offset(&self) -> (offset: u64)
        ensures
            offset == self.cursor(),
    {
        self.offset
    }

    /// The offset that the index holds for `key`, if it holds one.
    pub fn offset_of(&self, key: &str) -> (offset: Option<u64>)
        ensures
            offset == (if self.index_map().contains_key(key@) {
                Some(self.index_map()[key@])
            } else {
                None
            }),
    {
        match self.index.get(key) {
            Some(offset) => Some(*offset),
            None => None,
        }
    }

    /// The gaps queued for reclamation, by descending offset: the last is
    /// reclaimed next.
    pub fn gap_queue(&self) -> (gaps: Vec<MemKvPageGap>)
        ensures
            gaps@ == self.gaps(),
    {
        self.deleted_entries.clone()
    }

    /// The mapping that holds the page, for the caller to flush it to its
    /// file.
    pub fn mapping(&self) -> (mmap: &MmapMut)
        ensures
            mapped_bytes(*mmap) == self.bytes(),
    {
        &self.mmap
    }

    /// All bytes of the page.
    pub fn as_bytes(&self) -> (bytes: &[u8])
        ensures
            bytes@ == self.bytes(),
    {
        map_bytes(&self.mmap)
    }

    /// Decodes the header at `start_offset`. Fails where fewer than eighteen
    /// bytes are left in the page from there, or where the type byte names no
    /// value kind.
    pub fn read_header_from_offset(&self, start_offset: u64) -> (header: Result<
        MemKvPageEntryHeader,
        InvalidDataTypeError,
    >)
        ensures
            header is Ok <==> MemKvPageEntryHeader::readable(self.bytes(), start_offset as int),
            header matches Ok(h) ==> h == MemKvPageEntryHeader::decoded(
                self.bytes(),
                start_offset as int,
            ),
    {
        let page = map_bytes(&self.mmap);
        let total: usize = page.len();
        if total < HEADER_SIZE as usize || start_offset > (total - HEADER_SIZE as usize) as u64 {
            return Err(InvalidDataTypeError);
        }
        let start: usize = start_offset as usize;
        let data_type = match ValueDataType::try_from(page[start]) {
            Ok(kind) => kind,
            Err(e) => {
                return Err(e);
            },
        };
        let flags: u8 = page[start + 1];
        let key_size: u64 = u64_from_be_bytes(&page[start + 2..start + 10]);
        let value_size: u64 = u64_from_be_bytes(&page[start + 10..start + 18]);
        Ok(MemKvPageEntryHeader { data_type, flags, offset: start_offset, key_size, value_size })
    }

    /// Decodes the key that follows `header`. Fails where the key would run
    /// past the end of the page, or where its bytes are not valid UTF-8.
    pub fn read_key(&self, header: &MemKvPageEntryHeader) -> (key: Result<
        String,
        InvalidDataTypeError,
    >)
        ensures
            key is Ok <==> header.key_fits(self.bytes().len() as int) && valid_utf8(
                header.key_range(self.bytes()),
            ),
            key matches Ok(k) ==> k@ == decode_utf8(header.key_range(self.bytes())),
    {
        broadcast use vstd::utf8::encode_utf8_decode_utf8;

        let page = map_bytes(&self.mmap);
        let total: u64 = page.len() as u64;
        if header.offset > total || total - header.offset < HEADER_SIZE || header.key_size > total
            - header.offset - HEADER_SIZE {
            return Err(InvalidDataTypeError);
        }
        let from: usize = header.get_absolute_data_offset() as usize;
        let to: usize = from + header.key_size as usize;
        let key_buffer: Vec<u8> = slice_to_vec(&page[from..to]);
        match text_from_utf8(key_buffer) {
            Some(entry_key) => Ok(entry_key),
            None => Err(InvalidDataTypeError),
        }
    }

    /// Decodes the value that follows `header` and its key, and hands its
    /// payload bytes back with it. Fails where the entry would run past the
    /// end of the page, or where the payload does not fit the header's kind.
    pub fn read_value(&self, header: &MemKvPageEntryHeader) -> (value: Result<
        (Value, Vec<u8>),
        InvalidDataTypeError,
    >)
        ensures
            value is Ok <==> header.entry_size() <= u64::MAX && header.fits(
                self.bytes().len() as int,
            ) && header.data_type.decode(header.value_range(self.bytes())) is Some,
            value matches Ok(pair) ==> pair.1@ == header.value_range(self.bytes()) && Some(pair.0@)
                == header.data_type.decode(pair.1@),
    {
        broadcast use vstd::utf8::encode_utf8_decode_utf8;

        let page = map_bytes(&self.mmap);
        let total: u64 = page.len() as u64;
        if header.offset > total || total - header.offset < HEADER_SIZE || header.key_size > total
            - header.offset - HEADER_SIZE || header.value_size > total - header.offset
            - HEADER_SIZE - header.key_size {
            return Err(InvalidDataTypeError);
        }
        let from: usize = header.get_absolute_data_offset() as usize + header.key_size as usize;
        let to: usize = from + header.value_size as usize;
        let value_buffer: Vec<u8> = slice_to_vec(&page[from..to]);
        let value = match header.data_type {
            ValueDataType::String => match text_from_utf8(value_buffer.clone()) {
                Some(text) => Value::String(text),
                None => {
                    return Err(InvalidDataTypeError);
                },
            },
            ValueDataType::Integer => {
                if value_buffer.len() != 8 {
                    return Err(InvalidDataTypeError);
                }
                Value::Integer(u64_from_be_bytes(value_buffer.as_slice()))
            },
            ValueDataType::Blob => Value::Blob(value_buffer.clone()),
        };
        Ok((value, value_buffer))
    }

    /// Decodes the header of the entry that the index holds for `key`.
    pub fn read_header(&self, key: &str) -> (header: Result<MemKvPageEntryHeader, MemKvError>)
        ensures
            (match header {
                Ok(h) => self.index_map().contains_key(key@) && MemKvPageEntryHeader::readable(
                    self.bytes(),
                    self.index_map()[key@] as int,
                ) && h == MemKvPageEntryHeader::decoded(
                    self.bytes(),
                    self.index_map()[key@] as int,
                ),
                Err(MemKvError::KeyDoesNotExist(_)) => !self.index_map().contains_key(key@),
                Err(MemKvError::InvalidDataType(_)) => self.index_map().contains_key(key@)
                    && !MemKvPageEntryHeader::readable(
                    self.bytes(),
                    self.index_map()[key@] as int,
                ),
                Err(_) => false,
            }),
    {
        let start_offset: u64 = match self.index.get(key) {
            Some(offset) => *offset,
            None => {
                return Err(MemKvError::KeyDoesNotExist(KeyDoesNotExistError));
            },
        };
        match self.read_header_from_offset(start_offset) {
            Ok(header) => Ok(header),
            Err(e) => Err(MemKvError::InvalidDataType(e)),
        }
    }

    /// Index of the live entry under `key`, which the page holds.
    proof fn find_slot(&self, key: Seq<char>) -> (i: int)
        requires
            self.wf(),
            self.index_map().contains_key(key),
        ensures
            is_live(self.entries(), i),
            self.entries()[i].key == key,
            self.index_map()[key] == start_of(self.entries(), i),
            self@.contains_key(key),
            self@[key] == self.entries()[i].value,
            live_slot(self.entries(), key) == i,
            MemKvPageEntryHeader::readable(self.bytes(), start_of(self.entries(), i)),
            MemKvPageEntryHeader::decoded(self.bytes(), start_of(self.entries(), i)) == header_of(
                self.entries(),
                i,
            ),
            header_of(self.entries(), i).entry_size() == self.entries()[i].size(),
            header_of(self.entries(), i).fits(KV_PAGE_SIZE as int),
            header_of(self.entries(), i).key_range(self.bytes()) == self.entries()[i].key_bytes(),
            header_of(self.entries(), i).value_range(self.bytes())
                == self.entries()[i].value.bytes(),
    {
        let entries = self.entries();
        let i = choose|i: int| #[trigger] is_live(entries, i) && entries[i].key == key;
        lemma_index_unique(self.index_map(), entries);
        lemma_live_map_value(entries, i);
        lemma_live_slot_is(entries, i);
        lemma_start_order(entries, i, entries.len() as int);
        lemma_entry_fields(self.bytes(), entries, i);
        i
    }

    /// Reads the whole entry that the page holds for `key`.
    pub fn read_entry(&self, key: &str) -> (entry: Result<MemKvPageEntry, MemKvError>)
        requires
            self.wf(),
        ensures
            entry is Ok <==> self@.contains_key(key@),
            entry matches Ok(e) ==> e.key@ == key@ && e.value@ == self@[key@] && e.value_data@
                == self@[key@].bytes() && e.header == MemKvPageEntryHeader::decoded(
                self.bytes(),
                self.index_map()[key@] as int,
            ) && e.header.flags == 0,
            entry matches Err(e) ==> e == MemKvError::KeyDoesNotExist(KeyDoesNotExistError),
    {
        broadcast use vstd::utf8::encode_utf8_valid_utf8, vstd::utf8::encode_utf8_decode_utf8;

        proof {
            lemma_live_map_keys(self.entries());
            if self.index_map().contains_key(key@) {
                let i = self.find_slot(key@);
                ValueDataType::lemma_decode_encoded(self.entries()[i].value);
            }
        }
        let header = match self.read_header(key) {
            Ok(header) => header,
            Err(e) => {
                return Err(e);
            },
        };
        let entry_key = match self.read_key(&header) {
            Ok(entry_key) => entry_key,
            Err(e) => {
                return Err(MemKvError::InvalidDataType(e));
            },
        };
        let (value, value_data) = match self.read_value(&header) {
            Ok(pair) => pair,
            Err(e) => {
                return Err(MemKvError::InvalidDataType(e));
            },
        };
        Ok(MemKvPageEntry { header, key: entry_key, value, value_data })
    }

    /// The value stored under `key`.
    pub fn get(&self, key: &str) -> (value: Result<Value, MemKvError>)
        requires
            self.wf(),
        ensures
            (match value {
                Ok(v) => self.lookup(key@) == Ok::<ValueView, MemKvError>(v@),
                Err(e) => self.lookup(key@) == Err::<ValueView, MemKvError>(e),
            }),
    {
        proof {
            lemma_live_map_keys(self.entries());
        }
        if !self.index.contains_key(key) {
            return Err(MemKvError::KeyDoesNotExist(KeyDoesNotExistError));
        }
        match self.read_entry(key) {
            Ok(entry) => Ok(entry.value),
            Err(e) => Err(e),
        }
    }

    /// Copies `data` into the mapping from `offset` on; hands back the offset
    /// after the last byte written.
    fn write_to_mmap(mmap: &mut MmapMut, offset: usize, data: &[u8]) -> (next: usize)
        requires
            offset + data@.len() <= mapped_bytes(*old(mmap)).len(),
        ensures
            mapped_bytes(*final(mmap)) == splice(mapped_bytes(*old(mmap)), offset as int, data@),
            next == offset + data@.len(),
    {
        let page = map_bytes_mut(mmap);
        write_at(page, offset, data)
    }

    /// Writes the eighteen bytes of `header` at the header's offset.
    fn write_header(&mut self, header: MemKvPageEntryHeader)
        requires
            old(self).bytes().len() == KV_PAGE_SIZE,
            header.offset + HEADER_SIZE <= KV_PAGE_SIZE,
        ensures
            final(self).bytes() == splice(old(self).bytes(), header.offset as int, header.bytes()),
            old(self).same_but_bytes(final(self)),
    {
        let kind: [u8; 1] = [header.data_type.to_byte()];
        let flags: [u8; 1] = [header.flags];
        let mut index: usize = MemKvPage::write_to_mmap(
            &mut self.mmap,
            header.offset as usize,
            kind.as_slice(),
        );
        index = MemKvPage::write_to_mmap(&mut self.mmap, index, flags.as_slice());
        index = MemKvPage::write_to_mmap(
            &mut self.mmap,
            index,
            u64_to_be_bytes(header.key_size).as_slice(),
        );
        index = MemKvPage::write_to_mmap(
            &mut self.mmap,
            index,
            u64_to_be_bytes(header.value_size).as_slice(),
        );
    }

    /// Writes `entry` at the offset in its header: header, key, value.
    /// Hands back the offset after the entry.
    fn write_entry(&mut self, entry: MemKvPageEntry) -> (next: u64)
        requires
            old(self).bytes().len() == KV_PAGE_SIZE,
            entry.header.fits(KV_PAGE_SIZE as int),
            entry.header.key_size == encode_utf8(entry.key@).len(),
            entry.header.value_size == entry.value_data@.len(),
        ensures
            final(self).bytes() == splice(
                old(self).bytes(),
                entry.header.offset as int,
                entry.header.bytes() + encode_utf8(entry.key@) + entry.value_data@,
            ),
            old(self).same_but_bytes(final(self)),
            next == entry.header.offset + entry.header.entry_size(),
    {
        let data_offset: usize = entry.header.get_absolute_data_offset() as usize;
        self.write_header(entry.header);
        let mut index: usize = MemKvPage::write_to_mmap(
            &mut self.mmap,
            data_offset,
            entry.key.as_str().as_bytes(),
        );
        index = MemKvPage::write_to_mmap(&mut self.mmap, index, entry.value_data.as_slice());
        assert(self.bytes() =~= splice(
            old(self).bytes(),
            entry.header.offset as int,
            entry.header.bytes() + encode_utf8(entry.key@) + entry.value_data@,
        ));
        index as u64
    }

    /// Writes `entry` at the offset in its header, which is the cursor where
    /// an entry is appended.
    fn append_entry(&mut self, entry: MemKvPageEntry) -> (next: u64)
        requires
            old(self).bytes().len() == KV_PAGE_SIZE,
            entry.header.fits(KV_PAGE_SIZE as int),
            entry.header.key_size == encode_utf8(entry.key@).len(),
            entry.header.value_size == entry.value_data@.len(),
        ensures
            final(self).bytes() == splice(
                old(self).bytes(),
                entry.header.offset as int,
                entry.header.bytes() + encode_utf8(entry.key@) + entry.value_data@,
            ),
            old(self).same_but_bytes(final(self)),
            next == entry.header.offset + entry.header.entry_size(),
    {
        self.write_entry(entry)
    }

    /// Appends `value` under `key` at the cursor.
    ///
    /// The value's length alone is held against the room left first, then the
    /// key against the index, then the whole entry against the room left: a
    /// value that cannot fit is reported as `NoSpaceLeft` even under a key
    /// that is present.
    pub fn insert(&mut self, key: &str, value: Value) -> (result: Result<(), MemKvError>)
        requires
            old(self).wf(),
        ensures
            final(self).wf(),
            (match old(self).insert_refusal(key@, value@) {
                Some(refusal) => {
                    &&& result == Err::<(), MemKvError>(refusal)
                    &&& *final(self) == *old(self)
                },
                None => {
                    &&& result is Ok
                    &&& old(self).inserted(final(self), key@, value@)
                    &&& final(self)@ == old(self)@.insert(key@, value@)
                },
            }),
    {
        proof {
            self.lemma_index_keys();
        }
        let ghost fresh = Self::fresh(key@, value@);
        let value_length: u64 = value.get_bytes_length() as u64;
        if value_length > KV_PAGE_SIZE - self.offset {
            return Err(MemKvError::NoSpaceLeft(NoSpaceLeftError));
        }
        if self.index.contains_key(key) {
            return Err(MemKvError::KeyAlreadyExists(KeyAlreadyExistsError));
        }
        let key_length: u64 = key.as_bytes().len() as u64;
        let room: u64 = KV_PAGE_SIZE - self.offset - value_length;
        if room < HEADER_SIZE || key_length > room - HEADER_SIZE {
            return Err(MemKvError::NoSpaceLeft(NoSpaceLeftError));
        }
        self.index.insert(String::from_str(key), self.offset);

        let data_type = value.get_data_type();
        let entry = MemKvPageEntry::new(self.offset, key, value, data_type);
        proof {
            ValueDataType::lemma_decode_encoded(fresh.value);
            assert(entry.header.bytes() + encode_utf8(entry.key@) + entry.value_data@
                == fresh.bytes());
        }
        self.offset = self.append_entry(entry);
        self.layout = Ghost(self.layout@.push(fresh));
        proof {
            lemma_insert_holds(
                old(self).entries(),
                old(self).bytes(),
                old(self).cursor(),
                old(self).index_map(),
                old(self).gaps(),
                fresh,
            );
        }
        Ok(())
    }

    /// Tombstones the entry under `key`: sets the flag in its header, drops
    /// the key from the index, and queues the entry's room as a gap.
    ///
    /// A well-formed page never reports `EntryAlreadyDeletedInFile`: no
    /// indexed entry carries the flag.
    pub fn delete(&mut self, key: &str) -> (result: Result<(), MemKvError>)
        requires
            old(self).wf(),
        ensures
            final(self).wf(),
            (if old(self)@.contains_key(key@) {
                &&& result is Ok
                &&& old(self).deleted(final(self), key@)
                &&& final(self)@ == old(self)@.remove(key@)
            } else {
                &&& result == Err::<(), MemKvError>(
                    MemKvError::KeyDoesNotExist(KeyDoesNotExistError),
                )
                &&& *final(self) == *old(self)
            }),
    {
        proof {
            self.lemma_index_keys();
        }
        if !self.index.contains_key(key) {
            return Err(MemKvError::KeyDoesNotExist(KeyDoesNotExistError));
        }
        let ghost slot = self.find_slot(key@);
        let ghost entries = self.entries();
        let mut header = match self.read_header(key) {
            Ok(header) => header,
            Err(e) => {
                return Err(e);
            },
        };
        if header.flags != 0 {
            return Err(MemKvError::EntryAlreadyDeletedInFile(EntryAlreadyDeletedInFileError));
        }
        header.flags = FLAG_DELETED;
        proof {
            lemma_start_order(entries, slot, entries.len() as int);
            assert(entry_at(self.bytes(), entries, slot));
            assert(splice(self.bytes(), header.offset as int, header.bytes())
                =~= self.bytes().update(header.offset + 1, FLAG_DELETED)) by {
                let window = self.bytes().subrange(
                    header.offset as int,
                    header.offset + entries[slot].size(),
                );
                assert forall|t: int| 0 <= t < HEADER_SIZE && t != 1 implies self.bytes()[header.offset
                    + t] == header.bytes()[t] by {
                    assert(window[t] == self.bytes()[header.offset + t]);
                }
            }
        }
        self.write_header(header);
        self.index.remove(key);
        proof {
            assert forall|a: int| 0 <= a < self.deleted_entries@.len() implies (
            #[trigger] self.deleted_entries@[a]).offset != header.offset by {
                let j = choose|j: int| #[trigger]
                    is_dead(entries, j) && gap_of(entries, j) == self.deleted_entries@[a];
                lemma_start_apart(entries, slot, j);
                lemma_start_order(entries, j, entries.len() as int);
            }
        }
        let place: usize = queue_gap(&mut self.deleted_entries, MemKvPageGap::new(header));
        self.layout = Ghost(entries.update(slot, entries[slot].tombstoned()));
        proof {
            lemma_index_unique(old(self).index_map(), entries);
            lemma_tombstone_starts(entries, slot);
            lemma_tombstone_image(old(self).bytes(), entries, slot);
            lemma_tombstone_index(old(self).index_map(), entries, slot);
            lemma_tombstone_gaps(old(self).gaps(), entries, slot, place as int);
            lemma_tombstone_map(entries, slot);
        }
        Ok(())
    }

    /// Walks the entries from `start` on, up to the first place where no
    /// header can be read, and gives each live one its present offset in the
    /// index.
    ///
    /// It is called when the entries from number `first` on have just been
    /// moved down by `moved_by` bytes, and the index still holds their
    /// offsets from before the move.
    fn reindex(&mut self, start: u64, Ghost(first): Ghost<int>, Ghost(moved_by): Ghost<int>)
        requires
            old(self).bytes().len() == KV_PAGE_SIZE,
            image_holds(old(self).bytes(), old(self).entries()),
            live_keys_unique(old(self).entries()),
            0 <= first <= old(self).entries().len(),
            start == start_of(old(self).entries(), first),
            moved_by >= HEADER_SIZE,
            span(old(self).entries()) + moved_by <= KV_PAGE_SIZE,
            old(self).bytes()[span(old(self).entries()) as int] == 0,
            forall|t: int| #[trigger]
                is_live(old(self).entries(), t) ==> old(self).index_map().contains_key(
                    old(self).entries()[t].key,
                ) && old(self).index_map()[old(self).entries()[t].key] == (if t < first {
                    start_of(old(self).entries(), t)
                } else {
                    start_of(old(self).entries(), t) + moved_by
                }),
        ensures
            final(self).bytes() == old(self).bytes(),
            final(self).entries() == old(self).entries(),
            final(self).cursor() == old(self).cursor(),
            final(self).gaps() == old(self).gaps(),
            final(self).index_map().dom() == old(self).index_map().dom(),
            forall|t: int| #[trigger]
                is_live(old(self).entries(), t) ==> start_of(old(self).entries(), t)
                    == final(self).index_map()[old(self).entries()[t].key],
    {
        let ghost entries = self.entries();
        let ghost count = entries.len() as int;
        let ghost mut slot: int = first;
        let mut entry_update_offset: u64 = start;
        proof {
            lemma_start_ends(entries);
        }
        loop
            invariant_except_break
                0 <= first <= slot <= count,
                entry_update_offset == start_of(entries, slot),
            invariant
                self.bytes() == old(self).bytes(),
                self.bytes().len() == KV_PAGE_SIZE,
                self.entries() == entries,
                entries == old(self).entries(),
                count == entries.len(),
                self.cursor() == old(self).cursor(),
                self.gaps() == old(self).gaps(),
                self.index_map().dom() == old(self).index_map().dom(),
                image_holds(self.bytes(), entries),
                live_keys_unique(entries),
                moved_by >= HEADER_SIZE,
                span(entries) + moved_by <= KV_PAGE_SIZE,
                self.bytes()[span(entries) as int] == 0,
                start_of(entries, count) == span(entries),
                forall|t: int| #[trigger]
                    is_live(entries, t) ==> self.index_map().contains_key(entries[t].key)
                        && self.index_map()[entries[t].key] == (if t < slot {
                        start_of(entries, t)
                    } else {
                        start_of(entries, t) + moved_by
                    }),
            ensures
                slot == count,
            decreases count - slot,
        {
            let header = match self.read_header_from_offset(entry_update_offset) {
                Ok(header) => header,
                Err(_) => {
                    proof {
                        if slot < count {
                            lemma_start_order(entries, slot, count);
                            lemma_entry_fields(self.bytes(), entries, slot);
                        }
                    }
                    break ;
                },
            };
            proof {
                lemma_start_order(entries, slot, count);
                lemma_entry_fields(self.bytes(), entries, slot);
                lemma_start_step(entries, slot);
                lemma_start_order(entries, slot + 1, count);
                vstd::utf8::encode_utf8_valid_utf8(entries[slot].key);
                vstd::utf8::encode_utf8_decode_utf8(entries[slot].key);
            }
            if header.flags == 0 {
                match self.read_key(&header) {
                    Ok(key) => {
                        assert(is_live(entries, slot));
                        self.index.insert(key, header.offset);
                    },
                    Err(_) => {
                        assert(false);
                    },
                }
            }
            entry_update_offset = entry_update_offset + header.get_entry_size();
            proof {
                assert forall|t: int| #[trigger] is_live(entries, t) implies self.index_map().contains_key(
                entries[t].key) && self.index_map()[entries[t].key] == (if t < slot + 1 {
                    start_of(entries, t)
                } else {
                    start_of(entries, t) + moved_by
                }) by {}
                slot = slot + 1;
            }
        }
    }

    /// Reclaims one gap, the one with the smallest offset.
    ///
    /// Where the gap ends at the cursor, the cursor is set back to the gap's
    /// start and nothing else changes. Otherwise the bytes between the gap
    /// and the cursor are moved down over the gap, the bytes that this frees
    /// before the cursor are set to zero, every live entry that was moved is
    /// given its new offset in the index, the offsets of the remaining gaps
    /// are lowered by the gap's length, and the cursor is lowered by it too.
    /// With no gap queued nothing happens.
    pub fn defrag(&mut self)
        requires
            old(self).wf(),
        ensures
            final(self).wf(),
            final(self)@ == old(self)@,
            (if old(self).gaps().len() == 0 {
                *final(self) == *old(self)
            } else {
                old(self).defragged(final(self))
            }),
    {
        let ghost entries = self.entries();
        let ghost gaps = self.gaps();
        if self.deleted_entries.len() == 0 {
            return ;
        }
        let next_gap: MemKvPageGap = self.deleted_entries.pop().unwrap();
        let ghost slot = first_dead(entries);
        proof {
            lemma_next_gap(entries, self.bytes(), self.cursor(), self.index_map(), gaps);
        }
        if next_gap.offset + next_gap.length == self.offset {
            self.offset = next_gap.offset;
            self.layout = Ghost(entries.remove(slot));
            proof {
                lemma_reclaim_tail(
                    entries,
                    old(self).bytes(),
                    old(self).cursor(),
                    old(self).index_map(),
                    gaps,
                );
            }
            return ;
        }
        let previous_offset: usize = self.offset as usize;
        let new_offset: u64 = self.offset - next_gap.length;
        {
            let page = map_bytes_mut(&mut self.mmap);
            move_down(
                page,
                next_gap.offset as usize,
                (next_gap.offset + next_gap.length) as usize,
                previous_offset,
            );
            zero_fill(page, new_offset as usize, previous_offset);
        }
        shift_gaps(&mut self.deleted_entries, next_gap.length);
        self.layout = Ghost(entries.remove(slot));
        proof {
            assert(self.bytes() =~= closed_up(
                old(self).bytes(),
                next_gap.offset as int,
                next_gap.offset + next_gap.length,
                old(self).cursor() as int,
            ));
            lemma_reclaim_moved(
                entries,
                old(self).bytes(),
                old(self).cursor(),
                old(self).index_map(),
                gaps,
            );
        }
        self.reindex(next_gap.offset, Ghost(slot), Ghost(next_gap.length as int));
        self.offset = new_offset;
        proof {
            lemma_reclaim_inner(
                entries,
                old(self).bytes(),
                old(self).cursor(),
                old(self).index_map(),
                gaps,
                self.index_map(),
            );
        }
    }

    /// Forgets every entry: empties the index and the gap queue and sets the
    /// cursor back to 0. The bytes of the page stay as they are; with the
    /// cursor at 0 none of them belongs to an entry.
    pub fn delete_page(&mut self)
        requires
            old(self).wf(),
        ensures
            final(self).wf(),
            final(self).entries() == Seq::<EntryView>::empty(),
            final(self).cursor() == 0,
            final(self).index_map() == Map::<Seq<char>, u64>::empty(),
            final(self).gaps() == Seq::<MemKvPageGap>::empty(),
            final(self).bytes() == old(self).bytes(),
            final(self)@ == Map::<Seq<char>, ValueView>::empty(),
    {
        self.index.clear();
        self.deleted_entries.clear();
        self.offset = 0;
        self.layout = Ghost(Seq::empty());
    }
}

} // verus!
