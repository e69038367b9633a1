//! What it means for a page's bytes, index and gap list to agree with a
//! sequence of entries, and the facts about entry sequences that the page
//! operations rest on.

use vstd::prelude::*;
use crate::bytes::closed_up;
use crate::entry::{MemKvPageEntryHeader, MemKvPageGap};
use crate::gaps::{lowered, lowered_index};
use crate::value::ValueDataType;
use crate::format::{
    be_bytes, first_dead, is_dead, is_live, lemma_be_round_trip, live_keys_unique, live_map,
    live_slot, span, start_of, EntryView, FLAG_DELETED, HEADER_SIZE, KV_PAGE_SIZE,
};

verus! {

/// `bytes` with `data` written over it from offset `at` on.
pub open spec fn splice(bytes: Seq<u8>, at: int, data: Seq<u8>) -> Seq<u8> {
    bytes.subrange(0, at) + data + bytes.subrange(at + data.len(), bytes.len() as int)
}

/// Entry `i` lies in `bytes` at its offset.
pub open spec fn entry_at(bytes: Seq<u8>, entries: Seq<EntryView>, i: int) -> bool {
    bytes.subrange(start_of(entries, i), start_of(entries, i) + entries[i].size())
        == entries[i].bytes()
}

/// Every entry lies in `bytes` at its offset.
pub open spec fn image_holds(bytes: Seq<u8>, entries: Seq<EntryView>) -> bool {
    forall|i: int| 0 <= i < entries.len() ==> #[trigger] entry_at(bytes, entries, i)
}

/// The index maps exactly the keys of the live entries, each to the offset of
/// its entry.
pub open spec fn index_holds(index: Map<Seq<char>, u64>, entries: Seq<EntryView>) -> bool {
    &&& forall|i: int| #[trigger]
        is_live(entries, i) ==> index.contains_key(entries[i].key) && index[entries[i].key]
            == start_of(entries, i)
    &&& forall|k: Seq<char>| #[trigger]
        index.contains_key(k) ==> exists|i: int| #[trigger]
            is_live(entries, i) && entries[i].key == k
}

/// The gap that entry `i` leaves when tombstoned.
pub open spec fn gap_of(entries: Seq<EntryView>, i: int) -> MemKvPageGap {
    MemKvPageGap { offset: start_of(entries, i) as u64, length: entries[i].size() as u64 }
}

/// Offsets strictly descend, so the gap with the smallest offset is last.
pub open spec fn gaps_descend(gaps: Seq<MemKvPageGap>) -> bool {
    forall|a: int, b: int|
        #![trigger gaps[a], gaps[b]]
        0 <= a < b < gaps.len() ==> gaps[a].offset > gaps[b].offset
}

/// Some tombstoned entry leaves exactly the gap `gap`.
pub open spec fn gap_backed(entries: Seq<EntryView>, gap: MemKvPageGap) -> bool {
    exists|i: int| #[trigger] is_dead(entries, i) && gap_of(entries, i) == gap
}

/// The gap list holds `gap`.
pub open spec fn gap_listed(gaps: Seq<MemKvPageGap>, gap: MemKvPageGap) -> bool {
    exists|a: int| 0 <= a < gaps.len() && #[trigger] gaps[a] == gap
}

/// The gap list holds exactly the gaps of the tombstoned entries, by
/// descending offset.
pub open spec fn gaps_hold(gaps: Seq<MemKvPageGap>, entries: Seq<EntryView>) -> bool {
    &&& gaps_descend(gaps)
    &&& forall|a: int| 0 <= a < gaps.len() ==> gap_backed(entries, #[trigger] gaps[a])
    &&& forall|i: int| #[trigger] is_dead(entries, i) ==> gap_listed(gaps, gap_of(entries, i))
}

/// A page's concrete state agrees with `entries`: they fill the bytes up to
/// the cursor, the index finds the live ones and the gap list the dead ones.
pub open spec fn page_holds(
    entries: Seq<EntryView>,
    bytes: Seq<u8>,
    cursor: u64,
    index: Map<Seq<char>, u64>,
    gaps: Seq<MemKvPageGap>,
) -> bool {
    &&& bytes.len() == KV_PAGE_SIZE
    &&& cursor == span(entries)
    &&& cursor <= KV_PAGE_SIZE
    &&& image_holds(bytes, entries)
    &&& index_holds(index, entries)
    &&& gaps_hold(gaps, entries)
}

/// Appending an entry adds its size to the span.
pub proof fn lemma_span_push(entries: Seq<EntryView>, entry: EntryView)
    ensures
        span(entries.push(entry)) == span(entries) + entry.size(),
{
    assert(entries.push(entry).drop_last() =~= entries);
}

/// An entry ends where the next one starts.
pub proof fn lemma_start_step(entries: Seq<EntryView>, i: int)
    requires
        0 <= i < entries.len(),
    ensures
        start_of(entries, i + 1) == start_of(entries, i) + entries[i].size(),
{
    assert(entries.take(i + 1).drop_last() =~= entries.take(i));
}

/// The first entry starts at 0, and the span is where a further entry would
/// start.
pub proof fn lemma_start_ends(entries: Seq<EntryView>)
    ensures
        start_of(entries, 0) == 0,
        start_of(entries, entries.len() as int) == span(entries),
{
    assert(entries.take(0) =~= Seq::<EntryView>::empty());
    assert(entries.take(entries.len() as int) =~= entries);
}

/// Entries do not overlap: an earlier one ends at or before the start of a
/// later one.
pub proof fn lemma_start_order(entries: Seq<EntryView>, i: int, j: int)
    requires
        0 <= i <= j <= entries.len(),
    ensures
        start_of(entries, i) <= start_of(entries, j),
        i < j ==> start_of(entries, i) + entries[i].size() <= start_of(entries, j),
        start_of(entries, j) <= span(entries),
    decreases entries.len() - i,
{
    lemma_start_ends(entries);
    if i < j {
        lemma_start_step(entries, i);
        lemma_start_order(entries, i + 1, j);
    } else if j < entries.len() {
        lemma_start_step(entries, j);
        lemma_start_order(entries, j + 1, entries.len() as int);
    }
}

/// Offsets depend on the sizes of the entries before them, and on nothing
/// else.
pub proof fn lemma_start_same_sizes(a: Seq<EntryView>, b: Seq<EntryView>, i: int)
    requires
        0 <= i <= a.len(),
        i <= b.len(),
        forall|j: int| 0 <= j < i ==> (#[trigger] a[j]).size() == b[j].size(),
    ensures
        start_of(a, i) == start_of(b, i),
    decreases i,
{
    if i == 0 {
        lemma_start_ends(a);
        lemma_start_ends(b);
    } else {
        lemma_start_same_sizes(a, b, i - 1);
        lemma_start_step(a, i - 1);
        lemma_start_step(b, i - 1);
    }
}

/// Taking entry `r` out leaves the offsets before it and lowers those after
/// it by its size.
pub proof fn lemma_start_remove(entries: Seq<EntryView>, r: int, j: int)
    requires
        0 <= r < entries.len(),
        0 <= j < entries.len(),
    ensures
        j <= r ==> start_of(entries.remove(r), j) == start_of(entries, j),
        j >= r ==> start_of(entries.remove(r), j) + entries[r].size() == start_of(
            entries,
            j + 1,
        ),
    decreases j,
{
    let rest = entries.remove(r);
    if j <= r {
        assert forall|t: int| 0 <= t < j implies (#[trigger] rest[t]).size() == entries[t].size() by {}
        lemma_start_same_sizes(rest, entries, j);
        if j == r {
            lemma_start_step(entries, r);
        }
    } else {
        lemma_start_remove(entries, r, j - 1);
        lemma_start_step(rest, j - 1);
        lemma_start_step(entries, j);
        assert(rest[j - 1] == entries[j]);
    }
}

/// The header of entry `i` as a page holds it at the entry's offset.
pub open spec fn header_of(entries: Seq<EntryView>, i: int) -> MemKvPageEntryHeader {
    MemKvPageEntryHeader {
        data_type: ValueDataType::of(entries[i].value),
        flags: entries[i].flags(),
        key_size: entries[i].key_bytes().len() as u64,
        value_size: entries[i].value.bytes().len() as u64,
        offset: start_of(entries, i) as u64,
    }
}

/// Where an entry lies in the bytes, its header, key and value can be read
/// back from them.
pub proof fn lemma_entry_fields(bytes: Seq<u8>, entries: Seq<EntryView>, i: int)
    requires
        0 <= i < entries.len(),
        entry_at(bytes, entries, i),
        start_of(entries, i) + entries[i].size() <= bytes.len(),
        bytes.len() <= u64::MAX,
    ensures
        MemKvPageEntryHeader::readable(bytes, start_of(entries, i)),
        MemKvPageEntryHeader::decoded(bytes, start_of(entries, i)) == header_of(entries, i),
        header_of(entries, i).entry_size() == entries[i].size(),
        header_of(entries, i).fits(bytes.len() as int),
        header_of(entries, i).key_range(bytes) == entries[i].key_bytes(),
        header_of(entries, i).value_range(bytes) == entries[i].value.bytes(),
{
    let e = entries[i];
    let start = start_of(entries, i);
    let klen = e.key_bytes().len() as u64;
    let vlen = e.value.bytes().len() as u64;
    let image = e.bytes();
    let window = bytes.subrange(start, start + e.size());
    lemma_be_round_trip(klen);
    lemma_be_round_trip(vlen);
    ValueDataType::lemma_decode_encoded(e.value);
    assert(image.len() == e.size());
    assert forall|t: int| 0 <= t < e.size() implies bytes[start + t] == image[t] by {
        assert(window[t] == bytes[start + t]);
    }
    assert(bytes[start] == image[0]);
    assert(bytes[start + 1] == image[1]);
    assert(bytes.subrange(start + 2, start + 10) =~= be_bytes(klen)) by {
        assert forall|t: int| 0 <= t < 8 implies bytes[start + 2 + t] == be_bytes(klen)[t] by {
            assert(image[2 + t] == be_bytes(klen)[t]);
        }
    }
    assert(bytes.subrange(start + 10, start + 18) =~= be_bytes(vlen)) by {
        assert forall|t: int| 0 <= t < 8 implies bytes[start + 10 + t] == be_bytes(vlen)[t] by {
            assert(image[10 + t] == be_bytes(vlen)[t]);
        }
    }
    let h = header_of(entries, i);
    assert(h.key_range(bytes) =~= e.key_bytes()) by {
        assert forall|t: int| 0 <= t < klen implies bytes[start + 18 + t] == e.key_bytes()[t] by {
            assert(image[18 + t] == e.key_bytes()[t]);
        }
    }
    assert(h.value_range(bytes) =~= e.value.bytes()) by {
        assert forall|t: int| 0 <= t < vlen implies bytes[start + 18 + klen + t]
            == e.value.bytes()[t] by {
            assert(image[18 + klen + t] == e.value.bytes()[t]);
        }
    }
}

/// Every key of the map is the key of a live entry, and every live entry's
/// key is in the map.
pub proof fn lemma_live_map_keys(entries: Seq<EntryView>)
    ensures
        forall|k: Seq<char>| #[trigger]
            live_map(entries).contains_key(k) <==> exists|i: int| #[trigger]
                is_live(entries, i) && entries[i].key == k,
    decreases entries.len(),
{
    if entries.len() > 0 {
        let rest = entries.drop_last();
        let last = entries.last();
        let n = entries.len() - 1;
        lemma_live_map_keys(rest);
        assert forall|k: Seq<char>| #[trigger]
            live_map(entries).contains_key(k) <==> exists|i: int| #[trigger]
                is_live(entries, i) && entries[i].key == k by {
            if live_map(entries).contains_key(k) {
                if !last.deleted && last.key == k {
                    assert(is_live(entries, n) && entries[n].key == k);
                } else {
                    assert(live_map(rest).contains_key(k));
                    let i = choose|i: int| #[trigger] is_live(rest, i) && rest[i].key == k;
                    assert(is_live(entries, i) && entries[i].key == k);
                }
            }
            if exists|i: int| #[trigger] is_live(entries, i) && entries[i].key == k {
                let i = choose|i: int| #[trigger] is_live(entries, i) && entries[i].key == k;
                if i < n {
                    assert(is_live(rest, i) && rest[i].key == k);
                    assert(live_map(rest).contains_key(k));
                }
            }
        }
    }
}

/// Where live keys are unique, the map gives each live entry's key that
/// entry's value.
pub proof fn lemma_live_map_value(entries: Seq<EntryView>, i: int)
    requires
        is_live(entries, i),
        live_keys_unique(entries),
    ensures
        live_map(entries).contains_key(entries[i].key),
        live_map(entries)[entries[i].key] == entries[i].value,
    decreases entries.len(),
{
    let rest = entries.drop_last();
    let n = entries.len() - 1;
    if i < n {
        assert(is_live(rest, i));
        assert forall|a: int, b: int|
            #![trigger is_live(rest, a), is_live(rest, b)]
            is_live(rest, a) && is_live(rest, b) && rest[a].key == rest[b].key implies a == b by {
            assert(is_live(entries, a) && is_live(entries, b));
        }
        lemma_live_map_value(rest, i);
        if !entries.last().deleted {
            assert(is_live(entries, n));
            assert(entries[n].key != entries[i].key);
        }
    }
}

/// An index that agrees with the entries shows that no two live entries
/// share a key.
pub proof fn lemma_index_unique(index: Map<Seq<char>, u64>, entries: Seq<EntryView>)
    requires
        index_holds(index, entries),
    ensures
        live_keys_unique(entries),
{
    assert forall|i: int, j: int|
        #![trigger is_live(entries, i), is_live(entries, j)]
        is_live(entries, i) && is_live(entries, j) && entries[i].key == entries[j].key implies i
        == j by {
        if i < j {
            lemma_start_order(entries, i, j);
        } else if j < i {
            lemma_start_order(entries, j, i);
        }
    }
}

/// Appending an entry moves no entry that was there.
pub proof fn lemma_push_starts(entries: Seq<EntryView>, entry: EntryView)
    ensures
        forall|i: int|
            0 <= i <= entries.len() ==> #[trigger] start_of(entries.push(entry), i) == start_of(
                entries,
                i,
            ),
        start_of(entries.push(entry), entries.len() as int) == span(entries),
{
    let grown = entries.push(entry);
    lemma_start_ends(entries);
    assert forall|i: int| 0 <= i <= entries.len() implies #[trigger] start_of(grown, i)
        == start_of(entries, i) by {
        lemma_start_same_sizes(grown, entries, i);
    }
}

/// Writing a new entry at the cursor leaves every entry before it in place.
pub proof fn lemma_insert_image(
    entries: Seq<EntryView>,
    bytes: Seq<u8>,
    entry: EntryView,
)
    requires
        image_holds(bytes, entries),
        span(entries) + entry.size() <= bytes.len(),
    ensures
        image_holds(splice(bytes, span(entries) as int, entry.bytes()), entries.push(entry)),
{
    let n = entries.len() as int;
    let cursor = span(entries) as int;
    let grown = entries.push(entry);
    let image = splice(bytes, cursor, entry.bytes());
    lemma_push_starts(entries, entry);
    assert forall|i: int| 0 <= i < grown.len() implies #[trigger] entry_at(image, grown, i) by {
        if i < n {
            assert(entry_at(bytes, entries, i));
            lemma_start_order(entries, i, n);
            lemma_start_ends(entries);
            let from = start_of(entries, i);
            let to = from + entries[i].size();
            assert(grown[i] == entries[i]);
            assert(start_of(grown, i) == from);
            assert(to <= cursor);
            assert(image.subrange(from, to) =~= bytes.subrange(from, to));
        } else {
            assert(grown[i] == entry);
            assert(start_of(grown, i) == cursor);
            assert(image.subrange(cursor, cursor + entry.size()) =~= entry.bytes());
        }
    }
}

/// Indexing a new live entry at the cursor keeps the index in agreement.
pub proof fn lemma_insert_index(
    entries: Seq<EntryView>,
    index: Map<Seq<char>, u64>,
    entry: EntryView,
)
    requires
        index_holds(index, entries),
        !entry.deleted,
        !index.contains_key(entry.key),
        span(entries) <= u64::MAX,
    ensures
        index_holds(index.insert(entry.key, span(entries) as u64), entries.push(entry)),
{
    let n = entries.len() as int;
    let grown = entries.push(entry);
    let found = index.insert(entry.key, span(entries) as u64);
    lemma_push_starts(entries, entry);
    assert forall|i: int| #[trigger] is_live(grown, i) implies found.contains_key(grown[i].key)
        && found[grown[i].key] == start_of(grown, i) by {
        if i < n {
            assert(is_live(entries, i));
            assert(grown[i] == entries[i]);
        }
    }
    assert forall|k: Seq<char>| #[trigger] found.contains_key(k) implies exists|i: int| #[trigger]
        is_live(grown, i) && grown[i].key == k by {
        if k == entry.key {
            assert(is_live(grown, n) && grown[n].key == k);
        } else {
            assert(index.contains_key(k));
            let i = choose|i: int| #[trigger] is_live(entries, i) && entries[i].key == k;
            assert(is_live(grown, i) && grown[i].key == k);
        }
    }
}

/// Appending a live entry leaves the gaps in agreement.
pub proof fn lemma_insert_gaps(
    entries: Seq<EntryView>,
    gaps: Seq<MemKvPageGap>,
    entry: EntryView,
)
    requires
        gaps_hold(gaps, entries),
        !entry.deleted,
    ensures
        gaps_hold(gaps, entries.push(entry)),
{
    let grown = entries.push(entry);
    lemma_push_starts(entries, entry);
    assert forall|a: int| 0 <= a < gaps.len() implies gap_backed(grown, #[trigger] gaps[a]) by {
        let i = choose|i: int| #[trigger] is_dead(entries, i) && gap_of(entries, i) == gaps[a];
        assert(grown[i] == entries[i]);
        assert(is_dead(grown, i) && gap_of(grown, i) == gaps[a]);
    }
    assert forall|i: int| #[trigger] is_dead(grown, i) implies gap_listed(
        gaps,
        gap_of(grown, i),
    ) by {
        assert(grown[i] == entries[i]);
        assert(is_dead(entries, i));
        assert(gap_of(entries, i) == gap_of(grown, i));
    }
}

/// Appending a live entry under a key that the index does not hold keeps the
/// page in agreement with its entries, and adds the key with its value to the
/// map.
pub proof fn lemma_insert_holds(
    entries: Seq<EntryView>,
    bytes: Seq<u8>,
    cursor: u64,
    index: Map<Seq<char>, u64>,
    gaps: Seq<MemKvPageGap>,
    entry: EntryView,
)
    requires
        page_holds(entries, bytes, cursor, index, gaps),
        !entry.deleted,
        !index.contains_key(entry.key),
        cursor + entry.size() <= KV_PAGE_SIZE,
    ensures
        page_holds(
            entries.push(entry),
            splice(bytes, cursor as int, entry.bytes()),
            (cursor + entry.size()) as u64,
            index.insert(entry.key, cursor),
            gaps,
        ),
        live_map(entries.push(entry)) == live_map(entries).insert(entry.key, entry.value),
{
    lemma_span_push(entries, entry);
    lemma_insert_image(entries, bytes, entry);
    lemma_insert_index(entries, index, entry);
    lemma_insert_gaps(entries, gaps, entry);
    assert(entries.push(entry).drop_last() =~= entries);
}

/// `live_slot` finds a live entry under the key if there is one, and no live
/// entry under the key lies after the one it finds.
pub proof fn lemma_live_slot(entries: Seq<EntryView>, key: Seq<char>)
    ensures
        -1 <= live_slot(entries, key) < entries.len(),
        live_slot(entries, key) >= 0 ==> is_live(entries, live_slot(entries, key))
            && entries[live_slot(entries, key)].key == key,
        forall|i: int| #[trigger]
            is_live(entries, i) && entries[i].key == key ==> i <= live_slot(entries, key),
    decreases entries.len(),
{
    if entries.len() > 0 {
        let rest = entries.drop_last();
        lemma_live_slot(rest, key);
        assert forall|i: int| #[trigger] is_live(entries, i) && entries[i].key == key implies i
            <= live_slot(entries, key) by {
            if i < entries.len() - 1 {
                assert(is_live(rest, i));
            }
        }
    }
}

/// Where live keys are unique, `live_slot` is the one live entry under the
/// key.
pub proof fn lemma_live_slot_is(entries: Seq<EntryView>, i: int)
    requires
        is_live(entries, i),
        live_keys_unique(entries),
    ensures
        live_slot(entries, entries[i].key) == i,
{
    lemma_live_slot(entries, entries[i].key);
    let found = live_slot(entries, entries[i].key);
    assert(is_live(entries, found));
}

/// Two different entries start at different offsets.
pub proof fn lemma_start_apart(entries: Seq<EntryView>, i: int, j: int)
    requires
        0 <= i < entries.len(),
        0 <= j < entries.len(),
        i != j,
    ensures
        start_of(entries, i) != start_of(entries, j),
        i < j ==> start_of(entries, i) + entries[i].size() <= start_of(entries, j),
        j < i ==> start_of(entries, j) + entries[j].size() <= start_of(entries, i),
        start_of(entries, i) + entries[i].size() <= span(entries),
{
    lemma_start_order(entries, i, entries.len() as int);
    if i < j {
        lemma_start_order(entries, i, j);
    } else {
        lemma_start_order(entries, j, i);
    }
}

/// Tombstoning an entry moves no entry.
pub proof fn lemma_tombstone_starts(entries: Seq<EntryView>, i: int)
    requires
        0 <= i < entries.len(),
    ensures
        forall|j: int|
            0 <= j <= entries.len() ==> #[trigger] start_of(
                entries.update(i, entries[i].tombstoned()),
                j,
            ) == start_of(entries, j),
        span(entries.update(i, entries[i].tombstoned())) == span(entries),
{
    let marked = entries.update(i, entries[i].tombstoned());
    assert forall|j: int| 0 <= j <= entries.len() implies #[trigger] start_of(marked, j)
        == start_of(entries, j) by {
        assert forall|t: int| 0 <= t < j implies (#[trigger] marked[t]).size()
            == entries[t].size() by {}
        lemma_start_same_sizes(marked, entries, j);
    }
    lemma_start_ends(entries);
    lemma_start_ends(marked);
}

/// Setting the flags byte of a live entry makes the bytes hold the
/// tombstoned entry in its place, and leaves the others as they were.
pub proof fn lemma_tombstone_image(bytes: Seq<u8>, entries: Seq<EntryView>, i: int)
    requires
        image_holds(bytes, entries),
        is_live(entries, i),
        span(entries) <= bytes.len(),
    ensures
        image_holds(
            bytes.update(start_of(entries, i) + 1, FLAG_DELETED),
            entries.update(i, entries[i].tombstoned()),
        ),
{
    let marked = entries.update(i, entries[i].tombstoned());
    let at = start_of(entries, i) + 1;
    let image = bytes.update(at, FLAG_DELETED);
    lemma_tombstone_starts(entries, i);
    assert forall|j: int| 0 <= j < marked.len() implies #[trigger] entry_at(image, marked, j) by {
        assert(entry_at(bytes, entries, j));
        let from = start_of(entries, j);
        let to = from + entries[j].size();
        assert(start_of(marked, j) == from);
        lemma_start_order(entries, j, entries.len() as int);
        if j == i {
            assert(marked[j].bytes() =~= entries[j].bytes().update(1, FLAG_DELETED));
            assert(image.subrange(from, to) =~= bytes.subrange(from, to).update(1, FLAG_DELETED));
        } else {
            lemma_start_apart(entries, i, j);
            assert(marked[j] == entries[j]);
            assert(image.subrange(from, to) =~= bytes.subrange(from, to));
        }
    }
}

/// Dropping the key of a live entry that is tombstoned keeps the index in
/// agreement.
pub proof fn lemma_tombstone_index(index: Map<Seq<char>, u64>, entries: Seq<EntryView>, i: int)
    requires
        index_holds(index, entries),
        is_live(entries, i),
    ensures
        index_holds(index.remove(entries[i].key), entries.update(i, entries[i].tombstoned())),
{
    let marked = entries.update(i, entries[i].tombstoned());
    let key = entries[i].key;
    let found = index.remove(key);
    lemma_tombstone_starts(entries, i);
    lemma_index_unique(index, entries);
    assert forall|j: int| #[trigger] is_live(marked, j) implies found.contains_key(marked[j].key)
        && found[marked[j].key] == start_of(marked, j) by {
        assert(j != i);
        assert(marked[j] == entries[j]);
        assert(is_live(entries, j));
        assert(is_live(entries, i));
    }
    assert forall|k: Seq<char>| #[trigger] found.contains_key(k) implies exists|j: int| #[trigger]
        is_live(marked, j) && marked[j].key == k by {
        assert(index.contains_key(k));
        let j = choose|j: int| #[trigger] is_live(entries, j) && entries[j].key == k;
        assert(j != i);
        assert(marked[j] == entries[j]);
        assert(is_live(marked, j) && marked[j].key == k);
    }
}

/// Queueing the gap of a live entry that is tombstoned, at a place that
/// keeps the offsets descending, keeps the gaps in agreement.
pub proof fn lemma_tombstone_gaps(
    gaps: Seq<MemKvPageGap>,
    entries: Seq<EntryView>,
    i: int,
    place: int,
)
    requires
        gaps_hold(gaps, entries),
        is_live(entries, i),
        0 <= place <= gaps.len(),
        gaps_descend(gaps.insert(place, gap_of(entries, i))),
    ensures
        gaps_hold(
            gaps.insert(place, gap_of(entries, i)),
            entries.update(i, entries[i].tombstoned()),
        ),
{
    let marked = entries.update(i, entries[i].tombstoned());
    let gap = gap_of(entries, i);
    let queued = gaps.insert(place, gap);
    lemma_tombstone_starts(entries, i);
    assert(gap_of(marked, i) == gap);
    assert forall|a: int| 0 <= a < queued.len() implies gap_backed(marked, #[trigger] queued[a]) by {
        if a == place {
            assert(is_dead(marked, i) && gap_of(marked, i) == queued[a]);
        } else {
            let b = if a < place {
                a
            } else {
                a - 1
            };
            assert(queued[a] == gaps[b]);
            assert(gap_backed(entries, gaps[b]));
            let j = choose|j: int| #[trigger] is_dead(entries, j) && gap_of(entries, j) == gaps[b];
            assert(marked[j] == entries[j]);
            assert(is_dead(marked, j) && gap_of(marked, j) == queued[a]);
        }
    }
    assert forall|j: int| #[trigger] is_dead(marked, j) implies gap_listed(
        queued,
        gap_of(marked, j),
    ) by {
        if j == i {
            assert(queued[place] == gap_of(marked, j));
        } else {
            assert(marked[j] == entries[j]);
            assert(is_dead(entries, j));
            assert(gap_listed(gaps, gap_of(entries, j)));
            let b = choose|b: int| 0 <= b < gaps.len() && #[trigger] gaps[b] == gap_of(entries, j);
            let a = if b < place {
                b
            } else {
                b + 1
            };
            assert(queued[a] == gap_of(marked, j));
        }
    }
}

/// Tombstoning a live entry, where live keys are unique, takes its key out of
/// the map and leaves the rest of the map alone.
pub proof fn lemma_tombstone_map(entries: Seq<EntryView>, i: int)
    requires
        is_live(entries, i),
        live_keys_unique(entries),
    ensures
        live_map(entries.update(i, entries[i].tombstoned())) == live_map(entries).remove(
            entries[i].key,
        ),
        live_keys_unique(entries.update(i, entries[i].tombstoned())),
{
    let marked = entries.update(i, entries[i].tombstoned());
    let key = entries[i].key;
    assert forall|a: int, b: int|
        #![trigger is_live(marked, a), is_live(marked, b)]
        is_live(marked, a) && is_live(marked, b) && marked[a].key == marked[b].key implies a
        == b by {
        assert(is_live(entries, a) && is_live(entries, b));
    }
    lemma_live_map_keys(entries);
    lemma_live_map_keys(marked);
    let before = live_map(entries);
    let after = live_map(marked);
    assert forall|k: Seq<char>| after.contains_key(k) <==> before.remove(key).contains_key(
        k,
    ) by {
        if after.contains_key(k) {
            let j = choose|j: int| #[trigger] is_live(marked, j) && marked[j].key == k;
            assert(is_live(entries, j) && entries[j].key == k);
            assert(is_live(entries, i));
        }
        if before.remove(key).contains_key(k) {
            let j = choose|j: int| #[trigger] is_live(entries, j) && entries[j].key == k;
            assert(is_live(marked, j) && marked[j].key == k);
        }
    }
    assert forall|k: Seq<char>| after.contains_key(k) implies after[k] == before.remove(key)[k] by {
        let j = choose|j: int| #[trigger] is_live(marked, j) && marked[j].key == k;
        assert(is_live(entries, j) && entries[j].key == k);
        lemma_live_map_value(marked, j);
        lemma_live_map_value(entries, j);
    }
    assert(after =~= before.remove(key));
}

/// The first tombstoned entry is the one before which all are live.
pub proof fn lemma_first_dead(entries: Seq<EntryView>, i: int)
    requires
        is_dead(entries, i),
        forall|j: int| 0 <= j < i ==> !(#[trigger] entries[j]).deleted,
    ensures
        first_dead(entries) == i,
    decreases i,
{
    if i > 0 {
        let rest = entries.drop_first();
        assert(!entries[0].deleted);
        assert(is_dead(rest, i - 1));
        assert forall|j: int| 0 <= j < i - 1 implies !(#[trigger] rest[j]).deleted by {
            assert(rest[j] == entries[j + 1]);
        }
        lemma_first_dead(rest, i - 1);
    }
}

/// Where no entry is tombstoned, `first_dead` is the number of entries.
pub proof fn lemma_first_dead_none(entries: Seq<EntryView>)
    requires
        forall|j: int| 0 <= j < entries.len() ==> !(#[trigger] entries[j]).deleted,
    ensures
        first_dead(entries) == entries.len(),
    decreases entries.len(),
{
    if entries.len() > 0 {
        let rest = entries.drop_first();
        assert(!entries[0].deleted);
        assert forall|j: int| 0 <= j < rest.len() implies !(#[trigger] rest[j]).deleted by {
            assert(rest[j] == entries[j + 1]);
        }
        lemma_first_dead_none(rest);
    }
}

/// Taking an entry out lowers the span by its size.
pub proof fn lemma_remove_span(entries: Seq<EntryView>, i: int)
    requires
        0 <= i < entries.len(),
    ensures
        span(entries.remove(i)) + entries[i].size() == span(entries),
{
    let n = entries.len() as int;
    lemma_start_ends(entries);
    lemma_start_ends(entries.remove(i));
    if i == n - 1 {
        lemma_start_remove(entries, i, i);
    } else {
        lemma_start_remove(entries, i, n - 2);
        lemma_start_step(entries.remove(i), n - 2);
        lemma_start_step(entries, n - 1);
        assert(entries.remove(i)[n - 2] == entries[n - 1]);
    }
}

/// The gap with the smallest offset belongs to the first tombstoned entry,
/// and every other gap lies after that entry.
pub proof fn lemma_last_gap_first(gaps: Seq<MemKvPageGap>, entries: Seq<EntryView>, i: int)
    requires
        gaps_hold(gaps, entries),
        gaps.len() > 0,
        is_dead(entries, i),
        gap_of(entries, i) == gaps.last(),
        span(entries) <= u64::MAX,
    ensures
        first_dead(entries) == i,
        forall|j: int| 0 <= j < i ==> !(#[trigger] entries[j]).deleted,
        forall|a: int|
            0 <= a < gaps.len() - 1 ==> (#[trigger] gaps[a]).offset >= gaps.last().offset
                + gaps.last().length,
{
    let last = gaps.len() - 1;
    assert forall|j: int| 0 <= j < i implies !(#[trigger] entries[j]).deleted by {
        if entries[j].deleted {
            assert(is_dead(entries, j));
            assert(gap_listed(gaps, gap_of(entries, j)));
            let a = choose|a: int| 0 <= a < gaps.len() && #[trigger] gaps[a] == gap_of(entries, j);
            lemma_start_apart(entries, j, i);
            lemma_start_order(entries, j, entries.len() as int);
            lemma_start_order(entries, i, entries.len() as int);
            if a < last {
                assert(gaps[a].offset > gaps[last].offset);
            }
        }
    }
    lemma_first_dead(entries, i);
    assert forall|a: int| 0 <= a < gaps.len() - 1 implies (#[trigger] gaps[a]).offset
        >= gaps.last().offset + gaps.last().length by {
        assert(gap_backed(entries, gaps[a]));
        let j = choose|j: int| #[trigger] is_dead(entries, j) && gap_of(entries, j) == gaps[a];
        assert(gaps[a].offset > gaps[last].offset);
        lemma_start_order(entries, j, entries.len() as int);
        lemma_start_order(entries, i, entries.len() as int);
        if j != i {
            lemma_start_apart(entries, i, j);
        }
    }
}

/// With the first tombstoned entry taken out and the offsets of the gaps
/// after it lowered by its size, the gaps agree with the remaining entries.
pub proof fn lemma_remove_gaps(gaps: Seq<MemKvPageGap>, entries: Seq<EntryView>, i: int)
    requires
        gaps_hold(gaps, entries),
        gaps.len() > 0,
        is_dead(entries, i),
        gap_of(entries, i) == gaps.last(),
        span(entries) <= u64::MAX,
    ensures
        gaps_hold(lowered(gaps.drop_last(), gaps.last().length), entries.remove(i)),
{
    let last = gaps.len() - 1;
    let by = gaps.last().length;
    let rest = entries.remove(i);
    let kept = lowered(gaps.drop_last(), by);
    lemma_last_gap_first(gaps, entries, i);
    lemma_start_order(entries, i, entries.len() as int);
    assert forall|a: int, b: int|
        #![trigger kept[a], kept[b]]
        0 <= a < b < kept.len() implies kept[a].offset > kept[b].offset by {
        assert(gaps[a].offset > gaps[b].offset);
    }
    assert forall|a: int| 0 <= a < kept.len() implies gap_backed(rest, #[trigger] kept[a]) by {
        assert(gap_backed(entries, gaps[a]));
        let j = choose|j: int| #[trigger] is_dead(entries, j) && gap_of(entries, j) == gaps[a];
        assert(gaps[a].offset > gaps[last].offset);
        assert(j > i) by {
            if j < i {
                assert(!entries[j].deleted);
            }
        }
        lemma_start_remove(entries, i, j - 1);
        lemma_start_order(entries, j, entries.len() as int);
        assert(rest[j - 1] == entries[j]);
        assert(is_dead(rest, j - 1) && gap_of(rest, j - 1) == kept[a]);
    }
    assert forall|j: int| #[trigger] is_dead(rest, j) implies gap_listed(kept, gap_of(rest, j)) by {
        if j < i {
            assert(rest[j] == entries[j]);
            assert(!entries[j].deleted);
        } else {
            assert(rest[j] == entries[j + 1]);
            assert(is_dead(entries, j + 1));
            assert(gap_listed(gaps, gap_of(entries, j + 1)));
            let a = choose|a: int|
                0 <= a < gaps.len() && #[trigger] gaps[a] == gap_of(entries, j + 1);
            lemma_start_apart(entries, i, j + 1);
            lemma_start_order(entries, j + 1, entries.len() as int);
            lemma_start_remove(entries, i, j);
            assert(a != last);
            assert(kept[a] == gap_of(rest, j));
        }
    }
}

/// Where the bytes before a removed entry stay and those after it move down
/// by its size, every remaining entry lies at its new offset.
pub proof fn lemma_remove_image(
    bytes: Seq<u8>,
    moved: Seq<u8>,
    entries: Seq<EntryView>,
    i: int,
)
    requires
        image_holds(bytes, entries),
        0 <= i < entries.len(),
        span(entries) <= bytes.len(),
        moved.len() == bytes.len(),
        moved.subrange(0, start_of(entries, i)) == bytes.subrange(0, start_of(entries, i)),
        moved.subrange(start_of(entries, i), span(entries) - entries[i].size()) == bytes.subrange(
            start_of(entries, i) + entries[i].size(),
            span(entries) as int,
        ),
    ensures
        image_holds(moved, entries.remove(i)),
{
    let rest = entries.remove(i);
    let at = start_of(entries, i);
    let by = entries[i].size() as int;
    let end = span(entries) as int;
    lemma_start_order(entries, i, entries.len() as int);
    assert forall|j: int| 0 <= j < rest.len() implies #[trigger] entry_at(moved, rest, j) by {
        lemma_start_remove(entries, i, j);
        if j < i {
            assert(rest[j] == entries[j]);
            assert(entry_at(bytes, entries, j));
            lemma_start_apart(entries, j, i);
            let from = start_of(entries, j);
            let to = from + entries[j].size();
            assert(moved.subrange(from, to) =~= moved.subrange(0, at).subrange(from, to));
            assert(bytes.subrange(from, to) =~= bytes.subrange(0, at).subrange(from, to));
        } else {
            assert(rest[j] == entries[j + 1]);
            assert(entry_at(bytes, entries, j + 1));
            lemma_start_apart(entries, i, j + 1);
            lemma_start_order(entries, j + 1, entries.len() as int);
            lemma_start_step(entries, j + 1);
            lemma_start_order(entries, j + 2, entries.len() as int);
            let from = start_of(entries, j + 1);
            let to = from + entries[j + 1].size();
            assert(start_of(rest, j) == from - by);
            assert(at + by <= from && to <= end);
            assert(moved.subrange(from - by, to - by) =~= moved.subrange(at, end - by).subrange(
                from - by - at,
                to - by - at,
            ));
            assert(bytes.subrange(from, to) =~= bytes.subrange(at + by, end).subrange(
                from - by - at,
                to - by - at,
            ));
        }
    }
}

/// An index over the same keys that gives every remaining live entry its new
/// offset agrees with the entries that remain when a tombstoned one is taken
/// out.
pub proof fn lemma_remove_index(
    index: Map<Seq<char>, u64>,
    moved: Map<Seq<char>, u64>,
    entries: Seq<EntryView>,
    i: int,
)
    requires
        index_holds(index, entries),
        is_dead(entries, i),
        moved.dom() == index.dom(),
        forall|j: int| #[trigger]
            is_live(entries.remove(i), j) ==> moved[entries.remove(i)[j].key] == start_of(
                entries.remove(i),
                j,
            ),
    ensures
        index_holds(moved, entries.remove(i)),
{
    let rest = entries.remove(i);
    assert forall|j: int| #[trigger] is_live(rest, j) implies moved.contains_key(rest[j].key)
        && moved[rest[j].key] == start_of(rest, j) by {
        let was = if j < i {
            j
        } else {
            j + 1
        };
        assert(rest[j] == entries[was]);
        assert(is_live(entries, was));
        assert(index.dom().contains(entries[was].key));
    }
    assert forall|k: Seq<char>| #[trigger] moved.contains_key(k) implies exists|j: int| #[trigger]
        is_live(rest, j) && rest[j].key == k by {
        assert(index.dom().contains(k));
        assert(index.contains_key(k));
        let was = choose|j: int| #[trigger] is_live(entries, j) && entries[j].key == k;
        let j = if was < i {
            was
        } else {
            was - 1
        };
        assert(rest[j] == entries[was]);
        assert(is_live(rest, j) && rest[j].key == k);
    }
}

/// An index over the same keys that gives every remaining live entry its new
/// offset is the old index with the offsets beyond the removed entry lowered
/// by that entry's size.
pub proof fn lemma_remove_index_is(
    index: Map<Seq<char>, u64>,
    moved: Map<Seq<char>, u64>,
    entries: Seq<EntryView>,
    i: int,
)
    requires
        index_holds(index, entries),
        is_dead(entries, i),
        span(entries) <= u64::MAX,
        moved.dom() == index.dom(),
        forall|j: int| #[trigger]
            is_live(entries.remove(i), j) ==> moved[entries.remove(i)[j].key] == start_of(
                entries.remove(i),
                j,
            ),
    ensures
        moved == lowered_index(index, gap_of(entries, i)),
{
    let rest = entries.remove(i);
    let gap = gap_of(entries, i);
    let lowered = lowered_index(index, gap);
    lemma_start_order(entries, i, entries.len() as int);
    assert forall|k: Seq<char>| moved.contains_key(k) implies moved[k] == lowered[k] by {
        assert(index.dom().contains(k));
        assert(index.contains_key(k));
        let was = choose|j: int| #[trigger] is_live(entries, j) && entries[j].key == k;
        assert(is_live(entries, was));
        lemma_start_apart(entries, i, was);
        lemma_start_order(entries, was, entries.len() as int);
        if was < i {
            lemma_start_remove(entries, i, was);
            assert(rest[was] == entries[was]);
            assert(is_live(rest, was));
        } else {
            lemma_start_remove(entries, i, was - 1);
            assert(rest[was - 1] == entries[was]);
            assert(is_live(rest, was - 1));
        }
    }
    assert(moved.dom() =~= lowered.dom());
    assert(moved =~= lowered);
}

/// Taking a tombstoned entry out changes nothing in the map.
pub proof fn lemma_remove_map(entries: Seq<EntryView>, i: int)
    requires
        is_dead(entries, i),
        live_keys_unique(entries),
    ensures
        live_map(entries.remove(i)) == live_map(entries),
        live_keys_unique(entries.remove(i)),
{
    let rest = entries.remove(i);
    assert forall|a: int, b: int|
        #![trigger is_live(rest, a), is_live(rest, b)]
        is_live(rest, a) && is_live(rest, b) && rest[a].key == rest[b].key implies a == b by {
        let was_a = if a < i {
            a
        } else {
            a + 1
        };
        let was_b = if b < i {
            b
        } else {
            b + 1
        };
        assert(rest[a] == entries[was_a] && rest[b] == entries[was_b]);
        assert(is_live(entries, was_a) && is_live(entries, was_b));
    }
    lemma_live_map_keys(entries);
    lemma_live_map_keys(rest);
    let before = live_map(entries);
    let after = live_map(rest);
    assert forall|k: Seq<char>| after.contains_key(k) <==> before.contains_key(k) by {
        if after.contains_key(k) {
            let j = choose|j: int| #[trigger] is_live(rest, j) && rest[j].key == k;
            let was = if j < i {
                j
            } else {
                j + 1
            };
            assert(rest[j] == entries[was]);
            assert(is_live(entries, was) && entries[was].key == k);
        }
        if before.contains_key(k) {
            let was = choose|j: int| #[trigger] is_live(entries, j) && entries[j].key == k;
            let j = if was < i {
                was
            } else {
                was - 1
            };
            assert(rest[j] == entries[was]);
            assert(is_live(rest, j) && rest[j].key == k);
        }
    }
    assert forall|k: Seq<char>| after.contains_key(k) implies after[k] == before[k] by {
        let j = choose|j: int| #[trigger] is_live(rest, j) && rest[j].key == k;
        let was = if j < i {
            j
        } else {
            j + 1
        };
        assert(rest[j] == entries[was]);
        assert(is_live(entries, was));
        lemma_live_map_value(rest, j);
        lemma_live_map_value(entries, was);
    }
    assert(after =~= before);
}

/// What a page knows of the gap it reclaims next: it is the room of the first
/// tombstoned entry, it lies within the entries, and every other gap lies
/// after it.
pub proof fn lemma_next_gap(
    entries: Seq<EntryView>,
    bytes: Seq<u8>,
    cursor: u64,
    index: Map<Seq<char>, u64>,
    gaps: Seq<MemKvPageGap>,
)
    requires
        page_holds(entries, bytes, cursor, index, gaps),
        gaps.len() > 0,
    ensures
        is_dead(entries, first_dead(entries)),
        gaps.last() == gap_of(entries, first_dead(entries)),
        gaps.last().offset == start_of(entries, first_dead(entries)),
        gaps.last().length == entries[first_dead(entries)].size(),
        gaps.last().length >= HEADER_SIZE,
        gaps.last().offset + gaps.last().length <= cursor,
        gaps.last().offset + gaps.last().length == cursor <==> first_dead(entries) == entries.len()
            - 1,
        forall|a: int|
            0 <= a < gaps.len() - 1 ==> (#[trigger] gaps[a]).offset >= gaps.last().offset
                + gaps.last().length,
        live_map(entries.remove(first_dead(entries))) == live_map(entries),
        span(entries.remove(first_dead(entries))) == cursor - gaps.last().length,
{
    let last = gaps.len() - 1;
    assert(gap_backed(entries, gaps[last]));
    let slot = choose|i: int| #[trigger] is_dead(entries, i) && gap_of(entries, i) == gaps[last];
    lemma_index_unique(index, entries);
    lemma_last_gap_first(gaps, entries, slot);
    lemma_remove_map(entries, slot);
    lemma_remove_span(entries, slot);
    lemma_start_order(entries, slot, entries.len() as int);
    lemma_start_ends(entries);
    if slot < entries.len() - 1 {
        lemma_start_apart(entries, slot, slot + 1);
        lemma_start_order(entries, slot + 1, entries.len() as int);
    } else {
        lemma_start_step(entries, slot);
    }
}

/// Reclaiming a gap that ends at the cursor: with the cursor set back to the
/// gap's start and the gap taken off the queue, the page agrees with the
/// entries but the last. No other gap is queued.
pub proof fn lemma_reclaim_tail(
    entries: Seq<EntryView>,
    bytes: Seq<u8>,
    cursor: u64,
    index: Map<Seq<char>, u64>,
    gaps: Seq<MemKvPageGap>,
)
    requires
        page_holds(entries, bytes, cursor, index, gaps),
        gaps.len() > 0,
        gaps.last().offset + gaps.last().length == cursor,
    ensures
        page_holds(
            entries.remove(first_dead(entries)),
            bytes,
            gaps.last().offset,
            index,
            gaps.drop_last(),
        ),
        gaps.drop_last() == lowered(gaps.drop_last(), gaps.last().length),
        index == lowered_index(index, gaps.last()),
{
    let slot = first_dead(entries);
    let rest = entries.remove(slot);
    let by = gaps.last().length;
    lemma_next_gap(entries, bytes, cursor, index, gaps);
    lemma_remove_gaps(gaps, entries, slot);
    assert(gaps.drop_last() =~= lowered(gaps.drop_last(), by)) by {
        if gaps.len() > 1 {
            assert(gaps[0].offset >= gaps.last().offset + by);
            assert(gap_backed(entries, gaps[0]));
            let j = choose|j: int| #[trigger] is_dead(entries, j) && gap_of(entries, j) == gaps[0];
            lemma_start_order(entries, j, entries.len() as int);
        }
    }
    lemma_start_ends(entries);
    assert(bytes.subrange(start_of(entries, slot), span(entries) - entries[slot].size())
        =~= bytes.subrange(start_of(entries, slot) + entries[slot].size(), span(entries) as int));
    lemma_remove_image(bytes, bytes, entries, slot);
    assert forall|j: int| #[trigger] is_live(rest, j) implies index[rest[j].key] == start_of(
        rest,
        j,
    ) by {
        lemma_start_remove(entries, slot, j);
        assert(rest[j] == entries[j]);
        assert(is_live(entries, j));
    }
    lemma_remove_index(index, index, entries, slot);
    lemma_remove_index_is(index, index, entries, slot);
}

/// Reclaiming a gap before the cursor, up to the point where the index is
/// brought up to date: once the bytes after the gap have been moved down
/// over it and the freed bytes cleared, the remaining entries lie at their
/// new offsets, a zero byte follows them, and the index still holds the old
/// offset of each entry that was moved.
pub proof fn lemma_reclaim_moved(
    entries: Seq<EntryView>,
    bytes: Seq<u8>,
    cursor: u64,
    index: Map<Seq<char>, u64>,
    gaps: Seq<MemKvPageGap>,
)
    requires
        page_holds(entries, bytes, cursor, index, gaps),
        gaps.len() > 0,
        gaps.last().offset + gaps.last().length != cursor,
    ensures
        ({
            let slot = first_dead(entries);
            let rest = entries.remove(slot);
            let gap = gaps.last();
            let moved = closed_up(bytes, gap.offset as int, gap.offset + gap.length, cursor as int);
            &&& 0 <= slot <= rest.len()
            &&& moved.len() == KV_PAGE_SIZE
            &&& image_holds(moved, rest)
            &&& live_keys_unique(rest)
            &&& gap.offset == start_of(rest, slot)
            &&& span(rest) + gap.length == cursor
            &&& moved[span(rest) as int] == 0
            &&& forall|t: int| #[trigger]
                is_live(rest, t) ==> index.contains_key(rest[t].key) && index[rest[t].key] == (if t
                    < slot {
                    start_of(rest, t)
                } else {
                    start_of(rest, t) + gap.length
                })
        }),
{
    let slot = first_dead(entries);
    let rest = entries.remove(slot);
    let gap = gaps.last();
    let moved = closed_up(bytes, gap.offset as int, gap.offset + gap.length, cursor as int);
    lemma_next_gap(entries, bytes, cursor, index, gaps);
    lemma_index_unique(index, entries);
    lemma_remove_map(entries, slot);
    lemma_start_ends(entries);
    assert(moved.subrange(0, gap.offset as int) =~= bytes.subrange(0, gap.offset as int));
    assert(moved.subrange(gap.offset as int, cursor - gap.length) =~= bytes.subrange(
        gap.offset + gap.length,
        cursor as int,
    ));
    lemma_remove_image(bytes, moved, entries, slot);
    lemma_start_remove(entries, slot, slot);
    assert forall|t: int| #[trigger] is_live(rest, t) implies index.contains_key(rest[t].key)
        && index[rest[t].key] == (if t < slot {
        start_of(rest, t)
    } else {
        start_of(rest, t) + gap.length
    }) by {
        lemma_start_remove(entries, slot, t);
        let was = if t < slot {
            t
        } else {
            t + 1
        };
        assert(rest[t] == entries[was]);
        assert(is_live(entries, was));
    }
}

/// Reclaiming a gap before the cursor, once the index is up to date: with
/// the offsets of the other gaps and the cursor lowered by the gap's length,
/// the page agrees with the remaining entries.
pub proof fn lemma_reclaim_inner(
    entries: Seq<EntryView>,
    bytes: Seq<u8>,
    cursor: u64,
    index: Map<Seq<char>, u64>,
    gaps: Seq<MemKvPageGap>,
    moved_index: Map<Seq<char>, u64>,
)
    requires
        page_holds(entries, bytes, cursor, index, gaps),
        gaps.len() > 0,
        gaps.last().offset + gaps.last().length != cursor,
        moved_index.dom() == index.dom(),
        forall|t: int| #[trigger]
            is_live(entries.remove(first_dead(entries)), t) ==> moved_index[entries.remove(
                first_dead(entries),
            )[t].key] == start_of(entries.remove(first_dead(entries)), t),
    ensures
        page_holds(
            entries.remove(first_dead(entries)),
            closed_up(
                bytes,
                gaps.last().offset as int,
                gaps.last().offset + gaps.last().length,
                cursor as int,
            ),
            (cursor - gaps.last().length) as u64,
            moved_index,
            lowered(gaps.drop_last(), gaps.last().length),
        ),
        moved_index == lowered_index(index, gaps.last()),
{
    let slot = first_dead(entries);
    lemma_next_gap(entries, bytes, cursor, index, gaps);
    lemma_reclaim_moved(entries, bytes, cursor, index, gaps);
    lemma_remove_gaps(gaps, entries, slot);
    lemma_remove_index(index, moved_index, entries, slot);
    lemma_remove_index_is(index, moved_index, entries, slot);
}

} // verus!
