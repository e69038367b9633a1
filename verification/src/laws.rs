//! What holds of a page across its operations, each law stated over the
//! relations that the operations promise between a page before and after.

use vstd::prelude::*;
use vstd::utf8::encode_utf8;
use crate::entry::{MemKvPageEntryHeader, MemKvPageGap};
use crate::errors::{KeyAlreadyExistsError, KeyDoesNotExistError, MemKvError};
use crate::format::{
    dead_span, first_dead, is_dead, is_live, live_keys_unique, live_slot, live_span, span,
    start_of, EntryView, ValueView, FLAG_LIVE, KV_PAGE_SIZE,
};
use crate::gaps::gap_total;
use crate::layout::{
    entry_at, gap_backed, gap_listed, gap_of, gaps_hold, lemma_entry_fields,
    lemma_first_dead_none, lemma_index_unique, lemma_live_map_value, lemma_live_slot,
    lemma_next_gap, lemma_start_apart, lemma_start_order, lemma_start_same_sizes,
    lemma_tombstone_map,
};
use crate::page::MemKvPage;
use crate::value::ValueDataType;

verus! {

/// The span of a sequence of entries is the span of its live entries plus
/// that of its tombstoned ones.
pub proof fn lemma_span_parts(entries: Seq<EntryView>)
    ensures
        span(entries) == live_span(entries) + dead_span(entries),
    decreases entries.len(),
{
    if entries.len() > 0 {
        lemma_span_parts(entries.drop_last());
    }
}

/// Where no entry is tombstoned, the tombstoned entries span nothing.
pub proof fn lemma_no_dead_span(entries: Seq<EntryView>)
    requires
        forall|j: int| 0 <= j < entries.len() ==> !(#[trigger] entries[j]).deleted,
    ensures
        dead_span(entries) == 0,
    decreases entries.len(),
{
    if entries.len() > 0 {
        let rest = entries.drop_last();
        assert(!entries[entries.len() - 1].deleted);
        assert forall|j: int| 0 <= j < rest.len() implies !(#[trigger] rest[j]).deleted by {
            assert(rest[j] == entries[j]);
        }
        lemma_no_dead_span(rest);
    }
}

/// Without its last entry a sequence of entries keeps every other entry
/// where it was.
proof fn lemma_drop_last_starts(entries: Seq<EntryView>)
    requires
        entries.len() > 0,
    ensures
        forall|i: int|
            0 <= i < entries.len() ==> #[trigger] start_of(entries.drop_last(), i) == start_of(
                entries,
                i,
            ),
{
    let rest = entries.drop_last();
    assert forall|i: int| 0 <= i < entries.len() implies #[trigger] start_of(rest, i) == start_of(
        entries,
        i,
    ) by {
        lemma_start_same_sizes(rest, entries, i);
    }
}

/// Where the last entry is live, the gaps agree with the entries before it.
proof fn lemma_gaps_before_live(gaps: Seq<MemKvPageGap>, entries: Seq<EntryView>)
    requires
        gaps_hold(gaps, entries),
        entries.len() > 0,
        !entries.last().deleted,
    ensures
        gaps_hold(gaps, entries.drop_last()),
{
    let rest = entries.drop_last();
    lemma_drop_last_starts(entries);
    assert forall|a: int| 0 <= a < gaps.len() implies gap_backed(rest, #[trigger] gaps[a]) by {
        assert(gap_backed(entries, gaps[a]));
        let i = choose|i: int| #[trigger] is_dead(entries, i) && gap_of(entries, i) == gaps[a];
        assert(is_dead(rest, i) && gap_of(rest, i) == gaps[a]);
    }
    assert forall|i: int| #[trigger] is_dead(rest, i) implies gap_listed(gaps, gap_of(rest, i)) by {
        assert(is_dead(entries, i));
        assert(gap_of(rest, i) == gap_of(entries, i));
    }
}

/// Where the last entry is tombstoned, its gap is the first of the list, and
/// the other gaps agree with the entries before it.
proof fn lemma_gaps_before_dead(gaps: Seq<MemKvPageGap>, entries: Seq<EntryView>)
    requires
        gaps_hold(gaps, entries),
        entries.len() > 0,
        entries.last().deleted,
        span(entries) <= u64::MAX,
    ensures
        gaps.len() > 0,
        gaps[0].length == entries.last().size(),
        gaps_hold(gaps.drop_first(), entries.drop_last()),
{
    let n = entries.len() as int;
    let rest = entries.drop_last();
    lemma_drop_last_starts(entries);
    lemma_start_order(entries, n - 1, n);
    assert(is_dead(entries, n - 1));
    assert(gap_listed(gaps, gap_of(entries, n - 1)));
    let at = choose|a: int| 0 <= a < gaps.len() && #[trigger] gaps[a] == gap_of(entries, n - 1);
    assert(at == 0) by {
        if at > 0 {
            assert(gaps[0].offset > gaps[at].offset);
            assert(gap_backed(entries, gaps[0]));
            let j = choose|j: int| #[trigger] is_dead(entries, j) && gap_of(entries, j) == gaps[0];
            lemma_start_order(entries, j, n - 1);
            lemma_start_order(entries, j, n);
        }
    }
    let others = gaps.drop_first();
    assert forall|a: int, b: int|
        #![trigger others[a], others[b]]
        0 <= a < b < others.len() implies others[a].offset > others[b].offset by {
        assert(gaps[a + 1].offset > gaps[b + 1].offset);
    }
    assert forall|a: int| 0 <= a < others.len() implies gap_backed(rest, #[trigger] others[a]) by {
        assert(gaps[0].offset > gaps[a + 1].offset);
        assert(gap_backed(entries, gaps[a + 1]));
        let i = choose|i: int| #[trigger] is_dead(entries, i) && gap_of(entries, i) == gaps[a + 1];
        lemma_start_order(entries, i, n);
        assert(is_dead(rest, i) && gap_of(rest, i) == others[a]);
    }
    assert forall|i: int| #[trigger] is_dead(rest, i) implies gap_listed(
        others,
        gap_of(rest, i),
    ) by {
        assert(is_dead(entries, i));
        assert(gap_listed(gaps, gap_of(entries, i)));
        let b = choose|b: int| 0 <= b < gaps.len() && #[trigger] gaps[b] == gap_of(entries, i);
        lemma_start_apart(entries, i, n - 1);
        lemma_start_order(entries, i, n);
        assert(b != 0);
        assert(others[b - 1] == gap_of(rest, i));
    }
}

/// The lengths of the queued gaps add up to what the tombstoned entries
/// span.
pub proof fn lemma_gap_total(gaps: Seq<MemKvPageGap>, entries: Seq<EntryView>)
    requires
        gaps_hold(gaps, entries),
        span(entries) <= u64::MAX,
    ensures
        gap_total(gaps) == dead_span(entries),
    decreases entries.len(),
{
    if entries.len() == 0 {
        if gaps.len() > 0 {
            assert(gap_backed(entries, gaps[0]));
        }
    } else if !entries.last().deleted {
        lemma_gaps_before_live(gaps, entries);
        lemma_gap_total(gaps, entries.drop_last());
    } else {
        lemma_gaps_before_dead(gaps, entries);
        lemma_gap_total(gaps.drop_first(), entries.drop_last());
    }
}

impl MemKvPage {
    /// The index points at its keys: at the offset held for a key lies the
    /// header of a live entry, followed by that key and by the value that the
    /// map holds for it.
    pub proof fn law_index_points_at_key(&self, key: Seq<char>)
        requires
            self.wf(),
            self.index_map().contains_key(key),
        ensures
            self@.contains_key(key),
            MemKvPageEntryHeader::readable(self.bytes(), self.index_map()[key] as int),
            ({
                let header = MemKvPageEntryHeader::decoded(
                    self.bytes(),
                    self.index_map()[key] as int,
                );
                &&& header.flags == FLAG_LIVE
                &&& header.fits(KV_PAGE_SIZE as int)
                &&& header.offset + header.entry_size() <= self.cursor()
                &&& header.key_range(self.bytes()) == encode_utf8(key)
                &&& header.data_type == ValueDataType::of(self@[key])
                &&& header.value_range(self.bytes()) == self@[key].bytes()
            }),
    {
        let entries = self.entries();
        let slot = choose|i: int| #[trigger] is_live(entries, i) && entries[i].key == key;
        lemma_index_unique(self.index_map(), entries);
        lemma_live_map_value(entries, slot);
        lemma_start_order(entries, slot, entries.len() as int);
        assert(entry_at(self.bytes(), entries, slot));
        lemma_entry_fields(self.bytes(), entries, slot);
    }

    /// Live and tombstoned entries are kept apart: no gap starts where the
    /// index points, and no two keys of the index point at the same offset.
    pub proof fn law_index_and_gaps_apart(&self)
        requires
            self.wf(),
        ensures
            live_keys_unique(self.entries()),
            forall|key: Seq<char>, a: int|
                #![trigger self.index_map()[key], self.gaps()[a]]
                self.index_map().contains_key(key) && 0 <= a < self.gaps().len()
                    ==> self.index_map()[key] != self.gaps()[a].offset,
            forall|key: Seq<char>, other: Seq<char>|
                self.index_map().contains_key(key) && self.index_map().contains_key(other)
                    && key != other ==> #[trigger] self.index_map()[key]
                    != #[trigger] self.index_map()[other],
    {
        let entries = self.entries();
        lemma_index_unique(self.index_map(), entries);
        assert forall|key: Seq<char>, a: int|
            #![trigger self.index_map()[key], self.gaps()[a]]
            self.index_map().contains_key(key) && 0 <= a < self.gaps().len()
                implies self.index_map()[key] != self.gaps()[a].offset by {
            let i = choose|i: int| #[trigger] is_live(entries, i) && entries[i].key == key;
            assert(gap_backed(entries, self.gaps()[a]));
            let j = choose|j: int| #[trigger]
                is_dead(entries, j) && gap_of(entries, j) == self.gaps()[a];
            lemma_start_apart(entries, i, j);
            lemma_start_order(entries, j, entries.len() as int);
        }
        assert forall|key: Seq<char>, other: Seq<char>|
            self.index_map().contains_key(key) && self.index_map().contains_key(other) && key
                != other implies #[trigger] self.index_map()[key]
            != #[trigger] self.index_map()[other] by {
            let i = choose|i: int| #[trigger] is_live(entries, i) && entries[i].key == key;
            let j = choose|j: int| #[trigger] is_live(entries, j) && entries[j].key == other;
            lemma_start_apart(entries, i, j);
        }
    }

    /// Once `value` has been inserted under `key`, `get` answers `value` for
    /// `key`.
    pub proof fn law_insert_then_get(&self, after: &MemKvPage, key: Seq<char>, value: ValueView)
        requires
            self.inserted(after, key, value),
        ensures
            after.lookup(key) == Ok::<ValueView, MemKvError>(value),
    {
        assert(self.entries().push(Self::fresh(key, value)).drop_last() =~= self.entries());
    }

    /// An insertion under one key changes no answer of `get` for another key.
    pub proof fn law_insert_keeps_others(
        &self,
        after: &MemKvPage,
        key: Seq<char>,
        value: ValueView,
        other: Seq<char>,
    )
        requires
            self.inserted(after, key, value),
            other != key,
        ensures
            after.lookup(other) == self.lookup(other),
    {
        assert(self.entries().push(Self::fresh(key, value)).drop_last() =~= self.entries());
    }

    /// Once the entry under `key` has been deleted, `get` answers
    /// `KeyDoesNotExist` for `key`.
    pub proof fn law_delete_then_get(&self, after: &MemKvPage, key: Seq<char>)
        requires
            self.wf(),
            self.deleted(after, key),
        ensures
            after.lookup(key) == Err::<ValueView, MemKvError>(
                MemKvError::KeyDoesNotExist(KeyDoesNotExistError),
            ),
    {
        let slot = live_slot(self.entries(), key);
        lemma_live_slot(self.entries(), key);
        lemma_index_unique(self.index_map(), self.entries());
        lemma_tombstone_map(self.entries(), slot);
    }

    /// A deletion under one key changes no answer of `get` for another key.
    pub proof fn law_delete_keeps_others(&self, after: &MemKvPage, key: Seq<char>, other: Seq<char>)
        requires
            self.wf(),
            self.deleted(after, key),
            other != key,
        ensures
            after.lookup(other) == self.lookup(other),
    {
        let slot = live_slot(self.entries(), key);
        lemma_live_slot(self.entries(), key);
        lemma_index_unique(self.index_map(), self.entries());
        lemma_tombstone_map(self.entries(), slot);
    }

    /// Once a value has been inserted under `key`, a second insertion under
    /// `key` is refused with `KeyAlreadyExists`, as long as the second
    /// value's bytes alone do not exceed the room left (then the refusal is
    /// `NoSpaceLeft`, which is decided first).
    pub proof fn law_insert_twice(
        &self,
        after: &MemKvPage,
        key: Seq<char>,
        first: ValueView,
        second: ValueView,
    )
        requires
            self.inserted(after, key, first),
            after.cursor() + second.bytes().len() <= KV_PAGE_SIZE,
        ensures
            after.insert_refusal(key, second) == Some(
                MemKvError::KeyAlreadyExists(KeyAlreadyExistsError),
            ),
    {
        self.law_insert_then_get(after, key, first);
    }

    /// The cursor never falls in an insertion and stays in a deletion.
    pub proof fn law_cursor_monotone(&self, after: &MemKvPage, key: Seq<char>, value: ValueView)
        ensures
            self.inserted(after, key, value) ==> after.cursor() >= self.cursor(),
            self.deleted(after, key) ==> after.cursor() == self.cursor(),
    {
    }

    /// The sizes of all entries, live and tombstoned, add up to the cursor,
    /// and so do the sizes of the live entries and the lengths of the queued
    /// gaps.
    pub proof fn law_conservation(&self)
        requires
            self.wf(),
        ensures
            self.cursor() == span(self.entries()),
            self.cursor() == live_span(self.entries()) + dead_span(self.entries()),
            self.cursor() == live_span(self.entries()) + gap_total(self.gaps()),
    {
        lemma_span_parts(self.entries());
        lemma_gap_total(self.gaps(), self.entries());
    }

    /// A reclamation step takes one gap off the queue and changes no answer
    /// of `get`.
    pub proof fn law_defrag_step(&self, after: &MemKvPage, key: Seq<char>)
        requires
            self.wf(),
            self.gaps().len() > 0,
            self.defragged(after),
        ensures
            after.gaps().len() == self.gaps().len() - 1,
            after.lookup(key) == self.lookup(key),
    {
        lemma_next_gap(
            self.entries(),
            self.bytes(),
            self.cursor(),
            self.index_map(),
            self.gaps(),
        );
    }

    /// A page with no gap queued, as repeated reclamation leaves it, holds no
    /// tombstoned entry, and its cursor is the sum of the sizes of its live
    /// entries.
    pub proof fn law_defrag_fixed_point(&self)
        requires
            self.wf(),
            self.gaps().len() == 0,
        ensures
            first_dead(self.entries()) == self.entries().len(),
            forall|i: int| 0 <= i < self.entries().len() ==> !(#[trigger] self.entries()[i]).deleted,
            dead_span(self.entries()) == 0,
            self.cursor() == live_span(self.entries()),
    {
        let entries = self.entries();
        assert forall|i: int| 0 <= i < entries.len() implies !(#[trigger] entries[i]).deleted by {
            if entries[i].deleted {
                assert(is_dead(entries, i));
                assert(gap_listed(self.gaps(), gap_of(entries, i)));
            }
        }
        lemma_first_dead_none(entries);
        lemma_no_dead_span(entries);
        lemma_span_parts(entries);
    }

    /// An insertion keeps the bytes from the cursor on zero.
    pub proof fn law_zero_tail_insert(&self, after: &MemKvPage, key: Seq<char>, value: ValueView)
        requires
            self.wf(),
            self.insert_refusal(key, value) is None,
            self.inserted(after, key, value),
            self.tail_is_zero(),
        ensures
            after.tail_is_zero(),
    {
        assert(Self::fresh(key, value).bytes().len() == Self::fresh(key, value).size());
    }

    /// A deletion keeps the bytes from the cursor on zero.
    pub proof fn law_zero_tail_delete(&self, after: &MemKvPage, key: Seq<char>)
        requires
            self.wf(),
            self.deleted(after, key),
            self.tail_is_zero(),
        ensures
            after.tail_is_zero(),
    {
        let slot = live_slot(self.entries(), key);
        lemma_start_order(self.entries(), slot, self.entries().len() as int);
    }

    /// A reclamation step keeps the bytes from the cursor on zero where the
    /// gap lay before the cursor. Where the gap ended at the cursor, the
    /// cursor falls back over the tombstoned entry, whose bytes stay.
    pub proof fn law_zero_tail_defrag(&self, after: &MemKvPage)
        requires
            self.wf(),
            self.gaps().len() > 0,
            self.defragged(after),
            !self.next_gap_is_last(),
            self.tail_is_zero(),
        ensures
            after.tail_is_zero(),
    {
        lemma_next_gap(
            self.entries(),
            self.bytes(),
            self.cursor(),
            self.index_map(),
            self.gaps(),
        );
    }
}

} // verus!
