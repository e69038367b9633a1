//! The queue of gaps: a list kept by descending offset, so that the gap to
//! reclaim next, the one with the smallest offset, is taken from its end.

use vstd::prelude::*;
use crate::entry::MemKvPageGap;
use crate::layout::gaps_descend;

verus! {

/// `gaps` with every offset lowered by `by`.
pub open spec fn lowered(gaps: Seq<MemKvPageGap>, by: u64) -> Seq<MemKvPageGap> {
    Seq::new(
        gaps.len(),
        |a: int| MemKvPageGap { offset: (gaps[a].offset - by) as u64, length: gaps[a].length },
    )
}

/// `index` with every offset beyond the start of `gap` lowered by the gap's
/// length.
pub open spec fn lowered_index(index: Map<Seq<char>, u64>, gap: MemKvPageGap) -> Map<
    Seq<char>,
    u64,
> {
    Map::new(
        |key: Seq<char>| index.contains_key(key),
        |key: Seq<char>|
            if index[key] > gap.offset {
                (index[key] - gap.length) as u64
            } else {
                index[key]
            },
    )
}

/// Sum of the lengths of the gaps.
pub open spec fn gap_total(gaps: Seq<MemKvPageGap>) -> nat
    decreases gaps.len(),
{
    if gaps.len() == 0 {
        0
    } else {
        gaps[0].length as nat + gap_total(gaps.drop_first())
    }
}

/// Where a gap at `offset` belongs in the list: behind the gaps with a
/// greater offset.
pub open spec fn place_of(gaps: Seq<MemKvPageGap>, offset: u64) -> int
    decreases gaps.len(),
{
    if gaps.len() == 0 || gaps[0].offset < offset {
        0
    } else {
        1 + place_of(gaps.drop_first(), offset)
    }
}

/// The place of a gap is behind a run of greater offsets that ends the list
/// or is followed by a smaller offset.
pub proof fn lemma_place_of(gaps: Seq<MemKvPageGap>, offset: u64, place: int)
    requires
        0 <= place <= gaps.len(),
        forall|a: int| 0 <= a < place ==> (#[trigger] gaps[a]).offset > offset,
        place < gaps.len() ==> gaps[place].offset < offset,
    ensures
        place_of(gaps, offset) == place,
    decreases place,
{
    if place > 0 {
        let rest = gaps.drop_first();
        assert(gaps[0].offset > offset);
        assert forall|a: int| 0 <= a < place - 1 implies (#[trigger] rest[a]).offset > offset by {
            assert(rest[a] == gaps[a + 1]);
        }
        if place < gaps.len() {
            assert(rest[place - 1] == gaps[place]);
        }
        lemma_place_of(rest, offset, place - 1);
    }
}

/// Puts `gap` into the list where its offset belongs, and says where that
/// was.
pub fn queue_gap(gaps: &mut Vec<MemKvPageGap>, gap: MemKvPageGap) -> (place: usize)
    requires
        gaps_descend(old(gaps)@),
        forall|a: int| 0 <= a < old(gaps)@.len() ==> (#[trigger] old(gaps)@[a]).offset != gap.offset,
    ensures
        place == place_of(old(gaps)@, gap.offset),
        place <= old(gaps)@.len(),
        final(gaps)@ == old(gaps)@.insert(place as int, gap),
        gaps_descend(final(gaps)@),
{
    let count: usize = gaps.len();
    let mut place: usize = 0;
    while place < count && gaps[place].offset > gap.offset
        invariant
            place <= count,
            count == gaps@.len(),
            gaps@ == old(gaps)@,
            forall|a: int| 0 <= a < place ==> (#[trigger] gaps@[a]).offset > gap.offset,
        decreases count - place,
    {
        place = place + 1;
    }
    assert forall|a: int| place <= a < count implies (#[trigger] gaps@[a]).offset
        < gap.offset by {
        if a > place {
            assert(gaps@[place as int].offset > gaps@[a].offset);
        }
    }
    proof {
        lemma_place_of(gaps@, gap.offset, place as int);
    }
    gaps.insert(place, gap);
    place
}

/// Lowers the offset of every gap in the list by `by`.
pub fn shift_gaps(gaps: &mut Vec<MemKvPageGap>, by: u64)
    requires
        forall|a: int| 0 <= a < old(gaps)@.len() ==> (#[trigger] old(gaps)@[a]).offset >= by,
    ensures
        final(gaps)@ == lowered(old(gaps)@, by),
{
    let count: usize = gaps.len();
    let mut a: usize = 0;
    while a < count
        invariant
            a <= count,
            count == gaps@.len(),
            gaps@.len() == old(gaps)@.len(),
            forall|b: int| 0 <= b < a ==> gaps@[b] == lowered(old(gaps)@, by)[b],
            forall|b: int| a <= b < count ==> gaps@[b] == old(gaps)@[b],
            forall|b: int| 0 <= b < old(gaps)@.len() ==> (#[trigger] old(gaps)@[b]).offset >= by,
        decreases count - a,
    {
        let gap: MemKvPageGap = gaps[a];
        gaps[a] = MemKvPageGap { offset: gap.offset - by, length: gap.length };
        a = a + 1;
    }
    assert(gaps@ =~= lowered(old(gaps)@, by));
}

} // verus!
