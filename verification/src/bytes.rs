//! Writing, moving and clearing runs of bytes in a slice.

use vstd::prelude::*;
use crate::layout::splice;

verus! {

/// `count` zero bytes.
pub open spec fn zeros(count: int) -> Seq<u8> {
    Seq::new(count as nat, |i: int| 0u8)
}

/// `bytes` after the run from `from` up to `end` has been moved down to
/// start at `to`, and the `from - to` bytes that this frees before `end`
/// have been cleared.
pub open spec fn closed_up(bytes: Seq<u8>, to: int, from: int, end: int) -> Seq<u8> {
    bytes.subrange(0, to) + bytes.subrange(from, end) + zeros(from - to) + bytes.subrange(
        end,
        bytes.len() as int,
    )
}

/// Copies `data` over `page` from `offset` on; hands back the offset after
/// the last byte written.
pub fn write_at(page: &mut [u8], offset: usize, data: &[u8]) -> (next: usize)
    requires
        offset + data@.len() <= old(page)@.len(),
    ensures
        final(page)@ == splice(old(page)@, offset as int, data@),
        next == offset + data@.len(),
{
    let total: usize = page.len();
    let count: usize = data.len();
    let mut i: usize = 0;
    while i < count
        invariant
            i <= count,
            count == data@.len(),
            page@.len() == total,
            total == old(page)@.len(),
            offset + count <= total,
            forall|j: int|
                0 <= j < total ==> page@[j] == (if offset <= j < offset + i {
                    data@[j - offset]
                } else {
                    old(page)@[j]
                }),
        decreases count - i,
    {
        page[offset + i] = data[i];
        i = i + 1;
    }
    assert(page@ =~= splice(old(page)@, offset as int, data@));
    offset + count
}

/// Moves the bytes from `from` up to `end` down so that they start at `to`.
/// The two runs may overlap.
pub fn move_down(page: &mut [u8], to: usize, from: usize, end: usize)
    requires
        to <= from <= end <= old(page)@.len(),
    ensures
        final(page)@ == splice(old(page)@, to as int, old(page)@.subrange(from as int, end as int)),
{
    let total: usize = page.len();
    let count: usize = end - from;
    let mut i: usize = 0;
    while i < count
        invariant
            i <= count,
            count == end - from,
            to <= from <= end <= total,
            page@.len() == total,
            total == old(page)@.len(),
            forall|j: int|
                0 <= j < total ==> page@[j] == (if to <= j < to + i {
                    old(page)@[j - to + from]
                } else {
                    old(page)@[j]
                }),
        decreases count - i,
    {
        let byte: u8 = page[from + i];
        page[to + i] = byte;
        i = i + 1;
    }
    assert(page@ =~= splice(
        old(page)@,
        to as int,
        old(page)@.subrange(from as int, end as int),
    ));
}

/// Sets the bytes from `from` up to `end` to zero.
pub fn zero_fill(page: &mut [u8], from: usize, end: usize)
    requires
        from <= end <= old(page)@.len(),
    ensures
        final(page)@ == splice(old(page)@, from as int, zeros(end - from)),
{
    let total: usize = page.len();
    let mut i: usize = from;
    while i < end
        invariant
            from <= i <= end <= total,
            page@.len() == total,
            total == old(page)@.len(),
            forall|j: int|
                0 <= j < total ==> page@[j] == (if from <= j < i {
                    0u8
                } else {
                    old(page)@[j]
                }),
        decreases end - i,
    {
        page[i] = 0;
        i = i + 1;
    }
    assert(page@ =~= splice(old(page)@, from as int, zeros(end - from)));
}

} // verus!
