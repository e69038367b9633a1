//! The memory mapping that backs a page, as the rest of the library sees it:
//! a run of bytes that can be read and written in place. Nothing in this
//! module is proved; each item states what the `memmap` crate does.

use vstd::prelude::*;
use memmap::MmapMut;

verus! {

/// `memmap::MmapMut`, a writable memory map. The library holds one and never
/// looks inside it.
#[verifier::external_type_specification]
#[verifier::external_body]
pub struct ExMmapMut(memmap::MmapMut);

/// The bytes of the mapped region, first to last: what `deref` shows of the
/// mapping. They change only by writes through `deref_mut`, which is what
/// whoever creates a mapping of a file has to see to.
pub uninterp spec fn mapped_bytes(map: MmapMut) -> Seq<u8>;

/// `MmapMut`'s `deref`: the mapped region as a byte slice, all of it.
#[verifier::external_body]
pub(crate) fn map_bytes<'a>(map: &'a MmapMut) -> (bytes: &'a [u8])
    ensures
        bytes@ == mapped_bytes(*map),
{
    std::ops::Deref::deref(map)
}

/// `MmapMut`'s `deref_mut`: the mapped region as a writable byte slice, all
/// of it. What the slice holds when the borrow ends is what the mapping
/// holds from then on.
#[verifier::external_body]
pub(crate) fn map_bytes_mut<'a>(map: &'a mut MmapMut) -> (bytes: &'a mut [u8])
    ensures
        bytes@ == mapped_bytes(*old(map)),
        final(bytes)@ == mapped_bytes(*final(map)),
{
    std::ops::DerefMut::deref_mut(map)
}

} // verus!
