//! Read access to the bytes of a memory map.

use memmap2::Mmap;
use vstd::prelude::*;

verus! {

/// The read-only memory map of the `memmap2` crate.
#[verifier::external_type_specification]
#[verifier::external_body]
pub struct ExMmap(memmap2::Mmap);

/// The bytes that a map holds, first to last. A map is a region of memory
/// that the program only reads: whoever makes one over a file promises that
/// the bytes under it stay as they are while the map lives, so one map
/// always shows the same bytes.
pub uninterp spec fn map_bytes(map: Mmap) -> Seq<u8>;

/// `AsRef<[u8]>::as_ref` of `memmap2::Mmap`: the whole mapped region as a
/// slice, which is what the map holds.
#[verifier::external_body]
pub(crate) fn mapped_bytes(map: &Mmap) -> (bytes: &[u8])
    ensures
        bytes@ == map_bytes(*map),
{
    map.as_ref()
}

} // verus!
