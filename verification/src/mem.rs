use vstd::prelude::*;

verus! {

#[verifier::external_type_specification]
#[verifier::external_body]
pub struct ExMmapMut(memmap2::MmapMut);

/// The bytes a mapped region currently holds. The region is the one shared
/// medium of the engine: every page and the header live inside it.
pub uninterp spec fn region_of(m: memmap2::MmapMut) -> Seq<u8>;

/// Relies on `memmap2::MmapMut`'s deref to `[u8]` for the mapped length.
#[verifier::external_body]
pub(crate) fn region_len(m: &memmap2::MmapMut) -> (n: usize)
    ensures
        n == region_of(*m).len(),
{
    m.len()
}

/// Relies on `memmap2::MmapMut`'s deref to `[u8]` for reading one byte.
#[verifier::external_body]
pub(crate) fn region_read(m: &memmap2::MmapMut, i: usize) -> (b: u8)
    requires
        i < region_of(*m).len(),
    ensures
        b == region_of(*m)[i as int],
{
    m[i]
}

/// Relies on `memmap2::MmapMut`'s deref to `[u8]` for writing one byte;
/// the store's only way of changing the medium.
#[verifier::external_body]
pub(crate) fn region_write(m: &mut memmap2::MmapMut, i: usize, b: u8)
    requires
        i < region_of(*old(m)).len(),
    ensures
        region_of(*final(m)) == region_of(*old(m)).update(i as int, b),
{
    m[i] = b;
}

} // verus!
