use memmap2::MmapMut;
use vstd::prelude::*;

verus! {

/// `memmap2::MmapMut`: a writable memory mapping, read and written as bytes.
#[verifier::external_type_specification]
#[verifier::external_body]
pub struct ExMmapMut(MmapMut);

/// The bytes a mapping currently holds.
pub uninterp spec fn mapped_bytes(m: MmapMut) -> Seq<u8>;

/// `memmap2::MmapMut::map_anon`: on success, a fresh anonymous mapping of
/// exactly `len` bytes. Their initial values are left unsaid here.
#[verifier::external_body]
pub(crate) fn map_anonymous(len: usize) -> (r: Result<MmapMut, std::io::Error>)
    ensures
        r matches Ok(m) ==> mapped_bytes(m).len() == len,
{
    MmapMut::map_anon(len)
}

/// Byte `i` of the mapping, read through its `Deref` to `[u8]`.
#[verifier::external_body]
pub(crate) fn mapped_byte(m: &MmapMut, i: usize) -> (b: u8)
    requires
        i < mapped_bytes(*m).len(),
    ensures
        b == mapped_bytes(*m)[i as int],
{
    m[i]
}

/// Write byte `i` of the mapping through its `DerefMut` to `[u8]`; no other byte changes.
#[verifier::external_body]
pub(crate) fn set_mapped_byte(m: &mut MmapMut, i: usize, b: u8)
    requires
        i < mapped_bytes(*old(m)).len(),
    ensures
        mapped_bytes(*final(m)) == mapped_bytes(*old(m)).update(i as int, b),
{
    m[i] = b;
}

} // verus!
