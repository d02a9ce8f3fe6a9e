//! Which sectors the cipher is applied to.

use crate::region::Region;
use vstd::prelude::*;

verus! {

/// Whether every byte of `data` is zero. True of no bytes at all.
pub open spec fn all_zero(data: Seq<u8>) -> bool {
    forall|i: int| 0 <= i < data.len() ==> data[i] == 0
}

/// Whether `sector` lies in at least one of `regions`.
pub open spec fn in_some_region(regions: Seq<Region>, sector: u64) -> bool {
    exists|j: int| 0 <= j < regions.len() && (#[trigger] regions[j]).contains(sector)
}

/// Whether a sector is to be decrypted: it holds a byte that is not zero, and
/// its index lies in a region. Every region counts alike, whatever its place
/// in the table.
pub open spec fn needs_decryption(regions: Seq<Region>, sector: u64, data: Seq<u8>) -> bool {
    !all_zero(data) && in_some_region(regions, sector)
}

fn is_all_zero(data: &[u8]) -> (zero: bool)
    ensures
        zero == all_zero(data@),
{
    let mut i: usize = 0;
    while i < data.len()
        invariant
            i <= data@.len(),
            forall|k: int| 0 <= k < i ==> data@[k] == 0,
        decreases data@.len() - i,
    {
        if data[i] != 0 {
            return false;
        }
        i = i + 1;
    }
    true
}

fn is_in_some_region(regions: &[Region], sector: u64) -> (inside: bool)
    ensures
        inside == in_some_region(regions@, sector),
{
    let mut j: usize = 0;
    while j < regions.len()
        invariant
            j <= regions@.len(),
            forall|k: int| 0 <= k < j ==> !(#[trigger] regions@[k]).contains(sector),
        decreases regions@.len() - j,
    {
        let region = regions[j];
        if sector >= region.start && sector < region.end {
            return true;
        }
        j = j + 1;
    }
    false
}

/// Decides whether the sector with index `sector` and content `sector_data`
/// is to be decrypted.
///
/// A sector of zeros never is, wherever it lies; nor is a sector outside
/// every region, whatever it holds.
pub fn is_encrypted(regions: &[Region], sector: u64, sector_data: &[u8]) -> (encrypted: bool)
    ensures
        encrypted == needs_decryption(regions@, sector, sector_data@),
        all_zero(sector_data@) ==> !encrypted,
        !in_some_region(regions@, sector) ==> !encrypted,
        !all_zero(sector_data@) ==> encrypted == in_some_region(regions@, sector),
{
    if is_all_zero(sector_data) {
        return false;
    }
    is_in_some_region(regions, sector)
}

} // verus!
