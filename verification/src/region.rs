//! The region table: the sector ranges that an image's header marks.

use crate::endian::{
    be32_at, be32_bytes, lemma_be32_bytes_then_value, lemma_be32_value_then_bytes, push_be32,
    read_be32,
};
use vstd::prelude::*;

verus! {

/// Length in bytes of the header that carries the region table.
pub const HEADER_SIZE: usize = 4096;

/// The largest number of entries that fit in a header behind its count.
pub const MAX_REGIONS: usize = 511;

/// The largest count whose entries fit in a header.
pub const MAX_COUNT: u32 = 256;

/// A range of sectors, from `start` up to but not including `end`.
///
/// A region whose `start` is not below its `end` holds no sector.
#[derive(Debug, Clone, Copy, PartialEq, Eq, Structural)]
pub struct Region {
    pub start: u64,
    pub end: u64,
}

impl Region {
    /// Whether the region's start lies below its end. The table of a header
    /// is taken as it stands, so a region read from one may fail this.
    pub open spec fn well_formed(self) -> bool {
        self.start < self.end
    }

    /// Whether `sector` lies in this region.
    pub open spec fn contains(self, sector: u64) -> bool {
        self.start <= sector < self.end
    }

    /// Only a well-formed region holds a sector.
    pub proof fn lemma_holds_only_if_well_formed(self, sector: u64)
        requires
            self.contains(sector),
        ensures
            self.well_formed(),
    {
    }
}

/// Why a header holds no region table.
#[derive(Debug, Clone, Copy, PartialEq, Eq, Structural)]
pub enum FormatError {
    /// Fewer than 4096 bytes were given.
    HeaderTooShort,
    /// The header declares a count of zero.
    NoRegions,
    /// The entries that the count asks for would run past the header.
    TableTooLong,
}

/// The count that a header declares in its first four bytes.
pub open spec fn declared_count(header: Seq<u8>) -> int {
    be32_at(header, 0)
}

/// How many entries follow the count: one less than twice the count.
pub open spec fn entry_count(header: Seq<u8>) -> int {
    2 * declared_count(header) - 1
}

/// What is wrong with a header, if anything.
pub open spec fn header_error(header: Seq<u8>) -> Option<FormatError> {
    if header.len() < 4096 {
        Some(FormatError::HeaderTooShort)
    } else if declared_count(header) == 0 {
        Some(FormatError::NoRegions)
    } else if 4 + 8 * entry_count(header) > 4096 {
        Some(FormatError::TableTooLong)
    } else {
        None
    }
}

/// Entry `i` of a header's table.
pub open spec fn entry_at(header: Seq<u8>, i: int) -> Region {
    Region { start: be32_at(header, 4 + 8 * i) as u64, end: be32_at(header, 8 + 8 * i) as u64 }
}

/// The regions of a header, in the order of its entries.
pub open spec fn header_regions(header: Seq<u8>) -> Seq<Region> {
    Seq::new(entry_count(header) as nat, |i: int| entry_at(header, i))
}

/// Reads the region table from the first 4096 bytes of `header`.
///
/// The first four bytes hold a count `n`, most significant byte first; `2n - 1`
/// entries of eight bytes follow, each a start and an end in the same
/// encoding. Bytes behind the table are not looked at.
pub fn extract_regions(header: &[u8]) -> (result: Result<Vec<Region>, FormatError>)
    ensures
        match result {
            Ok(regions) => header_error(header@) is None && regions@ == header_regions(header@),
            Err(e) => header_error(header@) == Some(e),
        },
{
    if header.len() < HEADER_SIZE {
        return Err(FormatError::HeaderTooShort);
    }
    let count: u32 = read_be32(header, 0);
    if count == 0 {
        return Err(FormatError::NoRegions);
    }
    if count > MAX_COUNT {
        return Err(FormatError::TableTooLong);
    }
    let entries: usize = (count as usize) * 2 - 1;
    let mut regions: Vec<Region> = Vec::with_capacity(entries);
    let mut i: usize = 0;
    while i < entries
        invariant
            header@.len() >= 4096,
            entries == entry_count(header@),
            entries <= 511,
            i <= entries,
            regions@.len() == i,
            forall|j: int| 0 <= j < i ==> regions@[j] == entry_at(header@, j),
        decreases entries - i,
    {
        let offset: usize = 4 + i * 8;
        let start: u32 = read_be32(header, offset);
        let end: u32 = read_be32(header, offset + 4);
        regions.push(Region { start: start as u64, end: end as u64 });
        i = i + 1;
    }
    assert(regions@ =~= header_regions(header@));
    Ok(regions)
}

/// Whether a header can carry `regions`: an odd number of them, no more than
/// fit, each bound a 32-bit number.
pub open spec fn encodable(regions: Seq<Region>) -> bool {
    &&& regions.len() % 2 == 1
    &&& regions.len() <= 511
    &&& forall|i: int|
        0 <= i < regions.len() ==> (#[trigger] regions[i]).start <= 0xFFFF_FFFF && regions[i].end
            <= 0xFFFF_FFFF
}

/// Byte `at` of the header that carries `regions`: the count, the entries,
/// then zeros up to 4096 bytes.
pub open spec fn header_byte(regions: Seq<Region>, at: int) -> u8 {
    if at < 4 {
        be32_bytes((regions.len() as int + 1) / 2)[at]
    } else if at < 4 + 8 * regions.len() {
        let entry = regions[(at - 4) / 8];
        let within = (at - 4) % 8;
        if within < 4 {
            be32_bytes(entry.start as int)[within]
        } else {
            be32_bytes(entry.end as int)[within - 4]
        }
    } else {
        0
    }
}

/// The header that carries `regions`.
pub open spec fn header_bytes(regions: Seq<Region>) -> Seq<u8> {
    Seq::new(4096, |at: int| header_byte(regions, at))
}

/// Builds the 4096-byte header that carries `regions`, or nothing where no
/// header can carry them.
pub fn build_header(regions: &[Region]) -> (result: Option<Vec<u8>>)
    ensures
        match result {
            Some(header) => encodable(regions@) && header@ == header_bytes(regions@),
            None => !encodable(regions@),
        },
{
    let n: usize = regions.len();
    if n % 2 != 1 || n > MAX_REGIONS {
        return None;
    }
    let mut out: Vec<u8> = Vec::with_capacity(HEADER_SIZE);
    push_be32(&mut out, ((n + 1) / 2) as u32);
    let mut i: usize = 0;
    while i < n
        invariant
            n == regions@.len(),
            n <= 511,
            i <= n,
            out@.len() == 4 + 8 * i,
            forall|at: int| 0 <= at < out@.len() ==> out@[at] == header_byte(regions@, at),
            forall|j: int|
                0 <= j < i ==> (#[trigger] regions@[j]).start <= 0xFFFF_FFFF && regions@[j].end
                    <= 0xFFFF_FFFF,
        decreases n - i,
    {
        let region = regions[i];
        if region.start > 0xFFFF_FFFF || region.end > 0xFFFF_FFFF {
            return None;
        }
        let ghost before = out@;
        push_be32(&mut out, region.start as u32);
        push_be32(&mut out, region.end as u32);
        assert forall|at: int| 0 <= at < out@.len() implies out@[at] == header_byte(
            regions@,
            at,
        ) by {
            if at >= before.len() {
                assert((at - 4) / 8 == i);
            }
        }
        i = i + 1;
    }
    while out.len() < HEADER_SIZE
        invariant
            4 + 8 * regions@.len() <= out@.len() <= 4096,
            forall|at: int| 0 <= at < out@.len() ==> out@[at] == header_byte(regions@, at),
        decreases 4096 - out@.len(),
    {
        out.push(0);
    }
    assert(out@ =~= header_bytes(regions@));
    Some(out)
}

/// The number of bytes that the count and the entries of a header take.
pub open spec fn table_len(header: Seq<u8>) -> int {
    4 + 8 * entry_count(header)
}

/// Reading a header and building one from what was read gives the header
/// back: its count and entries byte for byte, and all of it where the header
/// is 4096 bytes long with nothing but zeros behind its table.
pub proof fn lemma_header_round_trip(header: Seq<u8>)
    requires
        header_error(header) is None,
    ensures
        encodable(header_regions(header)),
        header_bytes(header_regions(header)).subrange(0, table_len(header)) == header.subrange(
            0,
            table_len(header),
        ),
        forall|at: int| table_len(header) <= at < 4096 ==> header_bytes(header_regions(header))[at] == 0,
        header.len() == 4096 && (forall|at: int| table_len(header) <= at < 4096 ==> header[at] == 0)
            ==> header_bytes(header_regions(header)) == header,
{
    let regions = header_regions(header);
    let n = declared_count(header);
    lemma_be32_value_then_bytes(header, 0);
    assert forall|i: int| 0 <= i < regions.len() implies (#[trigger] regions[i]).start
        <= 0xFFFF_FFFF && regions[i].end <= 0xFFFF_FFFF by {
        lemma_be32_value_then_bytes(header, 4 + 8 * i);
        lemma_be32_value_then_bytes(header, 8 + 8 * i);
    }
    assert forall|at: int| 0 <= at < table_len(header) implies header_byte(regions, at)
        == header[at] by {
        if at < 4 {
            assert((regions.len() as int + 1) / 2 == n);
            assert(header.subrange(0, 4)[at] == header[at]);
        } else {
            let i = (at - 4) / 8;
            let within = (at - 4) % 8;
            lemma_be32_value_then_bytes(header, 4 + 8 * i);
            lemma_be32_value_then_bytes(header, 8 + 8 * i);
            if within < 4 {
                assert(header.subrange(4 + 8 * i, 8 + 8 * i)[within] == header[at]);
            } else {
                assert(header.subrange(8 + 8 * i, 12 + 8 * i)[within - 4] == header[at]);
            }
        }
    }
    assert(header_bytes(regions).subrange(0, table_len(header)) =~= header.subrange(
        0,
        table_len(header),
    ));
    if header.len() == 4096 && (forall|at: int| table_len(header) <= at < 4096 ==> header[at] == 0) {
        assert(header_bytes(regions) =~= header);
    }
}

/// Building a header and reading it gives the regions back.
pub proof fn lemma_regions_round_trip(regions: Seq<Region>)
    requires
        encodable(regions),
    ensures
        header_error(header_bytes(regions)) is None,
        header_regions(header_bytes(regions)) == regions,
{
    let header = header_bytes(regions);
    let n = (regions.len() as int + 1) / 2;
    lemma_be32_bytes_then_value(n);
    assert(declared_count(header) == n) by {
        assert(header[0] == be32_bytes(n)[0]);
        assert(header[1] == be32_bytes(n)[1]);
        assert(header[2] == be32_bytes(n)[2]);
        assert(header[3] == be32_bytes(n)[3]);
    }
    assert(entry_count(header) == regions.len());
    assert forall|i: int| 0 <= i < regions.len() implies entry_at(header, i) == regions[i] by {
        let r = regions[i];
        lemma_be32_bytes_then_value(r.start as int);
        lemma_be32_bytes_then_value(r.end as int);
        assert forall|k: int| 0 <= k < 8 implies #[trigger] header[4 + 8 * i + k] == (if k < 4 {
            be32_bytes(r.start as int)[k]
        } else {
            be32_bytes(r.end as int)[k - 4]
        }) by {
            assert((4 + 8 * i + k - 4) / 8 == i);
            assert((4 + 8 * i + k - 4) % 8 == k);
        }
        assert(header[4 + 8 * i + 0] == be32_bytes(r.start as int)[0]);
        assert(header[4 + 8 * i + 1] == be32_bytes(r.start as int)[1]);
        assert(header[4 + 8 * i + 2] == be32_bytes(r.start as int)[2]);
        assert(header[4 + 8 * i + 3] == be32_bytes(r.start as int)[3]);
        assert(header[4 + 8 * i + 4] == be32_bytes(r.end as int)[0]);
        assert(header[4 + 8 * i + 5] == be32_bytes(r.end as int)[1]);
        assert(header[4 + 8 * i + 6] == be32_bytes(r.end as int)[2]);
        assert(header[4 + 8 * i + 7] == be32_bytes(r.end as int)[3]);
        assert(be32_at(header, 4 + 8 * i) == r.start);
        assert(be32_at(header, 8 + 8 * i) == r.end);
    }
    assert(header_regions(header) =~= regions);
}

} // verus!
