//! Decryption of runs of sectors, and of a whole image batch by batch.

use crate::cipher::{cbc_decrypt, decrypt_sector, CryptoError};
use crate::classify::{is_encrypted, needs_decryption};
use crate::iv::iv_bytes;
use crate::key::{decode_key, key_bytes, key_error, KeyError};
use crate::region::{extract_regions, header_error, header_regions, FormatError, Region};
use vstd::prelude::*;
use vstd::slice::{slice_subrange, slice_to_vec};
use vstd::string::StringExecFns;

verus! {

/// Length in bytes of a sector.
pub const SECTOR_SIZE: usize = 2048;

/// The number of sectors in a batch where nothing else is asked for: eight
/// mebibytes of them.
pub const BATCH_SECTORS: u64 = 4096;

/// Sector `s` of `data`, counted from the start of `data`. The last one is
/// shorter where `data` is not a whole number of sectors.
pub open spec fn sector_at(data: Seq<u8>, s: int) -> Seq<u8> {
    data.subrange(
        2048 * s,
        if 2048 * s + 2048 <= data.len() {
            2048 * s + 2048
        } else {
            data.len() as int
        },
    )
}

/// What decryption makes of the sector with index `sector`: its plaintext
/// where it is to be decrypted, itself where it is not.
pub open spec fn decrypted_sector(
    regions: Seq<Region>,
    key: Seq<u8>,
    sector: u64,
    data: Seq<u8>,
) -> Seq<u8> {
    if needs_decryption(regions, sector, data) {
        cbc_decrypt(key, iv_bytes(sector), data)
    } else {
        data
    }
}

/// What decryption makes of `data`, a run of sectors of which the first has
/// index `first`: each sector by itself.
pub open spec fn decrypted_run(regions: Seq<Region>, key: Seq<u8>, first: u64, data: Seq<u8>) -> Seq<
    u8,
> {
    Seq::new(
        data.len(),
        |i: int|
            decrypted_sector(regions, key, (first + i / 2048) as u64, sector_at(data, i / 2048))[i
                % 2048],
    )
}

/// The number of bytes of `len` that lie in whole sectors.
pub open spec fn whole_sectors(len: int) -> int {
    len - len % 2048
}

/// Whether a run of sectors cannot be decrypted: its last sector is cut
/// short, is not a whole number of cipher blocks, and is to be decrypted.
pub open spec fn run_refused(regions: Seq<Region>, first: u64, data: Seq<u8>) -> bool {
    data.len() % 16 != 0 && needs_decryption(
        regions,
        (first + data.len() / 2048) as u64,
        sector_at(data, data.len() as int / 2048),
    )
}

/// Splitting a run at a sector boundary and decrypting the two parts apart
/// gives what decrypting the run in one piece gives. So the size of the
/// batches that an image is cut into does not show in its decryption.
pub proof fn lemma_run_split(
    regions: Seq<Region>,
    key: Seq<u8>,
    first: u64,
    data: Seq<u8>,
    cut: int,
)
    requires
        0 <= cut <= data.len(),
        cut % 2048 == 0,
        first + data.len() / 2048 <= u64::MAX,
    ensures
        decrypted_run(regions, key, first, data) == decrypted_run(
            regions,
            key,
            first,
            data.take(cut),
        ) + decrypted_run(regions, key, (first + cut / 2048) as u64, data.skip(cut)),
{
    let whole = decrypted_run(regions, key, first, data);
    let head = decrypted_run(regions, key, first, data.take(cut));
    let second = (first + cut / 2048) as u64;
    let tail = decrypted_run(regions, key, second, data.skip(cut));
    assert forall|i: int| 0 <= i < data.len() implies whole[i] == (head + tail)[i] by {
        let s = i / 2048;
        if i < cut {
            assert(2048 * s + 2048 <= cut);
            assert(sector_at(data.take(cut), s) =~= sector_at(data, s));
        } else {
            let j = i - cut;
            assert(j / 2048 == s - cut / 2048);
            assert(j % 2048 == i % 2048);
            assert(sector_at(data.skip(cut), j / 2048) =~= sector_at(data, s));
            assert((second + j / 2048) as u64 == (first + s) as u64);
        }
    }
    assert(whole =~= head + tail);
}

/// Decrypts in place the sector with index `index` that lies in `data` from
/// `lo` on and is `size` bytes long, if it is to be decrypted.
fn decrypt_sector_at(
    regions: &[Region],
    key: &[u8; 16],
    index: u64,
    data: &mut [u8],
    lo: usize,
    size: usize,
) -> (result: Result<(), CryptoError>)
    requires
        lo + size <= old(data)@.len(),
    ensures
        result is Err <==> size % 16 != 0 && needs_decryption(
            regions@,
            index,
            old(data)@.subrange(lo as int, lo + size),
        ),
        result is Err ==> result == Err::<(), CryptoError>(CryptoError::PartialBlock),
        result is Err ==> final(data)@ == old(data)@,
        result is Ok ==> final(data)@ == old(data)@.subrange(0, lo as int) + decrypted_sector(
            regions@,
            key@,
            index,
            old(data)@.subrange(lo as int, lo + size),
        ) + old(data)@.subrange(lo + size, old(data)@.len() as int),
{
    let (_, rest) = data.split_at_mut(lo);
    let (sector, _) = rest.split_at_mut(size);
    assert(sector@ =~= old(data)@.subrange(lo as int, lo + size));
    let result = if is_encrypted(regions, index, sector) {
        decrypt_sector(key, index, sector)
    } else {
        Ok(())
    };
    assert(result is Err ==> data@ =~= old(data)@);
    assert(result is Ok ==> data@ =~= old(data)@.subrange(0, lo as int) + decrypted_sector(
        regions@,
        key@,
        index,
        old(data)@.subrange(lo as int, lo + size),
    ) + old(data)@.subrange(lo + size, old(data)@.len() as int));
    result
}

/// A run decrypts in its whole sectors to what they decrypt to alone.
proof fn lemma_run_whole_sectors(regions: Seq<Region>, key: Seq<u8>, first: u64, data: Seq<u8>)
    ensures
        decrypted_run(regions, key, first, data).take(whole_sectors(data.len() as int))
            == decrypted_run(regions, key, first, data.take(whole_sectors(data.len() as int))),
{
    let full = whole_sectors(data.len() as int);
    let whole = decrypted_run(regions, key, first, data).take(full);
    let alone = decrypted_run(regions, key, first, data.take(full));
    assert forall|i: int| 0 <= i < full implies whole[i] == alone[i] by {
        assert(2048 * (i / 2048) + 2048 <= full);
        assert(sector_at(data.take(full), i / 2048) =~= sector_at(data, i / 2048));
    }
    assert(whole =~= alone);
}

/// Sector `s` of a decrypted run is sector `s` of the run, decrypted.
proof fn lemma_run_sector(
    regions: Seq<Region>,
    key: Seq<u8>,
    first: u64,
    data: Seq<u8>,
    s: int,
)
    requires
        0 <= s,
        2048 * s < data.len(),
    ensures
        sector_at(decrypted_run(regions, key, first, data), s) == decrypted_sector(
            regions,
            key,
            (first + s) as u64,
            sector_at(data, s),
        ),
{
    let done = sector_at(decrypted_run(regions, key, first, data), s);
    let alone = decrypted_sector(regions, key, (first + s) as u64, sector_at(data, s));
    assert(done.len() == alone.len());
    assert forall|k: int| 0 <= k < done.len() implies done[k] == alone[k] by {
        assert((2048 * s + k) / 2048 == s);
        assert((2048 * s + k) % 2048 == k);
    }
    assert(done =~= alone);
}

/// With one more sector of a run done, the bytes up to the end of that
/// sector are done.
proof fn lemma_sector_done(done: Seq<u8>, data: Seq<u8>, before: Seq<u8>, after: Seq<u8>, s: int)
    requires
        0 <= s,
        2048 * s < data.len(),
        done.len() == data.len(),
        before == done.take(2048 * s) + data.skip(2048 * s),
        after == before.subrange(0, 2048 * s) + sector_at(done, s) + before.subrange(
            2048 * s + sector_at(data, s).len(),
            data.len() as int,
        ),
    ensures
        after == done.take(2048 * s + sector_at(data, s).len()) + data.skip(
            2048 * s + sector_at(data, s).len(),
        ),
{
    let lo = 2048 * s;
    let hi = lo + sector_at(data, s).len();
    assert(sector_at(done, s).len() == hi - lo);
    assert(after =~= done.take(hi) + data.skip(hi));
}

/// Decrypts in place a run of sectors of which the first has index
/// `first_sector`. Each sector that is to be decrypted is decrypted by
/// itself; the others stay as they are.
///
/// Bytes behind the last whole sector are taken as one more sector, cut
/// short. If that one is to be decrypted and is not a whole number of cipher
/// blocks, the run is refused, with the sectors before it done.
pub fn decrypt_batch(regions: &[Region], key: &[u8; 16], first_sector: u64, data: &mut [u8]) -> (result:
    Result<(), CryptoError>)
    requires
        first_sector + old(data)@.len() / 2048 <= u64::MAX,
    ensures
        result is Err <==> run_refused(regions@, first_sector, old(data)@),
        result is Err ==> result == Err::<(), CryptoError>(CryptoError::PartialBlock),
        result is Ok ==> final(data)@ == decrypted_run(regions@, key@, first_sector, old(data)@),
        result is Err ==> final(data)@ == decrypted_run(
            regions@,
            key@,
            first_sector,
            old(data)@.take(whole_sectors(old(data)@.len() as int)),
        ) + old(data)@.skip(whole_sectors(old(data)@.len() as int)),
{
    let len = data.len();
    let ghost done = decrypted_run(regions@, key@, first_sector, old(data)@);
    let mut lo: usize = 0;
    let mut s: usize = 0;
    while lo < len
        invariant
            len == data@.len(),
            len == old(data)@.len(),
            lo <= len,
            lo == 2048 * s || lo == len,
            first_sector + len / 2048 <= u64::MAX,
            done == decrypted_run(regions@, key@, first_sector, old(data)@),
            lo == len && len % 2048 != 0 ==> !run_refused(regions@, first_sector, old(data)@),
            data@ == done.take(lo as int) + old(data)@.skip(lo as int),
        decreases len - lo,
    {
        let ghost before = data@;
        let size: usize = if len - lo >= SECTOR_SIZE {
            SECTOR_SIZE
        } else {
            len - lo
        };
        let index: u64 = first_sector + s as u64;
        assert(before.subrange(lo as int, lo + size) =~= sector_at(old(data)@, s as int));
        match decrypt_sector_at(regions, key, index, data, lo, size) {
            Ok(()) => {},
            Err(e) => {
                proof {
                    lemma_run_whole_sectors(regions@, key@, first_sector, old(data)@);
                }
                return Err(e);
            },
        }
        proof {
            lemma_run_sector(regions@, key@, first_sector, old(data)@, s as int);
            lemma_sector_done(done, old(data)@, before, data@, s as int);
        }
        lo = lo + size;
        s = s + 1;
    }
    assert(data@ =~= done);
    Ok(())
}

/// The path that the decrypted image of `file_path` is written to: the same
/// path with `_decrypted.iso` behind it.
pub fn output_path(file_path: &str) -> (path: String)
    ensures
        path@ == file_path@ + "_decrypted.iso"@,
{
    String::from_str(file_path).concat("_decrypted.iso")
}

/// A run of sectors that is read, decrypted and written as one piece: the
/// sectors from `start` up to but not including `end`.
#[derive(Debug, Clone, Copy, PartialEq, Eq, Structural)]
pub struct Batch {
    pub start: u64,
    pub end: u64,
}

/// Whether `batches` cut the sectors from 0 to `total` into pieces of `size`
/// sectors: they follow one another without gap or overlap from 0 to `total`,
/// none is empty, and all but the last hold exactly `size`.
pub open spec fn partitions(batches: Seq<Batch>, total: u64, size: u64) -> bool {
    &&& batches.len() == 0 <==> total == 0
    &&& batches.len() > 0 ==> batches[0].start == 0 && batches.last().end == total
    &&& forall|i: int|
        0 <= i < batches.len() ==> (#[trigger] batches[i]).start < batches[i].end && batches[i].end
            - batches[i].start <= size
    &&& forall|i: int|
        0 <= i < batches.len() - 1 ==> (#[trigger] batches[i]).end == batches[i + 1].start
            && batches[i].end - batches[i].start == size
}

/// The number of whole sectors in `size` bytes. Bytes behind the last whole
/// sector belong to none.
pub fn sector_count(size: u64) -> (sectors: u64)
    ensures
        sectors == size / 2048,
{
    size / 2048
}

/// Cuts the sectors from 0 to `total_sectors` into batches of `batch_sectors`
/// sectors, the last one shorter where the others leave less.
pub fn plan_batches(total_sectors: u64, batch_sectors: u64) -> (batches: Vec<Batch>)
    requires
        batch_sectors > 0,
    ensures
        partitions(batches@, total_sectors, batch_sectors),
{
    let mut batches: Vec<Batch> = Vec::new();
    let mut start: u64 = 0;
    while start < total_sectors
        invariant
            batch_sectors > 0,
            start <= total_sectors,
            batches@.len() == 0 <==> start == 0,
            batches@.len() > 0 ==> batches@[0].start == 0 && batches@.last().end == start,
            batches@.len() > 0 && start < total_sectors ==> batches@.last().end
                - batches@.last().start == batch_sectors,
            forall|i: int|
                0 <= i < batches@.len() ==> (#[trigger] batches@[i]).start < batches@[i].end
                    && batches@[i].end - batches@[i].start <= batch_sectors,
            forall|i: int|
                0 <= i < batches@.len() - 1 ==> (#[trigger] batches@[i]).end == batches@[i
                    + 1].start && batches@[i].end - batches@[i].start == batch_sectors,
        decreases total_sectors - start,
    {
        let end: u64 = if total_sectors - start <= batch_sectors {
            total_sectors
        } else {
            start + batch_sectors
        };
        batches.push(Batch { start, end });
        start = end;
    }
    batches
}

/// The bytes of `image` that the sectors of `batch` hold.
pub open spec fn batch_bytes(image: Seq<u8>, batch: Batch) -> Seq<u8> {
    image.subrange(2048 * batch.start, 2048 * batch.end)
}

/// What comes of decrypting the sectors of each of `batches` apart and
/// putting the results one behind the other.
pub open spec fn decrypted_in_batches(
    regions: Seq<Region>,
    key: Seq<u8>,
    image: Seq<u8>,
    batches: Seq<Batch>,
) -> Seq<u8>
    decreases batches.len(),
{
    if batches.len() == 0 {
        Seq::empty()
    } else {
        decrypted_in_batches(regions, key, image, batches.drop_last()) + decrypted_run(
            regions,
            key,
            batches.last().start,
            batch_bytes(image, batches.last()),
        )
    }
}

/// Every batch of a partition ends at or before the total.
proof fn lemma_batches_bounded(batches: Seq<Batch>, total: u64, size: u64, i: int)
    requires
        partitions(batches, total, size),
        0 <= i < batches.len(),
    ensures
        batches[i].start < batches[i].end <= total,
    decreases batches.len() - i,
{
    if i < batches.len() - 1 {
        lemma_batches_bounded(batches, total, size, i + 1);
        assert(batches[i + 1].start < batches[i + 1].end);
    }
}

/// The sectors up to byte `hi` of an image give, decrypted, what those up to
/// byte `lo` give, followed by what those from `lo` to `hi` give.
proof fn lemma_run_append(regions: Seq<Region>, key: Seq<u8>, image: Seq<u8>, lo: int, hi: int)
    requires
        0 <= lo <= hi <= image.len(),
        lo % 2048 == 0,
        hi / 2048 <= u64::MAX,
    ensures
        decrypted_run(regions, key, 0, image.take(hi)) == decrypted_run(
            regions,
            key,
            0,
            image.take(lo),
        ) + decrypted_run(regions, key, (lo / 2048) as u64, image.subrange(lo, hi)),
{
    lemma_run_split(regions, key, 0, image.take(hi), lo);
    assert(image.take(hi).take(lo) =~= image.take(lo));
    assert(image.take(hi).skip(lo) =~= image.subrange(lo, hi));
}

/// The sector at which the first `k` batches end.
spec fn covered(batches: Seq<Batch>, k: int) -> int {
    if k == 0 {
        0
    } else {
        batches[k - 1].end as int
    }
}

/// The first `k` batches of a partition, decrypted apart, give what the
/// sectors they cover give in one piece.
proof fn lemma_batches_cover_prefix(
    regions: Seq<Region>,
    key: Seq<u8>,
    image: Seq<u8>,
    batches: Seq<Batch>,
    total: u64,
    size: u64,
    k: int,
)
    requires
        partitions(batches, total, size),
        2048 * total <= image.len(),
        0 <= k <= batches.len(),
    ensures
        decrypted_in_batches(regions, key, image, batches.take(k)) == decrypted_run(
            regions,
            key,
            0,
            image.take(2048 * covered(batches, k)),
        ),
    decreases k,
{
    if k == 0 {
        assert(decrypted_run(regions, key, 0, image.take(0)) =~= Seq::<u8>::empty());
    } else {
        let batch = batches[k - 1];
        lemma_batches_bounded(batches, total, size, k - 1);
        lemma_batches_cover_prefix(regions, key, image, batches, total, size, k - 1);
        assert(batches.take(k).drop_last() =~= batches.take(k - 1));
        assert(batches.take(k).last() == batch);
        assert(covered(batches, k - 1) == batch.start) by {
            if k > 1 {
                assert(batches[k - 2].end == batches[k - 2 + 1].start);
            }
        }
        let lo = 2048 * batch.start;
        let hi = 2048 * batch.end;
        lemma_run_append(regions, key, image, lo, hi);
        assert(lo / 2048 == batch.start);
        assert(image.subrange(lo, hi) == batch_bytes(image, batch));
    }
}

/// Cutting an image into batches and decrypting each apart gives the
/// decrypted image, whatever the size of the batches.
pub proof fn lemma_batches_give_image(
    regions: Seq<Region>,
    key: Seq<u8>,
    image: Seq<u8>,
    batches: Seq<Batch>,
    size: u64,
)
    requires
        image.len() / 2048 <= u64::MAX,
        partitions(batches, (image.len() / 2048) as u64, size),
    ensures
        decrypted_in_batches(regions, key, image, batches) == decrypted_image(regions, key, image),
{
    let total = (image.len() / 2048) as u64;
    lemma_batches_cover_prefix(regions, key, image, batches, total, size, batches.len() as int);
    assert(batches.take(batches.len() as int) =~= batches);
    assert(2048 * covered(batches, batches.len() as int) == whole_sectors(image.len() as int));
}

/// Two ways of cutting one image into batches give the same bytes.
pub proof fn lemma_batch_size_does_not_show(
    regions: Seq<Region>,
    key: Seq<u8>,
    image: Seq<u8>,
    first: Seq<Batch>,
    first_size: u64,
    second: Seq<Batch>,
    second_size: u64,
)
    requires
        image.len() / 2048 <= u64::MAX,
        partitions(first, (image.len() / 2048) as u64, first_size),
        partitions(second, (image.len() / 2048) as u64, second_size),
    ensures
        decrypted_in_batches(regions, key, image, first) == decrypted_in_batches(
            regions,
            key,
            image,
            second,
        ),
{
    lemma_batches_give_image(regions, key, image, first, first_size);
    lemma_batches_give_image(regions, key, image, second, second_size);
}

/// Why an image was not decrypted.
#[derive(Debug, Clone, Copy, PartialEq, Eq, Structural)]
pub enum EngineError {
    /// The key text is no key.
    Key(KeyError),
    /// The image's header holds no region table.
    Format(FormatError),
}

/// What decryption makes of an image: its whole sectors, counted from the
/// image's first byte, each decrypted by itself. Bytes behind the last whole
/// sector are left out.
pub open spec fn decrypted_image(regions: Seq<Region>, key: Seq<u8>, image: Seq<u8>) -> Seq<u8> {
    decrypted_run(regions, key, 0, image.take(whole_sectors(image.len() as int)))
}

/// Takes the sectors of `batch` out of `image`, decrypts them, and puts them
/// behind `plain`.
fn append_decrypted(
    regions: &[Region],
    key: &[u8; 16],
    image: &[u8],
    batch: Batch,
    plain: &mut Vec<u8>,
)
    requires
        batch.start <= batch.end,
        2048 * batch.end <= image@.len(),
    ensures
        final(plain)@ == old(plain)@ + decrypted_run(
            regions@,
            key@,
            batch.start,
            batch_bytes(image@, batch),
        ),
{
    let size = image.len();
    let lo: usize = (batch.start as usize) * SECTOR_SIZE;
    let hi: usize = (batch.end as usize) * SECTOR_SIZE;
    let mut sectors = slice_to_vec(slice_subrange(image, lo, hi));
    let done = decrypt_batch(regions, key, batch.start, sectors.as_mut_slice());
    assert(done is Ok) by {
        assert(batch_bytes(image@, batch).len() % 16 == 0);
    }
    plain.append(&mut sectors);
}

/// Decrypts an image held in memory, batch by batch, under `key`.
///
/// The image's header gives the regions; every whole sector of the image,
/// those of the header too, is then taken by its index, counted from the
/// image's first byte. The result does not depend on `batch_sectors`.
pub fn decrypt_image(image: &[u8], key: &[u8; 16], batch_sectors: usize) -> (result: Result<
    Vec<u8>,
    FormatError,
>)
    requires
        batch_sectors > 0,
    ensures
        match result {
            Ok(plain) => {
                &&& header_error(image@) is None
                &&& plain@.len() == image@.len() - image@.len() % 2048
                &&& plain@ == decrypted_image(header_regions(image@), key@, image@)
            },
            Err(e) => header_error(image@) == Some(e),
        },
{
    let regions = match extract_regions(image) {
        Ok(regions) => regions,
        Err(e) => {
            return Err(e);
        },
    };
    let total: usize = image.len() / SECTOR_SIZE;
    let batches = plan_batches(total as u64, batch_sectors as u64);
    let mut plain: Vec<u8> = Vec::with_capacity(total * SECTOR_SIZE);
    let mut b: usize = 0;
    while b < batches.len()
        invariant
            total == image@.len() / 2048,
            partitions(batches@, total as u64, batch_sectors as u64),
            b <= batches@.len(),
            plain@ == decrypted_in_batches(regions@, key@, image@, batches@.take(b as int)),
        decreases batches@.len() - b,
    {
        let batch = batches[b];
        proof {
            lemma_batches_bounded(batches@, total as u64, batch_sectors as u64, b as int);
            assert(batches@.take(b + 1).drop_last() =~= batches@.take(b as int));
            assert(batches@.take(b + 1).last() == batch);
        }
        append_decrypted(regions.as_slice(), key, image, batch, &mut plain);
        b = b + 1;
    }
    proof {
        assert(batches@.take(b as int) =~= batches@);
        lemma_batches_give_image(regions@, key@, image@, batches@, batch_sectors as u64);
    }
    Ok(plain)
}

/// Decrypts an image held in memory under the key that `decryption_key`
/// spells.
///
/// The key is looked at first, then the image's header.
pub fn decrypt(image: &[u8], decryption_key: &str, batch_sectors: usize) -> (result: Result<
    Vec<u8>,
    EngineError,
>)
    requires
        batch_sectors > 0,
    ensures
        match result {
            Ok(plain) => {
                &&& key_error(decryption_key@) is None
                &&& header_error(image@) is None
                &&& plain@.len() == image@.len() - image@.len() % 2048
                &&& plain@ == decrypted_image(
                    header_regions(image@),
                    key_bytes(decryption_key@),
                    image@,
                )
            },
            Err(EngineError::Key(e)) => key_error(decryption_key@) == Some(e),
            Err(EngineError::Format(e)) => key_error(decryption_key@) is None && header_error(
                image@,
            ) == Some(e),
        },
{
    let key = match decode_key(decryption_key) {
        Ok(key) => key,
        Err(e) => {
            return Err(EngineError::Key(e));
        },
    };
    match decrypt_image(image, &key, batch_sectors) {
        Ok(plain) => Ok(plain),
        Err(e) => Err(EngineError::Format(e)),
    }
}

} // verus!
