//! Whether a snapshot on the medium is valid, and which one is the newest.

use vstd::prelude::*;

use super::Error;
use super::format::{BlockDevice, Geometry, HEADER_SIZE, MAX_WEAR_BLOCKS, MAX_WEAR_TABLE_SIZE, RecordHeader, SnapshotHeader, crc32_mpeg2, crc_of, decode_wear_table, generation_is_newer, lemma_decoded_at, law_newer_is_antisymmetric, media_shape, newer, table_len, u16_at, wear_table_size};
use super::names::{parent_name, parent_of, same_bytes};
use super::records::{Record, crc_segment_range, find_record, header_at, holds, lemma_base, lemma_entry_at, lemma_entry_found, lemma_entry_record, lemma_header_facts, lemma_held, name_at, range_is_zero, read_record, region, snapshot_entries};
use super::segment::{geometry_ok, honest, lemma_seg_len, on_device, seg, seg_len, segment_read_front, untouched};
use super::tree::{Entry, distinct, entry_len, first_entry, has_dir, lemma_position, lemma_record_bytes_len, offset_of, parse, position, rooted, serialize};

verus! {

/// `rest` behind `done`.
spec fn join(done: Seq<Entry>, rest: Option<Seq<Entry>>) -> Option<Seq<Entry>> {
    match rest {
        Some(r) => Some(done + r),
        None => None,
    }
}

/// One more entry has been read.
proof fn lemma_parse_step(g: Seq<u8>, off: int, left: nat, done: Seq<Entry>, e: Entry)
    requires
        0 <= off <= g.len(),
        left > 0,
        first_entry(g.skip(off)) == Some(e),
        off + entry_len(e) <= g.len(),
        entry_len(e) >= 0,
    ensures
        join(done, parse(g.skip(off), left)) == join(
            done.push(e),
            parse(g.skip(off + entry_len(e)), (left - 1) as nat),
        ),
{
    assert(g.skip(off).skip(entry_len(e)) =~= g.skip(off + entry_len(e)));
    let rest = parse(g.skip(off + entry_len(e)), (left - 1) as nat);
    if rest is Some {
        assert(done + (seq![e] + rest->0) =~= done.push(e) + rest->0);
    }
}

/// Whether the data of a record has its CRC and is followed by zeros.
fn record_intact<D: BlockDevice>(
    device: &mut D,
    snapshot: &SnapshotHeader,
    record: &Record,
    Ghost(rh): Ghost<RecordHeader>,
    Ghost(name): Ghost<Seq<u8>>,
) -> (r: Result<bool, Error<D::Error>>)
    requires
        on_device(*old(device), *snapshot),
        record.is_at(rh, record.record_offset as int, name),
        header_at(seg(old(device).media(), *snapshot), *snapshot, record.record_offset as int)
            == Some(rh),
    ensures
        untouched(*old(device), *final(device)),
        honest(r, old(device).faults(), final(device).faults()),
        r is Err ==> r->Err_0 is Corrupt || r->Err_0 is Device,
        ({
            let s = seg(old(device).media(), *snapshot);
            let at = snapshot.base() + record.record_offset;
            let data = at + 20 + rh.name_len;
            at + rh.record_len <= seg_len(*snapshot) ==> {
                &&& r is Err ==> r->Err_0 is Device
                &&& r is Ok ==> r->Ok_0 == (crc_of(s.subrange(data, data + rh.data_len))
                    == rh.data_crc && forall|i: int|
                    data + rh.data_len <= i < at + rh.record_len ==> s[i] == 0)
            }
        }),
{
    let ghost h = *snapshot;
    let ghost s = seg(device.media(), h);
    proof {
        lemma_header_facts(s, h, record.record_offset as int);
        lemma_seg_len(h);
        lemma_base(h);
    }
    let base: u32 = snapshot.records_base();
    let data_logical: u32 = match base.checked_add(record.data_offset) {
        Some(logical) => logical,
        None => return Err(Error::Corrupt),
    };
    let data_crc: u32 = match crc_segment_range(device, snapshot, data_logical, record.data_len) {
        Ok(crc) => crc,
        Err(error) => return Err(error),
    };
    proof {
        if rh.data_len == 0 && data_logical <= s.len() {
            assert(s.subrange(data_logical as int, data_logical as int) =~= Seq::<u8>::empty());
        }
    }
    if data_crc != record.data_crc {
        return Ok(false);
    }
    let data_end: u32 = record.data_offset + record.data_len;
    let record_end: u32 = record.record_offset + record.record_len;
    let padding: u32 = record_end - data_end;
    let padding_logical: u32 = match base.checked_add(data_end) {
        Some(logical) => logical,
        None => return Err(Error::Corrupt),
    };
    range_is_zero(device, snapshot, padding_logical, padding)
}

/// Whether an earlier record has the same name.
fn name_seen<D: BlockDevice>(
    device: &mut D,
    snapshot: &SnapshotHeader,
    offsets: &[u32; 32],
    name_hashes: &[u32; 32],
    index: usize,
    record: &Record,
    name_hash: u32,
    Ghost(done): Ghost<Seq<Entry>>,
    Ghost(doomed): Ghost<bool>,
) -> (r: Result<bool, Error<D::Error>>)
    requires
        on_device(*old(device), *snapshot),
        index <= 32,
        record.name_len <= 63,
        name_hash == crc_of(record.name@.take(record.name_len as int)),
        !doomed ==> done.len() == index && forall|j: int|
            0 <= j < index ==> 0 <= #[trigger] offsets@[j] <= region(
                seg(old(device).media(), *snapshot),
                *snapshot,
            ).len() && first_entry(
                region(seg(old(device).media(), *snapshot), *snapshot).skip(offsets@[j] as int),
            ) == Some(done[j]) && name_hashes@[j] == crc_of(done[j].name),
    ensures
        untouched(*old(device), *final(device)),
        honest(r, old(device).faults(), final(device).faults()),
        r is Err ==> r->Err_0 is Corrupt || r->Err_0 is Device,
        !doomed ==> (r is Err ==> r->Err_0 is Device) && (r is Ok ==> r->Ok_0 == (exists|j: int|
            0 <= j < index && (#[trigger] done[j]).name == record.name@.take(
                record.name_len as int,
            ))),
{
    let ghost h = *snapshot;
    let ghost d0 = *device;
    let ghost s = seg(d0.media(), h);
    let ghost name = record.name@.take(record.name_len as int);
    let mut previous: usize = 0;
    while previous < index
        invariant
            h == *snapshot,
            d0 == *old(device),
            on_device(d0, h),
            untouched(d0, *device),
            device.faults() == d0.faults(),
            s == seg(d0.media(), h),
            previous <= index <= 32,
            record.name_len <= 63,
            name == record.name@.take(record.name_len as int),
            name_hash == crc_of(name),
            !doomed ==> done.len() == index && forall|j: int|
                0 <= j < index ==> 0 <= #[trigger] offsets@[j] <= region(s, h).len()
                    && first_entry(region(s, h).skip(offsets@[j] as int)) == Some(done[j])
                    && name_hashes@[j] == crc_of(done[j].name),
            !doomed ==> forall|j: int| 0 <= j < previous ==> (#[trigger] done[j]).name != name,
        decreases index - previous,
    {
        if name_hashes[previous] == name_hash {
            proof {
                if !doomed {
                    lemma_entry_at(s, h, offsets@[previous as int] as int, done[previous as int]);
                    lemma_record_bytes_len(done[previous as int]);
                }
            }
            let prior = match read_record(device, snapshot, offsets[previous]) {
                Ok(prior) => prior,
                Err(error) => return Err(error),
            };
            if same_bytes(prior.name_bytes(), record.name_bytes()) {
                assert(!doomed ==> done[previous as int].name == name);
                return Ok(true);
            }
        }
        previous += 1;
    }
    Ok(false)
}

/// The state of reading the records: either everything so far was in order, or
/// the list can no longer come out right.
spec fn in_progress(
    g: Seq<u8>,
    n: nat,
    done: Seq<Entry>,
    doomed: bool,
    off: int,
    index: int,
) -> bool {
    if doomed {
        parse(g, n) is None && off > g.len()
    } else {
        &&& done.len() == index
        &&& distinct(done)
        &&& 0 <= off <= g.len()
        &&& off == serialize(done).len()
        &&& parse(g, n) == join(done, parse(g.skip(off), (n - index) as nat))
    }
}

proof fn lemma_offset_push(done: Seq<Entry>, e: Entry)
    requires
        super::tree::entry_ok(e),
    ensures
        serialize(done.push(e)).len() == serialize(done).len() + entry_len(e),
        forall|j: int| 0 <= j <= done.len() ==> #[trigger] offset_of(done.push(e), j) == offset_of(
            done,
            j,
        ),
        offset_of(done.push(e), done.len() as int) == serialize(done).len(),
{
    lemma_record_bytes_len(e);
    assert(done.push(e).drop_last() =~= done);
    assert forall|j: int| 0 <= j <= done.len() implies #[trigger] offset_of(done.push(e), j)
        == offset_of(done, j) by {
        assert(done.push(e).take(j) =~= done.take(j));
    }
    assert(done.take(done.len() as int) =~= done);
}

/// Read all records, and check that they are whole and that no name occurs
/// twice.
#[verifier::rlimit(40)]
fn check_records<D: BlockDevice>(
    device: &mut D,
    snapshot: &SnapshotHeader,
    offsets: &mut [u32; 32],
) -> (r: Result<Ghost<Seq<Entry>>, Error<D::Error>>)
    requires
        on_device(*old(device), *snapshot),
    ensures
        untouched(*old(device), *final(device)),
        honest(r, old(device).faults(), final(device).faults()),
        final(device).faults() == old(device).faults() ==> ({
            let parsed = parse(
                region(seg(old(device).media(), *snapshot), *snapshot),
                snapshot.file_count as nat,
            );
            if parsed is Some && distinct(parsed->0) {
                &&& r is Ok && r->Ok_0@ == parsed->0
                &&& forall|j: int|
                    0 <= j < snapshot.file_count ==> #[trigger] final(offsets)@[j] == offset_of(
                        parsed->0,
                        j,
                    )
            } else {
                r is Err && r->Err_0 is Corrupt
            }
        }),
{
    let ghost h = *snapshot;
    let ghost d0 = *device;
    let ghost s = seg(d0.media(), h);
    let ghost g = region(s, h);
    let ghost n = h.file_count as nat;
    let ghost mut done: Seq<Entry> = Seq::empty();
    let ghost mut doomed: bool = false;
    proof {
        lemma_base(h);
        lemma_seg_len(h);
        assert(g.len() == h.records());
        assert(g.skip(0) =~= g);
        let p = parse(g, n);
        if p is Some {
            assert(Seq::<Entry>::empty() + p->0 =~= p->0);
        }
    }
    let mut name_hashes = [0u32; 32];
    let mut offset: u32 = 0;
    let mut index: usize = 0;
    while index < snapshot.file_count as usize
        invariant
            h == *snapshot,
            d0 == *old(device),
            on_device(d0, h),
            untouched(d0, *device),
            device.faults() == d0.faults(),
            s == seg(d0.media(), h),
            g == region(s, h),
            g.len() == h.records(),
            n == h.file_count,
            n <= 32,
            index <= n,
            in_progress(g, n, done, doomed, offset as int, index as int),
            !doomed ==> forall|j: int|
                0 <= j < index ==> 0 <= #[trigger] offsets@[j] <= g.len() && first_entry(
                    g.skip(offsets@[j] as int),
                ) == Some(done[j]) && name_hashes@[j] == crc_of(done[j].name) && offsets@[j]
                    == offset_of(done, j),
        decreases n - index,
    {
        let ghost off = offset as int;
        proof {
            if !doomed && first_entry(g.skip(off)) is Some {
                lemma_entry_at(s, h, off, first_entry(g.skip(off))->0);
                lemma_record_bytes_len(first_entry(g.skip(off))->0);
            }
        }
        let record = match read_record(device, snapshot, offset) {
            Ok(record) => record,
            Err(error) => {
                return Err(error);
            },
        };
        let ghost rh = header_at(s, h, off)->0;
        let ghost name = name_at(s, h, off, rh.name_len as int);
        let name_hash: u32 = crc32_mpeg2(record.name_bytes());
        match name_seen(
            device,
            snapshot,
            offsets,
            &name_hashes,
            index,
            &record,
            name_hash,
            Ghost(done),
            Ghost(doomed),
        ) {
            Ok(true) => {
                proof {
                    if !doomed && parse(g, n) is Some {
                        let all = parse(g, n)->0;
                        let rest = parse(g.skip(off), (n - index) as nat)->0;
                        let j = choose|j: int| 0 <= j < index && (#[trigger] done[j]).name == name;
                        assert(all == done + rest);
                        assert(all[j] == done[j]);
                        assert(all[index as int] == rest[0]);
                        assert(rest[0] == first_entry(g.skip(off))->0);
                        assert(all[j].name == all[index as int].name);
                        assert(!distinct(all));
                    }
                }
                return Err(Error::Corrupt);
            },
            Ok(false) => {},
            Err(error) => return Err(error),
        }
        match record_intact(device, snapshot, &record, Ghost(rh), Ghost(name)) {
            Ok(true) => {},
            Ok(false) => {
                return Err(Error::Corrupt);
            },
            Err(error) => return Err(error),
        }
        proof {
            lemma_header_facts(s, h, off);
        }
        let record_end: u32 = record.record_offset + record.record_len;
        offsets[index] = offset;
        name_hashes[index] = name_hash;
        proof {
            if !doomed {
                if record_end <= g.len() {
                    let e = lemma_entry_found(s, h, off, rh);
                    lemma_entry_at(s, h, off, e);
                    lemma_record_bytes_len(e);
                    lemma_parse_step(g, off, (n - index) as nat, done, e);
                    lemma_offset_push(done, e);
                    assert(distinct(done.push(e)));
                    done = done.push(e);
                } else {
                    doomed = true;
                }
            }
        }
        offset = record_end;
        index += 1;
    }
    if offset != snapshot.records_len() {
        proof {
            if !doomed {
                assert(parse(g.skip(offset as int), 0) is None);
            }
        }
        return Err(Error::Corrupt);
    }
    proof {
        assert(!doomed);
        assert(parse(g.skip(offset as int), 0) == Some(Seq::<Entry>::empty()));
        assert(done + Seq::<Entry>::empty() =~= done);
    }
    Ok(Ghost(done))
}

/// Check that every entry lies in a directory of the snapshot.
fn check_parents<D: BlockDevice>(
    device: &mut D,
    snapshot: &SnapshotHeader,
    offsets: &[u32; 32],
    Ghost(es): Ghost<Seq<Entry>>,
) -> (r: Result<(), Error<D::Error>>)
    requires
        on_device(*old(device), *snapshot),
        holds(old(device).media(), *snapshot, es),
        distinct(es),
        forall|j: int| 0 <= j < snapshot.file_count ==> #[trigger] offsets@[j] == offset_of(es, j),
    ensures
        untouched(*old(device), *final(device)),
        honest(r, old(device).faults(), final(device).faults()),
        final(device).faults() == old(device).faults() ==> if rooted(es) {
            r is Ok
        } else {
            r is Err && r->Err_0 is Corrupt
        },
{
    let ghost h = *snapshot;
    let ghost d0 = *device;
    proof {
        lemma_held(d0.media(), h, es);
    }
    let mut child: usize = 0;
    while child < snapshot.file_count as usize
        invariant
            h == *snapshot,
            d0 == *old(device),
            on_device(d0, h),
            holds(d0.media(), h, es),
            distinct(es),
            untouched(d0, *device),
            device.faults() == d0.faults(),
            es.len() == h.file_count,
            h.file_count <= 32,
            child <= es.len(),
            forall|j: int| 0 <= j < h.file_count ==> #[trigger] offsets@[j] == offset_of(es, j),
            forall|i: int|
                0 <= i < child && parent_of((#[trigger] es[i]).name) is Some ==> has_dir(
                    es,
                    parent_of(es[i].name)->0,
                ),
        decreases h.file_count - child,
    {
        proof {
            lemma_entry_record(d0.media(), h, es, child as int);
        }
        let record = match read_record(device, snapshot, offsets[child]) {
            Ok(record) => record,
            Err(error) => return Err(error),
        };
        match parent_name(record.name_bytes()) {
            Some(parent) => {
                let found = match find_record(device, snapshot, parent, Ghost(es)) {
                    Ok(found) => found,
                    Err(error) => return Err(error),
                };
                proof {
                    assert(parent_of(es[child as int].name) == Some(parent@));
                    if has_dir(es, parent@) {
                        let k = choose|k: int|
                            0 <= k < es.len() && (#[trigger] es[k]).name == parent@
                                && es[k].directory;
                        lemma_position(es, k);
                    }
                }
                match found {
                    Some(entry) => {
                        if !entry.is_directory() {
                            return Err(Error::Corrupt);
                        }
                        assert(es[position(es, parent@)].directory);
                    },
                    None => return Err(Error::Corrupt),
                }
            },
            None => {},
        }
        child += 1;
    }
    Ok(())
}

/// Check a snapshot completely: its header, the CRC of its payload, each of its
/// records, and that they form a tree.
pub(crate) fn validate_snapshot<D: BlockDevice>(
    device: &mut D,
    snapshot: &SnapshotHeader,
) -> (r: Result<(), Error<D::Error>>)
    requires
        snapshot.error() is None ==> on_device(*old(device), *snapshot),
    ensures
        untouched(*old(device), *final(device)),
        honest(r, old(device).faults(), final(device).faults()),
        snapshot.error() is Some ==> r == Err::<(), Error<D::Error>>(Error::Corrupt),
        snapshot.error() is None && final(device).faults() == old(device).faults()
            ==> if snapshot_entries(seg(old(device).media(), *snapshot), *snapshot) is Some {
            r is Ok
        } else {
            r is Err && r->Err_0 is Corrupt
        },
{
    reveal(snapshot_entries);
    let ghost h = *snapshot;
    let ghost d0 = *device;
    match snapshot.validate() {
        Ok(()) => {},
        Err(_) => return Err(Error::Corrupt),
    }
    proof {
        lemma_seg_len(h);
    }
    let payload_crc: u32 = match crc_segment_range(device, snapshot, 64, snapshot.payload_len) {
        Ok(crc) => crc,
        Err(error) => return Err(error),
    };
    if payload_crc != snapshot.payload_crc {
        return Err(Error::Corrupt);
    }
    let mut offsets = [0u32; 32];
    let entries = match check_records(device, snapshot, &mut offsets) {
        Ok(entries) => entries,
        Err(error) => return Err(error),
    };
    assert(holds(d0.media(), h, entries@)) by {
        reveal(holds);
    }
    check_parents(device, snapshot, &offsets, entries)
}

// ---------------------------------------------------------------------------
// The newest snapshot
// ---------------------------------------------------------------------------

/// A committed and valid snapshot starts at block `b`.
pub open spec fn snapshot_at(media: Seq<Seq<u8>>, g: Geometry, b: int) -> Option<SnapshotHeader> {
    match SnapshotHeader::decoded_at(media[b].take(64), b as u32, g) {
        Ok(h) => if snapshot_entries(seg(media, h), h) is Some {
            Some(h)
        } else {
            None
        },
        Err(_) => None,
    }
}

/// The snapshot that a scan of the first `n` blocks settles on: each later one
/// that is newer takes the place of the one before.
pub open spec fn scanned(media: Seq<Seq<u8>>, g: Geometry, n: int) -> Option<SnapshotHeader>
    decreases n,
{
    if n <= 0 {
        None
    } else {
        let before = scanned(media, g, n - 1);
        match snapshot_at(media, g, n - 1) {
            Some(h) => if before is None || newer(h.generation, before->0.generation) {
                Some(h)
            } else {
                before
            },
            None => before,
        }
    }
}

pub(crate) fn scan_active<D: BlockDevice>(device: &mut D, geometry: Geometry) -> (r: Result<
    Option<SnapshotHeader>,
    Error<D::Error>,
>)
    requires
        geometry == old(device).geom(),
        geometry_ok(geometry),
        media_shape(old(device).media(), geometry),
    ensures
        untouched(*old(device), *final(device)),
        honest(r, old(device).faults(), final(device).faults()),
        final(device).faults() == old(device).faults() ==> r == Ok::<
            Option<SnapshotHeader>,
            Error<D::Error>,
        >(scanned(old(device).media(), geometry, geometry.block_count as int)),
{
    let ghost d0 = *device;
    let ghost media = d0.media();
    let mut newest: Option<SnapshotHeader> = None;
    let mut block: u32 = 0;
    while block < geometry.block_count
        invariant
            d0 == *old(device),
            media == d0.media(),
            geometry == d0.geom(),
            geometry_ok(geometry),
            media_shape(media, geometry),
            untouched(d0, *device),
            device.faults() == d0.faults(),
            block <= geometry.block_count,
            newest == scanned(media, geometry, block as int),
        decreases geometry.block_count - block,
    {
        let mut encoded = [0u8; HEADER_SIZE];
        match device.read(block, 0, &mut encoded) {
            Ok(()) => {},
            Err(error) => return Err(Error::Device(error)),
        }
        assert(media[block as int].subrange(0, 64) =~= media[block as int].take(64));
        match SnapshotHeader::decode_at(&encoded, block, geometry) {
            Ok(candidate) => {
                proof {
                    lemma_decoded_at(media[block as int].take(64), block, geometry);
                }
                match validate_snapshot(device, &candidate) {
                    Ok(()) => {
                        let replace: bool = match newest {
                            Some(current) => generation_is_newer(
                                candidate.generation,
                                current.generation,
                            ),
                            None => true,
                        };
                        if replace {
                            newest = Some(candidate);
                        }
                    },
                    Err(Error::Corrupt) => {},
                    Err(error) => return Err(error),
                }
            },
            Err(_) => {},
        }
        block += 1;
    }
    Ok(newest)
}

/// A snapshot that is newer than every other valid one is the one that a scan
/// finds.
pub proof fn law_newest_is_found(media: Seq<Seq<u8>>, g: Geometry, active: SnapshotHeader)
    requires
        0 <= active.start_block < g.block_count,
        snapshot_at(media, g, active.start_block as int) == Some(active),
        forall|b: int|
            0 <= b < g.block_count && b != active.start_block && (#[trigger] snapshot_at(
                media,
                g,
                b,
            )) is Some ==> newer(active.generation, snapshot_at(media, g, b)->0.generation),
    ensures
        scanned(media, g, g.block_count as int) == Some(active),
{
    lemma_scan_prefix(media, g, active, g.block_count as int);
}

proof fn lemma_scan_prefix(media: Seq<Seq<u8>>, g: Geometry, active: SnapshotHeader, n: int)
    requires
        0 <= n <= g.block_count,
        0 <= active.start_block < g.block_count,
        snapshot_at(media, g, active.start_block as int) == Some(active),
        forall|b: int|
            0 <= b < g.block_count && b != active.start_block && (#[trigger] snapshot_at(
                media,
                g,
                b,
            )) is Some ==> newer(active.generation, snapshot_at(media, g, b)->0.generation),
    ensures
        n > active.start_block ==> scanned(media, g, n) == Some(active),
        n <= active.start_block && scanned(media, g, n) is Some ==> newer(
            active.generation,
            scanned(media, g, n)->0.generation,
        ),
    decreases n,
{
    if n > 0 {
        lemma_scan_prefix(media, g, active, n - 1);
        let at = snapshot_at(media, g, n - 1);
        if at is Some {
            law_newer_is_antisymmetric(active.generation, at->0.generation);
        }
    }
}

/// The erase counters that a snapshot carries.
pub open spec fn table_at(s: Seq<u8>, wear: Seq<u16>, block_count: int) -> bool {
    forall|b: int| 0 <= b < block_count ==> #[trigger] wear[b] == u16_at(s, 64 + 2 * b)
}

/// Read the per-block erase table of a snapshot.
///
/// The table is the first bytes of the payload, so its integrity is covered by
/// the payload CRC that is validated during mount.
pub(crate) fn read_wear_table<D: BlockDevice>(
    device: &mut D,
    snapshot: &SnapshotHeader,
) -> (r: Result<[u16; MAX_WEAR_BLOCKS], Error<D::Error>>)
    requires
        on_device(*old(device), *snapshot),
    ensures
        untouched(*old(device), *final(device)),
        honest(r, old(device).faults(), final(device).faults()),
        if 64 + table_len(snapshot.block_count as int) > seg_len(*snapshot) {
            r is Err && r->Err_0 is Corrupt
        } else {
            &&& r is Err ==> r->Err_0 is Device
            &&& r is Ok ==> table_at(
                seg(old(device).media(), *snapshot),
                r->Ok_0@,
                snapshot.block_count as int,
            )
            &&& r is Ok ==> forall|b: int|
                snapshot.block_count <= b < 64 ==> #[trigger] r->Ok_0@[b] == 0
        },
{
    let ghost h = *snapshot;
    let ghost s = seg(device.media(), h);
    proof {
        lemma_base(h);
        lemma_seg_len(h);
        super::tree::lemma_pad4(2 * h.block_count);
    }
    let size: usize = wear_table_size(snapshot.block_count) as usize;
    let mut bytes = [0u8; MAX_WEAR_TABLE_SIZE];
    match segment_read_front(device, snapshot, 64, &mut bytes, size) {
        Ok(()) => {},
        Err(error) => return Err(error),
    }
    let mut wear = [0u16; MAX_WEAR_BLOCKS];
    match decode_wear_table(&bytes, snapshot.block_count, &mut wear) {
        Ok(()) => {},
        Err(_) => return Err(Error::Corrupt),
    }
    proof {
        let t = s.subrange(64, 64 + size);
        assert forall|b: int| 0 <= b < h.block_count implies #[trigger] wear@[b] == u16_at(
            s,
            64 + 2 * b,
        ) by {
            assert(bytes@.take(size as int)[2 * b] == bytes@[2 * b]);
            assert(bytes@.take(size as int)[2 * b + 1] == bytes@[2 * b + 1]);
            assert(t[2 * b] == s[64 + 2 * b]);
            assert(t[2 * b + 1] == s[64 + 2 * b + 1]);
        }
    }
    Ok(wear)
}

} // verus!
