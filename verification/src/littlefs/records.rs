//! Reading a snapshot: its records, its wear table, and whether it is valid.

use vstd::prelude::*;

use super::Error;
use super::format::{BlockDevice, CRC32_MPEG2_INITIAL, Crc32Mpeg2, RECORD_FLAG_DIRECTORY, RecordHeader, SnapshotHeader, crc_from, crc_of, law_crc_incremental, media_shape, record_len_of, table_len};
use super::names::{descendant, is_descendant, parent_name, parent_of, path_ok, same_bytes, validate_path};
use super::segment::{geometry_ok, honest, lemma_seg_len, on_device, seg, seg_len, segment_read, segment_read_front, untouched};
use super::tree::{Entry, all_ok, contains_name, data_end, distinct, entry_header, entry_len, entry_ok, first_entry, has_below, law_serialize_inverts_parse, lemma_first_entry_header, lemma_offset, lemma_position, lemma_pad4, lemma_record_bytes_len, lemma_record_is_entry, lookup, name_end, offset_of, parse, position, serialize, tree_ok};
use super::{EntryKind, FileInfo};

verus! {

/// Number of bytes that are read at a time.
pub const COPY_BUFFER_SIZE: usize = 64;

/// The part of the segment that holds the records.
pub open spec fn region(s: Seq<u8>, h: SnapshotHeader) -> Seq<u8> {
    if h.base() + h.records() <= s.len() {
        s.subrange(h.base(), h.base() + h.records())
    } else {
        Seq::empty()
    }
}

/// The entries of a snapshot whose segment holds `s`, if it is valid: the
/// payload has the CRC that the header says, it is made of whole records, and
/// they form a tree.
#[verifier::opaque]
pub open spec fn snapshot_entries(s: Seq<u8>, h: SnapshotHeader) -> Option<Seq<Entry>> {
    if crc_of(s.subrange(64, 64 + h.payload_len)) != h.payload_crc {
        None
    } else {
        match parse(region(s, h), h.file_count as nat) {
            Some(es) => if tree_ok(es) {
                Some(es)
            } else {
                None
            },
            None => None,
        }
    }
}

/// The records of the snapshot on the medium are those of `es`.
#[verifier::opaque]
pub open spec fn holds(media: Seq<Seq<u8>>, h: SnapshotHeader, es: Seq<Entry>) -> bool {
    parse(region(seg(media, h), h), h.file_count as nat) == Some(es)
}

/// The name that stands in the record at `off`.
pub open spec fn name_at(s: Seq<u8>, h: SnapshotHeader, off: int, name_len: int) -> Seq<u8> {
    s.subrange(h.base() + off + 20, h.base() + off + 20 + name_len)
}

/// The header of the record at `off`, if there is a readable one.
#[verifier::opaque]
pub open spec fn header_at(s: Seq<u8>, h: SnapshotHeader, off: int) -> Option<RecordHeader> {
    let at = h.base() + off;
    if off + 20 > h.payload_len || at + 20 > s.len() {
        None
    } else {
        match RecordHeader::decoded(s.subrange(at, at + 20)) {
            Err(_) => None,
            Ok(r) => if r.flags == RECORD_FLAG_DIRECTORY && (r.data_len != 0 || r.data_crc
                != CRC32_MPEG2_INITIAL) {
                None
            } else if off + r.record_len > h.payload_len || at + 20 + r.name_len > s.len() {
                None
            } else if !path_ok(name_at(s, h, off, r.name_len as int)) {
                None
            } else {
                Some(r)
            },
        }
    }
}

/// A record of the active snapshot.
#[derive(Clone, Copy)]
pub struct Record {
    pub record_offset: u32,
    pub record_len: u32,
    pub data_offset: u32,
    pub data_len: u32,
    pub data_crc: u32,
    pub flags: u16,
    pub name_len: usize,
    pub name: [u8; 63],
}

impl Record {
    /// The record has this header and stands at `off`.
    pub open spec fn is_at(self, r: RecordHeader, off: int, name: Seq<u8>) -> bool {
        &&& self.record_offset == off
        &&& self.record_len == r.record_len
        &&& self.data_offset == off + 20 + r.name_len
        &&& self.data_len == r.data_len
        &&& self.data_crc == r.data_crc
        &&& self.flags == r.flags
        &&& self.name_len == r.name_len
        &&& self.name_len <= 63
        &&& self.name@.take(self.name_len as int) == name
    }

    /// The record is that of entry `i`.
    pub open spec fn is_entry(self, es: Seq<Entry>, i: int) -> bool {
        &&& 0 <= i < es.len()
        &&& self.is_at(entry_header(es[i]), offset_of(es, i), es[i].name)
    }

    pub(crate) fn name_bytes(&self) -> (r: &[u8])
        requires
            self.name_len <= 63,
        ensures
            r@ == self.name@.take(self.name_len as int),
    {
        assert(self.name@.subrange(0, self.name_len as int) =~= self.name@.take(
            self.name_len as int,
        ));
        &self.name[0..self.name_len]
    }

    pub(crate) fn is_directory(&self) -> (r: bool)
        ensures
            r == (self.flags == 1),
    {
        self.flags == RECORD_FLAG_DIRECTORY
    }

    pub(crate) fn info(&self) -> (r: FileInfo)
        ensures
            r == (FileInfo {
                kind: if self.flags == 1 {
                    EntryKind::Directory
                } else {
                    EntryKind::File
                },
                size: self.data_len,
                crc32: self.data_crc,
            }),
    {
        FileInfo {
            kind: if self.is_directory() {
                EntryKind::Directory
            } else {
                EntryKind::File
            },
            size: self.data_len,
            crc32: self.data_crc,
        }
    }
}

/// Feed bytes of a segment to a CRC.
pub(crate) fn update_crc_from_segment<D: BlockDevice>(
    device: &mut D,
    snapshot: &SnapshotHeader,
    logical_offset: u32,
    length: u32,
    crc: &mut Crc32Mpeg2,
) -> (r: Result<(), Error<D::Error>>)
    requires
        on_device(*old(device), *snapshot),
    ensures
        untouched(*old(device), *final(device)),
        honest(r, old(device).faults(), final(device).faults()),
        length > 0 && logical_offset + length > seg_len(*snapshot) ==> r is Err && (r->Err_0
            is Corrupt || r->Err_0 is Device),
        length == 0 ==> r is Ok && final(crc)@ == old(crc)@,
        logical_offset + length <= seg_len(*snapshot) ==> (r is Err ==> r->Err_0 is Device) && (r
            is Ok ==> final(crc)@ == crc_from(
            old(crc)@,
            seg(old(device).media(), *snapshot).subrange(
                logical_offset as int,
                logical_offset + length,
            ),
        )),
{
    let ghost h = *snapshot;
    let ghost d0 = *device;
    let ghost s = seg(d0.media(), h);
    let ghost c0 = crc@;
    let ghost lo = logical_offset as int;
    let mut buffer = [0u8; COPY_BUFFER_SIZE];
    let mut consumed: u32 = 0;
    assert(lo <= s.len() ==> s.subrange(lo, lo) =~= Seq::<u8>::empty());
    while consumed < length
        invariant
            h == *snapshot,
            d0 == *old(device),
            on_device(d0, h),
            untouched(d0, *device),
            device.faults() == d0.faults(),
            s == seg(d0.media(), h),
            lo == logical_offset,
            c0 == old(crc)@,
            consumed <= length,
            consumed > 0 ==> lo + consumed <= seg_len(h),
            consumed == 0 ==> crc@ == c0,
            lo + consumed <= seg_len(h) ==> crc@ == crc_from(c0, s.subrange(lo, lo + consumed)),
        decreases length - consumed,
    {
        let remaining: u32 = length - consumed;
        let amount: usize = if remaining < COPY_BUFFER_SIZE as u32 {
            remaining as usize
        } else {
            COPY_BUFFER_SIZE
        };
        proof {
            lemma_seg_len(h);
        }
        let logical: u32 = match logical_offset.checked_add(consumed) {
            Some(logical) => logical,
            None => return Err(Error::Corrupt),
        };
        match segment_read_front(device, snapshot, logical, &mut buffer, amount) {
            Ok(()) => {},
            Err(error) => return Err(error),
        }
        let ghost piece = s.subrange(lo + consumed, lo + consumed + amount);
        assert(buffer@.subrange(0, amount as int) =~= buffer@.take(amount as int));
        crc.update(&buffer[0..amount]);
        proof {
            law_crc_incremental(c0, s.subrange(lo, lo + consumed), piece);
            assert(s.subrange(lo, lo + consumed) + piece =~= s.subrange(
                lo,
                lo + consumed + amount,
            ));
        }
        consumed = consumed + amount as u32;
    }
    Ok(())
}

/// The CRC of bytes of a segment.
pub(crate) fn crc_segment_range<D: BlockDevice>(
    device: &mut D,
    snapshot: &SnapshotHeader,
    logical_offset: u32,
    length: u32,
) -> (r: Result<u32, Error<D::Error>>)
    requires
        on_device(*old(device), *snapshot),
    ensures
        untouched(*old(device), *final(device)),
        honest(r, old(device).faults(), final(device).faults()),
        length > 0 && logical_offset + length > seg_len(*snapshot) ==> r is Err && (r->Err_0
            is Corrupt || r->Err_0 is Device),
        length == 0 ==> r == Ok::<u32, Error<D::Error>>(CRC32_MPEG2_INITIAL),
        logical_offset + length <= seg_len(*snapshot) ==> (r is Err ==> r->Err_0 is Device) && (r
            is Ok ==> r->Ok_0 == crc_of(
            seg(old(device).media(), *snapshot).subrange(
                logical_offset as int,
                logical_offset + length,
            ),
        )),
{
    let mut crc = Crc32Mpeg2::new();
    match update_crc_from_segment(device, snapshot, logical_offset, length, &mut crc) {
        Ok(()) => Ok(crc.finalize()),
        Err(error) => Err(error),
    }
}

/// Whether bytes of a segment are all zero.
pub(crate) fn range_is_zero<D: BlockDevice>(
    device: &mut D,
    snapshot: &SnapshotHeader,
    logical_offset: u32,
    length: u32,
) -> (r: Result<bool, Error<D::Error>>)
    requires
        on_device(*old(device), *snapshot),
    ensures
        untouched(*old(device), *final(device)),
        honest(r, old(device).faults(), final(device).faults()),
        r is Err ==> r->Err_0 is Corrupt || r->Err_0 is Device,
        logical_offset + length <= seg_len(*snapshot) ==> (r is Err ==> r->Err_0 is Device) && (r
            is Ok ==> r->Ok_0 == (forall|i: int|
            logical_offset <= i < logical_offset + length ==> seg(
                old(device).media(),
                *snapshot,
            )[i] == 0)),
{
    let ghost h = *snapshot;
    let ghost d0 = *device;
    let ghost s = seg(d0.media(), h);
    let ghost lo = logical_offset as int;
    let mut buffer = [0u8; COPY_BUFFER_SIZE];
    let mut consumed: u32 = 0;
    while consumed < length
        invariant
            h == *snapshot,
            d0 == *old(device),
            on_device(d0, h),
            untouched(d0, *device),
            device.faults() == d0.faults(),
            s == seg(d0.media(), h),
            lo == logical_offset,
            consumed <= length,
            forall|i: int| lo <= i < lo + consumed && i < seg_len(h) ==> s[i] == 0,
        decreases length - consumed,
    {
        let remaining: u32 = length - consumed;
        let amount: usize = if remaining < COPY_BUFFER_SIZE as u32 {
            remaining as usize
        } else {
            COPY_BUFFER_SIZE
        };
        proof {
            lemma_seg_len(h);
        }
        let logical: u32 = match logical_offset.checked_add(consumed) {
            Some(logical) => logical,
            None => return Err(Error::Corrupt),
        };
        match segment_read_front(device, snapshot, logical, &mut buffer, amount) {
            Ok(()) => {},
            Err(error) => return Err(error),
        }
        let ghost piece = s.subrange(lo + consumed, lo + consumed + amount);
        let mut i: usize = 0;
        while i < amount
            invariant
                i <= amount <= 64,
                h == *snapshot,
                d0 == *old(device),
                untouched(d0, *device),
                device.faults() == d0.faults(),
                s == seg(d0.media(), h),
                lo == logical_offset,
                consumed + amount <= length,
                lo + consumed + amount <= seg_len(h),
                buffer@.take(amount as int) == piece,
                piece == s.subrange(lo + consumed, lo + consumed + amount),
                forall|j: int| lo <= j < lo + consumed + i && j < seg_len(h) ==> s[j] == 0,
            decreases amount - i,
        {
            assert(buffer@.take(amount as int)[i as int] == buffer@[i as int]);
            assert(piece[i as int] == s[lo + consumed + i]);
            if buffer[i] != 0 {
                return Ok(false);
            }
            i += 1;
        }
        consumed = consumed + amount as u32;
    }
    Ok(true)
}

/// Read the record at `payload_offset`.
pub(crate) fn read_record<D: BlockDevice>(
    device: &mut D,
    snapshot: &SnapshotHeader,
    payload_offset: u32,
) -> (r: Result<Record, Error<D::Error>>)
    requires
        on_device(*old(device), *snapshot),
    ensures
        untouched(*old(device), *final(device)),
        honest(r, old(device).faults(), final(device).faults()),
        ({
            let s = seg(old(device).media(), *snapshot);
            match header_at(s, *snapshot, payload_offset as int) {
                None => r is Err && (r->Err_0 is Corrupt || r->Err_0 is Device),
                Some(rh) => {
                    &&& r is Err ==> r->Err_0 is Device
                    &&& r is Ok ==> r->Ok_0.is_at(
                        rh,
                        payload_offset as int,
                        name_at(s, *snapshot, payload_offset as int, rh.name_len as int),
                    )
                },
            }
        }),
{
    let ghost h = *snapshot;
    let ghost s = seg(device.media(), h);
    let ghost off = payload_offset as int;
    proof {
        reveal(header_at);
        lemma_seg_len(h);
        lemma_pad4(2 * h.block_count);
    }
    let header_end: u32 = match payload_offset.checked_add(20) {
        Some(end) => end,
        None => return Err(Error::Corrupt),
    };
    if header_end > snapshot.payload_len {
        return Err(Error::Corrupt);
    }
    let base: u32 = snapshot.records_base();
    let logical: u32 = match base.checked_add(payload_offset) {
        Some(logical) => logical,
        None => return Err(Error::Corrupt),
    };
    let mut encoded = [0u8; 20];
    match segment_read(device, snapshot, logical, &mut encoded) {
        Ok(()) => {},
        Err(error) => return Err(error),
    }
    let header = match RecordHeader::decode(&encoded) {
        Ok(header) => header,
        Err(_) => return Err(Error::Corrupt),
    };
    if header.flags == RECORD_FLAG_DIRECTORY && (header.data_len != 0 || header.data_crc
        != CRC32_MPEG2_INITIAL) {
        return Err(Error::Corrupt);
    }
    let record_end: u32 = match payload_offset.checked_add(header.record_len) {
        Some(end) => end,
        None => return Err(Error::Corrupt),
    };
    if record_end > snapshot.payload_len {
        return Err(Error::Corrupt);
    }
    let name_len: usize = header.name_len as usize;
    let name_logical: u32 = match base.checked_add(header_end) {
        Some(logical) => logical,
        None => return Err(Error::Corrupt),
    };
    let mut name = [0u8; 63];
    match segment_read_front(device, snapshot, name_logical, &mut name, name_len) {
        Ok(()) => {},
        Err(error) => return Err(error),
    }
    assert(name@.subrange(0, name_len as int) =~= name@.take(name_len as int));
    if !validate_path(&name[0..name_len]) {
        return Err(Error::Corrupt);
    }
    proof {
        lemma_pad4(20 + header.name_len + header.data_len);
    }
    let data_offset: u32 = header_end + header.name_len as u32;
    Ok(
        Record {
            record_offset: payload_offset,
            record_len: header.record_len,
            data_offset,
            data_len: header.data_len,
            data_crc: header.data_crc,
            flags: header.flags,
            name_len,
            name,
        },
    )
}

// ---------------------------------------------------------------------------
// Records and entries
// ---------------------------------------------------------------------------

pub proof fn lemma_base(h: SnapshotHeader)
    requires
        h.error() is None,
        geometry_ok(h.geom()),
    ensures
        h.base() == 64 + table_len(h.block_count as int),
        4 <= table_len(h.block_count as int) <= 128,
        table_len(h.block_count as int) % 4 == 0,
        h.records() > 0 ==> h.base() + h.records() == 64 + h.payload_len,
        h.records() > 0 ==> h.base() + h.records() <= seg_len(h),
{
    lemma_seg_len(h);
    lemma_pad4(2 * h.block_count);
}

/// How far a readable record reaches.
pub proof fn lemma_header_facts(s: Seq<u8>, h: SnapshotHeader, off: int)
    requires
        header_at(s, h, off) is Some,
    ensures
        ({
            let r = header_at(s, h, off)->0;
            &&& off + r.record_len <= h.payload_len
            &&& 20 + r.name_len + r.data_len <= r.record_len
            &&& 1 <= r.name_len <= 63
            &&& r.record_len == record_len_of(r.name_len as int, r.data_len as int)
        }),
{
    reveal(header_at);
    let r = header_at(s, h, off)->0;
    lemma_pad4(20 + r.name_len + r.data_len);
}

/// A record header decodes alike whatever follows it.
proof fn lemma_decoded_prefix(b: Seq<u8>, t: Seq<u8>)
    requires
        b.len() >= 20,
        t == b.take(20),
    ensures
        RecordHeader::decoded(b) == RecordHeader::decoded(t),
{
    assert forall|i: int| 0 <= i < 20 implies b[i] == t[i] by {
        assert(b.take(20)[i] == b[i]);
    }
    assert(RecordHeader::fields_of(b) == RecordHeader::fields_of(t));
}

/// The parts of a record that lies at `at`.
proof fn lemma_entry_bytes(s: Seq<u8>, at: int, b: Seq<u8>, e: Entry)
    requires
        first_entry(b) == Some(e),
        0 <= at,
        at + b.len() <= s.len(),
        forall|i: int| 0 <= i < b.len() ==> b[i] == s[at + i],
    ensures
        entry_ok(e),
        24 <= entry_len(e) <= b.len(),
        name_end(e) <= data_end(e) <= entry_len(e),
        entry_header(e).record_len == entry_len(e),
        entry_header(e).name_len == e.name.len(),
        entry_header(e).data_len == e.data.len(),
        RecordHeader::decoded(s.subrange(at, at + 20)) == Ok::<
            RecordHeader,
            super::format::FormatError,
        >(entry_header(e)),
        s.subrange(at + 20, at + name_end(e)) == e.name,
        s.subrange(at + name_end(e), at + data_end(e)) == e.data,
        forall|i: int| at + data_end(e) <= i < at + entry_len(e) ==> s[i] == 0,
{
    lemma_first_entry_header(b, e);
    lemma_record_bytes_len(e);
    lemma_pad4(data_end(e));
    assert(s.subrange(at, at + 20) =~= b.take(20));
    lemma_decoded_prefix(b, s.subrange(at, at + 20));
    assert(s.subrange(at + 20, at + name_end(e)) =~= b.subrange(20, name_end(e)));
    assert(s.subrange(at + name_end(e), at + data_end(e)) =~= b.subrange(name_end(e), data_end(e)));
    assert forall|i: int| at + data_end(e) <= i < at + entry_len(e) implies s[i] == 0 by {
        assert(s[i] == b[i - at]);
    }
}

/// A whole record is readable, and its parts lie where the entry says.
pub proof fn lemma_entry_at(s: Seq<u8>, h: SnapshotHeader, off: int, e: Entry)
    requires
        h.error() is None,
        geometry_ok(h.geom()),
        s.len() == seg_len(h),
        0 <= off <= region(s, h).len(),
        first_entry(region(s, h).skip(off)) == Some(e),
    ensures
        header_at(s, h, off) == Some(entry_header(e)),
        name_at(s, h, off, e.name.len() as int) == e.name,
        off + entry_len(e) <= region(s, h).len(),
        h.base() + off + entry_len(e) <= s.len(),
        region(s, h).len() == h.records(),
        s.subrange(h.base() + off + name_end(e), h.base() + off + data_end(e)) == e.data,
        forall|i: int|
            h.base() + off + data_end(e) <= i < h.base() + off + entry_len(e) ==> s[i] == 0,
        entry_ok(e),
{
    let g = region(s, h);
    let b = g.skip(off);
    lemma_base(h);
    assert(g.len() > 0) by {
        if g.len() == 0 {
            assert(b.len() == 0);
        }
    }
    let at = h.base() + off;
    assert forall|i: int| 0 <= i < b.len() implies b[i] == s[at + i] by {
        assert(b[i] == g[off + i]);
    }
    lemma_entry_bytes(s, at, b, e);
    assert(header_at(s, h, off) == Some(entry_header(e))) by {
        reveal(header_at);
        if e.directory {
            assert(e.data =~= Seq::<u8>::empty());
        }
    }
}

/// A record at `at` that passes every test is that of an entry.
proof fn lemma_found_bytes(s: Seq<u8>, at: int, b: Seq<u8>, rh: RecordHeader) -> (e: Entry)
    requires
        0 <= at,
        at + b.len() <= s.len(),
        forall|i: int| 0 <= i < b.len() ==> b[i] == s[at + i],
        rh.record_len <= b.len(),
        RecordHeader::decoded(s.subrange(at, at + 20)) == Ok::<
            RecordHeader,
            super::format::FormatError,
        >(rh),
        path_ok(s.subrange(at + 20, at + 20 + rh.name_len)),
        rh.flags == 1 ==> rh.data_len == 0,
        crc_of(s.subrange(at + 20 + rh.name_len, at + 20 + rh.name_len + rh.data_len))
            == rh.data_crc,
        forall|i: int|
            at + 20 + rh.name_len + rh.data_len <= i < at + rh.record_len ==> s[i] == 0,
    ensures
        first_entry(b) == Some(e),
        entry_len(e) == rh.record_len,
        e.name == s.subrange(at + 20, at + 20 + rh.name_len),
{
    let n = 20 + rh.name_len;
    lemma_pad4(n + rh.data_len);
    let e = Entry {
        name: b.subrange(20, n),
        directory: rh.flags == 1,
        data: b.subrange(n, n + rh.data_len),
    };
    assert(s.subrange(at, at + 20) =~= b.take(20));
    lemma_decoded_prefix(b, s.subrange(at, at + 20));
    assert(e.name =~= s.subrange(at + 20, at + n));
    assert(e.data =~= s.subrange(at + n, at + n + rh.data_len));
    assert forall|i: int| n + rh.data_len <= i < rh.record_len implies b[i] == 0 by {
        assert(b[i] == s[at + i]);
    }
    lemma_record_is_entry(b, rh, e);
    e
}

/// A readable record whose data has the right CRC and whose padding is zero is
/// that of an entry.
pub proof fn lemma_entry_found(s: Seq<u8>, h: SnapshotHeader, off: int, rh: RecordHeader) -> (e: Entry)
    requires
        h.error() is None,
        geometry_ok(h.geom()),
        s.len() == seg_len(h),
        0 <= off,
        off + rh.record_len <= region(s, h).len(),
        header_at(s, h, off) == Some(rh),
        crc_of(
            s.subrange(
                h.base() + off + 20 + rh.name_len,
                h.base() + off + 20 + rh.name_len + rh.data_len,
            ),
        ) == rh.data_crc,
        forall|i: int|
            h.base() + off + 20 + rh.name_len + rh.data_len <= i < h.base() + off + rh.record_len
                ==> s[i] == 0,
    ensures
        first_entry(region(s, h).skip(off)) == Some(e),
        entry_len(e) == rh.record_len,
        e.name == name_at(s, h, off, rh.name_len as int),
{
    let g = region(s, h);
    let b = g.skip(off);
    lemma_base(h);
    let at = h.base() + off;
    assert(RecordHeader::decoded(s.subrange(at, at + 20)) == Ok::<
        RecordHeader,
        super::format::FormatError,
    >(rh) && path_ok(s.subrange(at + 20, at + 20 + rh.name_len)) && (rh.flags == 1 ==> rh.data_len
        == 0) && rh.record_len > 0) by {
        reveal(header_at);
        lemma_pad4(20 + rh.name_len + rh.data_len);
    }
    assert forall|i: int| 0 <= i < b.len() implies b[i] == s[at + i] by {
        assert(b[i] == g[off + i]);
    }
    lemma_found_bytes(s, at, b, rh)
}

/// Where the record of entry `i` lies and what it says.
pub proof fn lemma_entry_record(media: Seq<Seq<u8>>, h: SnapshotHeader, es: Seq<Entry>, i: int)
    requires
        h.error() is None,
        geometry_ok(h.geom()),
        media_shape(media, h.geom()),
        holds(media, h, es),
        0 <= i < es.len(),
    ensures
        header_at(seg(media, h), h, offset_of(es, i)) == Some(entry_header(es[i])),
        name_at(seg(media, h), h, offset_of(es, i), es[i].name.len() as int) == es[i].name,
        offset_of(es, i + 1) == offset_of(es, i) + entry_len(es[i]),
        0 <= offset_of(es, i),
        offset_of(es, i + 1) <= h.records(),
        h.base() + h.records() <= seg_len(h),
        seg(media, h).subrange(
            h.base() + offset_of(es, i) + name_end(es[i]),
            h.base() + offset_of(es, i) + data_end(es[i]),
        ) == es[i].data,
        seg(media, h).subrange(
            h.base() + offset_of(es, i),
            h.base() + offset_of(es, i) + entry_len(es[i]),
        ) == super::tree::record_bytes(es[i]),
        entry_ok(es[i]),
        es.len() == h.file_count,
        entry_len(es[i]) == entry_header(es[i]).record_len,
        h.base() + offset_of(es, i) + entry_len(es[i]) <= seg_len(h),
        data_end(es[i]) <= entry_len(es[i]),
{
    reveal(holds);
    let s = seg(media, h);
    let g = region(s, h);
    law_serialize_inverts_parse(g, h.file_count as nat);
    lemma_offset(es, i);
    lemma_entry_at(s, h, offset_of(es, i), es[i]);
    lemma_base(h);
    lemma_record_bytes_len(es[i]);
    lemma_pad4(data_end(es[i]));
    assert(s.subrange(
        h.base() + offset_of(es, i),
        h.base() + offset_of(es, i) + entry_len(es[i]),
    ) =~= g.subrange(offset_of(es, i), offset_of(es, i + 1)));
}

/// Facts about a list of entries that the medium holds.
pub proof fn lemma_held(media: Seq<Seq<u8>>, h: SnapshotHeader, es: Seq<Entry>)
    requires
        h.error() is None,
        geometry_ok(h.geom()),
        media_shape(media, h.geom()),
        holds(media, h, es),
    ensures
        es.len() == h.file_count,
        all_ok(es),
        offset_of(es, 0) == 0,
        offset_of(es, es.len() as int) == h.records(),
        serialize(es) == region(seg(media, h), h),
        serialize(es).len() == h.records(),
{
    reveal(holds);
    let s = seg(media, h);
    law_serialize_inverts_parse(region(s, h), h.file_count as nat);
    lemma_base(h);
    assert(es.take(es.len() as int) =~= es);
    assert(es.take(0) =~= Seq::<Entry>::empty());
    if h.records() > 0 {
        assert(region(s, h).len() == h.records());
    }
}

/// Find the record of that name.
pub(crate) fn find_record<D: BlockDevice>(
    device: &mut D,
    snapshot: &SnapshotHeader,
    name: &[u8],
    Ghost(es): Ghost<Seq<Entry>>,
) -> (r: Result<Option<Record>, Error<D::Error>>)
    requires
        on_device(*old(device), *snapshot),
        holds(old(device).media(), *snapshot, es),
        distinct(es),
    ensures
        untouched(*old(device), *final(device)),
        honest(r, old(device).faults(), final(device).faults()),
        r is Err ==> r->Err_0 is Device,
        r is Ok && r->Ok_0 is Some ==> contains_name(es, name@) && r->Ok_0->0.is_entry(
            es,
            position(es, name@),
        ) && lookup(es, name@) == Some(es[position(es, name@)]),
        r is Ok && r->Ok_0 is None ==> !contains_name(es, name@),
{
    let ghost h = *snapshot;
    let ghost d0 = *device;
    let mut offset: u32 = 0;
    let mut index: u32 = 0;
    proof {
        lemma_held(d0.media(), h, es);
    }
    while index < snapshot.file_count
        invariant
            h == *snapshot,
            d0 == *old(device),
            on_device(d0, h),
            holds(d0.media(), h, es),
            untouched(d0, *device),
            device.faults() == d0.faults(),
            es.len() == h.file_count,
            distinct(es),
            index <= es.len(),
            offset == offset_of(es, index as int),
            forall|j: int| 0 <= j < index ==> (#[trigger] es[j]).name != name@,
        decreases snapshot.file_count - index,
    {
        proof {
            lemma_entry_record(d0.media(), h, es, index as int);
            lemma_seg_len(h);
        }
        let record = match read_record(device, snapshot, offset) {
            Ok(record) => record,
            Err(error) => return Err(error),
        };
        assert(record.is_entry(es, index as int));
        if same_bytes(record.name_bytes(), name) {
            proof {
                lemma_position(es, index as int);
            }
            return Ok(Some(record));
        }
        offset = offset + record.record_len;
        index += 1;
    }
    Ok(None)
}

/// The directory that should hold `name` exists.
pub(crate) fn ensure_parent_directory<D: BlockDevice>(
    device: &mut D,
    snapshot: &SnapshotHeader,
    name: &[u8],
    Ghost(es): Ghost<Seq<Entry>>,
) -> (r: Result<(), Error<D::Error>>)
    requires
        on_device(*old(device), *snapshot),
        holds(old(device).media(), *snapshot, es),
        distinct(es),
    ensures
        untouched(*old(device), *final(device)),
        honest(r, old(device).faults(), final(device).faults()),
        final(device).faults() == old(device).faults() ==> r == parent_result::<D::Error>(
            es,
            name@,
        ),
{
    let parent = match parent_name(name) {
        Some(parent) => parent,
        None => return Ok(()),
    };
    match find_record(device, snapshot, parent, Ghost(es)) {
        Ok(Some(record)) => {
            if record.is_directory() {
                Ok(())
            } else {
                Err(Error::NotDirectory)
            }
        },
        Ok(None) => Err(Error::NotFound),
        Err(error) => Err(error),
    }
}

/// What is wrong with the place of `name`, if anything.
pub open spec fn parent_result<E>(es: Seq<Entry>, name: Seq<u8>) -> Result<(), Error<E>> {
    match parent_of(name) {
        None => Ok(()),
        Some(p) => match lookup(es, p) {
            None => Err(Error::NotFound),
            Some(e) => if e.directory {
                Ok(())
            } else {
                Err(Error::NotDirectory)
            },
        },
    }
}

/// Whether anything lies below the directory.
pub(crate) fn snapshot_has_descendant<D: BlockDevice>(
    device: &mut D,
    snapshot: &SnapshotHeader,
    directory: &[u8],
    Ghost(es): Ghost<Seq<Entry>>,
) -> (r: Result<bool, Error<D::Error>>)
    requires
        on_device(*old(device), *snapshot),
        holds(old(device).media(), *snapshot, es),
    ensures
        untouched(*old(device), *final(device)),
        honest(r, old(device).faults(), final(device).faults()),
        r is Err ==> r->Err_0 is Device,
        r is Ok ==> r->Ok_0 == has_below(es, directory@),
{
    let ghost h = *snapshot;
    let ghost d0 = *device;
    let mut offset: u32 = 0;
    let mut index: u32 = 0;
    proof {
        lemma_held(d0.media(), h, es);
    }
    while index < snapshot.file_count
        invariant
            h == *snapshot,
            d0 == *old(device),
            on_device(d0, h),
            holds(d0.media(), h, es),
            untouched(d0, *device),
            device.faults() == d0.faults(),
            es.len() == h.file_count,
            index <= es.len(),
            offset == offset_of(es, index as int),
            forall|j: int| 0 <= j < index ==> !descendant((#[trigger] es[j]).name, directory@),
        decreases snapshot.file_count - index,
    {
        proof {
            lemma_entry_record(d0.media(), h, es, index as int);
            lemma_seg_len(h);
        }
        let record = match read_record(device, snapshot, offset) {
            Ok(record) => record,
            Err(error) => return Err(error),
        };
        assert(record.is_entry(es, index as int));
        if is_descendant(record.name_bytes(), directory) {
            assert(descendant(es[index as int].name, directory@));
            return Ok(true);
        }
        offset = offset + record.record_len;
        index += 1;
    }
    Ok(false)
}

} // verus!
