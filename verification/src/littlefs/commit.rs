//! Writing a new snapshot beside the active one and committing it.

use vstd::prelude::*;

use super::Error;
use super::change::{Change, ExistingAction, lemma_kept_prefix, lemma_kept_step, lemma_record_parts, names_ok, record_encoding};
use super::format::{BlockDevice, COMMIT_MARKER, ERASED_BYTE, ERASED_WORD, Fault, FormatError, HEADER_SIZE, RECORD_FLAG_DIRECTORY, SNAPSHOT_PREFIX_SIZE, SnapshotHeader, commit_marker_bytes, crc32_mpeg2, crc_of, law_header_round_trip, law_le32_round_trip, le32, may_survive, table_len, u32_at, Write};
use super::names::same_bytes;
use super::records::{COPY_BUFFER_SIZE, Record, holds, lemma_base, lemma_entry_record, lemma_held, read_record, region, snapshot_entries};
use super::segment::{CommitError, block_of, explained, geometry_ok, honest, honest_commit, in_seg, lemma_blocks_differ, lemma_place, lemma_seg_len, lemma_split, lemma_spared_seg, lemma_wrote_length, lemma_wrote_more, lemma_wrote_nothing, lemma_wrote_trans, on_device, program_stretch, programmed, run_of, seg, seg_erased, seg_len, seg_same_outside, segment_erase, segment_program, segment_read, segment_read_front, spared, untouched, word_fresh, wrote_inside};
use super::tree::{Entry, added, all_ok, apply, edited, entry_header, entry_len, entry_ok, kept, law_parse_inverts_serialize, lemma_record_bytes_len, lemma_serialize_aligned, lemma_serialize_concat, lemma_serialize_one, offset_of, record_bytes, serialize, tree_ok, zeros};
use super::validate::validate_snapshot;
use super::wear::{occupies, segments_overlap};

verus! {

/// The segments share no block.
pub open spec fn disjoint(a: SnapshotHeader, b: SnapshotHeader) -> bool {
    forall|k: int| #[trigger] in_seg(a, k) ==> !in_seg(b, k)
}

pub proof fn lemma_spared_trans<D: BlockDevice>(d0: D, d1: D, d2: D, h: SnapshotHeader)
    requires
        spared(d0, d1, h),
        spared(d1, d2, h),
        d0.media().len() == d1.media().len(),
    ensures
        spared(d0, d2, h),
{
    assert forall|b: int| 0 <= b < d0.media().len() && !#[trigger] in_seg(h, b) implies d2.media()[b]
        == d0.media()[b] by {
        assert(d1.media()[b] == d0.media()[b]);
    }
    assert forall|b: int, w: int| #[trigger] d2.pending().contains((b, w)) implies in_seg(h, b)
        || d0.pending().contains((b, w)) by {
        if !in_seg(h, b) {
            assert(d1.pending().contains((b, w)));
        }
    }
}

pub proof fn lemma_programmed_trans<D: BlockDevice>(d0: D, d1: D, d2: D, h: SnapshotHeader)
    requires
        programmed(d0, d1, h),
        programmed(d1, d2, h),
        d0.media().len() == d1.media().len(),
    ensures
        programmed(d0, d2, h),
{
    lemma_spared_trans(d0, d1, d2, h);
    lemma_wrote_trans(d0.writes(), d1.writes(), d2.writes(), h);
}

/// The records of a segment that was spared are still there.
pub proof fn lemma_still_holds<D: BlockDevice>(
    before: D,
    after: D,
    written: SnapshotHeader,
    other: SnapshotHeader,
    es: Seq<Entry>,
)
    requires
        on_device(before, other),
        holds(before.media(), other, es),
        written.block_count == other.block_count,
        spared(before, after, written),
        disjoint(other, written),
    ensures
        on_device(after, other),
        holds(after.media(), other, es),
        seg(after.media(), other) == seg(before.media(), other),
{
    lemma_spared_seg(before, after, written, other);
    reveal(holds);
}

pub open spec fn aligned(n: int) -> int {
    n / 4 * 4
}

/// Writes the payload of a snapshot, word by word.
pub struct SegmentWriter {
    pub cursor: u32,
    pub pending: [u8; 4],
    pub pending_len: usize,
}

impl SegmentWriter {
    /// Behind the header bytes `front`, the payload `out` has been written, but
    /// for the bytes of the last word that is not full yet.
    pub open spec fn wrote<D: BlockDevice>(
        self,
        device: D,
        h: SnapshotHeader,
        front: Seq<u8>,
        out: Seq<u8>,
    ) -> bool {
        let full = aligned(out.len() as int);
        &&& on_device(device, h)
        &&& self.cursor == 64 + out.len()
        &&& 64 + out.len() <= seg_len(h)
        &&& self.pending_len == out.len() % 4
        &&& self.pending@.take(self.pending_len as int) == out.skip(full)
        &&& seg(device.media(), h).subrange(64, 64 + full) == out.take(full)
        &&& seg(device.media(), h).subrange(0, 64) == front
        &&& word_fresh(device.fresh(), h, 15)
        &&& forall|w: int|
            64 + full <= 4 * w < seg_len(h) ==> #[trigger] word_fresh(device.fresh(), h, w)
    }

    /// Write one byte.
    fn push<D: BlockDevice>(
        &mut self,
        device: &mut D,
        snapshot: &SnapshotHeader,
        byte: u8,
        Ghost(front): Ghost<Seq<u8>>,
        Ghost(out): Ghost<Seq<u8>>,
    ) -> (r: Result<(), CommitError<D::Error>>)
        requires
            old(self).wrote(*old(device), *snapshot, front, out),
            64 + out.len() + 1 <= seg_len(*snapshot),
        ensures
            programmed(*old(device), *final(device), *snapshot),
            honest_commit(r, old(device).faults(), final(device).faults()),
            explained(r, *final(device), *snapshot),
            seg(final(device).media(), *snapshot).subrange(0, 64) == front,
            r is Ok ==> final(self).wrote(*final(device), *snapshot, front, out.push(byte)),
    {
        let ghost h = *snapshot;
        let ghost d0 = *device;
        let ghost n = out.len() as int;
        let ghost full = aligned(n);
        let ghost tail = out.skip(full);
        proof {
            lemma_seg_len(h);
            lemma_wrote_nothing(d0.writes(), h);
            assert(full + self.pending_len == n);
        }
        let ghost p0 = self.pending@.take(self.pending_len as int);
        self.pending[self.pending_len] = byte;
        self.pending_len = self.pending_len + 1;
        self.cursor = self.cursor + 1;
        assert(self.pending@.take(self.pending_len as int) =~= p0.push(byte));
        if self.pending_len < 4 {
            proof {
                let next = out.push(byte);
                assert(aligned(n + 1) == full);
                assert(next.skip(full) =~= tail.push(byte));
                assert(next.take(full) =~= out.take(full));
            }
            return Ok(());
        }
        let word = self.pending;
        let offset: u32 = self.cursor - 4;
        proof {
            assert(offset == 64 + full);
            assert(full % 4 == 0);
            assert forall|w: int| offset <= 4 * w < offset + 4 implies #[trigger] word_fresh(
                d0.fresh(),
                h,
                w,
            ) by {}
        }
        let outcome = segment_program(device, snapshot, offset, &word);
        proof {
            let s0 = seg(d0.media(), h);
            let s1 = seg(device.media(), h);
            assert(s1.subrange(0, 64) =~= s0.subrange(0, 64)) by {
                assert forall|i: int| 0 <= i < 64 implies s1[i] == s0[i] by {}
            }
        }
        match outcome {
            Ok(()) => {},
            Err(error) => return Err(error),
        }
        proof {
            let s0 = seg(d0.media(), h);
            let s1 = seg(device.media(), h);
            let next = out.push(byte);
            assert(word@ =~= p0.push(byte));
            assert(next.len() == full + 4);
            assert(aligned(n + 1) == full + 4);
            assert(s1.subrange(64, 64 + full) =~= s0.subrange(64, 64 + full)) by {
                assert forall|i: int| 64 <= i < 64 + full implies s1[i] == s0[i] by {}
            }
            assert(s1.subrange(64, 64 + full + 4) =~= s1.subrange(64, 64 + full) + s1.subrange(
                64 + full,
                64 + full + 4,
            ));
            assert(next.take(full + 4) =~= out.take(full) + tail.push(byte));
            assert(next.skip(full + 4) =~= Seq::<u8>::empty());
            assert forall|w: int| 64 + full + 4 <= 4 * w < seg_len(h) implies #[trigger] word_fresh(
                device.fresh(),
                h,
                w,
            ) by {
                assert(word_fresh(d0.fresh(), h, w));
            }
        }
        self.pending = [0u8; 4];
        self.pending_len = 0;
        assert(self.pending@.take(0) =~= Seq::<u8>::empty());
        Ok(())
    }

    /// Write bytes.
    pub(crate) fn bytes<D: BlockDevice>(
        &mut self,
        device: &mut D,
        snapshot: &SnapshotHeader,
        bytes: &[u8],
        Ghost(front): Ghost<Seq<u8>>,
        Ghost(out): Ghost<Seq<u8>>,
    ) -> (r: Result<(), CommitError<D::Error>>)
        requires
            old(self).wrote(*old(device), *snapshot, front, out),
            64 + out.len() + bytes@.len() <= seg_len(*snapshot),
        ensures
            programmed(*old(device), *final(device), *snapshot),
            honest_commit(r, old(device).faults(), final(device).faults()),
            explained(r, *final(device), *snapshot),
            seg(final(device).media(), *snapshot).subrange(0, 64) == front,
            r is Ok ==> final(self).wrote(*final(device), *snapshot, front, out + bytes@),
    {
        let ghost h = *snapshot;
        let ghost d0 = *device;
        proof {
            lemma_wrote_nothing(d0.writes(), h);
        }
        let mut i: usize = 0;
        assert(out + bytes@.take(0) =~= out);
        while i < bytes.len()
            invariant
                h == *snapshot,
                d0 == *old(device),
                on_device(d0, h),
                programmed(d0, *device, h),
                device.faults() == d0.faults(),
                i <= bytes@.len(),
                64 + out.len() + bytes@.len() <= seg_len(h),
                self.wrote(*device, h, front, out + bytes@.take(i as int)),
            decreases bytes@.len() - i,
        {
            let ghost d1 = *device;
            let ghost so_far = out + bytes@.take(i as int);
            assert(so_far.push(bytes@[i as int]) =~= out + bytes@.take(i + 1));
            let outcome = self.push(device, snapshot, bytes[i], Ghost(front), Ghost(so_far));
            proof {
                lemma_programmed_trans(d0, d1, *device, h);
            }
            match outcome {
                Ok(()) => {},
                Err(error) => return Err(error),
            }
            i += 1;
        }
        assert(bytes@.take(i as int) =~= bytes@);
        Ok(())
    }

    /// Write a few zero bytes.
    fn zeros<D: BlockDevice>(
        &mut self,
        device: &mut D,
        snapshot: &SnapshotHeader,
        length: u32,
        Ghost(front): Ghost<Seq<u8>>,
        Ghost(out): Ghost<Seq<u8>>,
    ) -> (r: Result<(), CommitError<D::Error>>)
        requires
            old(self).wrote(*old(device), *snapshot, front, out),
            length <= 4,
            64 + out.len() + length <= seg_len(*snapshot),
        ensures
            programmed(*old(device), *final(device), *snapshot),
            honest_commit(r, old(device).faults(), final(device).faults()),
            explained(r, *final(device), *snapshot),
            seg(final(device).media(), *snapshot).subrange(0, 64) == front,
            r is Ok ==> final(self).wrote(
                *final(device),
                *snapshot,
                front,
                out + zeros(length as int),
            ),
    {
        let word = [0u8; 4];
        assert(word@.subrange(0, length as int) =~= zeros(length as int));
        self.bytes(device, snapshot, &word[0..length as usize], Ghost(front), Ghost(out))
    }

    /// Copy record bytes of another snapshot.
    fn copy_payload<D: BlockDevice>(
        &mut self,
        device: &mut D,
        snapshot: &SnapshotHeader,
        source: &SnapshotHeader,
        payload_offset: u32,
        length: u32,
        Ghost(front): Ghost<Seq<u8>>,
        Ghost(out): Ghost<Seq<u8>>,
    ) -> (r: Result<(), CommitError<D::Error>>)
        requires
            old(self).wrote(*old(device), *snapshot, front, out),
            on_device(*old(device), *source),
            disjoint(*source, *snapshot),
            source.base() + payload_offset + length <= seg_len(*source),
            64 + out.len() + length <= seg_len(*snapshot),
        ensures
            programmed(*old(device), *final(device), *snapshot),
            honest_commit(r, old(device).faults(), final(device).faults()),
            explained(r, *final(device), *snapshot),
            seg(final(device).media(), *snapshot).subrange(0, 64) == front,
            r is Ok ==> final(self).wrote(
                *final(device),
                *snapshot,
                front,
                out + seg(old(device).media(), *source).subrange(
                    source.base() + payload_offset,
                    source.base() + payload_offset + length,
                ),
            ),
    {
        let ghost h = *snapshot;
        let ghost d0 = *device;
        let ghost s = seg(d0.media(), *source);
        let ghost at = source.base() + payload_offset;
        proof {
            lemma_wrote_nothing(d0.writes(), h);
            lemma_base(*source);
            lemma_seg_len(*source);
            assert(out + s.subrange(at, at) =~= out);
        }
        let base: u32 = source.records_base();
        let mut buffer = [0u8; COPY_BUFFER_SIZE];
        let mut copied: u32 = 0;
        while copied < length
            invariant
                h == *snapshot,
                d0 == *old(device),
                on_device(d0, h),
                on_device(d0, *source),
                on_device(*device, *source),
                disjoint(*source, h),
                programmed(d0, *device, h),
                device.faults() == d0.faults(),
                s == seg(d0.media(), *source),
                s == seg(device.media(), *source),
                base == source.base(),
                at == source.base() + payload_offset,
                at + length <= seg_len(*source) <= u32::MAX,
                64 + out.len() + length <= seg_len(h),
                copied <= length,
                self.wrote(*device, h, front, out + s.subrange(at, at + copied)),
            decreases length - copied,
        {
            let remaining: u32 = length - copied;
            let amount: usize = if remaining < COPY_BUFFER_SIZE as u32 {
                remaining as usize
            } else {
                COPY_BUFFER_SIZE
            };
            let logical: u32 = base + payload_offset + copied;
            match segment_read_front(device, source, logical, &mut buffer, amount) {
                Ok(()) => {},
                Err(error) => {
                    return Err(CommitError::Fatal(error));
                },
            }
            let ghost d1 = *device;
            let ghost so_far = out + s.subrange(at, at + copied);
            let ghost piece = s.subrange(at + copied, at + copied + amount);
            proof {
                assert(buffer@.subrange(0, amount as int) =~= buffer@.take(amount as int));
                assert(so_far + piece =~= out + s.subrange(at, at + copied + amount));
            }
            let outcome = self.bytes(
                device,
                snapshot,
                &buffer[0..amount],
                Ghost(front),
                Ghost(so_far),
            );
            proof {
                lemma_programmed_trans(d0, d1, *device, h);
                lemma_spared_seg(d0, *device, h, *source);
            }
            match outcome {
                Ok(()) => {},
                Err(error) => return Err(error),
            }
            copied = copied + amount as u32;
        }
        Ok(())
    }
}

/// Write a new record.
fn emit_new_record<D: BlockDevice>(
    writer: &mut SegmentWriter,
    device: &mut D,
    snapshot: &SnapshotHeader,
    name: &[u8],
    data: &[u8],
    flags: u16,
    Ghost(front): Ghost<Seq<u8>>,
    Ghost(out): Ghost<Seq<u8>>,
    Ghost(e): Ghost<Entry>,
) -> (r: Result<(), CommitError<D::Error>>)
    requires
        old(writer).wrote(*old(device), *snapshot, front, out),
        e == (Entry { name: name@, directory: flags == 1, data: data@ }),
        flags <= 1,
        entry_ok(e),
        64 + out.len() + entry_len(e) <= seg_len(*snapshot),
    ensures
        programmed(*old(device), *final(device), *snapshot),
        honest_commit(r, old(device).faults(), final(device).faults()),
        explained(r, *final(device), *snapshot),
        seg(final(device).media(), *snapshot).subrange(0, 64) == front,
        r is Ok ==> final(writer).wrote(
            *final(device),
            *snapshot,
            front,
            out + record_bytes(e),
        ),
{
    let ghost h = *snapshot;
    let ghost d0 = *device;
    let data_len: u32 = data.len() as u32;
    let (header, encoded) = match record_encoding(name.len(), data_len, crc32_mpeg2(data), flags) {
        Some(pair) => pair,
        None => {
            assert(false);
            return Err(CommitError::Fatal(Error::NoSpace));
        },
    };
    proof {
        assert(entry_header(e) == header);
        lemma_record_parts(e, out, header);
    }
    match writer.bytes(device, snapshot, &encoded, Ghost(front), Ghost(out)) {
        Ok(()) => {},
        Err(error) => return Err(error),
    }
    let ghost out1 = out + header.image();
    let ghost d1 = *device;
    let outcome = writer.bytes(device, snapshot, name, Ghost(front), Ghost(out1));
    proof {
        lemma_programmed_trans(d0, d1, *device, h);
    }
    match outcome {
        Ok(()) => {},
        Err(error) => return Err(error),
    }
    let ghost out2 = out1 + name@;
    let ghost d2 = *device;
    let outcome = writer.bytes(device, snapshot, data, Ghost(front), Ghost(out2));
    proof {
        lemma_programmed_trans(d0, d2, *device, h);
    }
    match outcome {
        Ok(()) => {},
        Err(error) => return Err(error),
    }
    let ghost out3 = out2 + data@;
    let ghost d3 = *device;
    let used: u32 = 20 + name.len() as u32 + data_len;
    let outcome = writer.zeros(
        device,
        snapshot,
        header.record_len - used,
        Ghost(front),
        Ghost(out3),
    );
    proof {
        lemma_programmed_trans(d0, d3, *device, h);
    }
    outcome
}

/// Write a record under a new name.
fn emit_renamed_record<D: BlockDevice>(
    writer: &mut SegmentWriter,
    device: &mut D,
    snapshot: &SnapshotHeader,
    source: &SnapshotHeader,
    record: &Record,
    new_name: &[u8],
    Ghost(front): Ghost<Seq<u8>>,
    Ghost(out): Ghost<Seq<u8>>,
    Ghost(es): Ghost<Seq<Entry>>,
    Ghost(i): Ghost<int>,
) -> (r: Result<(), CommitError<D::Error>>)
    requires
        old(writer).wrote(*old(device), *snapshot, front, out),
        on_device(*old(device), *source),
        disjoint(*source, *snapshot),
        holds(old(device).media(), *source, es),
        record.is_entry(es, i),
        entry_ok(Entry { name: new_name@, ..es[i] }),
        64 + out.len() + entry_len(Entry { name: new_name@, ..es[i] }) <= seg_len(*snapshot),
    ensures
        programmed(*old(device), *final(device), *snapshot),
        honest_commit(r, old(device).faults(), final(device).faults()),
        explained(r, *final(device), *snapshot),
        seg(final(device).media(), *snapshot).subrange(0, 64) == front,
        r is Ok ==> final(writer).wrote(
            *final(device),
            *snapshot,
            front,
            out + record_bytes(Entry { name: new_name@, ..es[i] }),
        ),
{
    let ghost h = *snapshot;
    let ghost d0 = *device;
    let ghost e = Entry { name: new_name@, ..es[i] };
    proof {
        lemma_entry_record(d0.media(), *source, es, i);
    }
    let (header, encoded) = match record_encoding(
        new_name.len(),
        record.data_len,
        record.data_crc,
        record.flags,
    ) {
        Some(pair) => pair,
        None => {
            assert(false);
            return Err(CommitError::Fatal(Error::NoSpace));
        },
    };
    proof {
        assert(entry_header(e) == header);
        lemma_record_parts(e, out, header);
    }
    match writer.bytes(device, snapshot, &encoded, Ghost(front), Ghost(out)) {
        Ok(()) => {},
        Err(error) => return Err(error),
    }
    let ghost out1 = out + header.image();
    let ghost d1 = *device;
    let outcome = writer.bytes(device, snapshot, new_name, Ghost(front), Ghost(out1));
    proof {
        lemma_programmed_trans(d0, d1, *device, h);
        lemma_spared_seg(d0, *device, h, *source);
    }
    match outcome {
        Ok(()) => {},
        Err(error) => return Err(error),
    }
    let ghost out2 = out1 + new_name@;
    let ghost d2 = *device;
    let outcome = writer.copy_payload(
        device,
        snapshot,
        source,
        record.data_offset,
        record.data_len,
        Ghost(front),
        Ghost(out2),
    );
    proof {
        lemma_programmed_trans(d0, d2, *device, h);
    }
    match outcome {
        Ok(()) => {},
        Err(error) => return Err(error),
    }
    let ghost out3 = out2 + e.data;
    let ghost d3 = *device;
    let used: u32 = 20 + new_name.len() as u32 + record.data_len;
    let outcome = writer.zeros(
        device,
        snapshot,
        header.record_len - used,
        Ghost(front),
        Ghost(out3),
    );
    proof {
        lemma_programmed_trans(d0, d3, *device, h);
    }
    outcome
}

/// The records of `es` that the change keeps, from those of `source`.
#[verifier::rlimit(40)]
fn emit_existing<'a, D: BlockDevice>(
    writer: &mut SegmentWriter,
    device: &mut D,
    snapshot: &SnapshotHeader,
    source: &SnapshotHeader,
    change: Change<'a>,
    Ghost(front): Ghost<Seq<u8>>,
    Ghost(out): Ghost<Seq<u8>>,
    Ghost(es): Ghost<Seq<Entry>>,
) -> (r: Result<(), CommitError<D::Error>>)
    requires
        old(writer).wrote(*old(device), *snapshot, front, out),
        on_device(*old(device), *source),
        disjoint(*source, *snapshot),
        holds(old(device).media(), *source, es),
        names_ok(change.edit(), es),
        all_ok(kept(change.edit(), es)),
        64 + out.len() + serialize(kept(change.edit(), es)).len() <= seg_len(*snapshot),
    ensures
        programmed(*old(device), *final(device), *snapshot),
        honest_commit(r, old(device).faults(), final(device).faults()),
        explained(r, *final(device), *snapshot),
        seg(final(device).media(), *snapshot).subrange(0, 64) == front,
        r is Ok ==> final(writer).wrote(
            *final(device),
            *snapshot,
            front,
            out + serialize(kept(change.edit(), es)),
        ),
{
    let ghost h = *snapshot;
    let ghost d0 = *device;
    let ghost edit = change.edit();
    let mut offset: u32 = 0;
    let mut index: u32 = 0;
    proof {
        lemma_wrote_nothing(d0.writes(), h);
        lemma_held(d0.media(), *source, es);
        lemma_seg_len(*source);
        assert(es.take(0) =~= Seq::<Entry>::empty());
        assert(kept(edit, es.take(0)) =~= Seq::<Entry>::empty());
        assert(out + serialize(kept(edit, es.take(0))) =~= out);
    }
    while index < source.file_count
        invariant
            h == *snapshot,
            d0 == *old(device),
            on_device(d0, h),
            on_device(d0, *source),
            disjoint(*source, h),
            holds(d0.media(), *source, es),
            on_device(*device, *source),
            holds(device.media(), *source, es),
            names_ok(edit, es),
            edit == change.edit(),
            all_ok(kept(edit, es)),
            programmed(d0, *device, h),
            device.faults() == d0.faults(),
            es.len() == source.file_count,
            all_ok(es),
            index <= es.len(),
            offset == offset_of(es, index as int),
            seg_len(*source) <= u32::MAX,
            64 + out.len() + serialize(kept(edit, es)).len() <= seg_len(h),
            writer.wrote(
                *device,
                h,
                front,
                out + serialize(kept(edit, es.take(index as int))),
            ),
        decreases source.file_count - index,
    {
        let ghost i = index as int;
        let ghost so_far = out + serialize(kept(edit, es.take(i)));
        proof {
            lemma_entry_record(device.media(), *source, es, i);
            lemma_kept_step(edit, es, i);
            lemma_kept_prefix(edit, es, i + 1);
            if edited(edit, es[i]) is Some {
                let e = edited(edit, es[i])->0;
                let j = super::tree::lemma_kept_has(edit, es, i);
                assert(entry_ok(e));
                lemma_record_bytes_len(e);
                assert(so_far + record_bytes(e) =~= out + serialize(kept(edit, es.take(i + 1))));
            }
        }
        let record = match read_record(device, source, offset) {
            Ok(record) => record,
            Err(error) => return Err(CommitError::Fatal(error)),
        };
        assert(record.is_entry(es, i));
        let action = match change.action_for(record.name_bytes(), Ghost(es[i])) {
            Some(action) => action,
            None => {
                assert(false);
                return Err(CommitError::Fatal(Error::InvalidName));
            },
        };
        let ghost d1 = *device;
        let outcome = match action {
            ExistingAction::Keep => writer.copy_payload(
                device,
                snapshot,
                source,
                record.record_offset,
                record.record_len,
                Ghost(front),
                Ghost(so_far),
            ),
            ExistingAction::Skip => Ok(()),
            ExistingAction::Rename(buffer) => emit_renamed_record(
                writer,
                device,
                snapshot,
                source,
                &record,
                buffer.as_bytes(),
                Ghost(front),
                Ghost(so_far),
                Ghost(es),
                Ghost(i),
            ),
        };
        proof {
            lemma_wrote_nothing(d1.writes(), h);
            lemma_programmed_trans(d0, d1, *device, h);
            lemma_still_holds(d0, *device, h, *source, es);
        }
        match outcome {
            Ok(()) => {},
            Err(error) => return Err(error),
        }
        offset = offset + record.record_len;
        index += 1;
    }
    assert(es.take(index as int) =~= es);
    Ok(())
}

/// Write the records that the change leads to.
fn emit_change<'a, D: BlockDevice>(
    writer: &mut SegmentWriter,
    device: &mut D,
    snapshot: &SnapshotHeader,
    source: Option<&SnapshotHeader>,
    change: Change<'a>,
    Ghost(front): Ghost<Seq<u8>>,
    Ghost(out): Ghost<Seq<u8>>,
    Ghost(es): Ghost<Seq<Entry>>,
) -> (r: Result<(), CommitError<D::Error>>)
    requires
        old(writer).wrote(*old(device), *snapshot, front, out),
        match source {
            Some(source) => on_device(*old(device), *source) && disjoint(*source, *snapshot)
                && holds(old(device).media(), *source, es),
            None => es.len() == 0 && change.edit() is Clear,
        },
        names_ok(change.edit(), es),
        all_ok(apply(change.edit(), es)),
        64 + out.len() + serialize(apply(change.edit(), es)).len() <= seg_len(*snapshot),
    ensures
        programmed(*old(device), *final(device), *snapshot),
        honest_commit(r, old(device).faults(), final(device).faults()),
        explained(r, *final(device), *snapshot),
        seg(final(device).media(), *snapshot).subrange(0, 64) == front,
        r is Ok ==> final(writer).wrote(
            *final(device),
            *snapshot,
            front,
            out + serialize(apply(change.edit(), es)),
        ),
{
    let ghost h = *snapshot;
    let ghost d0 = *device;
    let ghost edit = change.edit();
    let ghost ks = kept(edit, es);
    let ghost new = apply(edit, es);
    proof {
        lemma_wrote_nothing(d0.writes(), h);
        lemma_serialize_concat(ks, added(edit));
        assert forall|i: int| 0 <= i < ks.len() implies entry_ok(#[trigger] ks[i]) by {
            assert(new[i] == ks[i]);
        }
    }
    match source {
        Some(source) => {
            match emit_existing(
                writer,
                device,
                snapshot,
                source,
                change,
                Ghost(front),
                Ghost(out),
                Ghost(es),
            ) {
                Ok(()) => {},
                Err(error) => return Err(error),
            }
        },
        None => {
            proof {
                assert(ks =~= Seq::<Entry>::empty());
                assert(out + serialize(ks) =~= out);
            }
        },
    }
    let ghost out1 = out + serialize(ks);
    let ghost d1 = *device;
    match change {
        Change::Write { name, data } => {
            let ghost e = Entry { name: name@, directory: false, data: data@ };
            proof {
                assert(added(edit) =~= seq![e]);
                assert(new[ks.len() as int] == e);
                lemma_serialize_one(e);
                lemma_record_bytes_len(e);
                assert(out1 + record_bytes(e) =~= out + serialize(new));
            }
            let outcome = emit_new_record(
                writer,
                device,
                snapshot,
                name,
                data,
                0,
                Ghost(front),
                Ghost(out1),
                Ghost(e),
            );
            proof {
                lemma_programmed_trans(d0, d1, *device, h);
            }
            outcome
        },
        Change::Mkdir { name } => {
            let empty = [0u8; 0];
            let ghost e = Entry { name: name@, directory: true, data: Seq::<u8>::empty() };
            proof {
                assert(empty@ =~= Seq::<u8>::empty());
                assert(added(edit) =~= seq![e]);
                assert(new[ks.len() as int] == e);
                lemma_serialize_one(e);
                lemma_record_bytes_len(e);
                assert(out1 + record_bytes(e) =~= out + serialize(new));
            }
            let outcome = emit_new_record(
                writer,
                device,
                snapshot,
                name,
                &empty,
                RECORD_FLAG_DIRECTORY,
                Ghost(front),
                Ghost(out1),
                Ghost(e),
            );
            proof {
                lemma_programmed_trans(d0, d1, *device, h);
            }
            outcome
        },
        _ => {
            proof {
                assert(added(edit) =~= Seq::<Entry>::empty());
                assert(new =~= ks);
            }
            Ok(())
        },
    }
}

// ---------------------------------------------------------------------------
// Publishing a snapshot
// ---------------------------------------------------------------------------

/// The medium holds a complete, committed snapshot with these entries and this
/// table of erase counters.
pub open spec fn committed(
    media: Seq<Seq<u8>>,
    h: SnapshotHeader,
    es: Seq<Entry>,
    wear_bytes: Seq<u8>,
) -> bool {
    &&& SnapshotHeader::decoded_at(media[h.start_block as int].take(64), h.start_block, h.geom())
        == Ok::<SnapshotHeader, FormatError>(h)
    &&& snapshot_entries(seg(media, h), h) == Some(es)
    &&& seg(media, h).subrange(64, 64 + wear_bytes.len() as int) == wear_bytes
}

/// No committed header stands where the snapshot would start.
pub open spec fn invisible(media: Seq<Seq<u8>>, h: SnapshotHeader) -> bool {
    SnapshotHeader::decoded(media[h.start_block as int].take(64)) is Err
}

/// Where the snapshot would start stands no committed header, or the snapshot is
/// complete and holds `es`.
pub open spec fn settled(media: Seq<Seq<u8>>, h: SnapshotHeader, es: Seq<Entry>) -> bool {
    invisible(media, h) || exists|t: Seq<u8>| #[trigger] committed(media, h, es, t)
}

/// Whatever a power loss leaves of the medium, nothing but the complete snapshot of `es`
/// can be visible at `h`.
pub open spec fn secured<D: BlockDevice>(device: D, h: SnapshotHeader, es: Seq<Entry>) -> bool {
    forall|media: Seq<Seq<u8>>| #[trigger]
        may_survive(device, media) ==> settled(media, h, es)
}

/// The first block of the place could not be erased.
pub open spec fn unclear<D: BlockDevice>(device: D, h: SnapshotHeader) -> bool {
    device.torn().contains(h.start_block as int)
}

/// It is open whether the first block of the place has been erased for good.
pub open spec fn unsettled<D: BlockDevice>(device: D, h: SnapshotHeader) -> bool {
    device.pending().contains((h.start_block as int, 0))
}

/// The last that was written is the commit word of the snapshot, after everything else was
/// made durable, and then it was made durable itself.
pub open spec fn ends_with_commit(writes: Seq<Write>, h: SnapshotHeader) -> bool {
    let n = writes.len() as int;
    &&& n >= 3
    &&& writes[n - 3] is Sync
    &&& writes[n - 2] == (Write::Program {
        block: h.start_block as int,
        offset: 60,
        bytes: le32(COMMIT_MARKER),
    })
    &&& writes[n - 1] is Sync
}

/// A snapshot was written to `h` and committed. Each block of `h` was erased once, and no
/// other. All that was programmed lies in `h`, and the commit word came last, between two
/// calls that made what came before durable.
pub open spec fn sealed<D: BlockDevice>(before: D, after: D, h: SnapshotHeader) -> bool {
    &&& after.erased() == before.erased() + run_of(h)
    &&& after.writes().len() >= before.writes().len() + 3
    &&& wrote_inside(before.writes(), after.writes(), h)
    &&& ends_with_commit(after.writes(), h)
    &&& after.pending() == Set::<(int, int)>::empty()
}

/// An attempt was made to write a snapshot of `es` to `h`. Its blocks were erased, each at
/// most once, and nothing else has changed. Unless not even the first block could be
/// erased, nothing is visible there until the erased block and all that was written behind
/// it are durable, and from then on nothing but the complete snapshot can be.
pub open spec fn attempted<D: BlockDevice>(
    before: D,
    after: D,
    h: SnapshotHeader,
    es: Seq<Entry>,
) -> bool {
    &&& spared(before, after, h)
    &&& wrote_inside(before.writes(), after.writes(), h)
    &&& exists|k: int|
        1 <= k <= h.block_span && after.erased() == before.erased() + #[trigger] run_of(h).take(k)
    &&& !unclear(after, h) ==> if unsettled(after, h) {
        invisible(after.media(), h)
    } else {
        secured(after, h, es)
    }
}

/// Why a snapshot could not be written for good: the device gave an error that does not
/// come from a worn out block, or the commit word had been reached.
pub open spec fn uncertain<D: BlockDevice>(device: D, h: SnapshotHeader, error: D::Error) -> bool {
    match device.fault() {
        Fault::Nothing => false,
        Fault::Read | Fault::Sync => true,
        Fault::Erase { .. } => !device.worn_out(error),
        Fault::Program { block, offset } => !device.worn_out(error) || block == h.start_block
            && offset == 60,
    }
}

/// The header describes these entries behind this table.
pub open spec fn describes(h: SnapshotHeader, es: Seq<Entry>, wear_bytes: Seq<u8>) -> bool {
    &&& wear_bytes.len() == table_len(h.block_count as int)
    &&& h.payload_len == wear_bytes.len() + serialize(es).len()
    &&& h.payload_crc == crc_of(wear_bytes + serialize(es))
    &&& h.file_count == es.len()
    &&& all_ok(es)
    &&& tree_ok(es)
}

/// The segment starts in its first block.
pub proof fn lemma_front(media: Seq<Seq<u8>>, h: SnapshotHeader)
    requires
        h.error() is None,
        geometry_ok(h.geom()),
        super::format::media_shape(media, h.geom()),
    ensures
        media[h.start_block as int].take(64) == seg(media, h).subrange(0, 64),
{
    lemma_seg_len(h);
    let a = media[h.start_block as int].take(64);
    let b = seg(media, h).subrange(0, 64);
    assert forall|i: int| 0 <= i < 64 implies a[i] == b[i] by {
        lemma_place(h, 0, i, i);
    }
    assert(a =~= b);
}

/// These are the header bytes before the commit word.
#[verifier::opaque]
pub open spec fn is_prefix(h: SnapshotHeader, prefix: Seq<u8>) -> bool {
    prefix.len() == 60 && h.is_image(prefix + le32(ERASED_WORD), ERASED_WORD)
}

/// Another marker behind the same header prefix.
proof fn lemma_marker(h: SnapshotHeader, prefix: Seq<u8>, word: Seq<u8>)
    requires
        is_prefix(h, prefix),
        word.len() == 4,
    ensures
        prefix.len() == 60,
        h.is_image(prefix + word, u32_at(prefix + word, 60)),
{
    reveal(is_prefix);
    let a = prefix + le32(ERASED_WORD);
    let b = prefix + word;
    assert forall|i: int| 0 <= i < 60 implies a[i] == b[i] by {}
    assert(a.take(56) =~= b.take(56));
}

/// A payload as the header describes it is a valid snapshot.
proof fn lemma_described(
    media: Seq<Seq<u8>>,
    h: SnapshotHeader,
    es: Seq<Entry>,
    wear_bytes: Seq<u8>,
)
    requires
        h.error() is None,
        geometry_ok(h.geom()),
        describes(h, es, wear_bytes),
        seg(media, h).subrange(64, 64 + h.payload_len) == wear_bytes + serialize(es),
    ensures
        snapshot_entries(seg(media, h), h) == Some(es),
        seg(media, h).subrange(64, 64 + wear_bytes.len() as int) == wear_bytes,
        holds(media, h, es),
{
    let s = seg(media, h);
    let t = wear_bytes.len() as int;
    lemma_seg_len(h);
    lemma_base(h);
    law_parse_inverts_serialize(es);
    let p = s.subrange(64, 64 + h.payload_len);
    assert(s.subrange(64, 64 + t) =~= p.take(t));
    assert(p.take(t) =~= wear_bytes);
    assert(region(s, h) =~= p.skip(t));
    assert(p.skip(t) =~= serialize(es));
    reveal(holds);
    reveal(snapshot_entries);
}

/// With the whole payload in place, what the header word says decides.
proof fn lemma_visible(
    media: Seq<Seq<u8>>,
    h: SnapshotHeader,
    es: Seq<Entry>,
    wear_bytes: Seq<u8>,
    prefix: Seq<u8>,
)
    requires
        h.error() is None,
        geometry_ok(h.geom()),
        super::format::media_shape(media, h.geom()),
        describes(h, es, wear_bytes),
        is_prefix(h, prefix),
        seg(media, h).subrange(0, 60) == prefix,
        seg(media, h).subrange(64, 64 + h.payload_len) == wear_bytes + serialize(es),
    ensures
        invisible(media, h) || committed(media, h, es, wear_bytes),
        seg(media, h).subrange(60, 64) == le32(COMMIT_MARKER) ==> committed(
            media,
            h,
            es,
            wear_bytes,
        ),
{
    let s = seg(media, h);
    let word = s.subrange(60, 64);
    let image = s.subrange(0, 64);
    lemma_seg_len(h);
    lemma_front(media, h);
    lemma_described(media, h, es, wear_bytes);
    assert(image =~= prefix + word);
    lemma_marker(h, prefix, word);
    law_le32_round_trip(image, 60, COMMIT_MARKER);
    assert(image.subrange(60, 64) =~= word);
    if u32_at(image, 60) == COMMIT_MARKER {
        law_header_round_trip(h, image);
    }
}

/// An erased commit word makes the snapshot invisible.
proof fn lemma_invisible(media: Seq<Seq<u8>>, h: SnapshotHeader)
    requires
        h.error() is None,
        geometry_ok(h.geom()),
        super::format::media_shape(media, h.geom()),
        seg(media, h).subrange(60, 64) == le32(ERASED_WORD),
    ensures
        invisible(media, h),
{
    let image = seg(media, h).subrange(0, 64);
    lemma_seg_len(h);
    lemma_front(media, h);
    assert(image.subrange(60, 64) =~= seg(media, h).subrange(60, 64));
    law_le32_round_trip(image, 60, ERASED_WORD);
}

/// An erased block holds no header.
proof fn lemma_erased_invisible(media: Seq<Seq<u8>>, h: SnapshotHeader)
    requires
        h.error() is None,
        geometry_ok(h.geom()),
        super::format::media_shape(media, h.geom()),
        forall|i: int|
            0 <= i < h.block_size ==> media[h.start_block as int][i] == ERASED_BYTE,
    ensures
        invisible(media, h),
{
    lemma_seg_len(h);
    lemma_front(media, h);
    let s = seg(media, h);
    let front = media[h.start_block as int].take(64);
    assert forall|i: int| 0 <= i < 4 implies s.subrange(60, 64)[i] == le32(ERASED_WORD)[i] by {
        assert(s.subrange(0, 64)[60 + i] == front[60 + i]);
    }
    assert(s.subrange(60, 64) =~= le32(ERASED_WORD));
    lemma_invisible(media, h);
}

/// Program the header bytes before the commit word.
fn write_prefix<D: BlockDevice>(device: &mut D, candidate: &SnapshotHeader) -> (r: Result<
    [u8; SNAPSHOT_PREFIX_SIZE],
    CommitError<D::Error>,
>)
    requires
        on_device(*old(device), *candidate),
        seg_erased(*old(device), *candidate),
    ensures
        programmed(*old(device), *final(device), *candidate),
        honest_commit(r, old(device).faults(), final(device).faults()),
        explained(r, *final(device), *candidate),
        seg(final(device).media(), *candidate).subrange(60, 64) == le32(ERASED_WORD),
        r is Ok ==> {
            &&& is_prefix(*candidate, r->Ok_0@)
            &&& seg(final(device).media(), *candidate).subrange(0, 60) == r->Ok_0@
            &&& forall|w: int|
                60 <= 4 * w < seg_len(*candidate) ==> #[trigger] word_fresh(
                    final(device).fresh(),
                    *candidate,
                    w,
                )
        },
{
    let ghost h = *candidate;
    let ghost d0 = *device;
    proof {
        lemma_seg_len(h);
        let s = seg(d0.media(), h);
        assert forall|i: int| 0 <= i < 4 implies s.subrange(60, 64)[i] == le32(ERASED_WORD)[i] by {
            assert(s[60 + i] == ERASED_BYTE);
        }
        assert(s.subrange(60, 64) =~= le32(ERASED_WORD));
    }
    let prefix = match candidate.encode_prefix() {
        Ok(prefix) => prefix,
        Err(_) => {
            assert(false);
            return Err(CommitError::Fatal(Error::Corrupt));
        },
    };
    let outcome = segment_program(device, candidate, 0, &prefix);
    proof {
        let a = seg(d0.media(), h);
        let b = seg(device.media(), h);
        assert forall|i: int| 60 <= i < 64 implies a[i] == b[i] by {}
        assert(b.subrange(60, 64) =~= a.subrange(60, 64));
    }
    match outcome {
        Ok(()) => {},
        Err(error) => return Err(error),
    }
    proof {
        let s = seg(device.media(), h);
        assert(s.subrange(0, 60) =~= prefix@);
        assert forall|w: int| 60 <= 4 * w < seg_len(h) implies #[trigger] word_fresh(
            device.fresh(),
            h,
            w,
        ) by {
            assert(word_fresh(d0.fresh(), h, w));
        }
        reveal(is_prefix);
    }
    Ok(prefix)
}

/// Write header prefix and payload of a snapshot into its erased segment.
#[verifier::rlimit(90)]
#[verifier::spinoff_prover]
fn write_payload<'a, D: BlockDevice>(
    device: &mut D,
    candidate: &SnapshotHeader,
    source: Option<&SnapshotHeader>,
    change: Change<'a>,
    wear_bytes: &[u8],
    Ghost(es): Ghost<Seq<Entry>>,
) -> (r: Result<[u8; SNAPSHOT_PREFIX_SIZE], CommitError<D::Error>>)
    requires
        on_device(*old(device), *candidate),
        seg_erased(*old(device), *candidate),
        match source {
            Some(source) => on_device(*old(device), *source) && disjoint(*source, *candidate)
                && holds(old(device).media(), *source, es),
            None => es.len() == 0 && change.edit() is Clear,
        },
        names_ok(change.edit(), es),
        describes(*candidate, apply(change.edit(), es), wear_bytes@),
    ensures
        programmed(*old(device), *final(device), *candidate),
        honest_commit(r, old(device).faults(), final(device).faults()),
        explained(r, *final(device), *candidate),
        seg(final(device).media(), *candidate).subrange(60, 64) == le32(ERASED_WORD),
        r is Ok ==> {
            let s = seg(final(device).media(), *candidate);
            &&& is_prefix(*candidate, r->Ok_0@)
            &&& s.subrange(0, 60) == r->Ok_0@
            &&& s.subrange(64, 64 + candidate.payload_len) == wear_bytes@ + serialize(
                apply(change.edit(), es),
            )
            &&& word_fresh(final(device).fresh(), *candidate, 15)
        },
{
    let ghost h = *candidate;
    let ghost d0 = *device;
    let ghost new = apply(change.edit(), es);
    proof {
        lemma_seg_len(h);
        lemma_base(h);
        lemma_serialize_aligned(new);
    }
    let prefix = match write_prefix(device, candidate) {
        Ok(prefix) => prefix,
        Err(error) => return Err(error),
    };
    let ghost d1 = *device;
    let ghost front = seg(d1.media(), h).subrange(0, 64);
    let mut writer = SegmentWriter { cursor: 64, pending: [0u8; 4], pending_len: 0 };
    let ghost none = Seq::<u8>::empty();
    proof {
        let s = seg(d1.media(), h);
        assert(writer.pending@.take(0) =~= none.skip(0));
        assert(s.subrange(64, 64) =~= none.take(0));
        assert(word_fresh(d1.fresh(), h, 15));
        assert(front.subrange(60, 64) =~= s.subrange(60, 64));
        assert(front.subrange(0, 60) =~= prefix@);
        assert(writer.wrote(d1, h, front, none));
    }
    let outcome = writer.bytes(device, candidate, wear_bytes, Ghost(front), Ghost(none));
    proof {
        lemma_programmed_trans(d0, d1, *device, h);
        let s = seg(device.media(), h);
        assert(s.subrange(60, 64) =~= s.subrange(0, 64).subrange(60, 64));
    }
    match outcome {
        Ok(()) => {},
        Err(error) => return Err(error),
    }
    let ghost d2 = *device;
    assert(none + wear_bytes@ =~= wear_bytes@);
    proof {
        match source {
            Some(source) => lemma_still_holds(d0, d2, h, *source, es),
            None => {},
        }
    }
    let outcome = emit_change(
        &mut writer,
        device,
        candidate,
        source,
        change,
        Ghost(front),
        Ghost(wear_bytes@),
        Ghost(es),
    );
    proof {
        lemma_programmed_trans(d0, d2, *device, h);
        let s = seg(device.media(), h);
        assert(s.subrange(60, 64) =~= s.subrange(0, 64).subrange(60, 64));
    }
    match outcome {
        Ok(()) => {},
        Err(error) => return Err(error),
    }
    let ghost out = wear_bytes@ + serialize(new);
    proof {
        let s = seg(device.media(), h);
        assert(aligned(out.len() as int) == out.len());
        assert(out.take(out.len() as int) =~= out);
        assert(s.subrange(0, 60) =~= s.subrange(0, 64).subrange(0, 60));
    }
    if writer.pending_len != 0 || writer.cursor != 64 + candidate.payload_len {
        assert(false);
        return Err(CommitError::Fatal(Error::Corrupt));
    }
    Ok(prefix)
}

proof fn lemma_erased_word()
    ensures
        le32(ERASED_WORD) == seq![ERASED_BYTE, ERASED_BYTE, ERASED_BYTE, ERASED_BYTE],
{
}

/// A successful `sync`, if `done`, and reading after that, have changed nothing but that
/// everything is durable.
pub open spec fn synced<D: BlockDevice>(before: D, after: D, done: bool) -> bool {
    &&& after.geom() == before.geom()
    &&& after.media() == before.media()
    &&& after.fresh() == before.fresh()
    &&& after.torn() == before.torn()
    &&& after.erased() == before.erased()
    &&& after.faults() >= before.faults()
    &&& ({
        ||| !done && after.pending() == before.pending() && after.writes() == before.writes()
        ||| after.pending() == Set::<(int, int)>::empty() && after.writes()
            == before.writes().push(Write::Sync)
    })
    &&& after.faults() > before.faults() ==> after.fault() is Read || after.fault() is Sync
}

/// Make a written snapshot durable and read it back before it is committed.
fn check_written<D: BlockDevice>(
    device: &mut D,
    candidate: &SnapshotHeader,
    prefix: &[u8; SNAPSHOT_PREFIX_SIZE],
) -> (r: Result<(), Error<D::Error>>)
    requires
        on_device(*old(device), *candidate),
        seg(old(device).media(), *candidate).subrange(0, 60) == prefix@,
        seg(old(device).media(), *candidate).subrange(60, 64) == le32(ERASED_WORD),
        snapshot_entries(seg(old(device).media(), *candidate), *candidate) is Some,
    ensures
        synced(*old(device), *final(device), r is Ok),
        honest(r, old(device).faults(), final(device).faults()),
        r is Err ==> r->Err_0 is Device,
{
    let ghost h = *candidate;
    let ghost d0 = *device;
    let ghost s0 = seg(d0.media(), h);
    proof {
        lemma_seg_len(h);
    }
    match device.sync() {
        Ok(()) => {},
        Err(error) => return Err(Error::Device(error)),
    }
    let mut observed = [0u8; HEADER_SIZE];
    match segment_read(device, candidate, 0, &mut observed) {
        Ok(()) => {},
        Err(error) => return Err(error),
    }
    proof {
        lemma_erased_word();
        let word = s0.subrange(60, 64);
        assert(observed@[60] == word[0] && observed@[61] == word[1]);
        assert(observed@[62] == word[2] && observed@[63] == word[3]);
        assert(observed@.subrange(0, 60) =~= s0.subrange(0, 60));
    }
    let same: bool = same_bytes(&observed[0..60], prefix);
    if !same || observed[60] != ERASED_BYTE || observed[61] != ERASED_BYTE || observed[62]
        != ERASED_BYTE || observed[63] != ERASED_BYTE {
        assert(false);
        return Err(Error::Corrupt);
    }
    validate_snapshot(device, candidate)
}

/// Make a committed snapshot durable and read it back.
fn check_committed<D: BlockDevice>(device: &mut D, candidate: &SnapshotHeader) -> (r: Result<
    (),
    Error<D::Error>,
>)
    requires
        on_device(*old(device), *candidate),
        SnapshotHeader::decoded_at(
            seg(old(device).media(), *candidate).subrange(0, 64),
            candidate.start_block,
            candidate.geom(),
        ) == Ok::<SnapshotHeader, FormatError>(*candidate),
        snapshot_entries(seg(old(device).media(), *candidate), *candidate) is Some,
    ensures
        synced(*old(device), *final(device), r is Ok),
        honest(r, old(device).faults(), final(device).faults()),
        r is Err ==> r->Err_0 is Device,
{
    proof {
        lemma_seg_len(*candidate);
    }
    let mut observed = [0u8; HEADER_SIZE];
    match device.sync() {
        Ok(()) => {},
        Err(error) => return Err(Error::Device(error)),
    }
    match segment_read(device, candidate, 0, &mut observed) {
        Ok(()) => {},
        Err(error) => return Err(error),
    }
    match SnapshotHeader::decode_at(&observed, candidate.start_block, candidate.geometry()) {
        Ok(decoded) => {
            if decoded != *candidate {
                assert(false);
                return Err(Error::Corrupt);
            }
        },
        Err(_) => {
            assert(false);
            return Err(Error::Corrupt);
        },
    }
    validate_snapshot(device, candidate)
}

/// The commit word is the only word that is pending.
spec fn only_commit_word<D: BlockDevice>(device: D, h: SnapshotHeader) -> bool {
    forall|b: int, w: int| #[trigger]
        device.pending().contains((b, w)) ==> b == h.start_block && w == 15
}

/// Program the commit word of a snapshot of which all the rest is durable.
fn set_commit_word<D: BlockDevice>(device: &mut D, candidate: &SnapshotHeader) -> (r: Result<
    (),
    Error<D::Error>,
>)
    requires
        on_device(*old(device), *candidate),
        word_fresh(old(device).fresh(), *candidate, 15),
        old(device).pending() == Set::<(int, int)>::empty(),
    ensures
        programmed(*old(device), *final(device), *candidate),
        honest(r, old(device).faults(), final(device).faults()),
        only_commit_word(*final(device), *candidate),
        final(device).writes() == old(device).writes().push(
            Write::Program {
                block: candidate.start_block as int,
                offset: 60,
                bytes: le32(COMMIT_MARKER),
            },
        ),
        seg_same_outside(old(device).media(), final(device).media(), *candidate, 60, 64),
        r is Ok ==> seg(final(device).media(), *candidate).subrange(60, 64) == le32(COMMIT_MARKER),
        r is Err ==> r->Err_0 is Device && uncertain(
            *final(device),
            *candidate,
            r->Err_0->Device_0,
        ),
{
    let ghost h = *candidate;
    let ghost d0 = *device;
    proof {
        lemma_seg_len(h);
        lemma_place(h, 0, 60, 60);
        assert(block_of(h, 60) == h.start_block);
        assert forall|w: int| 60 <= 4 * w < 64 implies #[trigger] word_fresh(d0.fresh(), h, w) by {
            assert(w == 15);
        }
    }
    let marker = commit_marker_bytes();
    let outcome = program_stretch(device, candidate, 60, &marker);
    match outcome {
        Ok(()) => Ok(()),
        Err(CommitError::Block { block: _, error }) => Err(Error::Device(error)),
        Err(CommitError::Fatal(error)) => Err(error),
    }
}

/// With all but the commit word durable, only the complete snapshot can become visible.
proof fn lemma_secured<D: BlockDevice>(
    device: D,
    h: SnapshotHeader,
    es: Seq<Entry>,
    wear_bytes: Seq<u8>,
    prefix: Seq<u8>,
)
    requires
        on_device(device, h),
        describes(h, es, wear_bytes),
        is_prefix(h, prefix),
        seg(device.media(), h).subrange(0, 60) == prefix,
        seg(device.media(), h).subrange(64, 64 + h.payload_len) == wear_bytes + serialize(es),
        only_commit_word(device, h),
    ensures
        secured(device, h, es),
        !unsettled(device, h),
{
    lemma_seg_len(h);
    let s = seg(device.media(), h);
    assert forall|media: Seq<Seq<u8>>| #[trigger] may_survive(device, media) implies settled(
        media,
        h,
        es,
    ) by {
        let t = seg(media, h);
        assert forall|i: int| 0 <= i < seg_len(h) && !(60 <= i < 64) implies t[i] == s[i] by {
            let q = lemma_split(h, i);
            let b = block_of(h, i);
            if device.pending().contains((b, q.1 / 4)) {
                lemma_place(h, 0, 60, 60);
                assert(b == h.start_block && q.1 / 4 == 15);
                assert(block_of(h, 60) == h.start_block);
                lemma_blocks_differ(h, i, 60);
            }
            assert(media[b][q.1] == device.media()[b][q.1]);
        }
        assert(t.subrange(0, 60) =~= s.subrange(0, 60));
        assert(t.subrange(64, 64 + h.payload_len) =~= s.subrange(64, 64 + h.payload_len));
        lemma_visible(media, h, es, wear_bytes, prefix);
    }
}

/// Read a written snapshot back, set its commit word, and read it back again.
#[verifier::rlimit(40)]
fn publish<D: BlockDevice>(
    device: &mut D,
    candidate: &SnapshotHeader,
    prefix: &[u8; SNAPSHOT_PREFIX_SIZE],
    Ghost(es): Ghost<Seq<Entry>>,
    Ghost(wear_bytes): Ghost<Seq<u8>>,
) -> (r: Result<(), Error<D::Error>>)
    requires
        on_device(*old(device), *candidate),
        describes(*candidate, es, wear_bytes),
        is_prefix(*candidate, prefix@),
        seg(old(device).media(), *candidate).subrange(0, 60) == prefix@,
        seg(old(device).media(), *candidate).subrange(60, 64) == le32(ERASED_WORD),
        seg(old(device).media(), *candidate).subrange(64, 64 + candidate.payload_len)
            == wear_bytes + serialize(es),
        word_fresh(old(device).fresh(), *candidate, 15),
        unsettled(*old(device), *candidate),
    ensures
        spared(*old(device), *final(device), *candidate),
        final(device).erased() == old(device).erased(),
        wrote_inside(old(device).writes(), final(device).writes(), *candidate),
        r is Ok ==> ends_with_commit(final(device).writes(), *candidate)
            && final(device).writes().len() >= old(device).writes().len() + 3,
        honest(r, old(device).faults(), final(device).faults()),
        r is Err ==> r->Err_0 is Device && uncertain(
            *final(device),
            *candidate,
            r->Err_0->Device_0,
        ),
        if unsettled(*final(device), *candidate) {
            invisible(final(device).media(), *candidate)
        } else {
            secured(*final(device), *candidate, es)
        },
        r is Ok ==> committed(final(device).media(), *candidate, es, wear_bytes),
        r is Ok ==> final(device).pending() == Set::<(int, int)>::empty(),
{
    let ghost h = *candidate;
    let ghost d0 = *device;
    let ghost s0 = seg(d0.media(), h);
    proof {
        lemma_seg_len(h);
        lemma_invisible(d0.media(), h);
        lemma_described(d0.media(), h, es, wear_bytes);
        assert(s0.subrange(0, 64).subrange(0, 60) =~= s0.subrange(0, 60));
        assert(s0.subrange(0, 64).subrange(60, 64) =~= s0.subrange(60, 64));
    }
    let outcome = check_written(device, candidate, prefix);
    let ghost d1 = *device;
    proof {
        lemma_wrote_nothing(d0.writes(), h);
        lemma_wrote_more(d0.writes(), d0.writes(), h, Write::Sync);
        if d1.pending() == Set::<(int, int)>::empty() {
            lemma_secured(d1, h, es, wear_bytes, prefix@);
        }
    }
    match outcome {
        Ok(()) => {},
        Err(error) => return Err(error),
    }
    let outcome = set_commit_word(device, candidate);
    let ghost d2 = *device;
    proof {
        lemma_spared_trans(d0, d1, d2, h);
        lemma_wrote_trans(d0.writes(), d1.writes(), d2.writes(), h);
        lemma_wrote_more(d0.writes(), d2.writes(), h, Write::Sync);
        let s2 = seg(d2.media(), h);
        assert forall|i: int| 0 <= i < seg_len(h) && !(60 <= i < 64) implies s2[i] == s0[i] by {}
        assert(s2.subrange(0, 60) =~= s0.subrange(0, 60));
        assert(s2.subrange(64, 64 + h.payload_len) =~= s0.subrange(64, 64 + h.payload_len));
        lemma_secured(d2, h, es, wear_bytes, prefix@);
        lemma_visible(d2.media(), h, es, wear_bytes, prefix@);
        lemma_described(d2.media(), h, es, wear_bytes);
        lemma_front(d2.media(), h);
    }
    match outcome {
        Ok(()) => {},
        Err(error) => return Err(error),
    }
    let outcome = check_committed(device, candidate);
    proof {
        lemma_spared_trans(d0, d2, *device, h);
        lemma_secured(*device, h, es, wear_bytes, prefix@);
    }
    outcome
}

/// Write a complete snapshot beside `source` and commit it.
///
/// The commit word is programmed only after everything else is durable and has been read
/// back.
pub(crate) fn write_candidate<'a, D: BlockDevice>(
    device: &mut D,
    candidate: &SnapshotHeader,
    source: Option<&SnapshotHeader>,
    change: Change<'a>,
    wear_bytes: &[u8],
    Ghost(es): Ghost<Seq<Entry>>,
) -> (r: Result<(), CommitError<D::Error>>)
    requires
        on_device(*old(device), *candidate),
        match source {
            Some(source) => on_device(*old(device), *source) && holds(
                old(device).media(),
                *source,
                es,
            ),
            None => es.len() == 0 && change.edit() is Clear,
        },
        names_ok(change.edit(), es),
        describes(*candidate, apply(change.edit(), es), wear_bytes@),
    ensures
        spared(*old(device), *final(device), *candidate),
        honest_commit(r, old(device).faults(), final(device).faults()),
        source is Some && !disjoint(*source->0, *candidate) ==> untouched(
            *old(device),
            *final(device),
        ) && r is Err && r->Err_0 is Fatal && r->Err_0->Fatal_0 is NoSpace,
        source is None || disjoint(*source->0, *candidate) ==> {
            &&& attempted(*old(device), *final(device), *candidate, apply(change.edit(), es))
            &&& r is Ok ==> sealed(*old(device), *final(device), *candidate)
            &&& r is Ok ==> committed(
                final(device).media(),
                *candidate,
                apply(change.edit(), es),
                wear_bytes@,
            )
            &&& r is Err && r->Err_0 is Block ==> explained(r, *final(device), *candidate)
            &&& r is Err && r->Err_0 is Fatal ==> r->Err_0->Fatal_0 is Device && uncertain(
                *final(device),
                *candidate,
                r->Err_0->Fatal_0->Device_0,
            )
        },
{
    let ghost h = *candidate;
    let ghost d0 = *device;
    let ghost new = apply(change.edit(), es);
    match source {
        Some(active) => {
            let overlapping: bool = segments_overlap(active, candidate);
            if overlapping {
                proof {
                    let n = h.block_count as int;
                    let k = choose|k: int| #[trigger]
                        occupies(active.start_block as int, active.block_span as int, n, k)
                            && occupies(h.start_block as int, h.block_span as int, n, k);
                    assert(in_seg(*active, k) && in_seg(h, k));
                }
                return Err(CommitError::Fatal(Error::NoSpace));
            }
            proof {
                assert forall|k: int| #[trigger] in_seg(*active, k) implies !in_seg(h, k) by {}
            }
        },
        None => {},
    }
    let outcome = segment_erase(device, candidate);
    let ghost d1 = *device;
    proof {
        lemma_wrote_nothing(d0.writes(), h);
        if !unclear(d1, h) {
            lemma_erased_invisible(d1.media(), h);
        }
    }
    match outcome {
        Ok(()) => {},
        Err(error) => return Err(error),
    }
    proof {
        match source {
            Some(source) => lemma_still_holds(d0, d1, h, *source, es),
            None => {},
        }
    }
    let outcome = write_payload(device, candidate, source, change, wear_bytes, Ghost(es));
    let ghost d2 = *device;
    proof {
        lemma_seg_len(h);
        lemma_spared_trans(d0, d1, d2, h);
        lemma_invisible(d2.media(), h);
        assert(run_of(h).take(h.block_span as int) =~= run_of(h));
    }
    let prefix = match outcome {
        Ok(prefix) => prefix,
        Err(error) => return Err(error),
    };
    let outcome = publish(device, candidate, &prefix, Ghost(new), Ghost(wear_bytes@));
    proof {
        lemma_spared_trans(d0, d2, *device, h);
        lemma_wrote_length(d0.writes(), d2.writes(), h);
        lemma_wrote_trans(d0.writes(), d2.writes(), device.writes(), h);
    }
    match outcome {
        Ok(()) => Ok(()),
        Err(error) => Err(CommitError::Fatal(error)),
    }
}

} // verus!
