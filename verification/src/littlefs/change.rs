//! Planning a change: how long the new snapshot will be, what CRC it will have,
//! and how many entries it will hold.

use vstd::prelude::*;

use super::Error;
use super::format::{BlockDevice, Crc32Mpeg2, Geometry, RECORD_FLAG_DIRECTORY, RecordHeader, SnapshotHeader, crc32_mpeg2, crc_from, law_crc_incremental, law_record_header_round_trip, table_len, wear_table_size};
use super::names::{is_descendant, moved, path_ok, same_bytes};
use super::records::{COPY_BUFFER_SIZE, Record, holds, lemma_base, lemma_entry_record, lemma_held, read_record};
use super::segment::{geometry_ok, honest, lemma_seg_len, on_device, seg, seg_len, segment_read_front, untouched};
use super::tree::{Edit, Entry, added, all_ok, apply, data_end, edited, entry_header, entry_len, entry_ok, kept, lemma_pad4, lemma_record_bytes_len, lemma_serialize_concat, lemma_serialize_one, moved_names_fit, moves, offset_of, record_bytes, serialize, zeros};

verus! {

/// A change of the filesystem.
#[derive(Clone, Copy)]
pub enum Change<'a> {
    Write { name: &'a [u8], data: &'a [u8] },
    Mkdir { name: &'a [u8] },
    Remove { name: &'a [u8] },
    Rename { old_name: &'a [u8], new_name: &'a [u8], recursive: bool },
    Clear,
    /// Static wear leveling: rewrite every record unchanged at a less-worn
    /// location.
    Level,
}

impl<'a> Change<'a> {
    /// What the change means.
    pub open spec fn edit(self) -> Edit {
        match self {
            Change::Write { name, data } => Edit::Write { name: name@, data: data@ },
            Change::Mkdir { name } => Edit::Mkdir { name: name@ },
            Change::Remove { name } => Edit::Remove { name: name@ },
            Change::Rename { old_name, new_name, recursive } => Edit::Rename {
                old_name: old_name@,
                new_name: new_name@,
                recursive,
            },
            Change::Clear => Edit::Clear,
            Change::Level => Edit::Level,
        }
    }
}

/// The names that the change brings in can be stored.
pub open spec fn names_ok(edit: Edit, es: Seq<Entry>) -> bool {
    match edit {
        Edit::Write { name, .. } => path_ok(name) && 1 <= name.len() <= 63,
        Edit::Mkdir { name } => path_ok(name) && 1 <= name.len() <= 63,
        Edit::Rename { old_name, new_name, recursive } => path_ok(new_name) && 1 <= new_name.len()
            <= 63 && moved_names_fit(es, old_name, new_name, recursive),
        _ => true,
    }
}

/// Number of payload bytes that a snapshot of the device can hold.
pub open spec fn capacity(g: Geometry) -> int {
    (g.block_count as int / 2) * g.block_size - 64
}

/// The entries fit into one snapshot.
pub open spec fn fits(es: Seq<Entry>, g: Geometry) -> bool {
    &&& es.len() <= 32
    &&& table_len(g.block_count as int) + serialize(es).len() <= capacity(g)
}

pub proof fn lemma_capacity(g: Geometry)
    requires
        geometry_ok(g),
    ensures
        0 <= capacity(g) <= u32::MAX - 64,
        capacity(g) % 4 == 0,
{
    let half = g.block_count as int / 2;
    let bs = g.block_size as int;
    assert(bs <= half * bs <= g.block_count * bs) by (nonlinear_arith)
        requires
            1 <= half <= g.block_count,
            bs >= 0,
    ;
    vstd::arithmetic::mul::lemma_mul_is_commutative(g.block_count as int, bs);
    let q = bs / 4;
    assert(half * bs == (half * q) * 4) by (nonlinear_arith)
        requires
            bs == 4 * q,
    ;
    vstd::arithmetic::div_mod::lemma_mod_multiples_basic(half * q, 4);
}

/// Number of payload bytes that a snapshot of the device can hold.
pub(crate) fn snapshot_capacity(geometry: Geometry) -> (r: u32)
    requires
        geometry_ok(geometry),
    ensures
        r == capacity(geometry),
{
    proof {
        lemma_capacity(geometry);
    }
    let half: u32 = geometry.block_count / 2;
    half * geometry.block_size - 64
}

/// What becomes of an existing record.
pub enum ExistingAction {
    Keep,
    Skip,
    Rename(NameBuffer),
}

/// A name under construction.
#[derive(Clone, Copy)]
pub struct NameBuffer {
    pub bytes: [u8; 63],
    pub len: usize,
}

impl NameBuffer {
    /// The name so far.
    pub open spec fn text(self) -> Seq<u8> {
        self.bytes@.take(self.len as int)
    }

    pub(crate) fn as_bytes(&self) -> (r: &[u8])
        requires
            self.len <= 63,
        ensures
            r@ == self.text(),
    {
        assert(self.bytes@.subrange(0, self.len as int) =~= self.text());
        &self.bytes[0..self.len]
    }

    /// `name` with its leading `old_prefix` replaced; nothing if that is too
    /// long for a name.
    pub(crate) fn replace_prefix(name: &[u8], old_prefix: &[u8], new_prefix: &[u8]) -> (r: Option<
        NameBuffer,
    >)
        requires
            old_prefix@.len() <= name@.len(),
        ensures
            r is Some <==> moved(name@, old_prefix@, new_prefix@).len() <= 63,
            r is Some ==> r->0.len <= 63 && r->0.text() == moved(
                name@,
                old_prefix@,
                new_prefix@,
            ),
    {
        let front: usize = new_prefix.len();
        let cut: usize = old_prefix.len();
        let length: usize = name.len();
        let rest: usize = length - cut;
        if front > 63 || rest > 63 - front {
            return None;
        }
        let len: usize = front + rest;
        let mut bytes = [0u8; 63];
        let mut i: usize = 0;
        while i < front
            invariant
                i <= front <= 63,
                front == new_prefix@.len(),
                forall|j: int| 0 <= j < i ==> bytes@[j] == new_prefix@[j],
            decreases front - i,
        {
            bytes[i] = new_prefix[i];
            i += 1;
        }
        let mut k: usize = 0;
        while k < rest
            invariant
                k <= rest,
                front + rest <= 63,
                cut + rest == length,
                length == name@.len(),
                front == new_prefix@.len(),
                forall|j: int| 0 <= j < front ==> bytes@[j] == new_prefix@[j],
                forall|j: int|
                    front <= j < front + k ==> #[trigger] bytes@[j] == name@[cut + (j - front)],
            decreases rest - k,
        {
            bytes[front + k] = name[cut + k];
            k += 1;
        }
        let buffer = NameBuffer { bytes, len };
        proof {
            let m = moved(name@, old_prefix@, new_prefix@);
            assert forall|j: int| 0 <= j < m.len() implies buffer.text()[j] == m[j] by {
                if j >= front {
                    assert(bytes@[j] == name@[cut + (j - front)]);
                }
            }
            assert(buffer.text() =~= m);
        }
        Some(buffer)
    }
}

impl<'a> Change<'a> {
    /// What the change makes of an existing record.
    pub(crate) fn action_for(self, name: &[u8], Ghost(e): Ghost<Entry>) -> (r: Option<
        ExistingAction,
    >)
        requires
            e.name == name@,
        ensures
            r is None ==> self.edit() is Rename && moves(
                e.name,
                self.edit()->old_name,
                self.edit()->recursive,
            ) && moved(e.name, self.edit()->old_name, self.edit()->new_name).len() > 63,
            r is Some ==> match r->0 {
                ExistingAction::Keep => edited(self.edit(), e) == Some(e),
                ExistingAction::Skip => edited(self.edit(), e) is None,
                ExistingAction::Rename(buffer) => buffer.len <= 63 && edited(self.edit(), e)
                    == Some(Entry { name: buffer.text(), ..e }) && self.edit() is Rename && moves(
                    e.name,
                    self.edit()->old_name,
                    self.edit()->recursive,
                ),
            },
    {
        match self {
            Change::Write { name: replaced, data: _ } => {
                if same_bytes(name, replaced) {
                    Some(ExistingAction::Skip)
                } else {
                    Some(ExistingAction::Keep)
                }
            },
            Change::Remove { name: removed } => {
                if same_bytes(name, removed) {
                    Some(ExistingAction::Skip)
                } else {
                    Some(ExistingAction::Keep)
                }
            },
            Change::Rename { old_name, new_name, recursive } => {
                if same_bytes(name, old_name) || (recursive && is_descendant(name, old_name)) {
                    match NameBuffer::replace_prefix(name, old_name, new_name) {
                        Some(buffer) => Some(ExistingAction::Rename(buffer)),
                        None => None,
                    }
                } else {
                    Some(ExistingAction::Keep)
                }
            },
            Change::Clear => Some(ExistingAction::Skip),
            Change::Mkdir { name: _ } => Some(ExistingAction::Keep),
            Change::Level => Some(ExistingAction::Keep),
        }
    }
}

/// The header and its encoding of a record; nothing if the record is too long.
pub(crate) fn record_encoding(name_len: usize, data_len: u32, data_crc: u32, flags: u16) -> (r:
    Option<(RecordHeader, [u8; 20])>)
    requires
        1 <= name_len <= 63,
        flags <= 1,
    ensures
        r is Some <==> 23 + name_len + data_len <= u32::MAX,
        r is Some ==> r.unwrap().0 == (RecordHeader {
            record_len: super::format::record_len_of(name_len as int, data_len as int) as u32,
            data_len,
            data_crc,
            name_len: name_len as u16,
            flags,
        }) && r.unwrap().1@ == r.unwrap().0.image() && r.unwrap().0.error() is None,
{
    let header = match RecordHeader::new(name_len as u16, data_len, data_crc, flags) {
        Ok(header) => header,
        Err(_) => return None,
    };
    match header.encode() {
        Ok(encoded) => Some((header, encoded)),
        Err(_) => None,
    }
}

/// What a plan came to.
pub struct PlanStats {
    pub payload_len: u32,
    pub payload_crc: u32,
    pub file_count: u32,
}

pub struct StatsBuilder {
    pub payload_len: u32,
    pub crc: Crc32Mpeg2,
    pub file_count: u32,
}

impl StatsBuilder {
    /// The builder stands for the bytes `out`, with `n` records.
    pub open spec fn tracks(self, seed: u32, out: Seq<u8>, n: int) -> bool {
        &&& self.payload_len == out.len()
        &&& self.crc@ == crc_from(seed, out)
        &&& self.file_count == n
    }

    /// `seed` is the CRC state of every payload byte written before the
    /// records.
    fn new(seed: Crc32Mpeg2) -> (r: Self)
        ensures
            r.tracks(seed@, Seq::empty(), 0),
    {
        Self { payload_len: 0, crc: seed, file_count: 0 }
    }

    /// Count bytes; false if that is more than can be counted.
    fn bytes(&mut self, bytes: &[u8], Ghost(seed): Ghost<u32>, Ghost(out): Ghost<Seq<u8>>) -> (r:
        bool)
        requires
            old(self).tracks(seed, out, old(self).file_count as int),
        ensures
            r == (out.len() + bytes@.len() <= u32::MAX),
            r ==> final(self).tracks(seed, out + bytes@, old(self).file_count as int),
    {
        if bytes.len() > u32::MAX as usize {
            return false;
        }
        match self.payload_len.checked_add(bytes.len() as u32) {
            Some(total) => {
                self.payload_len = total;
                self.crc.update(bytes);
                proof {
                    law_crc_incremental(seed, out, bytes@);
                }
                true
            },
            None => false,
        }
    }

    /// Count a few zero bytes.
    fn zeros(&mut self, length: u32, Ghost(seed): Ghost<u32>, Ghost(out): Ghost<Seq<u8>>) -> (r:
        bool)
        requires
            old(self).tracks(seed, out, old(self).file_count as int),
            length <= 4,
        ensures
            r == (out.len() + length <= u32::MAX),
            r ==> final(self).tracks(
                seed,
                out + zeros(length as int),
                old(self).file_count as int,
            ),
    {
        let word = [0u8; 4];
        assert(word@.subrange(0, length as int) =~= zeros(length as int));
        self.bytes(&word[0..length as usize], Ghost(seed), Ghost(out))
    }

    /// Count a record; false if that is one too many.
    fn add_file(&mut self) -> (r: bool)
        requires
            old(self).file_count <= 32,
        ensures
            r == (old(self).file_count < 32),
            final(self).payload_len == old(self).payload_len,
            final(self).crc == old(self).crc,
            final(self).file_count == old(self).file_count + 1,
    {
        self.file_count = self.file_count + 1;
        self.file_count <= 32
    }
}

/// Count bytes of a segment.
fn stats_segment<D: BlockDevice>(
    builder: &mut StatsBuilder,
    device: &mut D,
    snapshot: &SnapshotHeader,
    payload_offset: u32,
    length: u32,
    Ghost(seed): Ghost<u32>,
    Ghost(out): Ghost<Seq<u8>>,
) -> (r: Result<(), Error<D::Error>>)
    requires
        on_device(*old(device), *snapshot),
        old(builder).tracks(seed, out, old(builder).file_count as int),
        snapshot.base() + payload_offset + length <= seg_len(*snapshot),
    ensures
        untouched(*old(device), *final(device)),
        honest(r, old(device).faults(), final(device).faults()),
        r is Err ==> r->Err_0 is Device || r->Err_0 is NoSpace,
        r is Err && r->Err_0 is NoSpace ==> out.len() + length > u32::MAX,
        r is Ok ==> final(builder).tracks(
            seed,
            out + seg(old(device).media(), *snapshot).subrange(
                snapshot.base() + payload_offset,
                snapshot.base() + payload_offset + length,
            ),
            old(builder).file_count as int,
        ),
{
    let ghost h = *snapshot;
    let ghost d0 = *device;
    let ghost s = seg(d0.media(), h);
    let ghost at = h.base() + payload_offset;
    let ghost n = builder.file_count as int;
    proof {
        lemma_base(h);
        lemma_seg_len(h);
        assert(out + s.subrange(at, at) =~= out);
    }
    let base: u32 = snapshot.records_base();
    let mut buffer = [0u8; COPY_BUFFER_SIZE];
    let mut copied: u32 = 0;
    while copied < length
        invariant
            h == *snapshot,
            d0 == *old(device),
            on_device(d0, h),
            untouched(d0, *device),
            device.faults() == d0.faults(),
            s == seg(d0.media(), h),
            base == h.base(),
            at == h.base() + payload_offset,
            at + length <= seg_len(h) <= u32::MAX,
            copied <= length,
            n == builder.file_count,
            n == old(builder).file_count,
            builder.tracks(seed, out + s.subrange(at, at + copied), n),
        decreases length - copied,
    {
        let remaining: u32 = length - copied;
        let amount: usize = if remaining < COPY_BUFFER_SIZE as u32 {
            remaining as usize
        } else {
            COPY_BUFFER_SIZE
        };
        let logical: u32 = base + payload_offset + copied;
        match segment_read_front(device, snapshot, logical, &mut buffer, amount) {
            Ok(()) => {},
            Err(error) => return Err(error),
        }
        let ghost piece = s.subrange(at + copied, at + copied + amount);
        assert(buffer@.subrange(0, amount as int) =~= buffer@.take(amount as int));
        assert(s.subrange(at, at + copied) + piece =~= s.subrange(at, at + copied + amount));
        assert((out + s.subrange(at, at + copied)) + piece =~= out + s.subrange(
            at,
            at + copied + amount,
        ));
        if !builder.bytes(
            &buffer[0..amount],
            Ghost(seed),
            Ghost(out + s.subrange(at, at + copied)),
        ) {
            return Err(Error::NoSpace);
        }
        copied = copied + amount as u32;
    }
    Ok(())
}

/// The parts that make up a record.
pub proof fn lemma_record_parts(e: Entry, out: Seq<u8>, header: RecordHeader)
    requires
        entry_ok(e),
        header == entry_header(e),
    ensures
        ((out + header.image()) + e.name) + e.data + zeros(entry_len(e) - data_end(e)) == out
            + record_bytes(e),
        header.image().len() == 20,
        data_end(e) <= entry_len(e) < data_end(e) + 4,
        header.record_len == entry_len(e),
{
    reveal(record_bytes);
    lemma_record_bytes_len(e);
    law_record_header_round_trip(header);
    lemma_pad4(data_end(e));
    assert(((out + header.image()) + e.name) + e.data + zeros(entry_len(e) - data_end(e)) =~= out
        + record_bytes(e));
}

/// Count a new record; false if there is no room for it.
fn stats_new_record(
    builder: &mut StatsBuilder,
    name: &[u8],
    data: &[u8],
    flags: u16,
    Ghost(seed): Ghost<u32>,
    Ghost(out): Ghost<Seq<u8>>,
) -> (r: bool)
    requires
        old(builder).tracks(seed, out, old(builder).file_count as int),
        old(builder).file_count <= 32,
        path_ok(name@),
        1 <= name@.len() <= 63,
        flags <= 1,
        flags == 1 ==> data@.len() == 0,
    ensures
        ({
            let e = Entry { name: name@, directory: flags == 1, data: data@ };
            &&& !r ==> old(builder).file_count == 32 || out.len() + entry_len(e) > u32::MAX
                || data_end(e) + 3 > u32::MAX
            &&& r ==> entry_ok(e) && old(builder).file_count < 32 && final(builder).tracks(
                seed,
                out + record_bytes(e),
                old(builder).file_count + 1,
            )
        }),
{
    let ghost e = Entry { name: name@, directory: flags == 1, data: data@ };
    proof {
        lemma_pad4(data_end(e));
    }
    if data.len() > u32::MAX as usize {
        return false;
    }
    let data_len: u32 = data.len() as u32;
    let (header, encoded) = match record_encoding(name.len(), data_len, crc32_mpeg2(data), flags) {
        Some(pair) => pair,
        None => return false,
    };
    proof {
        assert(entry_header(e) == header);
        lemma_record_parts(e, out, header);
    }
    if !builder.bytes(&encoded, Ghost(seed), Ghost(out)) {
        return false;
    }
    let ghost out1 = out + header.image();
    if !builder.bytes(name, Ghost(seed), Ghost(out1)) {
        return false;
    }
    let ghost out2 = out1 + name@;
    if !builder.bytes(data, Ghost(seed), Ghost(out2)) {
        return false;
    }
    let ghost out3 = out2 + data@;
    let used: u32 = 20 + name.len() as u32 + data_len;
    if !builder.zeros(header.record_len - used, Ghost(seed), Ghost(out3)) {
        return false;
    }
    builder.add_file()
}

/// Count a record under a new name.
fn stats_renamed_record<D: BlockDevice>(
    builder: &mut StatsBuilder,
    device: &mut D,
    snapshot: &SnapshotHeader,
    record: &Record,
    new_name: &[u8],
    Ghost(seed): Ghost<u32>,
    Ghost(out): Ghost<Seq<u8>>,
    Ghost(es): Ghost<Seq<Entry>>,
    Ghost(i): Ghost<int>,
) -> (r: Result<(), Error<D::Error>>)
    requires
        on_device(*old(device), *snapshot),
        holds(old(device).media(), *snapshot, es),
        record.is_entry(es, i),
        old(builder).tracks(seed, out, old(builder).file_count as int),
        old(builder).file_count <= 32,
        path_ok(new_name@),
        1 <= new_name@.len() <= 63,
    ensures
        untouched(*old(device), *final(device)),
        honest(r, old(device).faults(), final(device).faults()),
        r is Err ==> r->Err_0 is Device || r->Err_0 is NoSpace,
        ({
            let e = Entry { name: new_name@, ..es[i] };
            &&& r is Err && r->Err_0 is NoSpace ==> old(builder).file_count == 32 || out.len()
                + entry_len(e) > u32::MAX || data_end(e) + 3 > u32::MAX
            &&& r is Ok ==> entry_ok(e) && old(builder).file_count < 32 && final(builder).tracks(
                seed,
                out + record_bytes(e),
                old(builder).file_count + 1,
            )
        }),
{
    let ghost h = *snapshot;
    let ghost s = seg(device.media(), h);
    let ghost e = Entry { name: new_name@, ..es[i] };
    proof {
        lemma_entry_record(device.media(), h, es, i);
        lemma_pad4(data_end(e));
    }
    let (header, encoded) = match record_encoding(
        new_name.len(),
        record.data_len,
        record.data_crc,
        record.flags,
    ) {
        Some(pair) => pair,
        None => return Err(Error::NoSpace),
    };
    proof {
        assert(entry_header(e) == header);
        lemma_record_parts(e, out, header);
    }
    if !builder.bytes(&encoded, Ghost(seed), Ghost(out)) {
        return Err(Error::NoSpace);
    }
    let ghost out1 = out + header.image();
    if !builder.bytes(new_name, Ghost(seed), Ghost(out1)) {
        return Err(Error::NoSpace);
    }
    let ghost out2 = out1 + new_name@;
    match stats_segment(
        builder,
        device,
        snapshot,
        record.data_offset,
        record.data_len,
        Ghost(seed),
        Ghost(out2),
    ) {
        Ok(()) => {},
        Err(error) => return Err(error),
    }
    let ghost out3 = out2 + e.data;
    let used: u32 = 20 + new_name.len() as u32 + record.data_len;
    if !builder.zeros(header.record_len - used, Ghost(seed), Ghost(out3)) {
        return Err(Error::NoSpace);
    }
    if !builder.add_file() {
        return Err(Error::NoSpace);
    }
    Ok(())
}

/// One more existing entry has been dealt with.
pub proof fn lemma_kept_step(edit: Edit, es: Seq<Entry>, i: int)
    requires
        0 <= i < es.len(),
    ensures
        kept(edit, es.take(i + 1)) == (match edited(edit, es[i]) {
            Some(e) => kept(edit, es.take(i)).push(e),
            None => kept(edit, es.take(i)),
        }),
        edited(edit, es[i]) is Some ==> serialize(kept(edit, es.take(i + 1))) == serialize(
            kept(edit, es.take(i)),
        ) + record_bytes(edited(edit, es[i])->0),
{
    assert(es.take(i + 1).drop_last() =~= es.take(i));
    if edited(edit, es[i]) is Some {
        let e = edited(edit, es[i])->0;
        let a = kept(edit, es.take(i));
        assert(a.push(e).drop_last() =~= a);
        assert(serialize(a.push(e)) =~= serialize(a) + record_bytes(e));
    }
}

/// What is kept so far is no longer than what there is in the end.
pub proof fn lemma_kept_prefix(edit: Edit, es: Seq<Entry>, i: int)
    requires
        0 <= i <= es.len(),
    ensures
        kept(edit, es.take(i)).len() <= kept(edit, es).len(),
        serialize(kept(edit, es.take(i))).len() <= serialize(kept(edit, es)).len(),
    decreases es.len() - i,
{
    if i < es.len() {
        lemma_kept_prefix(edit, es, i + 1);
        lemma_kept_step(edit, es, i);
    } else {
        assert(es.take(i) =~= es);
    }
}

pub proof fn lemma_entry_len_bytes(e: Entry)
    requires
        e.name.len() <= 63,
    ensures
        record_bytes(e).len() == entry_len(e),
        entry_len(e) >= data_end(e),
{
    reveal(record_bytes);
    lemma_pad4(data_end(e));
    assert(entry_header(e).image().len() == 20);
}

/// A list with an entry that is too long does not fit.
proof fn lemma_too_long(edit: Edit, es: Seq<Entry>, i: int, g: Geometry)
    requires
        geometry_ok(g),
        0 <= i < es.len(),
        edited(edit, es[i]) is Some,
        edited(edit, es[i])->0.name.len() <= 63,
        kept(edit, es.take(i)).len() >= 32 || serialize(kept(edit, es.take(i))).len() + entry_len(
            edited(edit, es[i])->0,
        ) > u32::MAX || data_end(edited(edit, es[i])->0) + 3 > u32::MAX,
    ensures
        !fits(apply(edit, es), g),
{
    let e = edited(edit, es[i])->0;
    lemma_capacity(g);
    lemma_kept_step(edit, es, i);
    lemma_kept_prefix(edit, es, i + 1);
    lemma_entry_len_bytes(e);
    lemma_serialize_concat(kept(edit, es), added(edit));
    lemma_pad4(2 * g.block_count);
}

/// The entries that are kept so far can be stored.
pub open spec fn kept_ok(edit: Edit, es: Seq<Entry>, n: int) -> bool {
    all_ok(kept(edit, es.take(n)))
}

/// Work out what the change comes to.
#[verifier::rlimit(30)]
pub(crate) fn calculate_change<'a, D: BlockDevice>(
    device: &mut D,
    snapshot: &SnapshotHeader,
    change: Change<'a>,
    crc_seed: Crc32Mpeg2,
    Ghost(es): Ghost<Seq<Entry>>,
) -> (r: Result<PlanStats, Error<D::Error>>)
    requires
        on_device(*old(device), *snapshot),
        holds(old(device).media(), *snapshot, es),
        names_ok(change.edit(), es),
    ensures
        untouched(*old(device), *final(device)),
        honest(r, old(device).faults(), final(device).faults()),
        r is Err ==> r->Err_0 is Device || r->Err_0 is NoSpace,
        r is Err && r->Err_0 is NoSpace ==> !fits(apply(change.edit(), es), snapshot.geom()),
        r is Ok ==> {
            let new = apply(change.edit(), es);
            &&& fits(new, snapshot.geom())
            &&& all_ok(new)
            &&& r->Ok_0.payload_len == serialize(new).len()
            &&& r->Ok_0.payload_crc == crc_from(crc_seed@, serialize(new))
            &&& r->Ok_0.file_count == new.len()
        },
{
    let ghost h = *snapshot;
    let ghost d0 = *device;
    let ghost edit = change.edit();
    let ghost seed = crc_seed@;
    let ghost g = h.geom();
    let mut builder = StatsBuilder::new(crc_seed);
    let mut offset: u32 = 0;
    let mut index: u32 = 0;
    proof {
        lemma_held(d0.media(), h, es);
        lemma_seg_len(h);
        assert(es.take(0) =~= Seq::<Entry>::empty());
        assert(kept(edit, es.take(0)) =~= Seq::<Entry>::empty());
        assert(serialize(kept(edit, es.take(0))) =~= Seq::<u8>::empty());
    }
    while index < snapshot.file_count
        invariant
            h == *snapshot,
            g == h.geom(),
            d0 == *old(device),
            on_device(d0, h),
            holds(d0.media(), h, es),
            names_ok(edit, es),
            edit == change.edit(),
            untouched(d0, *device),
            device.faults() == d0.faults(),
            es.len() == h.file_count,
            all_ok(es),
            index <= es.len(),
            offset == offset_of(es, index as int),
            seg_len(h) <= u32::MAX,
            builder.file_count <= 32,
            builder.tracks(
                seed,
                serialize(kept(edit, es.take(index as int))),
                kept(edit, es.take(index as int)).len() as int,
            ),
            kept_ok(edit, es, index as int),
        decreases snapshot.file_count - index,
    {
        let ghost i = index as int;
        let ghost out = serialize(kept(edit, es.take(i)));
        proof {
            lemma_entry_record(d0.media(), h, es, i);
            lemma_kept_step(edit, es, i);
        }
        let record = match read_record(device, snapshot, offset) {
            Ok(record) => record,
            Err(error) => return Err(error),
        };
        assert(record.is_entry(es, i));
        let action = match change.action_for(record.name_bytes(), Ghost(es[i])) {
            Some(action) => action,
            None => {
                assert(moves(es[i].name, edit->old_name, edit->recursive));
                assert(false);
                return Err(Error::NoSpace);
            },
        };
        match action {
            ExistingAction::Keep => {
                proof {
                    lemma_record_bytes_len(es[i]);
                    if builder.file_count == 32 || out.len() + entry_len(es[i]) > u32::MAX {
                        lemma_too_long(edit, es, i, g);
                    }
                }
                match stats_segment(
                    &mut builder,
                    device,
                    snapshot,
                    record.record_offset,
                    record.record_len,
                    Ghost(seed),
                    Ghost(out),
                ) {
                    Ok(()) => {},
                    Err(error) => return Err(error),
                }
                if !builder.add_file() {
                    return Err(Error::NoSpace);
                }
            },
            ExistingAction::Skip => {},
            ExistingAction::Rename(buffer) => {
                let ghost e = Entry { name: buffer.text(), ..es[i] };
                proof {
                    assert(path_ok(es[i].name));
                    super::names::lemma_moved_ok(es[i].name, edit->old_name, edit->new_name);
                    if builder.file_count == 32 || out.len() + entry_len(e) > u32::MAX || data_end(
                        e,
                    ) + 3 > u32::MAX {
                        lemma_too_long(edit, es, i, g);
                    }
                }
                match stats_renamed_record(
                    &mut builder,
                    device,
                    snapshot,
                    &record,
                    buffer.as_bytes(),
                    Ghost(seed),
                    Ghost(out),
                    Ghost(es),
                    Ghost(i),
                ) {
                    Ok(()) => {},
                    Err(error) => return Err(error),
                }
            },
        }
        offset = offset + record.record_len;
        index += 1;
    }
    proof {
        assert(es.take(index as int) =~= es);
        lemma_capacity(g);
        lemma_serialize_concat(kept(edit, es), added(edit));
        lemma_pad4(2 * g.block_count);
    }
    let ghost out = serialize(kept(edit, es));
    match change {
        Change::Write { name, data } => {
            let ghost e = Entry { name: name@, directory: false, data: data@ };
            proof {
                lemma_serialize_one(e);
                lemma_entry_len_bytes(e);
            }
            if !stats_new_record(&mut builder, name, data, 0, Ghost(seed), Ghost(out)) {
                return Err(Error::NoSpace);
            }
        },
        Change::Mkdir { name } => {
            let empty = [0u8; 0];
            let ghost e = Entry { name: name@, directory: true, data: Seq::<u8>::empty() };
            proof {
                assert(empty@ =~= Seq::<u8>::empty());
                lemma_serialize_one(e);
                lemma_entry_len_bytes(e);
            }
            if !stats_new_record(
                &mut builder,
                name,
                &empty,
                RECORD_FLAG_DIRECTORY,
                Ghost(seed),
                Ghost(out),
            ) {
                return Err(Error::NoSpace);
            }
        },
        _ => {
            proof {
                assert(added(edit) =~= Seq::<Entry>::empty());
                assert(apply(edit, es) =~= kept(edit, es));
            }
        },
    }
    let table: u32 = wear_table_size(snapshot.block_count);
    let total: u32 = match builder.payload_len.checked_add(table) {
        Some(total) => total,
        None => return Err(Error::NoSpace),
    };
    if total > snapshot_capacity(snapshot.geometry()) {
        return Err(Error::NoSpace);
    }
    Ok(
        PlanStats {
            payload_len: builder.payload_len,
            payload_crc: builder.crc.finalize(),
            file_count: builder.file_count,
        },
    )
}

} // verus!
