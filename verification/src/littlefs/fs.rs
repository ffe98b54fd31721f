//! The mounted filesystem.

use vstd::prelude::*;
use vstd::string::StringSliceAdditionalSpecFns;
use vstd::utf8::encode_utf8;

use super::change::{Change, NameBuffer, calculate_change, capacity, fits, lemma_capacity, names_ok, snapshot_capacity};
use super::commit::{attempted, committed, describes, disjoint, ends_with_commit, invisible, sealed, secured, settled, uncertain, unclear, unsettled, write_candidate};
use super::format::{BlockDevice, CRC32_MPEG2_INITIAL, Crc32Mpeg2, FormatError, Geometry, HEADER_SIZE, MAX_FILES, MAX_WEAR_BLOCKS, MAX_WEAR_TABLE_SIZE, SnapshotHeader, checked_snapshot_span, crc32_mpeg2, crc_of, encode_wear_table, lemma_decoded_at, law_crc_incremental, law_next_generation_is_newer, law_span_is_least, law_synced_media_survive, law_wear_table_round_trip, may_survive, media_shape, newer, span_of, table_bytes, table_len, u16_at, wear_table_size};
use super::names::{base_name, base_of, descendant, is_descendant, lemma_base_utf8, moved, parent_name, parent_of, path_ok, same_bytes, text, valid_name, validate_name};
use super::records::{Record, ensure_parent_directory, find_record, holds, lemma_base, lemma_entry_record, lemma_held, parent_result, read_record, snapshot_entries, snapshot_has_descendant};
use super::segment::{CommitError, block_of, geometry_ok, honest, in_seg, lemma_seg_len, lemma_split, lemma_spared_seg, on_device, run_of, seg, seg_len, segment_read, segment_read_front, spared, untouched};
use super::tree::{Edit, Entry, all_ok, apply, contains_name, data_end, distinct, entry_len, has_below, has_dir, kept, law_clear_empties, law_level_changes_nothing, law_mkdir_adds_directory, law_remove_removes, law_rename_moves_subtree, law_write_read_back, lemma_kept_has, lemma_record_bytes_len, lookup, moved_names_fit, moves, name_end, offset_of, place_ok, position, rename_ok, rooted, serialize, tree_ok};
use super::validate::{law_newest_is_found, read_wear_table, scan_active, scanned, snapshot_at, table_at, validate_snapshot};
use super::wear::{are_bounds, bad, best_below, bumped, candidate, choose_start_block, choose_virgin_start, count, entry_of, halved, incremented_wear, mark_bad, occupies, overlap, rescaled_wear, saturated, usable, wrap};
use super::{EntryKind, Error, FileInfo, FsInfo};

verus! {

/// How often one change looks for another place when a block turns out bad.
pub const MAX_COMMIT_ATTEMPTS: u32 = 4;

/// Mounted snapshot filesystem that exclusively owns its block device.
///
/// The `wear` array mirrors the per-block erase counters of the active
/// snapshot. Every new snapshot goes to the least worn run of blocks that
/// shares none with the active one; `level` moves an idle snapshot there
/// without changing any data.
pub struct FileSystem<D: BlockDevice> {
    device: D,
    geometry: Geometry,
    active: SnapshotHeader,
    recovery_required: bool,
    wear: [u16; MAX_WEAR_BLOCKS],
}

/// The snapshot `h` is committed and valid on the device, and `wear` are its
/// erase counters.
pub open spec fn sits<D: BlockDevice>(device: D, h: SnapshotHeader, wear: Seq<u16>) -> bool {
    &&& on_device(device, h)
    &&& SnapshotHeader::decoded_at(
        device.media()[h.start_block as int].take(64),
        h.start_block,
        h.geom(),
    ) == Ok::<SnapshotHeader, FormatError>(h)
    &&& snapshot_entries(seg(device.media(), h), h) is Some
    &&& 64 + table_len(h.block_count as int) <= seg_len(h)
    &&& wear.len() == 64
    &&& table_at(seg(device.media(), h), wear, h.block_count as int)
}

/// The entries of the snapshot `h`.
#[verifier::opaque]
pub open spec fn entries_of<D: BlockDevice>(device: D, h: SnapshotHeader) -> Seq<Entry> {
    snapshot_entries(seg(device.media(), h), h)->0
}

/// All counters halved if one of them has come near its limit.
pub open spec fn rescaled(wear: Seq<u16>, block_count: int) -> Seq<u16> {
    Seq::new(
        64,
        |b: int|
            if saturated(wear, block_count) && b < block_count {
                halved(wear[b])
            } else {
                wear[b]
            },
    )
}

/// The counters after the blocks of a run were erased once more.
pub open spec fn incremented(wear: Seq<u16>, start: int, span: int, block_count: int) -> Seq<u16> {
    Seq::new(
        64,
        |b: int|
            if occupies(start, span, block_count, b) {
                bumped(wear[b])
            } else {
                wear[b]
            },
    )
}

proof fn lemma_sits<D: BlockDevice>(device: D, h: SnapshotHeader, wear: Seq<u16>)
    requires
        sits(device, h, wear),
    ensures
        holds(device.media(), h, entries_of(device, h)),
        tree_ok(entries_of(device, h)),
        all_ok(entries_of(device, h)),
        entries_of(device, h).len() == h.file_count,
        serialize(entries_of(device, h)).len() == h.records(),
{
    reveal(holds);
    reveal(entries_of);
    reveal(snapshot_entries);
    lemma_held(device.media(), h, entries_of(device, h));
}

/// A valid snapshot holds its entries.
proof fn lemma_valid_holds(media: Seq<Seq<u8>>, h: SnapshotHeader)
    requires
        snapshot_entries(seg(media, h), h) is Some,
    ensures
        holds(media, h, snapshot_entries(seg(media, h), h)->0),
{
    reveal(holds);
    reveal(snapshot_entries);
}

/// A snapshot stays where it is while another segment is written.
proof fn lemma_sits_on<D: BlockDevice>(
    before: D,
    after: D,
    written: SnapshotHeader,
    h: SnapshotHeader,
    wear: Seq<u16>,
)
    requires
        sits(before, h, wear),
        written.block_count == h.block_count,
        spared(before, after, written),
        disjoint(h, written),
    ensures
        sits(after, h, wear),
        seg(after.media(), h) == seg(before.media(), h),
        entries_of(after, h) == entries_of(before, h),
{
    reveal(entries_of);
    lemma_spared_seg(before, after, written, h);
    lemma_seg_len(h);
    assert(wrap(h.start_block + 0, h.block_count as int) == h.start_block);
    assert(in_seg(h, h.start_block as int));
}

/// A snapshot whose payload fits has a valid header.
proof fn lemma_header_ok(h: SnapshotHeader, g: Geometry, es: Seq<Entry>)
    requires
        geometry_ok(g),
        fits(es, g),
        h.geom() == g,
        h.payload_len == table_len(g.block_count as int) + serialize(es).len(),
        h.file_count == es.len(),
        h.start_block < g.block_count,
        h.block_span == span_of(h.payload_len as int, g.block_size as int),
        h.features == super::format::SUPPORTED_FEATURES,
    ensures
        h.error() is None,
{
    lemma_capacity(g);
    lemma_span_bound(h.payload_len as int, g);
}

proof fn lemma_span_bound(payload_len: int, g: Geometry)
    requires
        geometry_ok(g),
        0 <= payload_len <= capacity(g),
    ensures
        1 <= span_of(payload_len, g.block_size as int) <= g.block_count / 2,
{
    let bs = g.block_size as int;
    let half = g.block_count as int / 2;
    let span = span_of(payload_len, bs);
    law_span_is_least(payload_len, bs);
    assert(span <= half) by (nonlinear_arith)
        requires
            (span - 1) * bs < half * bs,
            bs > 0,
    ;
}

/// The table of a committed snapshot holds the counters that were written.
proof fn lemma_table_committed(s: Seq<u8>, wear: Seq<u16>, block_count: int)
    requires
        0 <= block_count <= 64,
        wear.len() == 64,
        64 + table_len(block_count) <= s.len(),
        s.subrange(64, 64 + table_len(block_count)) == table_bytes(wear, block_count),
    ensures
        table_at(s, wear, block_count),
{
    let t = s.subrange(64, 64 + table_len(block_count));
    super::tree::lemma_pad4(2 * block_count);
    assert forall|b: int| 0 <= b < block_count implies #[trigger] wear[b] == u16_at(
        s,
        64 + 2 * b,
    ) by {
        law_wear_table_round_trip(wear, block_count, b);
        assert(t[2 * b] == s[64 + 2 * b]);
        assert(t[2 * b + 1] == s[64 + 2 * b + 1]);
    }
}

/// The geometry of a device, if a filesystem fits on it.
fn checked_geometry<D: BlockDevice>(device: &D) -> (r: Result<Geometry, Error<D::Error>>)
    ensures
        media_shape(device.media(), device.geom()),
        if geometry_ok(device.geom()) {
            r == Ok::<Geometry, Error<D::Error>>(device.geom())
        } else {
            r == Err::<Geometry, Error<D::Error>>(Error::InvalidGeometry)
        },
{
    let geometry = device.geometry();
    if geometry.block_size < 64 || geometry.block_size % 4 != 0 || geometry.block_size
        < wear_table_size(geometry.block_count) || geometry.block_count < 2 || geometry.block_count
        > 64 {
        return Err(Error::InvalidGeometry);
    }
    match geometry.block_size.checked_mul(geometry.block_count) {
        Some(_) => Ok(geometry),
        None => Err(Error::InvalidGeometry),
    }
}

/// The header and the table of the next snapshot.
fn next_snapshot(
    generation: u32,
    start_block: u32,
    payload_len: u32,
    payload_crc: u32,
    file_count: u32,
    geometry: Geometry,
    Ghost(es): Ghost<Seq<Entry>>,
    Ghost(wear_bytes): Ghost<Seq<u8>>,
) -> (r: Option<SnapshotHeader>)
    requires
        geometry_ok(geometry),
        fits(es, geometry),
        all_ok(es),
        tree_ok(es),
        wear_bytes.len() == table_len(geometry.block_count as int),
        payload_len == wear_bytes.len() + serialize(es).len(),
        payload_crc == crc_of(wear_bytes + serialize(es)),
        file_count == es.len(),
        start_block < geometry.block_count,
    ensures
        r is Some,
        r->0.generation == generation,
        r->0.start_block == start_block,
        r->0.block_span == span_of(payload_len as int, geometry.block_size as int),
        r->0.payload_len == payload_len,
        r->0.geom() == geometry,
        r->0.error() is None,
        describes(r->0, es, wear_bytes),
{
    proof {
        lemma_capacity(geometry);
        lemma_span_bound(payload_len as int, geometry);
        let h = SnapshotHeader {
            generation,
            start_block,
            block_span: span_of(payload_len as int, geometry.block_size as int) as u32,
            payload_len,
            payload_crc,
            file_count,
            block_size: geometry.block_size,
            block_count: geometry.block_count,
            features: super::format::SUPPORTED_FEATURES,
        };
        lemma_header_ok(h, geometry, es);
    }
    match SnapshotHeader::new(
        generation,
        start_block,
        payload_len,
        payload_crc,
        file_count,
        geometry,
    ) {
        Ok(header) => Some(header),
        Err(_) => None,
    }
}

/// `next` is a place for the snapshot of this generation, beside `source`.
pub open spec fn is_target(
    next: SnapshotHeader,
    g: Geometry,
    generation: u32,
    source: Option<SnapshotHeader>,
) -> bool {
    &&& next.geom() == g
    &&& next.error() is None
    &&& next.start_block < g.block_count
    &&& next.payload_len >= table_len(g.block_count as int)
    &&& next.generation == generation
    &&& source is Some ==> disjoint(source->0, next)
}

/// Block `b` belongs to none of the segments.
pub open spec fn outside(tried: Seq<SnapshotHeader>, b: int) -> bool {
    forall|i: int| 0 <= i < tried.len() ==> !in_seg(#[trigger] tried[i], b)
}

/// What attempts to write a snapshot of `es` have left on the medium, if they went to
/// the places `tried`, one after the other. No other block has changed. Where the last
/// of them went, unless not even the first block could be erased, nothing is visible until
/// all that was written there is durable, and nothing but the complete snapshot then.
pub open spec fn left_behind<D: BlockDevice>(
    before: D,
    after: D,
    source: Option<SnapshotHeader>,
    generation: u32,
    es: Seq<Entry>,
    tried: Seq<SnapshotHeader>,
) -> bool {
    &&& after.geom() == before.geom()
    &&& media_shape(before.media(), before.geom())
    &&& media_shape(after.media(), after.geom())
    &&& forall|i: int|
        0 <= i < tried.len() ==> is_target(
            #[trigger] tried[i],
            before.geom(),
            generation,
            source,
        )
    &&& forall|b: int|
        0 <= b < before.media().len() && #[trigger] outside(tried, b) ==> after.media()[b]
            == before.media()[b]
    &&& forall|b: int, w: int| #[trigger]
        after.pending().contains((b, w)) && outside(tried, b) ==> before.pending().contains((b, w))
    &&& tried.len() > 0 && !unclear(after, tried.last()) ==> if unsettled(after, tried.last()) {
        invisible(after.media(), tried.last())
    } else {
        secured(after, tried.last(), es)
    }
}

/// Reading leaves nothing behind.
proof fn lemma_left_nothing<D: BlockDevice>(
    before: D,
    after: D,
    source: Option<SnapshotHeader>,
    generation: u32,
    es: Seq<Entry>,
)
    requires
        untouched(before, after),
        media_shape(before.media(), before.geom()),
    ensures
        left_behind(before, after, source, generation, es, Seq::empty()),
{
}

/// Reading in between changes nothing.
proof fn lemma_left_same<D: BlockDevice>(
    d0: D,
    d1: D,
    d2: D,
    d3: D,
    source: Option<SnapshotHeader>,
    generation: u32,
    es: Seq<Entry>,
    tried: Seq<SnapshotHeader>,
)
    requires
        untouched(d0, d1),
        left_behind(d1, d2, source, generation, es, tried),
        untouched(d2, d3),
    ensures
        left_behind(d0, d3, source, generation, es, tried),
{
    assert forall|media: Seq<Seq<u8>>| may_survive(d3, media) implies #[trigger] may_survive(
        d2,
        media,
    ) by {}
    if tried.len() > 0 && secured(d2, tried.last(), es) {
        assert forall|media: Seq<Seq<u8>>| #[trigger] may_survive(d3, media) implies settled(
            media,
            tried.last(),
            es,
        ) by {
            assert(may_survive(d2, media));
        }
    }
}

/// One more attempt.
proof fn lemma_left_more<D: BlockDevice>(
    d0: D,
    d1: D,
    d2: D,
    source: Option<SnapshotHeader>,
    generation: u32,
    es: Seq<Entry>,
    tried: Seq<SnapshotHeader>,
    next: SnapshotHeader,
)
    requires
        left_behind(d0, d1, source, generation, es, tried),
        attempted(d1, d2, next, es),
        is_target(next, d0.geom(), generation, source),
    ensures
        left_behind(d0, d2, source, generation, es, tried.push(next)),
{
    let all = tried.push(next);
    assert forall|i: int| 0 <= i < all.len() implies is_target(
        #[trigger] all[i],
        d0.geom(),
        generation,
        source,
    ) by {
        if i < tried.len() {
            assert(all[i] == tried[i]);
        }
    }
    assert forall|b: int| 0 <= b < d0.media().len() && #[trigger] outside(all, b) implies d2.media()[b]
        == d0.media()[b] by {
        assert(all[tried.len() as int] == next);
        assert(outside(tried, b)) by {
            assert forall|i: int| 0 <= i < tried.len() implies !in_seg(#[trigger] tried[i], b) by {
                assert(all[i] == tried[i]);
            }
        }
    }
    assert forall|b: int, w: int| #[trigger]
        d2.pending().contains((b, w)) && outside(all, b) implies d0.pending().contains((b, w)) by {
        assert(all[tried.len() as int] == next);
        assert(d1.pending().contains((b, w)));
        assert(outside(tried, b)) by {
            assert forall|i: int| 0 <= i < tried.len() implies !in_seg(#[trigger] tried[i], b) by {
                assert(all[i] == tried[i]);
            }
        }
    }
    assert(all.last() == next);
}

// ---------------------------------------------------------------------------
// One place after the other
// ---------------------------------------------------------------------------

/// The counters with this block marked as bad.
pub open spec fn marked(wear: Seq<u16>, block: int) -> Seq<u16> {
    wear.update(block, entry_of(true, count(wear[block])))
}

/// The counters from which place `k` is chosen, if `tried` are the places before it and
/// `lost` the blocks that turned out bad there. `first` are those for the first place;
/// with `again`, counters that have come near their limit are halved each time.
pub open spec fn table_for(
    first: Seq<u16>,
    n: int,
    again: bool,
    tried: Seq<SnapshotHeader>,
    lost: Seq<u32>,
    k: int,
) -> Seq<u16>
    decreases k,
{
    if k <= 0 {
        first
    } else {
        let h = tried[k - 1];
        let wear = marked(
            incremented(
                table_for(first, n, again, tried, lost, k - 1),
                h.start_block as int,
                h.block_span as int,
                n,
            ),
            lost[k - 1] as int,
        );
        if again {
            rescaled(wear, n)
        } else {
            wear
        }
    }
}

/// Where a snapshot is put: at the least worn place beside `source`, or at the first one
/// without bad blocks if there is no snapshot yet.
pub open spec fn is_place(
    source: Option<SnapshotHeader>,
    span: int,
    wear: Seq<u16>,
    n: int,
    start: int,
) -> bool {
    match source {
        Some(active) => best_below(active, span, wear, n, start, n),
        None => {
            &&& 0 <= start < n
            &&& usable(wear, start, span, n)
            &&& forall|t: int| 0 <= t < start ==> !#[trigger] usable(wear, t, span, n)
        },
    }
}

/// No run of blocks is left for a snapshot of this span.
pub open spec fn no_place(
    source: Option<SnapshotHeader>,
    span: int,
    wear: Seq<u16>,
    n: int,
) -> bool {
    match source {
        Some(active) => forall|t: int| !#[trigger] candidate(active, span, wear, n, t),
        None => forall|t: int| 0 <= t < n ==> !#[trigger] usable(wear, t, span, n),
    }
}

/// `h` is where a snapshot is put.
pub open spec fn chosen(
    source: Option<SnapshotHeader>,
    span: int,
    wear: Seq<u16>,
    n: int,
    h: SnapshotHeader,
) -> bool {
    &&& h.block_span == span
    &&& is_place(source, span, wear, n, h.start_block as int)
}

/// The places `tried` were chosen one after the other. In each of the first of them a
/// block turned out bad, was marked, and the next place was chosen without it.
pub open spec fn followed(
    source: Option<SnapshotHeader>,
    span: int,
    first: Seq<u16>,
    n: int,
    again: bool,
    tried: Seq<SnapshotHeader>,
    lost: Seq<u32>,
) -> bool {
    &&& lost.len() <= tried.len() <= lost.len() + 1
    &&& tried.len() <= MAX_COMMIT_ATTEMPTS
    &&& forall|i: int|
        0 <= i < tried.len() ==> chosen(
            source,
            span,
            table_for(first, n, again, tried, lost, i),
            n,
            #[trigger] tried[i],
        )
    &&& forall|i: int| 0 <= i < lost.len() ==> in_seg(tried[i], #[trigger] lost[i] as int)
}

/// What comes later makes no difference.
proof fn lemma_table_prefix(
    first: Seq<u16>,
    n: int,
    again: bool,
    tried: Seq<SnapshotHeader>,
    lost: Seq<u32>,
    tried2: Seq<SnapshotHeader>,
    lost2: Seq<u32>,
    k: int,
)
    requires
        k <= tried.len(),
        k <= lost.len(),
        tried.len() <= tried2.len(),
        lost.len() <= lost2.len(),
        forall|i: int| 0 <= i < tried.len() ==> tried2[i] == tried[i],
        forall|i: int| 0 <= i < lost.len() ==> lost2[i] == lost[i],
    ensures
        table_for(first, n, again, tried2, lost2, k) == table_for(first, n, again, tried, lost, k),
    decreases k,
{
    if k > 0 {
        lemma_table_prefix(first, n, again, tried, lost, tried2, lost2, k - 1);
    }
}

/// One more place.
proof fn lemma_followed_more(
    source: Option<SnapshotHeader>,
    span: int,
    first: Seq<u16>,
    n: int,
    again: bool,
    tried: Seq<SnapshotHeader>,
    lost: Seq<u32>,
    next: SnapshotHeader,
)
    requires
        followed(source, span, first, n, again, tried, lost),
        lost.len() == tried.len() < MAX_COMMIT_ATTEMPTS,
        chosen(
            source,
            span,
            table_for(first, n, again, tried, lost, lost.len() as int),
            n,
            next,
        ),
    ensures
        followed(source, span, first, n, again, tried.push(next), lost),
        table_for(first, n, again, tried.push(next), lost, lost.len() as int) == table_for(
            first,
            n,
            again,
            tried,
            lost,
            lost.len() as int,
        ),
{
    let all = tried.push(next);
    lemma_table_prefix(first, n, again, tried, lost, all, lost, lost.len() as int);
    assert forall|i: int| 0 <= i < all.len() implies chosen(
        source,
        span,
        table_for(first, n, again, all, lost, i),
        n,
        #[trigger] all[i],
    ) by {
        lemma_table_prefix(first, n, again, tried, lost, all, lost, i);
        if i < tried.len() {
            assert(all[i] == tried[i]);
        }
    }
    assert forall|i: int| 0 <= i < lost.len() implies in_seg(all[i], #[trigger] lost[i] as int) by {
        assert(all[i] == tried[i]);
    }
}

/// A place where a block turned out bad.
proof fn lemma_followed_lost(
    source: Option<SnapshotHeader>,
    span: int,
    first: Seq<u16>,
    n: int,
    again: bool,
    tried: Seq<SnapshotHeader>,
    lost: Seq<u32>,
    next: SnapshotHeader,
    block: u32,
)
    requires
        followed(source, span, first, n, again, tried, lost),
        lost.len() == tried.len() < MAX_COMMIT_ATTEMPTS,
        chosen(
            source,
            span,
            table_for(first, n, again, tried, lost, lost.len() as int),
            n,
            next,
        ),
        in_seg(next, block as int),
    ensures
        followed(source, span, first, n, again, tried.push(next), lost.push(block)),
        ({
            let wear = marked(
                incremented(
                    table_for(first, n, again, tried, lost, lost.len() as int),
                    next.start_block as int,
                    span,
                    n,
                ),
                block as int,
            );
            table_for(first, n, again, tried.push(next), lost.push(block), (lost.len() + 1) as int) == if again {
                rescaled(wear, n)
            } else {
                wear
            }
        }),
{
    let all = tried.push(next);
    let gone = lost.push(block);
    lemma_followed_more(source, span, first, n, again, tried, lost, next);
    lemma_table_prefix(first, n, again, tried, lost, all, gone, lost.len() as int);
    assert forall|i: int| 0 <= i < all.len() implies chosen(
        source,
        span,
        table_for(first, n, again, all, gone, i),
        n,
        #[trigger] all[i],
    ) by {
        lemma_table_prefix(first, n, again, tried, lost, all, gone, i);
        lemma_table_prefix(first, n, again, tried, lost, all, lost, i);
        assert(chosen(source, span, table_for(first, n, again, all, lost, i), n, all[i]));
    }
    assert forall|i: int| 0 <= i < gone.len() implies in_seg(all[i], #[trigger] gone[i] as int) by {
        if i < lost.len() {
            assert(gone[i] == lost[i]);
            assert(all[i] == tried[i]);
        }
    }
}

impl<D: BlockDevice> FileSystem<D> {
    /// The mounted snapshot is the one on the device.
    #[verifier::opaque]
    pub closed spec fn inv(self) -> bool {
        &&& self.geometry == self.device.geom()
        &&& sits(self.device, self.active, self.wear@)
    }

    /// The device is one that the filesystem was made for; what it holds may
    /// have been damaged.
    pub closed spec fn placed(self) -> bool {
        &&& self.geometry == self.device.geom()
        &&& on_device(self.device, self.active)
    }

    pub closed spec fn dev(self) -> D {
        self.device
    }

    /// The header of the active snapshot.
    pub closed spec fn header(self) -> SnapshotHeader {
        self.active
    }

    /// The erase counters.
    pub closed spec fn counters(self) -> Seq<u16> {
        self.wear@
    }

    /// A change failed in a way that leaves open what the medium holds.
    pub closed spec fn stuck(self) -> bool {
        self.recovery_required
    }

    /// The files and directories, in the order of their records.
    pub open spec fn entries(self) -> Seq<Entry> {
        entries_of(self.dev(), self.header())
    }

    /// Where the snapshot stands, in blocks of this many.
    pub open spec fn blocks(self) -> int {
        self.header().block_count as int
    }

    /// All of the active snapshot would survive a power loss.
    pub open spec fn durable(self) -> bool {
        forall|b: int, w: int| #[trigger]
            self.dev().pending().contains((b, w)) ==> !in_seg(self.header(), b)
    }

    /// Neither the snapshot nor the counters have changed.
    pub open spec fn same_state(self, before: Self) -> bool {
        &&& self.header() == before.header()
        &&& self.counters() == before.counters()
        &&& self.entries() == before.entries()
    }

    /// The blocks of the active snapshot hold what they held.
    pub open spec fn active_untouched(self, before: Self) -> bool {
        &&& self.dev().geom() == before.dev().geom()
        &&& self.dev().faults() >= before.dev().faults()
        &&& forall|b: int|
            0 <= b < before.blocks() && #[trigger] in_seg(before.header(), b)
                ==> self.dev().media()[b] == before.dev().media()[b]
    }

    /// A run of blocks is left for a snapshot of this span.
    pub open spec fn layout_exists(self, span: int) -> bool {
        exists|t: int|
            #[trigger] candidate(
                self.header(),
                span,
                rescaled(self.counters(), self.blocks()),
                self.blocks(),
                t,
            )
    }

    /// The blocks that a snapshot of these entries takes.
    pub open spec fn span_for(self, es: Seq<Entry>) -> int {
        span_of(
            table_len(self.blocks()) + serialize(es).len(),
            self.header().block_size as int,
        )
    }

    /// What a change comes to when no device operation fails.
    pub open spec fn outcome(self, edit: Edit) -> Result<(), Error<D::Error>> {
        if self.stuck() {
            Err(Error::RecoveryRequired)
        } else if !fits(apply(edit, self.entries()), self.header().geom()) || !self.layout_exists(
            self.span_for(apply(edit, self.entries())),
        ) {
            Err(Error::NoSpace)
        } else {
            Ok(())
        }
    }

    /// The next snapshot is active, and holds `es`.
    pub open spec fn advanced(self, before: Self, es: Seq<Entry>) -> bool {
        let next = self.header();
        &&& self.entries() == es
        &&& next.generation == before.header().generation.wrapping_add(1)
        &&& next.geom() == before.header().geom()
        &&& next.payload_len == table_len(before.blocks()) + serialize(es).len()
        &&& disjoint(before.header(), next)
        &&& forall|b: int|
            0 <= b < before.blocks() && bad(#[trigger] before.counters()[b]) ==> !in_seg(next, b)
                && bad(self.counters()[b])
    }

    /// The next snapshot went to the least worn place.
    pub open spec fn well_placed(self, before: Self) -> bool {
        let next = self.header();
        let wear = rescaled(before.counters(), before.blocks());
        &&& best_below(
            before.header(),
            next.block_span as int,
            wear,
            before.blocks(),
            next.start_block as int,
            before.blocks(),
        )
        &&& self.counters() == incremented(
            wear,
            next.start_block as int,
            next.block_span as int,
            before.blocks(),
        )
    }

    /// What came of bringing the entries to `es`, if `tried` are the places that were
    /// written to and `lost` the blocks that turned out bad there.
    ///
    /// There is no space if the entries do not fit, if no place is left without the bad
    /// blocks, or if too many places were tried in vain. A failure of the device ends the
    /// change if it comes from reading before anything is written, or else leaves the
    /// outcome uncertain; then the filesystem has to be mounted again.
    pub open spec fn history(
        self,
        before: Self,
        es: Seq<Entry>,
        r: Result<(), Error<D::Error>>,
        tried: Seq<SnapshotHeader>,
        lost: Seq<u32>,
    ) -> bool {
        let n = before.blocks();
        let span = before.span_for(es);
        let first = rescaled(before.counters(), n);
        let wear = table_for(first, n, true, tried, lost, lost.len() as int);
        &&& left_behind(
            before.dev(),
            self.dev(),
            Some(before.header()),
            before.header().generation.wrapping_add(1),
            es,
            tried,
        )
        &&& followed(Some(before.header()), span, first, n, true, tried, lost)
        &&& self.dev().faults() >= before.dev().faults() + lost.len()
        &&& match r {
            Ok(()) => {
                &&& tried.len() == lost.len() + 1
                &&& tried.last() == self.header()
                &&& ends_with_commit(self.dev().writes(), self.header())
                &&& self.counters() == incremented(
                    wear,
                    self.header().start_block as int,
                    span,
                    n,
                )
            },
            Err(Error::Device(error)) => if tried.len() > lost.len() {
                self.stuck() && uncertain(self.dev(), tried.last(), error)
            } else {
                &&& self.stuck() == before.stuck()
                &&& self.dev().fault() is Read
                &&& tried.len() == 0 ==> untouched(before.dev(), self.dev())
            },
            Err(Error::NoSpace) => {
                &&& tried.len() == lost.len()
                &&& tried.len() == 0 ==> untouched(before.dev(), self.dev())
                &&& {
                    ||| tried.len() == 0 && !fits(es, before.header().geom())
                    ||| tried.len() == MAX_COMMIT_ATTEMPTS
                    ||| no_place(Some(before.header()), span, wear, n)
                }
            },
            Err(_) => tried.len() == 0 && untouched(before.dev(), self.dev()),
        }
    }

    /// The change has such a history.
    #[verifier::opaque]
    pub open spec fn traced(self, before: Self, es: Seq<Entry>, r: Result<(), Error<D::Error>>) -> bool {
        exists|tried: Seq<SnapshotHeader>, lost: Seq<u32>| #[trigger]
            self.history(before, es, r, tried, lost)
    }

    /// What a change does: it is refused, it takes effect as a whole, or the
    /// active snapshot stays as it was.
    pub open spec fn mutated(
        self,
        before: Self,
        edit: Edit,
        refusal: Option<Error<D::Error>>,
        r: Result<(), Error<D::Error>>,
    ) -> bool {
        &&& self.inv()
        &&& self.active_untouched(before)
        &&& self.traced(before, apply(edit, before.entries()), r)
        &&& before.durable() ==> self.durable()
        &&& r is Ok ==> self.dev().pending() == Set::<(int, int)>::empty()
        &&& r is Ok ==> refusal is None && !before.stuck() && !self.stuck() && self.advanced(
            before,
            apply(edit, before.entries()),
        )
        &&& r is Err ==> self.same_state(before)
        &&& r is Err ==> r->Err_0 is Device || r->Err_0 is NoSpace || r->Err_0
            is RecoveryRequired || Some(r->Err_0) == refusal
        &&& self.stuck() != before.stuck() ==> self.stuck() && r is Err && r->Err_0 is Device
        &&& before.stuck() ==> untouched(before.dev(), self.dev()) && r is Err && !(r->Err_0
            is NoSpace)
        &&& r is Err && r->Err_0 is Device ==> self.dev().faults() > before.dev().faults()
        &&& r is Err && r->Err_0 is Device ==> self.stuck() || self.dev().fault() is Read
        &&& self.dev().faults() == before.dev().faults() ==> {
            &&& r == (match refusal {
                Some(error) => Err::<(), Error<D::Error>>(error),
                None => before.outcome(edit),
            })
            &&& r is Ok ==> self.well_placed(before) && spared(
                before.dev(),
                self.dev(),
                self.header(),
            ) && sealed(before.dev(), self.dev(), self.header())
        }
    }
}

impl<D: BlockDevice> FileSystem<D> {
    /// What a change does that nothing but the filesystem itself refuses.
    pub open spec fn changed(
        self,
        before: Self,
        edit: Edit,
        r: Result<(), Error<D::Error>>,
    ) -> bool {
        &&& self.mutated(before, edit, None, r)
        &&& before.stuck() ==> r == Err::<(), Error<D::Error>>(Error::RecoveryRequired) && self
            == before
    }
}

/// How an attempt to commit a change went.
enum Attempt<E> {
    /// The change is committed.
    Done,
    /// This block turned out bad at this place: look for another one.
    Retry(Ghost<SnapshotHeader>, u32),
    /// There is no place.
    Full,
    /// The change failed, at this place if it came to writing.
    Failed(Error<E>, Ghost<Option<SnapshotHeader>>),
}

/// Blocks that are bad in `a` are bad in `b`.
spec fn bad_kept(a: Seq<u16>, b: Seq<u16>, block_count: int) -> bool {
    forall|k: int| 0 <= k < block_count && bad(#[trigger] a[k]) ==> bad(b[k])
}

proof fn lemma_rescaled_bad(wear: Seq<u16>, block_count: int)
    requires
        wear.len() == 64,
        block_count <= 64,
    ensures
        bad_kept(wear, rescaled(wear, block_count), block_count),
{
    assert forall|k: int| 0 <= k < block_count && bad(#[trigger] wear[k]) implies bad(
        rescaled(wear, block_count)[k],
    ) by {
        super::wear::law_halving_keeps_order(wear[k], wear[k]);
    }
}

proof fn lemma_incremented_bad(wear: Seq<u16>, start: int, span: int, block_count: int)
    requires
        wear.len() == 64,
        block_count <= 64,
    ensures
        bad_kept(wear, incremented(wear, start, span, block_count), block_count),
{
    assert forall|k: int| 0 <= k < block_count && bad(#[trigger] wear[k]) implies bad(
        incremented(wear, start, span, block_count)[k],
    ) by {
        super::wear::law_bump_is_monotone(wear[k]);
    }
}

proof fn lemma_marked_bad(wear: Seq<u16>, block: int, block_count: int)
    requires
        wear.len() == 64,
        0 <= block < block_count <= 64,
    ensures
        bad_kept(wear, marked(wear, block), block_count),
        bad(marked(wear, block)[block]),
{
}

/// Segments whose runs do not overlap share no block.
proof fn lemma_disjoint(a: SnapshotHeader, b: SnapshotHeader)
    requires
        a.block_count == b.block_count,
        !overlap(
            b.start_block as int,
            b.block_span as int,
            a.start_block as int,
            a.block_span as int,
            a.block_count as int,
        ),
    ensures
        disjoint(a, b),
{
    assert forall|k: int| #[trigger] in_seg(a, k) implies !in_seg(b, k) by {
        if in_seg(b, k) {
            assert(occupies(b.start_block as int, b.block_span as int, b.block_count as int, k));
        }
    }
}

/// The counters as the first bytes of a payload.
fn table_of(wear: &[u16; MAX_WEAR_BLOCKS], block_count: u32, table: &mut [u8;
    MAX_WEAR_TABLE_SIZE])
    requires
        1 <= block_count <= 64,
    ensures
        final(table)@.take(table_len(block_count as int)) == table_bytes(
            wear@,
            block_count as int,
        ),
        table_bytes(wear@, block_count as int).len() == table_len(block_count as int),
        4 <= table_len(block_count as int) <= 128,
{
    proof {
        super::tree::lemma_pad4(2 * block_count);
    }
    let ghost t0 = table@;
    let r = encode_wear_table(wear, block_count, table);
    assert(table@.take(table_len(block_count as int)) =~= table_bytes(wear@, block_count as int));
}

impl<D: BlockDevice> FileSystem<D> {
    /// One attempt to commit the change went to `next`.
    spec fn aimed(self, after: Self, generation: u32, edit: Edit, next: SnapshotHeader) -> bool {
        &&& is_target(next, self.dev().geom(), generation, Some(self.header()))
        &&& attempted(self.dev(), after.dev(), next, apply(edit, self.entries()))
    }

    /// Choose a place for the next snapshot, write it there and commit it.
    #[verifier::rlimit(60)]
    fn attempt<'a>(
        &mut self,
        change: Change<'a>,
        payload_len: u32,
        span: u32,
        generation: u32,
        wear: &mut [u16; MAX_WEAR_BLOCKS],
    ) -> (r: Attempt<D::Error>)
        requires
            old(self).inv(),
            !old(self).stuck(),
            names_ok(change.edit(), old(self).entries()),
            fits(apply(change.edit(), old(self).entries()), old(self).header().geom()),
            all_ok(apply(change.edit(), old(self).entries())),
            tree_ok(apply(change.edit(), old(self).entries())),
            payload_len == table_len(old(self).blocks()) + serialize(
                apply(change.edit(), old(self).entries()),
            ).len(),
            span == span_of(payload_len as int, old(self).header().block_size as int),
            bad_kept(old(self).counters(), old(wear)@, old(self).blocks()),
        ensures
            final(self).inv(),
            final(self).active_untouched(*old(self)),
            bad_kept(old(self).counters(), final(wear)@, old(self).blocks()),
            !(r is Done) ==> final(self).same_state(*old(self)),
            match r {
                Attempt::Done => {
                    let next = final(self).header();
                    let scale = rescaled(old(wear)@, old(self).blocks());
                    &&& old(self).aimed(*final(self), generation, change.edit(), next)
                    &&& !final(self).stuck()
                    &&& final(self).entries() == apply(change.edit(), old(self).entries())
                    &&& next.generation == generation
                    &&& next.geom() == old(self).header().geom()
                    &&& next.payload_len == payload_len
                    &&& next.block_span == span
                    &&& disjoint(old(self).header(), next)
                    &&& chosen(Some(old(self).header()), span as int, scale, old(self).blocks(), next)
                    &&& sealed(old(self).dev(), final(self).dev(), next)
                    &&& final(self).counters() == incremented(
                        scale,
                        next.start_block as int,
                        span as int,
                        old(self).blocks(),
                    )
                },
                Attempt::Retry(next, block) => {
                    let scale = rescaled(old(wear)@, old(self).blocks());
                    &&& !final(self).stuck()
                    &&& final(self).dev().faults() > old(self).dev().faults()
                    &&& old(self).aimed(*final(self), generation, change.edit(), next@)
                    &&& chosen(Some(old(self).header()), span as int, scale, old(self).blocks(), next@)
                    &&& in_seg(next@, block as int)
                    &&& final(wear)@ == marked(
                        incremented(
                            scale,
                            next@.start_block as int,
                            span as int,
                            old(self).blocks(),
                        ),
                        block as int,
                    )
                },
                Attempt::Full => !final(self).stuck() && final(self).dev() == old(self).dev()
                    && no_place(
                    Some(old(self).header()),
                    span as int,
                    rescaled(old(wear)@, old(self).blocks()),
                    old(self).blocks(),
                ),
                Attempt::Failed(error, aim) => {
                    &&& error is Device
                    &&& final(self).dev().faults() > old(self).dev().faults()
                    &&& match aim@ {
                        None => !final(self).stuck() && untouched(
                            old(self).dev(),
                            final(self).dev(),
                        ),
                        Some(next) => {
                            &&& final(self).stuck()
                            &&& old(self).aimed(*final(self), generation, change.edit(), next)
                            &&& chosen(
                                Some(old(self).header()),
                                span as int,
                                rescaled(old(wear)@, old(self).blocks()),
                                old(self).blocks(),
                                next,
                            )
                            &&& uncertain(final(self).dev(), next, error->Device_0)
                        },
                    }
                },
            },
    {
        reveal(FileSystem::inv);
        reveal(entries_of);
        let ghost fs0 = *self;
        let ghost d0 = self.device;
        let ghost h0 = self.active;
        let ghost es = self.entries();
        let ghost new = apply(change.edit(), es);
        let ghost w0 = wear@;
        let ghost bc = self.blocks();
        let active = self.active;
        let block_count: u32 = self.geometry.block_count;
        proof {
            lemma_sits(d0, h0, fs0.wear@);
            lemma_base(h0);
            lemma_seg_len(h0);
            lemma_rescaled_bad(w0, bc);
            lemma_capacity(h0.geom());
            lemma_span_bound(payload_len as int, h0.geom());
        }
        let scaled = rescaled_wear(wear, block_count);
        assert(scaled@ =~= rescaled(w0, bc));
        *wear = scaled;
        let start_block: u32 = match choose_start_block(&active, span, &scaled, block_count) {
            Some(start_block) => start_block,
            None => return Attempt::Full,
        };
        let next_wear = incremented_wear(&scaled, start_block, span, block_count);
        let ghost w2 = incremented(scaled@, start_block as int, span as int, bc);
        proof {
            assert(next_wear@ =~= w2);
            lemma_incremented_bad(scaled@, start_block as int, span as int, bc);
        }
        let mut table = [0u8; MAX_WEAR_TABLE_SIZE];
        table_of(&next_wear, block_count, &mut table);
        let table_size: usize = wear_table_size(block_count) as usize;
        let ghost wear_bytes = table_bytes(w2, bc);
        assert(table@.subrange(0, table_size as int) =~= table@.take(table_size as int));
        let seed: u32 = crc32_mpeg2(&table[0..table_size]);
        let stats = match calculate_change(
            &mut self.device,
            &active,
            change,
            Crc32Mpeg2::from_state(seed),
            Ghost(es),
        ) {
            Ok(stats) => stats,
            Err(error) => {
                return Attempt::Failed(error, Ghost(None));
            },
        };
        proof {
            law_crc_incremental(
                super::format::CRC32_MPEG2_INITIAL,
                wear_bytes,
                serialize(new),
            );
        }
        let next = match next_snapshot(
            generation,
            start_block,
            payload_len,
            stats.payload_crc,
            stats.file_count,
            self.geometry,
            Ghost(new),
            Ghost(wear_bytes),
        ) {
            Some(next) => next,
            None => return Attempt::Full,
        };
        proof {
            lemma_disjoint(h0, next);
        }
        let ghost d1 = self.device;
        let outcome = write_candidate(
            &mut self.device,
            &next,
            Some(&active),
            change,
            &table[0..table_size],
            Ghost(es),
        );
        proof {
            lemma_sits_on(d1, self.device, next, h0, fs0.wear@);
            assert(attempted(d0, self.device, next, new));
            assert(fs0.aimed(*self, generation, change.edit(), next));
        }
        match outcome {
            Ok(()) => {
                proof {
                    lemma_seg_len(next);
                    lemma_base(next);
                    lemma_table_committed(seg(self.device.media(), next), w2, bc);
                }
                self.active = next;
                self.wear = next_wear;
                *wear = next_wear;
                assert(fs0.aimed(*self, generation, change.edit(), next));
                Attempt::Done
            },
            Err(CommitError::Block { block, error: _ }) => {
                *wear = next_wear;
                mark_bad(wear, block);
                assert(wear@ =~= marked(w2, block as int));
                proof {
                    lemma_marked_bad(w2, block as int, bc);
                }
                Attempt::Retry(Ghost(next), block)
            },
            Err(CommitError::Fatal(error)) => {
                self.recovery_required = true;
                assert(fs0.aimed(*self, generation, change.edit(), next));
                Attempt::Failed(error, Ghost(Some(next)))
            },
        }
    }
}

/// What a mounted filesystem relies on.
proof fn lemma_inv<D: BlockDevice>(fs: FileSystem<D>)
    requires
        fs.inv(),
    ensures
        fs.geometry == fs.dev().geom(),
        fs.geometry == fs.header().geom(),
        on_device(fs.dev(), fs.header()),
        holds(fs.dev().media(), fs.header(), fs.entries()),
        tree_ok(fs.entries()),
        all_ok(fs.entries()),
        fs.entries().len() == fs.header().file_count,
        serialize(fs.entries()).len() == fs.header().records(),
        2 <= fs.blocks() <= 64,
        fs.counters().len() == 64,
        4 <= table_len(fs.blocks()) <= 128,
{
    reveal(FileSystem::inv);
    lemma_sits(fs.device, fs.active, fs.wear@);
    lemma_base(fs.active);
}

/// Reading changes nothing.
proof fn lemma_inv_untouched<D: BlockDevice>(before: FileSystem<D>, after: FileSystem<D>)
    requires
        before.inv(),
        untouched(before.dev(), after.dev()),
        after.header() == before.header(),
        after.counters() == before.counters(),
        after.geometry == before.geometry,
    ensures
        after.inv(),
        after.same_state(before),
        after.active_untouched(before),
{
    reveal(FileSystem::inv);
    reveal(entries_of);
}

/// Reading leaves no trace.
proof fn lemma_untraced<D: BlockDevice>(
    before: FileSystem<D>,
    after: FileSystem<D>,
    es: Seq<Entry>,
    r: Result<(), Error<D::Error>>,
)
    requires
        before.inv(),
        untouched(before.dev(), after.dev()),
        after.stuck() == before.stuck(),
        r is Err,
        r->Err_0 is Device ==> after.dev().faults() > before.dev().faults(),
        r->Err_0 is NoSpace ==> !fits(es, before.header().geom()),
    ensures
        after.traced(before, es, r),
{
    lemma_inv(before);
    lemma_begun(before, after, es);
    reveal(FileSystem::traced);
    assert(after.history(before, es, r, Seq::empty(), Seq::empty()));
}

/// Without a place there is no layout.
proof fn lemma_no_layout<D: BlockDevice>(fs: FileSystem<D>, span: int)
    requires
        no_place(
            Some(fs.header()),
            span,
            rescaled(fs.counters(), fs.blocks()),
            fs.blocks(),
        ),
    ensures
        !fs.layout_exists(span),
{
    let wear = rescaled(fs.counters(), fs.blocks());
    let source = Some(fs.header());
    assert forall|t: int| !#[trigger] candidate(fs.header(), span, wear, fs.blocks(), t) by {
        assert(!candidate(source->0, span, wear, fs.blocks(), t));
    }
}

/// Nothing has been tried yet.
proof fn lemma_begun<D: BlockDevice>(before: FileSystem<D>, after: FileSystem<D>, es: Seq<Entry>)
    requires
        before.inv(),
        untouched(before.dev(), after.dev()),
    ensures
        left_behind(
            before.dev(),
            after.dev(),
            Some(before.header()),
            before.header().generation.wrapping_add(1),
            es,
            Seq::empty(),
        ),
        followed(
            Some(before.header()),
            before.span_for(es),
            rescaled(before.counters(), before.blocks()),
            before.blocks(),
            true,
            Seq::empty(),
            Seq::empty(),
        ),
{
    lemma_inv(before);
    lemma_left_nothing(
        before.dev(),
        after.dev(),
        Some(before.header()),
        before.header().generation.wrapping_add(1),
        es,
    );
}

/// The active snapshot stays durable while others are written.
proof fn lemma_stays_durable<D: BlockDevice>(
    before: FileSystem<D>,
    after: FileSystem<D>,
    es: Seq<Entry>,
    tried: Seq<SnapshotHeader>,
)
    requires
        before.durable(),
        after.header() == before.header(),
        left_behind(
            before.dev(),
            after.dev(),
            Some(before.header()),
            before.header().generation.wrapping_add(1),
            es,
            tried,
        ),
    ensures
        after.durable(),
{
    assert forall|b: int, w: int| #[trigger] after.dev().pending().contains((b, w)) implies !in_seg(
        after.header(),
        b,
    ) by {
        if in_seg(before.header(), b) {
            assert(outside(tried, b)) by {
                assert forall|i: int| 0 <= i < tried.len() implies !in_seg(#[trigger] tried[i], b) by {
                    assert(is_target(
                        tried[i],
                        before.dev().geom(),
                        before.header().generation.wrapping_add(1),
                        Some(before.header()),
                    ));
                }
            }
            assert(before.dev().pending().contains((b, w)));
        }
    }
}

/// An attempt leaves its trace.
proof fn lemma_left_aimed<D: BlockDevice>(
    fs0: FileSystem<D>,
    before: FileSystem<D>,
    after: FileSystem<D>,
    edit: Edit,
    tried: Seq<SnapshotHeader>,
    next: SnapshotHeader,
)
    requires
        before.same_state(fs0),
        before.dev().faults() >= fs0.dev().faults(),
        left_behind(
            fs0.dev(),
            before.dev(),
            Some(fs0.header()),
            fs0.header().generation.wrapping_add(1),
            apply(edit, fs0.entries()),
            tried,
        ),
        before.aimed(after, fs0.header().generation.wrapping_add(1), edit, next),
    ensures
        left_behind(
            fs0.dev(),
            after.dev(),
            Some(fs0.header()),
            fs0.header().generation.wrapping_add(1),
            apply(edit, fs0.entries()),
            tried.push(next),
        ),
        tried.push(next).last() == next,
        tried.len() == 0 ==> spared(fs0.dev(), after.dev(), next),
{
    lemma_left_more(
        fs0.dev(),
        before.dev(),
        after.dev(),
        Some(fs0.header()),
        fs0.header().generation.wrapping_add(1),
        apply(edit, fs0.entries()),
        tried,
        next,
    );
    if tried.len() == 0 {
        assert forall|b: int| 0 <= b < fs0.dev().media().len() && !#[trigger] in_seg(
            next,
            b,
        ) implies after.dev().media()[b] == fs0.dev().media()[b] by {
            assert(outside(tried.push(next), b));
        }
        assert forall|b: int, w: int| #[trigger] after.dev().pending().contains((b, w)) implies in_seg(
            next,
            b,
        ) || fs0.dev().pending().contains((b, w)) by {
            if !in_seg(next, b) {
                assert(outside(tried.push(next), b));
            }
        }
    }
}

/// An attempt that succeeded has brought the filesystem forward.
proof fn lemma_advanced<D: BlockDevice>(
    before: FileSystem<D>,
    after: FileSystem<D>,
    wear: Seq<u16>,
    span: int,
    es: Seq<Entry>,
)
    requires
        wear.len() == 64,
        before.blocks() <= 64,
        bad_kept(before.counters(), wear, before.blocks()),
        after.entries() == es,
        after.header().generation == before.header().generation.wrapping_add(1),
        after.header().geom() == before.header().geom(),
        after.header().payload_len == table_len(before.blocks()) + serialize(es).len(),
        after.header().block_span == span,
        disjoint(before.header(), after.header()),
        best_below(
            before.header(),
            span,
            rescaled(wear, before.blocks()),
            before.blocks(),
            after.header().start_block as int,
            before.blocks(),
        ),
        after.counters() == incremented(
            rescaled(wear, before.blocks()),
            after.header().start_block as int,
            span,
            before.blocks(),
        ),
    ensures
        after.advanced(before, es),
        wear == before.counters() ==> before.layout_exists(span),
{
    let next = after.header();
    let n = before.blocks();
    let scale = rescaled(wear, n);
    lemma_rescaled_bad(wear, n);
    lemma_incremented_bad(scale, next.start_block as int, span, n);
    assert forall|b: int| 0 <= b < n && bad(#[trigger] before.counters()[b]) implies !in_seg(
        next,
        b,
    ) && bad(after.counters()[b]) by {
        assert(bad(wear[b]));
        assert(bad(scale[b]));
        if in_seg(next, b) {
            let k = choose|k: int|
                0 <= k < next.block_span && #[trigger] wrap(
                    next.start_block + k,
                    next.block_count as int,
                ) == b;
            assert(!bad(scale[wrap(next.start_block + k, n)]));
        }
    }
    assert(candidate(before.header(), span, scale, n, next.start_block as int));
}

impl<D: BlockDevice> FileSystem<D> {
    /// Write the next snapshot and make it the active one.
    ///
    /// A candidate shares no block with the active snapshot and is invisible
    /// until it is committed, so a block that turns out bad is marked and the
    /// change tried elsewhere. After any other failure of the device the outcome
    /// is uncertain, and the filesystem has to be mounted again.
    #[verifier::rlimit(60)]
    pub(crate) fn mutate<'a>(&mut self, change: Change<'a>) -> (r: Result<(), Error<D::Error>>)
        requires
            old(self).inv(),
            names_ok(change.edit(), old(self).entries()),
            all_ok(apply(change.edit(), old(self).entries())) ==> tree_ok(
                apply(change.edit(), old(self).entries()),
            ),
        ensures
            final(self).changed(*old(self), change.edit(), r),
    {
        let ghost fs0 = *self;
        let ghost es = self.entries();
        let ghost new = apply(change.edit(), es);
        let ghost g = self.header().geom();
        proof {
            lemma_inv(fs0);
        }
        if self.recovery_required {
            proof {
                lemma_untraced(fs0, fs0, new, Err(Error::RecoveryRequired));
            }
            return Err(Error::RecoveryRequired);
        }
        let active = self.active;
        let outcome = calculate_change(
            &mut self.device,
            &active,
            change,
            Crc32Mpeg2::new(),
            Ghost(es),
        );
        proof {
            lemma_inv_untouched(fs0, *self);
        }
        let stats = match outcome {
            Ok(stats) => stats,
            Err(error) => {
                proof {
                    lemma_untraced(fs0, *self, new, Err(error));
                }
                return Err(error);
            },
        };
        proof {
            lemma_capacity(g);
            lemma_span_bound(table_len(fs0.blocks()) + serialize(new).len(), g);
            lemma_begun(fs0, *self, new);
        }
        let payload_len: u32 = match wear_table_size(self.geometry.block_count).checked_add(
            stats.payload_len,
        ) {
            Some(payload_len) => payload_len,
            None => return Err(Error::NoSpace),
        };
        let span: u32 = match checked_snapshot_span(payload_len, self.geometry.block_size) {
            Some(span) => span,
            None => return Err(Error::Corrupt),
        };
        let generation: u32 = active.generation.wrapping_add(1);
        let mut wear = self.wear;
        let ghost n = fs0.blocks();
        let ghost first = rescaled(fs0.counters(), n);
        let ghost mut tried: Seq<SnapshotHeader> = Seq::empty();
        let ghost mut lost: Seq<u32> = Seq::empty();
        let mut attempt: u32 = 0;
        while attempt < MAX_COMMIT_ATTEMPTS
            invariant
                attempt <= MAX_COMMIT_ATTEMPTS,
                fs0 == *old(self),
                self.inv(),
                left_behind(
                    fs0.dev(),
                    self.dev(),
                    Some(fs0.header()),
                    generation,
                    new,
                    tried,
                ),
                n == fs0.blocks(),
                first == rescaled(fs0.counters(), n),
                followed(Some(fs0.header()), span as int, first, n, true, tried, lost),
                tried.len() == attempt,
                lost.len() == attempt,
                rescaled(wear@, n) == table_for(first, n, true, tried, lost, lost.len() as int),
                self.dev().faults() >= fs0.dev().faults() + lost.len(),
                attempt == 0 ==> wear@ == fs0.counters() && untouched(fs0.dev(), self.dev()),
                !self.stuck(),
                !fs0.stuck(),
                self.same_state(fs0),
                self.active_untouched(fs0),
                fs0.inv(),
                es == fs0.entries(),
                new == apply(change.edit(), es),
                names_ok(change.edit(), es),
                g == fs0.header().geom(),
                fits(new, g),
                all_ok(new),
                tree_ok(new),
                payload_len == table_len(fs0.blocks()) + serialize(new).len(),
                span == fs0.span_for(new),
                generation == fs0.header().generation.wrapping_add(1),
                bad_kept(fs0.counters(), wear@, fs0.blocks()),
            decreases MAX_COMMIT_ATTEMPTS - attempt,
        {
            let ghost w0 = wear@;
            let ghost before = *self;
            let ghost source = Some(fs0.header());
            proof {
                lemma_inv(fs0);
            }
            match self.attempt(change, payload_len, span, generation, &mut wear) {
                Attempt::Done => {
                    proof {
                        let next = self.header();
                        lemma_advanced(fs0, *self, w0, span as int, new);
                        lemma_left_aimed(fs0, before, *self, change.edit(), tried, next);
                        lemma_followed_more(source, span as int, first, n, true, tried, lost, next);
                        reveal(FileSystem::traced);
                        assert(self.history(fs0, new, Ok(()), tried.push(next), lost));
                    }
                    return Ok(());
                },
                Attempt::Retry(aim, block) => {
                    proof {
                        let next = aim@;
                        lemma_left_aimed(fs0, before, *self, change.edit(), tried, next);
                        lemma_followed_lost(
                            source,
                            span as int,
                            first,
                            n,
                            true,
                            tried,
                            lost,
                            next,
                            block,
                        );
                        tried = tried.push(next);
                        lost = lost.push(block);
                    }
                },
                Attempt::Full => {
                    proof {
                        reveal(FileSystem::traced);
                        if self.dev().faults() == fs0.dev().faults() {
                            assert(w0 == fs0.counters());
                            assert(no_place(source, span as int, first, n));
                            lemma_no_layout(fs0, span as int);
                        }
                        assert(self.history(fs0, new, Err(Error::NoSpace), tried, lost));
                        if fs0.durable() {
                            lemma_stays_durable(fs0, *self, new, tried);
                        }
                    }
                    return Err(Error::NoSpace);
                },
                Attempt::Failed(error, aim) => {
                    proof {
                        reveal(FileSystem::traced);
                        match aim@ {
                            Some(next) => {
                                lemma_left_aimed(fs0, before, *self, change.edit(), tried, next);
                                lemma_followed_more(
                                    source,
                                    span as int,
                                    first,
                                    n,
                                    true,
                                    tried,
                                    lost,
                                    next,
                                );
                                tried = tried.push(next);
                            },
                            None => {
                                lemma_left_same(
                                    fs0.dev(),
                                    fs0.dev(),
                                    before.dev(),
                                    self.dev(),
                                    source,
                                    generation,
                                    new,
                                    tried,
                                );
                            },
                        }
                        assert(self.history(fs0, new, Err(error), tried, lost));
                        if fs0.durable() {
                            lemma_stays_durable(fs0, *self, new, tried);
                        }
                    }
                    return Err(error);
                },
            }
            attempt += 1;
        }
        proof {
            reveal(FileSystem::traced);
            assert(self.history(fs0, new, Err(Error::NoSpace), tried, lost));
            if fs0.durable() {
                lemma_stays_durable(fs0, *self, new, tried);
            }
        }
        Err(Error::NoSpace)
    }
}

// ---------------------------------------------------------------------------
// Mounting and formatting
// ---------------------------------------------------------------------------

/// Why the medium cannot be mounted.
pub open spec fn mount_error<E>(media: Seq<Seq<u8>>, g: Geometry) -> Option<Error<E>> {
    if !geometry_ok(g) {
        Some(Error::InvalidGeometry)
    } else {
        match scanned(media, g, g.block_count as int) {
            None => Some(Error::NotFormatted),
            Some(h) => if 64 + table_len(g.block_count as int) > seg_len(h) {
                Some(Error::Corrupt)
            } else {
                None
            },
        }
    }
}

/// Mounting failed with this error and left the device as `after`.
pub open spec fn mount_failed<D: BlockDevice>(
    before: D,
    after: D,
    error: Error<D::Error>,
) -> bool {
    &&& untouched(before, after)
    &&& if after.faults() > before.faults() {
        error is Device
    } else {
        Some(error) == mount_error::<D::Error>(before.media(), before.geom())
    }
}

/// The erase counters in the table of a segment.
pub open spec fn counters_in(s: Seq<u8>, block_count: int) -> Seq<u16> {
    Seq::new(
        64,
        |b: int|
            if b < block_count {
                u16_at(s, 64 + 2 * b)
            } else {
                0
            },
    )
}

/// The counters that formatting starts from.
pub open spec fn format_counters(media: Seq<Seq<u8>>, g: Geometry) -> Seq<u16> {
    let n = g.block_count as int;
    match scanned(media, g, n) {
        Some(h) => rescaled(counters_in(seg(media, h), n), n),
        None => Seq::new(64, |b: int| 0u16),
    }
}

/// The blocks of an empty snapshot.
pub open spec fn empty_span(g: Geometry) -> int {
    span_of(table_len(g.block_count as int), g.block_size as int)
}

/// Why the medium cannot be formatted.
pub open spec fn format_error<E>(media: Seq<Seq<u8>>, g: Geometry) -> Option<Error<E>> {
    let n = g.block_count as int;
    if !geometry_ok(g) {
        Some(Error::InvalidGeometry)
    } else {
        match scanned(media, g, n) {
            None => if table_len(n) > capacity(g) {
                Some(Error::InvalidGeometry)
            } else {
                None
            },
            Some(h) => if 64 + table_len(n) > seg_len(h) {
                Some(Error::Corrupt)
            } else if forall|t: int|
                !#[trigger] candidate(h, empty_span(g), format_counters(media, g), n, t) {
                Some(Error::NoSpace)
            } else {
                None
            },
        }
    }
}

/// The generation of the snapshot that formatting writes.
pub open spec fn format_generation(media: Seq<Seq<u8>>, g: Geometry) -> u32 {
    match scanned(media, g, g.block_count as int) {
        Some(h) => h.generation.wrapping_add(1),
        None => 0,
    }
}

/// The snapshot that was there before formatting is still there.
pub open spec fn previous_untouched<D: BlockDevice>(before: D, after: D) -> bool {
    &&& after.geom() == before.geom()
    &&& media_shape(after.media(), after.geom())
    &&& after.faults() >= before.faults()
    &&& geometry_ok(before.geom()) ==> match scanned(
        before.media(),
        before.geom(),
        before.geom().block_count as int,
    ) {
        Some(h) => forall|b: int|
            0 <= b < before.media().len() && #[trigger] in_seg(h, b) ==> after.media()[b]
                == before.media()[b],
        None => true,
    }
}

/// What came of formatting, if `tried` are the places that were written to and `lost` the
/// blocks that turned out bad there, and `wear` are the counters in the end.
///
/// There is no space if no place is left without the bad blocks, or if too many places were
/// tried in vain. A failure of the device ends the formatting if it comes from reading
/// before anything is written, or else leaves the outcome uncertain.
pub open spec fn format_history<D: BlockDevice>(
    before: D,
    after: D,
    r: Result<SnapshotHeader, Error<D::Error>>,
    wear: Seq<u16>,
    tried: Seq<SnapshotHeader>,
    lost: Seq<u32>,
) -> bool {
    let g = before.geom();
    let n = g.block_count as int;
    let previous = scanned(before.media(), g, n);
    let span = empty_span(g);
    let first = format_counters(before.media(), g);
    let last = table_for(first, n, false, tried, lost, lost.len() as int);
    &&& left_behind(
        before,
        after,
        previous,
        format_generation(before.media(), g),
        Seq::empty(),
        tried,
    )
    &&& followed(previous, span, first, n, false, tried, lost)
    &&& after.faults() >= before.faults() + lost.len()
    &&& match r {
        Ok(h) => {
            &&& tried.len() == lost.len() + 1
            &&& tried.last() == h
            &&& ends_with_commit(after.writes(), h)
            &&& wear == incremented(last, h.start_block as int, span, n)
        },
        Err(Error::Device(error)) => if tried.len() > lost.len() {
            uncertain(after, tried.last(), error)
        } else {
            tried.len() == 0 && after.fault() is Read && untouched(before, after)
        },
        Err(Error::NoSpace) => {
            &&& tried.len() == lost.len()
            &&& tried.len() == 0 ==> untouched(before, after)
            &&& tried.len() == MAX_COMMIT_ATTEMPTS || no_place(previous, span, last, n)
        },
        Err(_) => tried.len() == 0 && untouched(before, after),
    }
}

/// The formatting has such a history.
#[verifier::opaque]
pub open spec fn format_traced<D: BlockDevice>(
    before: D,
    after: D,
    r: Result<SnapshotHeader, Error<D::Error>>,
    wear: Seq<u16>,
) -> bool {
    exists|tried: Seq<SnapshotHeader>, lost: Seq<u32>| #[trigger]
        format_history(before, after, r, wear, tried, lost)
}

/// Formatting failed with this error and left the device as `after`.
pub open spec fn format_failed<D: BlockDevice>(
    before: D,
    after: D,
    error: Error<D::Error>,
) -> bool {
    &&& previous_untouched(before, after)
    &&& format_traced(before, after, Err(error), Seq::empty())
    &&& error is Device || error is NoSpace || error is InvalidGeometry || error is Corrupt
    &&& error is Device ==> after.faults() > before.faults()
    &&& after.faults() == before.faults() ==> Some(error) == format_error::<D::Error>(
        before.media(),
        before.geom(),
    )
}

/// Formatting succeeded: `h` is the empty snapshot, with these counters.
pub open spec fn format_done<D: BlockDevice>(
    before: D,
    after: D,
    h: SnapshotHeader,
    wear: Seq<u16>,
) -> bool {
    let g = before.geom();
    let n = g.block_count as int;
    let previous = scanned(before.media(), g, n);
    let start = format_counters(before.media(), g);
    &&& previous_untouched(before, after)
    &&& format_traced(before, after, Ok(h), wear)
    &&& after.pending() == Set::<(int, int)>::empty()
    &&& geometry_ok(g)
    &&& sits(after, h, wear)
    &&& entries_of(after, h) == Seq::<Entry>::empty()
    &&& h.geom() == g
    &&& h.generation == format_generation(before.media(), g)
    &&& h.payload_len == table_len(n)
    &&& previous is Some ==> disjoint(previous->0, h)
    &&& forall|b: int|
        0 <= b < n && bad(#[trigger] start[b]) ==> !in_seg(h, b) && bad(wear[b])
    &&& after.faults() == before.faults() ==> {
        &&& format_error::<D::Error>(before.media(), g) is None
        &&& wear == incremented(start, h.start_block as int, h.block_span as int, n)
        &&& sealed(before, after, h)
        &&& match previous {
            Some(p) => best_below(p, h.block_span as int, start, n, h.start_block as int, n),
            None => h.start_block == 0,
        }
    }
}

proof fn lemma_empty_span(g: Geometry)
    requires
        geometry_ok(g),
    ensures
        4 <= table_len(g.block_count as int) <= 128,
        1 <= empty_span(g) <= g.block_count,
        table_len(g.block_count as int) <= capacity(g) ==> empty_span(g) <= g.block_count / 2,
        table_len(g.block_count as int) > capacity(g) ==> empty_span(g) > g.block_count / 2,
{
    let bs = g.block_size as int;
    let n = g.block_count as int;
    let t = table_len(n);
    let half = n / 2;
    let span = empty_span(g);
    super::tree::lemma_pad4(2 * n);
    law_span_is_least(t, bs);
    assert(span <= n) by (nonlinear_arith)
        requires
            (span - 1) * bs < 64 + t,
            64 <= bs,
            t <= bs,
            n >= 2,
    ;
    if t <= capacity(g) {
        lemma_span_bound(t, g);
    } else {
        assert(span > half) by (nonlinear_arith)
            requires
                half * bs < 64 + t,
                64 + t <= span * bs,
                bs > 0,
        ;
    }
}

/// How an attempt to write the empty snapshot went.
enum FormatAttempt<E> {
    Done(SnapshotHeader),
    /// This block turned out bad at this place.
    Retry(Ghost<SnapshotHeader>, u32),
    Full,
    /// Writing failed at this place, or none was possible.
    Failed(Error<E>, Ghost<Option<SnapshotHeader>>),
}

/// The device still holds the snapshot that was there before.
spec fn still_there<D: BlockDevice>(
    device: D,
    previous: Option<SnapshotHeader>,
    es: Seq<Entry>,
) -> bool {
    match previous {
        Some(p) => on_device(device, p) && holds(device.media(), p, es) && 64 + table_len(
            p.block_count as int,
        ) <= seg_len(p),
        None => es.len() == 0,
    }
}

/// The blocks of `previous` are as they were.
spec fn blocks_kept<D: BlockDevice>(
    before: D,
    after: D,
    previous: Option<SnapshotHeader>,
) -> bool {
    &&& after.geom() == before.geom()
    &&& media_shape(after.media(), after.geom())
    &&& after.faults() >= before.faults()
    &&& previous is Some ==> forall|b: int|
        0 <= b < before.media().len() && #[trigger] in_seg(previous->0, b) ==> after.media()[b]
            == before.media()[b]
}

/// One attempt to write the empty snapshot went to `h`.
spec fn format_aimed<D: BlockDevice>(
    before: D,
    after: D,
    previous: Option<SnapshotHeader>,
    generation: u32,
    h: SnapshotHeader,
) -> bool {
    &&& is_target(h, before.geom(), generation, previous)
    &&& attempted(before, after, h, Seq::empty())
}

/// Choose a place for the empty snapshot and write it there.
#[verifier::rlimit(60)]
fn format_attempt<D: BlockDevice>(
    device: &mut D,
    previous: Option<SnapshotHeader>,
    wear: &mut [u16; MAX_WEAR_BLOCKS],
    generation: u32,
    geometry: Geometry,
    Ghost(es): Ghost<Seq<Entry>>,
) -> (r: FormatAttempt<D::Error>)
    requires
        geometry == old(device).geom(),
        geometry_ok(geometry),
        media_shape(old(device).media(), geometry),
        still_there(*old(device), previous, es),
        previous is Some ==> table_len(geometry.block_count as int) <= capacity(geometry),
    ensures
        blocks_kept(*old(device), *final(device), previous),
        still_there(*final(device), previous, es),
        bad_kept(old(wear)@, final(wear)@, geometry.block_count as int),
        ({
            let n = geometry.block_count as int;
            let span = empty_span(geometry);
            let start = old(wear)@;
            match r {
                FormatAttempt::Done(h) => {
                    &&& format_aimed(*old(device), *final(device), previous, generation, h)
                    &&& sits(*final(device), h, final(wear)@)
                    &&& entries_of(*final(device), h) == Seq::<Entry>::empty()
                    &&& h.geom() == geometry
                    &&& h.generation == generation
                    &&& h.payload_len == table_len(n)
                    &&& h.block_span == span
                    &&& previous is Some ==> disjoint(previous->0, h)
                    &&& chosen(previous, span, start, n, h)
                    &&& final(wear)@ == incremented(start, h.start_block as int, span, n)
                    &&& table_len(n) <= capacity(geometry)
                    &&& sealed(*old(device), *final(device), h)
                },
                FormatAttempt::Retry(h, block) => {
                    &&& final(device).faults() > old(device).faults()
                    &&& format_aimed(*old(device), *final(device), previous, generation, h@)
                    &&& chosen(previous, span, start, n, h@)
                    &&& in_seg(h@, block as int)
                    &&& final(wear)@ == marked(
                        incremented(start, h@.start_block as int, span, n),
                        block as int,
                    )
                    &&& table_len(n) <= capacity(geometry)
                },
                FormatAttempt::Full => *final(device) == *old(device) && no_place(
                    previous,
                    span,
                    start,
                    n,
                ),
                FormatAttempt::Failed(error, aim) => match aim@ {
                    Some(h) => {
                        &&& error is Device
                        &&& final(device).faults() > old(device).faults()
                        &&& format_aimed(*old(device), *final(device), previous, generation, h)
                        &&& chosen(previous, span, start, n, h)
                        &&& uncertain(*final(device), h, error->Device_0)
                    },
                    None => error is InvalidGeometry && *final(device) == *old(device) && table_len(
                        n,
                    ) > capacity(geometry),
                },
            }
        }),
{
    let ghost d0 = *device;
    let ghost n = geometry.block_count as int;
    let ghost w0 = wear@;
    let ghost none = Seq::<Entry>::empty();
    let block_count: u32 = geometry.block_count;
    let table_size: u32 = wear_table_size(block_count);
    proof {
        lemma_empty_span(geometry);
        lemma_capacity(geometry);
        if previous is Some {
            lemma_seg_len(previous->0);
        }
    }
    let span: u32 = match checked_snapshot_span(table_size, geometry.block_size) {
        Some(span) => span,
        None => return FormatAttempt::Failed(Error::InvalidGeometry, Ghost(None)),
    };
    let choice: Option<u32> = match previous {
        Some(active) => choose_start_block(&active, span, wear, block_count),
        None => choose_virgin_start(span, wear, block_count),
    };
    let start_block: u32 = match choice {
        Some(start_block) => start_block,
        None => {
            return FormatAttempt::Full;
        },
    };
    let next_wear = incremented_wear(wear, start_block, span, block_count);
    let ghost w2 = incremented(w0, start_block as int, span as int, n);
    proof {
        assert(next_wear@ =~= w2);
        lemma_incremented_bad(w0, start_block as int, span as int, n);
    }
    let mut table = [0u8; MAX_WEAR_TABLE_SIZE];
    table_of(&next_wear, block_count, &mut table);
    let ghost wear_bytes = table_bytes(w2, n);
    assert(table@.subrange(0, table_size as int) =~= table@.take(table_size as int));
    let payload_crc: u32 = crc32_mpeg2(&table[0..table_size as usize]);
    proof {
        assert(serialize(none) =~= Seq::<u8>::empty());
        assert(wear_bytes + serialize(none) =~= wear_bytes);
    }
    let header = match SnapshotHeader::new(
        generation,
        start_block,
        table_size,
        payload_crc,
        0,
        geometry,
    ) {
        Ok(header) => header,
        Err(_) => {
            proof {
                if table_len(n) <= capacity(geometry) {
                    let h = SnapshotHeader {
                        generation,
                        start_block,
                        block_span: span,
                        payload_len: table_size,
                        payload_crc,
                        file_count: 0,
                        block_size: geometry.block_size,
                        block_count: geometry.block_count,
                        features: super::format::SUPPORTED_FEATURES,
                    };
                    lemma_header_ok(h, geometry, none);
                }
            }
            return FormatAttempt::Failed(Error::InvalidGeometry, Ghost(None));
        },
    };
    proof {
        assert(describes(header, none, wear_bytes));
        super::tree::law_clear_empties(es);
        if previous is Some {
            lemma_disjoint(previous->0, header);
        }
    }
    let source: Option<&SnapshotHeader> = match &previous {
        Some(active) => Some(active),
        None => None,
    };
    let outcome = write_candidate(
        device,
        &header,
        source,
        Change::Clear,
        &table[0..table_size as usize],
        Ghost(es),
    );
    proof {
        if previous is Some {
            super::commit::lemma_still_holds(d0, *device, header, previous->0, es);
        }
        assert(format_aimed(d0, *device, previous, generation, header));
    }
    *wear = next_wear;
    match outcome {
        Ok(()) => {
            proof {
                lemma_seg_len(header);
                lemma_base(header);
                lemma_table_committed(seg(device.media(), header), w2, n);
                reveal(entries_of);
            }
            FormatAttempt::Done(header)
        },
        Err(CommitError::Block { block, error: _ }) => {
            mark_bad(wear, block);
            assert(wear@ =~= marked(w2, block as int));
            proof {
                lemma_seg_len(header);
                lemma_marked_bad(w2, block as int, n);
            }
            FormatAttempt::Retry(Ghost(header), block)
        },
        Err(CommitError::Fatal(error)) => FormatAttempt::Failed(error, Ghost(Some(header))),
    }
}

/// What a scan finds is a valid snapshot.
proof fn lemma_scanned(media: Seq<Seq<u8>>, g: Geometry, n: int)
    requires
        0 <= n <= g.block_count,
        scanned(media, g, n) is Some,
    ensures
        ({
            let h = scanned(media, g, n)->0;
            &&& h.start_block < n
            &&& h.geom() == g
            &&& h.error() is None
            &&& SnapshotHeader::decoded_at(media[h.start_block as int].take(64), h.start_block, g)
                == Ok::<SnapshotHeader, FormatError>(h)
            &&& snapshot_entries(seg(media, h), h) is Some
        }),
    decreases n,
{
    if scanned(media, g, n - 1) is Some {
        lemma_scanned(media, g, n - 1);
    }
    let b = media[n - 1].take(64);
    if SnapshotHeader::decoded_at(b, (n - 1) as u32, g) is Ok {
        lemma_decoded_at(b, (n - 1) as u32, g);
    }
}

/// Blocks that were bad at the start are not used.
proof fn lemma_bad_unused(
    previous: Option<SnapshotHeader>,
    start: Seq<u16>,
    wear: Seq<u16>,
    after: Seq<u16>,
    h: SnapshotHeader,
)
    requires
        bad_kept(start, wear, h.block_count as int),
        bad_kept(wear, after, h.block_count as int),
        is_place(
            previous,
            h.block_span as int,
            wear,
            h.block_count as int,
            h.start_block as int,
        ),
    ensures
        forall|b: int|
            0 <= b < h.block_count && bad(#[trigger] start[b]) ==> !in_seg(h, b) && bad(after[b]),
{
    let n = h.block_count as int;
    assert forall|b: int| 0 <= b < n && bad(#[trigger] start[b]) implies !in_seg(h, b) && bad(
        after[b],
    ) by {
        assert(bad(wear[b]));
        if in_seg(h, b) {
            let k = choose|k: int|
                0 <= k < h.block_span && #[trigger] wrap(h.start_block + k, n) == b;
            assert(!bad(wear[wrap(h.start_block + k, n)]));
        }
    }
}

/// Without a previous snapshot, the first place is free.
proof fn lemma_virgin(span: int, wear: Seq<u16>, n: int)
    requires
        0 <= span <= n <= 64,
        wear == Seq::new(64, |b: int| 0u16),
    ensures
        usable(wear, 0, span, n),
        n > 0 ==> is_place(None, span, wear, n, 0),
        forall|t: int| #[trigger] is_place(None, span, wear, n, t) ==> t == 0,
{
    assert(usable(wear, 0, span, n));
    assert forall|t: int| #[trigger] is_place(None, span, wear, n, t) implies t == 0 by {
        if t > 0 {
            assert(!usable(wear, 0, span, n));
        }
    }
}

/// Nothing has been tried yet.
proof fn lemma_format_begun<D: BlockDevice>(before: D, after: D)
    requires
        untouched(before, after),
        media_shape(before.media(), before.geom()),
    ensures
        left_behind(
            before,
            after,
            scanned(before.media(), before.geom(), before.geom().block_count as int),
            format_generation(before.media(), before.geom()),
            Seq::empty(),
            Seq::empty(),
        ),
        followed(
            scanned(before.media(), before.geom(), before.geom().block_count as int),
            empty_span(before.geom()),
            format_counters(before.media(), before.geom()),
            before.geom().block_count as int,
            false,
            Seq::empty(),
            Seq::empty(),
        ),
{
    lemma_left_nothing(
        before,
        after,
        scanned(before.media(), before.geom(), before.geom().block_count as int),
        format_generation(before.media(), before.geom()),
        Seq::empty(),
    );
}

/// Reading leaves no trace.
proof fn lemma_format_untraced<D: BlockDevice>(before: D, after: D, error: Error<D::Error>)
    requires
        untouched(before, after),
        media_shape(before.media(), before.geom()),
        error is Device ==> after.faults() > before.faults(),
        !(error is NoSpace),
    ensures
        format_traced(before, after, Err(error), Seq::empty()),
{
    reveal(format_traced);
    lemma_format_begun(before, after);
    assert(format_history(before, after, Err(error), Seq::empty(), Seq::empty(), Seq::empty()));
}

/// Write an empty snapshot.
#[verifier::rlimit(60)]
fn format_on<D: BlockDevice>(device: &mut D) -> (r: Result<
    (Geometry, SnapshotHeader, [u16; MAX_WEAR_BLOCKS]),
    Error<D::Error>,
>)
    ensures
        match r {
            Ok(done) => done.0 == old(device).geom() && format_done(
                *old(device),
                *final(device),
                done.1,
                done.2@,
            ),
            Err(error) => format_failed(*old(device), *final(device), error),
        },
{
    let ghost d0 = *device;
    let geometry = match checked_geometry(device) {
        Ok(geometry) => geometry,
        Err(error) => {
            proof {
                lemma_format_untraced(d0, d0, error);
            }
            return Err(error);
        },
    };
    let ghost n = geometry.block_count as int;
    let ghost media = d0.media();
    let previous: Option<SnapshotHeader> = match scan_active(device, geometry) {
        Ok(previous) => previous,
        Err(error) => {
            proof {
                lemma_format_untraced(d0, *device, error);
            }
            return Err(error);
        },
    };
    assert(previous == scanned(media, geometry, n));
    let ghost es: Seq<Entry> = match previous {
        Some(h) => snapshot_entries(seg(media, h), h)->0,
        None => Seq::empty(),
    };
    proof {
        lemma_empty_span(geometry);
        if previous is Some {
            lemma_scanned(media, geometry, n);
            lemma_seg_len(previous->0);
            lemma_valid_holds(media, previous->0);
        }
    }
    let mut wear = [0u16; MAX_WEAR_BLOCKS];
    match previous {
        Some(header) => {
            match read_wear_table(device, &header) {
                Ok(table) => {
                    wear = rescaled_wear(&table, geometry.block_count);
                    proof {
                        assert(table@ =~= counters_in(seg(media, header), n));
                        assert(wear@ =~= rescaled(table@, n));
                        vstd::arithmetic::mul::lemma_mul_inequality(
                            header.block_span as int,
                            n / 2,
                            header.block_size as int,
                        );
                    }
                },
                Err(error) => {
                    proof {
                        lemma_format_untraced(d0, *device, error);
                    }
                    return Err(error);
                },
            }
        },
        None => {
            assert(wear@ =~= Seq::new(64, |b: int| 0u16));
        },
    }
    let ghost start = format_counters(media, geometry);
    assert(wear@ == start);
    let generation: u32 = match previous {
        Some(header) => header.generation.wrapping_add(1),
        None => 0,
    };
    let ghost span = empty_span(geometry);
    let ghost mut tried: Seq<SnapshotHeader> = Seq::empty();
    let ghost mut lost: Seq<u32> = Seq::empty();
    proof {
        lemma_format_begun(d0, *device);
    }
    let mut attempt: u32 = 0;
    while attempt < MAX_COMMIT_ATTEMPTS
        invariant
            attempt <= MAX_COMMIT_ATTEMPTS,
            d0 == *old(device),
            left_behind(d0, *device, previous, generation, Seq::empty(), tried),
            followed(previous, span, start, n, false, tried, lost),
            tried.len() == attempt,
            lost.len() == attempt,
            wear@ == table_for(start, n, false, tried, lost, lost.len() as int),
            device.faults() >= d0.faults() + lost.len(),
            attempt == 0 ==> untouched(d0, *device),
            attempt > 0 ==> table_len(n) <= capacity(geometry),
            span == empty_span(geometry),
            media == d0.media(),
            geometry == d0.geom(),
            geometry_ok(geometry),
            n == geometry.block_count,
            media_shape(media, geometry),
            previous == scanned(media, geometry, n),
            generation == format_generation(media, geometry),
            start == format_counters(media, geometry),
            blocks_kept(d0, *device, previous),
            still_there(*device, previous, es),
            previous is Some ==> table_len(n) <= capacity(geometry) && 64 + table_len(n)
                <= seg_len(previous->0),
            bad_kept(start, wear@, n),
        decreases MAX_COMMIT_ATTEMPTS - attempt,
    {
        let ghost w0 = wear@;
        let ghost d1 = *device;
        proof {
            lemma_empty_span(geometry);
            if previous is None && w0 == start {
                lemma_virgin(span, start, n);
            }
        }
        match format_attempt(device, previous, &mut wear, generation, geometry, Ghost(es)) {
            FormatAttempt::Done(header) => {
                proof {
                    lemma_left_more(
                        d0,
                        d1,
                        *device,
                        previous,
                        generation,
                        Seq::empty(),
                        tried,
                        header,
                    );
                    lemma_followed_more(previous, span, start, n, false, tried, lost, header);
                    assert(tried.push(header).last() == header);
                    reveal(format_traced);
                    assert(format_history(d0, *device, Ok(header), wear@, tried.push(header), lost));
                    lemma_bad_unused(previous, start, w0, wear@, header);
                    if device.faults() == d0.faults() && previous is Some {
                        assert(candidate(previous->0, span, start, n, header.start_block as int));
                    }
                }
                return Ok((geometry, header, wear));
            },
            FormatAttempt::Retry(aim, block) => {
                proof {
                    let next = aim@;
                    lemma_left_more(
                        d0,
                        d1,
                        *device,
                        previous,
                        generation,
                        Seq::empty(),
                        tried,
                        next,
                    );
                    lemma_followed_lost(previous, span, start, n, false, tried, lost, next, block);
                    tried = tried.push(next);
                    lost = lost.push(block);
                }
            },
            FormatAttempt::Full => {
                proof {
                    reveal(format_traced);
                    let error: Error<D::Error> = Error::NoSpace;
                    assert(format_history(d0, *device, Err(error), Seq::empty(), tried, lost));
                }
                return Err(Error::NoSpace);
            },
            FormatAttempt::Failed(error, aim) => {
                proof {
                    reveal(format_traced);
                    match aim@ {
                        Some(next) => {
                            lemma_left_more(
                                d0,
                                d1,
                                *device,
                                previous,
                                generation,
                                Seq::empty(),
                                tried,
                                next,
                            );
                            lemma_followed_more(previous, span, start, n, false, tried, lost, next);
                            tried = tried.push(next);
                        },
                        None => {},
                    }
                    assert(format_history(d0, *device, Err(error), Seq::empty(), tried, lost));
                }
                return Err(error);
            },
        }
        attempt += 1;
    }
    proof {
        reveal(format_traced);
        let error: Error<D::Error> = Error::NoSpace;
        assert(format_history(d0, *device, Err(error), Seq::empty(), tried, lost));
    }
    Err(Error::NoSpace)
}

// ---------------------------------------------------------------------------
// Reading
// ---------------------------------------------------------------------------

/// The metadata of an entry.
pub open spec fn info_of(e: Entry) -> FileInfo {
    FileInfo {
        kind: if e.directory {
            EntryKind::Directory
        } else {
            EntryKind::File
        },
        size: e.data.len() as u32,
        crc32: crc_of(e.data),
    }
}

/// The metadata of the root directory.
pub open spec fn root_metadata() -> FileInfo {
    FileInfo { kind: EntryKind::Directory, size: 0, crc32: CRC32_MPEG2_INITIAL }
}

/// What `stat` finds.
pub open spec fn stat_result<E>(es: Seq<Entry>, name: Seq<u8>) -> Result<FileInfo, Error<E>> {
    if name.len() == 0 {
        Ok(root_metadata())
    } else if !valid_name(name) {
        Err(Error::InvalidName)
    } else {
        match lookup(es, name) {
            Some(e) => Ok(info_of(e)),
            None => Err(Error::NotFound),
        }
    }
}

/// Why a file cannot be read.
pub open spec fn read_refusal<E>(es: Seq<Entry>, name: Seq<u8>) -> Option<Error<E>> {
    if !valid_name(name) {
        Some(Error::InvalidName)
    } else {
        match lookup(es, name) {
            None => Some(Error::NotFound),
            Some(e) => if e.directory {
                Some(Error::IsDirectory)
            } else {
                None
            },
        }
    }
}

/// How many bytes a read at `offset` gives.
pub open spec fn read_len(e: Entry, offset: int, room: int) -> int {
    if offset >= e.data.len() {
        0
    } else if e.data.len() - offset < room {
        e.data.len() - offset
    } else {
        room
    }
}

/// Why a file cannot be written, whatever its data.
pub open spec fn place_refusal<E>(es: Seq<Entry>, name: Seq<u8>) -> Option<Error<E>> {
    if !valid_name(name) {
        Some(Error::InvalidName)
    } else {
        match parent_result::<E>(es, name) {
            Err(error) => Some(error),
            Ok(()) => if lookup(es, name) is Some && lookup(es, name)->0.directory {
                Some(Error::IsDirectory)
            } else {
                None
            },
        }
    }
}

/// The bytes that the record of `name` takes up now.
pub open spec fn replaced_len(es: Seq<Entry>, name: Seq<u8>) -> int {
    match lookup(es, name) {
        Some(e) => entry_len(e),
        None => 0,
    }
}

/// How many data bytes a file could have.
pub open spec fn room_for(h: SnapshotHeader, es: Seq<Entry>, name: Seq<u8>) -> int {
    capacity(h.geom()) - (h.payload_len - replaced_len(es, name)) - 20 - name.len()
}

/// What `max_write_size` says.
pub open spec fn max_write_result<E>(
    h: SnapshotHeader,
    es: Seq<Entry>,
    name: Seq<u8>,
) -> Result<u32, Error<E>> {
    if place_refusal::<E>(es, name) is Some {
        Err(place_refusal::<E>(es, name)->0)
    } else if lookup(es, name) is None && es.len() >= 32 {
        Err(Error::NoSpace)
    } else if room_for(h, es, name) < 0 {
        Err(Error::NoSpace)
    } else {
        Ok(room_for(h, es, name) as u32)
    }
}

/// The entries directly in a directory, `None` being the root.
pub open spec fn children(es: Seq<Entry>, dir: Option<Seq<u8>>) -> Seq<Entry>
    decreases es.len(),
{
    if es.len() == 0 {
        Seq::empty()
    } else if parent_of(es.last().name) == dir {
        children(es.drop_last(), dir).push(es.last())
    } else {
        children(es.drop_last(), dir)
    }
}

/// The directory that a path names.
pub open spec fn dir_of(name: Seq<u8>) -> Option<Seq<u8>> {
    if name.len() == 0 {
        None
    } else {
        Some(name)
    }
}

/// Why a directory cannot be listed.
pub open spec fn read_dir_refusal<E>(es: Seq<Entry>, name: Seq<u8>) -> Option<Error<E>> {
    if name.len() == 0 {
        None
    } else if !valid_name(name) {
        Some(Error::InvalidName)
    } else {
        match lookup(es, name) {
            None => Some(Error::NotFound),
            Some(e) => if e.directory {
                None
            } else {
                Some(Error::NotDirectory)
            },
        }
    }
}

/// The list shows these entries under these names.
pub open spec fn lists(
    list: Seq<(String, FileInfo)>,
    es: Seq<Entry>,
    shown: spec_fn(Seq<u8>) -> Seq<u8>,
) -> bool {
    &&& list.len() == es.len()
    &&& forall|i: int|
        0 <= i < es.len() ==> encode_utf8((#[trigger] list[i]).0@) == shown(es[i].name)
            && list[i].1 == info_of(es[i])
}

/// The list has grown by entries from the front of `es`, under these names.
pub open spec fn listed(
    before: Seq<(String, FileInfo)>,
    after: Seq<(String, FileInfo)>,
    es: Seq<Entry>,
    shown: spec_fn(Seq<u8>) -> Seq<u8>,
) -> bool {
    let n = after.len() - before.len();
    &&& 0 <= n <= es.len()
    &&& after.take(before.len() as int) == before
    &&& lists(after.skip(before.len() as int), es.take(n), shown)
}

/// One more entry in the list.
proof fn lemma_listed_more(
    before: Seq<(String, FileInfo)>,
    found: Seq<(String, FileInfo)>,
    es: Seq<Entry>,
    shown: spec_fn(Seq<u8>) -> Seq<u8>,
    item: (String, FileInfo),
)
    requires
        listed(before, found, es, shown),
        found.len() - before.len() < es.len(),
        ({
            let e = es[found.len() - before.len()];
            encode_utf8(item.0@) == shown(e.name) && item.1 == info_of(e)
        }),
    ensures
        listed(before, found.push(item), es, shown),
{
    let n = found.len() - before.len();
    let all = found.push(item);
    let tail = all.skip(before.len() as int);
    assert(all.take(before.len() as int) =~= found.take(before.len() as int));
    assert forall|i: int| 0 <= i < n + 1 implies encode_utf8((#[trigger] tail[i]).0@) == shown(
        es.take(n + 1)[i].name,
    ) && tail[i].1 == info_of(es.take(n + 1)[i]) by {
        if i < n {
            assert(tail[i] == found.skip(before.len() as int)[i]);
            assert(es.take(n)[i] == es[i]);
        }
    }
}

/// The record of an entry has the entry's metadata.
proof fn lemma_info(record: Record, es: Seq<Entry>, i: int)
    requires
        all_ok(es),
        record.is_entry(es, i),
    ensures
        (record.flags == 1) == es[i].directory,
        record.data_len == es[i].data.len(),
        record.data_crc == crc_of(es[i].data),
        record.record_len == entry_len(es[i]),
        (FileInfo {
            kind: if record.flags == 1 {
                EntryKind::Directory
            } else {
                EntryKind::File
            },
            size: record.data_len,
            crc32: record.data_crc,
        }) == info_of(es[i]),
{
    lemma_record_bytes_len(es[i]);
}

/// The metadata of the root directory.
fn root_info() -> (r: FileInfo)
    ensures
        r == root_metadata(),
{
    FileInfo { kind: EntryKind::Directory, size: 0, crc32: CRC32_MPEG2_INITIAL }
}

/// A path from text is well-formed if it is canonical.
proof fn lemma_path(name: &str)
    requires
        valid_name(name.spec_bytes()),
    ensures
        path_ok(name.spec_bytes()),
        1 <= name.spec_bytes().len() <= 63,
{
    vstd::utf8::encode_utf8_valid_utf8(name@);
    reveal(path_ok);
}

fn to_vec(bytes: &[u8]) -> (r: Vec<u8>)
    ensures
        r@ == bytes@,
{
    let mut copy: Vec<u8> = Vec::new();
    let mut i: usize = 0;
    while i < bytes.len()
        invariant
            i <= bytes@.len(),
            copy@ == bytes@.take(i as int),
        decreases bytes@.len() - i,
    {
        copy.push(bytes[i]);
        assert(bytes@.take(i + 1) =~= bytes@.take(i as int).push(bytes@[i as int]));
        i += 1;
    }
    assert(bytes@.take(i as int) =~= bytes@);
    copy
}

/// Read a committed snapshot and its header again.
#[verifier::rlimit(40)]
fn verify_snapshot<D: BlockDevice>(device: &mut D, active: &SnapshotHeader) -> (r: Result<
    (),
    Error<D::Error>,
>)
    requires
        on_device(*old(device), *active),
    ensures
        untouched(*old(device), *final(device)),
        honest(r, old(device).faults(), final(device).faults()),
        final(device).faults() == old(device).faults() ==> if snapshot_at(
            old(device).media(),
            active.geom(),
            active.start_block as int,
        ) == Some(*active) {
            r is Ok
        } else {
            r is Err && r->Err_0 is Corrupt
        },
{
    let ghost media = device.media();
    proof {
        lemma_seg_len(*active);
        super::commit::lemma_front(media, *active);
    }
    let mut encoded = [0u8; HEADER_SIZE];
    match segment_read(device, active, 0, &mut encoded) {
        Ok(()) => {},
        Err(error) => return Err(error),
    }
    match SnapshotHeader::decode_at(&encoded, active.start_block, active.geometry()) {
        Ok(observed) => {
            if observed != *active {
                return Err(Error::Corrupt);
            }
        },
        Err(_) => return Err(Error::Corrupt),
    }
    assert(snapshot_at(media, active.geom(), active.start_block as int) == Some(*active)
        <==> snapshot_entries(seg(media, *active), *active) is Some);
    validate_snapshot(device, active)
}

impl<D: BlockDevice> FileSystem<D> {
    /// Reading has changed nothing.
    pub open spec fn only_read(self, before: Self) -> bool {
        &&& self.inv()
        &&& untouched(before.dev(), self.dev())
        &&& self.same_state(before)
        &&& self.stuck() == before.stuck()
    }

    /// Mount the newest completely valid snapshot without modifying the device.
    pub fn mount(device: D) -> (r: Result<Self, Error<D::Error>>)
        ensures
            match r {
                Ok(fs) => {
                    &&& fs.inv()
                    &&& !fs.stuck()
                    &&& untouched(device, fs.dev())
                    &&& fs.dev().faults() == device.faults()
                    &&& mount_error::<D::Error>(device.media(), device.geom()) is None
                    &&& Some(fs.header()) == scanned(
                        device.media(),
                        device.geom(),
                        device.geom().block_count as int,
                    )
                },
                Err(error) => exists|after: D| #[trigger] mount_failed(device, after, error),
            },
    {
        let mut device = device;
        let ghost d0 = device;
        let geometry = match checked_geometry(&device) {
            Ok(geometry) => geometry,
            Err(error) => {
                assert(mount_failed(d0, device, error));
                return Err(error);
            },
        };
        let ghost n = geometry.block_count as int;
        let active = match scan_active(&mut device, geometry) {
            Ok(Some(active)) => active,
            Ok(None) => {
                let error: Error<D::Error> = Error::NotFormatted;
                assert(mount_failed(d0, device, error));
                return Err(error);
            },
            Err(error) => {
                assert(mount_failed(d0, device, error));
                return Err(error);
            },
        };
        proof {
            lemma_scanned(d0.media(), geometry, n);
        }
        let wear = match read_wear_table(&mut device, &active) {
            Ok(wear) => wear,
            Err(error) => {
                assert(mount_failed(d0, device, error));
                return Err(error);
            },
        };
        proof {
            reveal(FileSystem::inv);
        }
        Ok(FileSystem { device, geometry, active, recovery_required: false, wear })
    }

    /// Atomically publish an empty filesystem.
    ///
    /// If a valid filesystem already exists, it remains mountable until the
    /// empty snapshot is completely written and committed. Its erase counters
    /// are carried over, and only the destination blocks are incremented. A
    /// block that turns out bad is marked and another place tried.
    pub fn format(device: D) -> (r: Result<Self, Error<D::Error>>)
        ensures
            match r {
                Ok(fs) => {
                    &&& fs.inv()
                    &&& !fs.stuck()
                    &&& fs.entries() == Seq::<Entry>::empty()
                    &&& format_done(device, fs.dev(), fs.header(), fs.counters())
                },
                Err(error) => exists|after: D| #[trigger] format_failed(device, after, error),
            },
    {
        let mut device = device;
        let ghost d0 = device;
        match format_on(&mut device) {
            Ok(done) => {
                proof {
                    reveal(FileSystem::inv);
                }
                let (geometry, active, wear) = done;
                Ok(FileSystem { device, geometry, active, recovery_required: false, wear })
            },
            Err(error) => {
                assert(format_failed(d0, device, error));
                Err(error)
            },
        }
    }

    /// Return the owned device. Use this before remounting after an I/O error.
    pub fn into_device(self) -> (r: D)
        ensures
            r == self.dev(),
    {
        self.device
    }

    /// The underlying device.
    pub fn device(&self) -> (r: &D)
        ensures
            *r == self.dev(),
    {
        &self.device
    }

    /// Whether a failed mutation requires dropping this state and mounting
    /// again before another mutation.
    pub fn recovery_required(&self) -> (r: bool)
        ensures
            r == self.stuck(),
    {
        self.recovery_required
    }

    /// Current sizes, limits and wear.
    pub fn info(&self) -> (r: FsInfo)
        requires
            self.inv(),
        ensures
            r.generation == self.header().generation,
            r.entry_count == self.entries().len(),
            r.file_count == self.entries().len(),
            r.serialized_bytes == self.header().payload_len,
            r.active_blocks == self.header().block_span,
            r.capacity_bytes == capacity(self.header().geom()) - table_len(self.blocks()),
            are_bounds(
                self.counters(),
                self.blocks(),
                r.min_erase_count as int,
                r.max_erase_count as int,
            ),
    {
        proof {
            lemma_inv(*self);
            lemma_capacity(self.header().geom());
            lemma_room(*self);
        }
        let (minimum, maximum) = self.wear_bounds();
        let capacity_bytes: u32 = snapshot_capacity(self.geometry) - wear_table_size(
            self.geometry.block_count,
        );
        FsInfo {
            generation: self.active.generation,
            entry_count: self.active.file_count,
            file_count: self.active.file_count,
            serialized_bytes: self.active.payload_len,
            active_blocks: self.active.block_span,
            capacity_bytes,
            min_erase_count: minimum,
            max_erase_count: maximum,
        }
    }

    /// Smallest and largest erase count over all non-bad blocks.
    ///
    /// Bad blocks are excluded: their counters no longer take part in placement.
    pub fn wear_bounds(&self) -> (r: (u32, u32))
        requires
            self.inv(),
        ensures
            are_bounds(self.counters(), self.blocks(), r.0 as int, r.1 as int),
    {
        proof {
            lemma_inv(*self);
        }
        super::wear::wear_bounds(&self.wear, self.geometry.block_count)
    }

    /// Re-read and validate the complete active snapshot.
    pub fn verify(&mut self) -> (r: Result<(), Error<D::Error>>)
        requires
            old(self).placed(),
        ensures
            untouched(old(self).dev(), final(self).dev()),
            final(self).header() == old(self).header(),
            final(self).counters() == old(self).counters(),
            final(self).stuck() == old(self).stuck(),
            old(self).inv() ==> final(self).inv(),
            honest(r, old(self).dev().faults(), final(self).dev().faults()),
            final(self).dev().faults() == old(self).dev().faults() ==> if snapshot_at(
                old(self).dev().media(),
                old(self).header().geom(),
                old(self).header().start_block as int,
            ) == Some(old(self).header()) {
                r is Ok
            } else {
                r is Err && r->Err_0 is Corrupt
            },
    {
        let ghost fs0 = *self;
        let active = self.active;
        let outcome = verify_snapshot(&mut self.device, &active);
        proof {
            if fs0.inv() {
                lemma_inv_untouched(fs0, *self);
            }
        }
        outcome
    }

    /// Return metadata for a canonical root-relative path.
    ///
    /// The empty path denotes the implicit root directory. Persistent paths do
    /// not begin or end with `/`, and contain no empty, `.` or `..` component.
    pub fn stat(&mut self, name: &str) -> (r: Result<FileInfo, Error<D::Error>>)
        requires
            old(self).inv(),
        ensures
            final(self).only_read(*old(self)),
            honest(r, old(self).dev().faults(), final(self).dev().faults()),
            final(self).dev().faults() == old(self).dev().faults() ==> r == stat_result::<D::Error>(
                old(self).entries(),
                name.spec_bytes(),
            ),
    {
        let ghost fs0 = *self;
        let ghost es = self.entries();
        let bytes: &[u8] = name.as_bytes();
        if bytes.len() == 0 {
            return Ok(root_info());
        }
        if !validate_name(bytes) {
            return Err(Error::InvalidName);
        }
        proof {
            lemma_inv(fs0);
        }
        let active = self.active;
        let outcome = find_record(&mut self.device, &active, bytes, Ghost(es));
        proof {
            lemma_inv_untouched(fs0, *self);
        }
        match outcome {
            Ok(Some(record)) => {
                proof {
                    lemma_info(record, es, position(es, bytes@));
                }
                Ok(record.info())
            },
            Ok(None) => Err(Error::NotFound),
            Err(error) => Err(error),
        }
    }

    /// Maximum data length that a whole-file write to `name` can currently fit.
    ///
    /// This is a read-only preflight. Replacing a file reclaims its current
    /// record, while creating a file also accounts for the namespace limit.
    pub fn max_write_size(&mut self, name: &str) -> (r: Result<u32, Error<D::Error>>)
        requires
            old(self).inv(),
        ensures
            final(self).only_read(*old(self)),
            honest(r, old(self).dev().faults(), final(self).dev().faults()),
            final(self).dev().faults() == old(self).dev().faults() ==> r == max_write_result::<
                D::Error,
            >(old(self).header(), old(self).entries(), name.spec_bytes()),
    {
        let ghost fs0 = *self;
        let ghost es = self.entries();
        let bytes: &[u8] = name.as_bytes();
        if !validate_name(bytes) {
            return Err(Error::InvalidName);
        }
        proof {
            lemma_inv(fs0);
            lemma_room(fs0);
            lemma_seg_len(fs0.active);
        }
        let active = self.active;
        let outcome = ensure_parent_directory(&mut self.device, &active, bytes, Ghost(es));
        let ghost fs1 = *self;
        proof {
            lemma_inv_untouched(fs0, *self);
        }
        match outcome {
            Ok(()) => {},
            Err(error) => return Err(error),
        }
        let outcome = find_record(&mut self.device, &active, bytes, Ghost(es));
        proof {
            lemma_inv_untouched(fs1, *self);
        }
        let existing = match outcome {
            Ok(existing) => existing,
            Err(error) => return Err(error),
        };
        let replaced: u32 = match existing {
            Some(record) => {
                proof {
                    lemma_info(record, es, position(es, bytes@));
                    lemma_entry_record(
                        fs0.dev().media(),
                        active,
                        es,
                        position(es, bytes@),
                    );
                }
                if record.is_directory() {
                    return Err(Error::IsDirectory);
                }
                record.record_len
            },
            None => {
                if active.file_count >= MAX_FILES {
                    return Err(Error::NoSpace);
                }
                0
            },
        };
        proof {
            lemma_base(active);
        }
        let retained: u32 = match active.payload_len.checked_sub(replaced) {
            Some(retained) => retained,
            None => return Err(Error::Corrupt),
        };
        let available: u32 = match snapshot_capacity(self.geometry).checked_sub(retained) {
            Some(available) => available,
            None => return Err(Error::Corrupt),
        };
        let fixed: u32 = 20 + bytes.len() as u32;
        match available.checked_sub(fixed) {
            Some(room) => Ok(room),
            None => Err(Error::NoSpace),
        }
    }

    /// Read up to `buffer.len()` bytes starting at `offset`.
    pub fn read(&mut self, name: &str, offset: u32, buffer: &mut [u8]) -> (r: Result<
        usize,
        Error<D::Error>,
    >)
        requires
            old(self).inv(),
        ensures
            final(self).only_read(*old(self)),
            honest(r, old(self).dev().faults(), final(self).dev().faults()),
            final(buffer)@.len() == old(buffer)@.len(),
            final(self).dev().faults() == old(self).dev().faults() ==> match read_refusal::<
                D::Error,
            >(old(self).entries(), name.spec_bytes()) {
                Some(error) => r == Err::<usize, Error<D::Error>>(error) && final(buffer)@ == old(
                    buffer,
                )@,
                None => {
                    let e = lookup(old(self).entries(), name.spec_bytes())->0;
                    let n = read_len(e, offset as int, old(buffer)@.len() as int);
                    &&& r == Ok::<usize, Error<D::Error>>(n as usize)
                    &&& final(buffer)@ == (if n > 0 {
                        e.data.subrange(offset as int, offset + n)
                    } else {
                        Seq::empty()
                    }) + old(buffer)@.skip(n)
                },
            },
    {
        let ghost fs0 = *self;
        let ghost es = self.entries();
        let ghost b0 = buffer@;
        let bytes: &[u8] = name.as_bytes();
        if !validate_name(bytes) {
            return Err(Error::InvalidName);
        }
        proof {
            lemma_inv(fs0);
            lemma_seg_len(fs0.active);
            lemma_base(fs0.active);
        }
        let active = self.active;
        let outcome = find_record(&mut self.device, &active, bytes, Ghost(es));
        let ghost fs1 = *self;
        proof {
            lemma_inv_untouched(fs0, *self);
        }
        let record = match outcome {
            Ok(Some(record)) => record,
            Ok(None) => return Err(Error::NotFound),
            Err(error) => return Err(error),
        };
        let ghost k = position(es, bytes@);
        let ghost e = es[k];
        proof {
            lemma_info(record, es, k);
            lemma_entry_record(fs0.dev().media(), active, es, k);
            assert(Seq::<u8>::empty() + b0.skip(0) =~= b0);
        }
        if record.is_directory() {
            return Err(Error::IsDirectory);
        }
        if offset >= record.data_len || buffer.len() == 0 {
            return Ok(0);
        }
        let remaining: usize = (record.data_len - offset) as usize;
        let room: usize = buffer.len();
        let read_len: usize = if remaining < room {
            remaining
        } else {
            room
        };
        let base: u32 = active.records_base();
        let logical: u32 = match base.checked_add(record.data_offset) {
            Some(at) => match at.checked_add(offset) {
                Some(logical) => logical,
                None => return Err(Error::Corrupt),
            },
            None => return Err(Error::Corrupt),
        };
        let outcome = segment_read_front(&mut self.device, &active, logical, buffer, read_len);
        proof {
            lemma_inv_untouched(fs1, *self);
        }
        match outcome {
            Ok(()) => {},
            Err(error) => return Err(error),
        }
        proof {
            let s = seg(fs0.dev().media(), active);
            let from = active.base() + offset_of(es, k) + name_end(e);
            assert(s.subrange(from, from + e.data.len()) == e.data);
            assert(s.subrange(logical as int, logical + read_len) =~= e.data.subrange(
                offset as int,
                offset + read_len,
            ));
            assert(buffer@ =~= buffer@.take(read_len as int) + b0.skip(read_len as int));
        }
        Ok(read_len)
    }
}

/// The medium has room for the table of erase counters.
proof fn lemma_room<D: BlockDevice>(fs: FileSystem<D>)
    requires
        fs.inv(),
    ensures
        table_len(fs.blocks()) <= capacity(fs.header().geom()),
        fs.header().payload_len <= capacity(fs.header().geom()),
        fs.header().file_count <= 32,
{
    reveal(FileSystem::inv);
    let h = fs.active;
    lemma_seg_len(h);
    vstd::arithmetic::mul::lemma_mul_inequality(
        h.block_span as int,
        h.block_count as int / 2,
        h.block_size as int,
    );
}

/// One more entry of a directory listing.
proof fn lemma_children_step(es: Seq<Entry>, i: int, dir: Option<Seq<u8>>)
    requires
        0 <= i < es.len(),
    ensures
        children(es.take(i + 1), dir) == (if parent_of(es[i].name) == dir {
            children(es.take(i), dir).push(es[i])
        } else {
            children(es.take(i), dir)
        }),
{
    assert(es.take(i + 1).drop_last() =~= es.take(i));
    assert(es.take(i + 1).last() == es[i]);
}

/// What is listed first comes first.
proof fn lemma_children_prefix(es: Seq<Entry>, i: int, dir: Option<Seq<u8>>)
    requires
        0 <= i <= es.len(),
    ensures
        children(es.take(i), dir).len() <= children(es, dir).len(),
        children(es, dir).take(children(es.take(i), dir).len() as int) == children(es.take(i), dir),
    decreases es.len() - i,
{
    let head = children(es.take(i), dir);
    let all = children(es, dir);
    if i == es.len() {
        assert(es.take(i) =~= es);
        assert(all.take(all.len() as int) =~= all);
    } else {
        lemma_children_prefix(es, i + 1, dir);
        lemma_children_step(es, i, dir);
        let next = children(es.take(i + 1), dir);
        assert(all.take(head.len() as int) =~= all.take(next.len() as int).take(head.len() as int));
        assert(next.take(head.len() as int) =~= head);
    }
}

/// The name of an entry is text.
proof fn lemma_name_is_text(e: Entry)
    requires
        super::tree::entry_ok(e),
    ensures
        vstd::utf8::valid_utf8(e.name),
{
    reveal(path_ok);
}

/// Whether `path` lies directly in the directory.
fn is_child(path: &[u8], directory: &[u8]) -> (r: bool)
    ensures
        r == (parent_of(path@) == dir_of(directory@)),
{
    proof {
        super::names::lemma_last_slash(path@);
    }
    match parent_name(path) {
        Some(parent) => if directory.len() == 0 {
            false
        } else {
            same_bytes(parent, directory)
        },
        None => directory.len() == 0,
    }
}

impl<D: BlockDevice> FileSystem<D> {
    /// Append every persistent entry to `found`, under its canonical root-relative path.
    ///
    /// If the device fails, the entries before that have been appended. Prefer
    /// [`FileSystem::read_dir`] for shell-style listing.
    pub fn list(&mut self, found: &mut Vec<(String, FileInfo)>) -> (r: Result<(), Error<D::Error>>)
        requires
            old(self).inv(),
        ensures
            final(self).only_read(*old(self)),
            honest(r, old(self).dev().faults(), final(self).dev().faults()),
            listed(old(found)@, final(found)@, old(self).entries(), |name: Seq<u8>| name),
            final(self).dev().faults() == old(self).dev().faults() ==> r is Ok,
            r is Ok ==> final(found)@.len() == old(found)@.len() + old(self).entries().len(),
    {
        let ghost fs0 = *self;
        let ghost es = self.entries();
        proof {
            lemma_inv(fs0);
            lemma_held(fs0.dev().media(), fs0.header(), es);
        }
        let active = self.active;
        let ghost before = found@;
        let ghost shown = |name: Seq<u8>| name;
        assert(before.take(before.len() as int) =~= before);
        let mut offset: u32 = 0;
        let mut index: u32 = 0;
        while index < active.file_count
            invariant
                fs0 == *old(self),
                fs0.inv(),
                self.only_read(fs0),
                self.dev().faults() == fs0.dev().faults(),
                active == fs0.header(),
                self.header() == active,
                es == fs0.entries(),
                es.len() == active.file_count,
                index <= es.len(),
                offset == offset_of(es, index as int),
                before == old(found)@,
                shown == (|name: Seq<u8>| name),
                listed(before, found@, es, shown),
                found@.len() == before.len() + index,
            decreases active.file_count - index,
        {
            let ghost fs1 = *self;
            proof {
                lemma_inv(fs1);
                lemma_entry_record(fs1.dev().media(), active, es, index as int);
                lemma_seg_len(active);
            }
            let outcome = read_record(&mut self.device, &active, offset);
            proof {
                lemma_inv_untouched(fs1, *self);
            }
            let record = match outcome {
                Ok(record) => record,
                Err(error) => return Err(error),
            };
            proof {
                assert(record.is_entry(es, index as int));
                lemma_info(record, es, index as int);
                lemma_name_is_text(es[index as int]);
            }
            let name = match text(to_vec(record.name_bytes())) {
                Some(name) => name,
                None => return Err(Error::Corrupt),
            };
            let ghost so_far = found@;
            found.push((name, record.info()));
            proof {
                lemma_listed_more(before, so_far, es, shown, found@.last());
                assert(so_far.push(found@.last()) =~= found@);
            }
            offset = offset + record.record_len;
            index += 1;
        }
        assert(es.take(index as int) =~= es);
        if offset != active.records_len() {
            return Err(Error::Corrupt);
        }
        Ok(())
    }

    /// Append the direct children of a directory to `found`, under the last component of
    /// their paths.
    ///
    /// If the device fails, the children before that have been appended. The empty path
    /// denotes the implicit root directory.
    pub fn read_dir(&mut self, directory: &str, found: &mut Vec<(String, FileInfo)>) -> (r: Result<
        (),
        Error<D::Error>,
    >)
        requires
            old(self).inv(),
        ensures
            final(self).only_read(*old(self)),
            honest(r, old(self).dev().faults(), final(self).dev().faults()),
            ({
                let es = children(old(self).entries(), dir_of(directory.spec_bytes()));
                let refusal = read_dir_refusal::<D::Error>(
                    old(self).entries(),
                    directory.spec_bytes(),
                );
                &&& listed(old(found)@, final(found)@, es, |name: Seq<u8>| base_of(name))
                &&& refusal is Some ==> final(found)@ == old(found)@
                &&& r is Ok ==> final(found)@.len() == old(found)@.len() + es.len()
                &&& final(self).dev().faults() == old(self).dev().faults() ==> r == (
                match refusal {
                    Some(error) => Err::<(), Error<D::Error>>(error),
                    None => Ok(()),
                })
            }),
    {
        let ghost fs0 = *self;
        let ghost es = self.entries();
        let bytes: &[u8] = directory.as_bytes();
        let ghost dir = dir_of(bytes@);
        let ghost before = found@;
        let ghost shown = |name: Seq<u8>| base_of(name);
        let ghost cs = children(es, dir);
        proof {
            lemma_inv(fs0);
            lemma_held(fs0.dev().media(), fs0.header(), es);
            assert(before.take(before.len() as int) =~= before);
            assert(listed(before, before, cs, shown));
        }
        let active = self.active;
        if bytes.len() != 0 {
            if !validate_name(bytes) {
                return Err(Error::InvalidName);
            }
            let outcome = find_record(&mut self.device, &active, bytes, Ghost(es));
            proof {
                lemma_inv_untouched(fs0, *self);
            }
            match outcome {
                Ok(Some(record)) => {
                    proof {
                        lemma_info(record, es, position(es, bytes@));
                    }
                    if !record.is_directory() {
                        return Err(Error::NotDirectory);
                    }
                },
                Ok(None) => return Err(Error::NotFound),
                Err(error) => return Err(error),
            }
        }
        let mut offset: u32 = 0;
        let mut index: u32 = 0;
        assert(children(es.take(0), dir) =~= Seq::<Entry>::empty());
        while index < active.file_count
            invariant
                fs0 == *old(self),
                fs0.inv(),
                self.only_read(fs0),
                self.dev().faults() == fs0.dev().faults(),
                active == fs0.header(),
                self.header() == active,
                es == fs0.entries(),
                es.len() == active.file_count,
                index <= es.len(),
                offset == offset_of(es, index as int),
                bytes@ == directory.spec_bytes(),
                dir == dir_of(bytes@),
                read_dir_refusal::<D::Error>(es, bytes@) is None,
                before == old(found)@,
                shown == (|name: Seq<u8>| base_of(name)),
                cs == children(es, dir),
                listed(before, found@, cs, shown),
                found@.len() == before.len() + children(es.take(index as int), dir).len(),
            decreases active.file_count - index,
        {
            let ghost fs1 = *self;
            proof {
                lemma_inv(fs1);
                lemma_entry_record(fs1.dev().media(), active, es, index as int);
                lemma_seg_len(active);
                lemma_children_step(es, index as int, dir);
                lemma_children_prefix(es, index + 1, dir);
            }
            let outcome = read_record(&mut self.device, &active, offset);
            proof {
                lemma_inv_untouched(fs1, *self);
            }
            let record = match outcome {
                Ok(record) => record,
                Err(error) => return Err(error),
            };
            proof {
                assert(record.is_entry(es, index as int));
                lemma_info(record, es, index as int);
                lemma_name_is_text(es[index as int]);
                lemma_base_utf8(es[index as int].name);
            }
            if is_child(record.name_bytes(), bytes) {
                let name = match text(to_vec(base_name(record.name_bytes()))) {
                    Some(name) => name,
                    None => return Err(Error::Corrupt),
                };
                let ghost so_far = found@;
                found.push((name, record.info()));
                proof {
                    let k = children(es.take(index as int), dir).len() as int;
                    assert(cs.take(k + 1)[k] == cs[k]);
                    lemma_listed_more(before, so_far, cs, shown, found@.last());
                    assert(so_far.push(found@.last()) =~= found@);
                }
            }
            offset = offset + record.record_len;
            index += 1;
        }
        assert(es.take(index as int) =~= es);
        if offset != active.records_len() {
            return Err(Error::Corrupt);
        }
        Ok(())
    }
}

// ---------------------------------------------------------------------------
// Changing
// ---------------------------------------------------------------------------

/// Why a file cannot be written.
pub open spec fn write_refusal<E>(es: Seq<Entry>, name: Seq<u8>, len: int) -> Option<Error<E>> {
    if !valid_name(name) {
        Some(Error::InvalidName)
    } else if len > u32::MAX {
        Some(Error::FileTooLarge)
    } else {
        place_refusal::<E>(es, name)
    }
}

/// Why a file cannot be removed: as for reading.
pub open spec fn remove_refusal<E>(es: Seq<Entry>, name: Seq<u8>) -> Option<Error<E>> {
    read_refusal::<E>(es, name)
}

/// Why a directory cannot be made.
pub open spec fn mkdir_refusal<E>(es: Seq<Entry>, name: Seq<u8>) -> Option<Error<E>> {
    if !valid_name(name) {
        Some(Error::InvalidName)
    } else {
        match parent_result::<E>(es, name) {
            Err(error) => Some(error),
            Ok(()) => if contains_name(es, name) {
                Some(Error::AlreadyExists)
            } else {
                None
            },
        }
    }
}

/// Why a directory cannot be removed.
pub open spec fn rmdir_refusal<E>(es: Seq<Entry>, name: Seq<u8>) -> Option<Error<E>> {
    if !valid_name(name) {
        Some(Error::InvalidName)
    } else {
        match lookup(es, name) {
            None => Some(Error::NotFound),
            Some(e) => if !e.directory {
                Some(Error::NotDirectory)
            } else if has_below(es, name) {
                Some(Error::DirectoryNotEmpty)
            } else {
                None
            },
        }
    }
}

/// Why an entry cannot get another name.
pub open spec fn rename_refusal<E>(
    es: Seq<Entry>,
    old_name: Seq<u8>,
    new_name: Seq<u8>,
) -> Option<Error<E>> {
    if !valid_name(old_name) || !valid_name(new_name) {
        Some(Error::InvalidName)
    } else {
        match lookup(es, old_name) {
            None => Some(Error::NotFound),
            Some(e) => if old_name == new_name {
                None
            } else if contains_name(es, new_name) {
                Some(Error::AlreadyExists)
            } else if e.directory && descendant(new_name, old_name) {
                Some(Error::InvalidMove)
            } else {
                match parent_result::<E>(es, new_name) {
                    Err(error) => Some(error),
                    Ok(()) => if !moved_names_fit(es, old_name, new_name, e.directory) {
                        Some(Error::InvalidName)
                    } else {
                        None
                    },
                }
            },
        }
    }
}

/// Whether every name that the rename touches stays short enough.
fn preflight_rename<D: BlockDevice>(
    device: &mut D,
    snapshot: &SnapshotHeader,
    old_name: &[u8],
    new_name: &[u8],
    recursive: bool,
    Ghost(es): Ghost<Seq<Entry>>,
) -> (r: Result<(), Error<D::Error>>)
    requires
        on_device(*old(device), *snapshot),
        holds(old(device).media(), *snapshot, es),
    ensures
        untouched(*old(device), *final(device)),
        honest(r, old(device).faults(), final(device).faults()),
        final(device).faults() == old(device).faults() ==> if moved_names_fit(
            es,
            old_name@,
            new_name@,
            recursive,
        ) {
            r is Ok
        } else {
            r is Err && r->Err_0 is InvalidName
        },
{
    let ghost h = *snapshot;
    let ghost d0 = *device;
    proof {
        lemma_held(d0.media(), h, es);
        lemma_seg_len(h);
    }
    let mut offset: u32 = 0;
    let mut index: u32 = 0;
    while index < snapshot.file_count
        invariant
            h == *snapshot,
            d0 == *old(device),
            on_device(d0, h),
            holds(d0.media(), h, es),
            untouched(d0, *device),
            device.faults() == d0.faults(),
            es.len() == h.file_count,
            all_ok(es),
            index <= es.len(),
            offset == offset_of(es, index as int),
            seg_len(h) <= u32::MAX,
            forall|i: int|
                0 <= i < index && moves((#[trigger] es[i]).name, old_name@, recursive) ==> moved(
                    es[i].name,
                    old_name@,
                    new_name@,
                ).len() <= 63,
        decreases snapshot.file_count - index,
    {
        let ghost e = es[index as int];
        proof {
            lemma_entry_record(d0.media(), h, es, index as int);
        }
        let record = match read_record(device, snapshot, offset) {
            Ok(record) => record,
            Err(error) => return Err(error),
        };
        assert(record.is_entry(es, index as int));
        let name: &[u8] = record.name_bytes();
        if same_bytes(name, old_name) || (recursive && is_descendant(name, old_name)) {
            match NameBuffer::replace_prefix(name, old_name, new_name) {
                Some(_) => {},
                None => {
                    assert(moves(e.name, old_name@, recursive));
                    return Err(Error::InvalidName);
                },
            }
        }
        offset = offset + record.record_len;
        index += 1;
    }
    if offset != snapshot.records_len() {
        assert(false);
        return Err(Error::Corrupt);
    }
    Ok(())
}

/// Reading before a change makes no difference to it.
proof fn lemma_mutated_after_read<D: BlockDevice>(
    fs0: FileSystem<D>,
    fs1: FileSystem<D>,
    fs2: FileSystem<D>,
    edit: Edit,
    r: Result<(), Error<D::Error>>,
)
    requires
        fs1.only_read(fs0),
        fs1.dev().faults() == fs0.dev().faults(),
        fs2.mutated(fs1, edit, None, r),
    ensures
        fs2.mutated(fs0, edit, None, r),
{
    reveal(FileSystem::traced);
    let es = apply(edit, fs0.entries());
    let (tried, lost) = choose|tried: Seq<SnapshotHeader>, lost: Seq<u32>| #[trigger]
        fs2.history(fs1, es, r, tried, lost);
    lemma_left_same(
        fs0.dev(),
        fs1.dev(),
        fs2.dev(),
        fs2.dev(),
        Some(fs0.header()),
        fs0.header().generation.wrapping_add(1),
        es,
        tried,
    );
    assert(fs2.history(fs0, es, r, tried, lost));
}

/// A refusal, or a failure before anything was written.
proof fn lemma_not_mutated<D: BlockDevice>(
    fs0: FileSystem<D>,
    fs1: FileSystem<D>,
    edit: Edit,
    refusal: Option<Error<D::Error>>,
    r: Result<(), Error<D::Error>>,
)
    requires
        fs0.inv(),
        fs1.only_read(fs0),
        r is Err,
        if fs1.dev().faults() == fs0.dev().faults() {
            refusal == Some(r->Err_0) && !(r->Err_0 is Device) && !(r->Err_0 is NoSpace)
        } else {
            r->Err_0 is Device
        },
    ensures
        fs1.mutated(fs0, edit, refusal, r),
{
    lemma_untraced(fs0, fs1, apply(edit, fs0.entries()), r);
}

/// A directory that is there is a place for an entry.
proof fn lemma_place<E>(es: Seq<Entry>, name: Seq<u8>)
    requires
        parent_result::<E>(es, name) is Ok,
    ensures
        place_ok(es, name),
{
    if parent_of(name) is Some {
        let p = parent_of(name)->0;
        assert(lookup(es, p) is Some);
        assert(es[position(es, p)].name == p);
        assert(super::tree::has_dir(es, p));
    }
}

proof fn lemma_write_keeps_tree(es: Seq<Entry>, name: Seq<u8>, data: Seq<u8>)
    requires
        tree_ok(es),
        all_ok(es),
        path_ok(name),
        1 <= name.len() <= 63,
        place_ok(es, name),
        !(lookup(es, name) is Some && lookup(es, name)->0.directory),
        all_ok(apply(Edit::Write { name, data }, es)),
    ensures
        tree_ok(apply(Edit::Write { name, data }, es)),
{
    let edit = Edit::Write { name, data };
    let new = apply(edit, es);
    assert(super::tree::entry_ok(new[new.len() - 1]));
    law_write_read_back(es, name, data);
}

/// What was at or below the old name is at or below the new one, with the same contents,
/// and no longer where it was. Everything else is as before.
pub open spec fn renamed(
    before: Seq<Entry>,
    after: Seq<Entry>,
    old_name: Seq<u8>,
    new_name: Seq<u8>,
    recursive: bool,
) -> bool {
    &&& after.len() == before.len()
    &&& forall|i: int|
        0 <= i < before.len() && moves((#[trigger] before[i]).name, old_name, recursive)
            ==> lookup(after, moved(before[i].name, old_name, new_name)) == Some(
            Entry { name: moved(before[i].name, old_name, new_name), ..before[i] },
        ) && lookup(after, before[i].name) is None
    &&& forall|i: int|
        0 <= i < before.len() && !moves((#[trigger] before[i]).name, old_name, recursive)
            ==> lookup(after, before[i].name) == Some(before[i])
}

proof fn lemma_rename_keeps_tree(
    es: Seq<Entry>,
    old_name: Seq<u8>,
    new_name: Seq<u8>,
    recursive: bool,
)
    requires
        tree_ok(es),
        all_ok(es),
        path_ok(new_name),
        rename_ok(es, old_name, new_name, recursive),
        all_ok(apply(Edit::Rename { old_name, new_name, recursive }, es)),
    ensures
        tree_ok(apply(Edit::Rename { old_name, new_name, recursive }, es)),
        renamed(
            es,
            apply(Edit::Rename { old_name, new_name, recursive }, es),
            old_name,
            new_name,
            recursive,
        ),
{
    let edit = Edit::Rename { old_name, new_name, recursive };
    let new = apply(edit, es);
    assert forall|i: int|
        0 <= i < es.len() && moves((#[trigger] es[i]).name, old_name, recursive) implies 23 + moved(
        es[i].name,
        old_name,
        new_name,
    ).len() + es[i].data.len() <= u32::MAX by {
        let j = lemma_kept_has(edit, es, i);
        assert(new[j] == kept(edit, es)[j]);
        assert(super::tree::entry_ok(new[j]));
    }
    law_rename_moves_subtree(es, old_name, new_name, recursive);
}

impl<D: BlockDevice> FileSystem<D> {
    /// Atomically create or replace a complete file.
    pub fn write(&mut self, name: &str, data: &[u8]) -> (r: Result<(), Error<D::Error>>)
        requires
            old(self).inv(),
        ensures
            final(self).mutated(
                *old(self),
                Edit::Write { name: name.spec_bytes(), data: data@ },
                write_refusal(old(self).entries(), name.spec_bytes(), data@.len() as int),
                r,
            ),
    {
        let ghost fs0 = *self;
        let ghost es = self.entries();
        let bytes: &[u8] = name.as_bytes();
        let ghost edit = Edit::Write { name: bytes@, data: data@ };
        let ghost refusal = write_refusal::<D::Error>(es, bytes@, data@.len() as int);
        proof {
            lemma_inv(fs0);
            lemma_inv_untouched(fs0, fs0);
        }
        if !validate_name(bytes) {
            let r: Result<(), Error<D::Error>> = Err(Error::InvalidName);
            proof {
                lemma_not_mutated(fs0, *self, edit, refusal, r);
            }
            return r;
        }
        if data.len() > u32::MAX as usize {
            let r: Result<(), Error<D::Error>> = Err(Error::FileTooLarge);
            proof {
                lemma_not_mutated(fs0, *self, edit, refusal, r);
            }
            return r;
        }
        let active = self.active;
        let outcome = ensure_parent_directory(&mut self.device, &active, bytes, Ghost(es));
        let ghost fs1 = *self;
        proof {
            lemma_inv_untouched(fs0, *self);
        }
        match outcome {
            Ok(()) => {},
            Err(error) => {
                proof {
                    lemma_not_mutated(fs0, fs1, edit, refusal, Err(error));
                }
                return Err(error);
            },
        }
        let outcome = find_record(&mut self.device, &active, bytes, Ghost(es));
        let ghost fs2 = *self;
        proof {
            lemma_inv_untouched(fs1, *self);
        }
        match outcome {
            Ok(Some(record)) => {
                proof {
                    lemma_info(record, es, position(es, bytes@));
                }
                if record.is_directory() {
                    let r: Result<(), Error<D::Error>> = Err(Error::IsDirectory);
                    proof {
                        lemma_not_mutated(fs0, *self, edit, refusal, r);
                    }
                    return r;
                }
            },
            Ok(None) => {},
            Err(error) => {
                proof {
                    lemma_not_mutated(fs0, *self, edit, refusal, Err(error));
                }
                return Err(error);
            },
        }
        proof {
            lemma_path(name);
            lemma_place::<D::Error>(es, bytes@);
            if all_ok(apply(edit, es)) {
                lemma_write_keeps_tree(es, bytes@, data@);
            }
        }
        let r = self.mutate(Change::Write { name: bytes, data });
        proof {
            lemma_mutated_after_read(fs0, fs2, *self, edit, r);
        }
        r
    }

    /// Atomically remove a file.
    pub fn remove(&mut self, name: &str) -> (r: Result<(), Error<D::Error>>)
        requires
            old(self).inv(),
        ensures
            final(self).mutated(
                *old(self),
                Edit::Remove { name: name.spec_bytes() },
                remove_refusal(old(self).entries(), name.spec_bytes()),
                r,
            ),
    {
        let ghost fs0 = *self;
        let ghost es = self.entries();
        let bytes: &[u8] = name.as_bytes();
        let ghost edit = Edit::Remove { name: bytes@ };
        let ghost refusal = remove_refusal::<D::Error>(es, bytes@);
        proof {
            lemma_inv(fs0);
            lemma_inv_untouched(fs0, fs0);
        }
        if !validate_name(bytes) {
            let r: Result<(), Error<D::Error>> = Err(Error::InvalidName);
            proof {
                lemma_not_mutated(fs0, *self, edit, refusal, r);
            }
            return r;
        }
        let active = self.active;
        let outcome = find_record(&mut self.device, &active, bytes, Ghost(es));
        let ghost fs1 = *self;
        proof {
            lemma_inv_untouched(fs0, *self);
        }
        match outcome {
            Ok(Some(record)) => {
                proof {
                    lemma_info(record, es, position(es, bytes@));
                }
                if record.is_directory() {
                    let r: Result<(), Error<D::Error>> = Err(Error::IsDirectory);
                    proof {
                        lemma_not_mutated(fs0, *self, edit, refusal, r);
                    }
                    return r;
                }
            },
            Ok(None) => {
                let r: Result<(), Error<D::Error>> = Err(Error::NotFound);
                proof {
                    lemma_not_mutated(fs0, *self, edit, refusal, r);
                }
                return r;
            },
            Err(error) => {
                proof {
                    lemma_not_mutated(fs0, *self, edit, refusal, Err(error));
                }
                return Err(error);
            },
        }
        proof {
            law_remove_removes(es, bytes@);
        }
        let r = self.mutate(Change::Remove { name: bytes });
        proof {
            lemma_mutated_after_read(fs0, fs1, *self, edit, r);
        }
        r
    }

    /// Atomically create an empty directory.
    pub fn mkdir(&mut self, name: &str) -> (r: Result<(), Error<D::Error>>)
        requires
            old(self).inv(),
        ensures
            final(self).mutated(
                *old(self),
                Edit::Mkdir { name: name.spec_bytes() },
                mkdir_refusal(old(self).entries(), name.spec_bytes()),
                r,
            ),
    {
        let ghost fs0 = *self;
        let ghost es = self.entries();
        let bytes: &[u8] = name.as_bytes();
        let ghost edit = Edit::Mkdir { name: bytes@ };
        let ghost refusal = mkdir_refusal::<D::Error>(es, bytes@);
        proof {
            lemma_inv(fs0);
            lemma_inv_untouched(fs0, fs0);
        }
        if !validate_name(bytes) {
            let r: Result<(), Error<D::Error>> = Err(Error::InvalidName);
            proof {
                lemma_not_mutated(fs0, *self, edit, refusal, r);
            }
            return r;
        }
        let active = self.active;
        let outcome = ensure_parent_directory(&mut self.device, &active, bytes, Ghost(es));
        let ghost fs1 = *self;
        proof {
            lemma_inv_untouched(fs0, *self);
        }
        match outcome {
            Ok(()) => {},
            Err(error) => {
                proof {
                    lemma_not_mutated(fs0, fs1, edit, refusal, Err(error));
                }
                return Err(error);
            },
        }
        let outcome = find_record(&mut self.device, &active, bytes, Ghost(es));
        let ghost fs2 = *self;
        proof {
            lemma_inv_untouched(fs1, *self);
        }
        match outcome {
            Ok(None) => {},
            Ok(Some(_)) => {
                let r: Result<(), Error<D::Error>> = Err(Error::AlreadyExists);
                proof {
                    lemma_not_mutated(fs0, *self, edit, refusal, r);
                }
                return r;
            },
            Err(error) => {
                proof {
                    lemma_not_mutated(fs0, *self, edit, refusal, Err(error));
                }
                return Err(error);
            },
        }
        proof {
            lemma_path(name);
            lemma_place::<D::Error>(es, bytes@);
            law_mkdir_adds_directory(es, bytes@);
        }
        let r = self.mutate(Change::Mkdir { name: bytes });
        proof {
            lemma_mutated_after_read(fs0, fs2, *self, edit, r);
        }
        r
    }

    /// Atomically remove an empty directory.
    pub fn rmdir(&mut self, name: &str) -> (r: Result<(), Error<D::Error>>)
        requires
            old(self).inv(),
        ensures
            final(self).mutated(
                *old(self),
                Edit::Remove { name: name.spec_bytes() },
                rmdir_refusal(old(self).entries(), name.spec_bytes()),
                r,
            ),
    {
        let ghost fs0 = *self;
        let ghost es = self.entries();
        let bytes: &[u8] = name.as_bytes();
        let ghost edit = Edit::Remove { name: bytes@ };
        let ghost refusal = rmdir_refusal::<D::Error>(es, bytes@);
        proof {
            lemma_inv(fs0);
            lemma_inv_untouched(fs0, fs0);
        }
        if !validate_name(bytes) {
            let r: Result<(), Error<D::Error>> = Err(Error::InvalidName);
            proof {
                lemma_not_mutated(fs0, *self, edit, refusal, r);
            }
            return r;
        }
        let active = self.active;
        let outcome = find_record(&mut self.device, &active, bytes, Ghost(es));
        let ghost fs1 = *self;
        proof {
            lemma_inv_untouched(fs0, *self);
        }
        match outcome {
            Ok(Some(record)) => {
                proof {
                    lemma_info(record, es, position(es, bytes@));
                }
                if !record.is_directory() {
                    let r: Result<(), Error<D::Error>> = Err(Error::NotDirectory);
                    proof {
                        lemma_not_mutated(fs0, *self, edit, refusal, r);
                    }
                    return r;
                }
            },
            Ok(None) => {
                let r: Result<(), Error<D::Error>> = Err(Error::NotFound);
                proof {
                    lemma_not_mutated(fs0, *self, edit, refusal, r);
                }
                return r;
            },
            Err(error) => {
                proof {
                    lemma_not_mutated(fs0, *self, edit, refusal, Err(error));
                }
                return Err(error);
            },
        }
        let outcome = snapshot_has_descendant(&mut self.device, &active, bytes, Ghost(es));
        let ghost fs2 = *self;
        proof {
            lemma_inv_untouched(fs1, *self);
        }
        match outcome {
            Ok(false) => {},
            Ok(true) => {
                let r: Result<(), Error<D::Error>> = Err(Error::DirectoryNotEmpty);
                proof {
                    lemma_not_mutated(fs0, *self, edit, refusal, r);
                }
                return r;
            },
            Err(error) => {
                proof {
                    lemma_not_mutated(fs0, *self, edit, refusal, Err(error));
                }
                return Err(error);
            },
        }
        proof {
            law_remove_removes(es, bytes@);
        }
        let r = self.mutate(Change::Remove { name: bytes });
        proof {
            lemma_mutated_after_read(fs0, fs2, *self, edit, r);
        }
        r
    }

    /// Atomically rename a file or a complete directory subtree.
    ///
    /// Giving an entry the name that it has changes nothing.
    #[verifier::rlimit(40)]
    pub fn rename(&mut self, old_name: &str, new_name: &str) -> (r: Result<(), Error<D::Error>>)
        requires
            old(self).inv(),
        ensures
            ({
                let es = old(self).entries();
                let from = old_name.spec_bytes();
                let to = new_name.spec_bytes();
                let refusal = rename_refusal::<D::Error>(es, from, to);
                if from == to {
                    &&& final(self).only_read(*old(self))
                    &&& honest(r, old(self).dev().faults(), final(self).dev().faults())
                    &&& final(self).dev().faults() == old(self).dev().faults() ==> r == (
                    match refusal {
                        Some(error) => Err::<(), Error<D::Error>>(error),
                        None => Ok(()),
                    })
                } else {
                    final(self).mutated(
                        *old(self),
                        Edit::Rename {
                            old_name: from,
                            new_name: to,
                            recursive: lookup(es, from) is Some && lookup(es, from)->0.directory,
                        },
                        refusal,
                        r,
                    )
                }
            }),
    {
        let ghost fs0 = *self;
        let ghost es = self.entries();
        let from: &[u8] = old_name.as_bytes();
        let to: &[u8] = new_name.as_bytes();
        let ghost edit = Edit::Rename {
            old_name: from@,
            new_name: to@,
            recursive: lookup(es, from@) is Some && lookup(es, from@)->0.directory,
        };
        let ghost refusal = rename_refusal::<D::Error>(es, from@, to@);
        proof {
            lemma_inv(fs0);
            lemma_inv_untouched(fs0, fs0);
        }
        if !validate_name(from) || !validate_name(to) {
            let r: Result<(), Error<D::Error>> = Err(Error::InvalidName);
            proof {
                lemma_not_mutated(fs0, *self, edit, refusal, r);
            }
            return r;
        }
        let active = self.active;
        let outcome = find_record(&mut self.device, &active, from, Ghost(es));
        let ghost fs1 = *self;
        proof {
            lemma_inv_untouched(fs0, *self);
        }
        let source = match outcome {
            Ok(Some(record)) => record,
            Ok(None) => {
                let r: Result<(), Error<D::Error>> = Err(Error::NotFound);
                proof {
                    lemma_not_mutated(fs0, *self, edit, refusal, r);
                }
                return r;
            },
            Err(error) => {
                proof {
                    lemma_not_mutated(fs0, *self, edit, refusal, Err(error));
                }
                return Err(error);
            },
        };
        if same_bytes(from, to) {
            return Ok(());
        }
        proof {
            lemma_info(source, es, position(es, from@));
        }
        let recursive: bool = source.is_directory();
        let outcome = find_record(&mut self.device, &active, to, Ghost(es));
        let ghost fs2 = *self;
        proof {
            lemma_inv_untouched(fs1, *self);
        }
        match outcome {
            Ok(None) => {},
            Ok(Some(_)) => {
                let r: Result<(), Error<D::Error>> = Err(Error::AlreadyExists);
                proof {
                    lemma_not_mutated(fs0, *self, edit, refusal, r);
                }
                return r;
            },
            Err(error) => {
                proof {
                    lemma_not_mutated(fs0, *self, edit, refusal, Err(error));
                }
                return Err(error);
            },
        }
        if recursive && is_descendant(to, from) {
            let r: Result<(), Error<D::Error>> = Err(Error::InvalidMove);
            proof {
                lemma_not_mutated(fs0, *self, edit, refusal, r);
            }
            return r;
        }
        let outcome = ensure_parent_directory(&mut self.device, &active, to, Ghost(es));
        let ghost fs3 = *self;
        proof {
            lemma_inv_untouched(fs2, *self);
        }
        match outcome {
            Ok(()) => {},
            Err(error) => {
                proof {
                    lemma_not_mutated(fs0, *self, edit, refusal, Err(error));
                }
                return Err(error);
            },
        }
        let outcome = preflight_rename(
            &mut self.device,
            &active,
            from,
            to,
            recursive,
            Ghost(es),
        );
        let ghost fs4 = *self;
        proof {
            lemma_inv_untouched(fs3, *self);
        }
        match outcome {
            Ok(()) => {},
            Err(error) => {
                proof {
                    lemma_not_mutated(fs0, *self, edit, refusal, Err(error));
                }
                return Err(error);
            },
        }
        proof {
            lemma_path(new_name);
            lemma_place::<D::Error>(es, to@);
            if all_ok(apply(edit, es)) {
                lemma_rename_keeps_tree(es, from@, to@, recursive);
            }
        }
        let r = self.mutate(Change::Rename { old_name: from, new_name: to, recursive });
        proof {
            lemma_mutated_after_read(fs0, fs4, *self, edit, r);
        }
        r
    }

    /// Atomically remove all entries while preserving generation history.
    pub fn clear(&mut self) -> (r: Result<(), Error<D::Error>>)
        requires
            old(self).inv(),
        ensures
            final(self).changed(*old(self), Edit::Clear, r),
    {
        proof {
            lemma_inv(*self);
            law_clear_empties(self.entries());
        }
        self.mutate(Change::Clear)
    }

    /// Static wear leveling: relocate the active snapshot to the least-worn
    /// non-overlapping run without changing any data.
    ///
    /// This is a no-op when the per-block erase counts are already within one
    /// of each other. Relocation advances the generation exactly like a normal
    /// mutation and remains a single atomic commit.
    pub fn level(&mut self) -> (r: Result<(), Error<D::Error>>)
        requires
            old(self).inv(),
        ensures
            old(self).stuck() ==> r == Err::<(), Error<D::Error>>(Error::RecoveryRequired)
                && *final(self) == *old(self),
            forall|low: int, high: int|
                #[trigger] are_bounds(old(self).counters(), old(self).blocks(), low, high) ==> (
                if !old(self).stuck() && high - low <= 1 {
                    r is Ok && *final(self) == *old(self)
                } else {
                    final(self).mutated(*old(self), Edit::Level, None, r)
                }),
    {
        let ghost fs0 = *self;
        proof {
            lemma_inv(fs0);
            lemma_inv_untouched(fs0, fs0);
            law_level_changes_nothing(self.entries());
        }
        if self.recovery_required {
            proof {
                lemma_untraced(
                    fs0,
                    fs0,
                    apply(Edit::Level, fs0.entries()),
                    Err(Error::RecoveryRequired),
                );
            }
            return Err(Error::RecoveryRequired);
        }
        let (minimum, maximum) = self.wear_bounds();
        proof {
            assert forall|low: int, high: int| #[trigger]
                are_bounds(
                    fs0.counters(),
                    fs0.blocks(),
                    low,
                    high,
                ) implies low == minimum && high == maximum by {
                lemma_bounds_unique(
                    fs0.counters(),
                    fs0.blocks(),
                    low,
                    high,
                    minimum as int,
                    maximum as int,
                );
            }
        }
        if maximum.saturating_sub(minimum) <= 1 {
            return Ok(());
        }
        self.mutate(Change::Level)
    }
}

/// There is one pair of bounds.
proof fn lemma_bounds_unique(wear: Seq<u16>, n: int, a: int, b: int, c: int, d: int)
    requires
        are_bounds(wear, n, a, b),
        are_bounds(wear, n, c, d),
    ensures
        a == c,
        b == d,
        a <= b,
{
}

// ---------------------------------------------------------------------------
// Laws
// ---------------------------------------------------------------------------

/// Every other valid snapshot on the medium is older than `h`.
pub open spec fn newest(media: Seq<Seq<u8>>, g: Geometry, h: SnapshotHeader) -> bool {
    forall|b: int|
        0 <= b < g.block_count && b != h.start_block && (#[trigger] snapshot_at(
            media,
            g,
            b,
        )) is Some ==> newer(h.generation, snapshot_at(media, g, b)->0.generation)
}

/// What was written is what a read gives, and no other name is affected.
pub proof fn law_write_then_read<D: BlockDevice>(
    before: FileSystem<D>,
    after: FileSystem<D>,
    name: &str,
    data: Seq<u8>,
    r: Result<(), Error<D::Error>>,
)
    requires
        r is Ok,
        before.inv(),
        after.mutated(
            before,
            Edit::Write { name: name.spec_bytes(), data },
            write_refusal(before.entries(), name.spec_bytes(), data.len() as int),
            r,
        ),
    ensures
        lookup(after.entries(), name.spec_bytes()) == Some(
            Entry { name: name.spec_bytes(), directory: false, data },
        ),
        read_refusal::<D::Error>(after.entries(), name.spec_bytes()) is None,
        forall|other: Seq<u8>|
            other != name.spec_bytes() ==> lookup(after.entries(), other) == #[trigger] lookup(
                before.entries(),
                other,
            ),
{
    let n = name.spec_bytes();
    let es = before.entries();
    let new = apply(Edit::Write { name: n, data }, es);
    lemma_inv(before);
    lemma_inv(after);
    lemma_path(name);
    lemma_place::<D::Error>(es, n);
    assert(super::tree::entry_ok(new[new.len() - 1]));
    law_write_read_back(es, n, data);
}

/// What was removed is gone, and no other name is affected.
pub proof fn law_remove_then_gone<D: BlockDevice>(
    before: FileSystem<D>,
    after: FileSystem<D>,
    name: Seq<u8>,
    r: Result<(), Error<D::Error>>,
)
    requires
        r is Ok,
        before.inv(),
        after.mutated(
            before,
            Edit::Remove { name },
            remove_refusal(before.entries(), name),
            r,
        ),
    ensures
        contains_name(before.entries(), name),
        lookup(after.entries(), name) is None,
        after.entries().len() < before.entries().len(),
        forall|other: Seq<u8>|
            other != name ==> lookup(after.entries(), other) == #[trigger] lookup(
                before.entries(),
                other,
            ),
{
    lemma_inv(before);
    law_remove_removes(before.entries(), name);
    super::tree::lemma_removed_len(before.entries(), name);
}

/// A directory that was made is there, and no other name is affected.
pub proof fn law_mkdir_then_there<D: BlockDevice>(
    before: FileSystem<D>,
    after: FileSystem<D>,
    name: &str,
    r: Result<(), Error<D::Error>>,
)
    requires
        r is Ok,
        before.inv(),
        after.mutated(
            before,
            Edit::Mkdir { name: name.spec_bytes() },
            mkdir_refusal(before.entries(), name.spec_bytes()),
            r,
        ),
    ensures
        lookup(after.entries(), name.spec_bytes()) == Some(
            Entry { name: name.spec_bytes(), directory: true, data: Seq::<u8>::empty() },
        ),
        forall|other: Seq<u8>|
            other != name.spec_bytes() ==> lookup(after.entries(), other) == #[trigger] lookup(
                before.entries(),
                other,
            ),
{
    lemma_inv(before);
    lemma_path(name);
    lemma_place::<D::Error>(before.entries(), name.spec_bytes());
    law_mkdir_adds_directory(before.entries(), name.spec_bytes());
}

/// What was renamed is there under its new name, a directory with all that lies below it,
/// and no longer under its old one, and nothing else is affected.
pub proof fn law_rename_moves_files<D: BlockDevice>(
    before: FileSystem<D>,
    after: FileSystem<D>,
    old_name: &str,
    new_name: &str,
    r: Result<(), Error<D::Error>>,
)
    requires
        r is Ok,
        before.inv(),
        old_name.spec_bytes() != new_name.spec_bytes(),
        after.mutated(
            before,
            Edit::Rename {
                old_name: old_name.spec_bytes(),
                new_name: new_name.spec_bytes(),
                recursive: lookup(before.entries(), old_name.spec_bytes()) is Some && lookup(
                    before.entries(),
                    old_name.spec_bytes(),
                )->0.directory,
            },
            rename_refusal(before.entries(), old_name.spec_bytes(), new_name.spec_bytes()),
            r,
        ),
    ensures
        lookup(before.entries(), old_name.spec_bytes()) is Some,
        renamed(
            before.entries(),
            after.entries(),
            old_name.spec_bytes(),
            new_name.spec_bytes(),
            lookup(before.entries(), old_name.spec_bytes())->0.directory,
        ),
{
    lemma_inv(before);
    lemma_inv(after);
    lemma_path(new_name);
    lemma_place::<D::Error>(before.entries(), new_name.spec_bytes());
    lemma_rename_keeps_tree(
        before.entries(),
        old_name.spec_bytes(),
        new_name.spec_bytes(),
        lookup(before.entries(), old_name.spec_bytes())->0.directory,
    );
}

/// The mounted snapshot is found again when the device is mounted, as long as
/// no other snapshot on the medium is as new.
pub proof fn law_remount_finds_active<D: BlockDevice>(fs: FileSystem<D>)
    requires
        fs.inv(),
        newest(fs.dev().media(), fs.dev().geom(), fs.header()),
    ensures
        scanned(fs.dev().media(), fs.dev().geom(), fs.dev().geom().block_count as int) == Some(
            fs.header(),
        ),
        mount_error::<D::Error>(fs.dev().media(), fs.dev().geom()) is None,
{
    reveal(FileSystem::inv);
    law_newest_is_found(fs.dev().media(), fs.dev().geom(), fs.header());
}

/// A filesystem that is mounted from the same medium with the same snapshot has
/// the same entries.
pub proof fn law_remount_keeps_entries<D: BlockDevice>(a: FileSystem<D>, b: FileSystem<D>)
    requires
        a.dev().media() == b.dev().media(),
        a.header() == b.header(),
    ensures
        a.entries() == b.entries(),
{
    reveal(entries_of);
}

/// `fs` is what mounting a device with this medium gives.
pub open spec fn mounts<D: BlockDevice>(
    media: Seq<Seq<u8>>,
    g: Geometry,
    fs: FileSystem<D>,
) -> bool {
    &&& fs.dev().media() == media
    &&& Some(fs.header()) == scanned(media, g, g.block_count as int)
}

/// Every valid snapshot on the medium is older than `active` and than the one that
/// follows it. This does not speak of `active` itself, nor of the place `next`.
pub open spec fn nothing_newer(
    media: Seq<Seq<u8>>,
    active: SnapshotHeader,
    next: Option<SnapshotHeader>,
) -> bool {
    forall|b: int|
        0 <= b < active.block_count && b != active.start_block && (next is None || b
            != next->0.start_block) && (#[trigger] snapshot_at(media, active.geom(), b)) is Some
            ==> {
            let other = snapshot_at(media, active.geom(), b)->0;
            newer(active.generation, other.generation) && newer(
                active.generation.wrapping_add(1),
                other.generation,
            )
        }
}

/// The last of the places `tried`, if nothing but the complete snapshot can be visible
/// there on this medium: its first block could be erased and, unless this is the medium of
/// the device as it is, had been made durable before power was lost.
pub open spec fn trusted_place<D: BlockDevice>(
    device: D,
    tried: Seq<SnapshotHeader>,
    media: Seq<Seq<u8>>,
) -> Option<SnapshotHeader> {
    if tried.len() > 0 && !unclear(device, tried.last()) && (media == device.media() || !unsettled(
        device,
        tried.last(),
    )) {
        Some(tried.last())
    } else {
        None
    }
}

/// Where a block of `active` was not pending, it has survived.
proof fn lemma_active_survives<D: BlockDevice>(
    before: D,
    after: D,
    active: SnapshotHeader,
    es: Seq<Entry>,
    tried: Seq<SnapshotHeader>,
    media: Seq<Seq<u8>>,
)
    requires
        active.geom() == before.geom(),
        left_behind(
            before,
            after,
            Some(active),
            active.generation.wrapping_add(1),
            es,
            tried,
        ),
        may_survive(after, media),
        media == after.media() || forall|b: int, w: int| #[trigger]
            before.pending().contains((b, w)) ==> !in_seg(active, b),
    ensures
        forall|b: int|
            0 <= b < active.block_count && #[trigger] in_seg(active, b) ==> media[b]
                == before.media()[b],
{
    assert forall|b: int| 0 <= b < active.block_count && #[trigger] in_seg(
        active,
        b,
    ) implies media[b] == before.media()[b] by {
        assert(outside(tried, b)) by {
            assert forall|i: int| 0 <= i < tried.len() implies !in_seg(#[trigger] tried[i], b) by {
                assert(is_target(
                    tried[i],
                    before.geom(),
                    active.generation.wrapping_add(1),
                    Some(active),
                ));
            }
        }
        if media != after.media() {
            assert forall|i: int| 0 <= i < media[b].len() implies media[b][i] == after.media()[b][i] by {
                if after.pending().contains((b, i / 4)) {
                    assert(before.pending().contains((b, i / 4)));
                }
            }
            assert(media[b] =~= after.media()[b]);
        }
    }
}

/// After attempts to write the snapshot that follows `active`, a scan of what has survived
/// finds `active` as it was, or the new snapshot, complete.
proof fn lemma_old_or_new<D: BlockDevice>(
    before: D,
    after: D,
    active: SnapshotHeader,
    es: Seq<Entry>,
    tried: Seq<SnapshotHeader>,
    media: Seq<Seq<u8>>,
)
    requires
        geometry_ok(before.geom()),
        active.geom() == before.geom(),
        active.error() is None,
        active.start_block < active.block_count,
        snapshot_at(before.media(), active.geom(), active.start_block as int) == Some(active),
        64 + table_len(active.block_count as int) <= seg_len(active),
        left_behind(
            before,
            after,
            Some(active),
            active.generation.wrapping_add(1),
            es,
            tried,
        ),
        may_survive(after, media),
        media == after.media() || forall|b: int, w: int| #[trigger]
            before.pending().contains((b, w)) ==> !in_seg(active, b),
        nothing_newer(media, active, trusted_place(after, tried, media)),
    ensures
        seg(media, active) == seg(before.media(), active),
        mount_error::<D::Error>(media, after.geom()) is None,
        ({
            let found = scanned(media, active.geom(), active.block_count as int);
            ||| found == Some(active)
            ||| tried.len() > 0 && found == Some(tried.last()) && snapshot_entries(
                seg(media, tried.last()),
                tried.last(),
            ) == Some(es)
        }),
        tried.len() > 0 && snapshot_at(media, active.geom(), tried.last().start_block as int)
            == Some(tried.last()) ==> scanned(media, active.geom(), active.block_count as int)
            == Some(tried.last()),
{
    let g = active.geom();
    let n = active.block_count as int;
    lemma_seg_len(active);
    lemma_active_survives(before, after, active, es, tried, media);
    assert(seg(media, active) =~= seg(before.media(), active)) by {
        assert forall|i: int| 0 <= i < seg_len(active) implies seg(media, active)[i] == seg(
            before.media(),
            active,
        )[i] by {
            let q = lemma_split(active, i);
            assert(in_seg(active, block_of(active, i)));
        }
    }
    assert(wrap(active.start_block + 0, n) == active.start_block);
    assert(in_seg(active, active.start_block as int));
    assert(snapshot_at(media, g, active.start_block as int) == Some(active));
    law_next_generation_is_newer(active.generation);
    if tried.len() == 0 {
        assert(newest(media, g, active));
        law_newest_is_found(media, g, active);
    } else {
        let next = tried.last();
        assert(is_target(
            tried[tried.len() - 1],
            g,
            active.generation.wrapping_add(1),
            Some(active),
        ));
        lemma_seg_len(next);
        assert(wrap(next.start_block + 0, n) == next.start_block);
        assert(in_seg(next, next.start_block as int));
        assert(active.start_block != next.start_block);
        let trusted = trusted_place(after, tried, media) is Some;
        assert(trusted ==> settled(media, next, es));
        if snapshot_at(media, g, next.start_block as int) == Some(next) {
            assert(newest(media, g, next));
            law_newest_is_found(media, g, next);
            if trusted {
                reveal(SnapshotHeader::decoded_at);
                assert(!invisible(media, next));
                let t = choose|t: Seq<u8>| #[trigger] committed(media, next, es, t);
            }
        } else {
            if trusted {
                reveal(SnapshotHeader::decoded_at);
                assert(invisible(media, next));
                assert(snapshot_at(media, g, next.start_block as int) is None);
            }
            assert(newest(media, g, active));
            law_newest_is_found(media, g, active);
        }
    }
}

/// Every change is atomic, also when power fails in the middle of it: whatever came of
/// it, and whatever `media` a loss of power then leaves, the medium can be mounted
/// afterwards, and holds what it held before or what the change was to bring about. If the
/// change was reported as done, it is there.
///
/// A loss of power while the change is under way shows in it as operations that fail from
/// some point on. `tried` are the places that the change wrote to, and `lost` the blocks
/// that turned out bad there. A block in the middle of one of the places might by chance
/// read as a snapshot of its own; it must not be a newer one. Nor must the first block of
/// the last place, if power was lost before that block had been erased for good.
pub proof fn law_changes_are_atomic<D: BlockDevice>(
    before: FileSystem<D>,
    after: FileSystem<D>,
    edit: Edit,
    refusal: Option<Error<D::Error>>,
    r: Result<(), Error<D::Error>>,
    tried: Seq<SnapshotHeader>,
    lost: Seq<u32>,
    media: Seq<Seq<u8>>,
    mounted: FileSystem<D>,
)
    requires
        before.inv(),
        after.mutated(before, edit, refusal, r),
        after.history(before, apply(edit, before.entries()), r, tried, lost),
        may_survive(after.dev(), media),
        media == after.dev().media() || before.durable(),
        nothing_newer(media, before.header(), trusted_place(after.dev(), tried, media)),
        mounts(media, after.dev().geom(), mounted),
    ensures
        mount_error::<D::Error>(media, after.dev().geom()) is None,
        mounted.entries() == before.entries() || mounted.entries() == apply(edit, before.entries()),
        r is Ok ==> mounted.entries() == apply(edit, before.entries()),
{
    reveal(FileSystem::inv);
    reveal(entries_of);
    lemma_old_or_new(
        before.dev(),
        after.dev(),
        before.header(),
        apply(edit, before.entries()),
        tried,
        media,
    );
    if r is Ok {
        law_synced_media_survive(after.dev(), media);
    }
}

/// Before and after every change, the snapshot that is mounted survives a loss of power at
/// any time, if all of it was durable when the filesystem was mounted.
pub proof fn law_mounted_snapshot_survives<D: BlockDevice>(
    fs: FileSystem<D>,
    media: Seq<Seq<u8>>,
)
    requires
        fs.inv(),
        fs.durable(),
        may_survive(fs.dev(), media),
    ensures
        snapshot_at(media, fs.dev().geom(), fs.header().start_block as int) == Some(fs.header()),
        snapshot_entries(seg(media, fs.header()), fs.header()) == Some(fs.entries()),
{
    reveal(FileSystem::inv);
    reveal(entries_of);
    let h = fs.header();
    let d = fs.dev();
    lemma_seg_len(h);
    assert forall|b: int| 0 <= b < h.block_count && #[trigger] in_seg(h, b) implies media[b]
        == d.media()[b] by {
        assert forall|i: int| 0 <= i < media[b].len() implies media[b][i] == d.media()[b][i] by {
            assert(!d.pending().contains((b, i / 4)));
        }
        assert(media[b] =~= d.media()[b]);
    }
    assert forall|i: int| 0 <= i < seg_len(h) implies seg(media, h)[i] == seg(d.media(), h)[i] by {
        let q = lemma_split(h, i);
        assert(in_seg(h, block_of(h, i)));
    }
    assert(seg(media, h) =~= seg(d.media(), h));
    assert(wrap(h.start_block + 0, h.block_count as int) == h.start_block);
    assert(in_seg(h, h.start_block as int));
}

/// A file that was written is there after the device has been mounted again, also if
/// power was lost in between.
pub proof fn law_written_files_survive<D: BlockDevice>(
    before: FileSystem<D>,
    after: FileSystem<D>,
    name: &str,
    data: Seq<u8>,
    media: Seq<Seq<u8>>,
    mounted: FileSystem<D>,
)
    requires
        before.inv(),
        after.mutated(
            before,
            Edit::Write { name: name.spec_bytes(), data },
            write_refusal(before.entries(), name.spec_bytes(), data.len() as int),
            Ok(()),
        ),
        may_survive(after.dev(), media),
        newest(after.dev().media(), after.dev().geom(), after.header()),
        mounts(media, after.dev().geom(), mounted),
    ensures
        lookup(mounted.entries(), name.spec_bytes()) == Some(
            Entry { name: name.spec_bytes(), directory: false, data },
        ),
        forall|other: Seq<u8>|
            other != name.spec_bytes() ==> lookup(mounted.entries(), other) == #[trigger] lookup(
                before.entries(),
                other,
            ),
{
    lemma_inv(after);
    law_synced_media_survive(after.dev(), media);
    law_write_then_read(before, after, name, data, Ok(()));
    law_remount_finds_active(after);
    law_remount_keeps_entries(after, mounted);
}

/// Formatting is atomic: whatever comes of it, and whatever a loss of power then leaves, a
/// filesystem that could be mounted before can be mounted afterwards, with all its entries
/// or with none.
pub proof fn law_formatting_is_atomic<D: BlockDevice>(
    before: D,
    after: D,
    previous: SnapshotHeader,
    r: Result<SnapshotHeader, Error<D::Error>>,
    wear: Seq<u16>,
    tried: Seq<SnapshotHeader>,
    lost: Seq<u32>,
    media: Seq<Seq<u8>>,
    mounted: FileSystem<D>,
)
    requires
        mount_error::<D::Error>(before.media(), before.geom()) is None,
        scanned(before.media(), before.geom(), before.geom().block_count as int) == Some(previous),
        format_history(before, after, r, wear, tried, lost),
        may_survive(after, media),
        media == after.media() || before.pending() == Set::<(int, int)>::empty(),
        nothing_newer(media, previous, trusted_place(after, tried, media)),
        mounts(media, after.geom(), mounted),
    ensures
        mount_error::<D::Error>(media, after.geom()) is None,
        mounted.entries() == entries_of(before, previous) || mounted.entries() == Seq::<
            Entry,
        >::empty(),
{
    reveal(entries_of);
    lemma_scanned(before.media(), before.geom(), before.geom().block_count as int);
    lemma_old_or_new(before, after, previous, Seq::empty(), tried, media);
}

/// The counters count the erasures: with none of them near its limit and no failure of the
/// device, a change raises that of a block by one exactly if it has erased the block, which
/// it then has done once.
pub proof fn law_counters_count_erasures<D: BlockDevice>(
    before: FileSystem<D>,
    after: FileSystem<D>,
    edit: Edit,
    refusal: Option<Error<D::Error>>,
    b: int,
)
    requires
        before.inv(),
        after.mutated(before, edit, refusal, Ok(())),
        after.dev().faults() == before.dev().faults(),
        !saturated(before.counters(), before.blocks()),
        0 <= b < before.blocks(),
    ensures
        ({
            let erased = after.dev().erased().skip(before.dev().erased().len() as int);
            &&& erased.no_duplicates()
            &&& count(after.counters()[b]) == count(before.counters()[b]) + if erased.contains(b) {
                1int
            } else {
                0
            }
            &&& bad(after.counters()[b]) == bad(before.counters()[b])
        }),
{
    let h = after.header();
    let run = run_of(h);
    let n = before.blocks();
    lemma_inv(before);
    lemma_inv(after);
    super::segment::law_runs_visit_blocks_once(h);
    assert(after.dev().erased().skip(before.dev().erased().len() as int) =~= run);
    assert(rescaled(before.counters(), n)[b] == before.counters()[b]);
    assert(run.contains(b) <==> in_seg(h, b));
    super::wear::law_bump_is_monotone(before.counters()[b]);
}

/// What every change does to a mounted filesystem. If it has to be mounted again, the change
/// is refused and nothing happens. A change that is done brings the next generation. One that
/// is not leaves the snapshot that is mounted as it was. A failure of the device after the
/// writing of a candidate has begun makes a remount necessary, and no change takes that back.
pub proof fn law_changes_keep_the_state<D: BlockDevice>(
    before: FileSystem<D>,
    after: FileSystem<D>,
    edit: Edit,
    r: Result<(), Error<D::Error>>,
    tried: Seq<SnapshotHeader>,
    lost: Seq<u32>,
)
    requires
        after.changed(before, edit, r),
        after.history(before, apply(edit, before.entries()), r, tried, lost),
    ensures
        before.stuck() ==> r == Err::<(), Error<D::Error>>(Error::RecoveryRequired) && after
            == before,
        r is Ok ==> after.header().generation == before.header().generation.wrapping_add(1)
            && !after.stuck(),
        r is Err ==> after.header() == before.header() && after.counters() == before.counters()
            && after.entries() == before.entries(),
        r is Err && r->Err_0 is Device && tried.len() > lost.len() ==> after.stuck(),
        before.stuck() ==> after.stuck(),
{
}

/// Marking and erasing never lower a counter.
proof fn lemma_counts_grow(
    first: Seq<u16>,
    n: int,
    tried: Seq<SnapshotHeader>,
    lost: Seq<u32>,
    k: int,
    b: int,
)
    requires
        first.len() == 64,
        0 <= b < 64,
        k <= lost.len(),
        forall|m: int| 0 <= m < lost.len() ==> 0 <= #[trigger] lost[m] < 64,
    ensures
        table_for(first, n, false, tried, lost, k).len() == 64,
        count(first[b]) <= count(table_for(first, n, false, tried, lost, k)[b]),
    decreases k,
{
    if k > 0 {
        let t = table_for(first, n, false, tried, lost, k - 1);
        lemma_counts_grow(first, n, tried, lost, k - 1, b);
        assert(0 <= lost[k - 1] < 64);
        super::wear::law_bump_is_monotone(t[b]);
    }
}

/// Formatting carries the erase counters over: with none of them near its limit, none is
/// lower afterwards, and no block that was bad is good again.
pub proof fn law_formats_keep_erase_counts<D: BlockDevice>(
    before: D,
    after: D,
    h: SnapshotHeader,
    wear: Seq<u16>,
    previous: SnapshotHeader,
    b: int,
)
    requires
        format_done(before, after, h, wear),
        scanned(before.media(), before.geom(), before.geom().block_count as int) == Some(previous),
        !saturated(
            counters_in(seg(before.media(), previous), before.geom().block_count as int),
            before.geom().block_count as int,
        ),
        0 <= b < before.geom().block_count,
    ensures
        ({
            let old_wear = counters_in(
                seg(before.media(), previous),
                before.geom().block_count as int,
            );
            &&& count(old_wear[b]) <= count(wear[b])
            &&& bad(old_wear[b]) ==> bad(wear[b])
        }),
{
    reveal(format_traced);
    let n = before.geom().block_count as int;
    let first = format_counters(before.media(), before.geom());
    let (tried, lost) = choose|tried: Seq<SnapshotHeader>, lost: Seq<u32>| #[trigger]
        format_history(before, after, Ok(h), wear, tried, lost);
    let last = table_for(first, n, false, tried, lost, lost.len() as int);
    assert forall|m: int| 0 <= m < lost.len() implies 0 <= #[trigger] lost[m] < 64 by {
        lemma_lost_in_range(previous, n, before, after, Seq::empty(), tried, lost, m);
    }
    lemma_counts_grow(first, n, tried, lost, lost.len() as int, b);
    super::wear::law_bump_is_monotone(last[b]);
    assert(first[b] == counters_in(seg(before.media(), previous), n)[b]);
}

/// A change that a failure of the device has ended leaves the filesystem in need of being
/// mounted again, unless the device failed to read while no place was being written: then
/// nothing has changed on the medium since the last block that turned out bad.
pub proof fn law_failures_require_a_remount<D: BlockDevice>(
    before: FileSystem<D>,
    after: FileSystem<D>,
    edit: Edit,
    refusal: Option<Error<D::Error>>,
    error: D::Error,
    tried: Seq<SnapshotHeader>,
    lost: Seq<u32>,
)
    requires
        !before.stuck(),
        after.mutated(before, edit, refusal, Err(Error::Device(error))),
        after.history(
            before,
            apply(edit, before.entries()),
            Err(Error::Device(error)),
            tried,
            lost,
        ),
    ensures
        after.stuck() <==> tried.len() > lost.len(),
        !after.stuck() ==> after.dev().fault() is Read,
        !after.stuck() && lost.len() == 0 ==> untouched(before.dev(), after.dev()),
{
}

/// Once the filesystem has to be mounted again, every change is refused, and nothing is
/// written any more.
pub proof fn law_nothing_changes_until_a_remount<D: BlockDevice>(
    before: FileSystem<D>,
    after: FileSystem<D>,
    edit: Edit,
    refusal: Option<Error<D::Error>>,
    r: Result<(), Error<D::Error>>,
)
    requires
        before.stuck(),
        after.mutated(before, edit, refusal, r),
    ensures
        after.stuck(),
        r is Err,
        untouched(before.dev(), after.dev()),
        after.same_state(before),
        after.dev().faults() == before.dev().faults() && refusal is None ==> r == Err::<
            (),
            Error<D::Error>,
        >(Error::RecoveryRequired),
{
}

/// A block that turned out bad is never used again: the places that are tried after it,
/// and the new snapshot, spare it, and it is marked in the counters in the end.
pub proof fn law_bad_blocks_are_avoided<D: BlockDevice>(
    before: FileSystem<D>,
    after: FileSystem<D>,
    edit: Edit,
    refusal: Option<Error<D::Error>>,
    r: Result<(), Error<D::Error>>,
    tried: Seq<SnapshotHeader>,
    lost: Seq<u32>,
    i: int,
    j: int,
)
    requires
        before.inv(),
        after.mutated(before, edit, refusal, r),
        after.history(before, apply(edit, before.entries()), r, tried, lost),
        0 <= i < lost.len(),
        i < j < tried.len(),
    ensures
        !in_seg(tried[j], lost[i] as int),
        r is Ok ==> !in_seg(after.header(), lost[i] as int) && bad(
            after.counters()[lost[i] as int],
        ),
{
    let n = before.blocks();
    let first = rescaled(before.counters(), n);
    let es = apply(edit, before.entries());
    let span = before.span_for(es);
    let b = lost[i] as int;
    lemma_inv(before);
    lemma_lost_in_range(before.header(), n, before.dev(), after.dev(), es, tried, lost, i);
    lemma_stays_bad(first, n, tried, lost, i, j);
    lemma_spares_bad(before.header(), span, first, n, tried, lost, j, b);
    if r is Ok {
        let k = lost.len() as int;
        lemma_stays_bad(first, n, tried, lost, i, k);
        lemma_spares_bad(before.header(), span, first, n, tried, lost, k, b);
        lemma_table_len(first, n, tried, lost, k);
        lemma_incremented_bad(
            table_for(first, n, true, tried, lost, k),
            after.header().start_block as int,
            span,
            n,
        );
        assert(tried[k] == after.header());
    }
}

/// The block that turned out bad at a place is one of the device.
proof fn lemma_lost_in_range<D: BlockDevice>(
    active: SnapshotHeader,
    n: int,
    before: D,
    after: D,
    es: Seq<Entry>,
    tried: Seq<SnapshotHeader>,
    lost: Seq<u32>,
    i: int,
)
    requires
        left_behind(before, after, Some(active), active.generation.wrapping_add(1), es, tried),
        geometry_ok(before.geom()),
        n == before.geom().block_count,
        0 <= i < lost.len() <= tried.len(),
        in_seg(tried[i], lost[i] as int),
    ensures
        0 <= lost[i] < n,
{
    assert(is_target(tried[i], before.geom(), active.generation.wrapping_add(1), Some(active)));
    lemma_seg_len(tried[i]);
}

/// The table for a place has an entry for every block.
proof fn lemma_table_len(
    first: Seq<u16>,
    n: int,
    tried: Seq<SnapshotHeader>,
    lost: Seq<u32>,
    k: int,
)
    requires
        first.len() == 64,
    ensures
        table_for(first, n, true, tried, lost, k).len() == 64,
{
}

/// The table for a place marks the blocks that were lost before.
proof fn lemma_stays_bad(
    first: Seq<u16>,
    n: int,
    tried: Seq<SnapshotHeader>,
    lost: Seq<u32>,
    i: int,
    k: int,
)
    requires
        first.len() == 64,
        n <= 64,
        0 <= i < k <= lost.len() <= tried.len(),
        forall|m: int| 0 <= m < lost.len() ==> 0 <= #[trigger] lost[m] < n,
    ensures
        bad(table_for(first, n, true, tried, lost, k)[lost[i] as int]),
    decreases k,
{
    let h = tried[k - 1];
    let t = table_for(first, n, true, tried, lost, k - 1);
    let t1 = incremented(t, h.start_block as int, h.block_span as int, n);
    let t2 = marked(t1, lost[k - 1] as int);
    lemma_table_len(first, n, tried, lost, k - 1);
    lemma_rescaled_bad(t2, n);
    lemma_marked_bad(t1, lost[k - 1] as int, n);
    lemma_incremented_bad(t, h.start_block as int, h.block_span as int, n);
    if i < k - 1 {
        lemma_stays_bad(first, n, tried, lost, i, k - 1);
        assert(bad(t[lost[i] as int]));
        assert(bad(t1[lost[i] as int]));
    }
    assert(bad(t2[lost[i] as int]));
}

/// A place that was chosen spares the bad blocks.
proof fn lemma_spares_bad(
    active: SnapshotHeader,
    span: int,
    first: Seq<u16>,
    n: int,
    tried: Seq<SnapshotHeader>,
    lost: Seq<u32>,
    j: int,
    b: int,
)
    requires
        followed(Some(active), span, first, n, true, tried, lost),
        0 <= j < tried.len(),
        tried[j].block_count == n,
        bad(table_for(first, n, true, tried, lost, j)[b]),
    ensures
        !in_seg(tried[j], b),
{
    let h = tried[j];
    let wear = table_for(first, n, true, tried, lost, j);
    assert(chosen(Some(active), span, wear, n, h));
    if in_seg(h, b) {
        let k = choose|k: int| 0 <= k < h.block_span && #[trigger] wrap(h.start_block + k, n) == b;
        assert(!bad(wear[wrap(h.start_block + k, n)]));
    }
}

/// A place is tried after every block that turned out bad, until none is left or the
/// attempts are used up: a change is given up for want of space only then, or if the
/// entries do not fit.
pub proof fn law_giving_up_has_a_reason<D: BlockDevice>(
    before: FileSystem<D>,
    after: FileSystem<D>,
    edit: Edit,
    refusal: Option<Error<D::Error>>,
)
    requires
        before.inv(),
        after.mutated(before, edit, refusal, Err(Error::NoSpace)),
        fits(apply(edit, before.entries()), before.header().geom()),
    ensures
        exists|tried: Seq<SnapshotHeader>, lost: Seq<u32>|
            {
                &&& #[trigger] after.history(
                    before,
                    apply(edit, before.entries()),
                    Err(Error::NoSpace),
                    tried,
                    lost,
                )
                &&& {
                    ||| lost.len() == MAX_COMMIT_ATTEMPTS
                    ||| no_place(
                        Some(before.header()),
                        before.span_for(apply(edit, before.entries())),
                        table_for(
                            rescaled(before.counters(), before.blocks()),
                            before.blocks(),
                            true,
                            tried,
                            lost,
                            lost.len() as int,
                        ),
                        before.blocks(),
                    )
                }
            },
{
    reveal(FileSystem::traced);
}

/// Removing entry `name` from the records makes room for its record.
proof fn lemma_kept_serialized(es: Seq<Entry>, name: Seq<u8>, data: Seq<u8>)
    requires
        all_ok(es),
        super::tree::distinct(es),
    ensures
        serialize(kept(Edit::Write { name, data }, es)).len() == serialize(es).len() - replaced_len(
            es,
            name,
        ),
        kept(Edit::Write { name, data }, es).len() == es.len() - if contains_name(es, name) {
            1int
        } else {
            0
        },
    decreases es.len(),
{
    let edit = Edit::Write { name, data };
    if es.len() > 0 {
        let head = es.drop_last();
        let e = es.last();
        assert(all_ok(head)) by {
            assert forall|i: int| 0 <= i < head.len() implies super::tree::entry_ok(
                #[trigger] head[i],
            ) by {
                assert(super::tree::entry_ok(es[i]));
            }
        }
        lemma_kept_serialized(head, name, data);
        lemma_record_bytes_len(e);
        if e.name == name {
            super::tree::lemma_lookup(es, es.len() - 1);
            if contains_name(head, name) {
                let i = choose|i: int| 0 <= i < head.len() && (#[trigger] head[i]).name == name;
                assert(es[i].name == name);
                assert(false);
            }
        } else {
            assert(kept(edit, es).drop_last() =~= kept(edit, head));
            if contains_name(head, name) {
                let i = position(head, name);
                assert(head[i] == es[i]);
                super::tree::lemma_lookup(es, i);
                super::tree::lemma_lookup(head, i);
            } else if contains_name(es, name) {
                let i = choose|i: int| 0 <= i < es.len() && (#[trigger] es[i]).name == name;
                assert(head[i] == es[i]);
                assert(false);
            }
        }
    }
}

/// `max_write_size` is exact: that many bytes fit, and no more.
pub proof fn law_max_write_is_exact(
    h: SnapshotHeader,
    es: Seq<Entry>,
    name: Seq<u8>,
    data: Seq<u8>,
)
    requires
        geometry_ok(h.geom()),
        all_ok(es),
        tree_ok(es),
        es.len() <= 32,
        valid_name(name),
        h.payload_len == table_len(h.block_count as int) + serialize(es).len(),
        lookup(es, name) is Some || es.len() < 32,
    ensures
        fits(apply(Edit::Write { name, data }, es), h.geom()) <==> data.len() <= room_for(
            h,
            es,
            name,
        ),
{
    let e = Entry { name, directory: false, data };
    lemma_written_len(es, name, data);
    lemma_left_is_aligned(h, es, name);
    super::tree::lemma_pad4(data_end(e));
    lemma_padded_fits(
        data_end(e),
        entry_len(e),
        capacity(h.geom()) - (h.payload_len - replaced_len(es, name)),
    );
}

/// With no bad block, there is room beside the active snapshot for one of up to half of the
/// blocks.
proof fn lemma_room_beside<D: BlockDevice>(fs: FileSystem<D>, span: int)
    requires
        fs.inv(),
        1 <= span <= fs.blocks() / 2,
        forall|b: int| 0 <= b < fs.blocks() ==> !bad(#[trigger] fs.counters()[b]),
    ensures
        fs.layout_exists(span),
{
    let h = fs.header();
    let n = fs.blocks();
    let wear = rescaled(fs.counters(), n);
    lemma_inv(fs);
    lemma_seg_len(h);
    let start = wrap(h.start_block + h.block_span, n);
    assert(!overlap(start, span, h.start_block as int, h.block_span as int, n)) by {
        if overlap(start, span, h.start_block as int, h.block_span as int, n) {
            let b = choose|b: int| #[trigger]
                occupies(start, span, n, b) && occupies(
                    h.start_block as int,
                    h.block_span as int,
                    n,
                    b,
                );
            let i = choose|i: int| 0 <= i < span && #[trigger] wrap(start + i, n) == b;
            let j = choose|j: int|
                0 <= j < h.block_span && #[trigger] wrap(h.start_block + j, n) == b;
            assert(false);
        }
    }
    assert(usable(wear, start, span, n)) by {
        assert forall|k: int| 0 <= k < span implies !bad(wear[#[trigger] wrap(start + k, n)]) by {
            let b = wrap(start + k, n);
            assert(!bad(fs.counters()[b]));
            super::wear::law_halving_keeps_order(fs.counters()[b], fs.counters()[b]);
        }
    }
    assert(candidate(h, span, wear, n, start));
}

/// What `max_write_size` says is tight: while no block is bad and no operation of the
/// device fails, a file of that many bytes can be written, and one of more cannot. The
/// payload of the active snapshot must hold its counters, as it does in every snapshot that
/// a change or a format has written.
pub proof fn law_max_write_size_is_tight<D: BlockDevice>(
    before: FileSystem<D>,
    after: FileSystem<D>,
    name: &str,
    data: Seq<u8>,
    limit: u32,
    r: Result<(), Error<D::Error>>,
)
    requires
        before.inv(),
        !before.stuck(),
        before.header().payload_len >= table_len(before.blocks()),
        forall|b: int| 0 <= b < before.blocks() ==> !bad(#[trigger] before.counters()[b]),
        max_write_result::<D::Error>(before.header(), before.entries(), name.spec_bytes()) == Ok::<
            u32,
            Error<D::Error>,
        >(limit),
        data.len() <= u32::MAX,
        after.mutated(
            before,
            Edit::Write { name: name.spec_bytes(), data },
            write_refusal(before.entries(), name.spec_bytes(), data.len() as int),
            r,
        ),
        after.dev().faults() == before.dev().faults(),
    ensures
        data.len() <= limit ==> r is Ok,
        data.len() > limit ==> r == Err::<(), Error<D::Error>>(Error::NoSpace),
{
    let h = before.header();
    let es = before.entries();
    let n = name.spec_bytes();
    let new = apply(Edit::Write { name: n, data }, es);
    lemma_inv(before);
    lemma_room(before);
    lemma_capacity(h.geom());
    lemma_kept_serialized(es, n, data);
    assert(0 <= room_for(h, es, n) <= u32::MAX);
    law_max_write_is_exact(h, es, n, data);
    if fits(new, h.geom()) {
        lemma_span_bound(table_len(before.blocks()) + serialize(new).len(), h.geom());
        lemma_room_beside(before, before.span_for(new));
    }
}

/// What is known of a mounted filesystem: its entries form a tree, and its header describes
/// them.
pub proof fn law_mounted_is_sound<D: BlockDevice>(fs: FileSystem<D>)
    requires
        fs.inv(),
    ensures
        fs.header().geom() == fs.dev().geom(),
        on_device(fs.dev(), fs.header()),
        holds(fs.dev().media(), fs.header(), fs.entries()),
        tree_ok(fs.entries()),
        all_ok(fs.entries()),
        fs.entries().len() == fs.header().file_count <= MAX_FILES,
        fs.header().records() == serialize(fs.entries()).len(),
        fs.header().payload_len <= capacity(fs.header().geom()),
        2 <= fs.blocks() <= 64,
        fs.counters().len() == 64,
        snapshot_at(fs.dev().media(), fs.dev().geom(), fs.header().start_block as int) == Some(
            fs.header(),
        ),
{
    lemma_inv(fs);
    lemma_room(fs);
    reveal(FileSystem::inv);
}

/// The length of the records after a file was written.
proof fn lemma_written_len(es: Seq<Entry>, name: Seq<u8>, data: Seq<u8>)
    requires
        all_ok(es),
        tree_ok(es),
        name.len() <= 63,
    ensures
        ({
            let e = Entry { name, directory: false, data };
            let new = apply(Edit::Write { name, data }, es);
            &&& serialize(new).len() == serialize(es).len() - replaced_len(es, name) + entry_len(e)
            &&& new.len() == es.len() + if contains_name(es, name) {
                0int
            } else {
                1
            }
        }),
{
    let edit = Edit::Write { name, data };
    let e = Entry { name, directory: false, data };
    lemma_kept_serialized(es, name, data);
    super::tree::lemma_serialize_concat(kept(edit, es), seq![e]);
    super::tree::lemma_serialize_one(e);
    super::change::lemma_entry_len_bytes(e);
    assert(apply(edit, es) == kept(edit, es) + seq![e]);
}

/// The room for a file is made of whole words.
proof fn lemma_left_is_aligned(h: SnapshotHeader, es: Seq<Entry>, name: Seq<u8>)
    requires
        geometry_ok(h.geom()),
        all_ok(es),
        h.payload_len == table_len(h.block_count as int) + serialize(es).len(),
    ensures
        (capacity(h.geom()) - (h.payload_len - replaced_len(es, name))) % 4 == 0,
{
    lemma_capacity(h.geom());
    super::tree::lemma_pad4(2 * h.block_count);
    super::tree::lemma_serialize_aligned(es);
    assert(replaced_len(es, name) % 4 == 0) by {
        if lookup(es, name) is Some {
            let i = position(es, name);
            assert(0 <= i < es.len() && es[i].name == name);
            lemma_record_bytes_len(es[i]);
        }
    }
}

/// A length that is rounded up to words fits exactly if it fits itself.
proof fn lemma_padded_fits(n: int, padded: int, room: int)
    requires
        n <= padded < n + 4,
        padded % 4 == 0,
        room % 4 == 0,
    ensures
        padded <= room <==> n <= room,
{
}

// ---------------------------------------------------------------------------
// How the operations agree with each other
// ---------------------------------------------------------------------------

/// A read never gives more than there is room for or than the file holds, and stops short
/// of the room only at the end of the file; so reading on where the last read stopped
/// gives the whole file and then nothing.
pub proof fn law_reads_go_on_to_the_end(e: Entry, offset: int, room: int)
    requires
        offset >= 0,
        room >= 0,
    ensures
        0 <= read_len(e, offset, room) <= room,
        offset <= e.data.len() ==> offset + read_len(e, offset, room) <= e.data.len(),
        read_len(e, offset, room) < room ==> offset + read_len(e, offset, room) >= e.data.len(),
        offset >= e.data.len() ==> read_len(e, offset, room) == 0,
        offset < e.data.len() && room > 0 ==> read_len(e, offset, room) > 0,
{
}

/// An entry is listed in a directory exactly if it lies directly in it, and each time it
/// is there once; the list has the order of the entries.
pub proof fn law_listings_are_exact(es: Seq<Entry>, dir: Option<Seq<u8>>, e: Entry)
    ensures
        children(es, dir).contains(e) <==> es.contains(e) && parent_of(e.name) == dir,
        children(es, dir).len() <= es.len(),
        distinct(es) ==> distinct(children(es, dir)),
    decreases es.len(),
{
    if es.len() > 0 {
        let rest = es.drop_last();
        let last = es.last();
        law_listings_are_exact(rest, dir, e);
        let all = children(es, dir);
        let head = children(rest, dir);
        assert(es =~= rest.push(last));
        if es.contains(e) {
            let i = choose|i: int| 0 <= i < es.len() && es[i] == e;
            if i < rest.len() {
                assert(rest[i] == e);
            }
        }
        if rest.contains(e) {
            let i = choose|i: int| 0 <= i < rest.len() && rest[i] == e;
            assert(es[i] == e);
        }
        assert(es[es.len() - 1] == last);
        if parent_of(last.name) == dir {
            assert(all == head.push(last));
            assert(all[all.len() - 1] == last);
            if all.contains(e) {
                let i = choose|i: int| 0 <= i < all.len() && all[i] == e;
                if i < head.len() {
                    assert(head[i] == e);
                }
            }
            if head.contains(e) {
                let i = choose|i: int| 0 <= i < head.len() && head[i] == e;
                assert(all[i] == e);
            }
            if distinct(es) {
                assert(distinct(rest));
                assert forall|i: int, j: int| 0 <= i < j < all.len() implies all[i].name
                    != all[j].name by {
                    if j == head.len() {
                        law_listings_are_exact(rest, dir, head[i]);
                        assert(head.contains(head[i]));
                        let k = choose|k: int| 0 <= k < rest.len() && rest[k] == head[i];
                        assert(es[k] == head[i]);
                    } else {
                        assert(head[i].name != head[j].name);
                    }
                }
            }
        } else {
            assert(all == head);
            if distinct(es) {
                assert(distinct(rest));
            }
        }
    }
}

/// A path is its directory, a separator and its last component, which has no separator;
/// at the root it is the last component alone.
pub proof fn law_paths_are_directory_and_name(n: Seq<u8>)
    ensures
        match parent_of(n) {
            Some(p) => n == p.push(0x2fu8) + base_of(n),
            None => n == base_of(n),
        },
        forall|i: int| 0 <= i < base_of(n).len() ==> #[trigger] base_of(n)[i] != 0x2f,
{
    super::names::lemma_last_slash(n);
    let s = super::names::last_slash(n);
    assert forall|i: int| 0 <= i < base_of(n).len() implies #[trigger] base_of(n)[i] != 0x2f by {
        assert(base_of(n)[i] == n[s + 1 + i]);
    }
    match parent_of(n) {
        Some(p) => {
            assert(n =~= p.push(0x2fu8) + base_of(n));
        },
        None => {
            assert(n =~= base_of(n));
        },
    }
}

/// What `stat` says is what can be done: what it calls a file can be read and removed and
/// is no directory to list, what it calls a directory can be listed and neither read,
/// removed as a file nor written, and what it does not find can be none of these, but may
/// be made.
pub proof fn law_stat_tells_what_can_be_done<E>(es: Seq<Entry>, name: Seq<u8>)
    requires
        name.len() > 0,
    ensures
        ({
            let stat = stat_result::<E>(es, name);
            let is_file = stat is Ok && stat->Ok_0.kind == EntryKind::File;
            let is_dir = stat is Ok && stat->Ok_0.kind == EntryKind::Directory;
            &&& read_refusal::<E>(es, name) is None <==> is_file
            &&& remove_refusal::<E>(es, name) is None <==> is_file
            &&& read_dir_refusal::<E>(es, name) is None <==> is_dir
            &&& is_dir ==> read_refusal::<E>(es, name) == Some(Error::<E>::IsDirectory)
            &&& is_dir ==> place_refusal::<E>(es, name) is Some
            &&& is_file ==> rmdir_refusal::<E>(es, name) == Some(Error::<E>::NotDirectory)
            &&& rmdir_refusal::<E>(es, name) is None ==> is_dir
            &&& mkdir_refusal::<E>(es, name) is None ==> stat == Err::<FileInfo, Error<E>>(
                Error::NotFound,
            )
            &&& stat == Err::<FileInfo, Error<E>>(Error::NotFound) ==> {
                &&& read_refusal::<E>(es, name) == Some(Error::<E>::NotFound)
                &&& read_dir_refusal::<E>(es, name) == Some(Error::<E>::NotFound)
                &&& rmdir_refusal::<E>(es, name) == Some(Error::<E>::NotFound)
                &&& parent_result::<E>(es, name) is Ok ==> mkdir_refusal::<E>(es, name) is None
                    && place_refusal::<E>(es, name) is None
            }
        }),
{
}

/// Below a directory there is something exactly if something lies directly in it.
proof fn lemma_something_below(es: Seq<Entry>, dir: Seq<u8>, i: int) -> (j: int)
    requires
        rooted(es),
        0 <= i < es.len(),
        descendant(es[i].name, dir),
    ensures
        0 <= j < es.len(),
        parent_of(es[j].name) == Some(dir),
    decreases es[i].name.len(),
{
    let n = es[i].name;
    super::names::lemma_descendant_has_parent(n, dir);
    super::names::lemma_parent(n);
    let p = parent_of(n)->0;
    if p == dir {
        i
    } else {
        assert(descendant(p, dir));
        assert(has_dir(es, p));
        let k = choose|k: int| 0 <= k < es.len() && (#[trigger] es[k]).name == p && es[k].directory;
        lemma_something_below(es, dir, k)
    }
}

/// A directory can be removed exactly if listing it shows nothing.
pub proof fn law_empty_directories_can_be_removed<E>(es: Seq<Entry>, name: Seq<u8>)
    requires
        tree_ok(es),
        name.len() > 0,
        read_dir_refusal::<E>(es, name) is None,
    ensures
        rmdir_refusal::<E>(es, name) is None <==> children(es, Some(name)).len() == 0,
        rmdir_refusal::<E>(es, name) is Some ==> rmdir_refusal::<E>(es, name) == Some(
            Error::<E>::DirectoryNotEmpty,
        ),
{
    let inside = children(es, Some(name));
    if inside.len() > 0 {
        let e = inside[0];
        assert(inside.contains(e));
        law_listings_are_exact(es, Some(name), e);
        let i = choose|i: int| 0 <= i < es.len() && es[i] == e;
        super::names::lemma_parent(e.name);
        assert(descendant(es[i].name, name));
        assert(has_below(es, name));
    }
    if has_below(es, name) {
        let i = choose|i: int| 0 <= i < es.len() && descendant((#[trigger] es[i]).name, name);
        let j = lemma_something_below(es, name, i);
        law_listings_are_exact(es, Some(name), es[j]);
        assert(es.contains(es[j]));
        assert(inside.contains(es[j]));
    }
}

/// What a snapshot can hold is what leaves room for another one of the same size beside
/// it: the blocks of two full snapshots fit on the device, those of larger ones do not.
pub proof fn law_two_snapshots_fit(g: Geometry, payload: int)
    requires
        geometry_ok(g),
        payload >= 0,
    ensures
        payload <= capacity(g) <==> 2 * span_of(payload, g.block_size as int) <= g.block_count,
{
    let bs = g.block_size as int;
    let half = g.block_count as int / 2;
    let s = span_of(payload, bs);
    super::format::law_span_is_least(payload, bs);
    if payload <= capacity(g) {
        assert(s <= half) by (nonlinear_arith)
            requires
                (s - 1) * bs < half * bs,
                bs > 0,
        ;
    }
    if s <= half {
        assert(s * bs <= half * bs) by (nonlinear_arith)
            requires
                s <= half,
                bs > 0,
        ;
    }
}

} // verus!
