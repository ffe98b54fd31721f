//! Segments: the run of blocks that a snapshot occupies, addressed as one
//! string of bytes.

use vstd::arithmetic::div_mod::{lemma_fundamental_div_mod, lemma_fundamental_div_mod_converse, lemma_mod_bound};
use vstd::arithmetic::mul::{lemma_mul_inequality, lemma_mul_is_commutative};
use vstd::prelude::*;

use super::Error;
use super::format::{BlockDevice, ERASED_BYTE, Fault, Geometry, Write, SnapshotHeader, geometry_error, media_shape, overwritten, table_len, words};
use super::wear::{occupies, wrap, wrapped};

verus! {

/// A failed write of a segment.
pub enum CommitError<E> {
    /// This block could not be erased or programmed. The active snapshot is
    /// untouched, so the block can be marked bad and avoided.
    Block { block: u32, error: E },
    /// Anything else, among it every failure whose outcome is uncertain.
    Fatal(Error<E>),
}

/// The geometry can hold a filesystem.
pub open spec fn geometry_ok(g: Geometry) -> bool {
    &&& geometry_error(g) is None
    &&& g.block_size >= table_len(g.block_count as int)
    &&& g.block_count <= 64
    &&& g.block_size * g.block_count <= u32::MAX
}

/// The header describes a segment of the device.
pub open spec fn on_device<D: BlockDevice>(device: D, h: SnapshotHeader) -> bool {
    &&& geometry_ok(device.geom())
    &&& media_shape(device.media(), device.geom())
    &&& h.geom() == device.geom()
    &&& h.error() is None
}

/// The block that holds byte `i` of the segment.
pub open spec fn block_of(h: SnapshotHeader, i: int) -> int {
    wrap(h.start_block + i / (h.block_size as int), h.block_count as int)
}

/// Number of bytes of the segment.
pub open spec fn seg_len(h: SnapshotHeader) -> int {
    h.block_span * h.block_size
}

/// The bytes of the segment.
pub open spec fn seg(media: Seq<Seq<u8>>, h: SnapshotHeader) -> Seq<u8> {
    Seq::new(seg_len(h) as nat, |i: int| media[block_of(h, i)][i % (h.block_size as int)])
}

/// The segment takes up block `b`.
pub open spec fn in_seg(h: SnapshotHeader, b: int) -> bool {
    occupies(h.start_block as int, h.block_span as int, h.block_count as int, b)
}

/// Word `w` of the segment may still be programmed.
pub open spec fn word_fresh(fresh: Set<(int, int)>, h: SnapshotHeader, w: int) -> bool {
    fresh.contains((block_of(h, 4 * w), ((4 * w) % (h.block_size as int)) / 4))
}

/// Nothing on the device has changed; if an operation failed, it was a read.
pub open spec fn untouched<D: BlockDevice>(before: D, after: D) -> bool {
    &&& after.geom() == before.geom()
    &&& after.media() == before.media()
    &&& after.fresh() == before.fresh()
    &&& after.pending() == before.pending()
    &&& after.torn() == before.torn()
    &&& after.erased() == before.erased()
    &&& after.writes() == before.writes()
    &&& after.faults() >= before.faults()
    &&& after.fault() == if after.faults() > before.faults() {
        Fault::Read
    } else {
        before.fault()
    }
}

/// Nothing outside the segment has changed.
pub open spec fn spared<D: BlockDevice>(before: D, after: D, h: SnapshotHeader) -> bool {
    &&& after.geom() == before.geom()
    &&& media_shape(after.media(), after.geom())
    &&& after.faults() >= before.faults()
    &&& forall|b: int|
        0 <= b < before.media().len() && !#[trigger] in_seg(h, b) ==> after.media()[b]
            == before.media()[b]
    &&& forall|b: int, w: int| #[trigger]
        after.pending().contains((b, w)) ==> in_seg(h, b) || before.pending().contains((b, w))
}

/// What was written since goes to blocks of the segment.
#[verifier::opaque]
pub open spec fn wrote_inside(before: Seq<Write>, after: Seq<Write>, h: SnapshotHeader) -> bool {
    &&& before.len() <= after.len()
    &&& forall|i: int| 0 <= i < before.len() ==> #[trigger] after[i] == before[i]
    &&& forall|i: int|
        before.len() <= i < after.len() ==> ((#[trigger] after[i]) matches Write::Program {
            block,
            ..
        } ==> in_seg(h, block))
}

/// Nothing was written.
pub proof fn lemma_wrote_nothing(writes: Seq<Write>, h: SnapshotHeader)
    ensures
        wrote_inside(writes, writes, h),
{
    reveal(wrote_inside);
}

/// One more step of writing.
pub proof fn lemma_wrote_more(before: Seq<Write>, after: Seq<Write>, h: SnapshotHeader, next: Write)
    requires
        wrote_inside(before, after, h),
        next matches Write::Program { block, .. } ==> in_seg(h, block),
    ensures
        wrote_inside(before, after.push(next), h),
{
    reveal(wrote_inside);
}

/// Nothing that was written is taken back.
pub proof fn lemma_wrote_length(before: Seq<Write>, after: Seq<Write>, h: SnapshotHeader)
    requires
        wrote_inside(before, after, h),
    ensures
        before.len() <= after.len(),
{
    reveal(wrote_inside);
}

pub proof fn lemma_wrote_trans(a: Seq<Write>, b: Seq<Write>, c: Seq<Write>, h: SnapshotHeader)
    requires
        wrote_inside(a, b, h),
        wrote_inside(b, c, h),
    ensures
        wrote_inside(a, c, h),
{
    reveal(wrote_inside);
    assert forall|i: int| 0 <= i < a.len() implies #[trigger] c[i] == a[i] by {
        assert(b[i] == a[i]);
    }
    assert forall|i: int| a.len() <= i < c.len() implies ((#[trigger] c[i]) matches Write::Program {
        block,
        ..
    } ==> in_seg(h, block)) by {
        if i < b.len() {
            assert(c[i] == b[i]);
        }
    }
}

/// Words of the segment have been programmed, and nothing else was done.
pub open spec fn programmed<D: BlockDevice>(before: D, after: D, h: SnapshotHeader) -> bool {
    &&& spared(before, after, h)
    &&& after.erased() == before.erased()
    &&& before.pending().subset_of(after.pending())
    &&& wrote_inside(before.writes(), after.writes(), h)
}

/// Why a segment could not be written: a block of it is worn out, or the device gave
/// another error.
pub open spec fn explained<T, D: BlockDevice>(
    r: Result<T, CommitError<D::Error>>,
    device: D,
    h: SnapshotHeader,
) -> bool {
    match r {
        Ok(_) => true,
        Err(CommitError::Block { block, error }) => {
            &&& in_seg(h, block as int)
            &&& block < h.block_count
            &&& device.worn_out(error)
            &&& device.fault() == (Fault::Erase { block }) || device.fault() is Program
                && device.fault()->Program_block == block
        },
        Err(CommitError::Fatal(Error::Device(error))) => device.fault() is Read || !(device.fault()
            is Nothing) && !device.worn_out(error),
        Err(CommitError::Fatal(_)) => false,
    }
}

/// The result is a device error exactly if a device operation failed.
pub open spec fn honest<T, E>(r: Result<T, Error<E>>, before: nat, after: nat) -> bool {
    &&& after >= before
    &&& (r is Err && r->Err_0 is Device) == (after > before)
}

/// As `honest`, for the writing of a segment.
pub open spec fn honest_commit<T, E>(
    r: Result<T, CommitError<E>>,
    before: nat,
    after: nat,
) -> bool {
    &&& after >= before
    &&& after > before <==> r is Err && (r->Err_0 is Block || (r->Err_0 is Fatal
        && r->Err_0->Fatal_0 is Device))
}

proof fn lemma_multiple_of_4(a: int, b: int)
    requires
        b % 4 == 0,
    ensures
        (a * b) % 4 == 0,
{
    let q = b / 4;
    assert(a * b == (a * q) * 4) by (nonlinear_arith)
        requires
            b == 4 * q,
    ;
    vstd::arithmetic::div_mod::lemma_mod_multiples_basic(a * q, 4);
}

pub proof fn lemma_seg_len(h: SnapshotHeader)
    requires
        h.error() is None,
        geometry_ok(h.geom()),
    ensures
        64 + h.payload_len <= seg_len(h) <= u32::MAX,
        seg_len(h) % 4 == 0,
        1 <= h.block_span <= h.block_count / 2,
{
    super::format::law_span_is_least(h.payload_len as int, h.block_size as int);
    lemma_mul_inequality(h.block_span as int, h.block_count as int, h.block_size as int);
    lemma_mul_is_commutative(h.block_count as int, h.block_size as int);
    lemma_multiple_of_4(h.block_span as int, h.block_size as int);
}

/// Byte `o` of relative block `k` lies at `k * block_size + o`.
pub proof fn lemma_place(h: SnapshotHeader, k: int, o: int, i: int)
    requires
        h.block_size > 0,
        0 <= o < h.block_size,
        i == k * h.block_size + o,
    ensures
        i / (h.block_size as int) == k,
        i % (h.block_size as int) == o,
{
    lemma_fundamental_div_mod_converse(i, h.block_size as int, k, o);
}

/// Where byte `i` of a segment lies.
pub proof fn lemma_split(h: SnapshotHeader, i: int) -> (r: (int, int))
    requires
        h.error() is None,
        geometry_ok(h.geom()),
        0 <= i < seg_len(h),
    ensures
        r.0 == i / (h.block_size as int),
        r.1 == i % (h.block_size as int),
        i == r.0 * h.block_size + r.1,
        0 <= r.0 < h.block_span,
        0 <= r.1 < h.block_size,
        block_of(h, i) == wrap(h.start_block + r.0, h.block_count as int),
        0 <= block_of(h, i) < h.block_count,
        in_seg(h, block_of(h, i)),
{
    let bs = h.block_size as int;
    let k = i / bs;
    let o = i % bs;
    lemma_seg_len(h);
    lemma_fundamental_div_mod(i, bs);
    lemma_mod_bound(i, bs);
    lemma_mul_is_commutative(bs, k);
    assert(0 <= k < h.block_span) by (nonlinear_arith)
        requires
            i == k * bs + o,
            0 <= o < bs,
            0 <= i < h.block_span * bs,
    ;
    assert(wrap(h.start_block + k, h.block_count as int) == block_of(h, i));
    (k, o)
}

/// Different relative blocks are different blocks of the device.
pub proof fn lemma_blocks_differ(h: SnapshotHeader, i: int, j: int)
    requires
        h.error() is None,
        geometry_ok(h.geom()),
        0 <= i < seg_len(h),
        0 <= j < seg_len(h),
        block_of(h, i) == block_of(h, j),
    ensures
        i / (h.block_size as int) == j / (h.block_size as int),
{
    let a = lemma_split(h, i);
    let b = lemma_split(h, j);
    lemma_seg_len(h);
}

/// A stretch of the segment within one block.
proof fn lemma_stretch(media: Seq<Seq<u8>>, h: SnapshotHeader, i: int, n: int)
    requires
        h.error() is None,
        geometry_ok(h.geom()),
        media_shape(media, h.geom()),
        0 <= i,
        0 < n,
        i % (h.block_size as int) + n <= h.block_size,
        i + n <= seg_len(h),
    ensures
        seg(media, h).subrange(i, i + n) == media[block_of(h, i)].subrange(
            i % (h.block_size as int),
            i % (h.block_size as int) + n,
        ),
        forall|j: int|
            i <= j < i + n ==> #[trigger] block_of(h, j) == block_of(h, i) && j % (
            h.block_size as int) == i % (h.block_size as int) + (j - i),
{
    let r = lemma_split(h, i);
    assert forall|j: int| i <= j < i + n implies #[trigger] block_of(h, j) == block_of(h, i) && j
        % (h.block_size as int) == r.1 + (j - i) by {
        lemma_place(h, r.0, r.1 + (j - i), j);
    }
    let a = seg(media, h).subrange(i, i + n);
    let b = media[block_of(h, i)].subrange(r.1, r.1 + n);
    assert forall|k: int| 0 <= k < n implies a[k] == b[k] by {
        assert(block_of(h, i + k) == block_of(h, i));
    }
    assert(a =~= b);
}

/// Read bytes of a segment.
pub(crate) fn segment_read<D: BlockDevice>(
    device: &mut D,
    snapshot: &SnapshotHeader,
    logical_offset: u32,
    buffer: &mut [u8],
) -> (r: Result<(), Error<D::Error>>)
    requires
        on_device(*old(device), *snapshot),
    ensures
        untouched(*old(device), *final(device)),
        honest(r, old(device).faults(), final(device).faults()),
        final(buffer)@.len() == old(buffer)@.len(),
        if logical_offset + old(buffer)@.len() > seg_len(*snapshot) {
            r == Err::<(), Error<D::Error>>(Error::Corrupt)
        } else {
            &&& r is Err ==> r->Err_0 is Device
            &&& r is Ok ==> final(buffer)@ == seg(old(device).media(), *snapshot).subrange(
                logical_offset as int,
                logical_offset + old(buffer)@.len(),
            )
        },
{
    let ghost h = *snapshot;
    let ghost media = device.media();
    let ghost lo = logical_offset as int;
    let ghost d0 = *device;
    proof {
        lemma_seg_len(h);
    }
    let total: usize = buffer.len();
    if total > u32::MAX as usize {
        return Err(Error::Corrupt);
    }
    let end: u32 = match logical_offset.checked_add(total as u32) {
        Some(end) => end,
        None => return Err(Error::Corrupt),
    };
    let segment_len: u32 = snapshot.block_span * snapshot.block_size;
    if end > segment_len {
        return Err(Error::Corrupt);
    }
    let mut done: usize = 0;
    assert(buffer@.take(0) =~= seg(media, h).subrange(lo, lo));
    while done < total
        invariant
            h == *snapshot,
            d0 == *old(device),
            media == d0.media(),
            untouched(d0, *device),
            device.faults() == d0.faults(),
            on_device(*device, h),
            lo == logical_offset,
            buffer@.len() == total,
            total == old(buffer)@.len(),
            done <= total,
            lo + total <= seg_len(h) <= u32::MAX,
            buffer@.take(done as int) == seg(media, h).subrange(lo, lo + done),
        decreases total - done,
    {
        let logical: u32 = logical_offset + done as u32;
        let ghost at = logical as int;
        let ghost place = lemma_split(h, at);
        proof {
            lemma_seg_len(h);
        }
        let relative: u32 = logical / snapshot.block_size;
        let block: u32 = wrapped(snapshot.start_block + relative, snapshot.block_count);
        let block_offset: u32 = logical % snapshot.block_size;
        let available: usize = (snapshot.block_size - block_offset) as usize;
        let remaining: usize = total - done;
        let amount: usize = if remaining < available {
            remaining
        } else {
            available
        };
        let ghost before = buffer@;
        let (head, tail) = buffer.split_at_mut(done);
        let (current, rest) = tail.split_at_mut(amount);
        let outcome = device.read(block, block_offset, current);
        match outcome {
            Ok(()) => {},
            Err(error) => return Err(Error::Device(error)),
        }
        proof {
            lemma_stretch(media, h, at, amount as int);
            let s = seg(media, h);
            assert(buffer@.take(done + amount) =~= before.take(done as int) + s.subrange(
                at,
                at + amount,
            ));
            assert(s.subrange(lo, lo + done) + s.subrange(at, at + amount) =~= s.subrange(
                lo,
                lo + done + amount,
            ));
        }
        done += amount;
    }
    assert(buffer@.take(done as int) =~= buffer@);
    Ok(())
}

/// Read bytes of a segment into the front of `buffer`.
pub(crate) fn segment_read_front<D: BlockDevice>(
    device: &mut D,
    snapshot: &SnapshotHeader,
    logical_offset: u32,
    buffer: &mut [u8],
    length: usize,
) -> (r: Result<(), Error<D::Error>>)
    requires
        on_device(*old(device), *snapshot),
        length <= old(buffer)@.len(),
    ensures
        untouched(*old(device), *final(device)),
        honest(r, old(device).faults(), final(device).faults()),
        final(buffer)@.len() == old(buffer)@.len(),
        forall|i: int| length <= i < old(buffer)@.len() ==> final(buffer)@[i] == old(buffer)@[i],
        if logical_offset + length > seg_len(*snapshot) {
            r == Err::<(), Error<D::Error>>(Error::Corrupt)
        } else {
            &&& r is Err ==> r->Err_0 is Device
            &&& r is Ok ==> final(buffer)@.take(length as int) == seg(
                old(device).media(),
                *snapshot,
            ).subrange(logical_offset as int, logical_offset + length)
        },
{
    let (front, _rest) = buffer.split_at_mut(length);
    let outcome = segment_read(device, snapshot, logical_offset, front);
    proof {
        let f = front@;
        assert(buffer@.take(length as int) =~= f);
    }
    outcome
}

/// The bytes of the segment outside `lo..hi` are as before.
pub open spec fn seg_same_outside(
    before: Seq<Seq<u8>>,
    after: Seq<Seq<u8>>,
    h: SnapshotHeader,
    lo: int,
    hi: int,
) -> bool {
    forall|i: int|
        0 <= i < seg_len(h) && !(lo <= i < hi) ==> #[trigger] seg(after, h)[i] == seg(
            before,
            h,
        )[i]
}

/// The words of the segment outside `lo..hi` are still fresh if they were.
pub open spec fn fresh_same_outside(
    before: Set<(int, int)>,
    after: Set<(int, int)>,
    h: SnapshotHeader,
    lo: int,
    hi: int,
) -> bool {
    forall|w: int|
        0 <= w && 4 * w < seg_len(h) && !(lo <= 4 * w < hi) && #[trigger] word_fresh(before, h, w)
            ==> word_fresh(after, h, w)
}

/// What programming one stretch within a block does to the segment.
proof fn lemma_programmed<D: BlockDevice>(
    d0: D,
    d1: D,
    h: SnapshotHeader,
    at: int,
    data: Seq<u8>,
    ok: bool,
)
    requires
        on_device(d0, h),
        0 <= at,
        at % 4 == 0,
        data.len() % 4 == 0,
        data.len() > 0,
        at + data.len() <= seg_len(h),
        at % (h.block_size as int) + data.len() <= h.block_size,
        d1.geom() == d0.geom(),
        media_shape(d1.media(), d1.geom()),
        forall|b: int, w: int|
            d0.fresh().contains((b, w)) && !(b == block_of(h, at) && at % (h.block_size as int)
                <= 4 * w < at % (h.block_size as int) + data.len()) ==> d1.fresh().contains((b, w)),
        forall|b: int|
            0 <= b < d0.media().len() && b != block_of(h, at) ==> d1.media()[b] == d0.media()[b],
        forall|i: int|
            0 <= i < h.block_size && !(at % (h.block_size as int) <= i < at % (h.block_size as int)
                + data.len()) ==> d1.media()[block_of(h, at)][i] == d0.media()[block_of(h, at)][i],
        ok ==> d1.media() == d0.media().update(
            block_of(h, at),
            overwritten(d0.media()[block_of(h, at)], at % (h.block_size as int), data),
        ),
    ensures
        seg_same_outside(d0.media(), d1.media(), h, at, at + data.len()),
        fresh_same_outside(d0.fresh(), d1.fresh(), h, at, at + data.len()),
        ok ==> seg(d1.media(), h).subrange(at, at + data.len()) == data,
        forall|b: int|
            0 <= b < d0.media().len() && !#[trigger] in_seg(h, b) ==> d1.media()[b]
                == d0.media()[b],
{
    let bs = h.block_size as int;
    let n = data.len() as int;
    let r = lemma_split(h, at);
    lemma_stretch(d0.media(), h, at, n);
    lemma_stretch(d1.media(), h, at, n);
    assert forall|i: int| 0 <= i < seg_len(h) && !(at <= i < at + n) implies #[trigger] seg(
        d1.media(),
        h,
    )[i] == seg(d0.media(), h)[i] by {
        let q = lemma_split(h, i);
        if block_of(h, i) == block_of(h, at) {
            lemma_blocks_differ(h, i, at);
            assert(q.0 == r.0);
        }
    }
    assert forall|w: int|
        0 <= w && 4 * w < seg_len(h) && !(at <= 4 * w < at + n) && #[trigger] word_fresh(
            d0.fresh(),
            h,
            w,
        ) implies word_fresh(d1.fresh(), h, w) by {
        let i = 4 * w;
        let q = lemma_split(h, i);
        let word = (i % bs) / 4;
        lemma_word_aligned(h, i);
        assert(4 * word == i % bs);
        if block_of(h, i) == block_of(h, at) {
            lemma_blocks_differ(h, i, at);
            assert(q.0 == r.0);
        }
    }
    if ok {
        let b = block_of(h, at);
        assert(d1.media()[b].subrange(r.1, r.1 + n) =~= data);
    }
}

/// Words do not straddle blocks.
pub proof fn lemma_word_aligned(h: SnapshotHeader, i: int)
    requires
        h.error() is None,
        geometry_ok(h.geom()),
        0 <= i < seg_len(h),
        i % 4 == 0,
    ensures
        (i % (h.block_size as int)) % 4 == 0,
{
    let bs = h.block_size as int;
    let r = lemma_split(h, i);
    lemma_multiple_of_4(r.0, bs);
}

/// Program a stretch of a segment that lies within one block.
pub(crate) fn program_stretch<D: BlockDevice>(
    device: &mut D,
    snapshot: &SnapshotHeader,
    logical: u32,
    current: &[u8],
) -> (r: Result<(), CommitError<D::Error>>)
    requires
        on_device(*old(device), *snapshot),
        logical % 4 == 0,
        current@.len() % 4 == 0,
        current@.len() > 0,
        logical + current@.len() <= seg_len(*snapshot),
        logical as int % (snapshot.block_size as int) + current@.len() <= snapshot.block_size,
        forall|w: int|
            logical <= 4 * w < logical + current@.len() ==> #[trigger] word_fresh(
                old(device).fresh(),
                *snapshot,
                w,
            ),
    ensures
        programmed(*old(device), *final(device), *snapshot),
        final(device).pending() == old(device).pending().union(
            words(
                block_of(*snapshot, logical as int),
                logical as int % (snapshot.block_size as int),
                logical as int % (snapshot.block_size as int) + current@.len(),
            ),
        ),
        final(device).writes() == old(device).writes().push(
            Write::Program {
                block: block_of(*snapshot, logical as int),
                offset: logical as int % (snapshot.block_size as int),
                bytes: current@,
            },
        ),
        r is Err ==> final(device).fault() == (Fault::Program {
            block: block_of(*snapshot, logical as int) as u32,
            offset: (logical as int % (snapshot.block_size as int)) as u32,
        }),
        honest_commit(r, old(device).faults(), final(device).faults()),
        seg_same_outside(
            old(device).media(),
            final(device).media(),
            *snapshot,
            logical as int,
            logical + current@.len(),
        ),
        fresh_same_outside(
            old(device).fresh(),
            final(device).fresh(),
            *snapshot,
            logical as int,
            logical + current@.len(),
        ),
        explained(r, *final(device), *snapshot),
        r is Ok ==> seg(final(device).media(), *snapshot).subrange(
            logical as int,
            logical + current@.len(),
        ) == current@,
{
    let ghost h = *snapshot;
    let ghost d0 = *device;
    let ghost at = logical as int;
    let ghost n = current@.len() as int;
    let ghost place = lemma_split(h, at);
    proof {
        lemma_seg_len(h);
        lemma_word_aligned(h, at);
    }
    let relative: u32 = logical / snapshot.block_size;
    let block: u32 = wrapped(snapshot.start_block + relative, snapshot.block_count);
    let block_offset: u32 = logical % snapshot.block_size;
    proof {
        lemma_stretch(d0.media(), h, at, n);
        assert forall|w: int| block_offset <= 4 * w < block_offset + n implies d0.fresh().contains(
            (block as int, w),
        ) by {
            let i = at + (4 * w - block_offset);
            assert(i % 4 == 0);
            let g = i / 4;
            assert(block_of(h, i) == block);
            assert(i % (h.block_size as int) == 4 * w);
            assert(word_fresh(d0.fresh(), h, g));
        }
    }
    let outcome = device.program(block, block_offset, current);
    proof {
        lemma_programmed(d0, *device, h, at, current@, outcome is Ok);
        assert(in_seg(h, block as int));
        lemma_wrote_nothing(d0.writes(), h);
        lemma_wrote_more(
            d0.writes(),
            d0.writes(),
            h,
            Write::Program { block: block as int, offset: block_offset as int, bytes: current@ },
        );
    }
    match outcome {
        Ok(()) => Ok(()),
        Err(error) => {
            if device.permanent_block_failure(&error) {
                return Err(CommitError::Block { block, error });
            }
            Err(CommitError::Fatal(Error::Device(error)))
        },
    }
}

/// Two stretches of changes one after the other.
proof fn lemma_compose<D: BlockDevice>(
    d0: D,
    d1: D,
    d2: D,
    h: SnapshotHeader,
    lo: int,
    mid: int,
    hi: int,
)
    requires
        lo <= mid <= hi,
        programmed(d0, d1, h),
        programmed(d1, d2, h),
        media_shape(d0.media(), d0.geom()),
        seg_same_outside(d0.media(), d1.media(), h, lo, mid),
        seg_same_outside(d1.media(), d2.media(), h, mid, hi),
        fresh_same_outside(d0.fresh(), d1.fresh(), h, lo, mid),
        fresh_same_outside(d1.fresh(), d2.fresh(), h, mid, hi),
    ensures
        programmed(d0, d2, h),
        seg_same_outside(d0.media(), d2.media(), h, lo, hi),
        fresh_same_outside(d0.fresh(), d2.fresh(), h, lo, hi),
        0 <= lo && mid <= seg_len(h) ==> seg(d2.media(), h).subrange(lo, mid) == seg(
            d1.media(),
            h,
        ).subrange(lo, mid),
{
    lemma_wrote_trans(d0.writes(), d1.writes(), d2.writes(), h);
    assert forall|i: int| 0 <= i < seg_len(h) && !(lo <= i < hi) implies #[trigger] seg(
        d2.media(),
        h,
    )[i] == seg(d0.media(), h)[i] by {
        assert(seg(d2.media(), h)[i] == seg(d1.media(), h)[i]);
    }
    assert forall|w: int|
        0 <= w && 4 * w < seg_len(h) && !(lo <= 4 * w < hi) && #[trigger] word_fresh(
            d0.fresh(),
            h,
            w,
        ) implies word_fresh(d2.fresh(), h, w) by {
        assert(word_fresh(d1.fresh(), h, w));
    }
    if 0 <= lo && mid <= seg_len(h) {
        let a = seg(d2.media(), h).subrange(lo, mid);
        let b = seg(d1.media(), h).subrange(lo, mid);
        assert forall|i: int| 0 <= i < mid - lo implies a[i] == b[i] by {
            assert(seg(d2.media(), h)[lo + i] == seg(d1.media(), h)[lo + i]);
        }
        assert(a =~= b);
    }
}

/// Program words of a segment.
#[verifier::rlimit(50)]
pub(crate) fn segment_program<D: BlockDevice>(
    device: &mut D,
    snapshot: &SnapshotHeader,
    logical_offset: u32,
    data: &[u8],
) -> (r: Result<(), CommitError<D::Error>>)
    requires
        on_device(*old(device), *snapshot),
        logical_offset % 4 == 0 && data@.len() % 4 == 0 && logical_offset + data@.len() <= seg_len(
            *snapshot,
        ) ==> forall|w: int|
            logical_offset <= 4 * w < logical_offset + data@.len() ==> #[trigger] word_fresh(
                old(device).fresh(),
                *snapshot,
                w,
            ),
    ensures
        programmed(*old(device), *final(device), *snapshot),
        honest_commit(r, old(device).faults(), final(device).faults()),
        seg_same_outside(
            old(device).media(),
            final(device).media(),
            *snapshot,
            logical_offset as int,
            logical_offset + data@.len(),
        ),
        fresh_same_outside(
            old(device).fresh(),
            final(device).fresh(),
            *snapshot,
            logical_offset as int,
            logical_offset + data@.len(),
        ),
        if logical_offset % 4 != 0 || data@.len() % 4 != 0 || logical_offset + data@.len()
            > seg_len(*snapshot) {
            &&& r is Err && r->Err_0 is Fatal && r->Err_0->Fatal_0 is Corrupt
            &&& untouched(*old(device), *final(device))
        } else {
            &&& explained(r, *final(device), *snapshot)
            &&& r is Ok ==> seg(final(device).media(), *snapshot).subrange(
                logical_offset as int,
                logical_offset + data@.len(),
            ) == data@
        },
{
    let ghost h = *snapshot;
    let ghost lo = logical_offset as int;
    let ghost d0 = *device;
    proof {
        lemma_seg_len(h);
        lemma_wrote_nothing(d0.writes(), h);
    }
    let total: usize = data.len();
    if logical_offset % 4 != 0 || total % 4 != 0 || total > u32::MAX as usize {
        return Err(CommitError::Fatal(Error::Corrupt));
    }
    let end: u32 = match logical_offset.checked_add(total as u32) {
        Some(end) => end,
        None => return Err(CommitError::Fatal(Error::Corrupt)),
    };
    let segment_len: u32 = snapshot.block_span * snapshot.block_size;
    if end > segment_len {
        return Err(CommitError::Fatal(Error::Corrupt));
    }
    let mut done: usize = 0;
    assert(seg(device.media(), h).subrange(lo, lo) =~= data@.take(0));
    while done < total
        invariant
            h == *snapshot,
            d0 == *old(device),
            on_device(d0, h),
            on_device(*device, h),
            programmed(d0, *device, h),
            device.faults() == d0.faults(),
            lo == logical_offset,
            lo % 4 == 0,
            total == data@.len(),
            total % 4 == 0,
            done % 4 == 0,
            done <= total,
            lo + total <= seg_len(h) <= u32::MAX,
            seg_same_outside(d0.media(), device.media(), h, lo, lo + done),
            fresh_same_outside(d0.fresh(), device.fresh(), h, lo, lo + done),
            seg(device.media(), h).subrange(lo, lo + done) == data@.take(done as int),
            forall|w: int|
                lo <= 4 * w < lo + total ==> #[trigger] word_fresh(d0.fresh(), h, w),
        decreases total - done,
    {
        let logical: u32 = logical_offset + done as u32;
        let ghost at = logical as int;
        let ghost place = lemma_split(h, at);
        proof {
            lemma_word_aligned(h, at);
        }
        let block_offset: u32 = logical % snapshot.block_size;
        let available: usize = (snapshot.block_size - block_offset) as usize;
        let remaining: usize = total - done;
        let amount: usize = if remaining < available {
            remaining
        } else {
            available
        };
        let current: &[u8] = &data[done..done + amount];
        let ghost d1 = *device;
        assert forall|w: int| at <= 4 * w < at + amount implies #[trigger] word_fresh(
            d1.fresh(),
            h,
            w,
        ) by {
            assert(word_fresh(d0.fresh(), h, w));
        }
        let outcome = program_stretch(device, snapshot, logical, current);
        proof {
            lemma_compose(d0, d1, *device, h, lo, lo + done, lo + done + amount);
        }
        match outcome {
            Ok(()) => {},
            Err(error) => {
                assert(seg_same_outside(d0.media(), device.media(), h, lo, lo + total));
                return Err(error);
            },
        }
        proof {
            let s2 = seg(device.media(), h);
            assert(s2.subrange(lo, lo + done + amount) =~= s2.subrange(lo, lo + done)
                + s2.subrange(at, at + amount));
            assert(data@.take(done + amount) =~= data@.take(done as int) + current@);
        }
        done += amount;
    }
    assert(data@.take(done as int) =~= data@);
    Ok(())
}

/// Every byte of the segment is erased and every word may be programmed.
pub open spec fn seg_erased<D: BlockDevice>(device: D, h: SnapshotHeader) -> bool {
    &&& forall|i: int|
        0 <= i < seg_len(h) ==> #[trigger] seg(device.media(), h)[i] == ERASED_BYTE
    &&& forall|w: int|
        0 <= w && 4 * w < seg_len(h) ==> #[trigger] word_fresh(device.fresh(), h, w)
}

/// The blocks of the segment, from its first one on.
pub open spec fn run_of(h: SnapshotHeader) -> Seq<int> {
    Seq::new(h.block_span as nat, |k: int| wrap(h.start_block + k, h.block_count as int))
}

/// The run of a segment goes through each of its blocks once, and through no other.
pub proof fn law_runs_visit_blocks_once(h: SnapshotHeader)
    requires
        h.error() is None,
        geometry_ok(h.geom()),
    ensures
        run_of(h).no_duplicates(),
        forall|b: int| #[trigger] run_of(h).contains(b) <==> in_seg(h, b),
{
    let run = run_of(h);
    lemma_seg_len(h);
    assert forall|b: int| #[trigger] run.contains(b) <==> in_seg(h, b) by {
        if run.contains(b) {
            let k = choose|k: int| 0 <= k < run.len() && run[k] == b;
            assert(wrap(h.start_block + k, h.block_count as int) == b);
        }
        if in_seg(h, b) {
            let k = choose|k: int|
                0 <= k < h.block_span && #[trigger] wrap(h.start_block + k, h.block_count as int)
                    == b;
            assert(run[k] == b);
        }
    }
}

/// Erase all blocks of a segment.
pub(crate) fn segment_erase<D: BlockDevice>(device: &mut D, snapshot: &SnapshotHeader) -> (r:
    Result<(), CommitError<D::Error>>)
    requires
        on_device(*old(device), *snapshot),
    ensures
        spared(*old(device), *final(device), *snapshot),
        honest_commit(r, old(device).faults(), final(device).faults()),
        explained(r, *final(device), *snapshot),
        r is Ok ==> seg_erased(*final(device), *snapshot),
        r is Ok ==> final(device).erased() == old(device).erased() + run_of(*snapshot),
        final(device).writes() == old(device).writes(),
        exists|k: int|
            1 <= k <= snapshot.block_span && final(device).erased() == old(device).erased()
                + #[trigger] run_of(*snapshot).take(k),
        final(device).pending().contains((snapshot.start_block as int, 0)),
        final(device).torn().contains(snapshot.start_block as int) || forall|i: int|
            0 <= i < snapshot.block_size ==> final(device).media()[snapshot.start_block as int][i]
                == ERASED_BYTE,
{
    let ghost h = *snapshot;
    let ghost d0 = *device;
    proof {
        lemma_seg_len(h);
    }
    let mut relative: u32 = 0;
    assert(d0.erased() + run_of(h).take(0) =~= d0.erased());
    while relative < snapshot.block_span
        invariant
            h == *snapshot,
            d0 == *old(device),
            on_device(d0, h),
            on_device(*device, h),
            spared(d0, *device, h),
            device.erased() == d0.erased() + run_of(h).take(relative as int),
            device.writes() == d0.writes(),
            relative > 0 ==> device.pending().contains((h.start_block as int, 0)),
            device.faults() == d0.faults(),
            relative <= h.block_span,
            1 <= h.block_span <= h.block_count / 2,
            relative > 0 ==> forall|i: int|
                0 <= i < h.block_size ==> device.media()[h.start_block as int][i] == ERASED_BYTE,
            forall|k: int, i: int|
                #![trigger wrap(h.start_block + k, h.block_count as int), device.media()[wrap(
                    h.start_block + k,
                    h.block_count as int,
                )][i]]
                0 <= k < relative && 0 <= i < h.block_size ==> device.media()[wrap(
                    h.start_block + k,
                    h.block_count as int,
                )][i] == ERASED_BYTE,
            forall|k: int, w: int|
                #![trigger device.fresh().contains((wrap(h.start_block + k, h.block_count as int), w))]
                0 <= k < relative && 0 <= 4 * w < h.block_size ==> device.fresh().contains(
                    (wrap(h.start_block + k, h.block_count as int), w),
                ),
        decreases snapshot.block_span - relative,
    {
        let block: u32 = wrapped(snapshot.start_block + relative, snapshot.block_count);
        let ghost d1 = *device;
        proof {
            assert(wrap(h.start_block + relative as int, h.block_count as int) == block);
            assert(in_seg(h, block as int));
        }
        let outcome = device.erase(block);
        proof {
            let run = run_of(h);
            assert(run[relative as int] == block);
            assert(d0.erased() + run.take(relative + 1) =~= (d0.erased() + run.take(
                relative as int,
            )).push(block as int));
            assert(relative == 0 ==> device.pending().contains((h.start_block as int, 0)));
        }
        match outcome {
            Ok(()) => {},
            Err(error) => {
                if device.permanent_block_failure(&error) {
                    return Err(CommitError::Block { block, error });
                }
                return Err(CommitError::Fatal(Error::Device(error)));
            },
        }
        proof {
            assert forall|k: int, i: int|
                #![trigger wrap(h.start_block + k, h.block_count as int), device.media()[wrap(
                    h.start_block + k,
                    h.block_count as int,
                )][i]]
                0 <= k < relative + 1 && 0 <= i < h.block_size implies device.media()[wrap(
                h.start_block + k,
                h.block_count as int,
            )][i] == ERASED_BYTE by {
                if k < relative {
                    assert(wrap(h.start_block + k, h.block_count as int) != block);
                    assert(d1.media()[wrap(h.start_block + k, h.block_count as int)][i]
                        == ERASED_BYTE);
                }
            }
            assert forall|k: int, w: int|
                #![trigger device.fresh().contains((wrap(h.start_block + k, h.block_count as int), w))]
                0 <= k < relative + 1 && 0 <= 4 * w < h.block_size implies device.fresh().contains(
                (wrap(h.start_block + k, h.block_count as int), w),
            ) by {
                if k < relative {
                    assert(wrap(h.start_block + k, h.block_count as int) != block);
                    assert(d1.fresh().contains((wrap(h.start_block + k, h.block_count as int), w)));
                }
            }
        }
        relative += 1;
    }
    proof {
        assert(run_of(h).take(relative as int) =~= run_of(h));
        assert forall|i: int| 0 <= i < seg_len(h) implies #[trigger] seg(device.media(), h)[i]
            == ERASED_BYTE by {
            let q = lemma_split(h, i);
            assert(device.media()[wrap(h.start_block + q.0, h.block_count as int)][q.1]
                == ERASED_BYTE);
        }
        assert forall|w: int| 0 <= w && 4 * w < seg_len(h) implies #[trigger] word_fresh(
            device.fresh(),
            h,
            w,
        ) by {
            let q = lemma_split(h, 4 * w);
            lemma_word_aligned(h, 4 * w);
            assert(device.fresh().contains(
                (wrap(h.start_block + q.0, h.block_count as int), q.1 / 4),
            ));
        }
    }
    Ok(())
}

/// A segment that shares no block with the one that was written has kept its
/// bytes.
pub proof fn lemma_spared_seg<D: BlockDevice>(
    before: D,
    after: D,
    written: SnapshotHeader,
    other: SnapshotHeader,
)
    requires
        on_device(before, other),
        written.block_count == other.block_count,
        spared(before, after, written),
        forall|b: int| #[trigger] in_seg(other, b) ==> !in_seg(written, b),
    ensures
        seg(after.media(), other) == seg(before.media(), other),
{
    let a = seg(after.media(), other);
    let b = seg(before.media(), other);
    assert forall|i: int| 0 <= i < seg_len(other) implies a[i] == b[i] by {
        let q = lemma_split(other, i);
        assert(in_seg(other, block_of(other, i)));
    }
    assert(a =~= b);
}

} // verus!
