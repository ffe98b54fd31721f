//! Allocation-free on-disk primitives of the snapshot filesystem: the
//! block-device contract, the CRC, the fixed-width codecs and the checked
//! layout arithmetic.

use vstd::prelude::*;

verus! {

/// A device program operation is aligned to this many bytes.
pub const PROGRAM_SIZE: usize = 4;

/// The erased value of every byte exposed by a [`BlockDevice`].
pub const ERASED_BYTE: u8 = 0xff;

/// The erased value of one program word.
pub const ERASED_WORD: u32 = 0xffff_ffff;

/// Snapshot magic (`RFS1` when viewed as bytes).
pub const MAGIC: u32 = 0x3153_4652;

/// Alias that makes the kind of [`MAGIC`] explicit at call sites.
pub const SNAPSHOT_MAGIC: u32 = MAGIC;

/// On-disk format version 1.0.
pub const DISK_VERSION: u32 = 0x0001_0000;

/// The word programmed last to make a snapshot visible to recovery.
pub const COMMIT_MARKER: u32 = 0xc35a_6f91;

/// Encoded snapshot-header size.
pub const HEADER_SIZE: usize = 64;

/// Number of bytes covered by the snapshot-header CRC.
pub const HEADER_CRC_OFFSET: usize = 56;

/// Offset of the header CRC in an encoded snapshot header.
pub const HEADER_CRC_FIELD_OFFSET: usize = HEADER_CRC_OFFSET;

/// Offset of the independently programmed commit word.
pub const COMMIT_OFFSET: usize = 60;

/// Number of bytes written before the independent commit word.
pub const SNAPSHOT_PREFIX_SIZE: usize = COMMIT_OFFSET;

/// Record magic (`FILE` when viewed as bytes).
pub const RECORD_MAGIC: u32 = 0x454c_4946;

/// Encoded record-header size.
pub const RECORD_HEADER_SIZE: usize = 20;

/// Maximum canonical root-relative UTF-8 path length in bytes.
pub const MAX_NAME_LEN: usize = 63;

/// Maximum number of entries of one snapshot.
pub const MAX_FILES: u32 = 32;

/// Maximum number of file and directory entries in one snapshot.
pub const MAX_ENTRIES: u32 = MAX_FILES;

/// Feature bits understood by this format version.
pub const SUPPORTED_FEATURES: u32 = 0;

/// Record flag identifying a directory entry.
pub const RECORD_FLAG_DIRECTORY: u16 = 1;

/// Record flag bits understood by this format version.
pub const SUPPORTED_RECORD_FLAGS: u16 = RECORD_FLAG_DIRECTORY;

/// Largest block count whose erase counters one snapshot can carry.
pub const MAX_WEAR_BLOCKS: usize = 64;

/// Size of the largest encoded wear table.
pub const MAX_WEAR_TABLE_SIZE: usize = 128;

/// Wear-entry flag of a block that must never be used again.
pub const WEAR_BAD_BIT: u16 = 0x8000;

/// Wear-entry bits that hold the erase counter.
pub const WEAR_COUNT_MASK: u16 = 0x7fff;

/// CRC-32/MPEG-2 polynomial (`x^32 + ... + 1`).
pub const CRC32_MPEG2_POLYNOMIAL: u32 = 0x04c1_1db7;

/// CRC-32/MPEG-2 initial state.
pub const CRC32_MPEG2_INITIAL: u32 = 0xffff_ffff;

// ---------------------------------------------------------------------------
// Little-endian words
// ---------------------------------------------------------------------------

/// The two bytes of `v`, least significant first.
pub open spec fn le16(v: u16) -> Seq<u8> {
    seq![(v % 256) as u8, (v / 256) as u8]
}

/// The four bytes of `v`, least significant first.
pub open spec fn le32(v: u32) -> Seq<u8> {
    seq![
        (v % 256) as u8,
        (v / 256 % 256) as u8,
        (v / 65536 % 256) as u8,
        (v / 16777216) as u8,
    ]
}

/// The little-endian half word at byte `o` of `b`.
pub open spec fn u16_at(b: Seq<u8>, o: int) -> u16 {
    (b[o] + 256 * b[o + 1]) as u16
}

/// The little-endian word at byte `o` of `b`.
pub open spec fn u32_at(b: Seq<u8>, o: int) -> u32 {
    (b[o] + 256 * b[o + 1] + 65536 * b[o + 2] + 16777216 * b[o + 3]) as u32
}

/// A word survives encoding and decoding, and its bytes are determined by it.
pub proof fn law_le32_round_trip(b: Seq<u8>, o: int, v: u32)
    requires
        0 <= o,
        o + 4 <= b.len(),
    ensures
        b.subrange(o, o + 4) == le32(v) <==> u32_at(b, o) == v,
        le32(u32_at(b, o)) == b.subrange(o, o + 4),
{
    let s = b.subrange(o, o + 4);
    lemma_word_bytes(b[o], b[o + 1], b[o + 2], b[o + 3]);
    assert(le32(u32_at(b, o)) =~= s);
    if s == le32(v) {
        lemma_bytes_word(v);
        assert(s[0] == b[o] && s[1] == b[o + 1] && s[2] == b[o + 2] && s[3] == b[o + 3]);
    }
}

proof fn lemma_word_bytes(b0: u8, b1: u8, b2: u8, b3: u8)
    ensures
        ({
            let v = (b0 + 256 * b1 + 65536 * b2 + 16777216 * b3) as u32;
            &&& v == b0 + 256 * b1 + 65536 * b2 + 16777216 * b3
            &&& v % 256 == b0
            &&& v / 256 % 256 == b1
            &&& v / 65536 % 256 == b2
            &&& v / 16777216 == b3
        }),
{
    let v = b0 + 256 * b1 + 65536 * b2 + 16777216 * b3;
    assert(v / 256 == b1 + 256 * b2 + 65536 * b3);
    assert(v / 65536 == b2 + 256 * b3);
    assert(v / 16777216 == b3);
}

proof fn lemma_bytes_word(v: u32)
    ensures
        v == v % 256 + 256 * (v / 256 % 256) + 65536 * (v / 65536 % 256) + 16777216 * (v
            / 16777216),
{
    assert(v == 256 * (v / 256) + v % 256);
    assert(v / 256 == 256 * (v / 65536) + v / 256 % 256);
    assert(v / 65536 == 256 * (v / 16777216) + v / 65536 % 256);
}

/// A half word survives encoding and decoding, and its bytes are determined by
/// it.
pub proof fn law_le16_round_trip(b: Seq<u8>, o: int, v: u16)
    requires
        0 <= o,
        o + 2 <= b.len(),
    ensures
        b.subrange(o, o + 2) == le16(v) <==> u16_at(b, o) == v,
        le16(u16_at(b, o)) == b.subrange(o, o + 2),
{
    let s = b.subrange(o, o + 2);
    assert(s[0] == b[o] && s[1] == b[o + 1]);
    assert(le16(u16_at(b, o)) =~= s);
}

pub(crate) fn read_u16(bytes: &[u8], offset: usize) -> (r: u16)
    requires
        offset + 2 <= bytes@.len(),
    ensures
        r == u16_at(bytes@, offset as int),
{
    bytes[offset] as u16 + 256 * (bytes[offset + 1] as u16)
}

pub(crate) fn read_u32(bytes: &[u8], offset: usize) -> (r: u32)
    requires
        offset + 4 <= bytes@.len(),
    ensures
        r == u32_at(bytes@, offset as int),
{
    bytes[offset] as u32 + 256 * (bytes[offset + 1] as u32) + 65536 * (bytes[offset + 2] as u32)
        + 16777216 * (bytes[offset + 3] as u32)
}

pub(crate) fn write_u16(bytes: &mut [u8], offset: usize, value: u16)
    requires
        offset + 2 <= old(bytes)@.len(),
    ensures
        final(bytes)@.len() == old(bytes)@.len(),
        final(bytes)@ == old(bytes)@.subrange(0, offset as int) + le16(value)
            + old(bytes)@.subrange(offset + 2, old(bytes)@.len() as int),
{
    bytes[offset] = (value % 256) as u8;
    bytes[offset + 1] = (value / 256) as u8;
}

pub(crate) fn write_u32(bytes: &mut [u8], offset: usize, value: u32)
    requires
        offset + 4 <= old(bytes)@.len(),
    ensures
        final(bytes)@.len() == old(bytes)@.len(),
        u32_at(final(bytes)@, offset as int) == value,
        forall|i: int|
            0 <= i < old(bytes)@.len() && !(offset <= i < offset + 4) ==> final(bytes)@[i]
                == old(bytes)@[i],
{
    bytes[offset] = (value % 256) as u8;
    bytes[offset + 1] = (value / 256 % 256) as u8;
    bytes[offset + 2] = (value / 65536 % 256) as u8;
    bytes[offset + 3] = (value / 16777216) as u8;
}

// ---------------------------------------------------------------------------
// CRC-32/MPEG-2
// ---------------------------------------------------------------------------

/// One shift of the CRC register: the polynomial is subtracted when the bit
/// that leaves the register is set.
pub open spec fn crc_shift(state: u32) -> u32 {
    if state & 0x8000_0000 != 0 {
        (state << 1) ^ CRC32_MPEG2_POLYNOMIAL
    } else {
        state << 1
    }
}

/// `n` shifts of the CRC register.
pub open spec fn crc_shifts(state: u32, n: nat) -> u32
    decreases n,
{
    if n == 0 {
        state
    } else {
        crc_shift(crc_shifts(state, (n - 1) as nat))
    }
}

/// The register after one more message byte, most significant bit first.
pub open spec fn crc_byte(state: u32, byte: u8) -> u32 {
    crc_shifts(state ^ ((byte as u32) << 24u32), 8)
}

/// The register after the message `bytes`, starting from `state`.
pub open spec fn crc_from(state: u32, bytes: Seq<u8>) -> u32
    decreases bytes.len(),
{
    if bytes.len() == 0 {
        state
    } else {
        crc_byte(crc_from(state, bytes.drop_last()), bytes.last())
    }
}

/// CRC-32/MPEG-2 of a whole message.
pub open spec fn crc_of(bytes: Seq<u8>) -> u32 {
    crc_from(CRC32_MPEG2_INITIAL, bytes)
}

/// The CRC is incremental: a message may be fed in any two parts.
pub proof fn law_crc_incremental(state: u32, a: Seq<u8>, b: Seq<u8>)
    ensures
        crc_from(crc_from(state, a), b) == crc_from(state, a + b),
    decreases b.len(),
{
    if b.len() == 0 {
        assert(a + b =~= a);
    } else {
        law_crc_incremental(state, a, b.drop_last());
        assert((a + b).drop_last() =~= a + b.drop_last());
        assert((a + b).last() == b.last());
    }
}

/// Incremental CRC-32/MPEG-2 calculator.
///
/// The algorithm is non-reflected and has no final XOR, matching the HC32F460
/// CRC peripheral's `crc32_mpeg2` configuration.
#[derive(Clone, Copy, Debug, PartialEq, Eq)]
pub struct Crc32Mpeg2 {
    pub(crate) state: u32,
}

impl View for Crc32Mpeg2 {
    type V = u32;

    closed spec fn view(&self) -> u32 {
        self.state
    }
}

impl Crc32Mpeg2 {
    pub fn new() -> (r: Self)
        ensures
            r@ == CRC32_MPEG2_INITIAL,
    {
        Self { state: CRC32_MPEG2_INITIAL }
    }

    /// Continue from a previously saved raw CRC state.
    pub fn from_state(state: u32) -> (r: Self)
        ensures
            r@ == state,
    {
        Self { state }
    }

    pub fn update(&mut self, bytes: &[u8])
        ensures
            final(self)@ == crc_from(old(self)@, bytes@),
    {
        self.state = crc32_mpeg2_update(self.state, bytes);
    }

    /// Return the current raw state. CRC-32/MPEG-2 has no final transform.
    pub fn value(&self) -> (r: u32)
        ensures
            r == self@,
    {
        self.state
    }

    pub fn finalize(self) -> (r: u32)
        ensures
            r == self@,
    {
        self.state
    }

    pub fn reset(&mut self)
        ensures
            final(self)@ == CRC32_MPEG2_INITIAL,
    {
        self.state = CRC32_MPEG2_INITIAL;
    }
}

impl Default for Crc32Mpeg2 {
    fn default() -> (r: Self)
        ensures
            r@ == CRC32_MPEG2_INITIAL,
    {
        Self::new()
    }
}

/// Continue a CRC-32/MPEG-2 calculation from `state`.
pub fn crc32_mpeg2_update(state: u32, bytes: &[u8]) -> (r: u32)
    ensures
        r == crc_from(state, bytes@),
{
    let mut crc: u32 = state;
    let mut index: usize = 0;
    while index < bytes.len()
        invariant
            index <= bytes@.len(),
            crc == crc_from(state, bytes@.take(index as int)),
        decreases bytes@.len() - index,
    {
        let ghost before = crc;
        let ghost seed = before ^ ((bytes@[index as int] as u32) << 24u32);
        crc = crc ^ ((bytes[index] as u32) << 24u32);
        let mut bit: u32 = 0;
        while bit < 8
            invariant
                bit <= 8,
                crc == crc_shifts(seed, bit as nat),
            decreases 8 - bit,
        {
            crc = if crc & 0x8000_0000 != 0 {
                (crc << 1) ^ CRC32_MPEG2_POLYNOMIAL
            } else {
                crc << 1
            };
            bit += 1;
        }
        proof {
            let next = bytes@.take(index + 1);
            assert(next.drop_last() =~= bytes@.take(index as int));
            assert(next.last() == bytes@[index as int]);
        }
        index += 1;
    }
    assert(bytes@.take(index as int) =~= bytes@);
    crc
}

/// Calculate CRC-32/MPEG-2 in one call.
pub fn crc32_mpeg2(bytes: &[u8]) -> (r: u32)
    ensures
        r == crc_of(bytes@),
{
    crc32_mpeg2_update(CRC32_MPEG2_INITIAL, bytes)
}

// ---------------------------------------------------------------------------
// Geometry and the block device
// ---------------------------------------------------------------------------

/// Runtime geometry reported by a block device.
#[derive(Clone, Copy, Debug, PartialEq, Eq, Structural)]
pub struct Geometry {
    pub block_size: u32,
    pub block_count: u32,
}

impl Geometry {
    pub fn new(block_size: u32, block_count: u32) -> (r: Self)
        ensures
            r == (Geometry { block_size, block_count }),
    {
        Self { block_size, block_count }
    }
}

/// `media` consists of `geometry.block_count` blocks of `geometry.block_size`
/// bytes.
pub open spec fn media_shape(media: Seq<Seq<u8>>, geometry: Geometry) -> bool {
    &&& media.len() == geometry.block_count
    &&& forall|b: int|
        0 <= b < media.len() ==> (#[trigger] media[b]).len() == geometry.block_size
}

/// `block` with `data` written over it from byte `offset` on.
pub open spec fn overwritten(block: Seq<u8>, offset: int, data: Seq<u8>) -> Seq<u8> {
    block.subrange(0, offset) + data + block.subrange(offset + data.len(), block.len() as int)
}

/// The words of a block that lie in bytes `from..to`.
pub open spec fn words(block: int, from: int, to: int) -> Set<(int, int)> {
    Set::new(|p: (int, int)| p.0 == block && from <= 4 * p.1 < to)
}

/// An operation of a block device that failed.
#[derive(Clone, Copy, Debug, PartialEq, Eq, Structural)]
pub enum Fault {
    /// None has failed so far.
    Nothing,
    Read,
    Program { block: u32, offset: u32 },
    Erase { block: u32 },
    Sync,
}

/// A step of writing to a block device.
pub enum Write {
    /// These bytes were to be programmed.
    Program { block: int, offset: int, bytes: Seq<u8> },
    /// Everything before was made durable.
    Sync,
}

/// Storage operations required by the filesystem facade.
///
/// `media` is what reads return, and what `sync` makes durable. `fresh` holds the
/// `(block, word)` pairs that were erased and not programmed since, `pending` those that
/// were erased or programmed since the last successful `sync`, `torn` the blocks whose
/// last erase failed, `erased` all blocks that were to be erased, one after the other, and
/// `writes` all that was to be programmed, and when that was made durable. `faults` counts the operations that failed, and `fault` is the last of them.
/// Implementations must uphold all of the following rules:
///
/// - The geometry is stable for the lifetime of a mount.
/// - A block is erased to all `0xff`; `erase` operates on exactly one block.
/// - `read` stays within one block but may use any byte offset and length.
/// - `program` stays within one block. Its offset and length are multiples of
///   [`PROGRAM_SIZE`], and it never performs an implicit read-modify-write.
/// - Each 4-byte word passed to `program` is still erased and is programmed at
///   most once between erases. Retrying a possibly completed word is forbidden.
/// - Returning `Ok(())` from `program` means every requested word is complete.
///   Power loss or an error may instead leave the requested words torn.
/// - Successful `sync` makes all preceding operations durable and visible to
///   subsequent reads. If power is lost before that, the words that are pending may hold
///   anything afterwards; see [`may_survive`].
/// - As long as power is not lost, reads see what was done before `sync` too. Mounting a
///   device again after a failed operation relies on that.
///
/// No method promises to succeed.
pub trait BlockDevice: Sized {
    type Error;

    /// Size and number of the blocks.
    closed spec fn geom(&self) -> Geometry {
        arbitrary()
    }

    /// What a read returns, block by block.
    closed spec fn media(&self) -> Seq<Seq<u8>> {
        arbitrary()
    }

    /// The words that were erased and not programmed since.
    closed spec fn fresh(&self) -> Set<(int, int)> {
        arbitrary()
    }

    /// The words that were erased or programmed and are not known to be durable yet.
    closed spec fn pending(&self) -> Set<(int, int)> {
        arbitrary()
    }

    /// The blocks whose last erase failed: they may hold anything.
    closed spec fn torn(&self) -> Set<int> {
        arbitrary()
    }

    /// The blocks that were to be erased, in this order.
    closed spec fn erased(&self) -> Seq<int> {
        arbitrary()
    }

    /// The calls of `program`, and the successful ones of `sync`, in this order.
    closed spec fn writes(&self) -> Seq<Write> {
        arbitrary()
    }

    /// How many operations have failed so far.
    closed spec fn faults(&self) -> nat {
        arbitrary()
    }

    /// The operation that failed last.
    closed spec fn fault(&self) -> Fault {
        arbitrary()
    }

    /// Whether this error means that the block itself is worn out, with power and bus
    /// intact.
    closed spec fn worn_out(&self, error: Self::Error) -> bool {
        arbitrary()
    }

    fn block_size(&self) -> (r: u32)
        ensures
            r == self.geom().block_size,
            media_shape(self.media(), self.geom()),
    ;

    fn block_count(&self) -> (r: u32)
        ensures
            r == self.geom().block_count,
            media_shape(self.media(), self.geom()),
    ;

    fn read(&mut self, block: u32, offset: u32, bytes: &mut [u8]) -> (r: Result<(), Self::Error>)
        requires
            block < old(self).geom().block_count,
            offset + old(bytes)@.len() <= old(self).geom().block_size,
        ensures
            final(self).geom() == old(self).geom(),
            final(self).media() == old(self).media(),
            final(self).fresh() == old(self).fresh(),
            final(self).pending() == old(self).pending(),
            final(self).torn() == old(self).torn(),
            final(self).erased() == old(self).erased(),
            final(self).writes() == old(self).writes(),
            final(bytes)@.len() == old(bytes)@.len(),
            r is Ok ==> final(self).faults() == old(self).faults() && final(self).fault() == old(
                self,
            ).fault() && final(bytes)@ == old(self).media()[block as int].subrange(
                offset as int,
                offset + old(bytes)@.len(),
            ),
            r is Err ==> final(self).faults() == old(self).faults() + 1 && final(self).fault()
                == Fault::Read,
    ;

    fn program(&mut self, block: u32, offset: u32, bytes: &[u8]) -> (r: Result<(), Self::Error>)
        requires
            block < old(self).geom().block_count,
            offset % 4 == 0,
            bytes@.len() % 4 == 0,
            offset + bytes@.len() <= old(self).geom().block_size,
            forall|w: int|
                offset <= 4 * w < offset + bytes@.len() ==> old(self).fresh().contains(
                    (block as int, w),
                ),
        ensures
            final(self).geom() == old(self).geom(),
            media_shape(final(self).media(), final(self).geom()),
            final(self).torn() == old(self).torn(),
            final(self).erased() == old(self).erased(),
            final(self).writes() == old(self).writes().push(
                Write::Program { block: block as int, offset: offset as int, bytes: bytes@ },
            ),
            final(self).pending() == old(self).pending().union(
                words(block as int, offset as int, offset + bytes@.len()),
            ),
            forall|b: int, w: int|
                old(self).fresh().contains((b, w)) && !(b == block && offset <= 4 * w < offset
                    + bytes@.len()) ==> final(self).fresh().contains((b, w)),
            r is Ok ==> final(self).faults() == old(self).faults() && final(self).fault() == old(
                self,
            ).fault() && final(self).media() == old(self).media().update(
                block as int,
                overwritten(old(self).media()[block as int], offset as int, bytes@),
            ),
            r is Err ==> final(self).faults() == old(self).faults() + 1 && final(self).fault() == (
            Fault::Program { block, offset }),
            forall|b: int|
                0 <= b < old(self).media().len() && b != block ==> final(self).media()[b] == old(
                    self,
                ).media()[b],
            forall|i: int|
                0 <= i < old(self).geom().block_size && !(offset <= i < offset + bytes@.len())
                    ==> final(self).media()[block as int][i] == old(self).media()[block as int][i],
    ;

    fn erase(&mut self, block: u32) -> (r: Result<(), Self::Error>)
        requires
            block < old(self).geom().block_count,
        ensures
            final(self).geom() == old(self).geom(),
            media_shape(final(self).media(), final(self).geom()),
            final(self).erased() == old(self).erased().push(block as int),
            final(self).writes() == old(self).writes(),
            final(self).pending() == old(self).pending().union(
                words(block as int, 0, old(self).geom().block_size as int),
            ),
            forall|b: int, w: int|
                old(self).fresh().contains((b, w)) && b != block ==> final(self).fresh().contains(
                    (b, w),
                ),
            r is Ok ==> final(self).faults() == old(self).faults() && final(self).fault() == old(
                self,
            ).fault() && (forall|i: int|
                0 <= i < old(self).geom().block_size ==> final(self).media()[block as int][i]
                    == ERASED_BYTE) && (forall|w: int|
                0 <= 4 * w < old(self).geom().block_size ==> final(self).fresh().contains(
                    (block as int, w),
                )),
            r is Ok ==> final(self).torn() == old(self).torn().remove(block as int),
            r is Err ==> final(self).faults() == old(self).faults() + 1 && final(self).fault() == (
            Fault::Erase { block }),
            r is Err ==> final(self).torn() == old(self).torn().insert(block as int),
            forall|b: int|
                0 <= b < old(self).media().len() && b != block ==> final(self).media()[b] == old(
                    self,
                ).media()[b],
    ;

    fn sync(&mut self) -> (r: Result<(), Self::Error>)
        ensures
            final(self).geom() == old(self).geom(),
            final(self).media() == old(self).media(),
            final(self).fresh() == old(self).fresh(),
            final(self).torn() == old(self).torn(),
            final(self).erased() == old(self).erased(),
            r is Ok ==> final(self).faults() == old(self).faults() && final(self).fault() == old(
                self,
            ).fault() && final(self).pending() == Set::<(int, int)>::empty() && final(self).writes()
                == old(self).writes().push(Write::Sync),
            r is Err ==> final(self).faults() == old(self).faults() + 1 && final(self).fault()
                == Fault::Sync && final(self).pending() == old(self).pending() && final(self).writes()
                == old(self).writes(),
    ;

    /// Whether `error` means that the block itself is worn out, with power and
    /// bus intact. Only such a block may be marked bad and avoided.
    fn permanent_block_failure(&self, error: &Self::Error) -> (r: bool)
        ensures
            r == self.worn_out(*error),
    ;

    fn geometry(&self) -> (r: Geometry)
        ensures
            r == self.geom(),
            media_shape(self.media(), self.geom()),
    {
        Geometry::new(self.block_size(), self.block_count())
    }
}

/// What the medium may hold once power was lost: every word that is not pending is as it
/// was.
pub open spec fn may_survive<D: BlockDevice>(device: D, media: Seq<Seq<u8>>) -> bool {
    &&& media_shape(media, device.geom())
    &&& forall|b: int, i: int|
        #![trigger media[b][i]]
        0 <= b < media.len() && 0 <= i < device.geom().block_size && !device.pending().contains(
            (b, i / 4),
        ) ==> media[b][i] == device.media()[b][i]
}

/// With nothing pending, a power loss changes nothing.
pub proof fn law_synced_media_survive<D: BlockDevice>(device: D, media: Seq<Seq<u8>>)
    requires
        media_shape(device.media(), device.geom()),
        device.pending() == Set::<(int, int)>::empty(),
    ensures
        may_survive(device, media) <==> media == device.media(),
{
    if may_survive(device, media) {
        assert forall|b: int| 0 <= b < media.len() implies media[b] == device.media()[b] by {
            assert(media[b] =~= device.media()[b]);
        }
        assert(media =~= device.media());
    }
}

// ---------------------------------------------------------------------------
// Layout arithmetic
// ---------------------------------------------------------------------------

/// `n` rounded up to a multiple of the program size.
pub open spec fn pad4(n: int) -> int {
    (n + 3) / 4 * 4
}

/// Padded length of a record with a name of `name_len` and `data_len` bytes.
pub open spec fn record_len_of(name_len: int, data_len: int) -> int {
    pad4(20 + name_len + data_len)
}

/// Number of blocks that hold a header and `payload_len` bytes.
pub open spec fn span_of(payload_len: int, block_size: int) -> int {
    (64 + payload_len) / block_size + if (64 + payload_len) % block_size == 0 {
        0int
    } else {
        1
    }
}

/// `span_of` is the least number of blocks that is large enough.
pub proof fn law_span_is_least(payload_len: int, block_size: int)
    requires
        payload_len >= 0,
        block_size > 0,
    ensures
        64 + payload_len <= span_of(payload_len, block_size) * block_size,
        (span_of(payload_len, block_size) - 1) * block_size < 64 + payload_len,
        span_of(payload_len, block_size) >= 1,
{
    let t = 64 + payload_len;
    let q = t / block_size;
    let r = t % block_size;
    vstd::arithmetic::div_mod::lemma_fundamental_div_mod(t, block_size);
    vstd::arithmetic::div_mod::lemma_mod_bound(t, block_size);
    vstd::arithmetic::div_mod::lemma_div_pos_is_pos(t, block_size);
    vstd::arithmetic::mul::lemma_mul_is_commutative(block_size, q);
    vstd::arithmetic::mul::lemma_mul_is_distributive_add_other_way(block_size, q, 1);
    vstd::arithmetic::mul::lemma_mul_is_distributive_sub_other_way(block_size, q, 1);
    if r == 0 && q == 0 {
        assert(block_size * q == 0) by (nonlinear_arith)
            requires
                q == 0,
        ;
    }
}

/// Size of the wear table of a device with `block_count` blocks: one half word
/// per block, padded to the program size. Saturates for block counts that no
/// device has.
pub open spec fn table_len(block_count: int) -> int {
    if block_count >= 0x7fff_fffe {
        0xffff_fffc
    } else {
        pad4(2 * block_count)
    }
}

/// Return whether `value` is aligned to the device program size.
pub fn is_aligned_4(value: u32) -> (r: bool)
    ensures
        r == (value % 4 == 0),
{
    value % 4 == 0
}

/// Round `value` up to a 4-byte boundary without wrapping.
pub fn checked_align_4(value: u32) -> (r: Option<u32>)
    ensures
        r == (if value + 3 <= u32::MAX {
            Some(pad4(value as int) as u32)
        } else {
            None
        }),
{
    match value.checked_add(3) {
        Some(sum) => Some(sum - sum % 4),
        None => None,
    }
}

/// Calculate the padded record length using checked arithmetic.
pub fn checked_record_len(name_len: u16, data_len: u32) -> (r: Option<u32>)
    ensures
        r == (if 20 + name_len + data_len + 3 <= u32::MAX {
            Some(record_len_of(name_len as int, data_len as int) as u32)
        } else {
            None
        }),
{
    let with_name: u32 = 20 + name_len as u32;
    match with_name.checked_add(data_len) {
        Some(unaligned) => checked_align_4(unaligned),
        None => None,
    }
}

/// Calculate `ceil((HEADER_SIZE + payload_len) / block_size)` safely.
pub fn checked_snapshot_span(payload_len: u32, block_size: u32) -> (r: Option<u32>)
    ensures
        r == (if block_size > 0 && 64 + payload_len <= u32::MAX {
            Some(span_of(payload_len as int, block_size as int) as u32)
        } else {
            None
        }),
        r is Some ==> r->0 == span_of(payload_len as int, block_size as int),
{
    if block_size == 0 {
        return None;
    }
    let total: u32 = match 64u32.checked_add(payload_len) {
        Some(value) => value,
        None => return None,
    };
    let whole: u32 = total / block_size;
    let extra: u32 = if total % block_size == 0 { 0 } else { 1 };
    proof {
        vstd::arithmetic::div_mod::lemma_div_is_ordered_by_denominator(
            total as int,
            1,
            block_size as int,
        );
        if extra == 1 {
            assert(block_size >= 2) by {
                if block_size == 1 {
                    assert(total % 1 == 0);
                }
            }
            vstd::arithmetic::div_mod::lemma_div_is_ordered_by_denominator(
                total as int,
                2,
                block_size as int,
            );
        }
    }
    whole.checked_add(extra)
}

/// Sequence-number comparison that remains valid across one `u32` wrap.
///
/// The two inputs must be less than `2^31` generations apart. Exactly half the
/// sequence space is intentionally treated as ambiguous (`false` both ways).
pub fn generation_is_newer(candidate: u32, reference: u32) -> (r: bool)
    ensures
        r == newer(candidate, reference),
{
    let distance: u32 = candidate.wrapping_sub(reference);
    distance != 0 && distance < 0x8000_0000
}

/// How many steps of the sequence lead from `reference` to `candidate`.
pub open spec fn steps_ahead(candidate: u32, reference: u32) -> int {
    (candidate - reference) % 0x1_0000_0000
}

/// `candidate` lies in the half of the sequence space ahead of `reference`.
pub open spec fn newer(candidate: u32, reference: u32) -> bool {
    0 < steps_ahead(candidate, reference) < 0x8000_0000
}

/// Of two different generations that are not exactly half the sequence space
/// apart, one is newer than the other, and never both.
pub proof fn law_newer_is_antisymmetric(a: u32, b: u32)
    ensures
        !(newer(a, b) && newer(b, a)),
        !newer(a, a),
        a != b && steps_ahead(a, b) != 0x8000_0000 ==> newer(a, b) || newer(b, a),
        steps_ahead(a, b) == 0x8000_0000 ==> !newer(a, b) && !newer(b, a),
{
}

/// The generation that follows is newer, also across the wrap.
pub proof fn law_next_generation_is_newer(a: u32)
    ensures
        newer(a.wrapping_add(1), a),
{
}

/// Size of the wear table of a device with `block_count` blocks.
pub fn wear_table_size(block_count: u32) -> (r: u32)
    ensures
        r == table_len(block_count as int),
{
    if block_count >= 0x7fff_fffe {
        return 0xffff_fffc;
    }
    let raw: u32 = 2 * block_count + 3;
    raw - raw % 4
}

// ---------------------------------------------------------------------------
// Snapshot header
// ---------------------------------------------------------------------------

/// Errors produced while encoding or validating on-disk structures.
#[allow(inconsistent_fields)]
#[derive(Clone, Copy, Debug, PartialEq, Eq)]
pub enum FormatError {
    BufferTooSmall { required: usize, actual: usize },
    BadSnapshotMagic { found: u32 },
    BadRecordMagic { found: u32 },
    UnsupportedVersion { found: u32 },
    NotCommitted { found: u32 },
    HeaderCrcMismatch { expected: u32, found: u32 },
    UnsupportedFeatures { found: u32 },
    NonZeroReserved,
    InvalidBlockSize { found: u32 },
    InvalidBlockCount { found: u32 },
    GeometryMismatch { expected: Geometry, found: Geometry },
    InvalidStart { expected: u32, found: u32 },
    InvalidSnapshotSpan { expected: u32, found: u32 },
    SnapshotOutOfBounds,
    SnapshotTooLarge,
    TooManyFiles { found: u32 },
    InvalidNameLength { found: u16 },
    InvalidRecordLength { expected: u32, found: u32 },
    UnsupportedRecordFlags { found: u16 },
    ArithmeticOverflow,
}

/// Fields stored in the 64-byte snapshot header.
///
/// Magic, version, reserved words, header CRC, and commit marker are managed by
/// the codec and are intentionally absent from this logical representation.
#[derive(Clone, Copy, Debug, PartialEq, Eq, Structural)]
pub struct SnapshotHeader {
    pub generation: u32,
    pub start_block: u32,
    pub block_span: u32,
    pub payload_len: u32,
    pub payload_crc: u32,
    pub file_count: u32,
    pub block_size: u32,
    pub block_count: u32,
    pub features: u32,
}

/// What is wrong with a geometry, if anything.
pub open spec fn geometry_error(g: Geometry) -> Option<FormatError> {
    if g.block_size < 64 || g.block_size % 4 != 0 {
        Some(FormatError::InvalidBlockSize { found: g.block_size })
    } else if g.block_count < 2 {
        Some(FormatError::InvalidBlockCount { found: g.block_count })
    } else {
        None
    }
}

fn validate_block_geometry(geometry: Geometry) -> (r: Result<(), FormatError>)
    ensures
        match geometry_error(geometry) {
            Some(e) => r == Err::<(), FormatError>(e),
            None => r is Ok,
        },
{
    if geometry.block_size < 64 || !is_aligned_4(geometry.block_size) {
        return Err(FormatError::InvalidBlockSize { found: geometry.block_size });
    }
    if geometry.block_count < 2 {
        return Err(FormatError::InvalidBlockCount { found: geometry.block_count });
    }
    Ok(())
}

impl SnapshotHeader {
    /// The geometry that the header records.
    pub open spec fn geom(self) -> Geometry {
        Geometry { block_size: self.block_size, block_count: self.block_count }
    }

    /// What is wrong with the fields, if anything, as far as they show it alone.
    pub open spec fn error(self) -> Option<FormatError> {
        if geometry_error(self.geom()) is Some {
            geometry_error(self.geom())
        } else if self.features != SUPPORTED_FEATURES {
            Some(FormatError::UnsupportedFeatures { found: self.features })
        } else if self.file_count > MAX_FILES {
            Some(FormatError::TooManyFiles { found: self.file_count })
        } else if 64 + self.payload_len > u32::MAX {
            Some(FormatError::ArithmeticOverflow)
        } else if self.block_span != span_of(self.payload_len as int, self.block_size as int) {
            Some(
                FormatError::InvalidSnapshotSpan {
                    expected: span_of(self.payload_len as int, self.block_size as int) as u32,
                    found: self.block_span,
                },
            )
        } else if self.block_span > self.block_count / 2 {
            Some(FormatError::SnapshotTooLarge)
        } else if self.start_block >= self.block_count {
            Some(FormatError::SnapshotOutOfBounds)
        } else {
            None
        }
    }

    /// What is wrong with a header found at block `start` of a device.
    pub open spec fn error_at(self, start: u32, device: Geometry) -> Option<FormatError> {
        if self.error() is Some {
            self.error()
        } else if geometry_error(device) is Some {
            geometry_error(device)
        } else if self.geom() != device {
            Some(FormatError::GeometryMismatch { expected: device, found: self.geom() })
        } else if self.start_block != start {
            Some(FormatError::InvalidStart { expected: start, found: self.start_block })
        } else {
            None
        }
    }

    /// `image` is the 64-byte encoding with `marker` as its commit word.
    pub open spec fn is_image(self, image: Seq<u8>, marker: u32) -> bool {
        &&& image.len() == 64
        &&& u32_at(image, 0) == MAGIC
        &&& u32_at(image, 4) == DISK_VERSION
        &&& u32_at(image, 8) == self.generation
        &&& u32_at(image, 12) == self.start_block
        &&& u32_at(image, 16) == self.block_span
        &&& u32_at(image, 20) == self.payload_len
        &&& u32_at(image, 24) == self.payload_crc
        &&& u32_at(image, 28) == self.file_count
        &&& u32_at(image, 32) == self.block_size
        &&& u32_at(image, 36) == self.block_count
        &&& u32_at(image, 40) == self.features
        &&& forall|i: int| 44 <= i < 56 ==> image[i] == 0
        &&& u32_at(image, 56) == crc_of(image.take(56))
        &&& u32_at(image, 60) == marker
    }

    /// The fields that stand in an encoded header.
    pub open spec fn fields_of(b: Seq<u8>) -> SnapshotHeader {
        SnapshotHeader {
            generation: u32_at(b, 8),
            start_block: u32_at(b, 12),
            block_span: u32_at(b, 16),
            payload_len: u32_at(b, 20),
            payload_crc: u32_at(b, 24),
            file_count: u32_at(b, 28),
            block_size: u32_at(b, 32),
            block_count: u32_at(b, 36),
            features: u32_at(b, 40),
        }
    }

    /// What decoding `b` gives.
    pub open spec fn decoded(b: Seq<u8>) -> Result<SnapshotHeader, FormatError> {
        if b.len() < 64 {
            Err(FormatError::BufferTooSmall { required: 64, actual: b.len() as usize })
        } else if u32_at(b, 0) != MAGIC {
            Err(FormatError::BadSnapshotMagic { found: u32_at(b, 0) })
        } else if u32_at(b, 4) != DISK_VERSION {
            Err(FormatError::UnsupportedVersion { found: u32_at(b, 4) })
        } else if u32_at(b, 60) != COMMIT_MARKER {
            Err(FormatError::NotCommitted { found: u32_at(b, 60) })
        } else if u32_at(b, 56) != crc_of(b.take(56)) {
            Err(
                FormatError::HeaderCrcMismatch {
                    expected: crc_of(b.take(56)),
                    found: u32_at(b, 56),
                },
            )
        } else if u32_at(b, 40) != SUPPORTED_FEATURES {
            Err(FormatError::UnsupportedFeatures { found: u32_at(b, 40) })
        } else if exists|i: int| 44 <= i < 56 && b[i] != 0 {
            Err(FormatError::NonZeroReserved)
        } else {
            match SnapshotHeader::fields_of(b).error() {
                Some(e) => Err(e),
                None => Ok(SnapshotHeader::fields_of(b)),
            }
        }
    }

    /// What decoding `b` as the header of block `start` gives.
    #[verifier::opaque]
    pub open spec fn decoded_at(b: Seq<u8>, start: u32, device: Geometry) -> Result<
        SnapshotHeader,
        FormatError,
    > {
        match SnapshotHeader::decoded(b) {
            Err(e) => Err(e),
            Ok(h) => match h.error_at(start, device) {
                Some(e) => Err(e),
                None => Ok(h),
            },
        }
    }

    /// Construct a version-1 header and derive its canonical block span.
    pub fn new(
        generation: u32,
        start_block: u32,
        payload_len: u32,
        payload_crc: u32,
        file_count: u32,
        geometry: Geometry,
    ) -> (r: Result<Self, FormatError>)
        ensures
            ({
                let h = SnapshotHeader {
                    generation,
                    start_block,
                    block_span: span_of(payload_len as int, geometry.block_size as int) as u32,
                    payload_len,
                    payload_crc,
                    file_count,
                    block_size: geometry.block_size,
                    block_count: geometry.block_count,
                    features: SUPPORTED_FEATURES,
                };
                if geometry_error(geometry) is Some {
                    r == Err::<Self, FormatError>(geometry_error(geometry)->0)
                } else if 64 + payload_len > u32::MAX {
                    r == Err::<Self, FormatError>(FormatError::ArithmeticOverflow)
                } else {
                    match h.error() {
                        Some(e) => r == Err::<Self, FormatError>(e),
                        None => r == Ok::<Self, FormatError>(h),
                    }
                }
            }),
    {
        match validate_block_geometry(geometry) {
            Ok(()) => {},
            Err(error) => return Err(error),
        }
        let block_span: u32 = match checked_snapshot_span(payload_len, geometry.block_size) {
            Some(span) => span,
            None => return Err(FormatError::ArithmeticOverflow),
        };
        let header = Self {
            generation,
            start_block,
            block_span,
            payload_len,
            payload_crc,
            file_count,
            block_size: geometry.block_size,
            block_count: geometry.block_count,
            features: SUPPORTED_FEATURES,
        };
        match header.validate() {
            Ok(()) => Ok(header),
            Err(error) => Err(error),
        }
    }

    pub fn geometry(&self) -> (r: Geometry)
        ensures
            r == self.geom(),
    {
        Geometry::new(self.block_size, self.block_count)
    }

    /// Offset of the first record in the segment: the header and the wear table
    /// come before it.
    pub open spec fn base(self) -> int {
        let b = 64 + table_len(self.block_count as int);
        if b > u32::MAX {
            u32::MAX as int
        } else {
            b
        }
    }

    /// Number of payload bytes that hold records.
    pub open spec fn records(self) -> int {
        if self.payload_len >= table_len(self.block_count as int) {
            self.payload_len - table_len(self.block_count as int)
        } else {
            0
        }
    }

    /// Offset of the first record in the segment.
    pub fn records_base(&self) -> (r: u32)
        ensures
            r == self.base(),
    {
        wear_table_size(self.block_count).saturating_add(64)
    }

    /// Number of payload bytes that hold records.
    pub fn records_len(&self) -> (r: u32)
        ensures
            r == self.records(),
    {
        self.payload_len.saturating_sub(wear_table_size(self.block_count))
    }

    /// Validate fields that can be checked without consulting a live device.
    pub fn validate(&self) -> (r: Result<(), FormatError>)
        ensures
            match self.error() {
                Some(e) => r == Err::<(), FormatError>(e),
                None => r is Ok,
            },
    {
        match validate_block_geometry(self.geometry()) {
            Ok(()) => {},
            Err(error) => return Err(error),
        }
        if self.features != SUPPORTED_FEATURES {
            return Err(FormatError::UnsupportedFeatures { found: self.features });
        }
        if self.file_count > MAX_FILES {
            return Err(FormatError::TooManyFiles { found: self.file_count });
        }
        let expected: u32 = match checked_snapshot_span(self.payload_len, self.block_size) {
            Some(span) => span,
            None => return Err(FormatError::ArithmeticOverflow),
        };
        if self.block_span != expected {
            return Err(FormatError::InvalidSnapshotSpan { expected, found: self.block_span });
        }
        if self.block_span > self.block_count / 2 {
            return Err(FormatError::SnapshotTooLarge);
        }
        if self.start_block >= self.block_count {
            return Err(FormatError::SnapshotOutOfBounds);
        }
        Ok(())
    }

    /// Validate the location and geometry against the values used by a mount.
    pub fn validate_at(&self, scanned_start_block: u32, device_geometry: Geometry) -> (r: Result<
        (),
        FormatError,
    >)
        ensures
            match self.error_at(scanned_start_block, device_geometry) {
                Some(e) => r == Err::<(), FormatError>(e),
                None => r is Ok,
            },
    {
        match self.validate() {
            Ok(()) => {},
            Err(error) => return Err(error),
        }
        match validate_block_geometry(device_geometry) {
            Ok(()) => {},
            Err(error) => return Err(error),
        }
        if self.geometry() != device_geometry {
            return Err(
                FormatError::GeometryMismatch {
                    expected: device_geometry,
                    found: self.geometry(),
                },
            );
        }
        if self.start_block != scanned_start_block {
            return Err(
                FormatError::InvalidStart {
                    expected: scanned_start_block,
                    found: self.start_block,
                },
            );
        }
        Ok(())
    }

    /// Encode bytes 0..60, which must be written before the commit word.
    ///
    /// Programming this prefix and [`commit_marker_bytes`] in separate calls is
    /// important: the erased marker word must not be part of the first program
    /// operation because a word may only be programmed once per erase.
    pub fn encode_prefix(&self) -> (r: Result<[u8; SNAPSHOT_PREFIX_SIZE], FormatError>)
        ensures
            match self.error() {
                Some(e) => r == Err::<[u8; SNAPSHOT_PREFIX_SIZE], FormatError>(e),
                None => r is Ok && self.is_image(r->Ok_0@ + le32(ERASED_WORD), ERASED_WORD),
            },
    {
        let encoded = match self.encode_with_marker(ERASED_WORD) {
            Ok(bytes) => bytes,
            Err(error) => return Err(error),
        };
        let mut prefix = [0u8; SNAPSHOT_PREFIX_SIZE];
        let mut i: usize = 0;
        while i < SNAPSHOT_PREFIX_SIZE
            invariant
                i <= 60,
                forall|j: int| 0 <= j < i ==> prefix@[j] == encoded@[j],
            decreases 60 - i,
        {
            prefix[i] = encoded[i];
            i += 1;
        }
        proof {
            law_le32_round_trip(encoded@, 60, ERASED_WORD);
            assert(prefix@ + le32(ERASED_WORD) =~= encoded@);
        }
        Ok(prefix)
    }

    /// Encode a diagnostic full image with an erased commit word.
    ///
    /// Do not program all 64 bytes from this result in one operation. Use
    /// [`SnapshotHeader::encode_prefix`] and then program
    /// [`commit_marker_bytes`] independently.
    pub fn encode_uncommitted(&self) -> (r: Result<[u8; HEADER_SIZE], FormatError>)
        ensures
            match self.error() {
                Some(e) => r == Err::<[u8; HEADER_SIZE], FormatError>(e),
                None => r is Ok && self.is_image(r->Ok_0@, ERASED_WORD),
            },
    {
        self.encode_with_marker(ERASED_WORD)
    }

    /// Encode a complete committed image for tests and offline tooling.
    ///
    /// A live device must still program the prefix first and the commit word
    /// last rather than programming this array as one operation.
    pub fn encode_committed(&self) -> (r: Result<[u8; HEADER_SIZE], FormatError>)
        ensures
            match self.error() {
                Some(e) => r == Err::<[u8; HEADER_SIZE], FormatError>(e),
                None => r is Ok && self.is_image(r->Ok_0@, COMMIT_MARKER),
            },
    {
        self.encode_with_marker(COMMIT_MARKER)
    }

    fn encode_with_marker(&self, marker: u32) -> (r: Result<[u8; HEADER_SIZE], FormatError>)
        ensures
            match self.error() {
                Some(e) => r == Err::<[u8; HEADER_SIZE], FormatError>(e),
                None => r is Ok && self.is_image(r->Ok_0@, marker),
            },
    {
        match self.validate() {
            Ok(()) => {},
            Err(error) => return Err(error),
        }
        let mut bytes = [0u8; HEADER_SIZE];
        write_u32(&mut bytes, 0, MAGIC);
        write_u32(&mut bytes, 4, DISK_VERSION);
        write_u32(&mut bytes, 8, self.generation);
        write_u32(&mut bytes, 12, self.start_block);
        write_u32(&mut bytes, 16, self.block_span);
        write_u32(&mut bytes, 20, self.payload_len);
        write_u32(&mut bytes, 24, self.payload_crc);
        write_u32(&mut bytes, 28, self.file_count);
        write_u32(&mut bytes, 32, self.block_size);
        write_u32(&mut bytes, 36, self.block_count);
        write_u32(&mut bytes, 40, self.features);
        let ghost covered = bytes@.take(56);
        let header_crc: u32 = crc32_mpeg2(&bytes[0..HEADER_CRC_OFFSET]);
        assert(bytes@.subrange(0, 56) =~= covered);
        write_u32(&mut bytes, HEADER_CRC_FIELD_OFFSET, header_crc);
        write_u32(&mut bytes, COMMIT_OFFSET, marker);
        assert(bytes@.take(56) =~= covered);
        Ok(bytes)
    }

    /// Decode and structurally validate a committed snapshot header.
    ///
    /// Mount code should normally use [`SnapshotHeader::decode_at`] so the
    /// CRC-protected, on-disk location and geometry are also compared with the
    /// device being scanned.
    pub fn decode(bytes: &[u8]) -> (r: Result<Self, FormatError>)
        ensures
            r == SnapshotHeader::decoded(bytes@),
    {
        if bytes.len() < HEADER_SIZE {
            return Err(
                FormatError::BufferTooSmall { required: HEADER_SIZE, actual: bytes.len() },
            );
        }
        let magic: u32 = read_u32(bytes, 0);
        if magic != MAGIC {
            return Err(FormatError::BadSnapshotMagic { found: magic });
        }
        let version: u32 = read_u32(bytes, 4);
        if version != DISK_VERSION {
            return Err(FormatError::UnsupportedVersion { found: version });
        }
        let marker: u32 = read_u32(bytes, COMMIT_OFFSET);
        if marker != COMMIT_MARKER {
            return Err(FormatError::NotCommitted { found: marker });
        }
        let found_crc: u32 = read_u32(bytes, HEADER_CRC_FIELD_OFFSET);
        let expected_crc: u32 = crc32_mpeg2(&bytes[0..HEADER_CRC_OFFSET]);
        assert(bytes@.subrange(0, 56) =~= bytes@.take(56));
        if found_crc != expected_crc {
            return Err(
                FormatError::HeaderCrcMismatch { expected: expected_crc, found: found_crc },
            );
        }
        let features: u32 = read_u32(bytes, 40);
        if features != SUPPORTED_FEATURES {
            return Err(FormatError::UnsupportedFeatures { found: features });
        }
        let mut i: usize = 44;
        while i < 56
            invariant
                44 <= i <= 56,
                bytes@.len() >= 64,
                forall|j: int| 44 <= j < i ==> bytes@[j] == 0,
                u32_at(bytes@, 0) == MAGIC,
                u32_at(bytes@, 4) == DISK_VERSION,
                u32_at(bytes@, 60) == COMMIT_MARKER,
                u32_at(bytes@, 56) == crc_of(bytes@.take(56)),
                u32_at(bytes@, 40) == SUPPORTED_FEATURES,
            decreases 56 - i,
        {
            if bytes[i] != 0 {
                return Err(FormatError::NonZeroReserved);
            }
            i += 1;
        }
        let header = Self {
            generation: read_u32(bytes, 8),
            start_block: read_u32(bytes, 12),
            block_span: read_u32(bytes, 16),
            payload_len: read_u32(bytes, 20),
            payload_crc: read_u32(bytes, 24),
            file_count: read_u32(bytes, 28),
            block_size: read_u32(bytes, 32),
            block_count: read_u32(bytes, 36),
            features,
        };
        match header.validate() {
            Ok(()) => Ok(header),
            Err(error) => Err(error),
        }
    }

    /// Decode a committed header and bind it to its physical scan location.
    pub fn decode_at(
        bytes: &[u8],
        scanned_start_block: u32,
        device_geometry: Geometry,
    ) -> (r: Result<Self, FormatError>)
        ensures
            r == SnapshotHeader::decoded_at(bytes@, scanned_start_block, device_geometry),
    {
        reveal(SnapshotHeader::decoded_at);
        let header = match Self::decode(bytes) {
            Ok(header) => header,
            Err(error) => return Err(error),
        };
        match header.validate_at(scanned_start_block, device_geometry) {
            Ok(()) => Ok(header),
            Err(error) => Err(error),
        }
    }
}

/// What a header that was found in its place says of itself.
pub proof fn lemma_decoded_at(b: Seq<u8>, start: u32, g: Geometry)
    requires
        SnapshotHeader::decoded_at(b, start, g) is Ok,
    ensures
        SnapshotHeader::decoded_at(b, start, g)->Ok_0.error() is None,
        SnapshotHeader::decoded_at(b, start, g)->Ok_0.geom() == g,
        SnapshotHeader::decoded_at(b, start, g)->Ok_0.start_block == start,
{
    reveal(SnapshotHeader::decoded_at);
    lemma_no_error(SnapshotHeader::decoded(b)->Ok_0, start, g);
}

proof fn lemma_no_error(h: SnapshotHeader, start: u32, g: Geometry)
    ensures
        h.error_at(start, g) is None <==> h.error() is None && h.geom() == g && h.start_block
            == start,
{
}

proof fn lemma_image_decodes(h: SnapshotHeader, image: Seq<u8>)
    requires
        h.error() is None,
        h.is_image(image, COMMIT_MARKER),
    ensures
        SnapshotHeader::decoded(image) == Ok::<SnapshotHeader, FormatError>(h),
{
    assert(SnapshotHeader::fields_of(image) == h);
}

/// A committed image of a valid header decodes to that header, at the place and
/// on the device that it names.
pub proof fn law_header_round_trip(h: SnapshotHeader, image: Seq<u8>)
    requires
        h.error() is None,
        h.is_image(image, COMMIT_MARKER),
    ensures
        SnapshotHeader::decoded(image) == Ok::<SnapshotHeader, FormatError>(h),
        SnapshotHeader::decoded_at(image, h.start_block, h.geom()) == Ok::<
            SnapshotHeader,
            FormatError,
        >(h),
{
    lemma_image_decodes(h, image);
    lemma_no_error(h, h.start_block, h.geom());
    reveal(SnapshotHeader::decoded_at);
}

/// A header whose commit word is anything but the marker is never accepted.
pub proof fn law_uncommitted_is_rejected(h: SnapshotHeader, image: Seq<u8>, marker: u32)
    requires
        h.is_image(image, marker),
        marker != COMMIT_MARKER,
    ensures
        SnapshotHeader::decoded(image) == Err::<SnapshotHeader, FormatError>(
            FormatError::NotCommitted { found: marker },
        ),
{
}

/// What decodes is the committed image of the header that comes out: no two
/// byte strings decode to one header, but for bytes past the image.
pub proof fn law_decoded_is_image(b: Seq<u8>)
    requires
        SnapshotHeader::decoded(b) is Ok,
    ensures
        SnapshotHeader::decoded(b)->Ok_0.is_image(b.take(64), COMMIT_MARKER),
        SnapshotHeader::decoded(b)->Ok_0.error() is None,
{
    assert(b.take(64).take(56) =~= b.take(56));
}

/// Bytes programmed in a separate, final 4-byte operation to commit a snapshot.
pub fn commit_marker_bytes() -> (r: [u8; PROGRAM_SIZE])
    ensures
        r@ == le32(COMMIT_MARKER),
{
    let bytes = [0x91u8, 0x6fu8, 0x5au8, 0xc3u8];
    assert(bytes@ =~= le32(COMMIT_MARKER));
    bytes
}

// ---------------------------------------------------------------------------
// Record header
// ---------------------------------------------------------------------------

/// Fields stored in each 20-byte entry-record header.
#[derive(Clone, Copy, Debug, PartialEq, Eq, Structural)]
pub struct RecordHeader {
    pub record_len: u32,
    pub data_len: u32,
    pub data_crc: u32,
    pub name_len: u16,
    pub flags: u16,
}

impl RecordHeader {
    /// What is wrong with the fields, if anything.
    pub open spec fn error(self) -> Option<FormatError> {
        if self.name_len == 0 || self.name_len > MAX_NAME_LEN {
            Some(FormatError::InvalidNameLength { found: self.name_len })
        } else if self.flags > SUPPORTED_RECORD_FLAGS {
            Some(FormatError::UnsupportedRecordFlags { found: self.flags })
        } else if 20 + self.name_len + self.data_len + 3 > u32::MAX {
            Some(FormatError::ArithmeticOverflow)
        } else if self.record_len != record_len_of(self.name_len as int, self.data_len as int) {
            Some(
                FormatError::InvalidRecordLength {
                    expected: record_len_of(self.name_len as int, self.data_len as int) as u32,
                    found: self.record_len,
                },
            )
        } else {
            None
        }
    }

    /// The 20-byte encoding.
    pub open spec fn image(self) -> Seq<u8> {
        le32(RECORD_MAGIC) + le32(self.record_len) + le32(self.data_len) + le32(self.data_crc)
            + le16(self.name_len) + le16(self.flags)
    }

    /// The fields that stand in an encoded record header.
    pub open spec fn fields_of(b: Seq<u8>) -> RecordHeader {
        RecordHeader {
            record_len: u32_at(b, 4),
            data_len: u32_at(b, 8),
            data_crc: u32_at(b, 12),
            name_len: u16_at(b, 16),
            flags: u16_at(b, 18),
        }
    }

    /// What decoding `b` gives.
    pub open spec fn decoded(b: Seq<u8>) -> Result<RecordHeader, FormatError> {
        if b.len() < 20 {
            Err(FormatError::BufferTooSmall { required: 20, actual: b.len() as usize })
        } else if u32_at(b, 0) != RECORD_MAGIC {
            Err(FormatError::BadRecordMagic { found: u32_at(b, 0) })
        } else {
            match RecordHeader::fields_of(b).error() {
                Some(e) => Err(e),
                None => Ok(RecordHeader::fields_of(b)),
            }
        }
    }

    pub fn new(name_len: u16, data_len: u32, data_crc: u32, flags: u16) -> (r: Result<
        Self,
        FormatError,
    >)
        ensures
            ({
                let h = RecordHeader {
                    record_len: record_len_of(name_len as int, data_len as int) as u32,
                    data_len,
                    data_crc,
                    name_len,
                    flags,
                };
                if 20 + name_len + data_len + 3 > u32::MAX {
                    r == Err::<Self, FormatError>(FormatError::ArithmeticOverflow)
                } else {
                    match h.error() {
                        Some(e) => r == Err::<Self, FormatError>(e),
                        None => r == Ok::<Self, FormatError>(h),
                    }
                }
            }),
    {
        let record_len: u32 = match checked_record_len(name_len, data_len) {
            Some(length) => length,
            None => return Err(FormatError::ArithmeticOverflow),
        };
        let header = Self { record_len, data_len, data_crc, name_len, flags };
        match header.validate() {
            Ok(()) => Ok(header),
            Err(error) => Err(error),
        }
    }

    pub fn validate(&self) -> (r: Result<(), FormatError>)
        ensures
            match self.error() {
                Some(e) => r == Err::<(), FormatError>(e),
                None => r is Ok,
            },
    {
        if self.name_len == 0 || self.name_len as usize > MAX_NAME_LEN {
            return Err(FormatError::InvalidNameLength { found: self.name_len });
        }
        if self.flags > SUPPORTED_RECORD_FLAGS {
            return Err(FormatError::UnsupportedRecordFlags { found: self.flags });
        }
        let expected: u32 = match checked_record_len(self.name_len, self.data_len) {
            Some(length) => length,
            None => return Err(FormatError::ArithmeticOverflow),
        };
        if self.record_len != expected {
            return Err(FormatError::InvalidRecordLength { expected, found: self.record_len });
        }
        Ok(())
    }

    pub fn encode(&self) -> (r: Result<[u8; RECORD_HEADER_SIZE], FormatError>)
        ensures
            match self.error() {
                Some(e) => r == Err::<[u8; RECORD_HEADER_SIZE], FormatError>(e),
                None => r is Ok && r->Ok_0@ == self.image(),
            },
    {
        match self.validate() {
            Ok(()) => {},
            Err(error) => return Err(error),
        }
        let mut bytes = [0u8; RECORD_HEADER_SIZE];
        write_u32(&mut bytes, 0, RECORD_MAGIC);
        write_u32(&mut bytes, 4, self.record_len);
        write_u32(&mut bytes, 8, self.data_len);
        write_u32(&mut bytes, 12, self.data_crc);
        write_u16(&mut bytes, 16, self.name_len);
        write_u16(&mut bytes, 18, self.flags);
        proof {
            law_le32_round_trip(bytes@, 0, RECORD_MAGIC);
            law_le32_round_trip(bytes@, 4, self.record_len);
            law_le32_round_trip(bytes@, 8, self.data_len);
            law_le32_round_trip(bytes@, 12, self.data_crc);
            lemma_split_record_header(bytes@);
            assert(bytes@.subrange(16, 18) =~= le16(self.name_len));
            assert(bytes@.subrange(18, 20) =~= le16(self.flags));
        }
        Ok(bytes)
    }

    pub fn decode(bytes: &[u8]) -> (r: Result<Self, FormatError>)
        ensures
            r == RecordHeader::decoded(bytes@),
    {
        if bytes.len() < RECORD_HEADER_SIZE {
            return Err(
                FormatError::BufferTooSmall {
                    required: RECORD_HEADER_SIZE,
                    actual: bytes.len(),
                },
            );
        }
        let magic: u32 = read_u32(bytes, 0);
        if magic != RECORD_MAGIC {
            return Err(FormatError::BadRecordMagic { found: magic });
        }
        let header = Self {
            record_len: read_u32(bytes, 4),
            data_len: read_u32(bytes, 8),
            data_crc: read_u32(bytes, 12),
            name_len: read_u16(bytes, 16),
            flags: read_u16(bytes, 18),
        };
        match header.validate() {
            Ok(()) => Ok(header),
            Err(error) => Err(error),
        }
    }
}

proof fn lemma_split_record_header(b: Seq<u8>)
    requires
        b.len() == 20,
    ensures
        b == b.subrange(0, 4) + b.subrange(4, 8) + b.subrange(8, 12) + b.subrange(12, 16)
            + b.subrange(16, 18) + b.subrange(18, 20),
{
    assert(b =~= b.subrange(0, 4) + b.subrange(4, 8) + b.subrange(8, 12) + b.subrange(12, 16)
        + b.subrange(16, 18) + b.subrange(18, 20));
}

/// The encoding of a valid record header decodes to that header.
pub proof fn law_record_header_round_trip(h: RecordHeader)
    requires
        h.error() is None,
    ensures
        h.image().len() == 20,
        RecordHeader::decoded(h.image()) == Ok::<RecordHeader, FormatError>(h),
{
    let b = h.image();
    assert(b.subrange(0, 4) =~= le32(RECORD_MAGIC));
    assert(b.subrange(4, 8) =~= le32(h.record_len));
    assert(b.subrange(8, 12) =~= le32(h.data_len));
    assert(b.subrange(12, 16) =~= le32(h.data_crc));
    assert(b.subrange(16, 18) =~= le16(h.name_len));
    assert(b.subrange(18, 20) =~= le16(h.flags));
    law_le32_round_trip(b, 0, RECORD_MAGIC);
    law_le32_round_trip(b, 4, h.record_len);
    law_le32_round_trip(b, 8, h.data_len);
    law_le32_round_trip(b, 12, h.data_crc);
    law_le16_round_trip(b, 16, h.name_len);
    law_le16_round_trip(b, 18, h.flags);
}

/// What decodes as a record header is the encoding of the header that comes
/// out.
pub proof fn law_record_decoded_is_image(b: Seq<u8>)
    requires
        RecordHeader::decoded(b) is Ok,
    ensures
        b.take(20) == RecordHeader::decoded(b)->Ok_0.image(),
        RecordHeader::decoded(b)->Ok_0.error() is None,
{
    let h = RecordHeader::decoded(b)->Ok_0;
    let t = b.take(20);
    law_le32_round_trip(t, 0, RECORD_MAGIC);
    law_le32_round_trip(t, 4, h.record_len);
    law_le32_round_trip(t, 8, h.data_len);
    law_le32_round_trip(t, 12, h.data_crc);
    law_le16_round_trip(t, 16, h.name_len);
    law_le16_round_trip(t, 18, h.flags);
    lemma_split_record_header(t);
}

// ---------------------------------------------------------------------------
// Wear table
// ---------------------------------------------------------------------------

/// The encoded erase counters of the first `block_count` blocks.
pub open spec fn table_bytes(wear: Seq<u16>, block_count: int) -> Seq<u8> {
    Seq::new(
        table_len(block_count) as nat,
        |i: int|
            if i < 2 * block_count {
                if i % 2 == 0 {
                    (wear[i / 2] % 256) as u8
                } else {
                    (wear[i / 2] / 256) as u8
                }
            } else {
                0
            },
    )
}

/// Encode the erase counters of the first `block_count` blocks into `out` and
/// return how many bytes that took.
pub fn encode_wear_table(
    wear: &[u16; MAX_WEAR_BLOCKS],
    block_count: u32,
    out: &mut [u8],
) -> (r: Result<usize, FormatError>)
    ensures
        final(out)@.len() == old(out)@.len(),
        if block_count > MAX_WEAR_BLOCKS {
            r == Err::<usize, FormatError>(FormatError::InvalidBlockCount { found: block_count })
                && final(out)@ == old(out)@
        } else if old(out)@.len() < table_len(block_count as int) {
            r == Err::<usize, FormatError>(
                FormatError::BufferTooSmall {
                    required: table_len(block_count as int) as usize,
                    actual: old(out)@.len() as usize,
                },
            ) && final(out)@ == old(out)@
        } else {
            &&& r == Ok::<usize, FormatError>(table_len(block_count as int) as usize)
            &&& final(out)@ == table_bytes(wear@, block_count as int) + old(out)@.skip(
                table_len(block_count as int),
            )
        },
{
    if block_count > MAX_WEAR_BLOCKS as u32 {
        return Err(FormatError::InvalidBlockCount { found: block_count });
    }
    let size: usize = wear_table_size(block_count) as usize;
    if out.len() < size {
        return Err(FormatError::BufferTooSmall { required: size, actual: out.len() });
    }
    let ghost table = table_bytes(wear@, block_count as int);
    let ghost before = out@;
    let mut i: usize = 0;
    while i < size
        invariant
            i <= size,
            size == table_len(block_count as int),
            block_count <= 64,
            table == table_bytes(wear@, block_count as int),
            out@.len() == before.len(),
            size <= before.len(),
            forall|j: int| 0 <= j < i ==> out@[j] == table[j],
            forall|j: int| size <= j < before.len() ==> out@[j] == before[j],
        decreases size - i,
    {
        if i < 2 * (block_count as usize) {
            let entry: u16 = wear[i / 2];
            if i % 2 == 0 {
                out[i] = (entry % 256) as u8;
            } else {
                out[i] = (entry / 256) as u8;
            }
        } else {
            out[i] = 0;
        }
        i += 1;
    }
    assert(out@ =~= table + before.skip(size as int));
    Ok(size)
}

/// Decode the erase counters of the first `block_count` blocks. The other
/// entries of `wear` stay as they are.
pub fn decode_wear_table(
    bytes: &[u8],
    block_count: u32,
    wear: &mut [u16; MAX_WEAR_BLOCKS],
) -> (r: Result<(), FormatError>)
    ensures
        if block_count > MAX_WEAR_BLOCKS {
            r == Err::<(), FormatError>(FormatError::InvalidBlockCount { found: block_count })
                && *final(wear) == *old(wear)
        } else if bytes@.len() < table_len(block_count as int) {
            r == Err::<(), FormatError>(
                FormatError::BufferTooSmall {
                    required: table_len(block_count as int) as usize,
                    actual: bytes@.len() as usize,
                },
            ) && *final(wear) == *old(wear)
        } else {
            &&& r is Ok
            &&& forall|b: int| 0 <= b < block_count ==> final(wear)@[b] == u16_at(bytes@, 2 * b)
            &&& forall|b: int| block_count <= b < 64 ==> final(wear)@[b] == old(wear)@[b]
        },
{
    if block_count > MAX_WEAR_BLOCKS as u32 {
        return Err(FormatError::InvalidBlockCount { found: block_count });
    }
    let size: usize = wear_table_size(block_count) as usize;
    if bytes.len() < size {
        return Err(FormatError::BufferTooSmall { required: size, actual: bytes.len() });
    }
    let ghost before = wear@;
    let mut b: usize = 0;
    while b < block_count as usize
        invariant
            b <= block_count <= 64,
            size == table_len(block_count as int),
            size <= bytes@.len(),
            forall|j: int| 0 <= j < b ==> wear@[j] == u16_at(bytes@, 2 * j),
            forall|j: int| b <= j < 64 ==> wear@[j] == before[j],
        decreases block_count - b,
    {
        wear[b] = read_u16(bytes, 2 * b);
        b += 1;
    }
    Ok(())
}

/// Every erase counter survives encoding and decoding.
pub proof fn law_wear_table_round_trip(wear: Seq<u16>, block_count: int, b: int)
    requires
        0 <= b < block_count <= MAX_WEAR_BLOCKS,
        block_count <= wear.len(),
    ensures
        u16_at(table_bytes(wear, block_count), 2 * b) == wear[b],
{
    let t = table_bytes(wear, block_count);
    assert(t[2 * b] == (wear[b] % 256) as u8);
    assert(t[2 * b + 1] == (wear[b] / 256) as u8);
}

} // verus!
