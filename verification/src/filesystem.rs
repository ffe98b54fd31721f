//! The file system on the internal flash.
//!
//! Sectors 46 to 61 belong to it. Every block is erased and programmed through a
//! check of its bounds, and read back afterwards; what does not read back is read a
//! second time before it is believed.

use vstd::prelude::*;

use crate::efm::EfmError;
use crate::littlefs::{BlockDevice, Error, FileSystem};

verus! {

/// Where the partition begins.
pub const PARTITION_START: u32 = 0x0005_c000;

/// Its size.
pub const PARTITION_SIZE: u32 = 0x0002_0000;

/// The size of a block, which is a sector of the flash.
pub const BLOCK_SIZE: u32 = 0x2000;

/// The number of blocks.
pub const BLOCK_COUNT: u32 = 16;

/// Where the partition ends.
pub const PARTITION_END: u32 = 0x0007_c000;

/// Bytes that are read back at a time.
pub const CHUNK: usize = 1024;

/// Why an operation on the flash failed.
#[derive(Debug, Clone, Copy, PartialEq, Eq, Structural)]
pub enum FlashError {
    /// The place lies outside of the partition.
    OutOfBounds,
    /// The place or the length is no multiple of four.
    Unaligned,
    /// An interrupt is being served.
    InterruptContext,
    /// A word is not erased.
    NotErased,
    /// What was erased or programmed does not read back.
    VerifyFailed,
    /// The flash controller reported a failure.
    Controller(EfmError),
}

/// Whether the partition is in use.
pub struct Partition {
    taken: bool,
}

impl Partition {
    /// The partition is in use.
    pub closed spec fn in_use(self) -> bool {
        self.taken
    }

    /// A partition that is not in use.
    pub fn new() -> (r: Self)
        ensures
            !r.in_use(),
    {
        Partition { taken: false }
    }
}

/// The right to use the partition.
pub struct InternalFlash {
    private: (),
}

/// The address of a place in a block, if the bytes from there on lie in the block.
pub open spec fn address_of(block: int, offset: int, len: int) -> Option<int> {
    if 0 <= block < BLOCK_COUNT && 0 <= offset && 0 <= len && offset + len <= BLOCK_SIZE {
        Some(PARTITION_START + block * BLOCK_SIZE + offset)
    } else {
        None
    }
}

impl InternalFlash {
    /// The right to use the partition, if nobody has it.
    pub fn take(partition: &mut Partition) -> (r: Option<Self>)
        ensures
            r is Some <==> !old(partition).in_use(),
            final(partition).in_use(),
    {
        if partition.taken {
            None
        } else {
            partition.taken = true;
            Some(InternalFlash { private: () })
        }
    }

    /// Give the right back.
    pub fn release(self, partition: &mut Partition)
        ensures
            !final(partition).in_use(),
    {
        partition.taken = false;
    }

    fn check_thread_context(in_isr: bool) -> (r: Result<(), FlashError>)
        ensures
            r is Ok <==> !in_isr,
            r is Err ==> r->Err_0 == FlashError::InterruptContext,
    {
        if in_isr {
            Err(FlashError::InterruptContext)
        } else {
            Ok(())
        }
    }

    fn address(block: u32, offset: u32, len: usize) -> (r: Result<u32, FlashError>)
        ensures
            match r {
                Ok(address) => address_of(block as int, offset as int, len as int) == Some(
                    address as int,
                ),
                Err(e) => address_of(block as int, offset as int, len as int) is None && e
                    == FlashError::OutOfBounds,
            },
    {
        if block >= BLOCK_COUNT || offset > BLOCK_SIZE || len > (BLOCK_SIZE - offset) as usize {
            return Err(FlashError::OutOfBounds);
        }
        Ok(PARTITION_START + block * BLOCK_SIZE + offset)
    }

    /// Where to read, if it is allowed.
    pub fn read_at(&self, in_isr: bool, block: u32, offset: u32, len: usize) -> (r: Result<
        u32,
        FlashError,
    >)
        ensures
            match r {
                Ok(address) => !in_isr && address_of(block as int, offset as int, len as int)
                    == Some(address as int),
                Err(FlashError::InterruptContext) => in_isr,
                Err(FlashError::OutOfBounds) => !in_isr && address_of(
                    block as int,
                    offset as int,
                    len as int,
                ) is None,
                Err(_) => false,
            },
    {
        match Self::check_thread_context(in_isr) {
            Ok(_) => Self::address(block, offset, len),
            Err(e) => Err(e),
        }
    }

    /// Where to program, if it is allowed: whole words that are erased. `words` are
    /// those that are there now.
    pub fn program_at(
        &self,
        in_isr: bool,
        block: u32,
        offset: u32,
        len: usize,
        words: &[u32],
    ) -> (r: Result<u32, FlashError>)
        requires
            words@.len() * 4 == len || len % 4 != 0,
        ensures
            ({
                let aligned = offset % 4 == 0 && len % 4 == 0;
                let place = address_of(block as int, offset as int, len as int);
                let erased = forall|i: int|
                    0 <= i < words@.len() ==> #[trigger] words@[i] == 0xffff_ffff;
                match r {
                    Ok(address) => !in_isr && aligned && place == Some(address as int) && erased,
                    Err(FlashError::InterruptContext) => in_isr,
                    Err(FlashError::Unaligned) => !in_isr && !aligned,
                    Err(FlashError::OutOfBounds) => !in_isr && aligned && place is None,
                    Err(FlashError::NotErased) => !in_isr && aligned && place is Some && !erased,
                    Err(_) => false,
                }
            }),
    {
        match Self::check_thread_context(in_isr) {
            Ok(_) => {},
            Err(e) => {
                return Err(e);
            },
        }
        if offset % 4 != 0 || len % 4 != 0 {
            return Err(FlashError::Unaligned);
        }
        let address: u32 = match Self::address(block, offset, len) {
            Ok(address) => address,
            Err(e) => {
                return Err(e);
            },
        };
        let mut i: usize = 0;
        while i < words.len()
            invariant
                i <= words@.len(),
                !in_isr,
                offset % 4 == 0,
                len % 4 == 0,
                address_of(block as int, offset as int, len as int) == Some(address as int),
                forall|j: int| 0 <= j < i ==> #[trigger] words@[j] == 0xffff_ffff,
            decreases words@.len() - i,
        {
            if words[i] != 0xffff_ffff {
                return Err(FlashError::NotErased);
            }
            i += 1;
        }
        Ok(address)
    }

    /// Where to erase, if it is allowed.
    pub fn erase_at(&self, in_isr: bool, block: u32) -> (r: Result<u32, FlashError>)
        ensures
            match r {
                Ok(address) => !in_isr && address_of(block as int, 0, BLOCK_SIZE as int) == Some(
                    address as int,
                ),
                Err(FlashError::InterruptContext) => in_isr,
                Err(FlashError::OutOfBounds) => !in_isr && block >= BLOCK_COUNT,
                Err(_) => false,
            },
    {
        self.read_at(in_isr, block, 0, BLOCK_SIZE as usize)
    }

    /// Whether an error means that the block is worn out. Other errors may have come
    /// from the supply or the bus.
    pub fn permanent_block_failure(&self, error: &FlashError) -> (r: bool)
        ensures
            r == (*error == FlashError::VerifyFailed || *error == FlashError::Controller(
                EfmError::ProgramEraseError,
            ) || *error == FlashError::Controller(EfmError::Mismatch)),
    {
        match *error {
            FlashError::VerifyFailed => true,
            FlashError::Controller(EfmError::ProgramEraseError) => true,
            FlashError::Controller(EfmError::Mismatch) => true,
            _ => false,
        }
    }
}

/// Different blocks have nothing in common, and no block reaches out of the
/// partition.
pub proof fn law_blocks_keep_apart(a: int, b: int, x: int, y: int)
    requires
        address_of(a, x, 1) is Some,
        address_of(b, y, 1) is Some,
    ensures
        PARTITION_START <= address_of(a, x, 1)->0 < PARTITION_END,
        address_of(a, x, 1) == address_of(b, y, 1) ==> a == b && x == y,
{
}

/// The blocks lie one after the other, the bytes of each in their order, from the start
/// of the partition to its end; a place is in the partition exactly if its block is one of
/// them and all its bytes lie in that block.
pub proof fn law_blocks_fill_the_partition(block: int, offset: int, len: int)
    requires
        len > 0,
    ensures
        address_of(block, offset, len) is Some <==> 0 <= block < 16 && 0 <= offset && offset + len
            <= 0x2000,
        address_of(0, 0, 1) == Some(0x5_c000int),
        address_of(block, offset, len) is Some ==> {
            &&& address_of(block, offset + len - 1, 1) == Some(
                address_of(block, offset, len)->0 + len - 1,
            )
            &&& offset == 0 && block > 0 ==> address_of(block - 1, 0x1fff, 1) == Some(
                address_of(block, 0, len)->0 - 1,
            )
            &&& offset > 0 ==> address_of(block, offset - 1, len) == Some(
                address_of(block, offset, len)->0 - 1,
            )
        },
{
}

// ---------------------------------------------------------------------------
// Reading back
// ---------------------------------------------------------------------------

/// What is still to be read back: a range of which the first `offset` bytes were as
/// expected, and whether the next ones were already found to differ.
#[derive(Clone, Copy, PartialEq, Eq, Debug, Structural)]
pub struct Readback {
    pub len: usize,
    pub offset: usize,
    pub doubted: bool,
}

/// How a range reads back.
#[derive(Clone, Copy, PartialEq, Eq, Debug, Structural)]
pub enum Finding {
    /// The next bytes are to be read, `len` of them from `offset` on.
    Read { offset: usize, len: usize },
    /// Everything is as expected.
    Good,
    /// Some bytes differed twice.
    Bad,
}

/// The bytes that are read next.
pub open spec fn next_len(r: Readback) -> int {
    if r.len - r.offset < CHUNK {
        r.len - r.offset
    } else {
        CHUNK as int
    }
}

/// What is to be done next.
pub open spec fn due(r: Readback) -> Finding {
    if r.offset < r.len {
        Finding::Read { offset: r.offset, len: next_len(r) as usize }
    } else {
        Finding::Good
    }
}

/// The bytes are as expected: those of `expected`, or erased ones.
pub open spec fn as_expected(bytes: Seq<u8>, expected: Option<Seq<u8>>, offset: int) -> bool {
    match expected {
        Some(all) => bytes == all.subrange(offset, offset + bytes.len()),
        None => forall|i: int| 0 <= i < bytes.len() ==> #[trigger] bytes[i] == 0xff,
    }
}

/// The state and the finding after `bytes` were read.
pub open spec fn judged(r: Readback, bytes: Seq<u8>, expected: Option<Seq<u8>>) -> (
    Readback,
    Finding,
) {
    if as_expected(bytes, expected, r.offset as int) {
        let next = Readback { offset: (r.offset + bytes.len()) as usize, doubted: false, ..r };
        (next, due(next))
    } else if !r.doubted {
        let again = Readback { doubted: true, ..r };
        (again, due(again))
    } else {
        (r, Finding::Bad)
    }
}

fn all_erased(bytes: &[u8]) -> (r: bool)
    ensures
        r == forall|i: int| 0 <= i < bytes@.len() ==> #[trigger] bytes@[i] == 0xff,
{
    let mut i: usize = 0;
    while i < bytes.len()
        invariant
            i <= bytes@.len(),
            forall|j: int| 0 <= j < i ==> #[trigger] bytes@[j] == 0xff,
        decreases bytes@.len() - i,
    {
        if bytes[i] != 0xff {
            return false;
        }
        i += 1;
    }
    true
}

impl Readback {
    /// Start to read a range back.
    pub fn new(len: usize) -> (r: (Self, Finding))
        ensures
            r.0 == (Readback { len, offset: 0, doubted: false }),
            r.1 == due(r.0),
    {
        let r = Readback { len, offset: 0, doubted: false };
        (r, r.next())
    }

    fn next(&self) -> (r: Finding)
        requires
            self.offset <= self.len,
        ensures
            r == due(*self),
    {
        if self.offset < self.len {
            let rest: usize = self.len - self.offset;
            Finding::Read {
                offset: self.offset,
                len: if rest < CHUNK {
                    rest
                } else {
                    CHUNK
                },
            }
        } else {
            Finding::Good
        }
    }

    /// The next bytes were read. They should be those of `expected`, or erased.
    pub fn judge(&mut self, bytes: &[u8], expected: Option<&[u8]>) -> (r: Finding)
        requires
            old(self).offset < old(self).len,
            bytes@.len() == next_len(*old(self)),
            expected matches Some(all) ==> all@.len() == old(self).len,
        ensures
            (*final(self), r) == judged(
                *old(self),
                bytes@,
                match expected {
                    Some(all) => Some(all@),
                    None => None,
                },
            ),
    {
        let matched: bool = match expected {
            Some(all) => crate::text::same_bytes(
                bytes,
                &all[self.offset..self.offset + bytes.len()],
            ),
            None => all_erased(bytes),
        };
        if matched {
            self.offset = self.offset + bytes.len();
            self.doubted = false;
            self.next()
        } else if !self.doubted {
            self.doubted = true;
            self.next()
        } else {
            Finding::Bad
        }
    }
}

/// Reading back: bytes that are as expected lead on, whatever was read before, so that
/// one wrong reading does no harm; only bytes that differ twice are found bad, and a
/// range is found good only if its last bytes were as expected.
pub proof fn law_one_bad_reading_is_forgiven(
    r: Readback,
    good: Seq<u8>,
    bad: Seq<u8>,
    expected: Option<Seq<u8>>,
)
    requires
        r.offset < r.len,
        !r.doubted,
        good.len() == next_len(r),
        bad.len() == next_len(r),
        as_expected(good, expected, r.offset as int),
        !as_expected(bad, expected, r.offset as int),
    ensures
        judged(judged(r, bad, expected).0, good, expected) == judged(r, good, expected),
        judged(judged(r, bad, expected).0, bad, expected).1 == Finding::Bad,
        judged(r, bad, expected).1 != Finding::Bad,
        judged(r, bad, expected).1 != Finding::Good,
        judged(r, good, expected).0.offset > r.offset,
{
}

// ---------------------------------------------------------------------------
// Mounting
// ---------------------------------------------------------------------------

/// How the file system was started.
#[derive(Clone, Copy, PartialEq, Eq, Debug, Structural)]
pub enum Startup {
    /// A snapshot was there.
    Mounted,
    /// The partition was erased and has been formatted.
    Formatted,
}

/// `fs` was mounted from a device.
pub open spec fn mounted_from<D: BlockDevice>(device: D, fs: FileSystem<D>) -> bool {
    &&& fs.inv()
    &&& !fs.stuck()
    &&& crate::littlefs::segment::untouched(device, fs.dev())
    &&& fs.dev().faults() == device.faults()
    &&& crate::littlefs::fs::mount_error::<D::Error>(device.media(), device.geom()) is None
    &&& Some(fs.header()) == crate::littlefs::validate::scanned(
        device.media(),
        device.geom(),
        device.geom().block_count as int,
    )
}

/// Mounting a device fails with this error.
pub open spec fn mounting_fails<D: BlockDevice>(device: D, error: Error<D::Error>) -> bool {
    exists|after: D| #[trigger] crate::littlefs::fs::mount_failed(device, after, error)
}

/// `fs` was made by formatting a device.
pub open spec fn formatted_from<D: BlockDevice>(device: D, fs: FileSystem<D>) -> bool {
    &&& fs.inv()
    &&& !fs.stuck()
    &&& fs.entries() == Seq::<crate::littlefs::tree::Entry>::empty()
    &&& crate::littlefs::fs::format_done(device, fs.dev(), fs.header(), fs.counters())
}

/// Formatting a device fails with this error.
pub open spec fn formatting_fails<D: BlockDevice>(device: D, error: Error<D::Error>) -> bool {
    exists|after: D| #[trigger] crate::littlefs::fs::format_failed(device, after, error)
}

/// The file system, if one is mounted.
pub fn mounted<D: BlockDevice>(slot: &mut Option<FileSystem<D>>) -> (r: Option<&mut FileSystem<D>>)
    ensures
        r is Some <==> *old(slot) is Some,
        r matches Some(fs) ==> *fs == (*old(slot))->0 && *final(slot) == Some(*final(fs)),
        r is None ==> *final(slot) == *old(slot),
{
    slot.as_mut()
}

/// Mount the file system. `device` is missing if the partition is in use.
pub fn mount<D: BlockDevice>(device: Option<D>) -> (r: Result<FileSystem<D>, Error<D::Error>>)
    ensures
        match (r, device) {
            (Ok(fs), Some(d)) => mounted_from(d, fs),
            (Err(error), Some(d)) => mounting_fails(d, error),
            (Ok(_), None) => false,
            (Err(error), None) => error is DeviceBusy,
        },
{
    match device {
        Some(d) => FileSystem::mount(d),
        None => Err(Error::DeviceBusy),
    }
}

/// Format the partition. `device` is missing if it is in use.
pub fn format<D: BlockDevice>(device: Option<D>) -> (r: Result<FileSystem<D>, Error<D::Error>>)
    ensures
        match (r, device) {
            (Ok(fs), Some(d)) => formatted_from(d, fs),
            (Err(error), Some(d)) => formatting_fails(d, error),
            (Ok(_), None) => false,
            (Err(error), None) => error is DeviceBusy,
        },
{
    match device {
        Some(d) => FileSystem::format(d),
        None => Err(Error::DeviceBusy),
    }
}

/// Give up the file system that is mounted and mount again. `locked` tells whether it
/// could be got hold of, and `device` is there if the partition is free afterwards.
pub fn remount<D: BlockDevice>(
    slot: &mut Option<FileSystem<D>>,
    locked: bool,
    device: Option<D>,
) -> (r: Result<(), Error<D::Error>>)
    ensures
        if !locked {
            r is Err && r->Err_0 is DeviceBusy && *final(slot) == *old(slot)
        } else {
            match device {
                None => r is Err && r->Err_0 is DeviceBusy && *final(slot) is None,
                Some(d) => match r {
                    Ok(_) => *final(slot) is Some && mounted_from(d, (*final(slot))->0),
                    Err(error) => *final(slot) is None && mounting_fails(d, error),
                },
            }
        },
{
    if !locked {
        return Err(Error::DeviceBusy);
    }
    *slot = None;
    match mount(device) {
        Ok(fs) => {
            *slot = Some(fs);
            Ok(())
        },
        Err(error) => Err(error),
    }
}

/// Every byte of the medium is erased.
pub open spec fn is_erased(media: Seq<Seq<u8>>) -> bool {
    forall|b: int, i: int|
        0 <= b < media.len() && 0 <= i < media[b].len() ==> #[trigger] media[b][i] == 0xff
}

/// Whether every byte of a block is erased.
fn block_is_erased<D: BlockDevice>(device: &mut D, block: u32, size: u32) -> (r: Result<
    bool,
    D::Error,
>)
    requires
        block < old(device).geom().block_count,
        size == old(device).geom().block_size,
        crate::littlefs::format::media_shape(old(device).media(), old(device).geom()),
    ensures
        crate::littlefs::segment::untouched(*old(device), *final(device)),
        match r {
            Ok(erased) => final(device).faults() == old(device).faults() && erased == forall|i: int|
                0 <= i < size ==> #[trigger] old(device).media()[block as int][i] == 0xff,
            Err(_) => final(device).faults() > old(device).faults(),
        },
{
    let ghost bytes = device.media()[block as int];
    let ghost faults = device.faults();
    let (mut state, mut finding) = Readback::new(size as usize);
    loop
        invariant_except_break
            state.len == size,
            state.offset <= size,
            finding == due(state),
            crate::littlefs::segment::untouched(*old(device), *device),
            device.faults() == faults,
            faults == old(device).faults(),
            block < device.geom().block_count,
            size == device.geom().block_size,
            bytes == old(device).media()[block as int],
            bytes.len() == size,
            forall|i: int| 0 <= i < state.offset ==> #[trigger] bytes[i] == 0xff,
        ensures
            crate::littlefs::segment::untouched(*old(device), *device),
            device.faults() == old(device).faults(),
            bytes == old(device).media()[block as int],
            bytes.len() == size,
            finding is Good ==> forall|i: int| 0 <= i < size ==> #[trigger] bytes[i] == 0xff,
            finding is Bad ==> exists|i: int| 0 <= i < size && #[trigger] bytes[i] != 0xff,
            finding is Good || finding is Bad,
        decreases size - state.offset, (if state.doubted {
            0int
        } else {
            1
        }),
    {
        match finding {
            Finding::Read { offset, len } => {
                let mut scratch: Vec<u8> = vec![0u8;len];
                match device.read(block, offset as u32, scratch.as_mut_slice()) {
                    Ok(_) => {},
                    Err(e) => {
                        return Err(e);
                    },
                }
                let ghost before = state;
                finding = state.judge(scratch.as_slice(), None);
                proof {
                    assert(scratch@ == bytes.subrange(offset as int, offset + len));
                    if as_expected(scratch@, None, before.offset as int) {
                        assert forall|i: int| 0 <= i < state.offset implies #[trigger] bytes[i]
                            == 0xff by {
                            if i >= before.offset {
                                assert(scratch@[i - before.offset] == 0xff);
                            }
                        }
                    } else {
                        let k = choose|k: int|
                            0 <= k < scratch@.len() && #[trigger] scratch@[k] != 0xff;
                        assert(bytes[before.offset + k] != 0xff);
                    }
                }
                if matches!(finding, Finding::Bad) {
                    break;
                }
            },
            Finding::Good => {
                break;
            },
            Finding::Bad => {
                break;
            },
        }
    }
    Ok(matches!(finding, Finding::Good))
}

/// Whether the whole medium is erased.
pub fn partition_is_erased<D: BlockDevice>(device: &mut D) -> (r: Result<bool, D::Error>)
    ensures
        crate::littlefs::segment::untouched(*old(device), *final(device)),
        match r {
            Ok(erased) => final(device).faults() == old(device).faults() && erased == is_erased(
                old(device).media(),
            ),
            Err(_) => final(device).faults() > old(device).faults(),
        },
{
    let count: u32 = device.block_count();
    let size: u32 = device.block_size();
    let ghost media = device.media();
    let ghost faults = device.faults();
    let mut block: u32 = 0;
    while block < count
        invariant
            block <= count,
            count == device.geom().block_count,
            size == device.geom().block_size,
            crate::littlefs::segment::untouched(*old(device), *device),
            media == old(device).media(),
            device.faults() == faults,
            faults == old(device).faults(),
            crate::littlefs::format::media_shape(media, device.geom()),
            forall|b: int, i: int|
                0 <= b < block && 0 <= i < media[b].len() ==> #[trigger] media[b][i] == 0xff,
        decreases count - block,
    {
        match block_is_erased(device, block, size) {
            Ok(true) => {},
            Ok(false) => {
                return Ok(false);
            },
            Err(e) => {
                return Err(e);
            },
        }
        block += 1;
    }
    Ok(true)
}

/// Looking at a device failed and left it as `after`.
pub open spec fn check_failed<D: BlockDevice>(before: D, after: D) -> bool {
    &&& crate::littlefs::segment::untouched(before, after)
    &&& after.faults() > before.faults()
}

/// How a start with the device that was found came to its end.
pub open spec fn started<D: BlockDevice>(
    device: Option<D>,
    before: Option<FileSystem<D>>,
    after: Option<FileSystem<D>>,
    r: Result<Startup, Error<D::Error>>,
) -> bool {
    match (r, device) {
        (Ok(startup), Some(d)) => {
            &&& startup == Startup::Mounted
            &&& after is Some
            &&& mounted_from(d, after->0)
        },
        (Err(error), Some(d)) => after == before && mounting_fails(d, error),
        (Ok(_), None) => false,
        (Err(error), None) => after == before && error is DeviceBusy,
    }
}

/// How a start with a device without a snapshot came to its end.
pub open spec fn started_empty<D: BlockDevice>(
    device: Option<D>,
    before: Option<FileSystem<D>>,
    after: Option<FileSystem<D>>,
    r: Result<Startup, Error<D::Error>>,
) -> bool {
    match (r, device) {
        (Ok(startup), Some(d)) => {
            &&& startup == Startup::Formatted
            &&& is_erased(d.media())
            &&& after is Some
            &&& exists|checked: D|
                {
                    &&& crate::littlefs::segment::untouched(d, checked)
                    &&& checked.faults() == d.faults()
                    &&& #[trigger] formatted_from(checked, after->0)
                }
        },
        (Err(error), Some(d)) => {
            &&& after == before
            &&& ({
                ||| error is NotFormatted && !is_erased(d.media())
                ||| error is Device && exists|checked: D| #[trigger] check_failed(d, checked)
                ||| is_erased(d.media()) && exists|checked: D|
                    {
                        &&& crate::littlefs::segment::untouched(d, checked)
                        &&& checked.faults() == d.faults()
                        &&& #[trigger] formatting_fails(checked, error)
                    }
            })
        },
        (Ok(_), None) => false,
        (Err(error), None) => after == before && error is DeviceBusy,
    }
}

/// Start the file system: a snapshot is mounted. `device` is missing if the partition is
/// in use. If there is no snapshot, which is [`Error::NotFormatted`], the device is free
/// again and [`start_empty`] is due, as [`tries_empty`] says.
pub fn start<D: BlockDevice>(slot: &mut Option<FileSystem<D>>, device: Option<D>) -> (r: Result<
    Startup,
    Error<D::Error>,
>)
    ensures
        started(device, *old(slot), *final(slot), r),
{
    match mount(device) {
        Ok(fs) => {
            *slot = Some(fs);
            Ok(Startup::Mounted)
        },
        Err(error) => Err(error),
    }
}

/// Whether [`start_empty`] is due after [`start`]: only if there was no snapshot.
pub fn tries_empty<E>(r: &Result<Startup, Error<E>>) -> (again: bool)
    ensures
        again == (*r is Err && r->Err_0 is NotFormatted),
{
    matches!(r, Err(Error::NotFormatted))
}

/// Start the file system on a partition without a snapshot: it is formatted only if it
/// is erased, so that nothing is lost.
pub fn start_empty<D: BlockDevice>(slot: &mut Option<FileSystem<D>>, device: Option<D>) -> (r:
    Result<Startup, Error<D::Error>>)
    ensures
        started_empty(device, *old(slot), *final(slot), r),
{
    let ghost spare = device;
    let mut device: D = match device {
        Some(device) => device,
        None => {
            return Err(Error::DeviceBusy);
        },
    };
    match partition_is_erased(&mut device) {
        Ok(true) => {},
        Ok(false) => {
            return Err(Error::NotFormatted);
        },
        Err(e) => {
            assert(check_failed(spare->0, device));
            return Err(Error::Device(e));
        },
    }
    let ghost checked = device;
    assert(checked.media() == spare->0.media() && checked.geom() == spare->0.geom());
    match format(Some(device)) {
        Ok(fs) => {
            *slot = Some(fs);
            assert(formatted_from(checked, (*slot)->0));
            Ok(Startup::Formatted)
        },
        Err(error) => {
            assert(formatting_fails(checked, error));
            Err(error)
        },
    }
}

/// Starting preserves what is there: with a snapshot the medium stays as it is, and
/// without one it is written only if it is erased.
pub proof fn law_starting_preserves_data<D: BlockDevice>(
    device: D,
    before: Option<FileSystem<D>>,
    after: Option<FileSystem<D>>,
    r: Result<Startup, Error<D::Error>>,
)
    ensures
        started(Some(device), before, after, r) && r is Ok ==> after->0.dev().media()
            == device.media(),
        started_empty(Some(device), before, after, r) && r is Ok ==> is_erased(device.media()),
        started_empty(Some(device), before, after, r) && r is Err && !is_erased(device.media())
            ==> r->Err_0 is NotFormatted || r->Err_0 is Device,
{
}

} // verus!
