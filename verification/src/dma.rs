//! Direct memory access: two units with four channels each.
//!
//! A channel moves blocks of items. Each request moves one block, and when the
//! requests that were asked for have come, the channel reports completion and
//! stops. Requests come from peripherals, over a selector, or from software.

use vstd::prelude::*;

use crate::clk;
use crate::intc;
use crate::intc::{IrqError, Line, Registration};
use crate::mmio::{Access, Cleanup, Limit, Otherwise, Step, change_word, when_word, word};

verus! {

const AOS_INTSFTTRG: usize = 0x4001_0800;

const AOS_DMA_RC_TRGSEL: usize = 0x4001_0834;

const READBACK_RETRIES: u32 = 0x1000;

/// Microseconds in which a block of a copy is moved.
pub const COPY_CHUNK_TIMEOUT_US: u32 = 10_000;

/// Milliseconds in which the transmitter comes to rest before a transfer.
pub const UART_TX_ARM_TIMEOUT_MS: u32 = 10;

/// The event that software triggers.
pub const AOS_STRG: u32 = 319;

/// The event of a USART that has received.
pub fn usart_ri(unit: u8) -> (r: u32)
    requires
        unit >= 1,
    ensures
        r == 279 + (unit - 1) * 5,
{
    279 + (unit as u32 - 1) * 5
}

/// The event of a USART that can transmit.
pub fn usart_ti(unit: u8) -> (r: u32)
    requires
        unit >= 1,
    ensures
        r == 280 + (unit - 1) * 5,
{
    280 + (unit as u32 - 1) * 5
}

/// Bits of an item.
#[derive(Clone, Copy, Debug, PartialEq, Eq, Structural)]
pub enum Width {
    B8,
    B16,
    B32,
}

/// What happens to an address after an item.
#[derive(Clone, Copy, Debug, PartialEq, Eq, Structural)]
pub enum AddrMode {
    Fix,
    Inc,
    Dec,
}

/// The code of a width.
pub open spec fn width_code(width: Width) -> u32 {
    match width {
        Width::B8 => 0,
        Width::B16 => 1,
        Width::B32 => 2,
    }
}

/// Bytes of an item.
pub open spec fn width_bytes(width: Width) -> int {
    match width {
        Width::B8 => 1,
        Width::B16 => 2,
        Width::B32 => 4,
    }
}

/// The code of an address mode.
pub open spec fn addr_code(mode: AddrMode) -> u32 {
    match mode {
        AddrMode::Fix => 0,
        AddrMode::Inc => 1,
        AddrMode::Dec => 2,
    }
}

impl Width {
    fn bits(self) -> (r: u32)
        ensures
            r == width_code(self),
    {
        match self {
            Width::B8 => 0,
            Width::B16 => 1,
            Width::B32 => 2,
        }
    }

    /// Bytes of an item.
    pub fn bytes(self) -> (r: u32)
        ensures
            r == width_bytes(self),
    {
        match self {
            Width::B8 => 1,
            Width::B16 => 2,
            Width::B32 => 4,
        }
    }
}

impl AddrMode {
    fn bits(self) -> (r: u32)
        ensures
            r == addr_code(self),
    {
        match self {
            AddrMode::Fix => 0,
            AddrMode::Inc => 1,
            AddrMode::Dec => 2,
        }
    }
}

/// The configuration of a channel.
#[derive(Clone, Copy, Debug, PartialEq, Eq, Structural)]
pub struct Config {
    pub width: Width,
    pub src_addr: u32,
    pub dest_addr: u32,
    /// Items that a request moves; 0 stands for 1024.
    pub block_size: u16,
    /// Requests until completion; 0 for any number.
    pub trans_count: u16,
    pub src_inc: AddrMode,
    pub dest_inc: AddrMode,
    /// Whether completion interrupts.
    pub int_tc: bool,
    /// Whether an error interrupts.
    pub int_err: bool,
}

impl Default for Config {
    fn default() -> (r: Self)
        ensures
            r == (Config {
                width: Width::B8,
                src_addr: 0,
                dest_addr: 0,
                block_size: 1,
                trans_count: 0,
                src_inc: AddrMode::Fix,
                dest_inc: AddrMode::Fix,
                int_tc: false,
                int_err: false,
            }),
    {
        Config {
            width: Width::B8,
            src_addr: 0,
            dest_addr: 0,
            block_size: 1,
            trans_count: 0,
            src_inc: AddrMode::Fix,
            dest_inc: AddrMode::Fix,
            int_tc: false,
            int_err: false,
        }
    }
}

/// Why an operation failed.
#[derive(Clone, Copy, Debug, PartialEq, Eq, Structural)]
pub enum DmaError {
    /// The channel is in use.
    Taken,
    /// Another channel did not come to rest.
    ChannelBusy,
    /// An address is not a multiple of the width.
    BadAlign,
    /// A register did not take its value.
    WriteTimeout,
    /// A transfer was not completed in time.
    Timeout,
    /// A transfer failed.
    TransferError,
    /// Source and destination are of different length.
    LengthMismatch,
}

// ---------------------------------------------------------------------------
// Channels
// ---------------------------------------------------------------------------

/// A channel: `CH` (0 to 3) of `UNIT` (1 or 2).
pub struct Dma<const UNIT: u8, const CH: u8> {
    private: (),
}

pub type Dma1Ch0 = Dma<1, 0>;

pub type Dma1Ch1 = Dma<1, 1>;

pub type Dma1Ch2 = Dma<1, 2>;

pub type Dma1Ch3 = Dma<1, 3>;

pub type Dma2Ch0 = Dma<2, 0>;

pub type Dma2Ch1 = Dma<2, 1>;

pub type Dma2Ch2 = Dma<2, 2>;

pub type Dma2Ch3 = Dma<2, 3>;

/// There is such a channel.
pub open spec fn exists_channel(unit: u8, ch: u8) -> bool {
    (unit == 1 || unit == 2) && ch <= 3
}

/// Where the registers of a unit are.
pub open spec fn unit_at(unit: u8, offset: int) -> usize {
    (if unit == 1 {
        0x4005_3000 + offset
    } else {
        0x4005_3400 + offset
    }) as usize
}

/// Where the registers of a channel are.
pub open spec fn channel_at(unit: u8, ch: u8, offset: int) -> usize {
    unit_at(unit, 0x40 + 0x40 * ch + offset)
}

/// The number of a channel among all channels.
pub open spec fn slot_of(unit: u8, ch: u8) -> int {
    (unit - 1) * 4 + ch
}

/// The bit of a channel.
pub open spec fn bit(ch: u8) -> u32 {
    1u32 << ch
}

/// The bit of a channel in the upper half.
pub open spec fn high_bit(ch: u8) -> u32 {
    1u32 << ((16 + ch) as u8)
}

/// Both bits of a channel.
pub open spec fn both_bits(ch: u8) -> u32 {
    bit(ch) | high_bit(ch)
}

/// The address is a multiple of the width.
pub open spec fn aligned(width: Width, addr: u32) -> bool {
    addr as int % width_bytes(width) == 0
}

/// A channel is configured: addresses, block and count, control, and its
/// interrupts, which are masked unless they are wanted.
pub open spec fn configure_steps(unit: u8, ch: u8, cfg: Config) -> Seq<Step<DmaError>> {
    seq![
        Step::<DmaError>::Do(word(channel_at(unit, ch, 0x00), cfg.src_addr)),
        Step::<DmaError>::Do(word(channel_at(unit, ch, 0x04), cfg.dest_addr)),
        Step::<DmaError>::Do(
            word(
                channel_at(unit, ch, 0x08),
                (cfg.block_size as u32 & 0x3ff) | ((cfg.trans_count as u32) << 16u32),
            ),
        ),
        Step::<DmaError>::Do(
            change_word(
                channel_at(unit, ch, 0x1c),
                0x130f,
                addr_code(cfg.src_inc) | (addr_code(cfg.dest_inc) << 2u32) | (width_code(cfg.width)
                    << 8u32) | (if cfg.int_tc {
                    0x1000u32
                } else {
                    0
                }),
            ),
        ),
        Step::<DmaError>::Do(
            if cfg.int_tc {
                change_word(unit_at(unit, 0x10), both_bits(ch), 0)
            } else {
                change_word(unit_at(unit, 0x10), 0, both_bits(ch))
            },
        ),
        Step::<DmaError>::Do(
            if cfg.int_err {
                change_word(unit_at(unit, 0x0c), both_bits(ch), 0)
            } else {
                change_word(unit_at(unit, 0x0c), 0, both_bits(ch))
            },
        ),
    ]
}

/// A register is written until its shadow shows the value.
pub open spec fn settle(access: Access, shadow: usize, mask: u32, value: u32, cleanup: Cleanup) -> Step<
    DmaError,
> {
    Step::Insist {
        access,
        check: when_word(shadow, mask, value),
        tries: 0x1000,
        otherwise: Otherwise::Fail { cleanup, error: DmaError::WriteTimeout },
    }
}

/// The other channels of the unit come to rest, within two milliseconds.
pub open spec fn others_idle(unit: u8, ch: u8) -> Step<DmaError> {
    Step::Wait {
        check: when_word(unit_at(unit, 0x1c), 0x0f & !bit(ch), 0),
        limit: Limit::Micros(2_000),
        otherwise: Otherwise::Fail { cleanup: Cleanup::Nothing, error: DmaError::ChannelBusy },
    }
}

/// A channel is enabled.
pub open spec fn enable_steps(unit: u8, ch: u8) -> Seq<Step<DmaError>> {
    seq![
        others_idle(unit, ch),
        Step::<DmaError>::Do(change_word(unit_at(unit, 0x1c), 0, bit(ch))),
    ]
}

/// A channel is disabled.
pub open spec fn disable_steps(unit: u8, ch: u8) -> Seq<Step<DmaError>> {
    seq![
        others_idle(unit, ch),
        Step::<DmaError>::Do(change_word(unit_at(unit, 0x1c), bit(ch), 0)),
    ]
}

/// Completion is waited for.
pub open spec fn done_wait(unit: u8, ch: u8, timeout_us: u32) -> Step<DmaError> {
    Step::Wait {
        check: when_word(unit_at(unit, 0x08), bit(ch), bit(ch)),
        limit: Limit::Micros(timeout_us),
        otherwise: Otherwise::Fail { cleanup: Cleanup::Nothing, error: DmaError::Timeout },
    }
}

fn unit_reg(unit: u8, offset: usize) -> (r: usize)
    requires
        unit == 1 || unit == 2,
        offset <= 0x400,
    ensures
        r == unit_at(unit, offset as int),
{
    if unit == 1 {
        0x4005_3000 + offset
    } else {
        0x4005_3400 + offset
    }
}

fn is_aligned(width: Width, addr: u32) -> (r: bool)
    ensures
        r == aligned(width, addr),
{
    match width {
        Width::B8 => true,
        Width::B16 => addr % 2 == 0,
        Width::B32 => addr % 4 == 0,
    }
}

impl<const UNIT: u8, const CH: u8> Dma<UNIT, CH> {
    /// A handle of the channel.
    pub fn new() -> (r: Self)
        requires
            exists_channel(UNIT, CH),
    {
        Dma { private: () }
    }

    /// The channel, if it is not in use; `taken` has a bit for each channel that
    /// is.
    pub fn take(taken: &mut u32) -> (r: Option<Self>)
        requires
            exists_channel(UNIT, CH),
        ensures
            *final(taken) == *old(taken) | (1u32 << (slot_of(UNIT, CH) as u32)),
            r is Some <==> *old(taken) & (1u32 << (slot_of(UNIT, CH) as u32)) == 0,
    {
        let slot: u32 = (UNIT as u32 - 1) * 4 + CH as u32;
        let mine: u32 = 1u32 << slot;
        let before: u32 = *taken;
        *taken = before | mine;
        if before & mine == 0 {
            Some(Dma { private: () })
        } else {
            None
        }
    }

    fn ch_reg(offset: usize) -> (r: usize)
        requires
            exists_channel(UNIT, CH),
            offset <= 0x40,
        ensures
            r == channel_at(UNIT, CH, offset as int),
    {
        unit_reg(UNIT, 0x40 + 0x40 * (CH as usize) + offset)
    }

    fn low() -> (r: u32)
        requires
            exists_channel(UNIT, CH),
        ensures
            r == bit(CH),
    {
        1u32 << CH
    }

    fn high() -> (r: u32)
        requires
            exists_channel(UNIT, CH),
        ensures
            r == high_bit(CH),
    {
        1u32 << (16 + CH)
    }

    /// Switch the whole unit on or off.
    pub fn cmd(&self, enable: bool) -> (r: Access)
        requires
            exists_channel(UNIT, CH),
        ensures
            r == word(
                unit_at(UNIT, 0x00),
                if enable {
                    1
                } else {
                    0
                },
            ),
    {
        let value: u32 = if enable {
            1
        } else {
            0
        };
        word(unit_reg(UNIT, 0x00), value)
    }

    /// Configure the channel, which must not be running.
    pub fn configure(&self, cfg: &Config) -> (r: Result<Vec<Step<DmaError>>, DmaError>)
        requires
            exists_channel(UNIT, CH),
        ensures
            match r {
                Ok(steps) => {
                    &&& aligned(cfg.width, cfg.src_addr)
                    &&& aligned(cfg.width, cfg.dest_addr)
                    &&& steps@ == configure_steps(UNIT, CH, *cfg)
                },
                Err(e) => e == DmaError::BadAlign && !(aligned(cfg.width, cfg.src_addr)
                    && aligned(cfg.width, cfg.dest_addr)),
            },
    {
        if !is_aligned(cfg.width, cfg.src_addr) || !is_aligned(cfg.width, cfg.dest_addr) {
            return Err(DmaError::BadAlign);
        }
        let ie: u32 = if cfg.int_tc {
            0x1000
        } else {
            0
        };
        let control: u32 = cfg.src_inc.bits() | (cfg.dest_inc.bits() << 2u32) | (cfg.width.bits()
            << 8u32) | ie;
        let both: u32 = Self::low() | Self::high();
        let tc: Access = if cfg.int_tc {
            change_word(unit_reg(UNIT, 0x10), both, 0)
        } else {
            change_word(unit_reg(UNIT, 0x10), 0, both)
        };
        let err: Access = if cfg.int_err {
            change_word(unit_reg(UNIT, 0x0c), both, 0)
        } else {
            change_word(unit_reg(UNIT, 0x0c), 0, both)
        };
        Ok(
            vec![
                Step::Do(word(Self::ch_reg(0x00), cfg.src_addr)),
                Step::Do(word(Self::ch_reg(0x04), cfg.dest_addr)),
                Step::Do(
                    word(
                        Self::ch_reg(0x08),
                        (cfg.block_size as u32 & 0x3ff) | ((cfg.trans_count as u32) << 16u32),
                    ),
                ),
                Step::Do(change_word(Self::ch_reg(0x1c), 0x130f, control)),
                Step::Do(tc),
                Step::Do(err),
            ],
        )
    }

    /// Set the source address.
    pub fn set_src_addr(&self, addr: u32) -> (r: Step<DmaError>)
        requires
            exists_channel(UNIT, CH),
        ensures
            r == settle(
                word(channel_at(UNIT, CH, 0x00), addr),
                channel_at(UNIT, CH, 0x20),
                0xffff_ffff,
                addr,
                Cleanup::One(word(channel_at(UNIT, CH, 0x00), addr)),
            ),
    {
        let access: Access = word(Self::ch_reg(0x00), addr);
        Step::Insist {
            access,
            check: when_word(Self::ch_reg(0x20), 0xffff_ffff, addr),
            tries: READBACK_RETRIES,
            otherwise: Otherwise::Fail {
                cleanup: Cleanup::One(access),
                error: DmaError::WriteTimeout,
            },
        }
    }

    /// Set the destination address.
    pub fn set_dest_addr(&self, addr: u32) -> (r: Step<DmaError>)
        requires
            exists_channel(UNIT, CH),
        ensures
            r == settle(
                word(channel_at(UNIT, CH, 0x04), addr),
                channel_at(UNIT, CH, 0x24),
                0xffff_ffff,
                addr,
                Cleanup::One(word(channel_at(UNIT, CH, 0x04), addr)),
            ),
    {
        let access: Access = word(Self::ch_reg(0x04), addr);
        Step::Insist {
            access,
            check: when_word(Self::ch_reg(0x24), 0xffff_ffff, addr),
            tries: READBACK_RETRIES,
            otherwise: Otherwise::Fail {
                cleanup: Cleanup::One(access),
                error: DmaError::WriteTimeout,
            },
        }
    }

    /// Set the number of requests.
    pub fn set_trans_count(&self, count: u16) -> (r: Step<DmaError>)
        requires
            exists_channel(UNIT, CH),
        ensures
            r == settle(
                change_word(channel_at(UNIT, CH, 0x08), 0xffff_0000, (count as u32) << 16u32),
                channel_at(UNIT, CH, 0x28),
                0xffff_0000,
                (count as u32) << 16u32,
                Cleanup::Nothing,
            ),
    {
        let value: u32 = (count as u32) << 16u32;
        Step::Insist {
            access: change_word(Self::ch_reg(0x08), 0xffff_0000, value),
            check: when_word(Self::ch_reg(0x28), 0xffff_0000, value),
            tries: READBACK_RETRIES,
            otherwise: Otherwise::Fail {
                cleanup: Cleanup::Nothing,
                error: DmaError::WriteTimeout,
            },
        }
    }

    /// Set the number of items that a request moves.
    pub fn set_block_size(&self, size: u16) -> (r: Step<DmaError>)
        requires
            exists_channel(UNIT, CH),
        ensures
            r == settle(
                change_word(channel_at(UNIT, CH, 0x08), 0x3ff, size as u32 & 0x3ff),
                channel_at(UNIT, CH, 0x28),
                0x3ff,
                size as u32 & 0x3ff,
                Cleanup::Nothing,
            ),
    {
        let value: u32 = size as u32 & 0x3ff;
        Step::Insist {
            access: change_word(Self::ch_reg(0x08), 0x3ff, value),
            check: when_word(Self::ch_reg(0x28), 0x3ff, value),
            tries: READBACK_RETRIES,
            otherwise: Otherwise::Fail {
                cleanup: Cleanup::Nothing,
                error: DmaError::WriteTimeout,
            },
        }
    }

    /// Set the width of an item.
    pub fn set_width(&self, width: Width) -> (r: Access)
        requires
            exists_channel(UNIT, CH),
        ensures
            r == change_word(channel_at(UNIT, CH, 0x1c), 0x300, width_code(width) << 8u32),
    {
        change_word(Self::ch_reg(0x1c), 0x300, width.bits() << 8u32)
    }

    /// Let the channel load a descriptor when it is done, and go on at once or at
    /// the next request.
    pub fn llp_enable(&self, desc_addr: u32, auto_run: bool) -> (r: Result<
        Vec<Step<DmaError>>,
        DmaError,
    >)
        requires
            exists_channel(UNIT, CH),
        ensures
            match r {
                Ok(steps) => desc_addr % 4 == 0 && steps@ == seq![
                    Step::<DmaError>::Do(
                        word(channel_at(UNIT, CH, 0x18), desc_addr & 0xffff_fffc),
                    ),
                    Step::<DmaError>::Do(
                        change_word(
                            channel_at(UNIT, CH, 0x1c),
                            0,
                            if auto_run {
                                0xc00
                            } else {
                                0x400
                            },
                        ),
                    ),
                ],
                Err(e) => e == DmaError::BadAlign && desc_addr % 4 != 0,
            },
    {
        if desc_addr % 4 != 0 {
            return Err(DmaError::BadAlign);
        }
        let bits: u32 = if auto_run {
            0xc00
        } else {
            0x400
        };
        Ok(
            vec![
                Step::Do(self.set_llp_addr(desc_addr)),
                Step::Do(change_word(Self::ch_reg(0x1c), 0, bits)),
            ],
        )
    }

    /// Do not load descriptors.
    pub fn llp_disable(&self) -> (r: Access)
        requires
            exists_channel(UNIT, CH),
        ensures
            r == change_word(channel_at(UNIT, CH, 0x1c), 0x400, 0),
    {
        change_word(Self::ch_reg(0x1c), 0x400, 0)
    }

    /// Set the address of the descriptor.
    pub fn set_llp_addr(&self, desc_addr: u32) -> (r: Access)
        requires
            exists_channel(UNIT, CH),
        ensures
            r == word(channel_at(UNIT, CH, 0x18), desc_addr & 0xffff_fffc),
    {
        word(Self::ch_reg(0x18), desc_addr & 0xffff_fffc)
    }

    /// Let a reconfiguration of this channel load its descriptor, or not.
    pub fn reconfig_llp(&self, enable: bool) -> (r: Access)
        requires
            exists_channel(UNIT, CH),
        ensures
            r == change_word(
                unit_at(UNIT, 0x2c),
                0xf02,
                ((CH as u32) << 8u32) | (if enable {
                    0x02u32
                } else {
                    0
                }),
            ),
    {
        let llp: u32 = if enable {
            0x02
        } else {
            0
        };
        change_word(unit_reg(UNIT, 0x2c), 0xf02, ((CH as u32) << 8u32) | llp)
    }

    /// Switch reconfiguration on or off.
    pub fn reconfig_cmd(&self, enable: bool) -> (r: Access)
        requires
            exists_channel(UNIT, CH),
        ensures
            r == (if enable {
                change_word(unit_at(UNIT, 0x2c), 0, 1)
            } else {
                change_word(unit_at(UNIT, 0x2c), 1, 0)
            }),
    {
        if enable {
            change_word(unit_reg(UNIT, 0x2c), 0, 1)
        } else {
            change_word(unit_reg(UNIT, 0x2c), 1, 0)
        }
    }

    /// Make a request from software; the key unlocks the register.
    pub fn sw_trigger(&self) -> (r: Access)
        requires
            exists_channel(UNIT, CH),
        ensures
            r == word(unit_at(UNIT, 0x30), 0x00a1_0000 | bit(CH)),
    {
        word(unit_reg(UNIT, 0x30), 0x00a1_0000 | Self::low())
    }

    /// Reconfigure from software; the key unlocks the register.
    pub fn sw_reconfig(&self) -> (r: Access)
        requires
            exists_channel(UNIT, CH),
        ensures
            r == word(unit_at(UNIT, 0x30), 0xa200_8000),
    {
        word(unit_reg(UNIT, 0x30), 0xa200_8000)
    }

    fn wait_other_channels_idle(&self) -> (r: Step<DmaError>)
        requires
            exists_channel(UNIT, CH),
        ensures
            r == others_idle(UNIT, CH),
    {
        Step::Wait {
            check: when_word(unit_reg(UNIT, 0x1c), 0x0f & !Self::low(), 0),
            limit: Limit::Micros(2_000),
            otherwise: Otherwise::Fail {
                cleanup: Cleanup::Nothing,
                error: DmaError::ChannelBusy,
            },
        }
    }

    /// Enable the channel, once the others have come to rest.
    pub fn enable(&self) -> (r: Vec<Step<DmaError>>)
        requires
            exists_channel(UNIT, CH),
        ensures
            r@ == enable_steps(UNIT, CH),
    {
        vec![
            self.wait_other_channels_idle(),
            Step::Do(change_word(unit_reg(UNIT, 0x1c), 0, Self::low())),
        ]
    }

    /// Disable the channel, once the others have come to rest.
    pub fn disable(&self) -> (r: Vec<Step<DmaError>>)
        requires
            exists_channel(UNIT, CH),
        ensures
            r@ == disable_steps(UNIT, CH),
    {
        vec![
            self.wait_other_channels_idle(),
            Step::Do(change_word(unit_reg(UNIT, 0x1c), Self::low(), 0)),
        ]
    }

    /// Make sure that the channel has stopped: what is to be done before the
    /// registers are read again, or nothing when it has.
    pub fn stop_blocking(&self, chen: u32, chstat: u32) -> (r: Option<Vec<Step<DmaError>>>)
        requires
            exists_channel(UNIT, CH),
        ensures
            match r {
                Some(steps) => (chen & bit(CH) != 0 || chstat & high_bit(CH) != 0) && steps@
                    == disable_steps(UNIT, CH),
                None => chen & bit(CH) == 0 && chstat & high_bit(CH) == 0,
            },
    {
        if self.is_enabled(chen) || self.is_busy(chstat) {
            Some(self.disable())
        } else {
            None
        }
    }

    /// Whether the channel is moving data, given the status register.
    pub fn is_busy(&self, chstat: u32) -> (r: bool)
        requires
            exists_channel(UNIT, CH),
        ensures
            r == (chstat & high_bit(CH) != 0),
    {
        chstat & Self::high() != 0
    }

    /// Whether the channel is enabled, given the enable register.
    pub fn is_enabled(&self, chen: u32) -> (r: bool)
        requires
            exists_channel(UNIT, CH),
        ensures
            r == (chen & bit(CH) != 0),
    {
        chen & Self::low() != 0
    }

    /// Whether a transfer is complete, given the completion register.
    pub fn tc_pending(&self, intstat1: u32) -> (r: bool)
        requires
            exists_channel(UNIT, CH),
        ensures
            r == (intstat1 & bit(CH) != 0),
    {
        intstat1 & Self::low() != 0
    }

    /// Whether a transfer or a request failed, given the error register.
    pub fn error_pending(&self, intstat0: u32) -> (r: bool)
        requires
            exists_channel(UNIT, CH),
        ensures
            r == (intstat0 & bit(CH) != 0 || intstat0 & high_bit(CH) != 0),
    {
        intstat0 & Self::low() != 0 || intstat0 & Self::high() != 0
    }

    /// Requests that are left, given the shadow of the count.
    pub fn remaining(&self, mondtctl: u32) -> (r: u16)
        ensures
            r == mondtctl / 0x1_0000,
    {
        assert(mondtctl >> 16u32 == mondtctl / 0x1_0000) by (bit_vector);
        (mondtctl >> 16u32) as u16
    }

    /// Clear completion.
    pub fn clear_tc(&self) -> (r: Access)
        requires
            exists_channel(UNIT, CH),
        ensures
            r == word(unit_at(UNIT, 0x18), bit(CH)),
    {
        word(unit_reg(UNIT, 0x18), Self::low())
    }

    /// Clear errors.
    pub fn clear_errors(&self) -> (r: Access)
        requires
            exists_channel(UNIT, CH),
        ensures
            r == word(unit_at(UNIT, 0x14), both_bits(CH)),
    {
        word(unit_reg(UNIT, 0x14), Self::low() | Self::high())
    }

    /// Wait until the transfer is complete.
    pub fn wait_done(&self, timeout_us: u32) -> (r: Step<DmaError>)
        requires
            exists_channel(UNIT, CH),
        ensures
            r == done_wait(UNIT, CH, timeout_us),
    {
        Step::Wait {
            check: when_word(unit_reg(UNIT, 0x08), Self::low(), Self::low()),
            limit: Limit::Micros(timeout_us),
            otherwise: Otherwise::Fail { cleanup: Cleanup::Nothing, error: DmaError::Timeout },
        }
    }

    /// Let completion interrupt over a line whose selection register holds
    /// `selected`: the slot of the callback, and how the interrupt is registered
    /// and unmasked.
    pub fn install_tc_irq(&self, line: Line, priority: u8, selected: u32) -> (r: (
        usize,
        Result<(Registration, Access), IrqError>,
    ))
        requires
            exists_channel(UNIT, CH),
            priority <= 15,
        ensures
            r.0 == slot_of(UNIT, CH),
            ({
                let event = (32 + slot_of(UNIT, CH)) as u32;
                match r.1 {
                    Ok((registration, unmask)) => {
                        &&& line.number() < 128
                        &&& selected == 0x1ff || selected == event
                        &&& registration.route == intc::select_access(line.number(), event)
                        &&& registration.slot == line.number()
                        &&& registration.arm@ == seq![
                            intc::line_access(0xe000_e280, line.number()),
                            intc::priority_access(line.number(), priority),
                            intc::line_access(0xe000_e100, line.number()),
                        ]
                        &&& unmask == change_word(unit_at(UNIT, 0x10), bit(CH), 0)
                    },
                    Err(IrqError::LineUnsupported) => line.number() >= 128,
                    Err(IrqError::LineTaken) => line.number() < 128 && selected != 0x1ff
                        && selected != event,
                }
            }),
    {
        let slot: usize = (UNIT as usize - 1) * 4 + CH as usize;
        let event: u32 = 32 + (UNIT as u32 - 1) * 4 + CH as u32;
        match intc::register(event, line, priority, selected) {
            Ok(registration) => (
                slot,
                Ok((registration, change_word(unit_reg(UNIT, 0x10), Self::low(), 0))),
            ),
            Err(e) => (slot, Err(e)),
        }
    }

    /// Let errors of the unit interrupt over a line whose selection register holds
    /// `selected`: the slot of the callback, and how the interrupt is registered
    /// and unmasked for this channel.
    pub fn install_err_irq(&self, line: Line, priority: u8, selected: u32) -> (r: (
        usize,
        Result<(Registration, Access), IrqError>,
    ))
        requires
            exists_channel(UNIT, CH),
            priority <= 15,
        ensures
            r.0 == slot_of(UNIT, CH),
            ({
                let event = (48 + UNIT - 1) as u32;
                match r.1 {
                    Ok((registration, unmask)) => {
                        &&& line.number() < 128
                        &&& selected == 0x1ff || selected == event
                        &&& registration.route == intc::select_access(line.number(), event)
                        &&& registration.slot == line.number()
                        &&& registration.arm@ == seq![
                            intc::line_access(0xe000_e280, line.number()),
                            intc::priority_access(line.number(), priority),
                            intc::line_access(0xe000_e100, line.number()),
                        ]
                        &&& unmask == change_word(unit_at(UNIT, 0x0c), both_bits(CH), 0)
                    },
                    Err(IrqError::LineUnsupported) => line.number() >= 128,
                    Err(IrqError::LineTaken) => line.number() < 128 && selected != 0x1ff
                        && selected != event,
                }
            }),
    {
        let slot: usize = (UNIT as usize - 1) * 4 + CH as usize;
        let event: u32 = 48 + (UNIT as u32 - 1);
        match intc::register(event, line, priority, selected) {
            Ok(registration) => (
                slot,
                Ok(
                    (
                        registration,
                        change_word(unit_reg(UNIT, 0x0c), Self::low() | Self::high(), 0),
                    ),
                ),
            ),
            Err(e) => (slot, Err(e)),
        }
    }
}

// ---------------------------------------------------------------------------
// Copying memory
// ---------------------------------------------------------------------------

/// A copy that is going on.
#[derive(Clone, Copy, Debug, PartialEq, Eq, Structural)]
pub struct Transfer {
    pub width: Width,
    /// Where the rest comes from.
    pub src: u32,
    /// Where the rest goes.
    pub dst: u32,
    /// Items of the rest.
    pub left: u32,
}

/// Items that are moved at once.
pub open spec fn chunk_of(left: u32) -> int {
    if left <= 1024 {
        left as int
    } else {
        1024
    }
}

/// Bytes that are left to copy.
pub open spec fn bytes_left(t: Transfer) -> int {
    t.left * width_bytes(t.width)
}

/// The rest lies within the address space, and its addresses are multiples of the
/// width.
pub open spec fn is_sound(t: Transfer) -> bool {
    &&& t.src + bytes_left(t) <= 0x1_0000_0000
    &&& t.dst + bytes_left(t) <= 0x1_0000_0000
    &&& t.left > 0 ==> aligned(t.width, t.src) && aligned(t.width, t.dst)
}

/// How a channel is configured for the next part of a copy.
pub open spec fn chunk_config(t: Transfer) -> Config {
    Config {
        width: t.width,
        src_addr: t.src,
        dest_addr: t.dst,
        block_size: chunk_of(t.left) as u16,
        trans_count: 1,
        src_inc: AddrMode::Inc,
        dest_inc: AddrMode::Inc,
        int_tc: false,
        int_err: false,
    }
}

/// The next part of a copy is moved: a single request moves the whole block.
pub open spec fn chunk_steps(unit: u8, ch: u8, t: Transfer) -> Seq<Step<DmaError>> {
    configure_steps(unit, ch, chunk_config(t)) + seq![
        Step::<DmaError>::Do(word(unit_at(unit, 0x18), bit(ch))),
    ] + enable_steps(unit, ch) + seq![
        Step::<DmaError>::Do(word(unit_at(unit, 0x30), 0x00a1_0000 | bit(ch))),
        done_wait(unit, ch, 10_000),
    ]
}

impl<const UNIT: u8, const CH: u8> Dma<UNIT, CH> {
    /// Begin to copy memory.
    pub fn copy_blocking(&self, src: u32, src_len: u32, dst: u32, dst_len: u32) -> (r: Result<
        Transfer,
        DmaError,
    >)
        requires
            src + src_len <= 0x1_0000_0000,
            dst + dst_len <= 0x1_0000_0000,
        ensures
            match r {
                Ok(t) => {
                    &&& src_len == dst_len
                    &&& is_sound(t)
                    &&& t.src == src
                    &&& t.dst == dst
                    &&& bytes_left(t) == src_len
                    &&& t.width == (if src % 4 == 0 && dst % 4 == 0 && src_len % 4 == 0 {
                        Width::B32
                    } else {
                        Width::B8
                    })
                },
                Err(e) => e == DmaError::LengthMismatch && src_len != dst_len,
            },
    {
        if src_len != dst_len {
            return Err(DmaError::LengthMismatch);
        }
        Ok(self.copy_blocking_raw(src, dst, src_len))
    }

    /// Begin to copy `len` bytes: in words if addresses and length allow it,
    /// otherwise in bytes.
    pub fn copy_blocking_raw(&self, src: u32, dst: u32, len: u32) -> (r: Transfer)
        requires
            src + len <= 0x1_0000_0000,
            dst + len <= 0x1_0000_0000,
        ensures
            is_sound(r),
            r.src == src,
            r.dst == dst,
            bytes_left(r) == len,
            r.width == (if src % 4 == 0 && dst % 4 == 0 && len % 4 == 0 {
                Width::B32
            } else {
                Width::B8
            }),
    {
        if src % 4 == 0 && dst % 4 == 0 && len % 4 == 0 {
            Transfer { width: Width::B32, src, dst, left: len / 4 }
        } else {
            Transfer { width: Width::B8, src, dst, left: len }
        }
    }

    /// What moves the next part of a copy; nothing when it is complete.
    ///
    /// Afterwards the channel is stopped, see [`Dma::stop_blocking`], completion is
    /// cleared after a success, and [`Dma::copy_outcome`] says how to go on.
    pub fn copy_chunk(&self, t: &Transfer) -> (r: Option<Vec<Step<DmaError>>>)
        requires
            exists_channel(UNIT, CH),
            is_sound(*t),
        ensures
            match r {
                Some(steps) => t.left > 0 && steps@ == chunk_steps(UNIT, CH, *t),
                None => t.left == 0,
            },
    {
        if t.left == 0 {
            return None;
        }
        let chunk: u32 = if t.left <= 1024 {
            t.left
        } else {
            1024
        };
        let cfg: Config = Config {
            width: t.width,
            src_addr: t.src,
            dest_addr: t.dst,
            block_size: chunk as u16,
            trans_count: 1,
            src_inc: AddrMode::Inc,
            dest_inc: AddrMode::Inc,
            int_tc: false,
            int_err: false,
        };
        match self.configure(&cfg) {
            Ok(steps) => {
                let mut out: Vec<Step<DmaError>> = steps;
                let mut enable: Vec<Step<DmaError>> = self.enable();
                out.push(Step::Do(self.clear_tc()));
                out.append(&mut enable);
                out.push(Step::Do(self.sw_trigger()));
                out.push(self.wait_done(COPY_CHUNK_TIMEOUT_US));
                assert(out@ =~= chunk_steps(UNIT, CH, *t));
                Some(out)
            },
            Err(_) => None,
        }
    }

    /// What came of a part of a copy. After a success the copy goes on behind it;
    /// when the part was not completed in time, the error register tells whether
    /// it had failed.
    pub fn copy_outcome(
        &self,
        t: &mut Transfer,
        outcome: Result<(), DmaError>,
        intstat0: u32,
    ) -> (r: Result<(), DmaError>)
        requires
            exists_channel(UNIT, CH),
            is_sound(*old(t)),
            old(t).left > 0,
        ensures
            is_sound(*final(t)),
            match outcome {
                Ok(_) => {
                    let moved = chunk_of(old(t).left) * width_bytes(old(t).width);
                    &&& r is Ok
                    &&& final(t).width == old(t).width
                    &&& final(t).left == old(t).left - chunk_of(old(t).left)
                    &&& final(t).left > 0 ==> final(t).src == old(t).src + moved && final(t).dst
                        == old(t).dst + moved
                    &&& bytes_left(*final(t)) == bytes_left(*old(t)) - moved
                },
                Err(e) => {
                    &&& *final(t) == *old(t)
                    &&& r is Err
                    &&& r->Err_0 == (if e == DmaError::Timeout && (intstat0 & bit(CH) != 0
                        || intstat0 & high_bit(CH) != 0) {
                        DmaError::TransferError
                    } else {
                        e
                    })
                },
            },
    {
        match outcome {
            Ok(_) => {
                let chunk: u32 = if t.left <= 1024 {
                    t.left
                } else {
                    1024
                };
                let moved: u32 = chunk * t.width.bytes();
                let left: u32 = t.left - chunk;
                if left > 0 {
                    t.src = t.src + moved;
                    t.dst = t.dst + moved;
                }
                t.left = left;
                Ok(())
            },
            Err(e) => {
                if e == DmaError::Timeout && self.error_pending(intstat0) {
                    Err(DmaError::TransferError)
                } else {
                    Err(e)
                }
            },
        }
    }
}

/// Going on after each part completes the copy, after as many parts as there are
/// blocks of 1024 items.
pub proof fn law_copies_complete(left: u32)
    ensures
        0 <= chunk_of(left) <= left,
        left > 0 ==> chunk_of(left) > 0,
        (left - chunk_of(left) + 1023) / 1024 == (if left > 0 {
            (left + 1023) / 1024 - 1
        } else {
            0
        }),
{
}

// ---------------------------------------------------------------------------
// Interrupts, routing, setting up
// ---------------------------------------------------------------------------

/// A completion interrupt: it is cleared, and the callback in a slot is called.
pub fn tc_isr<const U: u8, const C: u8>() -> (r: (Access, usize))
    requires
        exists_channel(U, C),
    ensures
        r.0 == word(unit_at(U, 0x18), bit(C)),
        r.1 == slot_of(U, C),
{
    (word(unit_reg(U, 0x18), 1u32 << C), (U as usize - 1) * 4 + C as usize)
}

/// The first `n` channels that the error register names: their errors are cleared,
/// and the callbacks in their slots are called.
pub open spec fn error_reports(unit: u8, stat: u32, n: int) -> Seq<(Access, usize)>
    decreases n,
{
    if n <= 0 {
        Seq::empty()
    } else {
        let ch = (n - 1) as u8;
        let rest = error_reports(unit, stat, n - 1);
        if stat & both_bits(ch) != 0 {
            rest.push((word(unit_at(unit, 0x14), both_bits(ch)), slot_of(unit, ch) as usize))
        } else {
            rest
        }
    }
}

/// An error interrupt, given the error register.
pub fn err_isr<const U: u8>(stat: u32) -> (r: Vec<(Access, usize)>)
    requires
        U == 1 || U == 2,
    ensures
        r@ == error_reports(U, stat, 4),
{
    let mut out: Vec<(Access, usize)> = Vec::new();
    let mut ch: u8 = 0;
    while ch < 4
        invariant
            ch <= 4,
            U == 1 || U == 2,
            out@ == error_reports(U, stat, ch as int),
        decreases 4 - ch,
    {
        let both: u32 = (1u32 << ch) | (1u32 << (16 + ch));
        if stat & both != 0 {
            out.push((word(unit_reg(U, 0x14), both), (U as usize - 1) * 4 + ch as usize));
        }
        ch += 1;
    }
    out
}

/// The selector of a channel.
pub open spec fn selector_at(unit: u8, ch: u8) -> usize {
    (if unit == 1 {
        0x4001_0814 + 4 * ch
    } else {
        0x4001_0824 + 4 * ch
    }) as usize
}

/// Let an event make the requests of a channel.
pub fn route<const UNIT: u8, const CH: u8>(source: u32) -> (r: Access)
    requires
        exists_channel(UNIT, CH),
    ensures
        r == change_word(selector_at(UNIT, CH), 0x1ff, source & 0x1ff),
{
    let selector: usize = if UNIT == 1 {
        0x4001_0814
    } else {
        0x4001_0824
    };
    change_word(selector + 4 * (CH as usize), 0x1ff, source & 0x1ff)
}

/// Let no event make the requests of a channel.
pub fn unroute<const UNIT: u8, const CH: u8>() -> (r: Access)
    requires
        exists_channel(UNIT, CH),
    ensures
        r == change_word(selector_at(UNIT, CH), 0x1ff, 0x1ff),
{
    proof {
        lemma_selector_bits(0, 0);
    }
    route::<UNIT, CH>(0x1ff)
}

/// Let an event reconfigure channels.
pub fn route_reconfig(source: u32) -> (r: Access)
    ensures
        r == change_word(0x4001_0834, 0x1ff, source & 0x1ff),
{
    change_word(AOS_DMA_RC_TRGSEL, 0x1ff, source & 0x1ff)
}

/// Trigger the software event.
pub fn reconfig_sw_trigger() -> (r: Access)
    ensures
        r == word(0x4001_0800, 1),
{
    word(AOS_INTSFTTRG, 1)
}

/// What the drivers that share the channels know.
#[derive(Clone, Copy, Debug, PartialEq, Eq, Structural)]
pub struct State {
    /// Whether the units have their clocks.
    pub clocks_ready: bool,
    /// Whether the console's channel is set up.
    pub tx_ready: bool,
    /// Whether the console's channel is in use.
    pub tx_busy: bool,
    /// Console transfers that were not completed in time.
    pub tx_timeouts: u32,
    /// Whether the copying channel is in use.
    pub copy_busy: bool,
    /// Copies that had to be made otherwise.
    pub copy_fallbacks: u32,
}

impl Default for State {
    fn default() -> (r: Self)
        ensures
            r == (State {
                clocks_ready: false,
                tx_ready: false,
                tx_busy: false,
                tx_timeouts: 0,
                copy_busy: false,
                copy_fallbacks: 0,
            }),
    {
        State {
            clocks_ready: false,
            tx_ready: false,
            tx_busy: false,
            tx_timeouts: 0,
            copy_busy: false,
            copy_fallbacks: 0,
        }
    }
}

/// The units get their clocks, are switched on, and all their interrupts are
/// masked.
pub open spec fn init_steps<E>() -> Seq<Step<E>> {
    clk::gate_steps::<E>(0x0002_c000) + seq![
        Step::<E>::Do(word(0x4005_3000, 1)),
        Step::<E>::Do(word(0x4005_300c, 0xffff_ffff)),
        Step::<E>::Do(word(0x4005_3010, 0xffff_ffff)),
        Step::<E>::Do(word(0x4005_3400, 1)),
        Step::<E>::Do(word(0x4005_340c, 0xffff_ffff)),
        Step::<E>::Do(word(0x4005_3410, 0xffff_ffff)),
    ]
}

/// Set up the units; nothing when that has been done.
pub fn init<E>(s: &mut State) -> (r: Vec<Step<E>>)
    ensures
        *final(s) == (State { clocks_ready: true, ..*old(s) }),
        r@ == (if old(s).clocks_ready {
            Seq::<Step<E>>::empty()
        } else {
            init_steps::<E>()
        }),
{
    if s.clocks_ready {
        return Vec::new();
    }
    let mut out: Vec<Step<E>> = clk::fcg0_enable(0x0002_c000);
    out.push(Step::Do(word(unit_reg(1, 0x00), 1)));
    out.push(Step::Do(word(unit_reg(1, 0x0c), 0xffff_ffff)));
    out.push(Step::Do(word(unit_reg(1, 0x10), 0xffff_ffff)));
    out.push(Step::Do(word(unit_reg(2, 0x00), 1)));
    out.push(Step::Do(word(unit_reg(2, 0x0c), 0xffff_ffff)));
    out.push(Step::Do(word(unit_reg(2, 0x10), 0xffff_ffff)));
    s.clocks_ready = true;
    out
}

// ---------------------------------------------------------------------------
// Console output
// ---------------------------------------------------------------------------

/// How the console's channel is configured: byte after byte to the data register of
/// the USART.
pub open spec fn tx_config(tdr_addr: u32) -> Config {
    Config {
        width: Width::B8,
        src_addr: 0,
        dest_addr: tdr_addr,
        block_size: 1,
        trans_count: 0,
        src_inc: AddrMode::Inc,
        dest_inc: AddrMode::Fix,
        int_tc: false,
        int_err: false,
    }
}

/// The console's channel is set up: its requests, its configuration, and no flag is
/// left.
pub open spec fn tx_set_up(unit: u8, ch: u8, usart: u8, tdr_addr: u32) -> Seq<Step<DmaError>> {
    seq![
        Step::<DmaError>::Do(
            change_word(selector_at(unit, ch), 0x1ff, ((280 + (usart - 1) * 5) as u32) & 0x1ff),
        ),
    ] + configure_steps(unit, ch, tx_config(tdr_addr)) + seq![
        Step::<DmaError>::Do(word(unit_at(unit, 0x18), bit(ch))),
        Step::<DmaError>::Do(word(unit_at(unit, 0x14), both_bits(ch))),
    ]
}

/// Set up the console's channel: USART `unit` makes its requests, and its data goes
/// to `tdr_addr`.
pub fn uart_tx_init<const UNIT: u8, const CH: u8>(s: &mut State, unit: u8, tdr_addr: u32) -> (r: Vec<
    Step<DmaError>,
>)
    requires
        exists_channel(UNIT, CH),
        unit >= 1,
    ensures
        *final(s) == (State { tx_ready: true, ..*old(s) }),
        r@ == tx_set_up(UNIT, CH, unit, tdr_addr),
{
    let dma: Dma<UNIT, CH> = Dma::new();
    let cfg: Config = Config {
        width: Width::B8,
        src_addr: 0,
        dest_addr: tdr_addr,
        block_size: 1,
        trans_count: 0,
        src_inc: AddrMode::Inc,
        dest_inc: AddrMode::Fix,
        int_tc: false,
        int_err: false,
    };
    let mut out: Vec<Step<DmaError>> = vec![Step::Do(route::<UNIT, CH>(usart_ti(unit)))];
    if let Ok(steps) = dma.configure(&cfg) {
        let mut steps: Vec<Step<DmaError>> = steps;
        out.append(&mut steps);
    }
    out.push(Step::Do(dma.clear_tc()));
    out.push(Step::Do(dma.clear_errors()));
    s.tx_ready = true;
    out
}

/// Whether the console's channel takes over the transmission of `len` bytes; it is
/// in use from then on.
///
/// It does not when there is no such channel (`enabled`), when it is not set up, when
/// another USART than the console's is meant, within an interrupt, for too few or too
/// many bytes, or when it is in use.
pub fn uart_tx_try(
    s: &mut State,
    enabled: bool,
    console: bool,
    in_isr: bool,
    len: usize,
    min: usize,
) -> (r: bool)
    ensures
        r == (enabled && console && old(s).tx_ready && !in_isr && min <= len <= 0xffff && !old(
            s,
        ).tx_busy),
        *final(s) == (if r {
            State { tx_busy: true, ..*old(s) }
        } else {
            *old(s)
        }),
{
    if !enabled || !console {
        return false;
    }
    if !s.tx_ready {
        return false;
    }
    if in_isr {
        return false;
    }
    if len < min || len > 0xffff {
        return false;
    }
    if s.tx_busy {
        return false;
    }
    s.tx_busy = true;
    true
}

/// How far a console transfer has come.
#[derive(Clone, Copy, Debug, PartialEq, Eq, Structural)]
pub enum TxStage {
    /// Address and length have been written.
    Loading,
    /// The transmitter has been brought to rest.
    Arming,
    /// The channel has been enabled.
    Enabling,
    /// The bytes have been sent.
    Sending,
}

/// What comes next in a console transfer.
#[derive(Clone, Copy, Debug, PartialEq, Eq, Structural)]
pub enum TxAction {
    /// Clear completion and bring the transmitter to rest.
    Arm,
    /// Enable the channel.
    Enable,
    /// Start the transmitter, which makes the first request, and wait for
    /// completion.
    Send,
    /// Clear completion. Before that, start the transmitter or stop the channel,
    /// if so.
    Finish { restart: bool, stop: bool, consumed: bool },
}

/// What follows a stage that went well or not.
pub open spec fn tx_action(stage: TxStage, ok: bool) -> TxAction {
    match stage {
        TxStage::Loading => if ok {
            TxAction::Arm
        } else {
            TxAction::Finish { restart: false, stop: false, consumed: false }
        },
        TxStage::Arming => if ok {
            TxAction::Enable
        } else {
            TxAction::Finish { restart: false, stop: false, consumed: false }
        },
        TxStage::Enabling => if ok {
            TxAction::Send
        } else {
            TxAction::Finish { restart: true, stop: false, consumed: false }
        },
        TxStage::Sending => TxAction::Finish { restart: false, stop: true, consumed: true },
    }
}

/// Go on with a console transfer after a stage that went well or not.
///
/// If a stage before the last one fails, nothing has been sent and the caller sends
/// the bytes itself. Bytes whose transfer is not completed in time are not sent
/// again; such transfers are counted.
pub fn uart_tx_next(s: &mut State, stage: TxStage, ok: bool) -> (r: TxAction)
    ensures
        r == tx_action(stage, ok),
        *final(s) == (State {
            tx_busy: old(s).tx_busy && r !is Finish,
            tx_timeouts: if stage == TxStage::Sending && !ok {
                old(s).tx_timeouts.wrapping_add(1)
            } else {
                old(s).tx_timeouts
            },
            ..*old(s)
        }),
{
    let action: TxAction = match stage {
        TxStage::Loading => if ok {
            TxAction::Arm
        } else {
            TxAction::Finish { restart: false, stop: false, consumed: false }
        },
        TxStage::Arming => if ok {
            TxAction::Enable
        } else {
            TxAction::Finish { restart: false, stop: false, consumed: false }
        },
        TxStage::Enabling => if ok {
            TxAction::Send
        } else {
            TxAction::Finish { restart: true, stop: false, consumed: false }
        },
        TxStage::Sending => {
            if !ok {
                s.tx_timeouts = s.tx_timeouts.wrapping_add(1);
            }
            TxAction::Finish { restart: false, stop: true, consumed: true }
        },
    };
    if let TxAction::Finish { .. } = action {
        s.tx_busy = false;
    }
    action
}

/// The address and the length of a console transfer are written.
pub fn uart_tx_load<const UNIT: u8, const CH: u8>(src: u32, len: u16) -> (r: Vec<Step<DmaError>>)
    requires
        exists_channel(UNIT, CH),
    ensures
        r@ == seq![
            settle(
                word(channel_at(UNIT, CH, 0x00), src),
                channel_at(UNIT, CH, 0x20),
                0xffff_ffff,
                src,
                Cleanup::One(word(channel_at(UNIT, CH, 0x00), src)),
            ),
            settle(
                change_word(channel_at(UNIT, CH, 0x08), 0xffff_0000, (len as u32) << 16u32),
                channel_at(UNIT, CH, 0x28),
                0xffff_0000,
                (len as u32) << 16u32,
                Cleanup::Nothing,
            ),
        ],
{
    let dma: Dma<UNIT, CH> = Dma::new();
    vec![dma.set_src_addr(src), dma.set_trans_count(len)]
}

/// Microseconds in which `len` bytes are sent: twice what ten bits for each byte
/// take, and a millisecond.
pub fn uart_tx_timeout_us(len: u16, baudrate: u32) -> (r: u32)
    requires
        baudrate > 0,
        (len * 10_000_000 / baudrate as int) * 2 + 1_000 <= u32::MAX,
    ensures
        r == (len * 10_000_000 / baudrate as int) * 2 + 1_000,
{
    let us: u64 = len as u64 * 10_000_000 / baudrate as u64;
    (us * 2 + 1_000) as u32
}

/// How many console transfers were not completed in time, modulo 2^32.
pub fn uart_tx_timeout_count(s: &State) -> (r: u32)
    ensures
        r == s.tx_timeouts,
{
    s.tx_timeouts
}

/// A console transfer that ends has released the channel, and what was not consumed
/// was not sent.
pub proof fn law_transfers_release_the_channel(stage: TxStage, ok: bool)
    ensures
        stage == TxStage::Sending ==> tx_action(stage, ok) is Finish,
        !ok ==> tx_action(stage, ok) is Finish,
        tx_action(stage, ok) matches TxAction::Finish { consumed, .. } ==> consumed == (stage
            == TxStage::Sending),
{
}

// ---------------------------------------------------------------------------
// Shared copies
// ---------------------------------------------------------------------------

/// Whether the copying channel takes over a copy; it is in use from then on.
///
/// It does not when there is no such channel (`enabled`), when it is not set up,
/// within an interrupt, for too few bytes or different lengths, or when it is in use,
/// which is counted.
pub fn copy_try(
    s: &mut State,
    enabled: bool,
    in_isr: bool,
    src_len: usize,
    dst_len: usize,
    min: usize,
) -> (r: bool)
    ensures
        ({
            let wanted = enabled && old(s).clocks_ready && !in_isr && src_len == dst_len && src_len
                >= min;
            &&& r == (wanted && !old(s).copy_busy)
            &&& *final(s) == (if r {
                State { copy_busy: true, ..*old(s) }
            } else if wanted {
                State { copy_fallbacks: old(s).copy_fallbacks.wrapping_add(1), ..*old(s) }
            } else {
                *old(s)
            })
        }),
{
    if !enabled || !s.clocks_ready {
        return false;
    }
    if in_isr {
        return false;
    }
    if src_len != dst_len || src_len < min {
        return false;
    }
    if s.copy_busy {
        s.copy_fallbacks = s.copy_fallbacks.wrapping_add(1);
        return false;
    }
    s.copy_busy = true;
    true
}

/// A copy has ended; one that failed has to be made otherwise, and is counted.
pub fn copy_end(s: &mut State, ok: bool)
    ensures
        *final(s) == (State {
            copy_busy: false,
            copy_fallbacks: if ok {
                old(s).copy_fallbacks
            } else {
                old(s).copy_fallbacks.wrapping_add(1)
            },
            ..*old(s)
        }),
{
    s.copy_busy = false;
    if !ok {
        s.copy_fallbacks = s.copy_fallbacks.wrapping_add(1);
    }
}

/// How many copies had to be made otherwise, modulo 2^32.
pub fn copy_fallback_count(s: &State) -> (r: u32)
    ensures
        r == s.copy_fallbacks,
{
    s.copy_fallbacks
}

// ---------------------------------------------------------------------------
// Time
// ---------------------------------------------------------------------------

/// At least one.
pub open spec fn at_least_one(hz: u32) -> int {
    if hz == 0 {
        1
    } else {
        hz as int
    }
}

/// The lower half of a number.
pub(crate) proof fn lemma_truncated(x: u64)
    ensures
        x as u32 == x % 0x1_0000_0000,
{
    assert(x as u32 == x % 0x1_0000_0000) by (bit_vector);
}

/// Microseconds from one state of the cycle counter to another, also when it has
/// wrapped around; modulo 2^32.
pub fn elapsed_us_since(start: u32, now: u32, hclk_hz: u32) -> (r: u32)
    ensures
        r == (now.wrapping_sub(start) * 1_000_000 / at_least_one(hclk_hz)) % 0x1_0000_0000,
{
    let hz: u64 = if hclk_hz == 0 {
        1
    } else {
        hclk_hz as u64
    };
    let us: u64 = now.wrapping_sub(start) as u64 * 1_000_000 / hz;
    proof {
        lemma_truncated(us);
    }
    us as u32
}

/// The cycle counter in milliseconds, modulo 2^32.
pub fn monotonic_ms(cycles: u32, hclk_hz: u32) -> (r: u32)
    ensures
        r == (cycles * 1_000 / at_least_one(hclk_hz)) % 0x1_0000_0000,
{
    let hz: u64 = if hclk_hz == 0 {
        1
    } else {
        hclk_hz as u64
    };
    let ms: u64 = cycles as u64 * 1_000 / hz;
    proof {
        lemma_truncated(ms);
    }
    ms as u32
}

// ---------------------------------------------------------------------------
// What a channel does with memory
// ---------------------------------------------------------------------------

/// The registers of a channel: source, destination, block and count, control.
#[derive(Clone, Copy, Debug, PartialEq, Eq, Structural)]
pub struct Channel {
    pub src: u32,
    pub dest: u32,
    pub dtctl: u32,
    pub chctl: u32,
}

/// Where the registers of a channel lie: 0x40 bytes for each, from 0x40 on in the 0x400
/// bytes of its unit.
pub open spec fn channel_place(unit: u8, ch: u8, offset: int) -> crate::mmio::Place {
    crate::mmio::word_at((0x4005_3000 + 0x400 * (unit - 1) + 0x40 * (ch + 1) + offset) as usize)
}

/// Where a register of a unit lies.
pub open spec fn unit_place(unit: u8, offset: int) -> crate::mmio::Place {
    crate::mmio::word_at((0x4005_3000 + 0x400 * (unit - 1) + offset) as usize)
}

/// What a channel holds when steps have been carried out.
pub open spec fn channel_after(steps: Seq<Step<DmaError>>, unit: u8, ch: u8, c: Channel) -> Channel {
    Channel {
        src: crate::mmio::left_in(steps, channel_place(unit, ch, 0x00), c.src),
        dest: crate::mmio::left_in(steps, channel_place(unit, ch, 0x04), c.dest),
        dtctl: crate::mmio::left_in(steps, channel_place(unit, ch, 0x08), c.dtctl),
        chctl: crate::mmio::left_in(steps, channel_place(unit, ch, 0x1c), c.chctl),
    }
}

/// Bytes of the items that a channel moves: the power of two in bits 8 and 9.
pub open spec fn item_bytes(chctl: u32) -> int {
    let code = (chctl >> 8u32) & 0x3;
    if code == 0 {
        1
    } else if code == 1 {
        2
    } else {
        4
    }
}

/// Items that a request moves: the lower ten bits, where 0 stands for 1024.
pub open spec fn block_items(dtctl: u32) -> int {
    if dtctl & 0x3ff == 0 {
        1024
    } else {
        (dtctl & 0x3ff) as int
    }
}

/// Where item `i` is, if the address stays (0), goes up (1) or goes down after each item.
pub open spec fn item_at(base: u32, mode: u32, bytes: int, i: int) -> int {
    if mode == 0 {
        base as int
    } else if mode == 1 {
        base + i * bytes
    } else {
        base - i * bytes
    }
}

/// Memory when a channel has moved `n` items.
pub open spec fn moved(mem: spec_fn(int) -> u8, c: Channel, n: int) -> spec_fn(int) -> u8
    decreases n,
{
    if n <= 0 {
        mem
    } else {
        let m = moved(mem, c, n - 1);
        let bytes = item_bytes(c.chctl);
        let from = item_at(c.src, c.chctl & 0x3, bytes, n - 1);
        let to = item_at(c.dest, (c.chctl >> 2u32) & 0x3, bytes, n - 1);
        |a: int|
            if to <= a < to + bytes {
                m(from + a - to)
            } else {
                m(a)
            }
    }
}

/// Memory when a channel has served one request.
pub open spec fn served(mem: spec_fn(int) -> u8, c: Channel) -> spec_fn(int) -> u8 {
    moved(mem, c, block_items(c.dtctl))
}

proof fn lemma_channel_bits(
    k: u32,
    s: u32,
    d: u32,
    w: u32,
    ie: bool,
    block: u16,
    count: u16,
    other: u16,
    ch: u8,
)
    requires
        s <= 2,
        d <= 2,
        w <= 2,
        ch <= 3,
    ensures
        ({
            let c = s | (d << 2u32) | (w << 8u32) | (if ie {
                0x1000u32
            } else {
                0
            });
            let x = (k & !0x130fu32) | c;
            &&& x & 0x3 == s
            &&& (x >> 2u32) & 0x3 == d
            &&& (x >> 8u32) & 0x3 == w
            &&& x & 0x1000 != 0 <==> ie
            &&& x & 0xffff_ecf0 == k & 0xffff_ecf0
        }),
        ({
            let x = (block as u32 & 0x3ff) | ((count as u32) << 16u32);
            let y = (x & !0xffff_0000u32) | ((other as u32) << 16u32);
            &&& x & 0x3ff == block as u32 & 0x3ff
            &&& x >> 16u32 == count
            &&& y & 0x3ff == block as u32 & 0x3ff
            &&& y >> 16u32 == other
        }),
        block < 1024 ==> block as u32 & 0x3ff == block,
        block == 1024 ==> block as u32 & 0x3ff == 0,
        ({
            let both = (1u32 << ch) | (1u32 << ((16 + ch) as u8));
            let open = (k & !both) | 0u32;
            let shut = (k & !0u32) | both;
            let on = (k & !0u32) | (1u32 << ch);
            let off = (k & !(1u32 << ch)) | 0u32;
            &&& open & both == 0 && open & !both == k & !both
            &&& shut & both == both && shut & !both == k & !both
            &&& on & (1u32 << ch) != 0 && on & !(1u32 << ch) == k & !(1u32 << ch)
            &&& off & (1u32 << ch) == 0 && off & !(1u32 << ch) == k & !(1u32 << ch)
            &&& 0x00a1_0000u32 | (1u32 << ch) == 0x00a1_0000 + (1u32 << ch)
            &&& both == 0x1_0001 * (1u32 << ch)
        }),
        1u32 << 0u8 == 1,
        1u32 << 1u8 == 2,
        1u32 << 2u8 == 4,
        1u32 << 3u8 == 8,
{
    let high = (16 + ch) as u8;
    assert({
        let c = s | (d << 2u32) | (w << 8u32) | (if ie {
            0x1000u32
        } else {
            0
        });
        let x = (k & !0x130fu32) | c;
        let z = (block as u32 & 0x3ff) | ((count as u32) << 16u32);
        let y = (z & !0xffff_0000u32) | ((other as u32) << 16u32);
        let both = (1u32 << ch) | (1u32 << high);
        let open = (k & !both) | 0u32;
        let shut = (k & !0u32) | both;
        let on = (k & !0u32) | (1u32 << ch);
        let off = (k & !(1u32 << ch)) | 0u32;
        &&& x & 0x3 == s && (x >> 2u32) & 0x3 == d && (x >> 8u32) & 0x3 == w && ((x & 0x1000 != 0)
            == ie) && x & 0xffff_ecf0 == k & 0xffff_ecf0
        &&& z & 0x3ff == block as u32 & 0x3ff && z >> 16u32 == count as u32 && y & 0x3ff
            == block as u32 & 0x3ff && y >> 16u32 == other as u32
        &&& (block < 1024u16 ==> block as u32 & 0x3ff == block as u32) && (block == 1024u16
            ==> block as u32 & 0x3ff == 0)
        &&& open & both == 0 && open & !both == k & !both && shut & both == both && shut & !both == k
            & !both
        &&& on & (1u32 << ch) != 0 && on & !(1u32 << ch) == k & !(1u32 << ch) && off & (1u32 << ch)
            == 0 && off & !(1u32 << ch) == k & !(1u32 << ch)
        &&& 0x00a1_0000u32 | (1u32 << ch) == 0x00a1_0000 + (1u32 << ch)
        &&& both == 0x1_0001 * (1u32 << ch)
        &&& 1u32 << 0u8 == 1 && 1u32 << 1u8 == 2 && 1u32 << 2u8 == 4 && 1u32 << 3u8 == 8
    }) by (bit_vector)
        requires
            s <= 2u32,
            d <= 2u32,
            w <= 2u32,
            ch <= 3u8,
            high == 16 + ch,
    ;
}

/// Configuring a channel sets its addresses, its block, its count, and in its control
/// register what becomes of the source address (bits 0 and 1) and of the destination
/// address (bits 2 and 3) after each item - it stays, goes up or goes down -, the width
/// of an item (bits 8 and 9) and the interrupt (bit 12). The interrupts of completion
/// and of errors are open only if they are wanted, and those of other channels stay as
/// they are.
pub proof fn law_channels_are_configured<const UNIT: u8, const CH: u8>(
    dma: Dma<UNIT, CH>,
    cfg: Config,
    steps: Vec<Step<DmaError>>,
    c: Channel,
    mask: u32,
)
    requires
        exists_channel(UNIT, CH),
        call_ensures(Dma::<UNIT, CH>::configure, (&dma, &cfg), Ok(steps)),
        cfg.block_size <= 1024,
    ensures
        ({
            let after = channel_after(steps@, UNIT, CH, c);
            let own = 0x1_0001u32 * (1u32 << CH);
            let done = crate::mmio::left_in(steps@, unit_place(UNIT, 0x10), mask);
            let failed = crate::mmio::left_in(steps@, unit_place(UNIT, 0x0c), mask);
            &&& after.src == cfg.src_addr
            &&& after.dest == cfg.dest_addr
            &&& cfg.block_size > 0 ==> block_items(after.dtctl) == cfg.block_size
            &&& after.dtctl >> 16u32 == cfg.trans_count
            &&& after.chctl & 0x3 == (match cfg.src_inc {
                AddrMode::Fix => 0u32,
                AddrMode::Inc => 1,
                AddrMode::Dec => 2,
            })
            &&& (after.chctl >> 2u32) & 0x3 == (match cfg.dest_inc {
                AddrMode::Fix => 0u32,
                AddrMode::Inc => 1,
                AddrMode::Dec => 2,
            })
            &&& item_bytes(after.chctl) == (match cfg.width {
                Width::B8 => 1int,
                Width::B16 => 2,
                Width::B32 => 4,
            })
            &&& after.chctl & 0x1000 != 0 <==> cfg.int_tc
            &&& after.chctl & 0xffff_ecf0 == c.chctl & 0xffff_ecf0
            &&& done & (own as u32) == (if cfg.int_tc {
                0u32
            } else {
                own as u32
            })
            &&& done & !(own as u32) == mask & !(own as u32)
            &&& failed & (own as u32) == (if cfg.int_err {
                0u32
            } else {
                own as u32
            })
            &&& failed & !(own as u32) == mask & !(own as u32)
        }),
{
    broadcast use crate::mmio::lemma_written;

    assert(steps@ == configure_steps(UNIT, CH, cfg));
    reveal_with_fuel(crate::mmio::left_after, 7);
    lemma_channel_bits(
        c.chctl,
        addr_code(cfg.src_inc),
        addr_code(cfg.dest_inc),
        width_code(cfg.width),
        cfg.int_tc,
        cfg.block_size,
        cfg.trans_count,
        0,
        CH,
    );
    lemma_channel_bits(mask, 0, 0, 0, false, 0, 0, 0, CH);
}

/// Items that go up from two places that do not overlap are copied.
proof fn lemma_moved_upwards(mem: spec_fn(int) -> u8, c: Channel, n: int, total: int, a: int)
    requires
        c.chctl & 0x3 == 1,
        (c.chctl >> 2u32) & 0x3 == 1,
        0 <= n <= total,
        c.src + total * item_bytes(c.chctl) <= c.dest || c.dest + total * item_bytes(c.chctl)
            <= c.src,
    ensures
        moved(mem, c, n)(a) == (if c.dest <= a < c.dest + n * item_bytes(c.chctl) {
            mem(c.src + a - c.dest)
        } else {
            mem(a)
        }),
    decreases n,
{
    let bytes = item_bytes(c.chctl);
    if n > 0 {
        let m = moved(mem, c, n - 1);
        let from = c.src + (n - 1) * bytes;
        let to = c.dest + (n - 1) * bytes;
        assert(n * bytes == (n - 1) * bytes + bytes) by (nonlinear_arith);
        assert(0 <= (n - 1) * bytes && n * bytes <= total * bytes) by (nonlinear_arith)
            requires
                1 <= n <= total,
                bytes >= 0,
        ;
        lemma_moved_upwards(mem, c, n - 1, total, a);
        lemma_moved_upwards(mem, c, n - 1, total, from + a - to);
        assert(moved(mem, c, n)(a) == (if to <= a < to + bytes {
            m(from + a - to)
        } else {
            m(a)
        }));
    } else {
        assert(n * bytes == 0) by (nonlinear_arith)
            requires
                n == 0,
        ;
    }
}

/// A part of a copy, carried out by the channel as the steps leave it, copies the first
/// bytes that are left, and no other byte changes. The channel is enabled, one request
/// is made, by software and for this channel, and the copy goes on behind what it moved.
pub proof fn law_parts_are_copied<const UNIT: u8, const CH: u8>(
    dma: Dma<UNIT, CH>,
    t: Transfer,
    steps: Vec<Step<DmaError>>,
    c: Channel,
    chen: u32,
    mem: spec_fn(int) -> u8,
    a: int,
)
    requires
        exists_channel(UNIT, CH),
        is_sound(t),
        call_ensures(Dma::<UNIT, CH>::copy_chunk, (&dma, &t), Some(steps)),
        t.src + bytes_left(t) <= t.dst || t.dst + bytes_left(t) <= t.src,
    ensures
        ({
            let after = channel_after(steps@, UNIT, CH, c);
            let n = block_items(after.dtctl) * item_bytes(after.chctl);
            let enabled = crate::mmio::left_in(steps@, unit_place(UNIT, 0x1c), chen);
            &&& after.dtctl >> 16u32 == 1
            &&& 1 <= n <= bytes_left(t)
            &&& n == chunk_of(t.left) * width_bytes(t.width)
            &&& served(mem, after)(a) == (if t.dst <= a < t.dst + n {
                mem(t.src + a - t.dst)
            } else {
                mem(a)
            })
            &&& enabled & (1u32 << CH) != 0
            &&& enabled & !(1u32 << CH) == chen & !(1u32 << CH)
            &&& crate::mmio::left_in(steps@, unit_place(UNIT, 0x18), chen) == 1u32 << CH
            &&& crate::mmio::left_in(steps@, unit_place(UNIT, 0x30), chen) == 0x00a1_0000 + (1u32
                << CH)
        }),
{
    broadcast use crate::mmio::lemma_written;

    assert(steps@ == chunk_steps(UNIT, CH, t));
    reveal_with_fuel(crate::mmio::left_after, 12);
    let n = chunk_of(t.left);
    let bytes = width_bytes(t.width);
    lemma_channel_bits(c.chctl, 1, 1, width_code(t.width), false, n as u16, 1, 0, CH);
    lemma_channel_bits(chen, 0, 0, 0, false, 0, 0, 0, CH);
    let after = channel_after(steps@, UNIT, CH, c);
    assert(block_items(after.dtctl) == n);
    assert(item_bytes(after.chctl) == bytes);
    assert(n * bytes <= t.left * bytes && n * bytes >= 1) by (nonlinear_arith)
        requires
            1 <= n <= t.left,
            bytes >= 1,
    ;
    lemma_moved_upwards(mem, after, n, t.left as int, a);
}

/// What is left of a copy when a part of it has been moved.
pub open spec fn rest_of(t: Transfer) -> Transfer {
    let n = chunk_of(t.left) * width_bytes(t.width);
    Transfer {
        width: t.width,
        src: (t.src + n) as u32,
        dst: (t.dst + n) as u32,
        left: (t.left - chunk_of(t.left)) as u32,
    }
}

/// Memory when all parts of a copy have been carried out, one after the other.
pub open spec fn after_copy(
    unit: u8,
    ch: u8,
    t: Transfer,
    c: Channel,
    mem: spec_fn(int) -> u8,
) -> spec_fn(int) -> u8
    decreases t.left,
{
    if t.left == 0 {
        mem
    } else {
        let after = channel_after(chunk_steps(unit, ch, t), unit, ch, c);
        after_copy(unit, ch, rest_of(t), after, served(mem, after))
    }
}

/// The parts of a copy leave at the destination, byte for byte, what was at the source,
/// and change nothing else.
pub proof fn law_copies_are_exact<const UNIT: u8, const CH: u8>(
    dma: Dma<UNIT, CH>,
    src: u32,
    dst: u32,
    len: u32,
    t: Transfer,
    c: Channel,
    mem: spec_fn(int) -> u8,
    a: int,
)
    requires
        exists_channel(UNIT, CH),
        src + len <= 0x1_0000_0000,
        dst + len <= 0x1_0000_0000,
        src + len <= dst || dst + len <= src,
        call_ensures(Dma::<UNIT, CH>::copy_blocking, (&dma, src, len, dst, len), Ok(t)),
    ensures
        after_copy(UNIT, CH, t, c, mem)(a) == (if dst <= a < dst + len {
            mem(src + a - dst)
        } else {
            mem(a)
        }),
{
    lemma_copy(UNIT, CH, t, c, mem, a);
}

/// What is left of a copy continues it and can be carried out.
proof fn lemma_rest(t: Transfer)
    requires
        is_sound(t),
        0 < chunk_of(t.left) < t.left,
    ensures
        ({
            let n = chunk_of(t.left) * width_bytes(t.width);
            let next = rest_of(t);
            &&& is_sound(next)
            &&& next.width == t.width
            &&& next.left == t.left - chunk_of(t.left)
            &&& next.src == t.src + n
            &&& next.dst == t.dst + n
            &&& bytes_left(next) == bytes_left(t) - n
            &&& bytes_left(next) >= 1
            &&& n >= 1
        }),
{
    match t.width {
        Width::B8 => {},
        Width::B16 => {},
        Width::B32 => {},
    }
}

proof fn lemma_copy(unit: u8, ch: u8, t: Transfer, c: Channel, mem: spec_fn(int) -> u8, a: int)
    requires
        exists_channel(unit, ch),
        is_sound(t),
        t.src + bytes_left(t) <= t.dst || t.dst + bytes_left(t) <= t.src,
    ensures
        after_copy(unit, ch, t, c, mem)(a) == (if t.dst <= a < t.dst + bytes_left(t) {
            mem(t.src + a - t.dst)
        } else {
            mem(a)
        }),
    decreases t.left,
{
    broadcast use crate::mmio::lemma_written;

    let bytes = width_bytes(t.width);
    if t.left > 0 {
        let steps = chunk_steps(unit, ch, t);
        let n = chunk_of(t.left);
        let after = channel_after(steps, unit, ch, c);
        assert({
            &&& after.src == t.src
            &&& after.dest == t.dst
            &&& after.chctl & 0x3 == 1
            &&& (after.chctl >> 2u32) & 0x3 == 1
            &&& block_items(after.dtctl) == n
            &&& item_bytes(after.chctl) == bytes
        }) by {
            reveal_with_fuel(crate::mmio::left_after, 12);
            lemma_channel_bits(c.chctl, 1, 1, width_code(t.width), false, n as u16, 1, 0, ch);
        }
        let next = rest_of(t);
        let done = served(mem, after);
        assert(n * bytes <= t.left * bytes && (t.left - n) * bytes == t.left * bytes - n * bytes)
            by (nonlinear_arith)
            requires
                1 <= n <= t.left,
                bytes >= 1,
        ;
        lemma_moved_upwards(mem, after, n, t.left as int, a);
        if next.left == 0 {
            assert(after_copy(unit, ch, next, after, done) == done);
            assert(n == t.left);
        } else {
            lemma_moved_upwards(mem, after, n, t.left as int, t.src + a - t.dst);
            lemma_rest(t);
            lemma_copy(unit, ch, next, after, done, a);
        }
    }
}

/// Console output: the requests come from the transmitter of the USART, each moves one
/// byte, the source goes up from byte to byte and the destination stays at the data
/// register, and there are as many requests as bytes.
pub proof fn law_console_bytes_are_sent_in_order<const UNIT: u8, const CH: u8>(
    unit: u8,
    tdr_addr: u32,
    set_up: Seq<Step<DmaError>>,
    src: u32,
    len: u16,
    load: Vec<Step<DmaError>>,
    c: Channel,
    selector: u32,
    i: int,
)
    requires
        exists_channel(UNIT, CH),
        1 <= unit <= 4,
        set_up == tx_set_up(UNIT, CH, unit, tdr_addr),
        call_ensures(uart_tx_load::<UNIT, CH>, (src, len), load),
        0 <= i < len,
    ensures
        ({
            let after = channel_after(load@, UNIT, CH, channel_after(set_up, UNIT, CH, c));
            let place = crate::mmio::word_at(
                (0x4001_0814 + 0x10 * (UNIT - 1) + 4 * CH) as usize,
            );
            &&& after.dest == tdr_addr
            &&& (after.chctl >> 2u32) & 0x3 == 0
            &&& item_bytes(after.chctl) == 1
            &&& block_items(after.dtctl) == 1
            &&& after.dtctl >> 16u32 == len
            &&& item_at(after.src, after.chctl & 0x3, 1, i) == src + i
            &&& crate::mmio::left_in(set_up, place, selector) & 0x1ff == 280 + 5 * (unit - 1)
            &&& crate::mmio::left_in(set_up, place, selector) & 0xffff_fe00 == selector
                & 0xffff_fe00
        }),
{
    broadcast use crate::mmio::lemma_written;

    reveal_with_fuel(crate::mmio::left_after, 10);
    let event = (280 + (unit - 1) * 5) as u32;
    lemma_channel_bits(c.chctl, 1, 0, 0, false, 1, 0, len, CH);
    lemma_selector_bits(selector, event);
    assert(i * 1 == i);
}

proof fn lemma_selector_bits(v: u32, event: u32)
    requires
        event < 512,
    ensures
        ({
            let x = (v & !0x1ffu32) | (event & 0x1ff);
            &&& x & 0x1ff == event
            &&& x & 0xffff_fe00 == v & 0xffff_fe00
        }),
        0x1ffu32 & 0x1ffu32 == 0x1ffu32,
{
    assert({
        let x = (v & !0x1ffu32) | (event & 0x1ff);
        x & 0x1ff == event && x & 0xffff_fe00 == v & 0xffff_fe00 && 0x1ffu32 & 0x1ffu32 == 0x1ffu32
    }) by (bit_vector)
        requires
            event < 512u32,
    ;
}

/// A channel that was enabled shows as enabled, one that was disabled does not, and the
/// other channels of its unit stay as they are. What clears completion or errors clears
/// the flags that show them.
pub proof fn law_channels_show_their_state<const UNIT: u8, const CH: u8>(
    dma: Dma<UNIT, CH>,
    on: Vec<Step<DmaError>>,
    off: Vec<Step<DmaError>>,
    tc: Access,
    errors: Access,
    v: u32,
    stat: u32,
    shown_on: bool,
    shown_off: bool,
    done: bool,
    failed: bool,
)
    requires
        exists_channel(UNIT, CH),
        call_ensures(Dma::<UNIT, CH>::enable, (&dma,), on),
        call_ensures(Dma::<UNIT, CH>::disable, (&dma,), off),
        call_ensures(Dma::<UNIT, CH>::clear_tc, (&dma,), tc),
        call_ensures(Dma::<UNIT, CH>::clear_errors, (&dma,), errors),
        call_ensures(
            Dma::<UNIT, CH>::is_enabled,
            (&dma, crate::mmio::left_in(on@, unit_place(UNIT, 0x1c), v)),
            shown_on,
        ),
        call_ensures(
            Dma::<UNIT, CH>::is_enabled,
            (&dma, crate::mmio::left_in(off@, unit_place(UNIT, 0x1c), v)),
            shown_off,
        ),
        call_ensures(Dma::<UNIT, CH>::tc_pending, (&dma, stat), done),
        call_ensures(Dma::<UNIT, CH>::error_pending, (&dma, stat), failed),
    ensures
        shown_on,
        !shown_off,
        crate::mmio::left_in(on@, unit_place(UNIT, 0x1c), v) & !(1u32 << CH) == v & !(1u32 << CH),
        crate::mmio::left_in(off@, unit_place(UNIT, 0x1c), v) & !(1u32 << CH) == v & !(1u32 << CH),
        tc.place == unit_place(UNIT, 0x18) && tc.keep == 0,
        tc.set == 1u32 << CH,
        done <==> stat & tc.set != 0,
        errors.place == unit_place(UNIT, 0x14) && errors.keep == 0,
        errors.set == 0x1_0001 * (1u32 << CH),
        failed <==> stat & errors.set != 0,
{
    broadcast use crate::mmio::lemma_written;

    reveal_with_fuel(crate::mmio::left_after, 3);
    lemma_channel_bits(v, 0, 0, 0, false, 0, 0, 0, CH);
    let low = bit(CH);
    let high = high_bit(CH);
    assert((stat & (low | high) != 0) == (stat & low != 0 || stat & high != 0)) by (bit_vector);
}

/// An error interrupt reports exactly the channels whose flags are set, the lowest first,
/// clears the two flags of each, and calls its callback: four for each unit.
pub proof fn law_error_interrupts_name_their_channels<const U: u8>(
    stat: u32,
    reports: Vec<(Access, usize)>,
    ch: u8,
)
    requires
        U == 1 || U == 2,
        ch < 4,
        call_ensures(err_isr::<U>, (stat,), reports),
    ensures
        ({
            let flags = 0x1_0001 * (1u32 << ch);
            let report = (
                word((0x4005_3014 + 0x400 * (U - 1)) as usize, flags as u32),
                (4 * (U - 1) + ch) as usize,
            );
            reports@.contains(report) <==> stat & (flags as u32) != 0
        }),
        reports@.len() <= 4,
{
    lemma_channel_bits(0, 0, 0, 0, false, 0, 0, 0, 0);
    lemma_channel_bits(0, 0, 0, 0, false, 0, 0, 0, 1);
    lemma_channel_bits(0, 0, 0, 0, false, 0, 0, 0, 2);
    lemma_channel_bits(0, 0, 0, 0, false, 0, 0, 0, 3);
    reveal_with_fuel(error_reports, 5);
    let r0 = (word(unit_at(U, 0x14), both_bits(0)), slot_of(U, 0) as usize);
    let r1 = (word(unit_at(U, 0x14), both_bits(1)), slot_of(U, 1) as usize);
    let r2 = (word(unit_at(U, 0x14), both_bits(2)), slot_of(U, 2) as usize);
    let r3 = (word(unit_at(U, 0x14), both_bits(3)), slot_of(U, 3) as usize);
    let s0 = if stat & both_bits(0) != 0 {
        seq![r0]
    } else {
        Seq::empty()
    };
    let s1 = if stat & both_bits(1) != 0 {
        s0.push(r1)
    } else {
        s0
    };
    let s2 = if stat & both_bits(2) != 0 {
        s1.push(r2)
    } else {
        s1
    };
    let s3 = if stat & both_bits(3) != 0 {
        s2.push(r3)
    } else {
        s2
    };
    assert(error_reports(U, stat, 1) =~= s0);
    assert(error_reports(U, stat, 2) =~= s1);
    assert(error_reports(U, stat, 3) =~= s2);
    assert(reports@ =~= s3);
    assert(stat & both_bits(0) != 0 ==> s3[0] == r0);
    assert(stat & both_bits(1) != 0 ==> s3[s0.len() as int] == r1);
    assert(stat & both_bits(2) != 0 ==> s3[s1.len() as int] == r2);
    assert(stat & both_bits(3) != 0 ==> s3[s2.len() as int] == r3);
}

/// Each setting of a channel that is changed alone reaches its own register and field,
/// and the rest of the channel stays as it is.
pub proof fn law_single_settings<const UNIT: u8, const CH: u8>(
    dma: Dma<UNIT, CH>,
    addr: u32,
    count: u16,
    size: u16,
    width: Width,
    src: Step<DmaError>,
    dest: Step<DmaError>,
    requests: Step<DmaError>,
    block: Step<DmaError>,
    item: Access,
    v: u32,
)
    requires
        exists_channel(UNIT, CH),
        0 < size <= 1024,
        call_ensures(Dma::<UNIT, CH>::set_src_addr, (&dma, addr), src),
        call_ensures(Dma::<UNIT, CH>::set_dest_addr, (&dma, addr), dest),
        call_ensures(Dma::<UNIT, CH>::set_trans_count, (&dma, count), requests),
        call_ensures(Dma::<UNIT, CH>::set_block_size, (&dma, size), block),
        call_ensures(Dma::<UNIT, CH>::set_width, (&dma, width), item),
    ensures
        crate::mmio::left_by(src, channel_place(UNIT, CH, 0x00), v) == addr,
        crate::mmio::left_by(dest, channel_place(UNIT, CH, 0x04), v) == addr,
        ({
            let after = crate::mmio::left_by(requests, channel_place(UNIT, CH, 0x08), v);
            &&& after >> 16u32 == count
            &&& after & 0xffff == v & 0xffff
        }),
        ({
            let after = crate::mmio::left_by(block, channel_place(UNIT, CH, 0x08), v);
            &&& block_items(after) == size
            &&& after & 0xffff_fc00 == v & 0xffff_fc00
        }),
        item.place == channel_place(UNIT, CH, 0x1c),
        item_bytes(item.result(v)) == (match width {
            Width::B8 => 1int,
            Width::B16 => 2,
            Width::B32 => 4,
        }),
        item.result(v) & 0xffff_fcff == v & 0xffff_fcff,
{
    broadcast use crate::mmio::lemma_written;

    let w = width_code(width);
    assert({
        let a = (v & !0xffff_0000u32) | ((count as u32) << 16u32);
        let b = (v & !0x3ffu32) | (size as u32 & 0x3ff);
        let c = (v & !0x300u32) | (w << 8u32);
        &&& a >> 16u32 == count as u32 && a & 0xffff == v & 0xffff
        &&& b & 0x3ff == size as u32 & 0x3ff && b & 0xffff_fc00 == v & 0xffff_fc00
        &&& (c >> 8u32) & 0x3 == w && c & 0xffff_fcff == v & 0xffff_fcff
    }) by (bit_vector)
        requires
            w <= 2u32,
    ;
    lemma_channel_bits(0, 0, 0, 0, false, size, 0, 0, CH);
}

} // verus!
