//! The one place from which the peripherals are handed out.

use vstd::prelude::*;

use crate::can::Can;
use crate::dma::{self, Dma};
use crate::gpio::Gpio;

verus! {

/// The peripherals. `TX` and `COPY` are the DMA channels of the console and of
/// copying, each given by its unit and its number.
pub struct Peripherals<
    const TX_UNIT: u8,
    const TX_CHANNEL: u8,
    const COPY_UNIT: u8,
    const COPY_CHANNEL: u8,
> {
    pub gpio: Gpio,
    pub can: Can,
    pub dma_tx: Option<Dma<TX_UNIT, TX_CHANNEL>>,
    pub dma_copy: Option<Dma<COPY_UNIT, COPY_CHANNEL>>,
}

/// What has been handed out so far.
pub struct Ownership {
    taken: bool,
    channels: u32,
}

/// The bit of a DMA channel.
pub open spec fn channel_bit(unit: u8, channel: u8) -> u32 {
    1u32 << (dma::slot_of(unit, channel) as u32)
}

impl Ownership {
    /// The peripherals have been handed out.
    pub closed spec fn is_taken(self) -> bool {
        self.taken
    }

    /// The DMA channels that have been handed out, a bit for each.
    pub closed spec fn dma(self) -> u32 {
        self.channels
    }

    /// Nothing has been handed out.
    pub fn new() -> (r: Self)
        ensures
            !r.is_taken(),
            r.dma() == 0,
    {
        Ownership { taken: false, channels: 0 }
    }
}

impl<
    const TX_UNIT: u8,
    const TX_CHANNEL: u8,
    const COPY_UNIT: u8,
    const COPY_CHANNEL: u8,
> Peripherals<TX_UNIT, TX_CHANNEL, COPY_UNIT, COPY_CHANNEL> {
    /// The peripherals, the first time they are asked for.
    pub fn take(ownership: &mut Ownership) -> (r: Option<Self>)
        requires
            dma::exists_channel(TX_UNIT, TX_CHANNEL),
            dma::exists_channel(COPY_UNIT, COPY_CHANNEL),
        ensures
            final(ownership).is_taken(),
            match r {
                Some(p) => {
                    let tx = channel_bit(TX_UNIT, TX_CHANNEL);
                    let copy = channel_bit(COPY_UNIT, COPY_CHANNEL);
                    &&& !old(ownership).is_taken()
                    &&& p.can.line() is None
                    &&& p.dma_tx is Some <==> old(ownership).dma() & tx == 0
                    &&& p.dma_copy is Some <==> (old(ownership).dma() | tx) & copy == 0
                    &&& final(ownership).dma() == old(ownership).dma() | tx | copy
                },
                None => old(ownership).is_taken() && final(ownership).dma() == old(ownership).dma(),
            },
    {
        if ownership.taken {
            return None;
        }
        ownership.taken = true;
        let dma_tx = Dma::<TX_UNIT, TX_CHANNEL>::take(&mut ownership.channels);
        let dma_copy = Dma::<COPY_UNIT, COPY_CHANNEL>::take(&mut ownership.channels);
        Some(Peripherals { gpio: Gpio::take(), can: Can::new(), dma_tx, dma_copy })
    }
}

/// Nothing is handed out twice: two different channels have different bits, and a
/// channel whose bit is set stays handed out.
pub proof fn law_channels_are_owned_once(unit: u8, channel: u8, other_unit: u8, other: u8)
    requires
        dma::exists_channel(unit, channel),
        dma::exists_channel(other_unit, other),
    ensures
        (channel_bit(unit, channel) & channel_bit(other_unit, other) != 0) == (unit == other_unit
            && channel == other),
        channel_bit(unit, channel) != 0,
{
    let a = dma::slot_of(unit, channel) as u32;
    let b = dma::slot_of(other_unit, other) as u32;
    assert((1u32 << a) & (1u32 << b) != 0 <==> a == b) by (bit_vector)
        requires
            a < 8,
            b < 8,
    ;
    assert(1u32 << a != 0) by (bit_vector)
        requires
            a < 8,
    ;
}

} // verus!
