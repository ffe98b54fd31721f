//! The words at flash address 0x400 from which the hardware configures itself when
//! it is reset.

use vstd::prelude::*;

verus! {

/// Watchdogs stopped after reset.
const ICG0_DEFAULT: u32 = 0xffdf_ffbf;

/// The high-speed oscillator at 16 MHz and running after reset.
const ICG1_DEFAULT: u32 = 0xffff_feff;

/// The second word: bit 0 is clear for 20 MHz, and bit 8 is set when the
/// oscillator is to be stopped after reset.
pub open spec fn icg1_of(hrc_mhz: u32, hrc_stop: bool) -> u32 {
    if hrc_mhz == 16 {
        if hrc_stop {
            0xffff_ffffu32
        } else {
            0xffff_feff
        }
    } else if hrc_stop {
        0xffff_fffe
    } else {
        0xffff_fefe
    }
}

fn icg1(hrc_mhz: u32, hrc_stop: bool) -> (r: u32)
    ensures
        r == icg1_of(hrc_mhz, hrc_stop),
{
    proof {
        lemma_icg_bits();
    }
    let word: u32 = if hrc_mhz == 16 {
        ICG1_DEFAULT
    } else {
        ICG1_DEFAULT & !1u32
    };
    if hrc_stop {
        word | 0x100u32
    } else {
        word
    }
}

/// The eight words.
pub fn icg_words(hrc_mhz: u32, hrc_stop: bool) -> (r: [u32; 8])
    ensures
        r@ == seq![
            0xffdf_ffbfu32,
            icg1_of(hrc_mhz, hrc_stop),
            0xffff_ffff,
            0xffff_ffff,
            0xffff_ffff,
            0xffff_ffff,
            0xffff_ffff,
            0xffff_ffff,
        ],
{
    [
        ICG0_DEFAULT,
        icg1(hrc_mhz, hrc_stop),
        0xffff_ffff,
        0xffff_ffff,
        0xffff_ffff,
        0xffff_ffff,
        0xffff_ffff,
        0xffff_ffff,
    ]
}

/// The hardware starts with the oscillator that was asked for: the second word is read as
/// 16 MHz exactly if 16 MHz were configured, and stops the oscillator exactly if that was
/// configured.
pub proof fn law_words_are_read_as_configured(
    hrc_mhz: u32,
    hrc_stop: bool,
    words: [u32; 8],
)
    requires
        call_ensures(icg_words, (hrc_mhz, hrc_stop), words),
        hrc_mhz == 16 || hrc_mhz == 20,
    ensures
        crate::clk::hrc_of(words@[1]) == hrc_mhz * 1_000_000,
        words@[1] & 0x100 != 0 <==> hrc_stop,
{
    lemma_icg_bits();
}

proof fn lemma_icg_bits()
    ensures
        0xffff_feffu32 & !1u32 == 0xffff_fefeu32,
        0xffff_feffu32 | 0x100u32 == 0xffff_ffffu32,
        0xffff_fefeu32 | 0x100u32 == 0xffff_fffeu32,
        0xffff_ffffu32 & 1 == 1 && 0xffff_feffu32 & 1 == 1,
        0xffff_fffeu32 & 1 == 0 && 0xffff_fefeu32 & 1 == 0,
        0xffff_ffffu32 & 0x100 == 0x100 && 0xffff_fffeu32 & 0x100 == 0x100,
        0xffff_feffu32 & 0x100 == 0 && 0xffff_fefeu32 & 0x100 == 0,
{
    assert(0xffff_feffu32 & !1u32 == 0xffff_fefeu32 && 0xffff_feffu32 | 0x100u32 == 0xffff_ffffu32
        && 0xffff_fefeu32 | 0x100u32 == 0xffff_fffeu32 && 0xffff_ffffu32 & 1 == 1 && 0xffff_feffu32
        & 1 == 1 && 0xffff_fffeu32 & 1 == 0 && 0xffff_fefeu32 & 1 == 0 && 0xffff_ffffu32 & 0x100
        == 0x100 && 0xffff_fffeu32 & 0x100 == 0x100 && 0xffff_feffu32 & 0x100 == 0 && 0xffff_fefeu32
        & 0x100 == 0) by (bit_vector);
}

} // verus!
