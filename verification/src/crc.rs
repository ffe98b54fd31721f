//! The checksum unit: CRC16 with polynomial 0x1021 and CRC32 with 0x04c11db7.
//!
//! The unit is set up with a protocol, a format and an initial value; data is then
//! written to it, and the result is read back. When input and output are reflected
//! and the output is inverted, the result is the standard checksum.

use vstd::prelude::*;

use crate::mmio::{Access, Step, byte, change_word, half, word};

verus! {

const CR: usize = 0x4000_8c00;

const RESLT: usize = 0x4000_8c04;

const DAT0: usize = 0x4000_8c80;

const FCG0: usize = 0x4004_8000;

const FCG0PC: usize = 0x4004_8010;

const CR_CRC32: u32 = 0x02;

/// Which checksum.
#[derive(Clone, Copy, Debug, PartialEq, Eq, Structural)]
pub enum Protocol {
    Crc16,
    Crc32,
}

/// How much data is written at once.
#[derive(Clone, Copy, Debug, PartialEq, Eq, Structural)]
pub enum DataWidth {
    Byte,
    HalfWord,
    Word,
}

/// How a checksum is computed.
#[derive(Clone, Copy, Debug, PartialEq, Eq, Structural)]
pub struct Config {
    pub protocol: Protocol,
    pub init_value: u32,
    /// Whether the bits of the input are reversed.
    pub ref_in: bool,
    /// Whether the bits of the output are reversed.
    pub ref_out: bool,
    /// Whether the output is inverted.
    pub xor_out: bool,
}

impl Config {
    /// CRC16 of X.25.
    pub fn x25() -> (r: Self)
        ensures
            r == (Config {
                protocol: Protocol::Crc16,
                init_value: 0xffff,
                ref_in: true,
                ref_out: true,
                xor_out: true,
            }),
    {
        Config {
            protocol: Protocol::Crc16,
            init_value: 0xffff,
            ref_in: true,
            ref_out: true,
            xor_out: true,
        }
    }

    /// CRC16 CCITT-FALSE.
    pub fn ccitt_false() -> (r: Self)
        ensures
            r == (Config {
                protocol: Protocol::Crc16,
                init_value: 0xffff,
                ref_in: false,
                ref_out: false,
                xor_out: false,
            }),
    {
        Config {
            protocol: Protocol::Crc16,
            init_value: 0xffff,
            ref_in: false,
            ref_out: false,
            xor_out: false,
        }
    }

    /// CRC32 of IEEE 802.3.
    pub fn crc32() -> (r: Self)
        ensures
            r == (Config {
                protocol: Protocol::Crc32,
                init_value: 0xffff_ffff,
                ref_in: true,
                ref_out: true,
                xor_out: true,
            }),
    {
        Config {
            protocol: Protocol::Crc32,
            init_value: 0xffff_ffff,
            ref_in: true,
            ref_out: true,
            xor_out: true,
        }
    }

    /// CRC32 MPEG-2.
    pub fn crc32_mpeg2() -> (r: Self)
        ensures
            r == (Config {
                protocol: Protocol::Crc32,
                init_value: 0xffff_ffff,
                ref_in: false,
                ref_out: false,
                xor_out: false,
            }),
    {
        Config {
            protocol: Protocol::Crc32,
            init_value: 0xffff_ffff,
            ref_in: false,
            ref_out: false,
            xor_out: false,
        }
    }
}

/// The format bits of the control register.
pub open spec fn format_bits(cfg: Config) -> u32 {
    (if cfg.ref_in {
        0x04u32
    } else {
        0
    }) | (if cfg.ref_out {
        0x08u32
    } else {
        0
    }) | (if cfg.xor_out {
        0x10u32
    } else {
        0
    })
}

/// The clock of the unit is switched on, with the protection of the clock gates
/// lifted for the moment.
pub open spec fn clock_steps<E>() -> Seq<Step<E>> {
    seq![
        Step::<E>::Do(word(0x4004_8010, 0xa5a5_0001)),
        Step::<E>::Do(change_word(0x4004_8000, 0x0080_0000, 0)),
        Step::<E>::Do(word(0x4004_8010, 0xa5a5_0000)),
    ]
}

/// The unit is set up: the format first, the protocol with it in a second write,
/// then the initial value, which is written with the width of the protocol.
pub open spec fn init_steps<E>(cfg: Config) -> Seq<Step<E>> {
    clock_steps() + seq![Step::<E>::Do(word(0x4000_8c00, format_bits(cfg)))] + (match cfg.protocol {
        Protocol::Crc16 => seq![
            Step::<E>::Do(half(0x4000_8c04, (cfg.init_value & 0xffff) as u16)),
        ],
        Protocol::Crc32 => seq![
            Step::<E>::Do(word(0x4000_8c00, format_bits(cfg) | 0x02)),
            Step::<E>::Do(word(0x4000_8c04, cfg.init_value)),
        ],
    })
}

/// The protocol that a control register stands for.
pub open spec fn protocol_of(cr: u32) -> Protocol {
    if cr & 0x02 != 0 {
        Protocol::Crc32
    } else {
        Protocol::Crc16
    }
}

/// Bytes of one element.
pub open spec fn element(width: DataWidth) -> int {
    match width {
        DataWidth::Byte => 1,
        DataWidth::HalfWord => 2,
        DataWidth::Word => 4,
    }
}

/// Two bytes as a little-endian number.
pub open spec fn half_at(data: Seq<u8>, at: int) -> int {
    data[at] + 256 * data[at + 1]
}

/// Four bytes as a little-endian number.
pub open spec fn word_at(data: Seq<u8>, at: int) -> int {
    half_at(data, at) + 65536 * half_at(data, at + 2)
}

/// What is written for element `i`.
pub open spec fn element_access(data: Seq<u8>, width: DataWidth, i: int) -> Access {
    match width {
        DataWidth::Byte => byte(0x4000_8c80, data[i]),
        DataWidth::HalfWord => half(0x4000_8c80, half_at(data, 2 * i) as u16),
        DataWidth::Word => word(0x4000_8c80, word_at(data, 4 * i) as u32),
    }
}

/// Data goes to the unit element by element; an incomplete one at the end is left
/// out.
pub open spec fn data_steps<E>(data: Seq<u8>, width: DataWidth) -> Seq<Step<E>> {
    Seq::new(
        (data.len() as int / element(width)) as nat,
        |i: int| Step::<E>::Do(element_access(data, width, i)),
    )
}

fn clock_enable<E>() -> (r: Vec<Step<E>>)
    ensures
        r@ == clock_steps::<E>(),
{
    vec![
        Step::Do(word(FCG0PC, 0xa5a5_0001)),
        Step::Do(change_word(FCG0, 0x0080_0000, 0)),
        Step::Do(word(FCG0PC, 0xa5a5_0000)),
    ]
}

fn protocol_now(cr: u32) -> (r: Protocol)
    ensures
        r == protocol_of(cr),
{
    if cr & CR_CRC32 != 0 {
        Protocol::Crc32
    } else {
        Protocol::Crc16
    }
}

/// Set up the unit.
pub fn init<E>(cfg: Config) -> (r: Vec<Step<E>>)
    ensures
        r@ == init_steps::<E>(cfg),
{
    let ref_in: u32 = if cfg.ref_in {
        0x04
    } else {
        0
    };
    let ref_out: u32 = if cfg.ref_out {
        0x08
    } else {
        0
    };
    let xor_out: u32 = if cfg.xor_out {
        0x10
    } else {
        0
    };
    let cr: u32 = ref_in | ref_out | xor_out;
    let mut out: Vec<Step<E>> = clock_enable();
    out.push(Step::Do(word(CR, cr)));
    match cfg.protocol {
        Protocol::Crc16 => {
            out.push(Step::Do(half(RESLT, (cfg.init_value & 0xffff) as u16)));
        },
        Protocol::Crc32 => {
            out.push(Step::Do(word(CR, cr | CR_CRC32)));
            out.push(Step::Do(word(RESLT, cfg.init_value)));
        },
    }
    assert(out@ =~= init_steps::<E>(cfg));
    out
}

/// Set the initial value anew; `cr` is the control register.
pub fn set_init_value(cr: u32, value: u32) -> (r: Access)
    ensures
        r == word(
            0x4000_8c04,
            match protocol_of(cr) {
                Protocol::Crc16 => value & 0xffff,
                Protocol::Crc32 => value,
            },
        ),
{
    match protocol_now(cr) {
        Protocol::Crc16 => word(RESLT, value & 0xffff),
        Protocol::Crc32 => word(RESLT, value),
    }
}

/// Add data to the checksum.
pub fn accumulate<E>(data: &[u8], width: DataWidth) -> (r: Vec<Step<E>>)
    ensures
        r@ == data_steps::<E>(data@, width),
{
    let size: usize = match width {
        DataWidth::Byte => 1,
        DataWidth::HalfWord => 2,
        DataWidth::Word => 4,
    };
    let len: usize = data.len();
    let count: usize = len / size;
    let mut out: Vec<Step<E>> = Vec::new();
    let mut i: usize = 0;
    while i < count
        invariant
            i <= count,
            len == data@.len(),
            size == element(width),
            count == len as int / element(width),
            out@ == Seq::new(
                i as nat,
                |k: int| Step::<E>::Do(element_access(data@, width, k)),
            ),
        decreases count - i,
    {
        let access: Access = match width {
            DataWidth::Byte => byte(DAT0, data[i]),
            DataWidth::HalfWord => {
                assert(2 * (i + 1) <= data@.len());
                let value: u16 = data[2 * i] as u16 + 256 * (data[2 * i + 1] as u16);
                half(DAT0, value)
            },
            DataWidth::Word => {
                assert(4 * (i + 1) <= data@.len());
                let low: u32 = data[4 * i] as u32 + 256 * (data[4 * i + 1] as u32);
                let high: u32 = data[4 * i + 2] as u32 + 256 * (data[4 * i + 3] as u32);
                word(DAT0, low + 65536 * high)
            },
        };
        out.push(Step::Do(access));
        i += 1;
    }
    out
}

/// The checksum, given the control and the result register.
pub fn result(cr: u32, reslt: u32) -> (r: u32)
    ensures
        r == (match protocol_of(cr) {
            Protocol::Crc16 => reslt & 0xffff,
            Protocol::Crc32 => reslt,
        }),
{
    match protocol_now(cr) {
        Protocol::Crc16 => reslt & 0xffff,
        Protocol::Crc32 => reslt,
    }
}

/// Whether the checksum is complete, given the result and the flag register.
pub fn result_ready(protocol: Protocol, reslt: u32, flags: u32) -> (r: bool)
    ensures
        r == (match protocol {
            Protocol::Crc16 => reslt & 0x0001_0000 != 0,
            Protocol::Crc32 => flags & 0x01 != 0,
        }),
{
    match protocol {
        Protocol::Crc16 => reslt & 0x0001_0000 != 0,
        Protocol::Crc32 => flags & 0x01 != 0,
    }
}

/// Set up the unit and give it all the data; [`result`] is read afterwards.
pub fn calculate<E>(data: &[u8], width: DataWidth, cfg: Config) -> (r: Vec<Step<E>>)
    ensures
        r@ == init_steps::<E>(cfg) + data_steps::<E>(data@, width),
{
    let mut out: Vec<Step<E>> = init(cfg);
    let mut rest: Vec<Step<E>> = accumulate(data, width);
    out.append(&mut rest);
    out
}

/// Whether a computed checksum is the expected one; of a CRC16 only the low half
/// counts.
pub fn check(cfg: Config, computed: u32, expected: u32) -> (r: bool)
    ensures
        r == (match cfg.protocol {
            Protocol::Crc16 => computed & 0xffff == expected & 0xffff,
            Protocol::Crc32 => computed == expected,
        }),
{
    match cfg.protocol {
        Protocol::Crc16 => computed & 0xffff == expected & 0xffff,
        Protocol::Crc32 => computed == expected,
    }
}

// ---------------------------------------------------------------------------
// What the unit is told
// ---------------------------------------------------------------------------

proof fn lemma_format_bits(a: bool, b: bool, c: bool, v: u32, gate: u32)
    ensures
        ({
            let f = (if a {
                0x04u32
            } else {
                0
            }) | (if b {
                0x08u32
            } else {
                0
            }) | (if c {
                0x10u32
            } else {
                0
            });
            &&& (f & 0x04 != 0) == a && (f & 0x08 != 0) == b && (f & 0x10 != 0) == c && f & 0x02 == 0
            &&& ((f | 0x02) & 0x04 != 0) == a && ((f | 0x02) & 0x08 != 0) == b && ((f | 0x02) & 0x10
                != 0) == c && (f | 0x02) & 0x02 != 0
        }),
        ((v & 0xffff) as u16) as u32 == v % 0x1_0000,
        v & 0xffff == v % 0x1_0000,
        (gate & !0x0080_0000u32) | 0u32 == gate & 0xff7f_ffff,
{
    assert({
        let f = (if a {
            0x04u32
        } else {
            0
        }) | (if b {
            0x08u32
        } else {
            0
        }) | (if c {
            0x10u32
        } else {
            0
        });
        &&& (f & 0x04 != 0) == a && (f & 0x08 != 0) == b && (f & 0x10 != 0) == c && f & 0x02 == 0
        &&& ((f | 0x02) & 0x04 != 0) == a && ((f | 0x02) & 0x08 != 0) == b && ((f | 0x02) & 0x10
            != 0) == c && (f | 0x02) & 0x02 != 0
        &&& ((v & 0xffff) as u16) as u32 == v % 0x1_0000 && v & 0xffff == v % 0x1_0000
        &&& (gate & !0x0080_0000u32) | 0u32 == gate & 0xff7f_ffff
    }) by (bit_vector);
}

/// The unit works as configured: bit 1 of its control register tells CRC32, bits 2 and 3
/// the reversal of input and output, bit 4 the inversion; the initial value is in the
/// result register, in the width of the checksum; and the unit has its clock.
pub proof fn law_unit_is_set_up<E>(cfg: Config, steps: Vec<Step<E>>, before: u32)
    requires
        call_ensures(init::<E>, (cfg,), steps),
    ensures
        ({
            let cr = crate::mmio::left_in(steps@, crate::mmio::word_at(0x4000_8c00), before);
            &&& cr & 0x02 != 0 <==> cfg.protocol == Protocol::Crc32
            &&& cr & 0x04 != 0 <==> cfg.ref_in
            &&& cr & 0x08 != 0 <==> cfg.ref_out
            &&& cr & 0x10 != 0 <==> cfg.xor_out
        }),
        cfg.protocol == Protocol::Crc16 ==> crate::mmio::left_in(
            steps@,
            crate::mmio::half_at(0x4000_8c04),
            before,
        ) == cfg.init_value % 0x1_0000,
        cfg.protocol == Protocol::Crc32 ==> crate::mmio::left_in(
            steps@,
            crate::mmio::word_at(0x4000_8c04),
            before,
        ) == cfg.init_value,
        crate::mmio::left_in(steps@, crate::mmio::word_at(0x4004_8000), before) == before
            & 0xff7f_ffff,
        crate::mmio::left_in(steps@, crate::mmio::word_at(0x4004_8010), before) == 0xa5a5_0000,
{
    broadcast use crate::mmio::lemma_written;

    lemma_format_bits(cfg.ref_in, cfg.ref_out, cfg.xor_out, cfg.init_value, before);
    assert(steps@ == init_steps::<E>(cfg));
    reveal_with_fuel(crate::mmio::left_after, 7);
}

/// The unit gets the data in order and with nothing left out but an incomplete element at
/// its end: each element holds its bytes from the lowest on, and all go to the data
/// register.
pub proof fn law_data_arrives_in_order<E>(
    data: &[u8],
    width: DataWidth,
    steps: Vec<Step<E>>,
    i: int,
)
    requires
        call_ensures(accumulate::<E>, (data, width), steps),
        0 <= i < steps@.len(),
    ensures
        ({
            let size = match width {
                DataWidth::Byte => 1int,
                DataWidth::HalfWord => 2,
                DataWidth::Word => 4,
            };
            &&& steps@.len() * size <= data@.len() < (steps@.len() + 1) * size
            &&& steps@[i] matches Step::Do(access) && {
                &&& access.place.addr == 0x4000_8c80
                &&& access.keep == 0
                &&& width == DataWidth::Byte ==> access.place.width == crate::mmio::Width::Byte
                    && access.set == data@[i]
                &&& width == DataWidth::HalfWord ==> access.place.width == crate::mmio::Width::Half
                    && access.set % 256 == data@[2 * i] && access.set / 256 == data@[2 * i + 1]
                &&& width == DataWidth::Word ==> access.place.width == crate::mmio::Width::Word
                    && access.set % 256 == data@[4 * i] && access.set / 256 % 256 == data@[4 * i
                    + 1] && access.set / 0x1_0000 % 256 == data@[4 * i + 2] && access.set
                    / 0x100_0000 == data@[4 * i + 3]
            }
        }),
{
    assert(steps@[i] == Step::<E>::Do(element_access(data@, width, i)));
    if width == DataWidth::Word {
        let a = data@[4 * i] as int;
        let b = data@[4 * i + 1] as int;
        let c = data@[4 * i + 2] as int;
        let d = data@[4 * i + 3] as int;
        let w = a + 0x100 * b + 0x1_0000 * c + 0x100_0000 * d;
        assert(word_at(data@, 4 * i) == w);
        assert(w / 0x100_0000 == d);
        assert(w / 0x1_0000 == c + 0x100 * d);
        assert(w / 0x100 == b + 0x100 * c + 0x1_0000 * d);
    }
}

/// What is read as the checksum is what is compared with the expected one: of a unit that
/// was set up for CRC16 the lower half counts, for CRC32 the whole.
pub proof fn law_checksums_compare_as_read<E>(
    cfg: Config,
    steps: Vec<Step<E>>,
    before: u32,
    reslt: u32,
    sum: u32,
    expected: u32,
    same: bool,
)
    requires
        call_ensures(init::<E>, (cfg,), steps),
        call_ensures(
            result,
            (crate::mmio::left_in(steps@, crate::mmio::word_at(0x4000_8c00), before), reslt),
            sum,
        ),
        call_ensures(check, (cfg, sum, expected), same),
    ensures
        cfg.protocol == Protocol::Crc16 ==> sum == reslt % 0x1_0000 && same == (reslt % 0x1_0000
            == expected % 0x1_0000),
        cfg.protocol == Protocol::Crc32 ==> sum == reslt && same == (reslt == expected),
{
    law_unit_is_set_up(cfg, steps, before);
    lemma_format_bits(false, false, false, reslt, 0);
    lemma_format_bits(false, false, false, sum, 0);
    lemma_format_bits(false, false, false, expected, 0);
}

/// An initial value that was set is what is read as the checksum before any data: the
/// lower half of it for CRC16, all of it for CRC32.
pub proof fn law_initial_values_read_back<E>(
    cfg: Config,
    steps: Vec<Step<E>>,
    before: u32,
    value: u32,
    a: Access,
    held: u32,
    sum: u32,
)
    requires
        call_ensures(init::<E>, (cfg,), steps),
        call_ensures(
            set_init_value,
            (crate::mmio::left_in(steps@, crate::mmio::word_at(0x4000_8c00), before), value),
            a,
        ),
        call_ensures(
            result,
            (
                crate::mmio::left_in(steps@, crate::mmio::word_at(0x4000_8c00), before),
                crate::mmio::left_by(Step::<E>::Do(a), crate::mmio::word_at(0x4000_8c04), held),
            ),
            sum,
        ),
    ensures
        cfg.protocol == Protocol::Crc16 ==> sum == value % 0x1_0000,
        cfg.protocol == Protocol::Crc32 ==> sum == value,
{
    broadcast use crate::mmio::lemma_written;

    law_unit_is_set_up(cfg, steps, before);
    lemma_format_bits(false, false, false, value, 0);
    lemma_format_bits(false, false, false, value & 0xffff, 0);
}

} // verus!
