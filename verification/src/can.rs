//! The controller of a classic CAN bus.
//!
//! Frames are sent through a primary buffer, one at a time, or a secondary one with
//! four slots, and received through a queue with ten slots. Eight filters decide
//! which identifiers are received.
//!
//! The functions that take register values expect them to have been read with the
//! interrupts masked, and their steps to be carried out before they are unmasked.

use vstd::prelude::*;

use crate::can_timing;
use crate::can_timing::BitTiming;
use crate::clk;
use crate::clk::{ClkError, Crystal};
use crate::intc;
use crate::intc::{IrqError, Line, Registration, Removal};
use crate::mmio::{Access, Step, byte, change_byte, change_word, word};

verus! {

const FCG1: usize = 0x4004_8004;

const TBUF: usize = 0x4007_0450;

const CFG_STAT: usize = 0x4007_04a0;

const TCMD: usize = 0x4007_04a1;

const TCTRL: usize = 0x4007_04a2;

const RCTRL: usize = 0x4007_04a3;

const RTIE: usize = 0x4007_04a4;

const RTIF: usize = 0x4007_04a5;

const ERRINT: usize = 0x4007_04a6;

const LIMIT: usize = 0x4007_04a7;

const SBT: usize = 0x4007_04a8;

const ACFCTRL: usize = 0x4007_04b4;

const ACFEN: usize = 0x4007_04b6;

const ACF: usize = 0x4007_04b8;

const EXT_ID_MASK: u32 = 0x1fff_ffff;

/// The identifier of a frame.
#[derive(Clone, Copy, Debug, PartialEq, Eq, Structural)]
pub enum Id {
    /// 11 bits.
    Standard(u16),
    /// 29 bits.
    Extended(u32),
}

/// The number of an identifier.
pub open spec fn id_number(id: Id) -> u32 {
    match id {
        Id::Standard(n) => n as u32,
        Id::Extended(n) => n,
    }
}

/// The identifier fits into its bits.
pub open spec fn id_ok(id: Id) -> bool {
    match id {
        Id::Standard(n) => n <= 0x7ff,
        Id::Extended(n) => n <= 0x1fff_ffff,
    }
}

impl Id {
    /// The number of the identifier.
    pub fn raw(self) -> (r: u32)
        ensures
            r == id_number(self),
    {
        match self {
            Id::Standard(n) => n as u32,
            Id::Extended(n) => n,
        }
    }

    /// Whether it has 29 bits.
    pub fn is_extended(self) -> (r: bool)
        ensures
            r == self is Extended,
    {
        match self {
            Id::Standard(_) => false,
            Id::Extended(_) => true,
        }
    }

    fn valid(self) -> (r: bool)
        ensures
            r == id_ok(self),
    {
        match self {
            Id::Standard(n) => n <= 0x7ff,
            Id::Extended(n) => n <= EXT_ID_MASK,
        }
    }
}

/// A frame to be sent. Only the first `dlc` bytes count.
#[derive(Clone, Copy, Debug, PartialEq, Eq)]
pub struct TxFrame {
    pub id: Id,
    /// Whether it is a request for data.
    pub rtr: bool,
    pub dlc: u8,
    pub data: [u8; 8],
}

/// A frame that was received.
#[derive(Clone, Copy, Debug, PartialEq, Eq)]
pub struct RxFrame {
    pub id: Id,
    pub rtr: bool,
    pub dlc: u8,
    pub data: [u8; 8],
    /// Whether it was sent by this controller.
    pub self_tx: bool,
    pub error: ErrorKind,
    pub cycle_time: u16,
}

/// Which frames a filter is for.
#[derive(Clone, Copy, Debug, PartialEq, Eq, Structural)]
pub enum FilterType {
    StandardAndExtended,
    StandardOnly,
    ExtendedOnly,
}

/// The bits of a filter type in the mask register.
pub open spec fn filter_bits(kind: FilterType) -> u32 {
    match kind {
        FilterType::StandardAndExtended => 0,
        FilterType::StandardOnly => 0x4000_0000,
        FilterType::ExtendedOnly => 0x6000_0000,
    }
}

impl FilterType {
    fn bits(self) -> (r: u32)
        ensures
            r == filter_bits(self),
    {
        match self {
            FilterType::StandardAndExtended => 0,
            FilterType::StandardOnly => 0x4000_0000,
            FilterType::ExtendedOnly => 0x6000_0000,
        }
    }
}

/// A filter: a frame passes if its identifier is `id` in the bits that are clear in
/// `mask`.
#[derive(Clone, Copy, Debug, PartialEq, Eq, Structural)]
pub struct Filter {
    pub id: u32,
    pub mask: u32,
    pub kind: FilterType,
}

/// Identifier and mask have 29 bits, and the identifier 11 for standard frames.
pub open spec fn filter_ok(f: Filter) -> bool {
    f.id <= 0x1fff_ffff && f.mask <= 0x1fff_ffff && (f.kind == FilterType::StandardOnly ==> f.id
        <= 0x7ff)
}

impl Filter {
    /// The filter that every frame passes.
    pub fn accept_all() -> (r: Self)
        ensures
            r == (Filter {
                id: 0,
                mask: 0x1fff_ffff,
                kind: FilterType::StandardAndExtended,
            }),
    {
        Filter { id: 0, mask: EXT_ID_MASK, kind: FilterType::StandardAndExtended }
    }

    fn valid(self) -> (r: bool)
        ensures
            r == filter_ok(self),
    {
        self.id <= EXT_ID_MASK && self.mask <= EXT_ID_MASK && (!matches!(
            self.kind,
            FilterType::StandardOnly
        ) || self.id <= 0x7ff)
    }
}

/// How the controller takes part in the traffic.
#[derive(Clone, Copy, Debug, PartialEq, Eq, Structural)]
pub enum WorkMode {
    Normal,
    /// It only listens.
    Silent,
    /// It receives what it sends, without the bus.
    InternalLoopback,
    /// It receives what it sends over the bus.
    ExternalLoopback,
    /// The same, without acknowledging what others send.
    ExternalLoopbackSilent,
}

/// What happens when the receive queue is full.
#[derive(Clone, Copy, Debug, PartialEq, Eq, Structural)]
pub enum RxOverflowMode {
    OverwriteOldest,
    DiscardNewest,
}

/// In which order the secondary buffer is sent.
#[derive(Clone, Copy, Debug, PartialEq, Eq, Structural)]
pub enum StbPriority {
    Fifo,
    LowestIdFirst,
}

/// All events.
pub const INTERRUPTS_ALL: u16 = 0x2afe;

/// Events that are reported.
#[derive(Clone, Copy, Debug, PartialEq, Eq, Structural)]
pub struct Interrupts(u16);

impl Interrupts {
    pub closed spec fn value(self) -> u16 {
        self.0
    }

    /// The events with these bits.
    pub fn new(bits: u16) -> (r: Self)
        ensures
            r.value() == bits,
    {
        Interrupts(bits)
    }

    /// The bits of the events.
    pub fn bits(self) -> (r: u16)
        ensures
            r == self.value(),
    {
        self.0
    }

    /// The events of both.
    pub fn union(self, other: Self) -> (r: Self)
        ensures
            r.value() == self.value() | other.value(),
    {
        Interrupts(self.0 | other.0)
    }

    /// Whether all events of the other one are included here.
    pub fn contains(self, other: Self) -> (r: bool)
        ensures
            r == (self.value() & other.value() == other.value()),
    {
        self.0 & other.0 == other.0
    }

    fn rtie(self) -> (r: u8)
        ensures
            r == rtie_of(self.value()),
    {
        (self.0 & 0xff) as u8
    }

    fn errint(self) -> (r: u8)
        ensures
            r == errint_of(self.value()),
    {
        ((self.0 >> 8u16) & 0x2a) as u8
    }
}

/// Bits of the events in the interrupt enable register.
pub open spec fn rtie_of(events: u16) -> u8 {
    (events & 0xff) as u8
}

/// Bits of the events in the error register.
pub open spec fn errint_of(events: u16) -> u8 {
    ((events >> 8u16) & 0x2a) as u8
}

/// The primary buffer has been sent.
pub const STATUS_PTB_TX: u32 = 0x0008_0000;

/// The secondary buffer has been sent.
pub const STATUS_STB_TX: u32 = 0x0004_0000;

/// The secondary buffer is full.
pub const STATUS_TX_BUFFER_FULL: u32 = 0x0000_0100;

/// Bus off, an error interrupt, a bus error or lost arbitration.
pub const STATUS_TX_ERRORS: u32 = 0x0502_0001;

/// What the controller reports.
#[derive(Clone, Copy, Debug, PartialEq, Eq, Structural)]
pub struct Status(u32);

impl Status {
    pub closed spec fn value(self) -> u32 {
        self.0
    }

    /// The status with these bits.
    pub fn new(bits: u32) -> (r: Self)
        ensures
            r.value() == bits,
    {
        Status(bits)
    }

    /// The bits of the status.
    pub fn bits(self) -> (r: u32)
        ensures
            r == self.value(),
    {
        self.0
    }

    /// The flags of both.
    pub fn union(self, other: Self) -> (r: Self)
        ensures
            r.value() == self.value() | other.value(),
    {
        Status(self.0 | other.0)
    }

    /// Whether all flags of the other one are set here.
    pub fn contains(self, other: Self) -> (r: bool)
        ensures
            r == (self.value() & other.value() == other.value()),
    {
        self.0 & other.0 == other.0
    }

    /// Whether a flag of the other one is set here.
    pub fn intersects(self, other: Self) -> (r: bool)
        ensures
            r == (self.value() & other.value() != 0),
    {
        self.0 & other.0 != 0
    }
}

/// The last error on the bus.
#[derive(Clone, Copy, Debug, PartialEq, Eq, Structural)]
pub enum ErrorKind {
    NoError,
    Bit,
    Form,
    Stuff,
    Acknowledge,
    Crc,
    Other,
    Reserved,
}

/// The error with a number.
pub open spec fn error_kind(value: u8) -> ErrorKind {
    if value & 7 == 0 {
        ErrorKind::NoError
    } else if value & 7 == 1 {
        ErrorKind::Bit
    } else if value & 7 == 2 {
        ErrorKind::Form
    } else if value & 7 == 3 {
        ErrorKind::Stuff
    } else if value & 7 == 4 {
        ErrorKind::Acknowledge
    } else if value & 7 == 5 {
        ErrorKind::Crc
    } else if value & 7 == 6 {
        ErrorKind::Other
    } else {
        ErrorKind::Reserved
    }
}

impl ErrorKind {
    fn from_raw(value: u8) -> (r: Self)
        ensures
            r == error_kind(value),
    {
        let code: u8 = value & 7;
        if code == 0 {
            ErrorKind::NoError
        } else if code == 1 {
            ErrorKind::Bit
        } else if code == 2 {
            ErrorKind::Form
        } else if code == 3 {
            ErrorKind::Stuff
        } else if code == 4 {
            ErrorKind::Acknowledge
        } else if code == 5 {
            ErrorKind::Crc
        } else if code == 6 {
            ErrorKind::Other
        } else {
            ErrorKind::Reserved
        }
    }
}

/// What is known of errors.
#[derive(Clone, Copy, Debug, PartialEq, Eq, Structural)]
pub struct ErrorInfo {
    pub arbitration_lost_position: u8,
    pub kind: ErrorKind,
    pub rx_count: u8,
    pub tx_count: u8,
}

/// How full a buffer is.
#[derive(Clone, Copy, Debug, PartialEq, Eq, Structural)]
pub enum BufferStatus {
    Empty,
    Low,
    High,
    Full,
}

/// The fill level with a number.
pub open spec fn buffer_status(value: u8) -> BufferStatus {
    if value & 3 == 0 {
        BufferStatus::Empty
    } else if value & 3 == 1 {
        BufferStatus::Low
    } else if value & 3 == 2 {
        BufferStatus::High
    } else {
        BufferStatus::Full
    }
}

impl BufferStatus {
    fn from_raw(value: u8) -> (r: Self)
        ensures
            r == buffer_status(value),
    {
        let code: u8 = value & 3;
        if code == 0 {
            BufferStatus::Empty
        } else if code == 1 {
            BufferStatus::Low
        } else if code == 2 {
            BufferStatus::High
        } else {
            BufferStatus::Full
        }
    }
}

/// A transmit buffer.
#[derive(Clone, Copy, Debug, PartialEq, Eq, Structural)]
pub enum TxBuffer {
    Primary,
    Secondary,
}

/// How much of the secondary buffer is sent.
#[derive(Clone, Copy, Debug, PartialEq, Eq, Structural)]
pub enum StbTransmit {
    One,
    All,
}

/// How the controller is set up.
#[derive(Debug)]
pub struct Config {
    pub mode: WorkMode,
    pub bitrate: u32,
    pub sample_point_permille: u16,
    pub sjw: u8,
    pub max_bitrate_error_ppm: u32,
    /// One to eight filters.
    pub filters: Vec<Filter>,
    /// Whether the primary buffer is sent only once.
    pub ptb_single_shot: bool,
    /// Whether the secondary buffer is sent only once.
    pub stb_single_shot: bool,
    pub stb_priority: StbPriority,
    /// Frames in the receive queue from which on a warning is given.
    pub rx_warn_limit: u8,
    /// Errors, in steps of eight, from which on a warning is given.
    pub error_warn_limit: u8,
    /// Whether frames with errors are received.
    pub rx_all_frames: bool,
    pub rx_overflow: RxOverflowMode,
    /// Whether frames are acknowledged to oneself; only with external loopback.
    pub self_ack: bool,
    pub interrupts: Interrupts,
}

impl Default for Config {
    fn default() -> (r: Self)
        ensures
            r.mode == WorkMode::Normal,
            r.bitrate == 500_000,
            r.sample_point_permille == 750,
            r.sjw == 2,
            r.max_bitrate_error_ppm == 10_000,
            r.filters@ == seq![
                Filter { id: 0, mask: 0x1fff_ffff, kind: FilterType::StandardAndExtended },
            ],
            !r.ptb_single_shot,
            !r.stb_single_shot,
            r.stb_priority == StbPriority::Fifo,
            r.rx_warn_limit == 10,
            r.error_warn_limit == 7,
            !r.rx_all_frames,
            r.rx_overflow == RxOverflowMode::DiscardNewest,
            !r.self_ack,
            r.interrupts.value() == 0x2afe,
    {
        Config {
            mode: WorkMode::Normal,
            bitrate: 500_000,
            sample_point_permille: 750,
            sjw: 2,
            max_bitrate_error_ppm: 10_000,
            filters: vec![Filter::accept_all()],
            ptb_single_shot: false,
            stb_single_shot: false,
            stb_priority: StbPriority::Fifo,
            rx_warn_limit: 10,
            error_warn_limit: 7,
            rx_all_frames: false,
            rx_overflow: RxOverflowMode::DiscardNewest,
            self_ack: false,
            interrupts: Interrupts(INTERRUPTS_ALL),
        }
    }
}

/// Why something cannot be done.
#[derive(Clone, Copy, Debug, PartialEq, Eq, Structural)]
pub enum CanError {
    BitTimingUnsupported,
    BitrateTooHigh,
    XtalNotReady,
    /// The clock of the controller is less than one and a half times the crystal.
    ClockConstraint,
    InvalidFilterCount,
    InvalidFilter,
    InvalidRxWarnLimit,
    InvalidErrorWarnLimit,
    InvalidStandardId,
    InvalidExtendedId,
    InvalidDlc,
    InLocalReset,
    SilentMode,
    TxBusy,
    TxBufferFull,
}

// ---------------------------------------------------------------------------
// Frames
// ---------------------------------------------------------------------------

/// Why a frame cannot be sent.
pub open spec fn frame_error(frame: TxFrame) -> Option<CanError> {
    if !id_ok(frame.id) {
        Some(
            match frame.id {
                Id::Standard(_) => CanError::InvalidStandardId,
                Id::Extended(_) => CanError::InvalidExtendedId,
            },
        )
    } else if frame.dlc > 8 {
        Some(CanError::InvalidDlc)
    } else {
        None
    }
}

impl TxFrame {
    /// A frame with data.
    pub fn data(id: Id, dlc: u8, data: [u8; 8]) -> (r: Self)
        ensures
            r == (TxFrame { id, rtr: false, dlc, data }),
    {
        TxFrame { id, rtr: false, dlc, data }
    }

    /// A request for data.
    pub fn remote(id: Id, dlc: u8) -> (r: Self)
        ensures
            r.id == id,
            r.rtr,
            r.dlc == dlc,
            r.data@ == Seq::new(8, |i: int| 0u8),
    {
        let data: [u8; 8] = [0, 0, 0, 0, 0, 0, 0, 0];
        assert(data@ =~= Seq::new(8, |i: int| 0u8));
        TxFrame { id, rtr: true, dlc, data }
    }

    /// Whether the frame can be sent.
    fn validate(&self) -> (r: Result<(), CanError>)
        ensures
            match r {
                Ok(_) => frame_error(*self) is None,
                Err(e) => frame_error(*self) == Some(e),
            },
    {
        if !self.id.valid() {
            return Err(
                match self.id {
                    Id::Standard(_) => CanError::InvalidStandardId,
                    Id::Extended(_) => CanError::InvalidExtendedId,
                },
            );
        }
        if self.dlc > 8 {
            return Err(CanError::InvalidDlc);
        }
        Ok(())
    }
}

/// The control word of a frame.
pub open spec fn control_word(frame: TxFrame) -> u32 {
    frame.dlc as u32 | (if frame.rtr {
        0x40u32
    } else {
        0
    }) | (if frame.id is Extended {
        0x80u32
    } else {
        0
    })
}

/// Four bytes as a little-endian number.
pub open spec fn le_word(data: Seq<u8>, at: int) -> int {
    data[at] + 0x100 * data[at + 1] + 0x1_0000 * data[at + 2] + 0x100_0000 * data[at + 3]
}

/// A frame is written to the selected transmit buffer; a request has no data.
pub open spec fn frame_steps(frame: TxFrame) -> Seq<Step<CanError>> {
    let head = seq![
        Step::<CanError>::Do(word(0x4007_0450, id_number(frame.id))),
        Step::<CanError>::Do(word(0x4007_0454, control_word(frame))),
    ];
    if frame.rtr {
        head
    } else {
        head + seq![
            Step::<CanError>::Do(word(0x4007_0458, le_word(frame.data@, 0) as u32)),
            Step::<CanError>::Do(word(0x4007_045c, le_word(frame.data@, 4) as u32)),
        ]
    }
}

fn word_of(data: &[u8; 8], at: usize) -> (r: u32)
    requires
        at <= 4,
    ensures
        r == le_word(data@, at as int),
{
    data[at] as u32 + 0x100 * (data[at + 1] as u32) + 0x1_0000 * (data[at + 2] as u32) + 0x100_0000
        * (data[at + 3] as u32)
}

fn write_tx_frame(frame: &TxFrame) -> (r: Vec<Step<CanError>>)
    ensures
        r@ == frame_steps(*frame),
{
    let rtr: u32 = if frame.rtr {
        0x40
    } else {
        0
    };
    let extended: u32 = if frame.id.is_extended() {
        0x80
    } else {
        0
    };
    let mut out: Vec<Step<CanError>> =
        vec![
        Step::Do(word(TBUF, frame.id.raw())),
        Step::Do(word(TBUF + 4, frame.dlc as u32 | rtr | extended)),
    ];
    if !frame.rtr {
        out.push(Step::Do(word(TBUF + 8, word_of(&frame.data, 0))));
        out.push(Step::Do(word(TBUF + 12, word_of(&frame.data, 4))));
    }
    out
}

/// Byte `i` of a word, the lowest first.
pub open spec fn byte_of(w: u32, i: int) -> u8 {
    if i == 0 {
        (w % 0x100) as u8
    } else if i == 1 {
        (w / 0x100 % 0x100) as u8
    } else if i == 2 {
        (w / 0x1_0000 % 0x100) as u8
    } else {
        (w / 0x100_0000) as u8
    }
}

/// Bytes of data in a received frame.
pub open spec fn data_len(control: u32) -> int {
    if control % 0x10 <= 8 {
        control as int % 0x10
    } else {
        8
    }
}

/// The identifier of a received frame.
pub open spec fn received_id(raw: u32, control: u32) -> Id {
    if control & 0x80 != 0 {
        Id::Extended(raw & 0x1fff_ffff)
    } else {
        Id::Standard((raw & 0x7ff) as u16)
    }
}

/// Byte `i` of the data of a received frame; what lies beyond its length is zero.
pub open spec fn received_byte(control: u32, low: u32, high: u32, i: int) -> u8 {
    if i >= data_len(control) {
        0
    } else if i < 4 {
        byte_of(low, i)
    } else {
        byte_of(high, i - 4)
    }
}

fn split(w: u32) -> (r: [u8; 4])
    ensures
        forall|i: int| 0 <= i < 4 ==> #[trigger] r@[i] == byte_of(w, i),
{
    [
        (w % 0x100) as u8,
        (w / 0x100 % 0x100) as u8,
        (w / 0x1_0000 % 0x100) as u8,
        (w / 0x100_0000) as u8,
    ]
}

/// The frame that the four words of the receive buffer hold.
fn decode_frame(raw: u32, control: u32, low: u32, high: u32) -> (r: RxFrame)
    ensures
        r.id == received_id(raw, control),
        r.rtr == (control & 0x40 != 0),
        r.dlc == data_len(control),
        forall|i: int| 0 <= i < 8 ==> #[trigger] r.data@[i] == received_byte(control, low, high, i),
        r.self_tx == (control & 0x1000 != 0),
        r.error == error_kind(((control >> 13u32) & 7) as u8),
        r.cycle_time == control / 0x1_0000,
{
    let extended: bool = control & 0x80 != 0;
    let code: u8 = (control % 0x10) as u8;
    let dlc: u8 = if code <= 8 {
        code
    } else {
        8
    };
    let id: Id = if extended {
        Id::Extended(raw & EXT_ID_MASK)
    } else {
        Id::Standard((raw & 0x7ff) as u16)
    };
    let first: [u8; 4] = split(low);
    let second: [u8; 4] = split(high);
    let mut data: [u8; 8] = [0, 0, 0, 0, 0, 0, 0, 0];
    let mut i: usize = 0;
    while i < dlc as usize
        invariant
            i <= dlc,
            dlc <= 8,
            dlc == data_len(control),
            forall|j: int| 0 <= j < 4 ==> #[trigger] first@[j] == byte_of(low, j),
            forall|j: int| 0 <= j < 4 ==> #[trigger] second@[j] == byte_of(high, j),
            forall|j: int|
                0 <= j < i ==> #[trigger] data@[j] == received_byte(control, low, high, j),
            forall|j: int| i <= j < 8 ==> #[trigger] data@[j] == 0,
        decreases dlc - i,
    {
        if i < 4 {
            data[i] = first[i];
        } else {
            data[i] = second[i - 4];
        }
        i += 1;
    }
    assert(control >> 16u32 == control / 0x1_0000 && (control >> 13u32) & 7 <= 7) by (bit_vector);
    RxFrame {
        id,
        rtr: control & 0x40 != 0,
        dlc,
        data,
        self_tx: control & 0x1000 != 0,
        error: ErrorKind::from_raw(((control >> 13u32) & 7) as u8),
        cycle_time: (control >> 16u32) as u16,
    }
}

// ---------------------------------------------------------------------------
// Setting up
// ---------------------------------------------------------------------------

/// All filters are admissible.
pub open spec fn filters_ok(filters: Seq<Filter>) -> bool {
    forall|i: int| 0 <= i < filters.len() ==> filter_ok(#[trigger] filters[i])
}

/// What is wrong with a configuration, if anything.
pub open spec fn config_error(cfg: Config) -> Option<CanError> {
    if cfg.bitrate > 1_000_000 {
        Some(CanError::BitrateTooHigh)
    } else if cfg.filters@.len() == 0 || cfg.filters@.len() > 8 {
        Some(CanError::InvalidFilterCount)
    } else if !filters_ok(cfg.filters@) {
        Some(CanError::InvalidFilter)
    } else if cfg.rx_warn_limit < 1 || cfg.rx_warn_limit > 10 {
        Some(CanError::InvalidRxWarnLimit)
    } else if cfg.error_warn_limit > 15 {
        Some(CanError::InvalidErrorWarnLimit)
    } else {
        None
    }
}

fn validate_config(cfg: &Config) -> (r: Result<(), CanError>)
    ensures
        match r {
            Ok(_) => config_error(*cfg) is None,
            Err(e) => config_error(*cfg) == Some(e),
        },
{
    if cfg.bitrate > can_timing::MAX_CLASSIC_BITRATE {
        return Err(CanError::BitrateTooHigh);
    }
    if cfg.filters.len() == 0 || cfg.filters.len() > 8 {
        return Err(CanError::InvalidFilterCount);
    }
    let mut i: usize = 0;
    while i < cfg.filters.len()
        invariant
            i <= cfg.filters@.len(),
            cfg.bitrate <= 1_000_000,
            1 <= cfg.filters@.len() <= 8,
            forall|j: int| 0 <= j < i ==> filter_ok(#[trigger] cfg.filters@[j]),
        decreases cfg.filters@.len() - i,
    {
        if !cfg.filters[i].valid() {
            assert(!filter_ok(cfg.filters@[i as int]));
            return Err(CanError::InvalidFilter);
        }
        i += 1;
    }
    if cfg.rx_warn_limit < 1 || cfg.rx_warn_limit > 10 {
        return Err(CanError::InvalidRxWarnLimit);
    }
    if cfg.error_warn_limit > 15 {
        return Err(CanError::InvalidErrorWarnLimit);
    }
    Ok(())
}

/// The clock of the controller is switched on or off, with the interrupts masked.
pub open spec fn clock_steps(enable: bool) -> Seq<Step<CanError>> {
    seq![
        Step::<CanError>::Mask,
        Step::<CanError>::Do(
            if enable {
                change_word(0x4004_8004, 1, 0)
            } else {
                change_word(0x4004_8004, 0, 1)
            },
        ),
        Step::<CanError>::Unmask,
    ]
}

fn clock_cmd(enable: bool) -> (r: Vec<Step<CanError>>)
    ensures
        r@ == clock_steps(enable),
{
    let access: Access = if enable {
        change_word(FCG1, 1, 0)
    } else {
        change_word(FCG1, 0, 1)
    };
    vec![Step::Mask, Step::Do(access), Step::Unmask]
}

/// Filter `i` is set: its identifier, then its mask and its type.
pub open spec fn filter_step(filters: Seq<Filter>, j: int) -> Step<CanError> {
    let i = j / 4;
    if j % 4 == 0 {
        Step::Do(byte(0x4007_04b4, i as u8))
    } else if j % 4 == 1 {
        Step::Do(word(0x4007_04b8, filters[i].id))
    } else if j % 4 == 2 {
        Step::Do(byte(0x4007_04b4, (i as u8) | 0x20))
    } else {
        Step::Do(word(0x4007_04b8, filters[i].mask | filter_bits(filters[i].kind)))
    }
}

/// The first `count` filters are set.
pub open spec fn filter_steps(filters: Seq<Filter>, count: int) -> Seq<Step<CanError>> {
    Seq::new((4 * count) as nat, |j: int| filter_step(filters, j))
}

fn push_filters(out: &mut Vec<Step<CanError>>, filters: &Vec<Filter>)
    requires
        filters@.len() <= 8,
    ensures
        final(out)@ == old(out)@ + filter_steps(filters@, filters@.len() as int),
{
    let ghost before = out@;
    let mut i: usize = 0;
    assert(before + filter_steps(filters@, 0) =~= before);
    while i < filters.len()
        invariant
            i <= filters@.len(),
            filters@.len() <= 8,
            out@ == before + filter_steps(filters@, i as int),
        decreases filters@.len() - i,
    {
        let f: Filter = filters[i];
        let ghost done = filter_steps(filters@, i as int);
        out.push(Step::Do(byte(ACFCTRL, i as u8)));
        out.push(Step::Do(word(ACF, f.id)));
        out.push(Step::Do(byte(ACFCTRL, (i as u8) | 0x20)));
        out.push(Step::Do(word(ACF, f.mask | f.kind.bits())));
        proof {
            let next = filter_steps(filters@, i + 1);
            let four = seq![
                Step::<CanError>::Do(byte(0x4007_04b4, i as u8)),
                Step::<CanError>::Do(word(0x4007_04b8, f.id)),
                Step::<CanError>::Do(byte(0x4007_04b4, (i as u8) | 0x20)),
                Step::<CanError>::Do(word(0x4007_04b8, f.mask | filter_bits(f.kind))),
            ];
            assert forall|j: int| 0 <= j < next.len() implies next[j] == (done + four)[j] by {
                if j >= 4 * i {
                    assert(j / 4 == i && j % 4 == j - 4 * i);
                }
            }
            assert(next =~= done + four);
            assert(out@ =~= before + next);
        }
        i += 1;
    }
}

/// The loopback bits of a mode.
pub open spec fn loopback_bits(mode: WorkMode) -> u8 {
    match mode {
        WorkMode::InternalLoopback => 0x20,
        WorkMode::ExternalLoopback => 0x40,
        WorkMode::ExternalLoopbackSilent => 0x40,
        WorkMode::Normal => 0,
        WorkMode::Silent => 0,
    }
}

/// The controller only listens in this mode.
pub open spec fn listens_only(mode: WorkMode) -> bool {
    mode == WorkMode::Silent || mode == WorkMode::ExternalLoopbackSilent
}

/// The receive control register.
pub open spec fn receive_control(cfg: Config) -> u8 {
    (if cfg.rx_all_frames {
        0x08u8
    } else {
        0
    }) | (if cfg.rx_overflow == RxOverflowMode::DiscardNewest {
        0x40u8
    } else {
        0
    }) | (if cfg.self_ack {
        0x80u8
    } else {
        0
    })
}

/// The single-shot bits.
pub open spec fn single_shot_bits(cfg: Config) -> u8 {
    (if cfg.ptb_single_shot {
        0x10u8
    } else {
        0
    }) | (if cfg.stb_single_shot {
        0x08u8
    } else {
        0
    })
}

/// In reset: bit timing, order of the secondary buffer.
pub open spec fn reset_steps(cfg: Config, timing: u32) -> Seq<Step<CanError>> {
    seq![Step::<CanError>::Mask] + clock_steps(true) + seq![
        Step::<CanError>::Do(change_byte(0x4007_04a0, 0, 0x80)),
        Step::<CanError>::Do(word(0x4007_04a8, timing)),
        Step::<CanError>::Do(
            match cfg.stb_priority {
                StbPriority::Fifo => change_byte(0x4007_04a2, 0x20, 0),
                StbPriority::LowestIdFirst => change_byte(0x4007_04a2, 0, 0x20),
            },
        ),
    ]
}

/// Out of reset: mode, limits, reception, and which filters and events count.
pub open spec fn run_steps(cfg: Config) -> Seq<Step<CanError>> {
    seq![
        Step::<CanError>::Do(change_byte(0x4007_04a0, 0x80, 0)),
        Step::<CanError>::Do(change_byte(0x4007_04a0, 0x60, loopback_bits(cfg.mode))),
        Step::<CanError>::Do(
            if listens_only(cfg.mode) {
                change_byte(0x4007_04a1, 0, 0x40)
            } else {
                change_byte(0x4007_04a1, 0x40, 0)
            },
        ),
        Step::<CanError>::Do(change_byte(0x4007_04a0, 0x18, single_shot_bits(cfg))),
        Step::<CanError>::Do(byte(0x4007_04a7, (cfg.rx_warn_limit << 4u8) | cfg.error_warn_limit)),
        Step::<CanError>::Do(byte(0x4007_04a3, receive_control(cfg))),
        Step::<CanError>::Do(
            byte(0x4007_04b6, ((1u16 << (cfg.filters@.len() as u16)) - 1) as u8),
        ),
        Step::<CanError>::Do(byte(0x4007_04a5, 0xff)),
        Step::<CanError>::Do(byte(0x4007_04a6, errint_of(cfg.interrupts.value()) | 0x15)),
        Step::<CanError>::Do(byte(0x4007_04a4, rtie_of(cfg.interrupts.value()))),
        Step::<CanError>::Unmask,
    ]
}

/// The controller is set up, all of it with the interrupts masked.
pub open spec fn init_steps(cfg: Config, timing: u32) -> Seq<Step<CanError>> {
    reset_steps(cfg, timing) + filter_steps(cfg.filters@, cfg.filters@.len() as int) + run_steps(
        cfg,
    )
}

fn reset_program(cfg: &Config, timing: u32) -> (r: Vec<Step<CanError>>)
    ensures
        r@ == reset_steps(*cfg, timing),
{
    let order: Access = match cfg.stb_priority {
        StbPriority::Fifo => change_byte(TCTRL, 0x20, 0),
        StbPriority::LowestIdFirst => change_byte(TCTRL, 0, 0x20),
    };
    let mut out: Vec<Step<CanError>> = vec![Step::Mask];
    let mut clock: Vec<Step<CanError>> = clock_cmd(true);
    out.append(&mut clock);
    out.push(Step::Do(change_byte(CFG_STAT, 0, 0x80)));
    out.push(Step::Do(word(SBT, timing)));
    out.push(Step::Do(order));
    assert(out@ =~= reset_steps(*cfg, timing));
    out
}

fn push_run(out: &mut Vec<Step<CanError>>, cfg: &Config)
    requires
        1 <= cfg.filters@.len() <= 8,
    ensures
        final(out)@ == old(out)@ + run_steps(*cfg),
{
    let ghost before = out@;
    let loopback: u8 = match cfg.mode {
        WorkMode::InternalLoopback => 0x20,
        WorkMode::ExternalLoopback => 0x40,
        WorkMode::ExternalLoopbackSilent => 0x40,
        WorkMode::Normal => 0,
        WorkMode::Silent => 0,
    };
    let listen_only: bool = match cfg.mode {
        WorkMode::Silent => true,
        WorkMode::ExternalLoopbackSilent => true,
        _ => false,
    };
    let listen: Access = if listen_only {
        change_byte(TCMD, 0, 0x40)
    } else {
        change_byte(TCMD, 0x40, 0)
    };
    let ptb: u8 = if cfg.ptb_single_shot {
        0x10
    } else {
        0
    };
    let stb: u8 = if cfg.stb_single_shot {
        0x08
    } else {
        0
    };
    let all: u8 = if cfg.rx_all_frames {
        0x08
    } else {
        0
    };
    let overflow: u8 = match cfg.rx_overflow {
        RxOverflowMode::DiscardNewest => 0x40,
        RxOverflowMode::OverwriteOldest => 0,
    };
    let ack: u8 = if cfg.self_ack {
        0x80
    } else {
        0
    };
    let count: u16 = cfg.filters.len() as u16;
    assert(2 <= 1u16 << count <= 256) by (bit_vector)
        requires
            1 <= count <= 8,
    ;
    let enabled: u8 = ((1u16 << count) - 1) as u8;
    out.push(Step::Do(change_byte(CFG_STAT, 0x80, 0)));
    out.push(Step::Do(change_byte(CFG_STAT, 0x60, loopback)));
    out.push(Step::Do(listen));
    out.push(Step::Do(change_byte(CFG_STAT, 0x18, ptb | stb)));
    out.push(Step::Do(byte(LIMIT, (cfg.rx_warn_limit << 4u8) | cfg.error_warn_limit)));
    out.push(Step::Do(byte(RCTRL, all | overflow | ack)));
    out.push(Step::Do(byte(ACFEN, enabled)));
    out.push(Step::Do(byte(RTIF, 0xff)));
    out.push(Step::Do(byte(ERRINT, cfg.interrupts.errint() | 0x15)));
    out.push(Step::Do(byte(RTIE, cfg.interrupts.rtie())));
    out.push(Step::Unmask);
    assert(out@ =~= before + run_steps(*cfg));
}

/// The bit timing as its register holds it.
pub open spec fn timing_register(t: BitTiming) -> u32 {
    ((t.prescaler - 1) * 0x100_0000 + (t.sjw - 1) * 0x1_0000 + (t.time_seg2 - 1) * 0x100 + (
    t.time_seg1 - 2)) as u32
}

/// How the controller is set up. If the crystal has to be started first, and does
/// not, `stop` undoes it where it had been off, and the controller is not ready
/// ([`CanError::XtalNotReady`]); otherwise `program` is carried out. Which of the two
/// it is, [`InitPlan::after_start`] says.
pub struct InitPlan {
    pub timing: BitTiming,
    pub start: Option<Vec<Step<ClkError>>>,
    pub stop: Option<Vec<Step<ClkError>>>,
    pub program: Vec<Step<CanError>>,
}

impl InitPlan {
    /// What comes after the start of the crystal, given what came of it: the program, or,
    /// if the crystal did not start, how its start is undone and the error.
    pub fn after_start(self, outcome: Result<(), ClkError>) -> (r: Result<
        Vec<Step<CanError>>,
        (Option<Vec<Step<ClkError>>>, CanError),
    >)
        ensures
            match r {
                Ok(steps) => outcome is Ok && steps == self.program,
                Err((undo, error)) => {
                    &&& outcome is Err
                    &&& undo == self.stop
                    &&& error == CanError::XtalNotReady
                },
            },
    {
        match outcome {
            Ok(()) => Ok(self.program),
            Err(_) => Err((self.stop, CanError::XtalNotReady)),
        }
    }
}

/// The crystal as it is found.
#[derive(Clone, Copy, Debug, PartialEq, Eq, Structural)]
pub struct CrystalState {
    pub enabled: bool,
    pub stable: bool,
}

/// The handle of the controller.
pub struct Can {
    irq_line: Option<Line>,
}

impl Can {
    /// The line over which the controller interrupts.
    pub closed spec fn line(self) -> Option<Line> {
        self.irq_line
    }

    /// A handle without an interrupt.
    pub fn new() -> (r: Self)
        ensures
            r.line() is None,
    {
        Can { irq_line: None }
    }

    /// Set up the controller, which clears its buffers.
    pub fn init(&self, cfg: &Config, crystal: Crystal, found: CrystalState, exclk_hz: u32) -> (r: Result<
        InitPlan,
        CanError,
    >)
        ensures
            match r {
                Ok(plan) => {
                    &&& config_error(*cfg) is None
                    &&& can_timing::acceptable(
                        crystal.hz,
                        cfg.bitrate,
                        cfg.sjw as u32,
                        cfg.max_bitrate_error_ppm,
                        plan.timing,
                    )
                    &&& forall|t: BitTiming|
                        #[trigger] can_timing::acceptable(
                            crystal.hz,
                            cfg.bitrate,
                            cfg.sjw as u32,
                            cfg.max_bitrate_error_ppm,
                            t,
                        ) ==> can_timing::wins(
                            crystal.hz,
                            cfg.bitrate,
                            cfg.sample_point_permille as u32,
                            plan.timing,
                            t,
                        )
                    &&& can_timing::inputs_ok(
                        crystal.hz,
                        cfg.bitrate,
                        cfg.sample_point_permille as u32,
                        cfg.sjw as u32,
                    )
                    &&& exclk_hz * 2 >= crystal.hz * 3
                    &&& plan.start is Some <==> !found.stable
                    &&& plan.start matches Some(steps) ==> steps@ == clk::xtal_steps(crystal)
                    &&& plan.stop is Some <==> !found.stable && !found.enabled
                    &&& plan.stop matches Some(steps) ==> steps@ == clk::oscillator_steps(
                        0x4005_4032,
                        false,
                        0x08,
                        ClkError::XtalStableTimeout,
                    )
                    &&& plan.program@ == init_steps(
                        *cfg,
                        timing_register(plan.timing),
                    )
                },
                Err(CanError::BitTimingUnsupported) => config_error(*cfg) is None && (
                !can_timing::inputs_ok(
                    crystal.hz,
                    cfg.bitrate,
                    cfg.sample_point_permille as u32,
                    cfg.sjw as u32,
                ) || forall|t: BitTiming|
                    !#[trigger] can_timing::acceptable(
                        crystal.hz,
                        cfg.bitrate,
                        cfg.sjw as u32,
                        cfg.max_bitrate_error_ppm,
                        t,
                    )),
                Err(CanError::ClockConstraint) => {
                    &&& config_error(*cfg) is None
                    &&& can_timing::inputs_ok(
                        crystal.hz,
                        cfg.bitrate,
                        cfg.sample_point_permille as u32,
                        cfg.sjw as u32,
                    )
                    &&& exists|t: BitTiming| #[trigger]
                        can_timing::acceptable(
                            crystal.hz,
                            cfg.bitrate,
                            cfg.sjw as u32,
                            cfg.max_bitrate_error_ppm,
                            t,
                        )
                    &&& exclk_hz * 2 < crystal.hz * 3
                },
                Err(e) => config_error(*cfg) == Some(e),
            },
    {
        match validate_config(cfg) {
            Ok(_) => {},
            Err(e) => {
                return Err(e);
            },
        }
        let timing: BitTiming = match can_timing::calculate(
            crystal.hz,
            cfg.bitrate,
            cfg.sample_point_permille as u32,
            cfg.sjw as u32,
            cfg.max_bitrate_error_ppm,
        ) {
            Some(timing) => timing,
            None => {
                return Err(CanError::BitTimingUnsupported);
            },
        };
        if (exclk_hz as u64) * 2 < (crystal.hz as u64) * 3 {
            return Err(CanError::ClockConstraint);
        }
        let mut start: Option<Vec<Step<ClkError>>> = None;
        let mut stop: Option<Vec<Step<ClkError>>> = None;
        if !found.stable {
            start = Some(clk::xtal_init(crystal));
            if !found.enabled {
                stop = Some(clk::xtal_cmd(false));
            }
        }
        let mut program: Vec<Step<CanError>> = reset_program(cfg, timing.register_value());
        push_filters(&mut program, &cfg.filters);
        push_run(&mut program, cfg);
        Ok(InitPlan { timing, start, stop, program })
    }
}

// ---------------------------------------------------------------------------
// Operation
// ---------------------------------------------------------------------------

/// Flags are cleared, where there are any: those of events and those of errors, of
/// which the enable bits are kept.
pub open spec fn clear_steps(flags: u32) -> Seq<Step<CanError>> {
    let events = ((flags >> 16u32) & 0xff) as u8;
    let errors = ((flags >> 24u32) & 0x15) as u8;
    seq![Step::<CanError>::Mask] + (if events != 0 {
        seq![Step::<CanError>::Do(byte(0x4007_04a5, events))]
    } else {
        Seq::empty()
    }) + (if errors != 0 {
        seq![Step::<CanError>::Do(change_byte(0x4007_04a6, 0xd5, errors))]
    } else {
        Seq::empty()
    }) + seq![Step::<CanError>::Unmask]
}

/// Why nothing can be sent: the controller is in reset, or only listens and does
/// not receive what it sends over the bus.
pub open spec fn transmit_error(cfg_stat: u8, tcmd: u8) -> Option<CanError> {
    if cfg_stat & 0x80 != 0 {
        Some(CanError::InLocalReset)
    } else if tcmd & 0x40 != 0 && cfg_stat & 0x40 == 0 {
        Some(CanError::SilentMode)
    } else {
        None
    }
}

/// The primary buffer is filled and sent.
pub open spec fn primary_steps(frame: TxFrame) -> Seq<Step<CanError>> {
    seq![Step::<CanError>::Mask] + clear_steps(0x0008_0000) + seq![
        Step::<CanError>::Do(change_byte(0x4007_04a1, 0x80, 0)),
    ] + frame_steps(frame) + seq![
        Step::<CanError>::Do(change_byte(0x4007_04a1, 0, 0x10)),
        Step::<CanError>::Unmask,
    ]
}

/// A slot of the secondary buffer is filled.
pub open spec fn secondary_steps(frame: TxFrame) -> Seq<Step<CanError>> {
    seq![
        Step::<CanError>::Mask,
        Step::<CanError>::Do(change_byte(0x4007_04a1, 0, 0x80)),
    ] + frame_steps(frame) + seq![
        Step::<CanError>::Do(change_byte(0x4007_04a2, 0, 0x40)),
        Step::<CanError>::Unmask,
    ]
}

/// The bit that starts the secondary buffer.
pub open spec fn start_bit(request: StbTransmit) -> u8 {
    match request {
        StbTransmit::One => 0x04,
        StbTransmit::All => 0x02,
    }
}

/// One access with the interrupts masked.
pub open spec fn masked(access: Access) -> Seq<Step<CanError>> {
    seq![Step::<CanError>::Mask, Step::<CanError>::Do(access), Step::<CanError>::Unmask]
}

fn with_mask(access: Access) -> (r: Vec<Step<CanError>>)
    ensures
        r@ == masked(access),
{
    vec![Step::Mask, Step::Do(access), Step::Unmask]
}

impl Can {
    /// The controller is stopped, its events cleared and its clock switched off. A
    /// pending interrupt is withdrawn.
    pub open spec fn deinit_steps(self) -> Seq<Step<CanError>> {
        seq![Step::<CanError>::Mask] + clock_steps(true) + seq![
            Step::<CanError>::Do(change_byte(0x4007_04a0, 0, 0x80)),
            Step::<CanError>::Do(byte(0x4007_04a4, 0)),
            Step::<CanError>::Do(byte(0x4007_04a6, 0x15)),
            Step::<CanError>::Do(byte(0x4007_04a5, 0xff)),
            Step::<CanError>::Do(byte(0x4007_04b6, 0)),
        ] + (match self.line() {
            Some(line) => seq![
                Step::<CanError>::Do(intc::line_access(0xe000_e280, line.number())),
            ],
            None => Seq::empty(),
        }) + clock_steps(false) + seq![Step::<CanError>::Unmask]
    }

    /// Stop the controller, clear its events and switch its clock off. A pending
    /// interrupt is withdrawn; its route stays.
    pub fn deinit(&self) -> (r: Vec<Step<CanError>>)
        ensures
            r@ == self.deinit_steps(),
    {
        let mut out: Vec<Step<CanError>> = vec![Step::Mask];
        let mut on: Vec<Step<CanError>> = clock_cmd(true);
        let mut off: Vec<Step<CanError>> = clock_cmd(false);
        out.append(&mut on);
        out.push(Step::Do(change_byte(CFG_STAT, 0, 0x80)));
        out.push(Step::Do(byte(RTIE, 0)));
        out.push(Step::Do(byte(ERRINT, 0x15)));
        out.push(Step::Do(byte(RTIF, 0xff)));
        out.push(Step::Do(byte(ACFEN, 0)));
        if let Some(line) = self.irq_line {
            out.push(Step::Do(intc::clear_pend(line)));
        }
        out.append(&mut off);
        out.push(Step::Unmask);
        assert(out@ =~= self.deinit_steps());
        out
    }

    /// Go into reset.
    pub fn enter_local_reset(&self) -> (r: Vec<Step<CanError>>)
        ensures
            r@ == masked(change_byte(0x4007_04a0, 0, 0x80)),
    {
        with_mask(change_byte(CFG_STAT, 0, 0x80))
    }

    /// Come out of reset.
    pub fn exit_local_reset(&self) -> (r: Vec<Step<CanError>>)
        ensures
            r@ == masked(change_byte(0x4007_04a0, 0x80, 0)),
    {
        with_mask(change_byte(CFG_STAT, 0x80, 0))
    }

    /// Whether the controller is in reset, given its status register.
    pub fn in_local_reset(&self, cfg_stat: u8) -> (r: bool)
        ensures
            r == (cfg_stat & 0x80 != 0),
    {
        cfg_stat & 0x80 != 0
    }

    fn ensure_can_transmit(&self, cfg_stat: u8, tcmd: u8) -> (r: Result<(), CanError>)
        ensures
            match r {
                Ok(_) => transmit_error(cfg_stat, tcmd) is None,
                Err(e) => transmit_error(cfg_stat, tcmd) == Some(e),
            },
    {
        if self.in_local_reset(cfg_stat) {
            Err(CanError::InLocalReset)
        } else if tcmd & 0x40 != 0 && cfg_stat & 0x40 == 0 {
            Err(CanError::SilentMode)
        } else {
            Ok(())
        }
    }

    /// Send a frame through the primary buffer, given the status and the command
    /// register.
    pub fn try_transmit_ptb(&self, frame: &TxFrame, cfg_stat: u8, tcmd: u8) -> (r: Result<
        Vec<Step<CanError>>,
        CanError,
    >)
        ensures
            match r {
                Ok(steps) => {
                    &&& frame_error(*frame) is None
                    &&& transmit_error(cfg_stat, tcmd) is None
                    &&& tcmd & 0x10 == 0
                    &&& steps@ == primary_steps(*frame)
                },
                Err(e) => {
                    ||| frame_error(*frame) == Some(e)
                    ||| frame_error(*frame) is None && transmit_error(cfg_stat, tcmd) == Some(e)
                    ||| frame_error(*frame) is None && transmit_error(cfg_stat, tcmd) is None
                        && tcmd & 0x10 != 0 && e == CanError::TxBusy
                },
            },
    {
        match frame.validate() {
            Ok(_) => {},
            Err(e) => {
                return Err(e);
            },
        }
        match self.ensure_can_transmit(cfg_stat, tcmd) {
            Ok(_) => {},
            Err(e) => {
                return Err(e);
            },
        }
        if tcmd & 0x10 != 0 {
            return Err(CanError::TxBusy);
        }
        let mut out: Vec<Step<CanError>> = vec![Step::Mask];
        let mut clear: Vec<Step<CanError>> = self.clear_status(Status(STATUS_PTB_TX));
        let mut fill: Vec<Step<CanError>> = write_tx_frame(frame);
        out.append(&mut clear);
        out.push(Step::Do(change_byte(TCMD, 0x80, 0)));
        out.append(&mut fill);
        out.push(Step::Do(change_byte(TCMD, 0, 0x10)));
        out.push(Step::Unmask);
        assert(out@ =~= primary_steps(*frame));
        Ok(out)
    }

    /// Put a frame into the secondary buffer, given the status, command, interrupt
    /// enable and transmit control registers.
    pub fn enqueue_stb(&self, frame: &TxFrame, cfg_stat: u8, tcmd: u8, rtie: u8, tctrl: u8) -> (r:
        Result<Vec<Step<CanError>>, CanError>)
        ensures
            match r {
                Ok(steps) => {
                    &&& frame_error(*frame) is None
                    &&& transmit_error(cfg_stat, tcmd) is None
                    &&& tcmd & 0x06 == 0
                    &&& rtie & 0x01 == 0
                    &&& tctrl & 0x03 != 0x03
                    &&& steps@ == secondary_steps(*frame)
                },
                Err(e) => {
                    ||| frame_error(*frame) == Some(e)
                    ||| frame_error(*frame) is None && transmit_error(cfg_stat, tcmd) == Some(e)
                    ||| frame_error(*frame) is None && transmit_error(cfg_stat, tcmd) is None && (if tcmd
                        & 0x06 != 0 {
                        e == CanError::TxBusy
                    } else {
                        e == CanError::TxBufferFull && (rtie & 0x01 != 0 || tctrl & 0x03 == 0x03)
                    })
                },
            },
    {
        match frame.validate() {
            Ok(_) => {},
            Err(e) => {
                return Err(e);
            },
        }
        match self.ensure_can_transmit(cfg_stat, tcmd) {
            Ok(_) => {},
            Err(e) => {
                return Err(e);
            },
        }
        if tcmd & 0x06 != 0 {
            return Err(CanError::TxBusy);
        }
        if rtie & 0x01 != 0 || tctrl & 0x03 == 0x03 {
            return Err(CanError::TxBufferFull);
        }
        let mut out: Vec<Step<CanError>> =
            vec![Step::Mask, Step::Do(change_byte(TCMD, 0, 0x80))];
        let mut fill: Vec<Step<CanError>> = write_tx_frame(frame);
        out.append(&mut fill);
        out.push(Step::Do(change_byte(TCTRL, 0, 0x40)));
        out.push(Step::Unmask);
        assert(out@ =~= secondary_steps(*frame));
        Ok(out)
    }

    /// Send the secondary buffer, given the status and the command register.
    pub fn start_stb(&self, request: StbTransmit, cfg_stat: u8, tcmd: u8) -> (r: Result<
        Vec<Step<CanError>>,
        CanError,
    >)
        ensures
            match r {
                Ok(steps) => {
                    &&& transmit_error(cfg_stat, tcmd) is None
                    &&& tcmd & 0x06 == 0
                    &&& steps@ == seq![Step::<CanError>::Mask] + clear_steps(0x0004_0000) + seq![
                        Step::<CanError>::Do(change_byte(0x4007_04a1, 0, start_bit(request))),
                        Step::<CanError>::Unmask,
                    ]
                },
                Err(e) => {
                    ||| transmit_error(cfg_stat, tcmd) == Some(e)
                    ||| transmit_error(cfg_stat, tcmd) is None && tcmd & 0x06 != 0 && e
                        == CanError::TxBusy
                },
            },
    {
        match self.ensure_can_transmit(cfg_stat, tcmd) {
            Ok(_) => {},
            Err(e) => {
                return Err(e);
            },
        }
        if tcmd & 0x06 != 0 {
            return Err(CanError::TxBusy);
        }
        let bit: u8 = match request {
            StbTransmit::One => 0x04,
            StbTransmit::All => 0x02,
        };
        let mut out: Vec<Step<CanError>> = vec![Step::Mask];
        let mut clear: Vec<Step<CanError>> = self.clear_status(Status(STATUS_STB_TX));
        out.append(&mut clear);
        out.push(Step::Do(change_byte(TCMD, 0, bit)));
        out.push(Step::Unmask);
        Ok(out)
    }

    /// Give up what a buffer is sending.
    pub fn abort(&self, buffer: TxBuffer) -> (r: Vec<Step<CanError>>)
        ensures
            r@ == masked(
                change_byte(
                    0x4007_04a1,
                    0,
                    match buffer {
                        TxBuffer::Primary => 0x08,
                        TxBuffer::Secondary => 0x01,
                    },
                ),
            ),
    {
        let bit: u8 = match buffer {
            TxBuffer::Primary => 0x08,
            TxBuffer::Secondary => 0x01,
        };
        with_mask(change_byte(TCMD, 0, bit))
    }

    /// Whether a buffer is being sent, given the command register.
    pub fn tx_pending(&self, buffer: TxBuffer, tcmd: u8) -> (r: bool)
        ensures
            r == (match buffer {
                TxBuffer::Primary => tcmd & 0x10 != 0,
                TxBuffer::Secondary => tcmd & 0x06 != 0,
            }),
    {
        match buffer {
            TxBuffer::Primary => tcmd & 0x10 != 0,
            TxBuffer::Secondary => tcmd & 0x06 != 0,
        }
    }

    /// How full the secondary buffer is, given the transmit control register.
    pub fn tx_buffer_status(&self, tctrl: u8) -> (r: BufferStatus)
        ensures
            r == buffer_status(tctrl),
    {
        BufferStatus::from_raw(tctrl)
    }

    /// Take the oldest frame from the receive queue, given the receive control
    /// register and the four words of the receive buffer; its slot is released.
    pub fn try_receive(&self, rctrl: u8, raw: u32, control: u32, low: u32, high: u32) -> (r: Option<
        (RxFrame, Vec<Step<CanError>>),
    >)
        ensures
            match r {
                Some((frame, steps)) => {
                    &&& rctrl & 0x03 != 0
                    &&& frame.id == received_id(raw, control)
                    &&& frame.rtr == (control & 0x40 != 0)
                    &&& frame.dlc == data_len(control)
                    &&& forall|i: int|
                        0 <= i < 8 ==> #[trigger] frame.data@[i] == received_byte(
                            control,
                            low,
                            high,
                            i,
                        )
                    &&& frame.self_tx == (control & 0x1000 != 0)
                    &&& frame.error == error_kind(((control >> 13u32) & 7) as u8)
                    &&& frame.cycle_time == control / 0x1_0000
                    &&& steps@ == masked(change_byte(0x4007_04a3, 0, 0x10))
                },
                None => rctrl & 0x03 == 0,
            },
    {
        if rctrl & 0x03 == 0 {
            return None;
        }
        Some((decode_frame(raw, control, low, high), with_mask(change_byte(RCTRL, 0, 0x10))))
    }

    /// How full the receive queue is, given the receive control register.
    pub fn rx_buffer_status(&self, rctrl: u8) -> (r: BufferStatus)
        ensures
            r == buffer_status(rctrl),
    {
        BufferStatus::from_raw(rctrl)
    }

    /// What the controller reports, given its registers.
    pub fn status(&self, cfg_stat: u8, rctrl: u8, rtie: u8, rtif: u8, errint: u8) -> (r: Status)
        ensures
            r.value() == (cfg_stat as u32 & 0x07) | (rctrl as u32 & 0x20) | (((rtie as u32)
                << 8u32) & 0x100) | ((rtif as u32) << 16u32) | (((errint & 0xd5) as u32) << 24u32),
    {
        let state: u32 = cfg_stat as u32 & 0x07;
        let overflow: u32 = rctrl as u32 & 0x20;
        let full: u32 = ((rtie as u32) << 8u32) & STATUS_TX_BUFFER_FULL;
        let events: u32 = (rtif as u32) << 16u32;
        let errors: u32 = ((errint & 0xd5) as u32) << 24u32;
        Status(state | overflow | full | events | errors)
    }

    /// Clear flags of events and errors.
    pub fn clear_status(&self, flags: Status) -> (r: Vec<Step<CanError>>)
        ensures
            r@ == clear_steps(flags.value()),
    {
        let events: u8 = ((flags.0 >> 16u32) & 0xff) as u8;
        let errors: u8 = ((flags.0 >> 24u32) & 0x15) as u8;
        let mut out: Vec<Step<CanError>> = vec![Step::Mask];
        if events != 0 {
            out.push(Step::Do(byte(RTIF, events)));
        }
        if errors != 0 {
            out.push(Step::Do(change_byte(ERRINT, 0xd5, errors)));
        }
        out.push(Step::Unmask);
        assert(out@ =~= clear_steps(flags.value()));
        out
    }

    /// What is known of errors, given the capture register and the counters.
    pub fn error_info(&self, ealcap: u8, recnt: u8, tecnt: u8) -> (r: ErrorInfo)
        ensures
            r == (ErrorInfo {
                arbitration_lost_position: ealcap & 0x1f,
                kind: error_kind(ealcap >> 5u8),
                rx_count: recnt,
                tx_count: tecnt,
            }),
    {
        ErrorInfo {
            arbitration_lost_position: ealcap & 0x1f,
            kind: ErrorKind::from_raw(ealcap >> 5u8),
            rx_count: recnt,
            tx_count: tecnt,
        }
    }

    /// Report more events.
    pub fn enable_interrupts(&self, interrupts: Interrupts) -> (r: Vec<Step<CanError>>)
        ensures
            r@ == seq![
                Step::<CanError>::Mask,
                Step::<CanError>::Do(
                    change_byte(0x4007_04a4, 0, rtie_of(interrupts.value())),
                ),
                Step::<CanError>::Do(
                    change_byte(0x4007_04a6, 0xd5, errint_of(interrupts.value())),
                ),
                Step::<CanError>::Unmask,
            ],
    {
        vec![
            Step::Mask,
            Step::Do(change_byte(RTIE, 0, interrupts.rtie())),
            Step::Do(change_byte(ERRINT, 0xd5, interrupts.errint())),
            Step::Unmask,
        ]
    }

    /// Report fewer events.
    pub fn disable_interrupts(&self, interrupts: Interrupts) -> (r: Vec<Step<CanError>>)
        ensures
            r@ == seq![
                Step::<CanError>::Mask,
                Step::<CanError>::Do(
                    change_byte(0x4007_04a4, rtie_of(interrupts.value()), 0),
                ),
                Step::<CanError>::Do(
                    change_byte(0x4007_04a6, 0xd5 | errint_of(interrupts.value()), 0),
                ),
                Step::<CanError>::Unmask,
            ],
    {
        vec![
            Step::Mask,
            Step::Do(change_byte(RTIE, interrupts.rtie(), 0)),
            Step::Do(change_byte(ERRINT, 0xd5 | interrupts.errint(), 0)),
            Step::Unmask,
        ]
    }

    /// Let the controller interrupt over a line whose selection register holds
    /// `selected`; `source` is its event. It keeps to the line that it has.
    pub fn register_irq(&mut self, source: u32, line: Line, priority: u8, selected: u32) -> (r: Result<
        Registration,
        IrqError,
    >)
        requires
            !(old(self).line() matches Some(l) && l.number() != line.number()) && line.number()
                < 128 && (selected == 0x1ff || selected == source) ==> priority <= 15,
        ensures
            ({
                let other = old(self).line() matches Some(l) && l.number() != line.number();
                match r {
                    Ok(reg) => {
                        &&& !other
                        &&& line.number() < 128
                        &&& selected == 0x1ff || selected == source
                        &&& reg.route == intc::select_access(line.number(), source)
                        &&& reg.slot == line.number()
                        &&& reg.arm@ == seq![
                            intc::line_access(0xe000_e280, line.number()),
                            intc::priority_access(line.number(), priority),
                            intc::line_access(0xe000_e100, line.number()),
                        ]
                        &&& final(self).line() == Some(line)
                    },
                    Err(e) => {
                        &&& *final(self) == *old(self)
                        &&& if other {
                            e == IrqError::LineTaken
                        } else if line.number() >= 128 {
                            e == IrqError::LineUnsupported
                        } else {
                            e == IrqError::LineTaken && selected != 0x1ff && selected != source
                        }
                    },
                }
            }),
    {
        if let Some(registered) = self.irq_line {
            if registered.n() != line.n() {
                return Err(IrqError::LineTaken);
            }
        }
        match intc::register(source, line, priority, selected) {
            Ok(registration) => {
                self.irq_line = Some(line);
                Ok(registration)
            },
            Err(e) => Err(e),
        }
    }

    /// Do not interrupt over a line any longer; nothing if it is another one.
    pub fn unregister_irq(&mut self, line: Line) -> (r: Option<Removal>)
        ensures
            ({
                let mine = old(self).line() matches Some(l) && l.number() == line.number();
                &&& final(self).line() == (if mine {
                    None
                } else {
                    old(self).line()
                })
                &&& match r {
                    Some(removal) => {
                        &&& mine
                        &&& line.number() < 128
                        &&& removal.slot == line.number()
                        &&& removal.silence@ == seq![
                            intc::line_access(0xe000_e180, line.number()),
                            intc::select_access(line.number(), 0x1ff),
                        ]
                    },
                    None => !mine || line.number() >= 128,
                }
            }),
    {
        if let Some(registered) = self.irq_line {
            if registered.n() == line.n() {
                self.irq_line = None;
                return intc::unregister(line);
            }
        }
        None
    }

    /// Whether the controller has an interrupt.
    pub fn irq_registered(&self) -> (r: bool)
        ensures
            r == self.line() is Some,
    {
        self.irq_line.is_some()
    }
}

/// The bytes of a number made of four bytes are those bytes.
proof fn lemma_bytes(data: Seq<u8>, at: int)
    requires
        0 <= at,
        at + 4 <= data.len(),
    ensures
        forall|i: int|
            0 <= i < 4 ==> #[trigger] byte_of(le_word(data, at) as u32, i) == data[at + i],
{
    let a = data[at] as int;
    let b = data[at + 1] as int;
    let c = data[at + 2] as int;
    let d = data[at + 3] as int;
    let w = a + 0x100 * b + 0x1_0000 * c + 0x100_0000 * d;
    assert(w / 0x100_0000 == d);
    assert(w / 0x1_0000 == c + 0x100 * d);
    assert(w / 0x100 == b + 0x100 * c + 0x1_0000 * d);
    assert(w % 0x100 == a);
    assert(w / 0x100 % 0x100 == b);
    assert(w / 0x1_0000 % 0x100 == c);
}

/// A frame that is received as it was sent has the identifier, the kind, the length
/// and the data with which it was sent.
pub proof fn law_frames_read_back(frame: TxFrame)
    requires
        frame_error(frame) is None,
    ensures
        ({
            let raw = id_number(frame.id);
            let control = control_word(frame);
            let low = le_word(frame.data@, 0) as u32;
            let high = le_word(frame.data@, 4) as u32;
            &&& received_id(raw, control) == frame.id
            &&& (control & 0x40 != 0) == frame.rtr
            &&& (control & 0x80 != 0) == frame.id is Extended
            &&& control % 0x10 == frame.dlc
            &&& data_len(control) == frame.dlc
            &&& control & 0x1000 == 0
            &&& forall|i: int|
                0 <= i < frame.dlc ==> #[trigger] received_byte(control, low, high, i)
                    == frame.data@[i]
        }),
{
    let dlc = frame.dlc as u32;
    let rtr = frame.rtr;
    let ext = frame.id is Extended;
    let raw = id_number(frame.id);
    assert({
        let c = dlc | (if rtr {
            0x40u32
        } else {
            0
        }) | (if ext {
            0x80u32
        } else {
            0
        });
        (c & 0x40 != 0) == rtr && (c & 0x80 != 0) == ext && c % 0x10 == dlc && c & 0x1000 == 0
    }) by (bit_vector)
        requires
            dlc <= 8u32,
    ;
    assert((raw <= 0x7ff ==> raw & 0x7ff == raw) && (raw <= 0x1fff_ffff ==> raw & 0x1fff_ffff
        == raw)) by (bit_vector);
    let control = control_word(frame);
    let low = le_word(frame.data@, 0) as u32;
    let high = le_word(frame.data@, 4) as u32;
    assert(data_len(control) == frame.dlc);
    assert forall|i: int| 0 <= i < frame.dlc implies #[trigger] received_byte(control, low, high, i)
        == frame.data@[i] by {
        lemma_bytes(frame.data@, 0);
        lemma_bytes(frame.data@, 4);
        if i >= 4 {
            assert(byte_of(high, i - 4) == frame.data@[4 + (i - 4)]);
        } else {
            assert(byte_of(low, i) == frame.data@[0 + i]);
        }
    }
}

// ---------------------------------------------------------------------------
// What the registers come to hold
// ---------------------------------------------------------------------------

/// The steps that set filters change nothing but the filters and their selection.
proof fn lemma_filters_spare_others(
    filters: Seq<Filter>,
    count: int,
    n: int,
    place: crate::mmio::Place,
    before: u32,
)
    requires
        0 <= n <= 4 * count,
        place != crate::mmio::byte_at(0x4007_04b4),
        place != crate::mmio::word_at(0x4007_04b8),
    ensures
        crate::mmio::left_after(filter_steps(filters, count), n, place, before) == before,
    decreases n,
{
    if n > 0 {
        lemma_filters_spare_others(filters, count, n - 1, place, before);
    }
}

/// A register that is no filter is left by the set-up as the steps before and after the
/// filters leave it.
proof fn lemma_set_up(cfg: Config, timing: u32, place: crate::mmio::Place, before: u32)
    requires
        place != crate::mmio::byte_at(0x4007_04b4),
        place != crate::mmio::word_at(0x4007_04b8),
    ensures
        crate::mmio::left_in(init_steps(cfg, timing), place, before) == crate::mmio::left_in(
            run_steps(cfg),
            place,
            crate::mmio::left_in(reset_steps(cfg, timing), place, before),
        ),
{
    let count = cfg.filters@.len() as int;
    let filters = filter_steps(cfg.filters@, count);
    let reset = reset_steps(cfg, timing);
    crate::mmio::lemma_left_add(reset + filters, run_steps(cfg), place, before);
    crate::mmio::lemma_left_add(reset, filters, place, before);
    lemma_filters_spare_others(
        cfg.filters@,
        count,
        4 * count,
        place,
        crate::mmio::left_in(reset, place, before),
    );
}

proof fn lemma_set_up_bits(
    b: u32,
    inner: bool,
    outer: bool,
    first: bool,
    second: bool,
    listen: bool,
    lowest: bool,
    all: bool,
    newest: bool,
    ack: bool,
    rx: u8,
    err: u8,
    events: u16,
)
    requires
        b < 256,
        1 <= rx <= 10,
        err <= 15,
    ensures
        ({
            let l: u8 = if outer {
                0x40
            } else if inner {
                0x20
            } else {
                0
            };
            let s: u8 = (if first {
                0x10u8
            } else {
                0
            }) | (if second {
                0x08u8
            } else {
                0
            });
            let v0 = (b & ((!0u8) as u32)) | 0x80u32;
            let v1 = (v0 & ((!0x80u8) as u32)) | 0u32;
            let v2 = (v1 & ((!0x60u8) as u32)) | l as u32;
            let v3 = (v2 & ((!0x18u8) as u32)) | s as u32;
            &&& v3 & 0x80 == 0
            &&& (v3 & 0x40 != 0) == outer
            &&& (v3 & 0x20 != 0) == (inner && !outer)
            &&& (v3 & 0x10 != 0) == first
            &&& (v3 & 0x08 != 0) == second
            &&& v3 & 0x07 == b & 0x07
        }),
        ({
            let on = (b & ((!0u8) as u32)) | 0x40u32;
            let off = (b & ((!0x40u8) as u32)) | 0u32;
            &&& on & 0x40 != 0 && on & 0xbf == b & 0xbf
            &&& off & 0x40 == 0 && off & 0xbf == b & 0xbf
        }),
        ({
            let on = (b & ((!0u8) as u32)) | 0x20u32;
            let off = (b & ((!0x20u8) as u32)) | 0u32;
            &&& on & 0x20 != 0 && on & 0xdf == b & 0xdf
            &&& off & 0x20 == 0 && off & 0xdf == b & 0xdf
        }),
        ({
            let c = ((if all {
                0x08u8
            } else {
                0
            }) | (if newest {
                0x40u8
            } else {
                0
            }) | (if ack {
                0x80u8
            } else {
                0
            })) as u32;
            &&& (c & 0x08 != 0) == all
            &&& (c & 0x40 != 0) == newest
            &&& (c & 0x80 != 0) == ack
            &&& c & 0x37 == 0
        }),
        (rx << 4u8) | err == 16 * rx + err,
        ({
            let e = (((events >> 8u16) & 0x2a) as u8 | 0x15) as u32;
            &&& e & 0x15 == 0x15
            &&& e & 0x2a == (events as u32 >> 8u32) & 0x2a
            &&& e & 0xc0 == 0
            &&& ((events & 0xff) as u8) as u32 == events as u32 & 0xff
            &&& (((events >> 8u16) & 0x2a) as u8) & 0x2a == ((events >> 8u16) & 0x2a) as u8
            &&& (((events >> 8u16) & 0x2a) as u8) as u32 == (events as u32 >> 8u32) & 0x2a
        }),
{
    assert({
        let l: u8 = if outer {
            0x40
        } else if inner {
            0x20
        } else {
            0
        };
        let s: u8 = (if first {
            0x10u8
        } else {
            0
        }) | (if second {
            0x08u8
        } else {
            0
        });
        let v0 = (b & ((!0u8) as u32)) | 0x80u32;
        let v1 = (v0 & ((!0x80u8) as u32)) | 0u32;
        let v2 = (v1 & ((!0x60u8) as u32)) | l as u32;
        let v3 = (v2 & ((!0x18u8) as u32)) | s as u32;
        let on = (b & ((!0u8) as u32)) | 0x40u32;
        let off = (b & ((!0x40u8) as u32)) | 0u32;
        let up = (b & ((!0u8) as u32)) | 0x20u32;
        let down = (b & ((!0x20u8) as u32)) | 0u32;
        let c = ((if all {
            0x08u8
        } else {
            0
        }) | (if newest {
            0x40u8
        } else {
            0
        }) | (if ack {
            0x80u8
        } else {
            0
        })) as u32;
        let e = (((events >> 8u16) & 0x2a) as u8 | 0x15) as u32;
        &&& v3 & 0x80 == 0 && (v3 & 0x40 != 0) == outer && (v3 & 0x20 != 0) == (inner && !outer) && (
        v3 & 0x10 != 0) == first && (v3 & 0x08 != 0) == second && v3 & 0x07 == b & 0x07
        &&& on & 0x40 != 0 && on & 0xbf == b & 0xbf && off & 0x40 == 0 && off & 0xbf == b & 0xbf
        &&& up & 0x20 != 0 && up & 0xdf == b & 0xdf && down & 0x20 == 0 && down & 0xdf == b & 0xdf
        &&& (c & 0x08 != 0) == all && (c & 0x40 != 0) == newest && (c & 0x80 != 0) == ack && c & 0x37
            == 0
        &&& (rx << 4u8) | err == 16 * rx + err
        &&& e & 0x15 == 0x15 && e & 0x2a == (events as u32 >> 8u32) & 0x2a && e & 0xc0 == 0 && ((
        events & 0xff) as u8) as u32 == events as u32 & 0xff
        &&& (((events >> 8u16) & 0x2a) as u8) & 0x2a == ((events >> 8u16) & 0x2a) as u8 && (((events
            >> 8u16) & 0x2a) as u8) as u32 == (events as u32 >> 8u32) & 0x2a
    }) by (bit_vector)
        requires
            b < 256u32,
            1u8 <= rx <= 10u8,
            err <= 15u8,
    ;
}

/// When the set-up has run, whatever the registers held before, the controller is out of
/// reset, and works in the mode that was asked for: bit 5 of its first register is set
/// for internal loopback only, bit 6 for both kinds of external loopback, and bit 6 of
/// the second register in the two modes that only listen. Bits 4 and 3 are the single
/// shots, bit 5 of the third register is the order of the secondary buffer.
pub proof fn law_mode_is_set_up(
    can: Can,
    cfg: Config,
    crystal: Crystal,
    found: CrystalState,
    exclk_hz: u32,
    plan: InitPlan,
    b: u32,
)
    requires
        call_ensures(Can::init, (&can, &cfg, crystal, found, exclk_hz), Ok(plan)),
        b < 256,
    ensures
        ({
            let v = crate::mmio::left_in(plan.program@, crate::mmio::byte_at(0x4007_04a0), b);
            &&& v & 0x80 == 0
            &&& v & 0x20 != 0 <==> cfg.mode == WorkMode::InternalLoopback
            &&& v & 0x40 != 0 <==> cfg.mode == WorkMode::ExternalLoopback || cfg.mode
                == WorkMode::ExternalLoopbackSilent
            &&& v & 0x10 != 0 <==> cfg.ptb_single_shot
            &&& v & 0x08 != 0 <==> cfg.stb_single_shot
            &&& v & 0x07 == b & 0x07
        }),
        ({
            let v = crate::mmio::left_in(plan.program@, crate::mmio::byte_at(0x4007_04a1), b);
            &&& v & 0x40 != 0 <==> cfg.mode == WorkMode::Silent || cfg.mode
                == WorkMode::ExternalLoopbackSilent
            &&& v & 0xbf == b & 0xbf
        }),
        ({
            let v = crate::mmio::left_in(plan.program@, crate::mmio::byte_at(0x4007_04a2), b);
            &&& v & 0x20 != 0 <==> cfg.stb_priority == StbPriority::LowestIdFirst
            &&& v & 0xdf == b & 0xdf
        }),
{
    let timing = timing_register(plan.timing);
    lemma_set_up(cfg, timing, crate::mmio::byte_at(0x4007_04a0), b);
    lemma_set_up(cfg, timing, crate::mmio::byte_at(0x4007_04a1), b);
    lemma_set_up(cfg, timing, crate::mmio::byte_at(0x4007_04a2), b);
    reveal_with_fuel(crate::mmio::left_after, 12);
    lemma_set_up_bits(
        b,
        cfg.mode == WorkMode::InternalLoopback,
        cfg.mode == WorkMode::ExternalLoopback || cfg.mode == WorkMode::ExternalLoopbackSilent,
        cfg.ptb_single_shot,
        cfg.stb_single_shot,
        listens_only(cfg.mode),
        cfg.stb_priority == StbPriority::LowestIdFirst,
        cfg.rx_all_frames,
        cfg.rx_overflow == RxOverflowMode::DiscardNewest,
        cfg.self_ack,
        cfg.rx_warn_limit,
        cfg.error_warn_limit,
        cfg.interrupts.value(),
    );
}

/// What the set-up leaves in the registers that it writes once.
proof fn lemma_set_up_values(cfg: Config, timing: u32, before: u32)
    ensures
        crate::mmio::left_in(init_steps(cfg, timing), crate::mmio::byte_at(0x4007_04a3), before) == (receive_control(cfg)),
        crate::mmio::left_in(init_steps(cfg, timing), crate::mmio::byte_at(0x4007_04a4), before) == (rtie_of(cfg.interrupts.value())),
        crate::mmio::left_in(init_steps(cfg, timing), crate::mmio::byte_at(0x4007_04a5), before) == (0xff),
        crate::mmio::left_in(init_steps(cfg, timing), crate::mmio::byte_at(0x4007_04a6), before) == (errint_of(cfg.interrupts.value()) | 0x15),
        crate::mmio::left_in(init_steps(cfg, timing), crate::mmio::byte_at(0x4007_04a7), before) == ((cfg.rx_warn_limit << 4u8) | cfg.error_warn_limit),
        crate::mmio::left_in(init_steps(cfg, timing), crate::mmio::byte_at(0x4007_04b6), before) == (((1u16 << (cfg.filters@.len() as u16)) - 1) as u8),
        crate::mmio::left_in(init_steps(cfg, timing), crate::mmio::word_at(0x4007_04a8), before) == (timing),
        crate::mmio::left_in(init_steps(cfg, timing), crate::mmio::word_at(0x4004_8004), before) == ((before & !1u32) | 0u32),
{
    broadcast use crate::mmio::lemma_written;

    assert(crate::mmio::left_in(init_steps(cfg, timing), crate::mmio::byte_at(0x4007_04a3), before) == (receive_control(cfg))) by {
        lemma_set_up(cfg, timing, crate::mmio::byte_at(0x4007_04a3), before);
        reveal_with_fuel(crate::mmio::left_after, 12);
    }
    assert(crate::mmio::left_in(init_steps(cfg, timing), crate::mmio::byte_at(0x4007_04a4), before) == (rtie_of(cfg.interrupts.value()))) by {
        lemma_set_up(cfg, timing, crate::mmio::byte_at(0x4007_04a4), before);
        reveal_with_fuel(crate::mmio::left_after, 12);
    }
    assert(crate::mmio::left_in(init_steps(cfg, timing), crate::mmio::byte_at(0x4007_04a5), before) == (0xff)) by {
        lemma_set_up(cfg, timing, crate::mmio::byte_at(0x4007_04a5), before);
        reveal_with_fuel(crate::mmio::left_after, 12);
    }
    assert(crate::mmio::left_in(init_steps(cfg, timing), crate::mmio::byte_at(0x4007_04a6), before) == (errint_of(cfg.interrupts.value()) | 0x15)) by {
        lemma_set_up(cfg, timing, crate::mmio::byte_at(0x4007_04a6), before);
        reveal_with_fuel(crate::mmio::left_after, 12);
    }
    assert(crate::mmio::left_in(init_steps(cfg, timing), crate::mmio::byte_at(0x4007_04a7), before) == ((cfg.rx_warn_limit << 4u8) | cfg.error_warn_limit)) by {
        lemma_set_up(cfg, timing, crate::mmio::byte_at(0x4007_04a7), before);
        reveal_with_fuel(crate::mmio::left_after, 12);
    }
    assert(crate::mmio::left_in(init_steps(cfg, timing), crate::mmio::byte_at(0x4007_04b6), before) == (((1u16 << (cfg.filters@.len() as u16)) - 1) as u8)) by {
        lemma_set_up(cfg, timing, crate::mmio::byte_at(0x4007_04b6), before);
        reveal_with_fuel(crate::mmio::left_after, 12);
    }
    assert(crate::mmio::left_in(init_steps(cfg, timing), crate::mmio::word_at(0x4007_04a8), before) == (timing)) by {
        lemma_set_up(cfg, timing, crate::mmio::word_at(0x4007_04a8), before);
        reveal_with_fuel(crate::mmio::left_after, 12);
    }
    assert(crate::mmio::left_in(init_steps(cfg, timing), crate::mmio::word_at(0x4004_8004), before) == ((before & !1u32) | 0u32)) by {
        lemma_set_up(cfg, timing, crate::mmio::word_at(0x4004_8004), before);
        reveal_with_fuel(crate::mmio::left_after, 12);
    }
}

/// The fields of the bit timing do not run into each other.
proof fn lemma_timing_fields(t: BitTiming)
    requires
        t.in_range(),
    ensures
        ({
            let v = timing_register(t);
            &&& v / 0x100_0000 == t.prescaler - 1
            &&& v / 0x1_0000 % 0x100 == t.sjw - 1
            &&& v / 0x100 % 0x100 == t.time_seg2 - 1
            &&& v % 0x100 == t.time_seg1 - 2
        }),
{
    let a = t.prescaler - 1;
    let b = t.sjw - 1;
    let c = t.time_seg2 - 1;
    let d = t.time_seg1 - 2;
    let w = a * 0x100_0000 + b * 0x1_0000 + c * 0x100 + d;
    assert(w / 0x100 == a * 0x1_0000 + b * 0x100 + c);
    assert(w / 0x1_0000 == a * 0x100 + b);
}

/// When the set-up has run, the limits, the way of receiving, the number of filters and
/// the events are those of the configuration, no flag of an earlier event is left, and
/// the controller has its clock.
#[verifier::spinoff_prover]
#[verifier::rlimit(60)]
pub proof fn law_reception_is_set_up(
    can: Can,
    cfg: Config,
    crystal: Crystal,
    found: CrystalState,
    exclk_hz: u32,
    plan: InitPlan,
    before: u32,
)
    requires
        call_ensures(Can::init, (&can, &cfg, crystal, found, exclk_hz), Ok(plan)),
    ensures
        ({
            let v = crate::mmio::left_in(plan.program@, crate::mmio::byte_at(0x4007_04a3), before);
            &&& v & 0x08 != 0 <==> cfg.rx_all_frames
            &&& v & 0x40 != 0 <==> cfg.rx_overflow == RxOverflowMode::DiscardNewest
            &&& v & 0x80 != 0 <==> cfg.self_ack
            &&& v & 0x37 == 0
        }),
        crate::mmio::left_in(plan.program@, crate::mmio::byte_at(0x4007_04a7), before) == 16
            * cfg.rx_warn_limit + cfg.error_warn_limit,
        ({
            let v = crate::mmio::left_in(plan.program@, crate::mmio::byte_at(0x4007_04b6), before);
            let n = cfg.filters@.len();
            v == (if n == 1 {
                0x01int
            } else if n == 2 {
                0x03
            } else if n == 3 {
                0x07
            } else if n == 4 {
                0x0f
            } else if n == 5 {
                0x1f
            } else if n == 6 {
                0x3f
            } else if n == 7 {
                0x7f
            } else {
                0xff
            })
        }),
        crate::mmio::left_in(plan.program@, crate::mmio::byte_at(0x4007_04a5), before) == 0xff,
        crate::mmio::left_in(plan.program@, crate::mmio::byte_at(0x4007_04a4), before)
            == cfg.interrupts.value() as u32 & 0xff,
        ({
            let v = crate::mmio::left_in(plan.program@, crate::mmio::byte_at(0x4007_04a6), before);
            &&& v & 0x15 == 0x15
            &&& v & 0x2a == (cfg.interrupts.value() as u32 >> 8u32) & 0x2a
            &&& v & 0xc0 == 0
        }),
        crate::mmio::left_in(plan.program@, crate::mmio::word_at(0x4004_8004), before) == before
            & 0xffff_fffe,
        ({
            let v = crate::mmio::left_in(plan.program@, crate::mmio::word_at(0x4007_04a8), before);
            let t = plan.timing;
            &&& v / 0x100_0000 == t.prescaler - 1
            &&& v / 0x1_0000 % 0x100 == t.sjw - 1
            &&& v / 0x100 % 0x100 == t.time_seg2 - 1
            &&& v % 0x100 == t.time_seg1 - 2
        }),
{
    let timing = timing_register(plan.timing);
    lemma_set_up_values(cfg, timing, before);
    lemma_timing_fields(plan.timing);
    lemma_set_up_bits(
        0,
        false,
        false,
        false,
        false,
        false,
        false,
        cfg.rx_all_frames,
        cfg.rx_overflow == RxOverflowMode::DiscardNewest,
        cfg.self_ack,
        cfg.rx_warn_limit,
        cfg.error_warn_limit,
        cfg.interrupts.value(),
    );
    lemma_filter_bits(before, 0, 0);
}

proof fn lemma_filter_bits(before: u32, i: u8, mask: u32)
    ensures
        i < 8 ==> i | 0x20u8 == i + 0x20,
        mask <= 0x1fff_ffff ==> {
            &&& mask | 0u32 == mask
            &&& mask | 0x4000_0000u32 == mask + 0x4000_0000
            &&& mask | 0x6000_0000u32 == mask + 0x6000_0000
        },
        1u16 << 1u16 == 2,
        1u16 << 2u16 == 4,
        1u16 << 3u16 == 8,
        1u16 << 4u16 == 16,
        1u16 << 5u16 == 32,
        1u16 << 6u16 == 64,
        1u16 << 7u16 == 128,
        1u16 << 8u16 == 256,
        (before & !1u32) | 0u32 == before & 0xffff_fffe,
{
    assert((i < 8u8 ==> i | 0x20u8 == i + 0x20) && (mask <= 0x1fff_ffff ==> mask | 0u32 == mask
        && mask | 0x4000_0000u32 == mask + 0x4000_0000 && mask | 0x6000_0000u32 == mask
        + 0x6000_0000) && 1u16 << 1u16 == 2 && 1u16 << 2u16 == 4 && 1u16 << 3u16 == 8 && 1u16
        << 4u16 == 16 && 1u16 << 5u16 == 32 && 1u16 << 6u16 == 64 && 1u16 << 7u16 == 128 && 1u16
        << 8u16 == 256 && (before & !1u32) | 0u32 == before & 0xffff_fffe) by (bit_vector);
}

/// What the filter register number `key` holds when the first `n` steps have been
/// carried out.
pub open spec fn slot_after(
    steps: Seq<Step<CanError>>,
    n: int,
    key: int,
    selected: u32,
    held: u32,
) -> u32 {
    crate::mmio::window_after(
        steps,
        n,
        crate::mmio::byte_at(0x4007_04b4),
        crate::mmio::word_at(0x4007_04b8),
        key,
        selected,
        held,
    )
}

/// How far the filters are set after `m` of the steps that set them.
proof fn lemma_slots(cfg: Config, timing: u32, n: int, i: int, selected: u32, held: u32)
    requires
        1 <= cfg.filters@.len() <= 8,
        0 <= i < cfg.filters@.len(),
        0 <= n <= init_steps(cfg, timing).len(),
    ensures
        ({
            let steps = init_steps(cfg, timing);
            let m = n - 7;
            let count = cfg.filters@.len();
            let f = cfg.filters@[i];
            &&& 1 <= m <= 4 * count ==> crate::mmio::left_after(
                steps,
                n,
                crate::mmio::byte_at(0x4007_04b4),
                selected,
            ) == (m - 1) / 4 + (if (m - 1) % 4 < 2 {
                0int
            } else {
                0x20
            })
            &&& slot_after(steps, n, i, selected, held) == (if m >= 4 * i + 2 {
                f.id
            } else {
                held
            })
            &&& slot_after(steps, n, i + 0x20, selected, held) == (if m >= 4 * i + 4 {
                f.mask | filter_bits(f.kind)
            } else {
                held
            })
        }),
    decreases n,
{
    broadcast use crate::mmio::lemma_written;

    let steps = init_steps(cfg, timing);
    let count = cfg.filters@.len();
    if n > 0 {
        lemma_slots(cfg, timing, n - 1, i, selected, held);
        let step = steps[n - 1];
        let m = n - 7;
        if 1 <= m <= 4 * count {
            assert(step == filter_step(cfg.filters@, m - 1));
            lemma_filter_bits(0, ((m - 1) / 4) as u8, 0);
        } else if m > 4 * count {
            assert(step == run_steps(cfg)[m - 1 - 4 * count]);
        } else {
            assert(step == reset_steps(cfg, timing)[n - 1]);
        }
    }
}

/// When the set-up has run, each filter is in the registers of its own number: its
/// identifier, and its mask together with the type, where bit 30 limits it to one kind
/// of frame and bit 29 tells the extended ones.
pub proof fn law_filters_are_set_up(
    can: Can,
    cfg: Config,
    crystal: Crystal,
    found: CrystalState,
    exclk_hz: u32,
    plan: InitPlan,
    i: int,
    selected: u32,
    held: u32,
)
    requires
        call_ensures(Can::init, (&can, &cfg, crystal, found, exclk_hz), Ok(plan)),
        0 <= i < cfg.filters@.len(),
    ensures
        ({
            let steps = plan.program@;
            let n = steps.len() as int;
            let f = cfg.filters@[i];
            &&& slot_after(steps, n, i, selected, held) == f.id
            &&& slot_after(steps, n, i + 0x20, selected, held) == f.mask + (match f.kind {
                FilterType::StandardAndExtended => 0int,
                FilterType::StandardOnly => 0x4000_0000,
                FilterType::ExtendedOnly => 0x6000_0000,
            })
        }),
{
    let timing = timing_register(plan.timing);
    lemma_slots(cfg, timing, plan.program@.len() as int, i, selected, held);
    lemma_filter_bits(0, 0, cfg.filters@[i].mask);
    assert(filter_ok(cfg.filters@[i]));
}

proof fn lemma_operation_bits(b: u32, e: u8, x: u8, y: u8, z: u8, w: u8)
    requires
        b < 256,
    ensures
        ({
            let p = (((b & ((!0x80u8) as u32)) | 0u32) & ((!0u8) as u32)) | 0x10u32;
            let q = (b & ((!0u8) as u32)) | 0x80u32;
            let t = (b & ((!0u8) as u32)) | 0x40u32;
            let one = (b & ((!0u8) as u32)) | 0x04u32;
            let all = (b & ((!0u8) as u32)) | 0x02u32;
            let stop = (b & ((!0u8) as u32)) | 0x08u32;
            let halt = (b & ((!0u8) as u32)) | 0x01u32;
            let r = (b & ((!0u8) as u32)) | 0x10u32;
            let out = (b & ((!0x80u8) as u32)) | 0u32;
            &&& p & 0x10 != 0 && p & 0x80 == 0 && p & 0x6f == b & 0x6f
            &&& q & 0x80 != 0 && q & 0x7f == b & 0x7f
            &&& t & 0x40 != 0 && t & 0xbf == b & 0xbf
            &&& one == b | 0x04 && all == b | 0x02 && stop == b | 0x08 && halt == b | 0x01
            &&& r == b | 0x10 && out == b & 0x7f
        }),
        ({
            let on = (b & ((!0u8) as u32)) | e as u32;
            let off = (b & ((!e) as u32)) | 0u32;
            let flags = (b & ((!0xd5u8) as u32)) | (e & 0x2a) as u32;
            let fewer = (b & ((!(0xd5u8 | (e & 0x2a))) as u32)) | 0u32;
            &&& on == b | e as u32
            &&& off == b & !(e as u32)
            &&& flags & 0x2a == (b | e as u32) & 0x2a
            &&& flags & 0xd5 == 0
            &&& fewer & 0x2a == (b & !(e as u32)) & 0x2a
            &&& fewer & 0xd5 == 0
        }),
        ({
            let v = (x as u32 & 0x07) | (y as u32 & 0x20) | (((z as u32) << 8u32) & 0x100) | ((
            w as u32) << 16u32) | (((e & 0xd5) as u32) << 24u32);
            &&& v & 0x07 == x & 0x07
            &&& v & 0x20 == y & 0x20
            &&& (v & 0x100 != 0) == (z & 0x01 != 0)
            &&& ((v >> 16u32) & 0xff) as u8 == w
            &&& ((v >> 24u32) & 0x15) as u8 == e & 0x15
            &&& (v >> 16u32) & 0xff == w
            &&& (v >> 24u32) & 0xff == e & 0xd5
            &&& (v >> 8u32) & 0xfe == 0
            &&& v & 0xd8 == 0
        }),
        ((0x0008_0000u32 >> 16u32) & 0xff) as u8 == 0x08,
        ((0x0008_0000u32 >> 24u32) & 0x15) as u8 == 0,
        ((0x0004_0000u32 >> 16u32) & 0xff) as u8 == 0x04,
        ((0x0004_0000u32 >> 24u32) & 0x15) as u8 == 0,
        0u8 & 0x01 == 0,
        (!0xd5u8) as u32 == 0x2a,
        ({
            let p = (((b & ((!0x80u8) as u32)) | 0u32) & ((!0u8) as u32)) | 0x10u32;
            &&& p as u8 & 0x10 != 0
            &&& (b | 0x04u32) as u8 & 0x06 != 0
            &&& (b | 0x02u32) as u8 & 0x06 != 0
        }),
        ({
            let q = (b & ((!0u8) as u32)) | 0x80u32;
            let on = (b & !1u32) | 0u32;
            &&& q as u8 & 0x80 != 0
            &&& (b & 0x7f) as u8 & 0x80 == 0
            &&& ((on & !0u32) | 1u32) & 1 == 1
        }),
        x & 3 < 4,
{
    assert({
        let p = (((b & ((!0x80u8) as u32)) | 0u32) & ((!0u8) as u32)) | 0x10u32;
        let q = (b & ((!0u8) as u32)) | 0x80u32;
        let t = (b & ((!0u8) as u32)) | 0x40u32;
        let one = (b & ((!0u8) as u32)) | 0x04u32;
        let all = (b & ((!0u8) as u32)) | 0x02u32;
        let stop = (b & ((!0u8) as u32)) | 0x08u32;
        let halt = (b & ((!0u8) as u32)) | 0x01u32;
        let r = (b & ((!0u8) as u32)) | 0x10u32;
        let out = (b & ((!0x80u8) as u32)) | 0u32;
        let on = (b & ((!0u8) as u32)) | e as u32;
        let off = (b & ((!e) as u32)) | 0u32;
        let flags = (b & ((!0xd5u8) as u32)) | (e & 0x2a) as u32;
        let fewer = (b & ((!(0xd5u8 | (e & 0x2a))) as u32)) | 0u32;
        let v = (x as u32 & 0x07) | (y as u32 & 0x20) | (((z as u32) << 8u32) & 0x100) | ((w as u32)
            << 16u32) | (((e & 0xd5) as u32) << 24u32);
        &&& p & 0x10 != 0 && p & 0x80 == 0 && p & 0x6f == b & 0x6f
        &&& q & 0x80 != 0 && q & 0x7f == b & 0x7f
        &&& t & 0x40 != 0 && t & 0xbf == b & 0xbf
        &&& one == b | 0x04 && all == b | 0x02 && stop == b | 0x08 && halt == b | 0x01
        &&& r == b | 0x10 && out == b & 0x7f
        &&& on == b | e as u32
        &&& off == b & !(e as u32)
        &&& flags & 0x2a == (b | e as u32) & 0x2a
        &&& flags & 0xd5 == 0
        &&& fewer & 0x2a == (b & !(e as u32)) & 0x2a
        &&& fewer & 0xd5 == 0
        &&& v & 0x07 == x & 0x07
        &&& v & 0x20 == y & 0x20
        &&& (v & 0x100 != 0) == (z & 0x01 != 0)
        &&& ((v >> 16u32) & 0xff) as u8 == w
        &&& ((v >> 24u32) & 0x15) as u8 == e & 0x15
        &&& (v >> 16u32) & 0xff == w
        &&& (v >> 24u32) & 0xff == e & 0xd5
        &&& (v >> 8u32) & 0xfe == 0
        &&& v & 0xd8 == 0
        &&& ((0x0008_0000u32 >> 16u32) & 0xff) as u8 == 0x08
        &&& ((0x0008_0000u32 >> 24u32) & 0x15) as u8 == 0
        &&& ((0x0004_0000u32 >> 16u32) & 0xff) as u8 == 0x04
        &&& ((0x0004_0000u32 >> 24u32) & 0x15) as u8 == 0
        &&& 0u8 & 0x01 == 0 && (!0xd5u8) as u32 == 0x2a && x & 3 < 4
        &&& p as u8 & 0x10 != 0 && (b | 0x04u32) as u8 & 0x06 != 0 && (b | 0x02u32) as u8 & 0x06 != 0
        &&& q as u8 & 0x80 != 0 && (b & 0x7f) as u8 & 0x80 == 0
        &&& ((((b & !1u32) | 0u32) & !0u32) | 1u32) & 1 == 1
    }) by (bit_vector)
        requires
            b < 256u32,
    ;
}

/// The steps leave a frame in the transmit buffer; of its data, bytes `k` and `4 + k`.
pub open spec fn holds_frame(steps: Seq<Step<CanError>>, frame: TxFrame, b: u32, k: int) -> bool {
    let raw = crate::mmio::left_in(steps, crate::mmio::word_at(0x4007_0450), b);
    let control = crate::mmio::left_in(steps, crate::mmio::word_at(0x4007_0454), b);
    let low = crate::mmio::left_in(steps, crate::mmio::word_at(0x4007_0458), b);
    let high = crate::mmio::left_in(steps, crate::mmio::word_at(0x4007_045c), b);
    &&& raw == (match frame.id {
        Id::Standard(n) => n as int,
        Id::Extended(n) => n as int,
    })
    &&& control % 0x10 == frame.dlc
    &&& control & 0x40 != 0 <==> frame.rtr
    &&& control & 0x80 != 0 <==> frame.id is Extended
    &&& !frame.rtr ==> byte_of(low, k) == frame.data@[k] && byte_of(high, k) == frame.data@[4 + k]
}

/// A frame that is sent lies in the transmit buffer: its identifier, its length in the
/// lower four bits of the next word with bit 6 for a request and bit 7 for an extended
/// identifier, and its bytes from the lowest on. The primary buffer is selected and
/// started, and nothing else is asked of the controller.
pub proof fn law_sent_frames_are_in_the_buffer(
    can: Can,
    frame: TxFrame,
    cfg_stat: u8,
    tcmd: u8,
    rtie: u8,
    tctrl: u8,
    first: Vec<Step<CanError>>,
    second: Vec<Step<CanError>>,
    b: u32,
    k: int,
)
    requires
        call_ensures(Can::try_transmit_ptb, (&can, &frame, cfg_stat, tcmd), Ok(first)),
        call_ensures(Can::enqueue_stb, (&can, &frame, cfg_stat, tcmd, rtie, tctrl), Ok(second)),
        b < 256,
        0 <= k < 4,
    ensures
        holds_frame(first@, frame, b, k),
        holds_frame(second@, frame, b, k),
        ({
            let v = crate::mmio::left_in(first@, crate::mmio::byte_at(0x4007_04a1), b);
            &&& v & 0x10 != 0
            &&& v & 0x80 == 0
            &&& v & 0x6f == b & 0x6f
        }),
        ({
            let v = crate::mmio::left_in(second@, crate::mmio::byte_at(0x4007_04a1), b);
            &&& v & 0x80 != 0
            &&& v & 0x7f == b & 0x7f
        }),
        ({
            let v = crate::mmio::left_in(second@, crate::mmio::byte_at(0x4007_04a2), b);
            &&& v & 0x40 != 0
            &&& v & 0xbf == b & 0xbf
        }),
        crate::mmio::left_in(first@, crate::mmio::byte_at(0x4007_04a5), b) == 0x08,
{
    broadcast use crate::mmio::lemma_written;

    lemma_operation_bits(b, 0, 0, 0, 0, 0);
    assert(clear_steps(0x0008_0000) =~= seq![
        Step::<CanError>::Mask,
        Step::<CanError>::Do(byte(0x4007_04a5, 0x08)),
        Step::<CanError>::Unmask,
    ]);
    reveal_with_fuel(crate::mmio::left_after, 12);
    law_frames_read_back(frame);
    lemma_bytes(frame.data@, 0);
    lemma_bytes(frame.data@, 4);
    assert(frame.data@[0 + k] == frame.data@[k]);
}

/// A frame that the controller receives from itself is the frame that was sent: the
/// words of the transmit buffer, read as those of the receive buffer, give back its
/// identifier, kind and length, and its data as far as it has any.
pub proof fn law_loopback_gives_the_frame_back(
    can: Can,
    frame: TxFrame,
    cfg_stat: u8,
    tcmd: u8,
    steps: Vec<Step<CanError>>,
    b: u32,
    rctrl: u8,
    received: RxFrame,
    release: Vec<Step<CanError>>,
)
    requires
        call_ensures(Can::try_transmit_ptb, (&can, &frame, cfg_stat, tcmd), Ok(steps)),
        call_ensures(
            Can::try_receive,
            (
                &can,
                rctrl,
                crate::mmio::left_in(steps@, crate::mmio::word_at(0x4007_0450), b),
                crate::mmio::left_in(steps@, crate::mmio::word_at(0x4007_0454), b),
                crate::mmio::left_in(steps@, crate::mmio::word_at(0x4007_0458), b),
                crate::mmio::left_in(steps@, crate::mmio::word_at(0x4007_045c), b),
            ),
            Some((received, release)),
        ),
        b < 256,
    ensures
        received.id == frame.id,
        received.rtr == frame.rtr,
        received.dlc == frame.dlc,
        !frame.rtr ==> forall|i: int|
            0 <= i < frame.dlc ==> #[trigger] received.data@[i] == frame.data@[i],
        forall|i: int| frame.dlc <= i < 8 ==> #[trigger] received.data@[i] == 0,
        !received.self_tx,
        crate::mmio::left_in(release@, crate::mmio::byte_at(0x4007_04a3), b) == b | 0x10,
{
    broadcast use crate::mmio::lemma_written;

    lemma_operation_bits(b, 0, 0, 0, 0, 0);
    assert(clear_steps(0x0008_0000) =~= seq![
        Step::<CanError>::Mask,
        Step::<CanError>::Do(byte(0x4007_04a5, 0x08)),
        Step::<CanError>::Unmask,
    ]);
    reveal_with_fuel(crate::mmio::left_after, 12);
    law_frames_read_back(frame);
}

/// What is being sent shows as pending until the controller is done: a frame that was
/// started in the primary buffer, and the secondary buffer, started for one frame or
/// for all. Giving up sets the bit that belongs to the buffer.
pub proof fn law_started_buffers_are_pending(
    can: Can,
    frame: TxFrame,
    request: StbTransmit,
    cfg_stat: u8,
    tcmd: u8,
    first: Vec<Step<CanError>>,
    second: Vec<Step<CanError>>,
    primary_stop: Vec<Step<CanError>>,
    secondary_stop: Vec<Step<CanError>>,
    b: u8,
    pending_first: bool,
    pending_second: bool,
)
    requires
        call_ensures(Can::try_transmit_ptb, (&can, &frame, cfg_stat, tcmd), Ok(first)),
        call_ensures(Can::start_stb, (&can, request, cfg_stat, tcmd), Ok(second)),
        call_ensures(Can::abort, (&can, TxBuffer::Primary), primary_stop),
        call_ensures(Can::abort, (&can, TxBuffer::Secondary), secondary_stop),
        call_ensures(
            Can::tx_pending,
            (
                &can,
                TxBuffer::Primary,
                crate::mmio::left_in(first@, crate::mmio::byte_at(0x4007_04a1), b as u32) as u8,
            ),
            pending_first,
        ),
        call_ensures(
            Can::tx_pending,
            (
                &can,
                TxBuffer::Secondary,
                crate::mmio::left_in(second@, crate::mmio::byte_at(0x4007_04a1), b as u32) as u8,
            ),
            pending_second,
        ),
    ensures
        pending_first,
        pending_second,
        crate::mmio::left_in(second@, crate::mmio::byte_at(0x4007_04a1), b as u32) == b as u32 | (
        match request {
            StbTransmit::One => 0x04u32,
            StbTransmit::All => 0x02,
        }),
        crate::mmio::left_in(second@, crate::mmio::byte_at(0x4007_04a5), b as u32) == 0x04,
        crate::mmio::left_in(primary_stop@, crate::mmio::byte_at(0x4007_04a1), b as u32) == b as u32
            | 0x08,
        crate::mmio::left_in(secondary_stop@, crate::mmio::byte_at(0x4007_04a1), b as u32)
            == b as u32 | 0x01,
{
    broadcast use crate::mmio::lemma_written;

    lemma_operation_bits(b as u32, 0, 0, 0, 0, 0);
    assert(clear_steps(0x0008_0000) =~= seq![
        Step::<CanError>::Mask,
        Step::<CanError>::Do(byte(0x4007_04a5, 0x08)),
        Step::<CanError>::Unmask,
    ]);
    assert(clear_steps(0x0004_0000) =~= seq![
        Step::<CanError>::Mask,
        Step::<CanError>::Do(byte(0x4007_04a5, 0x04)),
        Step::<CanError>::Unmask,
    ]);
    reveal_with_fuel(crate::mmio::left_after, 12);
}

/// The reports of the fill levels agree with what can be done: a frame can be taken
/// exactly if the receive queue is not empty, and the secondary buffer is reported full
/// exactly if it takes no frame for that reason.
pub proof fn law_fill_levels_tell_what_can_be_done(
    can: Can,
    rctrl: u8,
    raw: u32,
    control: u32,
    low: u32,
    high: u32,
    taken: Option<(RxFrame, Vec<Step<CanError>>)>,
    receive_level: BufferStatus,
    frame: TxFrame,
    cfg_stat: u8,
    tcmd: u8,
    tctrl: u8,
    put: Result<Vec<Step<CanError>>, CanError>,
    transmit_level: BufferStatus,
)
    requires
        call_ensures(Can::try_receive, (&can, rctrl, raw, control, low, high), taken),
        call_ensures(Can::rx_buffer_status, (&can, rctrl), receive_level),
        call_ensures(Can::enqueue_stb, (&can, &frame, cfg_stat, tcmd, 0u8, tctrl), put),
        call_ensures(Can::tx_buffer_status, (&can, tctrl), transmit_level),
    ensures
        taken is None <==> receive_level == BufferStatus::Empty,
        put is Ok ==> transmit_level != BufferStatus::Full,
        put == Err::<Vec<Step<CanError>>, CanError>(CanError::TxBufferFull) ==> transmit_level
            == BufferStatus::Full,
{
    lemma_operation_bits(0, 0, tctrl, 0, 0, 0);
    lemma_operation_bits(0, 0, rctrl, 0, 0, 0);
}

/// Each flag of the status is that of a register, and clearing a status clears exactly
/// the flags that it shows: those of the events are written back as they were read, and
/// of the error register the three that can be cleared.
pub proof fn law_status_clears_what_it_shows(
    can: Can,
    cfg_stat: u8,
    rctrl: u8,
    rtie: u8,
    rtif: u8,
    errint: u8,
    status: Status,
    clear: Vec<Step<CanError>>,
    b: u32,
)
    requires
        call_ensures(Can::status, (&can, cfg_stat, rctrl, rtie, rtif, errint), status),
        call_ensures(Can::clear_status, (&can, status), clear),
    ensures
        status.value() & 0x07 == cfg_stat & 0x07,
        status.value() & 0x20 == rctrl & 0x20,
        status.value() & 0x100 != 0 <==> rtie & 0x01 != 0,
        (status.value() >> 16u32) & 0xff == rtif,
        (status.value() >> 24u32) & 0xff == errint & 0xd5,
        crate::mmio::left_in(clear@, crate::mmio::byte_at(0x4007_04a5), b) == (if rtif != 0 {
            rtif as u32
        } else {
            b
        }),
        crate::mmio::left_in(clear@, crate::mmio::byte_at(0x4007_04a6), b) == (if errint & 0x15
            != 0 {
            (b & 0x2a) | (errint & 0x15) as u32
        } else {
            b
        }),
{
    broadcast use crate::mmio::lemma_written;

    lemma_operation_bits(0, errint, cfg_stat, rctrl, rtie, rtif);
    reveal_with_fuel(crate::mmio::left_after, 6);
}

/// Events that are switched on are reported besides the others, and events that are
/// switched off are not; the bits above the eighth are those of the error register, of
/// which no flag is cleared.
pub proof fn law_events_are_switched(
    can: Can,
    interrupts: Interrupts,
    on: Vec<Step<CanError>>,
    off: Vec<Step<CanError>>,
    b: u32,
)
    requires
        call_ensures(Can::enable_interrupts, (&can, interrupts), on),
        call_ensures(Can::disable_interrupts, (&can, interrupts), off),
        b < 256,
    ensures
        ({
            let events = interrupts.value() as u32 & 0xff;
            let errors = (interrupts.value() as u32 >> 8u32) & 0x2a;
            let more = crate::mmio::left_in(on@, crate::mmio::byte_at(0x4007_04a6), b);
            let fewer = crate::mmio::left_in(off@, crate::mmio::byte_at(0x4007_04a6), b);
            &&& crate::mmio::left_in(on@, crate::mmio::byte_at(0x4007_04a4), b) == b | events
            &&& crate::mmio::left_in(off@, crate::mmio::byte_at(0x4007_04a4), b) == b & !events
            &&& more & 0x2a == (b | errors) & 0x2a
            &&& more & 0xd5 == 0
            &&& fewer & 0x2a == (b & !errors) & 0x2a
            &&& fewer & 0xd5 == 0
        }),
{
    let v = interrupts.value();
    lemma_set_up_bits(0, false, false, false, false, false, false, false, false, false, 1, 0, v);
    lemma_operation_bits(b, rtie_of(v), 0, 0, 0, 0);
    lemma_operation_bits(b, errint_of(v), 0, 0, 0, 0);
    reveal_with_fuel(crate::mmio::left_after, 5);
}

/// Going into reset shows as being in reset, and coming out of it does not; nothing else
/// changes. A controller that was stopped is in reset, reports nothing, filters nothing
/// and has no clock.
pub proof fn law_reset_shows(
    can: Can,
    enter: Vec<Step<CanError>>,
    leave: Vec<Step<CanError>>,
    stop: Vec<Step<CanError>>,
    b: u8,
    inside: bool,
    outside: bool,
)
    requires
        call_ensures(Can::enter_local_reset, (&can,), enter),
        call_ensures(Can::exit_local_reset, (&can,), leave),
        call_ensures(Can::deinit, (&can,), stop),
        call_ensures(
            Can::in_local_reset,
            (
                &can,
                crate::mmio::left_in(enter@, crate::mmio::byte_at(0x4007_04a0), b as u32) as u8,
            ),
            inside,
        ),
        call_ensures(
            Can::in_local_reset,
            (
                &can,
                crate::mmio::left_in(leave@, crate::mmio::byte_at(0x4007_04a0), b as u32) as u8,
            ),
            outside,
        ),
    ensures
        inside,
        !outside,
        crate::mmio::left_in(enter@, crate::mmio::byte_at(0x4007_04a0), b as u32) & 0x7f == b as u32
            & 0x7f,
        crate::mmio::left_in(leave@, crate::mmio::byte_at(0x4007_04a0), b as u32) == b as u32 & 0x7f,
        crate::mmio::left_in(stop@, crate::mmio::byte_at(0x4007_04a0), b as u32) & 0x80 != 0,
        crate::mmio::left_in(stop@, crate::mmio::byte_at(0x4007_04a4), b as u32) == 0,
        crate::mmio::left_in(stop@, crate::mmio::byte_at(0x4007_04a5), b as u32) == 0xff,
        crate::mmio::left_in(stop@, crate::mmio::byte_at(0x4007_04a6), b as u32) == 0x15,
        crate::mmio::left_in(stop@, crate::mmio::byte_at(0x4007_04b6), b as u32) == 0,
        crate::mmio::left_in(stop@, crate::mmio::word_at(0x4004_8004), b as u32) & 1 == 1,
{
    broadcast use crate::mmio::lemma_written;

    let w = b as u32;
    lemma_operation_bits(w, 0, 0, 0, 0, 0);
    reveal_with_fuel(crate::mmio::left_after, 16);
}

/// A controller that was set up only to listen refuses to send, unless it hears itself
/// over the bus; in every other mode it is neither in reset nor silent.
pub proof fn law_listeners_do_not_send(
    can: Can,
    cfg: Config,
    crystal: Crystal,
    found: CrystalState,
    exclk_hz: u32,
    plan: InitPlan,
    b: u8,
    frame: TxFrame,
    sent: Result<Vec<Step<CanError>>, CanError>,
)
    requires
        call_ensures(Can::init, (&can, &cfg, crystal, found, exclk_hz), Ok(plan)),
        call_ensures(
            Can::try_transmit_ptb,
            (
                &can,
                &frame,
                crate::mmio::left_in(plan.program@, crate::mmio::byte_at(0x4007_04a0), b as u32)
                    as u8,
                crate::mmio::left_in(plan.program@, crate::mmio::byte_at(0x4007_04a1), b as u32)
                    as u8,
            ),
            sent,
        ),
        frame_error(frame) is None,
    ensures
        cfg.mode == WorkMode::Silent <==> sent == Err::<Vec<Step<CanError>>, CanError>(
            CanError::SilentMode,
        ),
        cfg.mode != WorkMode::Silent && b & 0x10 == 0 ==> sent is Ok,
{
    law_mode_is_set_up(can, cfg, crystal, found, exclk_hz, plan, b as u32);
    let s = crate::mmio::left_in(plan.program@, crate::mmio::byte_at(0x4007_04a0), b as u32);
    let t = crate::mmio::left_in(plan.program@, crate::mmio::byte_at(0x4007_04a1), b as u32);
    lemma_low_byte(s, b);
    lemma_low_byte(t, b);
}

proof fn lemma_low_byte(v: u32, b: u8)
    ensures
        (v as u8) & 0x80 != 0 <==> v & 0x80 != 0,
        (v as u8) & 0x40 != 0 <==> v & 0x40 != 0,
        v & 0xbf == (b as u32) & 0xbf ==> ((v as u8) & 0x10 != 0 <==> b & 0x10 != 0),
{
    assert((((v as u8) & 0x80 != 0) == (v & 0x80 != 0)) && (((v as u8) & 0x40 != 0) == (v & 0x40
        != 0)) && (v & 0xbf == (b as u32) & 0xbf ==> (((v as u8) & 0x10 != 0) == (b & 0x10 != 0))))
        by (bit_vector);
}

/// The number under which the controller reports an error.
pub open spec fn error_number(kind: ErrorKind) -> u8 {
    match kind {
        ErrorKind::NoError => 0,
        ErrorKind::Bit => 1,
        ErrorKind::Form => 2,
        ErrorKind::Stuff => 3,
        ErrorKind::Acknowledge => 4,
        ErrorKind::Crc => 5,
        ErrorKind::Other => 6,
        ErrorKind::Reserved => 7,
    }
}

/// The number under which the controller reports a fill level.
pub open spec fn level_number(level: BufferStatus) -> u8 {
    match level {
        BufferStatus::Empty => 0,
        BufferStatus::Low => 1,
        BufferStatus::High => 2,
        BufferStatus::Full => 3,
    }
}

proof fn lemma_report_bits(x: u8, y: u8, control: u32)
    ensures
        ({
            let k = (control >> 13u32) & 7;
            &&& k == control / 0x2000 % 8
            &&& (k as u8) & 7 == k
        }),
        (x >> 5u8) & 7 == x / 32,
        x & 0x1f == x % 32,
        y & 3 == y % 4,
        (control & 0x1000 != 0) == (control / 0x1000 % 2 == 1),
        (control & 0x40 != 0) == (control / 0x40 % 2 == 1),
        (control & 0x80 != 0) == (control / 0x80 % 2 == 1),
        control & 0x7ff == control % 0x800,
        control & 0x1fff_ffff == control % 0x2000_0000,
{
    assert({
        let k = (control >> 13u32) & 7;
        &&& k == control / 0x2000 % 8 && (k as u8) & 7 == k
        &&& (x >> 5u8) & 7 == x / 32 && x & 0x1f == x % 32 && y & 3 == y % 4
        &&& (control & 0x1000 != 0) == (control / 0x1000 % 2 == 1)
        &&& (control & 0x40 != 0) == (control / 0x40 % 2 == 1)
        &&& (control & 0x80 != 0) == (control / 0x80 % 2 == 1)
        &&& control & 0x7ff == control % 0x800 && control & 0x1fff_ffff == control % 0x2000_0000
    }) by (bit_vector);
}

/// A received frame is read field by field: of its second word the length in bits 0 to 3,
/// which counts up to 8, the request in bit 6, the kind of identifier in bit 7, whether it
/// was sent by this controller in bit 12, the last error in bits 13 to 15 and the time in
/// the upper half; of its first word as many bits as the identifier has.
pub proof fn law_received_frames_are_read_by_their_fields(
    can: Can,
    rctrl: u8,
    raw: u32,
    control: u32,
    low: u32,
    high: u32,
    frame: RxFrame,
    release: Vec<Step<CanError>>,
)
    requires
        call_ensures(
            Can::try_receive,
            (&can, rctrl, raw, control, low, high),
            Some((frame, release)),
        ),
    ensures
        frame.dlc == (if control % 16 <= 8 {
            control % 16
        } else {
            8
        }),
        frame.rtr <==> control / 0x40 % 2 == 1,
        frame.id is Extended <==> control / 0x80 % 2 == 1,
        frame.id matches Id::Extended(n) ==> n == raw % 0x2000_0000,
        frame.id matches Id::Standard(n) ==> n == raw % 0x800,
        frame.self_tx <==> control / 0x1000 % 2 == 1,
        error_number(frame.error) == control / 0x2000 % 8,
        frame.cycle_time == control / 0x1_0000,
        frame.dlc > 0 ==> frame.data@[0] == low % 0x100,
        frame.dlc > 3 ==> frame.data@[3] == low / 0x100_0000,
        frame.dlc > 4 ==> frame.data@[4] == high % 0x100,
        frame.dlc > 7 ==> frame.data@[7] == high / 0x100_0000,
{
    lemma_report_bits(0, 0, control);
    lemma_report_bits(0, 0, raw);
    assert(frame.data@[0] == received_byte(control, low, high, 0));
    assert(frame.data@[3] == received_byte(control, low, high, 3));
    assert(frame.data@[4] == received_byte(control, low, high, 4));
    assert(frame.data@[7] == received_byte(control, low, high, 7));
}

/// What is known of errors is what the registers hold: the capture register is 32 times
/// the number of the error plus the position, and the fill levels are their lowest two
/// bits.
pub proof fn law_reports_are_read_by_their_numbers(
    can: Can,
    ealcap: u8,
    recnt: u8,
    tecnt: u8,
    info: ErrorInfo,
    rctrl: u8,
    level: BufferStatus,
    tctrl: u8,
    sending: BufferStatus,
)
    requires
        call_ensures(Can::error_info, (&can, ealcap, recnt, tecnt), info),
        call_ensures(Can::rx_buffer_status, (&can, rctrl), level),
        call_ensures(Can::tx_buffer_status, (&can, tctrl), sending),
    ensures
        ealcap == 32 * error_number(info.kind) + info.arbitration_lost_position,
        info.arbitration_lost_position < 32,
        info.rx_count == recnt && info.tx_count == tecnt,
        level_number(level) == rctrl % 4,
        level_number(sending) == tctrl % 4,
{
    lemma_report_bits(ealcap, rctrl, 0);
    lemma_report_bits(ealcap, tctrl, 0);
}

/// What is set up is within what the controller can do: up to a megabit in a second, one
/// to eight filters of 29 bits, or 11 for standard frames alone, and limits that fit; the
/// clock of the controller is at least one and a half times the crystal.
pub proof fn law_only_possible_configurations_are_set_up(
    can: Can,
    cfg: Config,
    crystal: Crystal,
    found: CrystalState,
    exclk_hz: u32,
    plan: InitPlan,
    i: int,
)
    requires
        call_ensures(Can::init, (&can, &cfg, crystal, found, exclk_hz), Ok(plan)),
        0 <= i < cfg.filters@.len(),
    ensures
        1 <= cfg.bitrate <= 1_000_000,
        1 <= cfg.filters@.len() <= 8,
        cfg.filters@[i].id < 0x2000_0000,
        cfg.filters@[i].mask < 0x2000_0000,
        cfg.filters@[i].kind == FilterType::StandardOnly ==> cfg.filters@[i].id < 0x800,
        1 <= cfg.rx_warn_limit <= 10,
        cfg.error_warn_limit <= 15,
        2 * exclk_hz >= 3 * crystal.hz,
        plan.timing.sjw == cfg.sjw,
        2 <= plan.timing.prescaler <= 256,
        plan.timing.sjw <= plan.timing.time_seg2 < plan.timing.time_seg1 <= 65,
        plan.start is Some <==> !found.stable,
        plan.stop is Some <==> !found.stable && !found.enabled,
{
    assert(filter_ok(cfg.filters@[i]));
}

} // verus!
