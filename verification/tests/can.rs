//! The CAN controller.

use hc32_firmware::can::{
    BufferStatus, Can, CanError, Config, CrystalState, ErrorKind, Filter, FilterType, Id,
    Interrupts, RxOverflowMode, Status, StbPriority, StbTransmit, TxBuffer, TxFrame, WorkMode,
    INTERRUPTS_ALL, STATUS_PTB_TX, STATUS_STB_TX, STATUS_TX_BUFFER_FULL, STATUS_TX_ERRORS,
};
use hc32_firmware::clk::{self, Crystal};
use hc32_firmware::intc::{IrqError, Line};
use hc32_firmware::mmio::{byte, change_byte, change_word, word, Access, Step};

const CRYSTAL: Crystal = Crystal {
    hz: 8_000_000,
    stable_time: 5,
    drive: 2,
    super_drive: false,
};

const RUNNING: CrystalState = CrystalState {
    enabled: true,
    stable: true,
};

fn init_error(cfg: &Config) -> Option<CanError> {
    Can::new().init(cfg, CRYSTAL, RUNNING, 100_000_000).err()
}

fn masked(accesses: &[Access]) -> Vec<Step<CanError>> {
    let mut out = vec![Step::Mask];
    for access in accesses {
        out.push(Step::Do(*access));
    }
    out.push(Step::Unmask);
    out
}

#[test]
fn the_controller_is_set_up_in_reset() {
    let cfg = Config {
        mode: WorkMode::ExternalLoopbackSilent,
        filters: vec![
            Filter::accept_all(),
            Filter {
                id: 0x123,
                mask: 0x0f,
                kind: FilterType::StandardOnly,
            },
        ],
        ptb_single_shot: true,
        stb_priority: StbPriority::LowestIdFirst,
        rx_overflow: RxOverflowMode::OverwriteOldest,
        self_ack: true,
        ..Config::default()
    };
    let plan = Can::new().init(&cfg, CRYSTAL, RUNNING, 100_000_000).unwrap();
    assert!(plan.start.is_none() && plan.stop.is_none());
    assert_eq!(
        (plan.timing.prescaler, plan.timing.time_seg1, plan.timing.time_seg2, plan.timing.sjw),
        (2, 6, 2, 2)
    );
    let expected: Vec<Step<CanError>> = vec![
        Step::Mask,
        Step::Mask,
        Step::Do(change_word(0x4004_8004, 1, 0)),
        Step::Unmask,
        Step::Do(change_byte(0x4007_04a0, 0, 0x80)),
        Step::Do(word(0x4007_04a8, 0x0101_0104)),
        Step::Do(change_byte(0x4007_04a2, 0, 0x20)),
        Step::Do(byte(0x4007_04b4, 0)),
        Step::Do(word(0x4007_04b8, 0)),
        Step::Do(byte(0x4007_04b4, 0x20)),
        Step::Do(word(0x4007_04b8, 0x1fff_ffff)),
        Step::Do(byte(0x4007_04b4, 1)),
        Step::Do(word(0x4007_04b8, 0x123)),
        Step::Do(byte(0x4007_04b4, 0x21)),
        Step::Do(word(0x4007_04b8, 0x4000_000f)),
        Step::Do(change_byte(0x4007_04a0, 0x80, 0)),
        Step::Do(change_byte(0x4007_04a0, 0x60, 0x40)),
        Step::Do(change_byte(0x4007_04a1, 0, 0x40)),
        Step::Do(change_byte(0x4007_04a0, 0x18, 0x10)),
        Step::Do(byte(0x4007_04a7, 0xa7)),
        Step::Do(byte(0x4007_04a3, 0x80)),
        Step::Do(byte(0x4007_04b6, 0x03)),
        Step::Do(byte(0x4007_04a5, 0xff)),
        Step::Do(byte(0x4007_04a6, 0x3f)),
        Step::Do(byte(0x4007_04a4, 0xfe)),
        Step::Unmask,
    ];
    assert_eq!(plan.program, expected);
}

#[test]
fn a_resting_crystal_is_started_and_stopped_again() {
    let off = CrystalState {
        enabled: false,
        stable: false,
    };
    let plan = Can::new().init(&Config::default(), CRYSTAL, off, 100_000_000).unwrap();
    assert_eq!(plan.start, Some(clk::xtal_init(CRYSTAL)));
    assert_eq!(plan.stop, Some(clk::xtal_cmd(false)));
    let failed = plan.after_start(Err(clk::ClkError::XtalStableTimeout));
    assert_eq!(failed, Err((Some(clk::xtal_cmd(false)), CanError::XtalNotReady)));
    let starting = CrystalState {
        enabled: true,
        stable: false,
    };
    let plan = Can::new().init(&Config::default(), CRYSTAL, starting, 100_000_000).unwrap();
    assert!(plan.start.is_some() && plan.stop.is_none());
    let failed = plan.after_start(Err(clk::ClkError::XtalStableTimeout));
    assert_eq!(failed, Err((None, CanError::XtalNotReady)));
    let plan = || Can::new().init(&Config::default(), CRYSTAL, starting, 100_000_000).unwrap();
    assert_eq!(plan().after_start(Ok(())), Ok(plan().program));
}

#[test]
fn bad_configurations_are_refused() {
    let with = |change: &dyn Fn(&mut Config)| {
        let mut cfg = Config::default();
        change(&mut cfg);
        init_error(&cfg)
    };
    assert_eq!(with(&|_| {}), None);
    assert_eq!(with(&|c| c.bitrate = 1_000_001), Some(CanError::BitrateTooHigh));
    assert_eq!(with(&|c| c.filters = Vec::new()), Some(CanError::InvalidFilterCount));
    assert_eq!(
        with(&|c| c.filters = vec![Filter::accept_all(); 9]),
        Some(CanError::InvalidFilterCount)
    );
    assert_eq!(with(&|c| c.filters[0].mask = 0x2000_0000), Some(CanError::InvalidFilter));
    assert_eq!(with(&|c| c.rx_warn_limit = 0), Some(CanError::InvalidRxWarnLimit));
    assert_eq!(with(&|c| c.rx_warn_limit = 11), Some(CanError::InvalidRxWarnLimit));
    assert_eq!(with(&|c| c.error_warn_limit = 16), Some(CanError::InvalidErrorWarnLimit));
    assert_eq!(with(&|c| c.sjw = 0), Some(CanError::BitTimingUnsupported));
    assert_eq!(
        with(&|c| {
            c.bitrate = 999_999;
            c.max_bitrate_error_ppm = 0
        }),
        Some(CanError::BitTimingUnsupported)
    );
    assert_eq!(
        Can::new().init(&Config::default(), CRYSTAL, RUNNING, 11_999_999).err(),
        Some(CanError::ClockConstraint)
    );
    assert!(Can::new().init(&Config::default(), CRYSTAL, RUNNING, 12_000_000).is_ok());
}

#[test]
fn standard_filters_have_eleven_bits() {
    let cfg = Config {
        filters: vec![Filter {
            id: 0x800,
            mask: 0,
            kind: FilterType::StandardOnly,
        }],
        ..Config::default()
    };
    assert_eq!(init_error(&cfg), Some(CanError::InvalidFilter));
}

#[test]
fn frames_are_sent_through_the_primary_buffer() {
    let can = Can::new();
    let frame = TxFrame::data(Id::Extended(0x1234_5678), 5, [1, 2, 3, 4, 5, 6, 7, 8]);
    let mut expected = vec![Step::Mask];
    expected.extend(masked(&[byte(0x4007_04a5, 0x08)]));
    for access in [
        change_byte(0x4007_04a1, 0x80, 0),
        word(0x4007_0450, 0x1234_5678),
        word(0x4007_0454, 0x85),
        word(0x4007_0458, 0x0403_0201),
        word(0x4007_045c, 0x0807_0605),
        change_byte(0x4007_04a1, 0, 0x10),
    ] {
        expected.push(Step::Do(access));
    }
    expected.push(Step::Unmask);
    assert_eq!(can.try_transmit_ptb(&frame, 0, 0), Ok(expected));
    assert_eq!(can.try_transmit_ptb(&frame, 0x80, 0), Err(CanError::InLocalReset));
    assert_eq!(can.try_transmit_ptb(&frame, 0, 0x40), Err(CanError::SilentMode));
    assert!(can.try_transmit_ptb(&frame, 0x40, 0x40).is_ok());
    assert_eq!(can.try_transmit_ptb(&frame, 0, 0x10), Err(CanError::TxBusy));
}

#[test]
fn bad_frames_are_refused() {
    let can = Can::new();
    let send = |frame: TxFrame| can.try_transmit_ptb(&frame, 0, 0).err();
    assert_eq!(
        send(TxFrame::remote(Id::Standard(0x800), 0)),
        Some(CanError::InvalidStandardId)
    );
    assert_eq!(
        send(TxFrame::remote(Id::Extended(0x2000_0000), 0)),
        Some(CanError::InvalidExtendedId)
    );
    assert_eq!(send(TxFrame::remote(Id::Standard(1), 9)), Some(CanError::InvalidDlc));
    assert_eq!(send(TxFrame::remote(Id::Standard(0x7ff), 8)), None);
    assert_eq!(Id::Standard(5).raw(), 5);
    assert!(Id::Extended(5).is_extended() && !Id::Standard(5).is_extended());
}

#[test]
fn requests_have_no_data() {
    let can = Can::new();
    let steps = can
        .enqueue_stb(&TxFrame::remote(Id::Standard(0x12), 3), 0, 0, 0, 0)
        .unwrap();
    assert_eq!(
        steps,
        masked(&[
            change_byte(0x4007_04a1, 0, 0x80),
            word(0x4007_0450, 0x12),
            word(0x4007_0454, 0x43),
            change_byte(0x4007_04a2, 0, 0x40),
        ])
    );
}

#[test]
fn the_secondary_buffer_fills_up() {
    let can = Can::new();
    let frame = TxFrame::remote(Id::Standard(0x12), 3);
    let full = Err(CanError::TxBufferFull);
    assert_eq!(can.enqueue_stb(&frame, 0, 0, 0x01, 0), full);
    assert_eq!(can.enqueue_stb(&frame, 0, 0, 0, 0x03), full);
    assert_eq!(can.enqueue_stb(&frame, 0, 0x02, 0, 0), Err(CanError::TxBusy));
    assert_eq!(can.enqueue_stb(&frame, 0x80, 0, 0, 0), Err(CanError::InLocalReset));
    let mut expected = vec![Step::Mask];
    expected.extend(masked(&[byte(0x4007_04a5, 0x04)]));
    expected.push(Step::Do(change_byte(0x4007_04a1, 0, 0x02)));
    expected.push(Step::Unmask);
    assert_eq!(can.start_stb(StbTransmit::All, 0, 0), Ok(expected));
    assert!(can.start_stb(StbTransmit::One, 0, 0x08).is_ok());
    assert_eq!(can.start_stb(StbTransmit::One, 0, 0x04), Err(CanError::TxBusy));
    assert_eq!(can.start_stb(StbTransmit::One, 0, 0x40), Err(CanError::SilentMode));
}

#[test]
fn transmissions_can_be_given_up() {
    let can = Can::new();
    assert_eq!(can.abort(TxBuffer::Primary), masked(&[change_byte(0x4007_04a1, 0, 0x08)]));
    assert_eq!(can.abort(TxBuffer::Secondary), masked(&[change_byte(0x4007_04a1, 0, 0x01)]));
    assert!(can.tx_pending(TxBuffer::Primary, 0x10));
    assert!(!can.tx_pending(TxBuffer::Primary, 0x06));
    assert!(can.tx_pending(TxBuffer::Secondary, 0x04));
    assert_eq!(can.tx_buffer_status(0x02), BufferStatus::High);
}

#[test]
fn received_frames_are_decoded() {
    let can = Can::new();
    assert!(can.try_receive(0x08, 0, 0, 0, 0).is_none());
    let control = 0x1234_0000 | (5 << 13) | 0x1000 | 0x03;
    let (frame, steps) = can
        .try_receive(0x01, 0xffff_f123, control, 0x0403_0201, 0x0807_0605)
        .unwrap();
    assert_eq!(frame.id, Id::Standard(0x123));
    assert!(!frame.rtr && frame.self_tx);
    assert_eq!(frame.dlc, 3);
    assert_eq!(frame.data, [1, 2, 3, 0, 0, 0, 0, 0]);
    assert_eq!(frame.error, ErrorKind::Crc);
    assert_eq!(frame.cycle_time, 0x1234);
    assert_eq!(steps, masked(&[change_byte(0x4007_04a3, 0, 0x10)]));
    let (frame, _) = can
        .try_receive(0x03, 0xffff_f123, 0xcf, 0x0403_0201, 0x0807_0605)
        .unwrap();
    assert_eq!(frame.id, Id::Extended(0x1fff_f123));
    assert!(frame.rtr);
    assert_eq!(frame.dlc, 8);
    assert_eq!(frame.data, [1, 2, 3, 4, 5, 6, 7, 8]);
    assert_eq!(can.rx_buffer_status(0x03), BufferStatus::Full);
    assert_eq!(can.rx_buffer_status(0x00), BufferStatus::Empty);
    assert_eq!(can.rx_buffer_status(0x01), BufferStatus::Low);
}

#[test]
fn the_status_gathers_the_flags() {
    let can = Can::new();
    let status = can.status(0xff, 0x20, 0x01, 0x0c, 0xff);
    assert_eq!(status.bits(), 0xd50c_0127);
    assert!(status.contains(Status::new(STATUS_PTB_TX | STATUS_STB_TX)));
    assert!(status.intersects(Status::new(STATUS_TX_ERRORS)));
    assert!(!Status::new(0).intersects(Status::new(STATUS_TX_ERRORS)));
    assert!(status.contains(Status::new(STATUS_TX_BUFFER_FULL)));
    assert_eq!(Status::new(1).union(Status::new(4)).bits(), 5);
    assert_eq!(
        can.clear_status(Status::new(0x0508_0000)),
        masked(&[byte(0x4007_04a5, 0x08), change_byte(0x4007_04a6, 0xd5, 0x05)])
    );
    assert_eq!(can.clear_status(Status::new(0)), masked(&[]));
}

#[test]
fn errors_are_classified() {
    let can = Can::new();
    let info = can.error_info(0x93, 7, 9);
    assert_eq!(info.arbitration_lost_position, 0x13);
    assert_eq!(info.kind, ErrorKind::Acknowledge);
    assert_eq!((info.rx_count, info.tx_count), (7, 9));
    let kinds: Vec<ErrorKind> = (0u8..8).map(|k| can.error_info(k << 5, 0, 0).kind).collect();
    assert_eq!(
        kinds,
        vec![
            ErrorKind::NoError,
            ErrorKind::Bit,
            ErrorKind::Form,
            ErrorKind::Stuff,
            ErrorKind::Acknowledge,
            ErrorKind::Crc,
            ErrorKind::Other,
            ErrorKind::Reserved
        ]
    );
}

#[test]
fn events_are_reported_or_not() {
    let can = Can::new();
    let all = Interrupts::new(INTERRUPTS_ALL);
    assert_eq!(
        can.enable_interrupts(all),
        masked(&[change_byte(0x4007_04a4, 0, 0xfe), change_byte(0x4007_04a6, 0xd5, 0x2a)])
    );
    assert_eq!(
        can.disable_interrupts(all),
        masked(&[change_byte(0x4007_04a4, 0xfe, 0), change_byte(0x4007_04a6, 0xff, 0)])
    );
    let some = Interrupts::new(0x80);
    assert!(all.contains(some) && !some.contains(all));
    assert_eq!(some.union(Interrupts::new(0x02)).bits(), 0x82);
}

#[test]
fn the_controller_keeps_to_its_line() {
    let mut can = Can::new();
    let line = Line::new(4);
    let registration = can.register_irq(92, line, 5, 0x1ff).unwrap();
    assert_eq!(registration.route, word(0x4005_106c, 92));
    assert!(can.irq_registered());
    assert!(can.deinit().contains(&Step::Do(word(0xe000_e280, 0x10))));
    assert_eq!(can.register_irq(92, Line::new(5), 5, 0x1ff), Err(IrqError::LineTaken));
    assert_eq!(can.unregister_irq(Line::new(5)), None);
    assert!(can.irq_registered());
    assert_eq!(can.unregister_irq(line).unwrap().slot, 4);
    assert!(!can.irq_registered());
    assert_eq!(
        can.register_irq(92, Line::new(130), 5, 0x1ff),
        Err(IrqError::LineUnsupported)
    );
    assert!(!can.irq_registered());
}

#[test]
fn the_controller_can_be_stopped() {
    let can = Can::new();
    let steps = can.deinit();
    assert_eq!(steps.len(), 1 + 3 + 5 + 3 + 1);
    assert_eq!(steps[4], Step::Do(change_byte(0x4007_04a0, 0, 0x80)));
    assert_eq!(steps[10], Step::Do(change_word(0x4004_8004, 0, 1)));
    assert_eq!(can.enter_local_reset(), masked(&[change_byte(0x4007_04a0, 0, 0x80)]));
    assert_eq!(can.exit_local_reset(), masked(&[change_byte(0x4007_04a0, 0x80, 0)]));
    assert!(can.in_local_reset(0x80) && !can.in_local_reset(0x7f));
}
