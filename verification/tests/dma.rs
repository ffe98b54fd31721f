//! DMA channels, copies and console transfers.

use hc32_firmware::dma::{
    self, AddrMode, Config, Dma, Dma1Ch0, Dma1Ch2, Dma2Ch3, DmaError, State, Transfer, TxAction,
    TxStage, Width,
};
use hc32_firmware::intc::{IrqError, Line};
use hc32_firmware::mmio::{
    change_word, when_word, word, Cleanup, Limit, Otherwise, Step,
};

#[test]
fn channels_are_taken_once() {
    let mut taken = 0u32;
    assert!(Dma1Ch2::take(&mut taken).is_some());
    assert_eq!(taken, 0x04);
    assert!(Dma1Ch2::take(&mut taken).is_none());
    assert!(Dma2Ch3::take(&mut taken).is_some());
    assert_eq!(taken, 0x84);
}

#[test]
fn a_configuration_goes_to_six_registers() {
    let ch: Dma2Ch3 = Dma::new();
    let cfg = Config {
        width: Width::B16,
        src_addr: 0x2000_0002,
        dest_addr: 0x4000_0004,
        block_size: 1024,
        trans_count: 5,
        src_inc: AddrMode::Inc,
        dest_inc: AddrMode::Dec,
        int_tc: true,
        int_err: false,
    };
    let base = 0x4005_3400 + 0x100;
    assert_eq!(
        ch.configure(&cfg).unwrap(),
        vec![
            Step::Do(word(base, 0x2000_0002)),
            Step::Do(word(base + 0x04, 0x4000_0004)),
            Step::Do(word(base + 0x08, 0x0005_0000)),
            Step::Do(change_word(base + 0x1c, 0x130f, 0x1000 | 0x100 | 0x08 | 0x01)),
            Step::Do(change_word(0x4005_3410, 0x0008_0008, 0)),
            Step::Do(change_word(0x4005_340c, 0, 0x0008_0008)),
        ]
    );
}

#[test]
fn addresses_are_multiples_of_the_width() {
    let ch: Dma1Ch0 = Dma::new();
    let cfg = Config {
        width: Width::B32,
        src_addr: 2,
        ..Config::default()
    };
    assert_eq!(ch.configure(&cfg), Err(DmaError::BadAlign));
    let cfg = Config {
        width: Width::B16,
        dest_addr: 1,
        ..Config::default()
    };
    assert_eq!(ch.configure(&cfg), Err(DmaError::BadAlign));
    assert!(ch.configure(&Config::default()).is_ok());
    assert_eq!(ch.llp_enable(2, true), Err(DmaError::BadAlign));
    assert_eq!(
        ch.llp_enable(8, true).unwrap(),
        vec![
            Step::Do(word(0x4005_3058, 8)),
            Step::Do(change_word(0x4005_305c, 0, 0xc00))
        ]
    );
    assert_eq!(Width::B32.bytes(), 4);
}

#[test]
fn shadowed_registers_are_written_until_they_take() {
    let ch: Dma1Ch0 = Dma::new();
    assert_eq!(
        ch.set_src_addr(0x1234),
        Step::Insist {
            access: word(0x4005_3040, 0x1234),
            check: when_word(0x4005_3060, 0xffff_ffff, 0x1234),
            tries: 0x1000,
            otherwise: Otherwise::Fail {
                cleanup: Cleanup::One(word(0x4005_3040, 0x1234)),
                error: DmaError::WriteTimeout
            }
        }
    );
    assert_eq!(
        ch.set_trans_count(7),
        Step::Insist {
            access: change_word(0x4005_3048, 0xffff_0000, 0x0007_0000),
            check: when_word(0x4005_3068, 0xffff_0000, 0x0007_0000),
            tries: 0x1000,
            otherwise: Otherwise::Fail {
                cleanup: Cleanup::Nothing,
                error: DmaError::WriteTimeout
            }
        }
    );
    let load = dma::uart_tx_load::<1, 0>(0x1234, 7);
    assert_eq!(load, vec![ch.set_src_addr(0x1234), ch.set_trans_count(7)]);
    assert!(matches!(ch.set_dest_addr(1), Step::Insist { access, .. } if access.place.addr == 0x4005_3044));
    assert!(matches!(ch.set_block_size(0x7ff), Step::Insist { access, .. } if access.set == 0x3ff));
}

#[test]
fn other_channels_come_to_rest_first() {
    let ch: Dma1Ch2 = Dma::new();
    let idle = Step::Wait {
        check: when_word(0x4005_301c, 0x0b, 0),
        limit: Limit::Micros(2000),
        otherwise: Otherwise::Fail {
            cleanup: Cleanup::Nothing,
            error: DmaError::ChannelBusy,
        },
    };
    let enable = ch.enable();
    assert_eq!(enable[0], idle);
    assert_eq!(enable[1], Step::Do(change_word(0x4005_301c, 0, 4)));
    assert_eq!(ch.disable()[1], Step::Do(change_word(0x4005_301c, 4, 0)));
    assert_eq!(ch.stop_blocking(0, 0), None);
    assert_eq!(ch.stop_blocking(4, 0), Some(ch.disable()));
    assert_eq!(ch.stop_blocking(0, 0x0004_0000), Some(ch.disable()));
}

#[test]
fn channel_flags_are_told_apart() {
    let ch: Dma1Ch2 = Dma::new();
    assert!(ch.is_busy(0x0004_0000));
    assert!(ch.is_enabled(4));
    assert!(ch.tc_pending(4));
    assert!(ch.error_pending(4) && ch.error_pending(0x0004_0000) && !ch.error_pending(2));
    assert_eq!(ch.remaining(0x0102_03ff), 0x0102);
    assert_eq!(ch.clear_tc(), word(0x4005_3018, 4));
    assert_eq!(ch.clear_errors(), word(0x4005_3014, 0x0004_0004));
    assert_eq!(ch.sw_trigger(), word(0x4005_3030, 0x00a1_0004));
    assert_eq!(ch.sw_reconfig(), word(0x4005_3030, 0xa200_8000));
    assert_eq!(ch.cmd(true), word(0x4005_3000, 1));
    assert_eq!(ch.set_width(Width::B32), change_word(0x4005_30dc, 0x300, 0x200));
    assert_eq!(ch.llp_disable(), change_word(0x4005_30dc, 0x400, 0));
    assert_eq!(ch.set_llp_addr(7), word(0x4005_30d8, 4));
    assert_eq!(ch.reconfig_llp(true), change_word(0x4005_302c, 0xf02, 0x202));
    assert_eq!(ch.reconfig_cmd(false), change_word(0x4005_302c, 1, 0));
}

#[test]
fn copies_use_words_where_they_can() {
    let ch: Dma2Ch3 = Dma::new();
    let t = ch.copy_blocking(0x2000_0000, 8192, 0x2000_4000, 8192).unwrap();
    assert_eq!((t.width, t.left), (Width::B32, 2048));
    let t = ch.copy_blocking_raw(0x2000_0001, 0x2000_4000, 8);
    assert_eq!((t.width, t.left), (Width::B8, 8));
    assert_eq!(
        ch.copy_blocking(0, 4, 0, 8),
        Err(DmaError::LengthMismatch)
    );
}

#[test]
fn long_copies_go_on_part_by_part() {
    let ch: Dma2Ch3 = Dma::new();
    let mut t = ch.copy_blocking_raw(0x2000_0000, 0x2000_4000, 4 * 2049);
    let mut parts = Vec::new();
    while let Some(steps) = ch.copy_chunk(&t) {
        assert_eq!(steps[0], Step::Do(word(0x4005_3500, t.src)));
        parts.push((t.src, t.dst, t.left));
        assert_eq!(ch.copy_outcome(&mut t, Ok(()), 0), Ok(()));
    }
    assert_eq!(
        parts,
        vec![
            (0x2000_0000, 0x2000_4000, 2049),
            (0x2000_1000, 0x2000_5000, 1025),
            (0x2000_2000, 0x2000_6000, 1)
        ]
    );
    assert_eq!(t.left, 0);
}

#[test]
fn failed_copies_say_why() {
    let ch: Dma2Ch3 = Dma::new();
    let start = Transfer {
        width: Width::B8,
        src: 1,
        dst: 2,
        left: 3,
    };
    let mut t = start;
    let late = Err(DmaError::Timeout);
    assert_eq!(ch.copy_outcome(&mut t, late, 0), Err(DmaError::Timeout));
    assert_eq!(ch.copy_outcome(&mut t, late, 0x08), Err(DmaError::TransferError));
    assert_eq!(
        ch.copy_outcome(&mut t, Err(DmaError::ChannelBusy), 0x08),
        Err(DmaError::ChannelBusy)
    );
    assert_eq!(t, start);
}

#[test]
fn interrupts_are_registered_per_channel_and_unit() {
    let ch: Dma2Ch3 = Dma::new();
    let (slot, registered) = ch.install_tc_irq(Line::new(5), 3, 0x1ff);
    let (registration, unmask) = registered.unwrap();
    assert_eq!(slot, 7);
    assert_eq!(registration.route, word(0x4005_105c + 20, 39));
    assert_eq!(unmask, change_word(0x4005_3410, 8, 0));
    let (slot, registered) = ch.install_err_irq(Line::new(5), 3, 1);
    assert_eq!(slot, 7);
    assert_eq!(registered, Err(IrqError::LineTaken));
    assert_eq!(dma::tc_isr::<2, 3>(), (word(0x4005_3418, 8), 7));
    assert_eq!(
        dma::err_isr::<2>(0x0008_0001),
        vec![
            (word(0x4005_3414, 0x0001_0001), 4),
            (word(0x4005_3414, 0x0008_0008), 7)
        ]
    );
}

#[test]
fn events_make_requests() {
    assert_eq!(dma::usart_ri(1), 279);
    assert_eq!(dma::usart_ti(4), 295);
    assert_eq!(dma::route::<1, 2>(280), change_word(0x4001_081c, 0x1ff, 280));
    assert_eq!(dma::unroute::<2, 0>(), change_word(0x4001_0824, 0x1ff, 0x1ff));
    assert_eq!(
        dma::route_reconfig(dma::AOS_STRG),
        change_word(0x4001_0834, 0x1ff, 319)
    );
    assert_eq!(dma::reconfig_sw_trigger(), word(0x4001_0800, 1));
}

#[test]
fn units_are_set_up_once() {
    let mut s = State::default();
    assert_eq!(dma::init::<()>(&mut s).len(), 9);
    assert!(s.clocks_ready);
    assert!(dma::init::<()>(&mut s).is_empty());
    let steps = dma::uart_tx_init::<1, 0>(&mut s, 1, 0x4001_d004);
    assert_eq!(steps[0], Step::Do(change_word(0x4001_0814, 0x1ff, 280)));
    assert_eq!(steps.len(), 9);
    assert!(s.tx_ready);
}

#[test]
fn console_transfers_are_taken_over_or_not() {
    let ready = State {
        clocks_ready: true,
        tx_ready: true,
        ..State::default()
    };
    let mut s = ready;
    assert!(dma::uart_tx_try(&mut s, true, true, false, 100, 16));
    assert!(s.tx_busy);
    assert!(!dma::uart_tx_try(&mut s, true, true, false, 100, 16));
    for (enabled, console, in_isr, len) in [
        (false, true, false, 100),
        (true, false, false, 100),
        (true, true, true, 100),
        (true, true, false, 15),
        (true, true, false, 0x1_0000),
    ] {
        let mut s = ready;
        assert!(!dma::uart_tx_try(&mut s, enabled, console, in_isr, len, 16));
        assert_eq!(s, ready);
    }
    let mut s = State::default();
    assert!(!dma::uart_tx_try(&mut s, true, true, false, 100, 16));
}

#[test]
fn console_transfers_release_the_channel() {
    let busy = State {
        tx_busy: true,
        ..State::default()
    };
    let mut s = busy;
    assert_eq!(dma::uart_tx_next(&mut s, TxStage::Loading, true), TxAction::Arm);
    assert_eq!(dma::uart_tx_next(&mut s, TxStage::Arming, true), TxAction::Enable);
    assert_eq!(dma::uart_tx_next(&mut s, TxStage::Enabling, true), TxAction::Send);
    assert!(s.tx_busy);
    let end = dma::uart_tx_next(&mut s, TxStage::Sending, false);
    assert_eq!(
        end,
        TxAction::Finish {
            restart: false,
            stop: true,
            consumed: true
        }
    );
    assert!(!s.tx_busy);
    assert_eq!(dma::uart_tx_timeout_count(&s), 1);
    let mut s = busy;
    assert_eq!(
        dma::uart_tx_next(&mut s, TxStage::Enabling, false),
        TxAction::Finish {
            restart: true,
            stop: false,
            consumed: false
        }
    );
    assert!(!s.tx_busy);
}

#[test]
fn console_transfers_have_twice_their_time() {
    assert_eq!(dma::uart_tx_timeout_us(100, 115_200), 8680 * 2 + 1000);
    assert_eq!(dma::uart_tx_timeout_us(0, 115_200), 1000);
}

#[test]
fn shared_copies_are_counted_when_they_are_made_otherwise() {
    let mut s = State {
        clocks_ready: true,
        ..State::default()
    };
    assert!(!dma::copy_try(&mut s, true, false, 10, 11, 4));
    assert!(!dma::copy_try(&mut s, true, true, 10, 10, 4));
    assert!(!dma::copy_try(&mut s, false, false, 10, 10, 4));
    assert!(!dma::copy_try(&mut s, true, false, 3, 3, 4));
    assert_eq!(dma::copy_fallback_count(&s), 0);
    assert!(dma::copy_try(&mut s, true, false, 10, 10, 4));
    assert!(!dma::copy_try(&mut s, true, false, 10, 10, 4));
    assert_eq!(dma::copy_fallback_count(&s), 1);
    dma::copy_end(&mut s, false);
    assert_eq!(dma::copy_fallback_count(&s), 2);
    assert!(!s.copy_busy);
}

#[test]
fn time_follows_the_cycle_counter() {
    assert_eq!(dma::elapsed_us_since(0xffff_ff38, 0, 200_000_000), 1);
    assert_eq!(dma::elapsed_us_since(0, 7, 0), 7_000_000);
    assert_eq!(dma::monotonic_ms(400_000, 200_000_000), 2);
}
