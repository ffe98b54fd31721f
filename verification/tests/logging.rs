//! The console and the log.

use hc32_firmware::console::{
    admitted, mark_ready, with_print_lock, write_fmt, write_fmt_line, write_fmt_line_fanout,
    write_fmt_raw, Console, Context, Passage,
};
use hc32_firmware::log::{
    drain_into, enabled, file_enabled, level, log, pending_bytes, set_enabled, set_file_enabled,
    set_level, should_log, Level, Settings,
};
use hc32_firmware::logring::LogRing;
use hc32_firmware::text;

const THREAD: Context = Context {
    scheduler_started: true,
    in_isr: false,
};

const HANDLER: Context = Context {
    scheduler_started: true,
    in_isr: true,
};

const EARLY: Context = Context {
    scheduler_started: false,
    in_isr: false,
};

fn pieces(texts: &[&str]) -> Vec<Vec<u8>> {
    texts.iter().map(|t| t.as_bytes().to_vec()).collect()
}

fn ready() -> Console {
    let mut console = Console::new();
    mark_ready(&mut console);
    console
}

#[test]
fn prints_wait_for_the_serial_line() {
    let mut out = Vec::new();
    let console = Console::new();
    assert_eq!(with_print_lock(&console, EARLY), Passage::Closed);
    write_fmt(&console, EARLY, true, &pieces(&["x"]), &mut out);
    write_fmt_raw(&console, &pieces(&["x"]), &mut out);
    assert!(out.is_empty());
    let console = ready();
    write_fmt(&console, EARLY, false, &pieces(&["a", "b"]), &mut out);
    write_fmt_raw(&console, &pieces(&["c"]), &mut out);
    assert_eq!(out, b"abc");
}

#[test]
fn threads_print_with_the_lock() {
    let console = ready();
    assert_eq!(with_print_lock(&console, THREAD), Passage::Locked);
    assert_eq!(with_print_lock(&console, HANDLER), Passage::Open);
    assert!(admitted(Passage::Locked, true) && !admitted(Passage::Locked, false));
    assert!(admitted(Passage::Open, false) && !admitted(Passage::Closed, true));
    let mut out = Vec::new();
    write_fmt_line(&console, THREAD, false, &pieces(&["lost"]), &mut out);
    assert!(out.is_empty());
    write_fmt_line(&console, THREAD, true, &pieces(&["kept"]), &mut out);
    assert_eq!(out, b"kept\r\n");
}

#[test]
fn lines_can_go_two_ways() {
    let console = ready();
    let mut out = Vec::new();
    let mut side = Vec::new();
    write_fmt_line_fanout(
        &console,
        HANDLER,
        false,
        b"<",
        b">",
        &pieces(&["a", "b"]),
        &mut out,
        &mut side,
    );
    assert_eq!(out, b"<ab>\r\n");
    assert_eq!(side, b"ab");
}

#[test]
fn levels_are_found_again() {
    let all = [Level::Error, Level::Warn, Level::Info, Level::Debug, Level::Trace];
    for (rank, l) in all.iter().enumerate() {
        assert_eq!(l.as_u8() as usize, rank);
        assert_eq!(Level::from_u8(rank as u8), *l);
        assert_eq!(Level::from_name(l.name()), Some(*l));
    }
    assert_eq!(Level::from_u8(9), Level::Trace);
    assert_eq!(Level::from_name("INFO"), None);
    assert_eq!(Level::Warn.name(), "warn");
}

#[test]
fn entries_pass_up_to_a_level() {
    let mut s = Settings::new(true, Level::Info, false);
    assert!(should_log(&s, Level::Info) && !should_log(&s, Level::Debug));
    set_level(&mut s, Level::Trace);
    assert_eq!(level(&s), Level::Trace);
    assert!(should_log(&s, Level::Trace));
    set_enabled(&mut s, false);
    assert!(!enabled(&s) && !should_log(&s, Level::Error));
    assert!(!file_enabled(&s));
    set_file_enabled(&mut s, true);
    assert!(file_enabled(&s) && level(&s) == Level::Trace);
}

#[test]
fn entries_go_to_the_console_and_the_buffer() {
    let s = Settings::new(true, Level::Info, true);
    let mut ring: LogRing<64> = LogRing::new();
    let mut out = Vec::new();
    let stamp = Some((1, 2, 3, 4));
    let text = pieces(&["up", "!"]);
    log(&s, &mut ring, Level::Warn, stamp, &text, true, true, &mut out);
    assert_eq!(out, b"\x1b[33m[1:02:03:04] [WRN] up!\x1b[0m\r\n");
    assert_eq!(pending_bytes(&ring), 2 + 22);
    log(&s, &mut ring, Level::Debug, stamp, &text, true, true, &mut out);
    log(&s, &mut ring, Level::Error, stamp, &text, true, false, &mut out);
    assert_eq!(pending_bytes(&ring), 24);
    let mut plain = Vec::new();
    log(&s, &mut ring, Level::Error, None, &text, false, true, &mut plain);
    assert_eq!(plain, b"[ERR] up!\r\n");
    let mut file = Vec::new();
    let n = drain_into(&mut ring, &mut file);
    assert_eq!(file, b"[1:02:03:04] [WRN] up!\n[ERR] up!\n".to_vec());
    assert_eq!(n, file.len());
    assert_eq!(pending_bytes(&ring), 0);
}

#[test]
fn lost_entries_are_counted() {
    let s = Settings::new(true, Level::Info, true);
    let mut ring: LogRing<24> = LogRing::new();
    let mut out = Vec::new();
    for text in ["one", "two", "three"] {
        log(&s, &mut ring, Level::Info, None, &pieces(&[text]), false, true, &mut out);
    }
    let mut file = Vec::new();
    drain_into(&mut ring, &mut file);
    let shown = String::from_utf8(file).unwrap();
    assert_eq!(shown, "[日志缓冲溢出, 丢弃 1 条]\n[INF] two\n[INF] three\n");
}

#[test]
fn texts_are_built_from_numbers() {
    let mut out = Vec::new();
    text::push_decimal(&mut out, 0);
    text::push_decimal(&mut out, u64::MAX);
    text::push_padded(&mut out, 7, 3);
    text::push_padded(&mut out, 1234, 3);
    text::push_hex8(&mut out, 0xbeef);
    text::push_hex(&mut out, 0xbeef);
    text::push_hex(&mut out, 0);
    assert_eq!(out, b"01844674407370955161500712340000beefbeef0".to_vec());
    assert_eq!(text::decimal_len(1000), 4);
    assert_eq!(text::parse_u32_text(b"4294967295"), Some(u32::MAX));
    assert_eq!(text::parse_u32_text(b"4294967296"), None);
    assert_eq!(text::without_prefix(b"abc", b"ab"), Some(&b"c"[..]));
    assert_eq!(text::without_suffix(b"abc", b"b"), None);
    assert!(text::same_bytes(b"", b""));
}
