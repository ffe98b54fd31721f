//! What the firmware prints when it starts or fails, and what it is built from.

use hc32_firmware::banner::{self, Build, System};
use hc32_firmware::build_info::{
    effective_features, guard_is_consistent, link_guard_size, unix_to_ymd, Features,
};
use hc32_firmware::can::FilterType;
use hc32_firmware::clk::XtalStatus;
use hc32_firmware::config;
use hc32_firmware::panic::{
    exception_name, fault_diagnose, report_backtrace, report_context, report_exception_frame,
    report_fault_registers, stack_backtrace, stack_range_is_readable, valid_exc_return,
    FaultRegisters, STACK_BOTTOM, STACK_TOP, STACK_WORDS,
};

fn shown(bytes: Vec<u8>) -> String {
    String::from_utf8(bytes).unwrap()
}

fn ram_with(words: &[(u32, u32)]) -> Vec<u32> {
    let mut ram = vec![0u32; STACK_WORDS];
    for (addr, value) in words {
        ram[((addr - STACK_BOTTOM) / 4) as usize] = *value;
    }
    ram
}

// ---------------------------------------------------------------------------
// Failures
// ---------------------------------------------------------------------------

#[test]
fn exceptions_have_names() {
    assert_eq!(exception_name(0), "线程模式");
    assert_eq!(exception_name(3), "HardFault");
    assert_eq!(exception_name(15), "SysTick");
    assert_eq!(exception_name(16), "外部中断");
    assert_eq!(exception_name(159), "外部中断");
    assert_eq!(exception_name(160), "未知");
    assert_eq!(exception_name(1), "未知");
}

#[test]
fn stack_ranges_lie_in_ram() {
    assert!(stack_range_is_readable(STACK_BOTTOM, 8));
    assert!(stack_range_is_readable(STACK_TOP - 8, 8));
    assert!(!stack_range_is_readable(STACK_TOP - 4, 8));
    assert!(!stack_range_is_readable(STACK_BOTTOM - 4, 8));
    assert!(!stack_range_is_readable(STACK_BOTTOM + 2, 8));
    assert!(!stack_range_is_readable(0xffff_fffc, 8));
    assert!(valid_exc_return(0xffff_fff9) && valid_exc_return(0xffff_ffed));
    assert!(!valid_exc_return(0xffff_fffb));
}

#[test]
fn backtraces_follow_the_frames_upwards() {
    let ram = ram_with(&[
        (0x2000_0000, 0x2000_0010),
        (0x2000_0004, 0x0000_1001),
        (0x2000_0010, 0x2000_0020),
        (0x2000_0014, 0x0000_2003),
        (0x2000_0020, 0x2000_0000),
        (0x2000_0024, 0x0007_ffff),
    ]);
    assert_eq!(stack_backtrace(&ram, 0x2000_0000, 16), vec![0x1001, 0x2003, 0x7ffff]);
    assert_eq!(stack_backtrace(&ram, 0x2000_0000, 2), vec![0x1001, 0x2003]);
    assert!(stack_backtrace(&ram, 0x2000_0002, 16).is_empty());
    assert!(stack_backtrace(&ram, 0x2000_0030, 16).is_empty());
    assert_eq!(
        shown(report_backtrace(&ram, 0x2000_0010)),
        "  栈回溯 (2 帧):\r\n    #0 0x00002003\r\n    #1 0x0007ffff\r\n"
    );
}

#[test]
fn code_outside_of_flash_ends_a_backtrace() {
    let ram = ram_with(&[(0x2000_0000, 0x2000_0010), (0x2000_0004, 0x0008_0001)]);
    assert!(stack_backtrace(&ram, 0x2000_0000, 16).is_empty());
    let ram = ram_with(&[(0x2000_0000, 0x2000_0010), (0x2000_0004, 0x0000_1000)]);
    assert!(stack_backtrace(&ram, 0x2000_0000, 16).is_empty());
}

#[test]
fn fault_registers_are_explained() {
    let regs = FaultRegisters {
        cfsr: 0x0001_8282,
        hfsr: 0x4000_0000,
        mmfar: 0x1234,
        bfar: 0xabcd,
    };
    assert_eq!(
        shown(report_fault_registers(regs, true)),
        "  CFSR 0x00018282: DACCVIOL PRECISERR UNDEFINSTR\r\n  HFSR 0x40000000: FORCED\r\n  \
         MMFAR 0x00001234\r\n  BFAR 0x0000abcd\r\n"
    );
    let quiet = FaultRegisters {
        cfsr: 0x0001_0000,
        ..regs
    };
    assert_eq!(
        shown(report_fault_registers(quiet, false)),
        "  CFSR 0x00010000:\r\n  HFSR 0x40000000:\r\n"
    );
}

#[test]
fn exception_frames_are_shown_or_skipped() {
    let words: Vec<(u32, u32)> = (0u32..8).map(|i| (0x2000_0100 + 4 * i, i + 1)).collect();
    let ram = ram_with(&words);
    let head = "  EXC_RETURN=0xfffffffd, 原始栈指针=0x20000100\r\n";
    let frame = shown(report_exception_frame(&ram, 0x2000_0100, 0xffff_fffd, 0));
    assert_eq!(
        frame,
        format!(
            "{}  异常帧 @0x20000100 (PSP，basic):\r\n    r0=0x00000001 r1=0x00000002 \
             r2=0x00000003 r3=0x00000004\r\n    r12=0x00000005 lr=0x00000006 pc=0x00000007 \
             xpsr=0x00000008\r\n",
            head
        )
    );
    let doubtful = shown(report_exception_frame(&ram, 0x2000_0100, 0xffff_fffd, 0x1000));
    assert_eq!(doubtful, format!("{}  CFSR 栈状态不可信, 跳过异常帧\r\n", head));
    let wrong = shown(report_exception_frame(&ram, 0x2000_0100, 7, 0));
    assert!(wrong.ends_with("  EXC_RETURN 非法, 跳过异常帧\r\n"));
    let outside = shown(report_exception_frame(&ram, STACK_TOP - 28, 0xffff_fff9, 0));
    assert!(outside.ends_with("  异常帧范围无效/未对齐, 跳过\r\n"));
}

#[test]
fn extended_frames_show_the_floating_point_registers() {
    let words: Vec<(u32, u32)> = (0u32..26).map(|i| (0x2000_0100 + 4 * i, i)).collect();
    let ram = ram_with(&words);
    let frame = shown(report_exception_frame(&ram, 0x2000_0100, 0xffff_ffe9, 0));
    assert!(frame.contains("(MSP，extended FP):\r\n"));
    assert!(frame.contains("\r\n    s0 =0x00000008 s1 =0x00000009"));
    assert!(frame.ends_with("\r\n    fpscr=0x00000018 reserved=0x00000019\r\n"));
}

#[test]
fn faults_are_diagnosed() {
    let ram = ram_with(&[]);
    let regs = FaultRegisters {
        cfsr: 0x0000_1000,
        hfsr: 0,
        mmfar: 0,
        bfar: 0,
    };
    let text = shown(fault_diagnose(&ram, 5, 0x2000_0100, 0xffff_fffd, 0, regs, true));
    assert!(text.starts_with("=== 硬件故障 ===\r\n  异常号: 5 (BusFault)\r\n  CFSR 0x00001000: STKERR\r\n"));
    assert!(text.ends_with("  栈状态不可信, 跳过回溯\r\n"));
    let calm = FaultRegisters { cfsr: 0, ..regs };
    let text = shown(fault_diagnose(&ram, 5, 0x2000_0100, 0xffff_fffd, 0, calm, true));
    assert!(text.ends_with("  栈回溯 (0 帧):\r\n"));
}

#[test]
fn panics_show_where_they_occurred() {
    assert_eq!(
        shown(report_context(0, 2, 0x2000_0100, 0)),
        "  上下文: 线程模式 (ipsr=0), PSP=0x20000100\r\n"
    );
    assert_eq!(
        shown(report_context(15, 2, 0, STACK_TOP - 0x1a0)),
        "  上下文: SysTick (ipsr=15), MSP=0x20026e60, 主栈使用=0x1a0 B\r\n"
    );
}

// ---------------------------------------------------------------------------
// Start
// ---------------------------------------------------------------------------

#[test]
fn the_banner_shows_the_system() {
    let build = Build {
        package: "rt-rust",
        version: "0.1.0",
        chip: "HC32F460",
        core: "Cortex-M4F",
        date: "2024-02-29",
        profile: "release",
        compiler: "rustc 1.80",
    };
    let system = System {
        crystal: XtalStatus::Failed,
        clock_hz: 200_000_000,
        ticks_per_sec: 1000,
        priorities: 32,
        idle_priority: 31,
        heap_bytes: 65536,
        ready_threads: 3,
        ready_groups: 0x8000_0005,
    };
    let text = shown(banner::show(&build, &system));
    let lines: Vec<&str> = text.split("\r\n").collect();
    assert_eq!(lines.len(), 19);
    assert_eq!(lines[9], "rt-rust v0.1.0  —  RT-Thread 架构的 Rust RTOS (HC32F460)");
    assert_eq!(
        lines[11],
        "处理器 : Cortex-M4F @ 200 MHz (XTAL failed, fallback MRC)"
    );
    assert_eq!(lines[12], "节拍 : 1 ms (1000 Hz)");
    assert_eq!(lines[13], "优先级 : 32 级 (空闲 = 31)");
    assert_eq!(lines[14], "堆 : 64 KB");
    assert_eq!(lines[16], "构建 : 2024-02-29 [release] rustc 1.80");
    assert_eq!(lines[17], "就绪 : 3 个线程 (位图 0x80000005)");
    assert_eq!(lines[18], "");
    let active = System {
        crystal: XtalStatus::Active,
        ..system
    };
    assert!(shown(banner::show(&build, &active)).contains("@ 200 MHz\r\n"));
}

// ---------------------------------------------------------------------------
// Build
// ---------------------------------------------------------------------------

#[test]
fn build_dates_follow_the_calendar() {
    assert_eq!(unix_to_ymd(0), (1970, 1, 1));
    assert_eq!(unix_to_ymd(86_399), (1970, 1, 1));
    assert_eq!(unix_to_ymd(951_782_400), (2000, 2, 29));
    assert_eq!(unix_to_ymd(951_868_800), (2000, 3, 1));
    assert_eq!(unix_to_ymd(1_709_164_800), (2024, 2, 29));
    assert_eq!(unix_to_ymd(4_107_542_400), (2100, 3, 1));
}

#[test]
fn development_builds_have_all_commands() {
    let none = Features {
        nano: false,
        zmodem: false,
        selftest: false,
        soak: false,
        panic_verbose: false,
        can: false,
    };
    let dev = effective_features(none, false);
    assert!(dev.nano && dev.selftest && dev.soak);
    assert!(!dev.zmodem && !dev.panic_verbose && !dev.can);
    let release = effective_features(none, true);
    assert!(!release.nano && !release.selftest && !release.soak);
    let soak = effective_features(Features { soak: true, ..none }, true);
    assert!(soak.selftest && soak.soak && !soak.nano);
}

#[test]
fn the_guard_of_the_link_script_is_found() {
    let script = "STACK_SIZE = 0x1000;\n  MPU_GUARD_SIZE = 32 ;\r\nMPU_GUARD_SIZE = 64;\n";
    assert_eq!(link_guard_size(script), Some(32));
    assert!(guard_is_consistent(script, 32));
    assert!(!guard_is_consistent(script, 64));
    assert_eq!(link_guard_size("MPU_GUARD_SIZE = 32"), None);
    assert_eq!(link_guard_size("MPU_GUARD_SIZE = 0x20;\nMPU_GUARD_SIZE = 128;"), Some(128));
    assert_eq!(link_guard_size("nothing here"), None);
    assert_eq!(
        link_guard_size("\u{3000}MPU_GUARD_SIZE =\u{a0}256\u{2009};\u{85}"),
        Some(256)
    );
    assert!(!guard_is_consistent("nothing here", 32));
}

// ---------------------------------------------------------------------------
// Configuration
// ---------------------------------------------------------------------------

#[test]
fn numbers_are_parsed() {
    assert_eq!(config::parse_u32("4_294_967_295"), Some(u32::MAX));
    assert_eq!(config::parse_u32("4294967296"), None);
    assert_eq!(config::parse_u32(""), None);
    assert_eq!(config::parse_u32("12a"), None);
    assert_eq!(config::parse_u32_auto("0xDead_bEEF"), Some(0xdead_beef));
    assert_eq!(config::parse_u32_auto("0X10"), Some(16));
    assert_eq!(config::parse_u32_auto("10"), Some(10));
    assert_eq!(config::parse_u32_auto("0x"), None);
    assert_eq!(config::parse_u8("255"), Some(255));
    assert_eq!(config::parse_u8("256"), None);
}

#[test]
fn texts_and_switches_are_parsed() {
    assert!(config::is_printable_ascii("HC32 ~"));
    assert!(!config::is_printable_ascii(""));
    assert!(!config::is_printable_ascii("a\tb"));
    assert!(!config::is_printable_ascii("中"));
    assert!(config::eq_str("ab", "ab") && !config::eq_str("ab", "abc"));
    assert_eq!(config::parse_bool("true"), Some(true));
    assert_eq!(config::parse_bool("false"), Some(false));
    assert_eq!(config::parse_bool("True"), None);
}

#[test]
fn hardware_limits_are_checked() {
    for div in [1u32, 2, 4, 8, 16] {
        assert!(config::assert_div(div));
    }
    assert!(!config::assert_div(0) && !config::assert_div(3) && !config::assert_div(32));
    assert!(config::assert_pll_width(0, 49, 1, 1, 1));
    assert!(!config::assert_pll_width(32, 49, 1, 1, 1));
    assert!(!config::assert_pll_width(0, 18, 1, 1, 1));
    assert!(!config::assert_pll_width(0, 480, 1, 1, 1));
    assert!(!config::assert_pll_width(0, 49, 0, 1, 1));
    assert!(config::assert_pll_range(8_000_000, 0, 49));
    assert!(!config::assert_pll_range(8_000_000, 0, 60));
    assert!(!config::assert_pll_range(8_000_000, 8, 49));
    assert!(config::can_portb_supports_func_group2(6));
    assert!(!config::can_portb_supports_func_group2(11));
    assert!(config::assert_can_filter(0x7ff, 0x1fff_ffff, FilterType::StandardOnly));
    assert!(!config::assert_can_filter(0x800, 0, FilterType::StandardOnly));
    assert!(config::assert_can_filter(0x800, 0, FilterType::ExtendedOnly));
    assert!(!config::assert_can_filter(0, 0x2000_0000, FilterType::StandardAndExtended));
}

#[test]
fn commands_are_listed() {
    assert!(config::cmd_enabled("ls, cat ,rm", "cat"));
    assert!(config::cmd_enabled("ls,cat,rm", "rm"));
    assert!(!config::cmd_enabled("ls,cat,rm", "c"));
    assert!(!config::cmd_enabled("ls cat", "ls"));
    assert!(!config::cmd_enabled("", "ls"));
}
