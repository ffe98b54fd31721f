//! What is reported when the firmware fails: the exception, the fault registers, the
//! frame on the stack and the calls that led to it.
//!
//! The reports are text. They are built from register values and from `ram`, the
//! words of the memory in which the stacks lie.

use vstd::prelude::*;
use vstd::string::StringSliceAdditionalSpecFns;

use crate::exception_frame;
use crate::text;

verus! {

/// What happens after the report.
#[derive(Clone, Copy, PartialEq, Eq, Structural)]
pub enum PanicStrategy {
    /// Wait for a reset or a debugger.
    Halt,
    /// Start over.
    Reset,
}

/// Where the memory of the stacks begins.
pub const STACK_BOTTOM: u32 = 0x1fff_8000;

/// Where it ends.
pub const STACK_TOP: u32 = 0x2002_7000;

/// The words between the two.
pub const STACK_WORDS: usize = 0xbc00;

/// The size of the flash, which holds the code.
pub const FLASH_SIZE: u32 = 0x8_0000;

/// Calls that are reported at most.
pub const MAX_BACKTRACE_FRAMES: usize = 16;

/// Bits of the fault status that say that the frame on the stack cannot be trusted.
const UNRELIABLE_STACK: u32 = 0x3838;

/// The address of a faulting access is known.
const MMAR_VALID: u32 = 0x80;

/// The address of a faulting bus access is known.
const BFAR_VALID: u32 = 0x8000;

/// The fault registers.
#[derive(Clone, Copy, PartialEq, Eq, Debug, Structural)]
pub struct FaultRegisters {
    pub cfsr: u32,
    pub hfsr: u32,
    pub mmfar: u32,
    pub bfar: u32,
}

/// The name of an exception.
pub open spec fn name_of(n: u32) -> Seq<u8> {
    if n == 0 {
        "线程模式".spec_bytes()
    } else if n == 2 {
        "NMI".spec_bytes()
    } else if n == 3 {
        "HardFault".spec_bytes()
    } else if n == 4 {
        "MemManage".spec_bytes()
    } else if n == 5 {
        "BusFault".spec_bytes()
    } else if n == 6 {
        "UsageFault".spec_bytes()
    } else if n == 11 {
        "SVCall".spec_bytes()
    } else if n == 12 {
        "DebugMonitor".spec_bytes()
    } else if n == 14 {
        "PendSV".spec_bytes()
    } else if n == 15 {
        "SysTick".spec_bytes()
    } else if 16 <= n <= 159 {
        "外部中断".spec_bytes()
    } else {
        "未知".spec_bytes()
    }
}

/// The name of an exception.
pub fn exception_name(n: u32) -> (r: &'static str)
    ensures
        r.spec_bytes() == name_of(n),
{
    if n == 0 {
        "线程模式"
    } else if n == 2 {
        "NMI"
    } else if n == 3 {
        "HardFault"
    } else if n == 4 {
        "MemManage"
    } else if n == 5 {
        "BusFault"
    } else if n == 6 {
        "UsageFault"
    } else if n == 11 {
        "SVCall"
    } else if n == 12 {
        "DebugMonitor"
    } else if n == 14 {
        "PendSV"
    } else if n == 15 {
        "SysTick"
    } else if 16 <= n && n <= 159 {
        "外部中断"
    } else {
        "未知"
    }
}

/// Whether the processor can have left this value to return from an exception.
pub fn valid_exc_return(value: u32) -> (r: bool)
    ensures
        r == (value == 0xffff_fff1 || value == 0xffff_fff9 || value == 0xffff_fffd || value
            == 0xffff_ffe1 || value == 0xffff_ffe9 || value == 0xffff_ffed),
{
    value == 0xffff_fff1 || value == 0xffff_fff9 || value == 0xffff_fffd || value == 0xffff_ffe1
        || value == 0xffff_ffe9 || value == 0xffff_ffed
}

/// The bytes from an address on lie in the memory of the stacks, word by word.
pub open spec fn readable(addr: int, bytes: int) -> bool {
    addr % 4 == 0 && STACK_BOTTOM <= addr && addr + bytes <= STACK_TOP
}

/// Whether the bytes from an address on can be read from a stack.
pub fn stack_range_is_readable(addr: u32, bytes: u32) -> (r: bool)
    ensures
        r == readable(addr as int, bytes as int),
{
    addr % 4 == 0 && addr >= STACK_BOTTOM && addr <= STACK_TOP && bytes <= STACK_TOP - addr
}

/// The word at an address.
pub open spec fn word_at(ram: Seq<u32>, addr: int) -> u32 {
    ram[(addr - STACK_BOTTOM) / 4]
}

/// The address of an instruction in the flash.
pub open spec fn is_return(pc: u32) -> bool {
    pc % 2 == 1 && pc - 1 < FLASH_SIZE
}

/// The return addresses found along the chain of frames that starts at `fp`. Each
/// frame has the address of the next one, which must lie higher, and a return
/// address.
pub open spec fn chain(ram: Seq<u32>, fp: int, max: nat) -> Seq<u32>
    decreases max,
{
    if max == 0 || !readable(fp, 8) || !is_return(word_at(ram, fp + 4)) {
        Seq::empty()
    } else {
        let next = word_at(ram, fp);
        seq![word_at(ram, fp + 4)] + (if next <= fp {
            Seq::empty()
        } else {
            chain(ram, next as int, (max - 1) as nat)
        })
    }
}

/// The return addresses along a chain of frames, `max` at most.
pub fn stack_backtrace(ram: &[u32], fp: u32, max: usize) -> (r: Vec<u32>)
    requires
        ram@.len() == STACK_WORDS,
    ensures
        r@ == chain(ram@, fp as int, max as nat),
{
    let mut frames: Vec<u32> = Vec::new();
    let mut at: u32 = fp;
    let mut left: usize = max;
    let ghost whole = chain(ram@, fp as int, max as nat);
    assert(frames@ + whole =~= whole);
    while left > 0
        invariant
            ram@.len() == STACK_WORDS,
            whole == chain(ram@, fp as int, max as nat),
            whole == frames@ + chain(ram@, at as int, left as nat),
        decreases left,
    {
        if !stack_range_is_readable(at, 8) {
            assert(frames@ + Seq::<u32>::empty() =~= frames@);
            return frames;
        }
        let index: usize = ((at - STACK_BOTTOM) / 4) as usize;
        let next: u32 = ram[index];
        let pc: u32 = ram[index + 1];
        if pc % 2 == 0 || pc - 1 >= FLASH_SIZE {
            assert(frames@ + Seq::<u32>::empty() =~= frames@);
            return frames;
        }
        let ghost before = frames@;
        frames.push(pc);
        if next <= at {
            assert(before + (seq![pc] + Seq::<u32>::empty()) =~= frames@);
            return frames;
        }
        assert(before + (seq![pc] + chain(ram@, next as int, (left - 1) as nat)) =~= frames@
            + chain(ram@, next as int, (left - 1) as nat));
        at = next;
        left -= 1;
    }
    assert(frames@ + Seq::<u32>::empty() =~= frames@);
    frames
}

/// A backtrace ends, whatever the memory holds, and gives only addresses of
/// instructions in the flash.
pub proof fn law_backtraces_are_sound(ram: Seq<u32>, fp: int, max: nat)
    ensures
        chain(ram, fp, max).len() <= max,
        forall|i: int|
            0 <= i < chain(ram, fp, max).len() ==> is_return(#[trigger] chain(ram, fp, max)[i]),
    decreases max,
{
    if max > 0 && readable(fp, 8) && is_return(word_at(ram, fp + 4)) {
        let next = word_at(ram, fp) as int;
        law_backtraces_are_sound(ram, next, (max - 1) as nat);
        let rest = chain(ram, next, (max - 1) as nat);
        assert forall|i: int| 0 <= i < chain(ram, fp, max).len() implies is_return(
            #[trigger] chain(ram, fp, max)[i],
        ) by {
            if i > 0 {
                assert(chain(ram, fp, max)[i] == rest[i - 1]);
            }
        }
    }
}

/// At an address of the stacks stand the address of the frame of the caller and the
/// return address, which is odd and lies in the flash.
pub open spec fn is_frame(ram: Seq<u32>, at: int, caller: int, pc: u32) -> bool {
    &&& at % 4 == 0
    &&& 0x1fff_8000 <= at <= 0x2002_6ff8
    &&& ram[(at - 0x1fff_8000) / 4] == caller
    &&& ram[(at - 0x1fff_8000) / 4 + 1] == pc
    &&& pc % 2 == 1
    &&& pc < 0x8_0000
}

/// The return addresses of frames that are linked from each caller to its own caller,
/// upwards in memory, are found in that order up to the number asked for. A link that does
/// not lead upwards to a frame ends the search.
pub proof fn law_linked_frames_are_traced(
    ram: &[u32],
    max: usize,
    at: Seq<u32>,
    pcs: Seq<u32>,
    r: Vec<u32>,
)
    requires
        at.len() == pcs.len() + 1,
        forall|i: int|
            0 <= i < pcs.len() ==> #[trigger] is_frame(ram@, at[i] as int, at[i + 1] as int, pcs[i]),
        forall|i: int, j: int| 0 <= i && i + 1 == j < pcs.len() ==> #[trigger] at[i] < #[trigger] at[j],
        pcs.len() > 0 && at[pcs.len() as int] <= at[pcs.len() - 1] || forall|caller: int, pc: u32|
            !#[trigger] is_frame(ram@, at[pcs.len() as int] as int, caller, pc),
        call_ensures(stack_backtrace, (ram, at[0], max), r),
    ensures
        r@ == pcs.take(if pcs.len() <= max {
            pcs.len() as int
        } else {
            max as int
        }),
{
    lemma_linked(ram@, max as nat, at, pcs, 0);
    let n = if pcs.len() <= max {
        pcs.len() as int
    } else {
        max as int
    };
    assert(pcs.subrange(0, n) =~= pcs.take(n));
}

proof fn lemma_linked(ram: Seq<u32>, max: nat, at: Seq<u32>, pcs: Seq<u32>, k: int)
    requires
        0 <= k <= pcs.len(),
        at.len() == pcs.len() + 1,
        forall|i: int|
            0 <= i < pcs.len() ==> #[trigger] is_frame(ram, at[i] as int, at[i + 1] as int, pcs[i]),
        forall|i: int, j: int| 0 <= i && i + 1 == j < pcs.len() ==> #[trigger] at[i] < #[trigger] at[j],
        pcs.len() > 0 && at[pcs.len() as int] <= at[pcs.len() - 1] || forall|caller: int, pc: u32|
            !#[trigger] is_frame(ram, at[pcs.len() as int] as int, caller, pc),
        k == pcs.len() ==> k == 0 || at[k] > at[k - 1],
    ensures
        chain(ram, at[k] as int, max) == pcs.subrange(
            k,
            if pcs.len() <= k + max {
                pcs.len() as int
            } else {
                k + max
            },
        ),
    decreases max,
{
    let n = pcs.len() as int;
    let fp = at[k] as int;
    let end = if n <= k + max {
        n
    } else {
        k + max
    };
    let rest = pcs.subrange(k, end);
    if k == n {
        if readable(fp, 8) && is_return(word_at(ram, fp + 4)) {
            assert((fp + 4 - 0x1fff_8000) / 4 == (fp - 0x1fff_8000) / 4 + 1);
            assert(is_frame(ram, fp, word_at(ram, fp) as int, word_at(ram, fp + 4)));
        }
        assert(rest =~= Seq::empty());
    } else if max == 0 {
        assert(rest =~= Seq::empty());
    } else {
        assert(is_frame(ram, at[k] as int, at[k + 1] as int, pcs[k]));
        assert((fp + 4 - 0x1fff_8000) / 4 == (fp - 0x1fff_8000) / 4 + 1);
        assert(word_at(ram, fp + 4) == pcs[k]);
        let next = at[k + 1];
        if next <= fp {
            assert(k + 1 == n);
            assert(rest =~= seq![pcs[k]] + Seq::<u32>::empty());
        } else {
            lemma_linked(ram, (max - 1) as nat, at, pcs, k + 1);
            assert(rest =~= seq![pcs[k]] + pcs.subrange(k + 1, end));
        }
    }
}

// ---------------------------------------------------------------------------
// Reports
// ---------------------------------------------------------------------------

/// A label and a register behind it.
fn push_register(out: &mut Vec<u8>, label: &str, value: u32)
    ensures
        final(out)@ == old(out)@ + label.spec_bytes() + text::hex_fixed(value as int, 8),
{
    text::push_bytes(out, label.as_bytes());
    text::push_hex8(out, value);
}

/// The calls that led to a place, one line for each of the first `n`.
pub open spec fn calls_text(frames: Seq<u32>, n: int) -> Seq<u8>
    decreases n,
{
    if n <= 0 {
        Seq::empty()
    } else {
        calls_text(frames, n - 1) + "    #".spec_bytes() + text::decimal(n - 1) + " 0x".spec_bytes()
            + text::hex_fixed(frames[n - 1] as int, 8) + "\r\n".spec_bytes()
    }
}

/// The report of the calls.
pub open spec fn backtrace_text(frames: Seq<u32>) -> Seq<u8> {
    "  栈回溯 (".spec_bytes() + text::decimal(frames.len() as int) + " 帧):\r\n".spec_bytes()
        + calls_text(frames, frames.len() as int)
}

/// Report the calls that led to the frame at `fp`.
pub fn report_backtrace(ram: &[u32], fp: u32) -> (r: Vec<u8>)
    requires
        ram@.len() == STACK_WORDS,
    ensures
        r@ == backtrace_text(chain(ram@, fp as int, MAX_BACKTRACE_FRAMES as nat)),
{
    let frames: Vec<u32> = stack_backtrace(ram, fp, MAX_BACKTRACE_FRAMES);
    let mut out: Vec<u8> = Vec::new();
    text::push_bytes(&mut out, "  栈回溯 (".as_bytes());
    text::push_decimal(&mut out, frames.len() as u64);
    text::push_bytes(&mut out, " 帧):\r\n".as_bytes());
    let ghost head = out@;
    let mut i: usize = 0;
    assert(head + calls_text(frames@, 0) =~= head);
    while i < frames.len()
        invariant
            i <= frames@.len(),
            out@ == head + calls_text(frames@, i as int),
        decreases frames@.len() - i,
    {
        text::push_bytes(&mut out, "    #".as_bytes());
        text::push_decimal(&mut out, i as u64);
        push_register(&mut out, " 0x", frames[i]);
        text::push_bytes(&mut out, "\r\n".as_bytes());
        assert(out@ =~= head + calls_text(frames@, i + 1));
        i += 1;
    }
    assert(out@ =~= backtrace_text(frames@));
    out
}

/// The causes in the fault status, by position: the bit and its name.
pub open spec fn cause(i: int) -> (u32, Seq<u8>) {
    if i == 0 {
        (0x1, " IACCVIOL".spec_bytes())
    } else if i == 1 {
        (0x2, " DACCVIOL".spec_bytes())
    } else if i == 2 {
        (0x8, " MUNSTKERR".spec_bytes())
    } else if i == 3 {
        (0x10, " MSTKERR".spec_bytes())
    } else if i == 4 {
        (0x20, " MLSPERR".spec_bytes())
    } else if i == 5 {
        (0x100, " IBUSERR".spec_bytes())
    } else if i == 6 {
        (0x200, " PRECISERR".spec_bytes())
    } else if i == 7 {
        (0x400, " IMPRECISERR".spec_bytes())
    } else if i == 8 {
        (0x800, " UNSTKERR".spec_bytes())
    } else if i == 9 {
        (0x1000, " STKERR".spec_bytes())
    } else if i == 10 {
        (0x2000, " LSPERR".spec_bytes())
    } else if i == 11 {
        (0x1_0000, " UNDEFINSTR".spec_bytes())
    } else if i == 12 {
        (0x2_0000, " INVSTATE".spec_bytes())
    } else {
        (0x4_0000, " INVPC".spec_bytes())
    }
}

/// The causes in the hard fault status.
pub open spec fn hard_cause(i: int) -> (u32, Seq<u8>) {
    if i == 0 {
        (0x2, " VECTTBL".spec_bytes())
    } else if i == 1 {
        (0x4000_0000, " FORCED".spec_bytes())
    } else {
        (0x8000_0000, " DEBUGEVT".spec_bytes())
    }
}

/// The names of the first `n` causes that a status holds.
pub open spec fn causes_text(status: u32, hard: bool, n: int) -> Seq<u8>
    decreases n,
{
    if n <= 0 {
        Seq::empty()
    } else {
        let (bit, name) = if hard {
            hard_cause(n - 1)
        } else {
            cause(n - 1)
        };
        causes_text(status, hard, n - 1) + (if status & bit != 0 {
            name
        } else {
            Seq::empty()
        })
    }
}

fn cause_of(i: usize) -> (r: (u32, &'static str))
    ensures
        r.0 == cause(i as int).0,
        r.1.spec_bytes() == cause(i as int).1,
{
    match i {
        0 => (0x1, " IACCVIOL"),
        1 => (0x2, " DACCVIOL"),
        2 => (0x8, " MUNSTKERR"),
        3 => (0x10, " MSTKERR"),
        4 => (0x20, " MLSPERR"),
        5 => (0x100, " IBUSERR"),
        6 => (0x200, " PRECISERR"),
        7 => (0x400, " IMPRECISERR"),
        8 => (0x800, " UNSTKERR"),
        9 => (0x1000, " STKERR"),
        10 => (0x2000, " LSPERR"),
        11 => (0x1_0000, " UNDEFINSTR"),
        12 => (0x2_0000, " INVSTATE"),
        _ => (0x4_0000, " INVPC"),
    }
}

fn hard_cause_of(i: usize) -> (r: (u32, &'static str))
    ensures
        r.0 == hard_cause(i as int).0,
        r.1.spec_bytes() == hard_cause(i as int).1,
{
    match i {
        0 => (0x2, " VECTTBL"),
        1 => (0x4000_0000, " FORCED"),
        _ => (0x8000_0000, " DEBUGEVT"),
    }
}

fn push_causes(out: &mut Vec<u8>, status: u32, hard: bool, n: usize)
    ensures
        final(out)@ == old(out)@ + causes_text(status, hard, n as int),
{
    let ghost before = out@;
    let mut i: usize = 0;
    assert(before + causes_text(status, hard, 0) =~= before);
    while i < n
        invariant
            i <= n,
            out@ == before + causes_text(status, hard, i as int),
        decreases n - i,
    {
        let (bit, name) = if hard {
            hard_cause_of(i)
        } else {
            cause_of(i)
        };
        if status & bit != 0 {
            text::push_bytes(out, name.as_bytes());
        }
        assert(out@ =~= before + causes_text(status, hard, i + 1));
        i += 1;
    }
}

/// The report of the fault registers; the names of the causes are given on demand,
/// and an address only where it is known.
pub open spec fn registers_text(regs: FaultRegisters, verbose: bool) -> Seq<u8> {
    let start = "  CFSR 0x".spec_bytes() + text::hex_fixed(regs.cfsr as int, 8) + ":".spec_bytes()
        + (if verbose {
        causes_text(regs.cfsr, false, 14)
    } else {
        Seq::empty()
    }) + "\r\n  HFSR 0x".spec_bytes() + text::hex_fixed(regs.hfsr as int, 8) + ":".spec_bytes() + (
    if verbose {
        causes_text(regs.hfsr, true, 3)
    } else {
        Seq::empty()
    }) + "\r\n".spec_bytes();
    let access = if regs.cfsr & 0x80 != 0 {
        start + "  MMFAR 0x".spec_bytes() + text::hex_fixed(regs.mmfar as int, 8)
            + "\r\n".spec_bytes()
    } else {
        start
    };
    if regs.cfsr & 0x8000 != 0 {
        access + "  BFAR 0x".spec_bytes() + text::hex_fixed(regs.bfar as int, 8)
            + "\r\n".spec_bytes()
    } else {
        access
    }
}

/// Report the fault registers.
pub fn report_fault_registers(regs: FaultRegisters, verbose: bool) -> (r: Vec<u8>)
    ensures
        r@ == registers_text(regs, verbose),
{
    let mut out: Vec<u8> = Vec::new();
    push_register(&mut out, "  CFSR 0x", regs.cfsr);
    assert(out@ =~= "  CFSR 0x".spec_bytes() + text::hex_fixed(regs.cfsr as int, 8));
    text::push_bytes(&mut out, ":".as_bytes());
    if verbose {
        push_causes(&mut out, regs.cfsr, false, 14);
    } else {
        assert(out@ + Seq::<u8>::empty() =~= out@);
    }
    push_register(&mut out, "\r\n  HFSR 0x", regs.hfsr);
    text::push_bytes(&mut out, ":".as_bytes());
    if verbose {
        push_causes(&mut out, regs.hfsr, true, 3);
    } else {
        assert(out@ + Seq::<u8>::empty() =~= out@);
    }
    text::push_bytes(&mut out, "\r\n".as_bytes());
    if regs.cfsr & MMAR_VALID != 0 {
        push_register(&mut out, "  MMFAR 0x", regs.mmfar);
        text::push_bytes(&mut out, "\r\n".as_bytes());
    }
    if regs.cfsr & BFAR_VALID != 0 {
        push_register(&mut out, "  BFAR 0x", regs.bfar);
        text::push_bytes(&mut out, "\r\n".as_bytes());
    }
    out
}

/// What stands before each register of a frame.
pub open spec fn register_label(i: int) -> Seq<u8> {
    if i == 0 {
        "    r0=0x".spec_bytes()
    } else if i == 1 {
        " r1=0x".spec_bytes()
    } else if i == 2 {
        " r2=0x".spec_bytes()
    } else if i == 3 {
        " r3=0x".spec_bytes()
    } else if i == 4 {
        "\r\n    r12=0x".spec_bytes()
    } else if i == 5 {
        " lr=0x".spec_bytes()
    } else if i == 6 {
        " pc=0x".spec_bytes()
    } else if i == 7 {
        " xpsr=0x".spec_bytes()
    } else if i == 8 {
        "\r\n    s0 =0x".spec_bytes()
    } else if i == 9 {
        " s1 =0x".spec_bytes()
    } else if i == 10 {
        " s2 =0x".spec_bytes()
    } else if i == 11 {
        " s3 =0x".spec_bytes()
    } else if i == 12 {
        "\r\n    s4 =0x".spec_bytes()
    } else if i == 13 {
        " s5 =0x".spec_bytes()
    } else if i == 14 {
        " s6 =0x".spec_bytes()
    } else if i == 15 {
        " s7 =0x".spec_bytes()
    } else if i == 16 {
        "\r\n    s8 =0x".spec_bytes()
    } else if i == 17 {
        " s9 =0x".spec_bytes()
    } else if i == 18 {
        " s10=0x".spec_bytes()
    } else if i == 19 {
        " s11=0x".spec_bytes()
    } else if i == 20 {
        "\r\n    s12=0x".spec_bytes()
    } else if i == 21 {
        " s13=0x".spec_bytes()
    } else if i == 22 {
        " s14=0x".spec_bytes()
    } else if i == 23 {
        " s15=0x".spec_bytes()
    } else if i == 24 {
        "\r\n    fpscr=0x".spec_bytes()
    } else {
        " reserved=0x".spec_bytes()
    }
}

fn register_name(i: usize) -> (r: &'static str)
    ensures
        r.spec_bytes() == register_label(i as int),
{
    match i {
        0 => "    r0=0x",
        1 => " r1=0x",
        2 => " r2=0x",
        3 => " r3=0x",
        4 => "\r\n    r12=0x",
        5 => " lr=0x",
        6 => " pc=0x",
        7 => " xpsr=0x",
        8 => "\r\n    s0 =0x",
        9 => " s1 =0x",
        10 => " s2 =0x",
        11 => " s3 =0x",
        12 => "\r\n    s4 =0x",
        13 => " s5 =0x",
        14 => " s6 =0x",
        15 => " s7 =0x",
        16 => "\r\n    s8 =0x",
        17 => " s9 =0x",
        18 => " s10=0x",
        19 => " s11=0x",
        20 => "\r\n    s12=0x",
        21 => " s13=0x",
        22 => " s14=0x",
        23 => " s15=0x",
        24 => "\r\n    fpscr=0x",
        _ => " reserved=0x",
    }
}

/// The first `n` registers of a frame.
pub open spec fn frame_registers(words: Seq<u32>, n: int) -> Seq<u8>
    decreases n,
{
    if n <= 0 {
        Seq::empty()
    } else {
        frame_registers(words, n - 1) + register_label(n - 1) + text::hex_fixed(
            words[n - 1] as int,
            8,
        )
    }
}

fn push_frame_registers(
    out: &mut Vec<u8>,
    values: &[u32],
    first: usize,
    Ghost(words): Ghost<Seq<u32>>,
)
    requires
        first + values@.len() <= 26,
        words.len() >= first + values@.len(),
        forall|i: int| 0 <= i < values@.len() ==> #[trigger] values@[i] == words[first + i],
    ensures
        forall|head: Seq<u8>|
            old(out)@ == #[trigger] (head + frame_registers(words, first as int)) ==> final(out)@
                == head + frame_registers(words, first + values@.len()),
{
    let ghost before = out@;
    let mut i: usize = 0;
    while i < values.len()
        invariant
            i <= values@.len(),
            first + values@.len() <= 26,
            words.len() >= first + values@.len(),
            forall|j: int| 0 <= j < values@.len() ==> #[trigger] values@[j] == words[first + j],
            forall|head: Seq<u8>|
                before == #[trigger] (head + frame_registers(words, first as int)) ==> out@ == head
                    + frame_registers(words, first + i),
        decreases values@.len() - i,
    {
        let ghost mid = out@;
        push_register(out, register_name(first + i), values[i]);
        assert forall|head: Seq<u8>|
            before == #[trigger] (head + frame_registers(words, first as int)) implies out@ == head
            + frame_registers(words, first + i + 1) by {
            assert(mid == head + frame_registers(words, first + i));
            assert(values@[i as int] == words[first + i]);
            assert(frame_registers(words, first + i + 1) == frame_registers(words, first + i)
                + register_label(first + i) + text::hex_fixed(words[first + i] as int, 8));
            assert(out@ =~= head + frame_registers(words, first + i + 1));
        }
        i += 1;
    }
}

/// The words of a frame on the stack.
pub open spec fn frame_words(ram: Seq<u32>, stacked_sp: u32, extended: bool) -> Seq<u32> {
    let at = (stacked_sp - STACK_BOTTOM) / 4;
    ram.subrange(
        at,
        at + (if extended {
            26int
        } else {
            8
        }),
    )
}

/// The words of a frame are those of the memory from the stack pointer on, in their order:
/// eight of them, and eighteen more with the floating-point context.
pub proof fn law_frames_start_at_the_stack_pointer(
    ram: Seq<u32>,
    stacked_sp: u32,
    extended: bool,
    i: int,
)
    requires
        stacked_sp % 4 == 0,
        0x1fff_8000 <= stacked_sp,
        stacked_sp + 4 * (if extended {
            26int
        } else {
            8
        }) <= 0x2002_7000,
        ram.len() == 0xbc00,
        0 <= i < frame_words(ram, stacked_sp, extended).len(),
    ensures
        frame_words(ram, stacked_sp, extended).len() == if extended {
            26int
        } else {
            8
        },
        frame_words(ram, stacked_sp, extended)[i] == ram[(stacked_sp + 4 * i - 0x1fff_8000) / 4],
{
    assert((stacked_sp + 4 * i - 0x1fff_8000) / 4 == (stacked_sp - 0x1fff_8000) / 4 + i);
}

/// The report of the frame that an exception left on the stack.
pub open spec fn frame_text(ram: Seq<u32>, stacked_sp: u32, exc_return: u32, cfsr: u32) -> Seq<u8> {
    let head = "  EXC_RETURN=0x".spec_bytes() + text::hex_fixed(exc_return as int, 8)
        + ", 原始栈指针=0x".spec_bytes() + text::hex_fixed(stacked_sp as int, 8)
        + "\r\n".spec_bytes();
    let valid = exc_return == 0xffff_fff1 || exc_return == 0xffff_fff9 || exc_return == 0xffff_fffd
        || exc_return == 0xffff_ffe1 || exc_return == 0xffff_ffe9 || exc_return == 0xffff_ffed;
    let extended = exc_return & 0x10 == 0;
    let count = if extended {
        26int
    } else {
        8
    };
    if !valid {
        head + "  EXC_RETURN 非法, 跳过异常帧\r\n".spec_bytes()
    } else if cfsr & 0x3838 != 0 {
        head + "  CFSR 栈状态不可信, 跳过异常帧\r\n".spec_bytes()
    } else if !readable(stacked_sp as int, 4 * count) {
        head + "  异常帧范围无效/未对齐, 跳过\r\n".spec_bytes()
    } else {
        head + "  异常帧 @0x".spec_bytes() + text::hex_fixed(stacked_sp as int, 8)
            + " (".spec_bytes() + (if exc_return & 0x4 != 0 {
            "PSP".spec_bytes()
        } else {
            "MSP".spec_bytes()
        }) + "，".spec_bytes() + (if extended {
            "extended FP".spec_bytes()
        } else {
            "basic".spec_bytes()
        }) + "):\r\n".spec_bytes() + frame_registers(
            frame_words(ram, stacked_sp, extended),
            count,
        ) + "\r\n".spec_bytes()
    }
}

/// Report the frame that an exception left on the stack.
pub fn report_exception_frame(ram: &[u32], stacked_sp: u32, exc_return: u32, cfsr: u32) -> (r: Vec<
    u8,
>)
    requires
        ram@.len() == STACK_WORDS,
    ensures
        r@ == frame_text(ram@, stacked_sp, exc_return, cfsr),
{
    let mut out: Vec<u8> = Vec::new();
    push_register(&mut out, "  EXC_RETURN=0x", exc_return);
    assert(out@ =~= "  EXC_RETURN=0x".spec_bytes() + text::hex_fixed(exc_return as int, 8));
    push_register(&mut out, ", 原始栈指针=0x", stacked_sp);
    text::push_bytes(&mut out, "\r\n".as_bytes());
    if !valid_exc_return(exc_return) {
        text::push_bytes(&mut out, "  EXC_RETURN 非法, 跳过异常帧\r\n".as_bytes());
        return out;
    }
    if cfsr & UNRELIABLE_STACK != 0 {
        text::push_bytes(&mut out, "  CFSR 栈状态不可信, 跳过异常帧\r\n".as_bytes());
        return out;
    }
    let extended: bool = exc_return & 0x10 == 0;
    let bytes: u32 = if extended {
        104
    } else {
        32
    };
    if !stack_range_is_readable(stacked_sp, bytes) {
        text::push_bytes(&mut out, "  异常帧范围无效/未对齐, 跳过\r\n".as_bytes());
        return out;
    }
    let at: usize = ((stacked_sp - STACK_BOTTOM) / 4) as usize;
    let count: usize = if extended {
        26
    } else {
        8
    };
    let ghost words = frame_words(ram@, stacked_sp, extended);
    let pushed: &[u32] = &ram[at..at + count];
    assert(pushed@ == words);
    if let Some(frame) = exception_frame::try_decode(pushed, extended) {
        push_register(&mut out, "  异常帧 @0x", stacked_sp);
        text::push_bytes(&mut out, " (".as_bytes());
        text::push_bytes(
            &mut out,
            (if exc_return & 0x4 != 0 {
                "PSP"
            } else {
                "MSP"
            }).as_bytes(),
        );
        text::push_bytes(&mut out, "，".as_bytes());
        text::push_bytes(
            &mut out,
            (if extended {
                "extended FP"
            } else {
                "basic"
            }).as_bytes(),
        );
        text::push_bytes(&mut out, "):\r\n".as_bytes());
        let ghost head = out@;
        assert(head + frame_registers(words, 0) =~= head);
        let basic: &[u32] = frame.basic;
        assert forall|i: int| 0 <= i < 8 implies #[trigger] basic@[i] == words[0 + i] by {}
        push_frame_registers(&mut out, basic, 0, Ghost(words));
        assert(out@ == head + frame_registers(words, 8));
        if let Some(fp) = frame.fp {
            let fp: &[u32] = fp;
            assert forall|i: int| 0 <= i < 18 implies #[trigger] fp@[i] == words[8 + i] by {}
            push_frame_registers(&mut out, fp, 8, Ghost(words));
            assert(out@ == head + frame_registers(words, 26));
        }
        text::push_bytes(&mut out, "\r\n".as_bytes());
    }
    out
}

/// The report of a fault: the exception, the registers, the frame, and the calls,
/// unless the stack cannot be trusted.
pub open spec fn fault_text(
    ram: Seq<u32>,
    ipsr: u32,
    stacked_sp: u32,
    exc_return: u32,
    fp: u32,
    regs: FaultRegisters,
    verbose: bool,
) -> Seq<u8> {
    "=== 硬件故障 ===\r\n  异常号: ".spec_bytes() + text::decimal(ipsr as int) + " (".spec_bytes()
        + name_of(ipsr) + ")\r\n".spec_bytes() + registers_text(regs, verbose) + frame_text(
        ram,
        stacked_sp,
        exc_return,
        regs.cfsr,
    ) + (if regs.cfsr & 0x3838 != 0 {
        "  栈状态不可信, 跳过回溯\r\n".spec_bytes()
    } else {
        backtrace_text(chain(ram, fp as int, 16))
    })
}

/// Report a fault.
pub fn fault_diagnose(
    ram: &[u32],
    ipsr: u32,
    stacked_sp: u32,
    exc_return: u32,
    fp: u32,
    regs: FaultRegisters,
    verbose: bool,
) -> (r: Vec<u8>)
    requires
        ram@.len() == STACK_WORDS,
    ensures
        r@ == fault_text(ram@, ipsr, stacked_sp, exc_return, fp, regs, verbose),
{
    let mut out: Vec<u8> = Vec::new();
    text::push_bytes(&mut out, "=== 硬件故障 ===\r\n  异常号: ".as_bytes());
    assert(out@ =~= "=== 硬件故障 ===\r\n  异常号: ".spec_bytes());
    text::push_decimal(&mut out, ipsr as u64);
    text::push_bytes(&mut out, " (".as_bytes());
    text::push_bytes(&mut out, exception_name(ipsr).as_bytes());
    text::push_bytes(&mut out, ")\r\n".as_bytes());
    let mut registers: Vec<u8> = report_fault_registers(regs, verbose);
    let mut frame: Vec<u8> = report_exception_frame(ram, stacked_sp, exc_return, regs.cfsr);
    out.append(&mut registers);
    out.append(&mut frame);
    if regs.cfsr & UNRELIABLE_STACK != 0 {
        text::push_bytes(&mut out, "  栈状态不可信, 跳过回溯\r\n".as_bytes());
    } else {
        let mut calls: Vec<u8> = report_backtrace(ram, fp);
        out.append(&mut calls);
    }
    out
}

/// The report of the state in which a panic occurred: the exception being served,
/// the stack pointer in use, and how much of the main stack is used.
pub open spec fn context_text(ipsr: u32, control: u32, psp: u32, msp: u32) -> Seq<u8> {
    let head = "  上下文: ".spec_bytes() + name_of(ipsr) + " (ipsr=".spec_bytes() + text::decimal(
        ipsr as int,
    );
    if ipsr == 0 && control & 0x2 != 0 {
        head + "), PSP=0x".spec_bytes() + text::hex_fixed(psp as int, 8) + "\r\n".spec_bytes()
    } else {
        head + "), MSP=0x".spec_bytes() + text::hex_fixed(msp as int, 8)
            + ", 主栈使用=0x".spec_bytes() + text::hex(
            if msp <= STACK_TOP {
                STACK_TOP - msp
            } else {
                0
            },
        ) + " B\r\n".spec_bytes()
    }
}

/// Report the state in which a panic occurred.
pub fn report_context(ipsr: u32, control: u32, psp: u32, msp: u32) -> (r: Vec<u8>)
    ensures
        r@ == context_text(ipsr, control, psp, msp),
{
    let mut out: Vec<u8> = Vec::new();
    text::push_bytes(&mut out, "  上下文: ".as_bytes());
    assert(out@ =~= "  上下文: ".spec_bytes());
    text::push_bytes(&mut out, exception_name(ipsr).as_bytes());
    text::push_bytes(&mut out, " (ipsr=".as_bytes());
    text::push_decimal(&mut out, ipsr as u64);
    if ipsr == 0 && control & 0x2 != 0 {
        push_register(&mut out, "), PSP=0x", psp);
        text::push_bytes(&mut out, "\r\n".as_bytes());
    } else {
        push_register(&mut out, "), MSP=0x", msp);
        text::push_bytes(&mut out, ", 主栈使用=0x".as_bytes());
        text::push_hex(&mut out, if msp <= STACK_TOP { STACK_TOP - msp } else { 0 });
        text::push_bytes(&mut out, " B\r\n".as_bytes());
    }
    out
}

} // verus!
