//! What the firmware shows when it starts: a title and a panel with the state of the
//! system.

use vstd::prelude::*;
use vstd::string::StringSliceAdditionalSpecFns;

use crate::clk::XtalStatus;
use crate::text;

verus! {

/// Names that are fixed when the firmware is built.
pub struct Build<'a> {
    pub package: &'a str,
    pub version: &'a str,
    pub chip: &'a str,
    pub core: &'a str,
    pub date: &'a str,
    pub profile: &'a str,
    pub compiler: &'a str,
}

/// The state of the system when it starts.
#[derive(Clone, Copy, PartialEq, Eq, Debug, Structural)]
pub struct System {
    pub crystal: XtalStatus,
    pub clock_hz: u32,
    pub ticks_per_sec: u32,
    pub priorities: u32,
    pub idle_priority: u32,
    pub heap_bytes: usize,
    pub ready_threads: u32,
    pub ready_groups: u32,
}

/// Lines, each with its end.
pub open spec fn lines_text(lines: Seq<Seq<u8>>) -> Seq<u8>
    decreases lines.len(),
{
    if lines.len() == 0 {
        Seq::empty()
    } else {
        lines_text(lines.drop_last()) + lines.last() + seq![0x0du8, 0x0a]
    }
}

/// The lines of the title.
pub open spec fn title(i: int) -> Seq<u8> {
    if i == 0 {
        "ooooooooo.   ooooooooooooo         ooooooooo.                            .   ".spec_bytes()
    } else if i == 1 {
        "`888   `Y88. 8'   888   `8         `888   `Y88.                        .o8   ".spec_bytes()
    } else if i == 2 {
        " 888   .d88'      888               888   .d88' oooo  oooo   .oooo.o .o888oo ".spec_bytes()
    } else if i == 3 {
        " 888ooo88P'       888               888ooo88P'  `888  `888  d88(  \"8   888   ".spec_bytes()
    } else if i == 4 {
        " 888`88b.         888      8888888  888`88b.     888   888  `\"Y88b.    888   ".spec_bytes()
    } else if i == 5 {
        " 888  `88b.       888               888  `88b.   888   888  o.  )88b   888 . ".spec_bytes()
    } else {
        "o888o  o888o     o888o             o888o  o888o  `V88V\"V8P' 8\"\"888P'   \"888\" ".spec_bytes()
    }
}

fn title_line(i: usize) -> (r: &'static str)
    ensures
        r.spec_bytes() == title(i as int),
{
    match i {
        0 => "ooooooooo.   ooooooooooooo         ooooooooo.                            .   ",
        1 => "`888   `Y88. 8'   888   `8         `888   `Y88.                        .o8   ",
        2 => " 888   .d88'      888               888   .d88' oooo  oooo   .oooo.o .o888oo ",
        3 => " 888ooo88P'       888               888ooo88P'  `888  `888  d88(  \"8   888   ",
        4 => " 888`88b.         888      8888888  888`88b.     888   888  `\"Y88b.    888   ",
        5 => " 888  `88b.       888               888  `88b.   888   888  o.  )88b   888 . ",
        _ => "o888o  o888o     o888o             o888o  o888o  `V88V\"V8P' 8\"\"888P'   \"888\" ",
    }
}

/// The line that separates the parts of the panel.
pub open spec fn separator() -> Seq<u8> {
    "── ── ── ── ── ── ── ── ── ── ── ── ── ── ── ── ── ── ── ── ── ── ── ── ── ──".spec_bytes()
}

/// What is added to the clock if the crystal does not drive it.
pub open spec fn crystal_note(status: XtalStatus) -> Seq<u8> {
    match status {
        XtalStatus::Active => Seq::empty(),
        XtalStatus::Failed => " (XTAL failed, fallback MRC)".spec_bytes(),
        XtalStatus::NotAttempted => " (XTAL not attempted)".spec_bytes(),
    }
}

/// The name of the firmware and of the chip.
pub open spec fn product_line(b: Build) -> Seq<u8> {
    b.package.spec_bytes() + " v".spec_bytes() + b.version.spec_bytes()
        + "  —  RT-Thread 架构的 Rust RTOS (".spec_bytes() + b.chip.spec_bytes() + ")".spec_bytes()
}

/// The processor and its clock.
pub open spec fn processor_line(b: Build, s: System) -> Seq<u8> {
    "处理器 : ".spec_bytes() + b.core.spec_bytes() + " @ ".spec_bytes() + text::decimal(
        s.clock_hz as int / 1_000_000,
    ) + " MHz".spec_bytes() + crystal_note(s.crystal)
}

/// The tick.
pub open spec fn tick_line(s: System) -> Seq<u8> {
    "节拍 : ".spec_bytes() + text::decimal(1000int / (s.ticks_per_sec as int)) + " ms (".spec_bytes()
        + text::decimal(s.ticks_per_sec as int) + " Hz)".spec_bytes()
}

/// The priorities.
pub open spec fn priority_line(s: System) -> Seq<u8> {
    "优先级 : ".spec_bytes() + text::decimal(s.priorities as int) + " 级 (空闲 = ".spec_bytes()
        + text::decimal(s.idle_priority as int) + ")".spec_bytes()
}

/// The heap.
pub open spec fn heap_line(s: System) -> Seq<u8> {
    "堆 : ".spec_bytes() + text::decimal(s.heap_bytes as int / 1024) + " KB".spec_bytes()
}

/// How the firmware was built.
pub open spec fn build_line(b: Build) -> Seq<u8> {
    "构建 : ".spec_bytes() + b.date.spec_bytes() + " [".spec_bytes() + b.profile.spec_bytes()
        + "] ".spec_bytes() + b.compiler.spec_bytes()
}

/// The threads that are ready.
pub open spec fn ready_line(s: System) -> Seq<u8> {
    "就绪 : ".spec_bytes() + text::decimal(s.ready_threads as int)
        + " 个线程 (位图 0x".spec_bytes() + text::hex_fixed(s.ready_groups as int, 8)
        + ")".spec_bytes()
}

/// The banner, line by line.
pub open spec fn banner(b: Build, s: System) -> Seq<Seq<u8>> {
    let nothing = Seq::<u8>::empty();
    seq![
        nothing,
        title(0),
        title(1),
        title(2),
        title(3),
        title(4),
        title(5),
        title(6),
        nothing,
        product_line(b),
        separator(),
        processor_line(b, s),
        tick_line(s),
        priority_line(s),
        heap_line(s),
        separator(),
        build_line(b),
        ready_line(s),
    ]
}

/// Add a line behind those of `done`.
fn push_line(out: &mut Vec<u8>, line: &[u8], Ghost(done): Ghost<Seq<Seq<u8>>>)
    requires
        old(out)@ == lines_text(done),
    ensures
        final(out)@ == lines_text(done.push(line@)),
{
    text::push_bytes(out, line);
    out.push(0x0d);
    out.push(0x0a);
    assert(done.push(line@).drop_last() =~= done);
    assert(out@ =~= lines_text(done.push(line@)));
}

fn text_of(s: &str) -> (r: Vec<u8>)
    ensures
        r@ == s.spec_bytes(),
{
    let mut out: Vec<u8> = Vec::new();
    text::push_bytes(&mut out, s.as_bytes());
    assert(out@ =~= s.spec_bytes());
    out
}

fn product(b: &Build) -> (r: Vec<u8>)
    ensures
        r@ == product_line(*b),
{
    let mut out: Vec<u8> = text_of(b.package);
    text::push_bytes(&mut out, " v".as_bytes());
    text::push_bytes(&mut out, b.version.as_bytes());
    text::push_bytes(&mut out, "  —  RT-Thread 架构的 Rust RTOS (".as_bytes());
    text::push_bytes(&mut out, b.chip.as_bytes());
    text::push_bytes(&mut out, ")".as_bytes());
    out
}

fn processor(b: &Build, s: &System) -> (r: Vec<u8>)
    ensures
        r@ == processor_line(*b, *s),
{
    let mut out: Vec<u8> = text_of("处理器 : ");
    text::push_bytes(&mut out, b.core.as_bytes());
    text::push_bytes(&mut out, " @ ".as_bytes());
    text::push_decimal(&mut out, (s.clock_hz / 1_000_000) as u64);
    text::push_bytes(&mut out, " MHz".as_bytes());
    match s.crystal {
        XtalStatus::Active => {
            assert(out@ + Seq::<u8>::empty() =~= out@);
        },
        XtalStatus::Failed => {
            text::push_bytes(&mut out, " (XTAL failed, fallback MRC)".as_bytes());
        },
        XtalStatus::NotAttempted => {
            text::push_bytes(&mut out, " (XTAL not attempted)".as_bytes());
        },
    }
    out
}

fn tick(s: &System) -> (r: Vec<u8>)
    requires
        s.ticks_per_sec > 0,
    ensures
        r@ == tick_line(*s),
{
    let mut out: Vec<u8> = text_of("节拍 : ");
    text::push_decimal(&mut out, (1000 / s.ticks_per_sec) as u64);
    text::push_bytes(&mut out, " ms (".as_bytes());
    text::push_decimal(&mut out, s.ticks_per_sec as u64);
    text::push_bytes(&mut out, " Hz)".as_bytes());
    out
}

fn priority(s: &System) -> (r: Vec<u8>)
    ensures
        r@ == priority_line(*s),
{
    let mut out: Vec<u8> = text_of("优先级 : ");
    text::push_decimal(&mut out, s.priorities as u64);
    text::push_bytes(&mut out, " 级 (空闲 = ".as_bytes());
    text::push_decimal(&mut out, s.idle_priority as u64);
    text::push_bytes(&mut out, ")".as_bytes());
    out
}

fn heap(s: &System) -> (r: Vec<u8>)
    ensures
        r@ == heap_line(*s),
{
    let mut out: Vec<u8> = text_of("堆 : ");
    text::push_decimal(&mut out, (s.heap_bytes / 1024) as u64);
    text::push_bytes(&mut out, " KB".as_bytes());
    out
}

fn build(b: &Build) -> (r: Vec<u8>)
    ensures
        r@ == build_line(*b),
{
    let mut out: Vec<u8> = text_of("构建 : ");
    text::push_bytes(&mut out, b.date.as_bytes());
    text::push_bytes(&mut out, " [".as_bytes());
    text::push_bytes(&mut out, b.profile.as_bytes());
    text::push_bytes(&mut out, "] ".as_bytes());
    text::push_bytes(&mut out, b.compiler.as_bytes());
    out
}

fn ready(s: &System) -> (r: Vec<u8>)
    ensures
        r@ == ready_line(*s),
{
    let mut out: Vec<u8> = text_of("就绪 : ");
    text::push_decimal(&mut out, s.ready_threads as u64);
    text::push_bytes(&mut out, " 个线程 (位图 0x".as_bytes());
    text::push_hex8(&mut out, s.ready_groups);
    text::push_bytes(&mut out, ")".as_bytes());
    out
}

/// The banner.
pub fn show(b: &Build, s: &System) -> (r: Vec<u8>)
    requires
        s.ticks_per_sec > 0,
    ensures
        r@ == lines_text(banner(*b, *s)),
{
    let nothing: [u8; 0] = [];
    let mut out: Vec<u8> = Vec::new();
    let ghost all = banner(*b, *s);
    assert(nothing@ =~= Seq::<u8>::empty());
    assert(all.take(0) =~= Seq::<Seq<u8>>::empty());
    assert(all.take(0).push(all[0]) =~= all.take(1));
    push_line(&mut out, &nothing, Ghost(all.take(0)));
    let mut i: usize = 0;
    while i < 7
        invariant
            i <= 7,
            all == banner(*b, *s),
            out@ == lines_text(all.take(i + 1)),
        decreases 7 - i,
    {
        assert(all[i + 1] == title(i as int));
        assert(all.take(i + 1).push(all[i + 1]) =~= all.take(i + 2));
        push_line(&mut out, title_line(i).as_bytes(), Ghost(all.take(i + 1)));
        i += 1;
    }
    assert(all.take(8).push(all[8]) =~= all.take(9));
    push_line(&mut out, &nothing, Ghost(all.take(8)));
    assert(all.take(9).push(all[9]) =~= all.take(10));
    push_line(&mut out, product(b).as_slice(), Ghost(all.take(9)));
    assert(all.take(10).push(all[10]) =~= all.take(11));
    push_line(&mut out, rule().as_slice(), Ghost(all.take(10)));
    assert(all.take(11).push(all[11]) =~= all.take(12));
    push_line(&mut out, processor(b, s).as_slice(), Ghost(all.take(11)));
    assert(all.take(12).push(all[12]) =~= all.take(13));
    push_line(&mut out, tick(s).as_slice(), Ghost(all.take(12)));
    assert(all.take(13).push(all[13]) =~= all.take(14));
    push_line(&mut out, priority(s).as_slice(), Ghost(all.take(13)));
    assert(all.take(14).push(all[14]) =~= all.take(15));
    push_line(&mut out, heap(s).as_slice(), Ghost(all.take(14)));
    assert(all.take(15).push(all[15]) =~= all.take(16));
    push_line(&mut out, rule().as_slice(), Ghost(all.take(15)));
    assert(all.take(16).push(all[16]) =~= all.take(17));
    push_line(&mut out, build(b).as_slice(), Ghost(all.take(16)));
    assert(all.take(17).push(all[17]) =~= all);
    push_line(&mut out, ready(s).as_slice(), Ghost(all.take(17)));
    out
}

fn rule() -> (r: Vec<u8>)
    ensures
        r@ == separator(),
{
    text_of("── ── ── ── ── ── ── ── ── ── ── ── ── ── ── ── ── ── ── ── ── ── ── ── ── ──")
}

} // verus!
