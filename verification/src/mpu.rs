//! Memory protection: which parts of the address space may be written or
//! executed.
//!
//! Flash is read-only, RAM and peripherals cannot be executed, and the lowest bytes
//! of the stack of the running thread cannot be accessed at all, so that a stack
//! that grows too far is noticed at once. What no region covers stays accessible
//! to privileged code.

use vstd::arithmetic::power2::{lemma2_to64, lemma_pow2_strictly_increases, pow2};
use vstd::prelude::*;

use crate::mmio::{Bracketed, Step, change_word, word};

verus! {

const MPU_CTRL: usize = 0xe000_ed94;

const MPU_RNR: usize = 0xe000_ed98;

const MPU_RBAR: usize = 0xe000_ed9c;

const MPU_RASR: usize = 0xe000_eda0;

const SHCSR: usize = 0xe000_ed24;

/// Access by everybody.
pub const AP_FULL: u32 = 3;

/// Reading only.
pub const AP_RO: u32 = 6;

/// No access.
pub const AP_NO_ACCESS: u32 = 0;

/// Bytes at the end of a thread's stack that must not be touched.
pub const STACK_GUARD_SIZE: usize = 32;

/// The exponent field of a region of `bytes` bytes: one less than the binary
/// logarithm.
fn size_code(bytes: u32, Ghost(exponent): Ghost<nat>) -> (r: u32)
    requires
        1 <= exponent < 32,
        bytes == pow2(exponent),
    ensures
        r == exponent - 1,
{
    let mut size: u64 = 2;
    let mut code: u32 = 0;
    proof {
        lemma2_to64();
    }
    while size < bytes as u64
        invariant
            bytes == pow2(exponent),
            size == pow2((code + 1) as nat),
            code + 1 <= exponent,
            exponent < 32,
        decreases exponent - code,
    {
        proof {
            if code + 1 == exponent {
                assert(size == bytes);
            }
            vstd::arithmetic::power2::lemma_pow2_unfold((code + 2) as nat);
        }
        size = size * 2;
        code += 1;
        proof {
            if code + 1 > exponent {
                lemma_pow2_strictly_increases(exponent, (code + 1) as nat);
            }
        }
    }
    proof {
        if code + 1 < exponent {
            lemma_pow2_strictly_increases((code + 1) as nat, exponent);
        }
    }
    code
}

/// The attributes of a region of two to the power of `exponent` bytes.
pub open spec fn attributes(exponent: int, ap: u32, xn: bool, tex: u32, cacheable: bool) -> u32 {
    1u32 | ((exponent - 1) as u32) << 1u32 | ap << 24u32 | tex << 19u32 | (if xn {
        0x1000_0000u32
    } else {
        0
    }) | (if cacheable {
        0x0006_0000u32
    } else {
        0
    })
}

/// Region `rn` is set up: two to the power of `exponent` bytes from `base` on.
pub open spec fn region_steps<E>(
    rn: u32,
    base: u32,
    exponent: int,
    ap: u32,
    xn: bool,
    tex: u32,
    cacheable: bool,
) -> Seq<Step<E>> {
    seq![
        Step::<E>::Do(word(0xe000_ed98, rn)),
        Step::<E>::Do(word(0xe000_ed9c, base & 0xffff_ffe0)),
        Step::<E>::Do(word(0xe000_eda0, attributes(exponent, ap, xn, tex, cacheable))),
    ]
}

/// Region 5, the stack guard, is switched off.
pub open spec fn guard_off_steps<E>() -> Seq<Step<E>> {
    seq![Step::<E>::Do(word(0xe000_ed98, 5)), Step::<E>::Do(word(0xe000_eda0, 0))]
}

/// Flash, 512 KiB from address 0, with the given access.
pub open spec fn flash_steps<E>(ap: u32) -> Seq<Step<E>> {
    region_steps(0, 0, 19, ap, false, 0, true)
}

/// The faults become exceptions of their own, the fixed regions are set up, the
/// stack guard stays off, and protection starts.
pub open spec fn init_steps<E>() -> Seq<Step<E>> {
    seq![Step::<E>::Do(change_word(0xe000_ed24, 0, 0x0007_0000))] + flash_steps(6) + region_steps(
        1,
        0x4000_0000,
        29,
        3,
        true,
        1,
        false,
    ) + region_steps(2, 0x2000_0000, 18, 3, true, 0, true) + region_steps(
        3,
        0x1fff_8000,
        15,
        3,
        true,
        0,
        true,
    ) + region_steps(4, 0x200f_0000, 12, 3, true, 0, true) + guard_off_steps() + seq![
        Step::<E>::Do(word(0xe000_ed94, 7)),
    ]
}

/// Set up a region.
fn set_region<E>(
    rn: u32,
    base: u32,
    bytes: u32,
    ap: u32,
    xn: bool,
    tex: u32,
    cacheable: bool,
    Ghost(exponent): Ghost<nat>,
) -> (r: Vec<Step<E>>)
    requires
        1 <= exponent < 32,
        bytes == pow2(exponent),
    ensures
        r@ == region_steps::<E>(rn, base, exponent as int, ap, xn, tex, cacheable),
{
    let code: u32 = size_code(bytes, Ghost(exponent));
    let never: u32 = if xn {
        0x1000_0000
    } else {
        0
    };
    let normal: u32 = if cacheable {
        0x0006_0000
    } else {
        0
    };
    let rasr: u32 = 1u32 | code << 1u32 | ap << 24u32 | tex << 19u32 | never | normal;
    vec![
        Step::Do(word(MPU_RNR, rn)),
        Step::Do(word(MPU_RBAR, base & 0xffff_ffe0)),
        Step::Do(word(MPU_RASR, rasr)),
    ]
}

/// Set up the fixed regions and start protecting memory.
pub fn init<E>() -> (r: Vec<Step<E>>)
    ensures
        r@ == init_steps::<E>(),
{
    proof {
        lemma2_to64();
    }
    let mut out: Vec<Step<E>> = vec![Step::Do(change_word(SHCSR, 0, 0x0007_0000))];
    let mut flash: Vec<Step<E>> =
        set_region(0, 0, 0x0008_0000, AP_RO, false, 0, true, Ghost(19));
    let mut devices: Vec<Step<E>> =
        set_region(1, 0x4000_0000, 0x2000_0000, AP_FULL, true, 1, false, Ghost(29));
    let mut sram: Vec<Step<E>> =
        set_region(2, 0x2000_0000, 0x0004_0000, AP_FULL, true, 0, true, Ghost(18));
    let mut sramh: Vec<Step<E>> =
        set_region(3, 0x1fff_8000, 0x8000, AP_FULL, true, 0, true, Ghost(15));
    let mut retained: Vec<Step<E>> =
        set_region(4, 0x200f_0000, 0x1000, AP_FULL, true, 0, true, Ghost(12));
    out.append(&mut flash);
    out.append(&mut devices);
    out.append(&mut sram);
    out.append(&mut sramh);
    out.append(&mut retained);
    let mut guard: Vec<Step<E>> = guard_off();
    out.append(&mut guard);
    out.push(Step::Do(word(MPU_CTRL, 7)));
    out
}

/// Guard the 32 bytes from `guard_base` on, which is a multiple of 32: the end of
/// the stack of the thread that runs next.
pub fn set_thread_guard<E>(guard_base: u32) -> (r: Vec<Step<E>>)
    ensures
        r@ == region_steps::<E>(5, guard_base, 5, 0, true, 0, false),
{
    proof {
        lemma2_to64();
    }
    set_region(5, guard_base, STACK_GUARD_SIZE as u32, AP_NO_ACCESS, true, 0, false, Ghost(5))
}

/// Switch the stack guard off.
pub fn guard_off<E>() -> (r: Vec<Step<E>>)
    ensures
        r@ == guard_off_steps::<E>(),
{
    vec![Step::Do(word(MPU_RNR, 5)), Step::Do(word(MPU_RASR, 0))]
}

/// Let flash be written, or protect it again; nothing when memory is not
/// protected at all.
pub fn flash_writable<E>(protecting: bool, enable: bool) -> (r: Vec<Step<E>>)
    ensures
        r@ == (if !protecting {
            Seq::<Step<E>>::empty()
        } else if enable {
            flash_steps::<E>(3)
        } else {
            flash_steps::<E>(6)
        }),
{
    if !protecting {
        return Vec::new();
    }
    proof {
        lemma2_to64();
    }
    let ap: u32 = if enable {
        AP_FULL
    } else {
        AP_RO
    };
    set_region(0, 0, 0x0008_0000, ap, false, 0, true, Ghost(19))
}

/// Steps for which flash can be written: it is protected again after them, whatever
/// came of them.
pub fn with_flash_writable<E>(protecting: bool, steps: Vec<Step<E>>) -> (r: Bracketed<E>)
    ensures
        r.before@ == (if protecting {
            flash_steps::<E>(3)
        } else {
            Seq::empty()
        }),
        r.inside@ == steps@,
        r.after@ == (if protecting {
            flash_steps::<E>(6)
        } else {
            Seq::empty()
        }),
{
    Bracketed {
        before: flash_writable(protecting, true),
        inside: steps,
        after: flash_writable(protecting, false),
    }
}

// ---------------------------------------------------------------------------
// What is protected
// ---------------------------------------------------------------------------

/// Base and attributes of a region when steps have been carried out: what is written goes
/// to the region that is selected at that moment.
pub open spec fn region_after<E>(steps: Seq<Step<E>>, rn: int, selected: u32, held: u32) -> (
    u32,
    u32,
) {
    let selector = crate::mmio::word_at(0xe000_ed98);
    let n = steps.len() as int;
    (
        crate::mmio::window_after(
            steps,
            n,
            selector,
            crate::mmio::word_at(0xe000_ed9c),
            rn,
            selected,
            held,
        ),
        crate::mmio::window_after(
            steps,
            n,
            selector,
            crate::mmio::word_at(0xe000_eda0),
            rn,
            selected,
            held,
        ),
    )
}

/// The region is on, holds two to the power of `exponent` bytes from `base` on, and has
/// this access; code in it is executed, or not.
pub open spec fn covers(
    region: (u32, u32),
    base: int,
    exponent: int,
    ap: u32,
    executable: bool,
) -> bool {
    &&& region.0 == base
    &&& region.1 & 1 == 1
    &&& ((region.1 >> 1u32) & 0x1f) + 1 == exponent
    &&& (region.1 >> 24u32) & 0x7 == ap
    &&& region.1 & 0x1000_0000 == 0 <==> executable
}

proof fn lemma_attributes(exponent: int, ap: u32, xn: bool, tex: u32, cacheable: bool, base: u32)
    requires
        1 <= exponent < 32,
        ap <= 7,
        tex <= 1,
    ensures
        covers(
            (base, attributes(exponent, ap, xn, tex, cacheable)),
            base as int,
            exponent,
            ap,
            !xn,
        ),
        base & 0xffff_ffe0 == base - base % 32,
        0u32 & 0xffff_ffe0 == 0,
        0x4000_0000u32 & 0xffff_ffe0 == 0x4000_0000,
        0x2000_0000u32 & 0xffff_ffe0 == 0x2000_0000,
        0x1fff_8000u32 & 0xffff_ffe0 == 0x1fff_8000,
        0x200f_0000u32 & 0xffff_ffe0 == 0x200f_0000,
{
    let code = (exponent - 1) as u32;
    assert({
        let v = 1u32 | code << 1u32 | ap << 24u32 | tex << 19u32 | (if xn {
            0x1000_0000u32
        } else {
            0
        }) | (if cacheable {
            0x0006_0000u32
        } else {
            0
        });
        &&& v & 1 == 1 && (v >> 1u32) & 0x1f == code && (v >> 24u32) & 0x7 == ap && ((v
            & 0x1000_0000 == 0) == !xn)
        &&& base & 0xffff_ffe0 == base - base % 32
        &&& 0u32 & 0xffff_ffe0 == 0 && 0x4000_0000u32 & 0xffff_ffe0 == 0x4000_0000 && 0x2000_0000u32
            & 0xffff_ffe0 == 0x2000_0000 && 0x1fff_8000u32 & 0xffff_ffe0 == 0x1fff_8000
            && 0x200f_0000u32 & 0xffff_ffe0 == 0x200f_0000
    }) by (bit_vector)
        requires
            code < 31u32,
            ap <= 7u32,
            tex <= 1u32,
    ;
}

/// After the set-up flash (512 KiB from 0 on) can be read and executed but not written;
/// peripherals (512 MiB from 0x4000_0000 on) and the three parts of RAM can be written
/// but not executed; no stack is guarded; and protection is on.
pub proof fn law_memory_is_protected<E>(steps: Vec<Step<E>>, selected: u32, held: u32)
    requires
        call_ensures(init::<E>, (), steps),
    ensures
        covers(region_after(steps@, 0, selected, held), 0, 19, 6, true),
        covers(region_after(steps@, 1, selected, held), 0x4000_0000, 29, 3, false),
        covers(region_after(steps@, 2, selected, held), 0x2000_0000, 18, 3, false),
        covers(region_after(steps@, 3, selected, held), 0x1fff_8000, 15, 3, false),
        covers(region_after(steps@, 4, selected, held), 0x200f_0000, 12, 3, false),
        region_after(steps@, 5, selected, held).1 == 0,
        crate::mmio::left_in(steps@, crate::mmio::word_at(0xe000_ed94), held) == 7,
{
    broadcast use crate::mmio::lemma_written;

    lemma_attributes(19, 6, false, 0, true, 0);
    lemma_attributes(29, 3, true, 1, false, 0x4000_0000);
    lemma_attributes(18, 3, true, 0, true, 0x2000_0000);
    lemma_attributes(15, 3, true, 0, true, 0x1fff_8000);
    lemma_attributes(12, 3, true, 0, true, 0x200f_0000);
    assert(steps@ == init_steps::<E>());
    assert(steps@.len() == 19);
    reveal_with_fuel(crate::mmio::left_after, 20);
    reveal_with_fuel(crate::mmio::window_after, 20);
}

/// The guard of a stack lets nothing access the 32 bytes that it covers, and is gone when
/// it is switched off; flash can be written exactly while it was asked for.
pub proof fn law_guards_and_flash<E>(
    guard_base: u32,
    guard: Vec<Step<E>>,
    off: Vec<Step<E>>,
    writable: Vec<Step<E>>,
    protected: Vec<Step<E>>,
    selected: u32,
    held: u32,
)
    requires
        guard_base % 32 == 0,
        call_ensures(set_thread_guard::<E>, (guard_base,), guard),
        call_ensures(guard_off::<E>, (), off),
        call_ensures(flash_writable::<E>, (true, true), writable),
        call_ensures(flash_writable::<E>, (true, false), protected),
    ensures
        covers(region_after(guard@, 5, selected, held), guard_base as int, 5, 0, false),
        region_after(off@, 5, selected, held).1 == 0,
        covers(region_after(writable@, 0, selected, held), 0, 19, 3, true),
        covers(region_after(protected@, 0, selected, held), 0, 19, 6, true),
{
    broadcast use crate::mmio::lemma_written;

    lemma_attributes(5, 0, true, 0, false, guard_base);
    lemma_attributes(19, 3, false, 0, true, 0);
    lemma_attributes(19, 6, false, 0, true, 0);
    reveal_with_fuel(crate::mmio::left_after, 4);
    reveal_with_fuel(crate::mmio::window_after, 4);
}

} // verus!
