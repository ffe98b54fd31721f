//! The console: when a print is let through, and what it is made of.
//!
//! Before the serial line is set up every print is dropped. Once the scheduler runs,
//! a thread takes the print lock first, so that lines do not mix; an interrupt
//! handler cannot wait for the lock and prints without it.

use vstd::prelude::*;

use crate::text;

verus! {

/// Whether the serial line is set up.
pub struct Console {
    ready: bool,
}

/// Where a print is made.
#[derive(Clone, Copy, PartialEq, Eq, Debug, Structural)]
pub struct Context {
    /// Threads are running.
    pub scheduler_started: bool,
    /// An interrupt is being served.
    pub in_isr: bool,
}

/// How a print goes out.
#[derive(Clone, Copy, PartialEq, Eq, Debug, Structural)]
pub enum Passage {
    /// Not at all.
    Closed,
    /// At once.
    Open,
    /// With the print lock held.
    Locked,
}

/// All pieces, one behind the other.
pub open spec fn joined(pieces: Seq<Vec<u8>>) -> Seq<u8>
    decreases pieces.len(),
{
    if pieces.len() == 0 {
        Seq::empty()
    } else {
        joined(pieces.drop_last()) + pieces.last()@
    }
}

/// How a print of a console goes out.
pub open spec fn passage(ready: bool, context: Context) -> Passage {
    if !ready {
        Passage::Closed
    } else if context.scheduler_started && !context.in_isr {
        Passage::Locked
    } else {
        Passage::Open
    }
}

/// The print is made; `lock` tells whether the lock was obtained.
pub open spec fn passes(passage: Passage, lock: bool) -> bool {
    passage is Open || (passage is Locked && lock)
}

/// The end of a line.
pub open spec fn line_end() -> Seq<u8> {
    seq![0x0du8, 0x0a]
}

impl Console {
    /// Whether the serial line is set up.
    pub closed spec fn is_ready(self) -> bool {
        self.ready
    }

    /// A console whose serial line is not set up.
    pub fn new() -> (r: Self)
        ensures
            !r.is_ready(),
    {
        Console { ready: false }
    }
}

/// The serial line is set up.
pub fn mark_ready(console: &mut Console)
    ensures
        final(console).is_ready(),
{
    console.ready = true;
}

/// How a print is to be made. In the locked case it is dropped if the lock cannot be
/// obtained.
pub fn with_print_lock(console: &Console, context: Context) -> (r: Passage)
    ensures
        r == passage(console.is_ready(), context),
{
    if !console.ready {
        Passage::Closed
    } else if context.scheduler_started && !context.in_isr {
        Passage::Locked
    } else {
        Passage::Open
    }
}

/// Whether a print is made, given whether the lock was obtained.
pub fn admitted(passage: Passage, lock: bool) -> (r: bool)
    ensures
        r == passes(passage, lock),
{
    match passage {
        Passage::Closed => false,
        Passage::Open => true,
        Passage::Locked => lock,
    }
}

/// Add all pieces to `out`.
pub fn push_pieces(out: &mut Vec<u8>, pieces: &Vec<Vec<u8>>)
    ensures
        final(out)@ == old(out)@ + joined(pieces@),
{
    let ghost before = out@;
    let mut i: usize = 0;
    assert(pieces@.take(0) =~= Seq::empty());
    while i < pieces.len()
        invariant
            i <= pieces@.len(),
            out@ == before + joined(pieces@.take(i as int)),
        decreases pieces@.len() - i,
    {
        text::push_bytes(out, pieces[i].as_slice());
        assert(pieces@.take(i + 1).drop_last() =~= pieces@.take(i as int));
        assert(out@ =~= before + joined(pieces@.take(i + 1)));
        i += 1;
    }
    assert(pieces@.take(i as int) =~= pieces@);
}

/// Print text; `lock` tells whether the lock was obtained, where one is needed.
pub fn write_fmt(
    console: &Console,
    context: Context,
    lock: bool,
    pieces: &Vec<Vec<u8>>,
    out: &mut Vec<u8>,
)
    ensures
        final(out)@ == (if passes(passage(console.is_ready(), context), lock) {
            old(out)@ + joined(pieces@)
        } else {
            old(out)@
        }),
{
    if admitted(with_print_lock(console, context), lock) {
        push_pieces(out, pieces);
    }
}

/// Print text without the lock.
pub fn write_fmt_raw(console: &Console, pieces: &Vec<Vec<u8>>, out: &mut Vec<u8>)
    ensures
        final(out)@ == (if console.is_ready() {
            old(out)@ + joined(pieces@)
        } else {
            old(out)@
        }),
{
    if console.ready {
        push_pieces(out, pieces);
    }
}

/// Print a line made of `prefix`, the pieces and `suffix`. The pieces go to `side`
/// too.
pub fn write_fmt_line_fanout(
    console: &Console,
    context: Context,
    lock: bool,
    prefix: &[u8],
    suffix: &[u8],
    pieces: &Vec<Vec<u8>>,
    out: &mut Vec<u8>,
    side: &mut Vec<u8>,
)
    ensures
        if passes(passage(console.is_ready(), context), lock) {
            &&& final(out)@ == old(out)@ + prefix@ + joined(pieces@) + suffix@ + line_end()
            &&& final(side)@ == old(side)@ + joined(pieces@)
        } else {
            final(out)@ == old(out)@ && final(side)@ == old(side)@
        },
{
    if admitted(with_print_lock(console, context), lock) {
        text::push_bytes(out, prefix);
        push_pieces(out, pieces);
        push_pieces(side, pieces);
        text::push_bytes(out, suffix);
        out.push(0x0d);
        out.push(0x0a);
        assert(out@ =~= old(out)@ + prefix@ + joined(pieces@) + suffix@ + line_end());
    }
}

/// Print a line.
pub fn write_fmt_line(
    console: &Console,
    context: Context,
    lock: bool,
    pieces: &Vec<Vec<u8>>,
    out: &mut Vec<u8>,
)
    ensures
        final(out)@ == (if passes(passage(console.is_ready(), context), lock) {
            old(out)@ + joined(pieces@) + line_end()
        } else {
            old(out)@
        }),
{
    let nothing: [u8; 0] = [];
    let mut side: Vec<u8> = Vec::new();
    write_fmt_line_fanout(console, context, lock, &nothing, &nothing, pieces, out, &mut side);
    assert(passes(passage(console.is_ready(), context), lock) ==> out@ =~= old(out)@ + joined(
        pieces@,
    ) + line_end());
}

/// Nothing is printed before the serial line is set up. Then a handler of an interrupt,
/// and everything before threads run, prints without the lock; a thread prints exactly if
/// it has the lock.
pub proof fn law_prints_wait_for_the_lock(
    console: Console,
    context: Context,
    way: Passage,
    lock: bool,
    printed: bool,
)
    requires
        call_ensures(with_print_lock, (&console, context), way),
        call_ensures(admitted, (way, lock), printed),
    ensures
        !console.is_ready() ==> !printed,
        console.is_ready() && (context.in_isr || !context.scheduler_started) ==> printed,
        console.is_ready() && context.scheduler_started && !context.in_isr ==> printed == lock,
        way is Locked <==> console.is_ready() && context.scheduler_started && !context.in_isr,
{
}

/// What is printed in two parts is what is printed in one.
pub proof fn law_pieces_are_joined_in_order(a: Seq<Vec<u8>>, b: Seq<Vec<u8>>)
    ensures
        joined(a + b) == joined(a) + joined(b),
        a.len() == 1 ==> joined(a) == a[0]@,
    decreases b.len(),
{
    if a.len() == 1 {
        assert(joined(a.drop_last()) == Seq::<u8>::empty());
        assert(joined(a) =~= a[0]@);
    }
    if b.len() == 0 {
        assert(a + b =~= a);
        assert(joined(a) + joined(b) =~= joined(a));
    } else {
        law_pieces_are_joined_in_order(a, b.drop_last());
        assert((a + b).drop_last() =~= a + b.drop_last());
        assert((a + b).last() == b.last());
        assert(joined(a) + joined(b.drop_last()) + b.last()@ =~= joined(a) + joined(b));
    }
}

} // verus!
