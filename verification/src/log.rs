//! The log of the application: levels, switches, and what one entry puts on the
//! console and into the buffer that is saved to files.

use vstd::prelude::*;
use vstd::string::StringSliceAdditionalSpecFns;

use crate::console;
use crate::logring::{EntryMark, Item, LogRing};
use crate::text;

verus! {

/// How severe an entry is, the most severe first.
#[derive(Clone, Copy, PartialEq, Eq, PartialOrd, Ord, Debug, Structural)]
pub enum Level {
    /// Something does not work.
    Error,
    /// Something is wrong, but it goes on.
    Warn,
    /// A milestone.
    Info,
    /// Details of the state.
    Debug,
    /// Every event.
    Trace,
}

/// The rank of a level; the most severe has the lowest.
pub open spec fn rank(level: Level) -> u8 {
    match level {
        Level::Error => 0,
        Level::Warn => 1,
        Level::Info => 2,
        Level::Debug => 3,
        Level::Trace => 4,
    }
}

/// The level of a rank; what is above the last is the last.
pub open spec fn of_rank(v: u8) -> Level {
    if v == 0 {
        Level::Error
    } else if v == 1 {
        Level::Warn
    } else if v == 2 {
        Level::Info
    } else if v == 3 {
        Level::Debug
    } else {
        Level::Trace
    }
}

/// The name of a level.
pub open spec fn name_of(level: Level) -> Seq<u8> {
    match level {
        Level::Error => "error".spec_bytes(),
        Level::Warn => "warn".spec_bytes(),
        Level::Info => "info".spec_bytes(),
        Level::Debug => "debug".spec_bytes(),
        Level::Trace => "trace".spec_bytes(),
    }
}

/// The level of a name.
pub open spec fn named(name: Seq<u8>) -> Option<Level> {
    if name == name_of(Level::Error) {
        Some(Level::Error)
    } else if name == name_of(Level::Warn) {
        Some(Level::Warn)
    } else if name == name_of(Level::Info) {
        Some(Level::Info)
    } else if name == name_of(Level::Debug) {
        Some(Level::Debug)
    } else if name == name_of(Level::Trace) {
        Some(Level::Trace)
    } else {
        None
    }
}

/// The letters of the label of a level.
pub open spec fn label(level: Level) -> Seq<u8> {
    match level {
        Level::Error => seq![0x45u8, 0x52, 0x52],
        Level::Warn => seq![0x57u8, 0x52, 0x4e],
        Level::Info => seq![0x49u8, 0x4e, 0x46],
        Level::Debug => seq![0x44u8, 0x42, 0x47],
        Level::Trace => seq![0x54u8, 0x52, 0x43],
    }
}

/// The last digit of the colour of a level: red, yellow, green, cyan or white.
pub open spec fn colour_digit(level: Level) -> u8 {
    match level {
        Level::Error => 0x31,
        Level::Warn => 0x33,
        Level::Info => 0x32,
        Level::Debug => 0x36,
        Level::Trace => 0x37,
    }
}

impl Level {
    /// The rank of the level.
    pub fn as_u8(self) -> (r: u8)
        ensures
            r == rank(self),
    {
        match self {
            Level::Error => 0,
            Level::Warn => 1,
            Level::Info => 2,
            Level::Debug => 3,
            Level::Trace => 4,
        }
    }

    /// The level of a rank.
    pub fn from_u8(v: u8) -> (r: Level)
        ensures
            r == of_rank(v),
    {
        match v {
            0 => Level::Error,
            1 => Level::Warn,
            2 => Level::Info,
            3 => Level::Debug,
            _ => Level::Trace,
        }
    }

    /// The name of the level.
    pub fn name(self) -> (r: &'static str)
        ensures
            r.spec_bytes() == name_of(self),
    {
        match self {
            Level::Error => "error",
            Level::Warn => "warn",
            Level::Info => "info",
            Level::Debug => "debug",
            Level::Trace => "trace",
        }
    }

    /// The level of a name.
    pub fn from_name(name: &str) -> (r: Option<Level>)
        ensures
            r == named(name.spec_bytes()),
    {
        let bytes: &[u8] = name.as_bytes();
        if text::same_bytes(bytes, "error".as_bytes()) {
            Some(Level::Error)
        } else if text::same_bytes(bytes, "warn".as_bytes()) {
            Some(Level::Warn)
        } else if text::same_bytes(bytes, "info".as_bytes()) {
            Some(Level::Info)
        } else if text::same_bytes(bytes, "debug".as_bytes()) {
            Some(Level::Debug)
        } else if text::same_bytes(bytes, "trace".as_bytes()) {
            Some(Level::Trace)
        } else {
            None
        }
    }

    /// The label in brackets.
    fn tag(self) -> (r: [u8; 5])
        ensures
            r@ == seq![0x5bu8] + label(self) + seq![0x5du8],
    {
        match self {
            Level::Error => [0x5b, 0x45, 0x52, 0x52, 0x5d],
            Level::Warn => [0x5b, 0x57, 0x52, 0x4e, 0x5d],
            Level::Info => [0x5b, 0x49, 0x4e, 0x46, 0x5d],
            Level::Debug => [0x5b, 0x44, 0x42, 0x47, 0x5d],
            Level::Trace => [0x5b, 0x54, 0x52, 0x43, 0x5d],
        }
    }

    /// The escape sequence that sets the colour.
    fn color(self) -> (r: [u8; 5])
        ensures
            r@ == seq![0x1bu8, 0x5b, 0x33, colour_digit(self), 0x6d],
    {
        let digit: u8 = match self {
            Level::Error => 0x31,
            Level::Warn => 0x33,
            Level::Info => 0x32,
            Level::Debug => 0x36,
            Level::Trace => 0x37,
        };
        [0x1b, 0x5b, 0x33, digit, 0x6d]
    }
}

/// A level is found again by its name and by its rank.
pub proof fn law_levels_are_found_again(level: Level)
    ensures
        named(name_of(level)) == Some(level),
        of_rank(rank(level)) == level,
{
    reveal_strlit("error");
    reveal_strlit("warn");
    reveal_strlit("info");
    reveal_strlit("debug");
    reveal_strlit("trace");
    vstd::string::is_ascii_spec_bytes("error");
    vstd::string::is_ascii_spec_bytes("warn");
    vstd::string::is_ascii_spec_bytes("info");
    vstd::string::is_ascii_spec_bytes("debug");
    vstd::string::is_ascii_spec_bytes("trace");
    let e = name_of(Level::Error);
    let w = name_of(Level::Warn);
    let i = name_of(Level::Info);
    let d = name_of(Level::Debug);
    let t = name_of(Level::Trace);
    assert(e.len() == 5 && w.len() == 4 && i.len() == 4 && d.len() == 5 && t.len() == 5);
    assert(e[0] == 0x65 && w[0] == 0x77 && i[0] == 0x69 && d[0] == 0x64 && t[0] == 0x74);
}

// ---------------------------------------------------------------------------
// Switches
// ---------------------------------------------------------------------------

/// The switches of the log.
pub struct Settings {
    enabled: bool,
    threshold: u8,
    file_enabled: bool,
}

impl Settings {
    /// The log is on.
    pub closed spec fn is_on(self) -> bool {
        self.enabled
    }

    /// The least severe level that is logged.
    pub closed spec fn limit(self) -> Level {
        of_rank(self.threshold)
    }

    /// Entries are saved to files.
    pub closed spec fn saves(self) -> bool {
        self.file_enabled
    }

    /// The switches at the start.
    pub fn new(on: bool, level: Level, file: bool) -> (r: Self)
        ensures
            r.is_on() == on,
            r.limit() == level,
            r.saves() == file,
    {
        Settings { enabled: on, threshold: level.as_u8(), file_enabled: file }
    }
}

/// Whether entries are saved to files.
pub fn file_enabled(settings: &Settings) -> (r: bool)
    ensures
        r == settings.saves(),
{
    settings.file_enabled
}

/// Switch the saving of entries to files.
pub fn set_file_enabled(settings: &mut Settings, on: bool)
    ensures
        final(settings).saves() == on,
        final(settings).is_on() == old(settings).is_on(),
        final(settings).limit() == old(settings).limit(),
{
    settings.file_enabled = on;
}

/// Whether the log is on.
pub fn enabled(settings: &Settings) -> (r: bool)
    ensures
        r == settings.is_on(),
{
    settings.enabled
}

/// The least severe level that is logged.
pub fn level(settings: &Settings) -> (r: Level)
    ensures
        r == settings.limit(),
{
    Level::from_u8(settings.threshold)
}

/// Switch the log.
pub fn set_enabled(settings: &mut Settings, on: bool)
    ensures
        final(settings).is_on() == on,
        final(settings).limit() == old(settings).limit(),
        final(settings).saves() == old(settings).saves(),
{
    settings.enabled = on;
}

/// Set the least severe level that is logged.
pub fn set_level(settings: &mut Settings, level: Level)
    ensures
        final(settings).limit() == level,
        final(settings).is_on() == old(settings).is_on(),
        final(settings).saves() == old(settings).saves(),
{
    settings.threshold = level.as_u8();
}

/// Whether entries of a level are logged.
pub fn should_log(settings: &Settings, l: Level) -> (r: bool)
    ensures
        r == (settings.is_on() && rank(l) <= rank(settings.limit())),
{
    enabled(settings) && l.as_u8() <= level(settings).as_u8()
}

/// While the log is on, an entry is logged exactly if it is as severe as the level that
/// was set or more severe, errors being the most severe; while it is off, none is.
pub proof fn law_levels_are_let_through(settings: Settings, l: Level, r: bool)
    requires
        call_ensures(should_log, (&settings, l), r),
    ensures
        !settings.is_on() ==> !r,
        settings.is_on() ==> (r <==> match settings.limit() {
            Level::Error => l is Error,
            Level::Warn => l is Error || l is Warn,
            Level::Info => l is Error || l is Warn || l is Info,
            Level::Debug => !(l is Trace),
            Level::Trace => true,
        }),
{
}

/// Take all entries from the buffer, a line for each; the number of bytes.
pub fn drain_into<const CAP: usize>(ring: &mut LogRing<CAP>, out: &mut Vec<u8>) -> (r: usize)
    requires
        old(ring).inv(),
    ensures
        final(ring).inv(),
        final(ring).busy() == old(ring).busy(),
        if old(ring).busy() {
            r == 0 && *final(ring) == *old(ring) && final(out)@ == old(out)@
        } else {
            let lines = crate::logring::drop_marker(old(ring).losses())
                + crate::logring::render_all(old(ring).items());
            &&& final(ring).items() == Seq::<Item>::empty()
            &&& final(ring).losses() == 0
            &&& final(out)@ == old(out)@ + lines
            &&& r == lines.len()
        },
{
    let r: usize = ring.drain_into(out);
    assert(!old(ring).busy() ==> out@ =~= old(out)@ + (crate::logring::drop_marker(
        old(ring).losses(),
    ) + crate::logring::render_all(old(ring).items())));
    r
}

/// The number of bytes that wait in the buffer.
pub fn pending_bytes<const CAP: usize>(ring: &LogRing<CAP>) -> (r: usize)
    requires
        ring.inv(),
    ensures
        !ring.busy() ==> r == crate::logring::encode(ring.items()).len(),
        forall|mark: EntryMark|
            #[trigger] ring.open_at(mark) ==> r == crate::logring::encode(ring.items()).len() + 2
                + ring.draft(mark).len(),
{
    ring.bytes_pending()
}

// ---------------------------------------------------------------------------
// Entries
// ---------------------------------------------------------------------------

/// The time stamp of an entry, given days, hours, minutes and seconds.
pub open spec fn stamp_text(stamp: Option<(u32, u32, u32, u32)>) -> Seq<u8> {
    match stamp {
        Some((d, h, m, s)) => seq![0x5bu8] + text::decimal(d as int) + seq![0x3au8] + text::padded(
            h as int,
            2,
        ) + seq![0x3au8] + text::padded(m as int, 2) + seq![0x3au8] + text::padded(s as int, 2)
            + seq![0x5du8, 0x20],
        None => Seq::empty(),
    }
}

/// What stands before the message: the time stamp and the label.
pub open spec fn head_text(level: Level, stamp: Option<(u32, u32, u32, u32)>) -> Seq<u8> {
    stamp_text(stamp) + (seq![0x5bu8] + label(level) + seq![0x5du8, 0x20])
}

/// A number below a hundred takes two digits.
proof fn lemma_two_digits(n: int)
    requires
        0 <= n < 100,
    ensures
        text::padded(n, 2) == seq![(0x30 + n / 10) as u8, (0x30 + n % 10) as u8],
{
    reveal_with_fuel(text::decimal, 2);
    assert(text::padded(n, 2) =~= seq![(0x30 + n / 10) as u8, (0x30 + n % 10) as u8]);
}

/// What stands before a message is read from its end: a space, the label in brackets and,
/// with a time, before them a space, the seconds, the minutes and the hours, two digits
/// each, and the days.
pub proof fn law_heads_tell_level_and_time(level: Level, stamp: Option<(u32, u32, u32, u32)>)
    ensures
        ({
            let t = head_text(level, stamp);
            let n = t.len() as int;
            &&& stamp is None ==> n == 6
            &&& t[n - 6] == 0x5b && t[n - 2] == 0x5d && t[n - 1] == 0x20
            &&& t[n - 5] == match level {
                Level::Error => 0x45u8,
                Level::Warn => 0x57,
                Level::Info => 0x49,
                Level::Debug => 0x44,
                Level::Trace => 0x54,
            }
            &&& stamp matches Some((d, h, m, s)) ==> h < 24 && m < 60 && s < 60 ==> {
                &&& t[0] == 0x5b && t[n - 8] == 0x5d && t[n - 7] == 0x20
                &&& t[n - 17] == 0x3a && t[n - 14] == 0x3a && t[n - 11] == 0x3a
                &&& t.subrange(1, n - 17) == text::decimal(d as int)
                &&& 10 * (t[n - 16] - 0x30) + (t[n - 15] - 0x30) == h
                &&& 10 * (t[n - 13] - 0x30) + (t[n - 12] - 0x30) == m
                &&& 10 * (t[n - 10] - 0x30) + (t[n - 9] - 0x30) == s
            }
        }),
{
    if let Some((d, h, m, s)) = stamp {
        if h < 24 && m < 60 && s < 60 {
            lemma_two_digits(h as int);
            lemma_two_digits(m as int);
            lemma_two_digits(s as int);
            let t = head_text(level, stamp);
            assert(t.subrange(1, t.len() - 17) =~= text::decimal(d as int));
        }
    }
}

/// A buffer with an entry that is being written.
pub struct Writing {
    pub items: Seq<Item>,
    pub losses: int,
    pub text: Seq<u8>,
    pub cut: bool,
}

/// A piece is added to the entry: the oldest entries give way to it, and it is left
/// out if it does not fit even so.
pub open spec fn add_piece(w: Writing, piece: Seq<u8>, cap: int) -> Writing {
    let used = 2 + w.text.len() + piece.len();
    let gone = crate::logring::excess(w.items, cap - used);
    Writing {
        items: w.items.skip(gone),
        losses: w.losses + gone,
        text: if used <= cap {
            w.text + piece
        } else {
            w.text
        },
        cut: w.cut || used > cap,
    }
}

/// Pieces are added to the entry, one after the other.
pub open spec fn add_pieces(w: Writing, pieces: Seq<Vec<u8>>, cap: int) -> Writing
    decreases pieces.len(),
{
    if pieces.len() == 0 {
        w
    } else {
        add_piece(add_pieces(w, pieces.drop_last(), cap), pieces.last()@, cap)
    }
}

/// The buffer when an entry is begun.
pub open spec fn begun(items: Seq<Item>, losses: int, cap: int) -> Writing {
    let gone = crate::logring::excess(items, cap - 2);
    Writing {
        items: items.skip(gone),
        losses: losses + gone,
        text: Seq::empty(),
        cut: false,
    }
}

/// The buffer after an entry: what was written is its newest one. A buffer that
/// cannot hold an entry at all counts it as lost.
pub open spec fn entered(
    items: Seq<Item>,
    losses: int,
    head: Seq<u8>,
    pieces: Seq<Vec<u8>>,
    cap: int,
) -> (Seq<Item>, int) {
    let start = begun(items, losses, cap);
    if cap < 2 {
        (start.items, start.losses + 1)
    } else {
        let w = add_pieces(add_piece(start, head, cap), pieces, cap);
        (w.items.push(Item { content: w.text, truncated: w.cut }), w.losses)
    }
}

fn head(level: Level, stamp: Option<(u32, u32, u32, u32)>) -> (r: Vec<u8>)
    ensures
        r@ == head_text(level, stamp),
{
    let mut out: Vec<u8> = Vec::new();
    if let Some((d, h, m, s)) = stamp {
        out.push(0x5b);
        text::push_decimal(&mut out, d as u64);
        out.push(0x3a);
        text::push_padded(&mut out, h as u64, 2);
        out.push(0x3a);
        text::push_padded(&mut out, m as u64, 2);
        out.push(0x3a);
        text::push_padded(&mut out, s as u64, 2);
        out.push(0x5d);
        out.push(0x20);
    }
    assert(out@ =~= stamp_text(stamp));
    text::push_bytes(&mut out, &level.tag());
    out.push(0x20);
    assert(out@ =~= head_text(level, stamp));
    out
}

/// Log an entry, if its level is logged and the console lets it through (`granted`).
/// The console gets a coloured line, the buffer the same text without colour.
pub fn log<const CAP: usize>(
    settings: &Settings,
    ring: &mut LogRing<CAP>,
    level: Level,
    stamp: Option<(u32, u32, u32, u32)>,
    pieces: &Vec<Vec<u8>>,
    color: bool,
    granted: bool,
    out: &mut Vec<u8>,
)
    requires
        old(ring).inv(),
        !old(ring).busy(),
        old(ring).losses() + 2 * CAP + 1 <= usize::MAX,
    ensures
        final(ring).inv(),
        !final(ring).busy(),
        if settings.is_on() && rank(level) <= rank(settings.limit()) && granted {
            &&& final(out)@ == old(out)@ + (if color {
                seq![0x1bu8, 0x5b, 0x33, colour_digit(level), 0x6d]
            } else {
                Seq::empty()
            }) + head_text(level, stamp) + console::joined(pieces@) + (if color {
                seq![0x1bu8, 0x5b, 0x30, 0x6d]
            } else {
                Seq::empty()
            }) + console::line_end()
            &&& (final(ring).items(), final(ring).losses()) == entered(
                old(ring).items(),
                old(ring).losses(),
                head_text(level, stamp),
                pieces@,
                CAP as int,
            )
        } else {
            *final(ring) == *old(ring) && final(out)@ == old(out)@
        },
{
    if !should_log(settings, level) || !granted {
        return;
    }
    let ghost before = out@;
    let ghost start_color: Seq<u8> = if color {
        seq![0x1bu8, 0x5b, 0x33, colour_digit(level), 0x6d]
    } else {
        Seq::empty()
    };
    if color {
        text::push_bytes(out, &level.color());
    }
    assert(out@ =~= before + start_color);
    let first: Vec<u8> = head(level, stamp);
    text::push_bytes(out, first.as_slice());
    console::push_pieces(out, pieces);
    enter(ring, &first, pieces);
    if color {
        let reset: [u8; 4] = [0x1b, 0x5b, 0x30, 0x6d];
        text::push_bytes(out, &reset);
    }
    out.push(0x0d);
    out.push(0x0a);
    assert(out@ =~= before + start_color + head_text(level, stamp) + console::joined(pieces@) + (
    if color {
        seq![0x1bu8, 0x5b, 0x30, 0x6d]
    } else {
        Seq::empty()
    }) + console::line_end());
}

/// Put an entry into the buffer.
fn enter<const CAP: usize>(ring: &mut LogRing<CAP>, first: &Vec<u8>, pieces: &Vec<Vec<u8>>)
    requires
        old(ring).inv(),
        !old(ring).busy(),
        old(ring).losses() + 2 * CAP + 1 <= usize::MAX,
    ensures
        final(ring).inv(),
        !final(ring).busy(),
        (final(ring).items(), final(ring).losses()) == entered(
            old(ring).items(),
            old(ring).losses(),
            first@,
            pieces@,
            CAP as int,
        ),
{
    let ghost items = ring.items();
    let ghost losses = ring.losses();
    let ghost start = begun(items, losses, CAP as int);
    proof {
        ring.lemma_entries_are_bounded();
        crate::logring::law_only_the_oldest_are_dropped(items, CAP - 2);
    }
    if let Some(mut mark) = ring.begin_entry() {
        let ghost w0 = add_piece(start, first@, CAP as int);
        proof {
            crate::logring::law_only_the_oldest_are_dropped(
                start.items,
                CAP - (2 + start.text.len() + first@.len()),
            );
        }
        ring.append_to_entry(&mut mark, first.as_slice());
        let mut i: usize = 0;
        assert(pieces@.take(0) =~= Seq::empty());
        while i < pieces.len()
            invariant
                i <= pieces@.len(),
                ring.open_at(mark),
                ({
                    let w = add_pieces(w0, pieces@.take(i as int), CAP as int);
                    &&& ring.items() == w.items
                    &&& ring.losses() == w.losses
                    &&& ring.draft(mark) == w.text
                    &&& mark.cut() == w.cut
                    &&& w.losses + w.items.len() == losses + items.len()
                }),
                2 * items.len() <= CAP,
                losses + 2 * CAP + 1 <= usize::MAX,
            decreases pieces@.len() - i,
        {
            let ghost w = add_pieces(w0, pieces@.take(i as int), CAP as int);
            assert(pieces@.take(i + 1).drop_last() =~= pieces@.take(i as int));
            proof {
                crate::logring::law_only_the_oldest_are_dropped(
                    w.items,
                    CAP - (2 + w.text.len() + pieces@[i as int]@.len()),
                );
            }
            ring.append_to_entry(&mut mark, pieces[i].as_slice());
            i += 1;
        }
        assert(pieces@.take(i as int) =~= pieces@);
        ring.commit_entry(&mark);
    }
}

/// An entry that fits into the buffer is kept whole: what the console shows between
/// the colours is what the buffer holds.
pub proof fn law_entries_that_fit_are_whole(
    items: Seq<Item>,
    losses: int,
    head: Seq<u8>,
    pieces: Seq<Vec<u8>>,
    cap: int,
)
    requires
        2 + head.len() + console::joined(pieces).len() <= cap,
    ensures
        entered(items, losses, head, pieces, cap).0.last() == (Item {
            content: head + console::joined(pieces),
            truncated: false,
        }),
{
    let w = add_piece(begun(items, losses, cap), head, cap);
    assert(w.text =~= head);
    lemma_whole(w, pieces, cap);
}

proof fn lemma_whole(w: Writing, pieces: Seq<Vec<u8>>, cap: int)
    requires
        2 + w.text.len() + console::joined(pieces).len() <= cap,
    ensures
        add_pieces(w, pieces, cap).text == w.text + console::joined(pieces),
        add_pieces(w, pieces, cap).cut == w.cut,
    decreases pieces.len(),
{
    if pieces.len() > 0 {
        lemma_whole(w, pieces.drop_last(), cap);
        assert(w.text + console::joined(pieces) =~= w.text + console::joined(pieces.drop_last())
            + pieces.last()@);
    } else {
        assert(w.text + console::joined(pieces) =~= w.text);
    }
}

/// An entry pushes out only the oldest ones, and each that it pushes out is counted.
pub proof fn law_lost_entries_are_counted(
    items: Seq<Item>,
    losses: int,
    head: Seq<u8>,
    pieces: Seq<Vec<u8>>,
    cap: int,
)
    requires
        cap >= 2,
    ensures
        ({
            let (after, lost) = entered(items, losses, head, pieces, cap);
            &&& losses <= lost <= losses + items.len()
            &&& after.drop_last() == items.skip(lost - losses)
        }),
{
    let start = begun(items, losses, cap);
    crate::logring::law_only_the_oldest_are_dropped(items, cap - 2);
    let first = add_piece(start, head, cap);
    crate::logring::law_only_the_oldest_are_dropped(start.items, cap - (2 + head.len()));
    assert(start.text.len() == 0);
    assert(first.items =~= items.skip(first.losses - losses));
    lemma_counted(first, pieces, cap);
    let w = add_pieces(first, pieces, cap);
    assert(w.items =~= items.skip(w.losses - losses));
    assert(w.items.push(Item { content: w.text, truncated: w.cut }).drop_last() =~= w.items);
}

proof fn lemma_counted(w: Writing, pieces: Seq<Vec<u8>>, cap: int)
    ensures
        ({
            let after = add_pieces(w, pieces, cap);
            &&& w.losses <= after.losses <= w.losses + w.items.len()
            &&& after.items == w.items.skip(after.losses - w.losses)
        }),
    decreases pieces.len(),
{
    if pieces.len() == 0 {
        assert(w.items.skip(0) =~= w.items);
    } else {
        lemma_counted(w, pieces.drop_last(), cap);
        let mid = add_pieces(w, pieces.drop_last(), cap);
        let room = cap - (2 + mid.text.len() + pieces.last()@.len());
        crate::logring::law_only_the_oldest_are_dropped(mid.items, room);
        let after = add_pieces(w, pieces, cap);
        assert(after.items =~= w.items.skip(after.losses - w.losses));
    }
}

} // verus!
