//! A fixed-capacity log buffer: entries are kept in the order in which they were
//! added, and when the capacity is reached the oldest ones are dropped. There is
//! no lock inside; the caller serialises access.
//!
//! An entry is laid out as a little-endian 16-bit word and the content. The low
//! 15 bits of the word are the length of the content; bit 15 says that the
//! content was cut short.
//!
//! # Incremental writing
//!
//! [`LogRing::begin_entry`] reserves the length word, [`LogRing::append_to_entry`]
//! adds piece by piece (when there is no room left, what was written so far is
//! kept), and [`LogRing::commit_entry`] fills in the length. Until then nothing
//! can be drained, so no half entry is ever read.
//!
//! # Losses
//!
//! Dropped entries are counted. Draining puts a marker with their number where
//! they are missing, and a suffix behind each entry that was cut short: nothing
//! is lost silently.
//!
//! # Limited draining
//!
//! [`LogRing::drain_into_limited`] takes only the entries that fit as a whole;
//! [`LogRing::drain_oldest_entry`] takes the first one, however long it is.

use vstd::prelude::*;
use vstd::string::StringSliceAdditionalSpecFns;
use vstd::utf8::encode_utf8;

use crate::text::{decimal_len, push_bytes, push_decimal};

verus! {

/// Bytes of the length word of an entry.
pub const HEADER: usize = 2;

/// Bit 15 of the length word: the entry was cut short.
pub const LEN_FLAG_TRUNCATED: u16 = 0x8000;

/// The length in the length word.
pub const LEN_MASK: u16 = 0x7fff;

/// The largest capacity: the content of an entry has a 15-bit length.
pub const MAX_CAPACITY: usize = 0x8001;

/// An entry.
pub struct Item {
    pub content: Seq<u8>,
    pub truncated: bool,
}

/// The length word of an entry.
pub open spec fn length_word(it: Item) -> int {
    it.content.len() + if it.truncated {
        0x8000int
    } else {
        0
    }
}

/// An entry in the buffer.
pub open spec fn item_bytes(it: Item) -> Seq<u8> {
    seq![(length_word(it) % 256) as u8, (length_word(it) / 256) as u8] + it.content
}

/// Entries in the buffer.
pub open spec fn encode(es: Seq<Item>) -> Seq<u8>
    decreases es.len(),
{
    if es.len() == 0 {
        Seq::empty()
    } else {
        encode(es.drop_last()) + item_bytes(es.last())
    }
}

pub open spec fn items_ok(es: Seq<Item>) -> bool {
    forall|i: int| 0 <= i < es.len() ==> (#[trigger] es[i]).content.len() <= 0x7fff
}

/// What stands behind an entry that was cut short.
pub open spec fn trunc_marker() -> Seq<u8> {
    "[截断]".spec_bytes()
}

/// An entry as it is drained.
pub open spec fn render(it: Item) -> Seq<u8> {
    if it.content.len() == 0 {
        Seq::empty()
    } else {
        it.content + (if it.truncated {
            trunc_marker()
        } else {
            Seq::empty()
        }) + seq![0x0au8]
    }
}

/// Entries as they are drained.
pub open spec fn render_all(es: Seq<Item>) -> Seq<u8>
    decreases es.len(),
{
    if es.len() == 0 {
        Seq::empty()
    } else {
        render_all(es.drop_last()) + render(es.last())
    }
}

/// What stands where `n` entries were lost.
pub open spec fn drop_marker(n: int) -> Seq<u8> {
    if n <= 0 {
        Seq::empty()
    } else {
        "[日志缓冲溢出, 丢弃 ".spec_bytes() + crate::text::decimal(n) + " 条]\n".spec_bytes()
    }
}

/// How many of the first entries fit into `budget` bytes, one after the other.
pub open spec fn fitting(es: Seq<Item>, budget: int) -> int
    decreases es.len(),
{
    if es.len() == 0 || render(es[0]).len() > budget {
        0
    } else {
        1 + fitting(es.skip(1), budget - render(es[0]).len())
    }
}

/// How many of the oldest entries have to go so that the rest takes at most
/// `room` bytes; all of them if nothing helps.
pub open spec fn excess(es: Seq<Item>, room: int) -> int
    decreases es.len(),
{
    if es.len() == 0 || encode(es).len() <= room {
        0
    } else {
        1 + excess(es.skip(1), room)
    }
}

proof fn lemma_encode_front(es: Seq<Item>)
    requires
        es.len() > 0,
    ensures
        encode(es) == item_bytes(es[0]) + encode(es.skip(1)),
    decreases es.len(),
{
    if es.len() == 1 {
        assert(es.drop_last() =~= Seq::<Item>::empty());
        assert(es.skip(1) =~= Seq::<Item>::empty());
        assert(encode(es) =~= item_bytes(es[0]) + encode(es.skip(1)));
    } else {
        let head = es.drop_last();
        lemma_encode_front(head);
        assert(head.skip(1) =~= es.skip(1).drop_last());
        assert(head[0] == es[0]);
        assert(encode(es) =~= item_bytes(es[0]) + encode(es.skip(1)));
    }
}

proof fn lemma_render_front(es: Seq<Item>)
    requires
        es.len() > 0,
    ensures
        render_all(es) == render(es[0]) + render_all(es.skip(1)),
    decreases es.len(),
{
    if es.len() == 1 {
        assert(es.drop_last() =~= Seq::<Item>::empty());
        assert(es.skip(1) =~= Seq::<Item>::empty());
        assert(render_all(es) =~= render(es[0]) + render_all(es.skip(1)));
    } else {
        let head = es.drop_last();
        lemma_render_front(head);
        assert(head.skip(1) =~= es.skip(1).drop_last());
        assert(head[0] == es[0]);
        assert(render_all(es) =~= render(es[0]) + render_all(es.skip(1)));
    }
}

/// A fixed-capacity log buffer.
pub struct LogRing<const CAP: usize> {
    pub buf: [u8; CAP],
    /// Where the first entry starts; entries never wrap around.
    head: usize,
    /// Bytes in use, length words included.
    len: usize,
    /// Whether an entry is being written.
    writing: bool,
    /// Entries that were lost and not yet reported.
    dropped: usize,
    entries: Ghost<Seq<Item>>,
}

/// An entry that is being written, from [`LogRing::begin_entry`] until it is
/// committed.
#[derive(Clone, Copy, Debug, PartialEq, Eq)]
pub struct EntryMark {
    /// Where the length word is.
    start: usize,
    /// Bytes of content so far.
    len: usize,
    /// Whether some of the content was left out.
    truncated: bool,
}

impl EntryMark {
    pub closed spec fn cut(self) -> bool {
        self.truncated
    }
}

impl<const CAP: usize> LogRing<CAP> {
    /// The complete entries, the oldest first.
    pub closed spec fn items(self) -> Seq<Item> {
        self.entries@
    }

    /// Entries that were lost and not yet reported.
    pub closed spec fn losses(self) -> int {
        self.dropped as int
    }

    pub closed spec fn busy(self) -> bool {
        self.writing
    }

    /// The content of the entry that is being written.
    pub closed spec fn draft(self, mark: EntryMark) -> Seq<u8> {
        self.buf@.subrange(mark.start + 2, mark.start + 2 + mark.len)
    }

    pub closed spec fn inv(self) -> bool {
        let done = encode(self.entries@).len();
        &&& CAP <= MAX_CAPACITY
        &&& self.buf@.len() == CAP
        &&& self.head + self.len <= CAP
        &&& items_ok(self.entries@)
        &&& done <= self.len
        &&& self.buf@.subrange(self.head as int, self.head + done) == encode(self.entries@)
        &&& !self.writing ==> done == self.len
        &&& self.writing ==> done + 2 <= self.len
    }

    /// `mark` is that of the entry that is being written.
    pub closed spec fn open_at(self, mark: EntryMark) -> bool {
        &&& self.inv()
        &&& self.writing
        &&& mark.start == self.head + encode(self.entries@).len()
        &&& mark.start + 2 + mark.len == self.head + self.len
    }

    /// An empty buffer.
    pub fn new() -> (r: Self)
        ensures
            CAP <= MAX_CAPACITY ==> r.inv(),
            r.items() == Seq::<Item>::empty(),
            r.losses() == 0,
            !r.busy(),
    {
        let r = LogRing {
            buf: [0u8; CAP],
            head: 0,
            len: 0,
            writing: false,
            dropped: 0,
            entries: Ghost(Seq::empty()),
        };
        assert(r.buf@.subrange(0, 0) =~= Seq::<u8>::empty());
        r
    }
}

/// The first entry of the encoded ones.
proof fn lemma_first(b: Seq<u8>, es: Seq<Item>)
    requires
        es.len() > 0,
        items_ok(es),
        b == encode(es),
    ensures
        b.len() >= 2 + es[0].content.len(),
        b[0] + 256 * b[1] == length_word(es[0]),
        b.subrange(2, 2 + es[0].content.len() as int) == es[0].content,
        b.skip(2 + es[0].content.len() as int) == encode(es.skip(1)),
        items_ok(es.skip(1)),
{
    lemma_encode_front(es);
    let it = es[0];
    let w = length_word(it);
    assert(it.content.len() <= 0x7fff);
    assert(item_bytes(it)[0] == w % 256 && item_bytes(it)[1] == w / 256);
    assert(b.subrange(2, 2 + it.content.len() as int) =~= it.content);
    assert(b.skip(2 + it.content.len() as int) =~= encode(es.skip(1)));
    assert forall|i: int| 0 <= i < es.skip(1).len() implies (
    #[trigger] es.skip(1)[i]).content.len() <= 0x7fff by {
        assert(es[i + 1].content.len() <= 0x7fff);
    }
}

impl<const CAP: usize> LogRing<CAP> {
    /// Whether the buffer is empty.
    pub fn is_empty(&self) -> (r: bool)
        requires
            self.inv(),
        ensures
            r == (self.items().len() == 0 && !self.busy()),
    {
        proof {
            if self.entries@.len() > 0 {
                lemma_encode_front(self.entries@);
            }
        }
        self.len == 0
    }

    /// Whether an entry is being written.
    pub fn is_busy(&self) -> (r: bool)
        ensures
            r == self.busy(),
    {
        self.writing
    }

    /// Bytes in use, length words included and line ends not.
    pub fn bytes_pending(&self) -> (r: usize)
        requires
            self.inv(),
        ensures
            r <= CAP,
            !self.busy() ==> r == encode(self.items()).len(),
            forall|mark: EntryMark|
                #[trigger] self.open_at(mark) ==> r == encode(self.items()).len() + 2 + self.draft(
                    mark,
                ).len(),
    {
        self.len
    }

    /// Move the entries to the front of the buffer.
    fn compact(&mut self)
        requires
            old(self).inv(),
        ensures
            final(self).inv(),
            final(self).head == 0,
            final(self).len == old(self).len,
            final(self).writing == old(self).writing,
            final(self).dropped == old(self).dropped,
            final(self).entries == old(self).entries,
            final(self).buf@.subrange(0, old(self).len as int) == old(self).buf@.subrange(
                old(self).head as int,
                old(self).head + old(self).len,
            ),
    {
        let head: usize = self.head;
        let len: usize = self.len;
        let ghost b0 = self.buf@;
        let ghost done = encode(self.entries@).len() as int;
        if head > 0 {
            let mut i: usize = 0;
            while i < len
                invariant
                    i <= len,
                    head > 0,
                    head + len <= CAP,
                    b0.len() == CAP,
                    self.buf@.len() == CAP,
                    self.head == head,
                    self.len == len,
                    self.writing == old(self).writing,
                    self.dropped == old(self).dropped,
                    self.entries == old(self).entries,
                    forall|j: int| 0 <= j < i ==> self.buf@[j] == b0[head + j],
                    forall|j: int| i <= j < CAP ==> self.buf@[j] == b0[j],
                decreases len - i,
            {
                let byte: u8 = self.buf[head + i];
                self.buf[i] = byte;
                i += 1;
            }
            self.head = 0;
        }
        proof {
            assert(self.buf@.subrange(0, len as int) =~= b0.subrange(head as int, head + len));
            assert(self.buf@.subrange(0, done) =~= b0.subrange(head as int, head + done));
        }
    }

    /// The length word at `pos`.
    fn length_at(&self, pos: usize) -> (r: u16)
        requires
            pos + 1 < self.buf@.len(),
        ensures
            r == self.buf@[pos as int] + 256 * self.buf@[pos + 1],
    {
        self.buf[pos] as u16 + 256 * (self.buf[pos + 1] as u16)
    }

    /// Drop the oldest entry.
    fn drop_oldest(&mut self)
        requires
            old(self).inv(),
            old(self).entries@.len() > 0,
            old(self).dropped < usize::MAX,
        ensures
            final(self).inv(),
            final(self).buf == old(self).buf,
            final(self).writing == old(self).writing,
            final(self).dropped == old(self).dropped + 1,
            final(self).entries@ == old(self).entries@.skip(1),
            final(self).head + encode(final(self).entries@).len() == old(self).head + encode(
                old(self).entries@,
            ).len() || (!old(self).writing && final(self).len == 0),
            final(self).head + final(self).len == old(self).head + old(self).len || (!old(
                self,
            ).writing && final(self).len == 0),
            encode(final(self).entries@).len() < encode(old(self).entries@).len(),
    {
        let ghost es = self.entries@;
        let ghost done = encode(es).len() as int;
        let ghost b = self.buf@.subrange(self.head as int, self.head + done);
        proof {
            lemma_first(b, es);
            assert(b[0] == self.buf@[self.head as int] && b[1] == self.buf@[self.head + 1]);
        }
        let step: usize = HEADER + (self.length_at(self.head) % 0x8000) as usize;
        let ghost head0 = self.head as int;
        self.head = self.head + step;
        self.len = self.len - step;
        self.dropped = self.dropped + 1;
        self.entries = Ghost(es.skip(1));
        proof {
            assert(self.buf@.subrange(self.head as int, head0 + done) =~= b.skip(step as int));
        }
        if self.head >= CAP {
            self.head = 0;
            self.len = 0;
            proof {
                assert(self.buf@.subrange(0, 0) =~= encode(es.skip(1)));
            }
        }
    }

    /// Begin an entry, dropping the oldest ones until its length word fits.
    ///
    /// `None` if it does not even fit into an empty buffer; the entry then counts
    /// as lost.
    pub fn begin_entry(&mut self) -> (r: Option<EntryMark>)
        requires
            old(self).inv(),
            !old(self).busy(),
            old(self).losses() + CAP + 1 <= usize::MAX,
        ensures
            final(self).inv(),
            r is Some <==> CAP >= 2,
            final(self).busy() == (r is Some),
            ({
                let gone = excess(old(self).items(), CAP - 2);
                &&& final(self).items() == old(self).items().skip(gone)
                &&& final(self).losses() == old(self).losses() + gone + if r is Some {
                    0int
                } else {
                    1
                }
            }),
            r is Some ==> final(self).open_at(r->0) && final(self).draft(r->0) == Seq::<
                u8,
            >::empty() && !r->0.cut(),
    {
        let ghost es = self.entries@;
        let ghost room = CAP - 2;
        let ghost mut gone: int = 0;
        proof {
            assert(es.skip(0) =~= es);
            lemma_count(es);
        }
        loop
            invariant
                self.inv(),
                !self.writing,
                es == old(self).entries@,
                room == CAP - 2,
                0 <= gone <= es.len(),
                es.len() <= CAP,
                self.entries@ == es.skip(gone),
                self.dropped == old(self).dropped + gone,
                old(self).dropped + CAP + 1 <= usize::MAX,
                excess(es, room) == gone + excess(es.skip(gone), room),
            decreases es.len() - gone,
        {
            self.compact();
            if CAP >= HEADER && CAP - self.len >= HEADER {
                let mark = EntryMark { start: self.head + self.len, len: 0, truncated: false };
                self.len = self.len + HEADER;
                self.writing = true;
                assert(self.draft(mark) =~= Seq::<u8>::empty());
                return Some(mark);
            }
            if self.len == 0 {
                proof {
                    if self.entries@.len() > 0 {
                        lemma_encode_front(self.entries@);
                    }
                    assert(es.skip(gone).len() == 0);
                }
                self.dropped = self.dropped + 1;
                return None;
            }
            assert(es.skip(gone).skip(1) =~= es.skip(gone + 1));
            self.drop_oldest();
            proof {
                gone = gone + 1;
            }
        }
    }

    /// Add bytes to an entry.
    ///
    /// When they do not fit, entries older than this one are dropped. If they
    /// still do not fit, nothing is added, and the entry counts as cut short.
    #[verifier::rlimit(30)]
    pub fn append_to_entry(&mut self, mark: &mut EntryMark, bytes: &[u8]) -> (r: bool)
        requires
            old(self).open_at(*old(mark)),
            old(self).losses() + CAP + 1 <= usize::MAX,
        ensures
            final(self).inv(),
            final(self).open_at(*final(mark)),
            ({
                let used = 2 + old(self).draft(*old(mark)).len() + bytes@.len();
                let gone = excess(old(self).items(), CAP - used);
                &&& r == (used <= CAP)
                &&& final(self).items() == old(self).items().skip(gone)
                &&& final(self).losses() == old(self).losses() + gone
                &&& final(self).draft(*final(mark)) == (if r {
                    old(self).draft(*old(mark)) + bytes@
                } else {
                    old(self).draft(*old(mark))
                })
                &&& final(mark).cut() == (old(mark).cut() || !r)
            }),
    {
        let ghost es = self.entries@;
        let ghost draft = self.draft(*mark);
        let ghost used = 2 + draft.len() + bytes@.len();
        let ghost room = CAP - used;
        let ghost mut gone: int = 0;
        let ghost cut = mark.truncated;
        proof {
            assert(es.skip(0) =~= es);
            lemma_count(es);
        }
        loop
            invariant
                self.open_at(*mark),
                es == old(self).entries@,
                draft == old(self).draft(*old(mark)),
                self.draft(*mark) == draft,
                mark.truncated == cut,
                cut == old(mark).truncated,
                used == 2 + draft.len() + bytes@.len(),
                room == CAP - used,
                0 <= gone <= es.len(),
                es.len() <= CAP,
                self.entries@ == es.skip(gone),
                self.dropped == old(self).dropped + gone,
                old(self).dropped + CAP + 1 <= usize::MAX,
                excess(es, room) == gone + excess(es.skip(gone), room),
            decreases es.len() - gone,
        {
            let ghost done = encode(self.entries@).len() as int;
            if self.head > 0 {
                let shift: usize = self.head;
                let ghost b0 = self.buf@;
                let ghost start0 = mark.start as int;
                let ghost len0 = self.len as int;
                self.compact();
                mark.start = mark.start - shift;
                proof {
                    let a = self.buf@.subrange(0, len0);
                    let b = b0.subrange(shift as int, shift + len0);
                    assert(self.draft(*mark) =~= a.subrange(done + 2, done + 2 + mark.len));
                    assert(b0.subrange(start0 + 2, start0 + 2 + mark.len) =~= b.subrange(
                        done + 2,
                        done + 2 + mark.len,
                    ));
                }
            }
            let tail: usize = self.len;
            if bytes.len() <= CAP - tail {
                let ghost b1 = self.buf@;
                let mut i: usize = 0;
                while i < bytes.len()
                    invariant
                        i <= bytes@.len(),
                        tail + bytes@.len() <= CAP,
                        self.buf@.len() == CAP,
                        self.head == 0,
                        self.len == tail,
                        self.writing,
                        self.dropped == old(self).dropped + gone,
                        self.entries@ == es.skip(gone),
                        b1.len() == CAP,
                        forall|j: int| 0 <= j < tail ==> self.buf@[j] == b1[j],
                        forall|j: int| 0 <= j < i ==> self.buf@[tail + j] == bytes@[j],
                    decreases bytes@.len() - i,
                {
                    self.buf[tail + i] = bytes[i];
                    i += 1;
                }
                self.len = tail + bytes.len();
                mark.len = mark.len + bytes.len();
                proof {
                    assert(self.buf@.subrange(0, done) =~= b1.subrange(0, done));
                    assert(self.draft(*mark) =~= draft + bytes@);
                }
                return true;
            }
            if self.head >= mark.start {
                proof {
                    if self.entries@.len() > 0 {
                        lemma_encode_front(self.entries@);
                    }
                    assert(es.skip(gone).len() == 0);
                }
                mark.truncated = true;
                return false;
            }
            proof {
                assert(self.entries@.len() > 0) by {
                    if self.entries@.len() == 0 {
                        assert(encode(self.entries@).len() == 0);
                    }
                }
                assert(es.skip(gone).skip(1) =~= es.skip(gone + 1));
            }
            self.drop_oldest();
            proof {
                gone = gone + 1;
            }
        }
    }

    /// Complete an entry: fill in its length word.
    pub fn commit_entry(&mut self, mark: &EntryMark)
        requires
            old(self).open_at(*mark),
        ensures
            final(self).inv(),
            !final(self).busy(),
            final(self).losses() == old(self).losses(),
            final(self).items() == old(self).items().push(
                Item { content: old(self).draft(*mark), truncated: mark.cut() },
            ),
    {
        let ghost es = self.entries@;
        let ghost it = Item { content: self.draft(*mark), truncated: mark.truncated };
        let ghost b0 = self.buf@;
        let ghost head = self.head as int;
        let ghost done = encode(es).len() as int;
        let high: u16 = if mark.truncated {
            0x80
        } else {
            0
        };
        let length: u16 = mark.len as u16;
        self.buf[mark.start] = (length % 256) as u8;
        self.buf[mark.start + 1] = (length / 256 + high) as u8;
        self.writing = false;
        self.entries = Ghost(es.push(it));
        proof {
            assert(es.push(it).drop_last() =~= es);
            let whole = self.buf@.subrange(head, head + self.len);
            assert(self.buf@.subrange(head, head + done) =~= b0.subrange(head, head + done));
            assert(self.buf@.subrange(mark.start + 2, head + self.len) =~= it.content);
            assert(whole =~= encode(es) + item_bytes(it));
        }
    }
}

/// There are no more entries than bytes.
proof fn lemma_count(es: Seq<Item>)
    ensures
        2 * es.len() <= encode(es).len(),
    decreases es.len(),
{
    if es.len() > 0 {
        lemma_count(es.drop_last());
    }
}

impl<const CAP: usize> LogRing<CAP> {
    /// Every entry takes at least the two bytes of its length.
    pub proof fn lemma_entries_are_bounded(self)
        requires
            self.inv(),
        ensures
            2 * self.items().len() <= CAP,
            self.losses() >= 0,
    {
        lemma_count(self.entries@);
    }
}

// ---------------------------------------------------------------------------
// Draining
// ---------------------------------------------------------------------------

/// A character takes at most four bytes.
proof fn lemma_utf8_len(chars: Seq<char>)
    ensures
        encode_utf8(chars).len() <= 4 * chars.len(),
    decreases chars.len(),
{
    if chars.len() > 0 {
        lemma_utf8_len(chars.drop_first());
    }
}

/// The markers are short.
proof fn lemma_markers_are_short(n: u64)
    ensures
        trunc_marker().len() <= 16,
        "[日志缓冲溢出, 丢弃 ".spec_bytes().len() <= 48,
        " 条]\n".spec_bytes().len() <= 16,
        drop_marker(n as int).len() <= 84,
{
    reveal_strlit("[截断]");
    reveal_strlit("[日志缓冲溢出, 丢弃 ");
    reveal_strlit(" 条]\n");
    lemma_utf8_len("[截断]"@);
    lemma_utf8_len("[日志缓冲溢出, 丢弃 "@);
    lemma_utf8_len(" 条]\n"@);
    reveal_with_fuel(crate::text::pow10, 21);
    crate::text::lemma_decimal_len(n as int, 20);
}

/// Entries take up little more as lines than in the buffer.
proof fn lemma_lines_are_short(es: Seq<Item>)
    ensures
        render_all(es).len() <= 9 * encode(es).len(),
    decreases es.len(),
{
    lemma_markers_are_short(0);
    if es.len() > 0 {
        lemma_lines_are_short(es.drop_last());
    }
}

/// The markers as bytes.
fn drop_prefix() -> (r: &'static [u8])
    ensures
        r@ == "[日志缓冲溢出, 丢弃 ".spec_bytes(),
        r@.len() <= 48,
{
    proof {
        lemma_markers_are_short(0);
    }
    "[日志缓冲溢出, 丢弃 ".as_bytes()
}

fn drop_suffix() -> (r: &'static [u8])
    ensures
        r@ == " 条]\n".spec_bytes(),
        r@.len() <= 16,
{
    proof {
        lemma_markers_are_short(0);
    }
    " 条]\n".as_bytes()
}

fn truncation() -> (r: &'static [u8])
    ensures
        r@ == trunc_marker(),
        r@.len() <= 16,
{
    proof {
        lemma_markers_are_short(0);
    }
    "[截断]".as_bytes()
}

/// One more entry fits.
proof fn lemma_fitting_step(es: Seq<Item>, k: int, budget: int)
    requires
        0 <= k < es.len(),
        fitting(es, budget) == k + fitting(es.skip(k), budget - render_all(es.take(k)).len()),
        render(es[k]).len() <= budget - render_all(es.take(k)).len(),
    ensures
        fitting(es, budget) == k + 1 + fitting(
            es.skip(k + 1),
            budget - render_all(es.take(k + 1)).len(),
        ),
        render_all(es.take(k + 1)) == render_all(es.take(k)) + render(es[k]),
{
    assert(es.take(k + 1).drop_last() =~= es.take(k));
    assert(es.take(k + 1).last() == es[k]);
    assert(es.skip(k)[0] == es[k]);
    assert(es.skip(k).skip(1) =~= es.skip(k + 1));
}

impl<const CAP: usize> LogRing<CAP> {
    /// Report the losses, if there are any.
    fn emit_drop_marker(&mut self, out: &mut Vec<u8>) -> (r: usize)
        requires
            old(self).inv(),
        ensures
            final(self).inv(),
            final(self).head == old(self).head,
            final(self).len == old(self).len,
            final(self).buf == old(self).buf,
            final(self).writing == old(self).writing,
            final(self).entries == old(self).entries,
            final(self).dropped == 0,
            final(out)@ == old(out)@ + drop_marker(old(self).losses()),
            r == drop_marker(old(self).losses()).len(),
    {
        if self.dropped == 0 {
            assert(out@ + Seq::<u8>::empty() =~= out@);
            return 0;
        }
        let dropped: usize = self.dropped;
        let ghost before = out@;
        push_bytes(out, drop_prefix());
        push_decimal(out, dropped as u64);
        push_bytes(out, drop_suffix());
        self.dropped = 0;
        assert(out@ =~= before + drop_marker(dropped as int));
        drop_prefix().len() + drop_suffix().len() + decimal_len(dropped as u64)
    }

    /// Append the first entry at `pos` as it is drained.
    fn emit(
        &self,
        pos: usize,
        out: &mut Vec<u8>,
        Ghost(it): Ghost<Item>,
    )
        requires
            pos + 2 + it.content.len() <= self.buf@.len(),
            it.content.len() <= 0x7fff,
            self.buf@[pos as int] + 256 * self.buf@[pos + 1] == length_word(it),
            self.buf@.subrange(pos + 2, pos + 2 + it.content.len()) == it.content,
        ensures
            final(out)@ == old(out)@ + render(it),
    {
        let ghost before = out@;
        let word: u16 = self.length_at(pos);
        let entry_len: usize = (word % 0x8000) as usize;
        assert(entry_len == it.content.len());
        if entry_len != 0 {
            push_bytes(out, &self.buf[pos + HEADER..pos + HEADER + entry_len]);
            if word >= LEN_FLAG_TRUNCATED {
                push_bytes(out, truncation());
            }
            out.push(0x0a);
            assert(out@ =~= before + render(it));
        } else {
            assert(out@ =~= before + render(it));
        }
    }

    /// Take the entries that fit, one after the other.
    #[verifier::rlimit(40)]
    fn drain_limited(&mut self, out: &mut Vec<u8>, limit: usize) -> (r: usize)
        requires
            old(self).inv(),
            !old(self).busy(),
        ensures
            final(self).inv(),
            !final(self).busy(),
            ({
                let es = old(self).items();
                let marker = drop_marker(old(self).losses());
                let n = fitting(es, limit - marker.len());
                if marker.len() > limit {
                    &&& r == 0
                    &&& final(out)@ == old(out)@
                    &&& final(self).items() == es
                    &&& final(self).losses() == old(self).losses()
                } else {
                    &&& final(self).items() == es.skip(n)
                    &&& final(self).losses() == 0
                    &&& final(out)@ == old(out)@ + marker + render_all(es.take(n))
                    &&& r == marker.len() + render_all(es.take(n)).len()
                    &&& 0 <= n <= es.len()
                }
            }),
    {
        let ghost es = self.entries@;
        let ghost before = out@;
        let ghost marker = drop_marker(self.dropped as int);
        let ghost budget = limit - marker.len();
        let mut copied: usize = 0;
        if self.dropped > 0 {
            let marker_len: usize = drop_prefix().len() + drop_suffix().len() + decimal_len(
                self.dropped as u64,
            );
            assert(marker_len == marker.len());
            if marker_len > limit {
                return 0;
            }
            copied = self.emit_drop_marker(out);
        } else {
            assert(before + marker =~= before);
        }
        let ghost head = self.head as int;
        let ghost mut k: int = 0;
        let mut pos: usize = self.head;
        let end: usize = self.head + self.len;
        proof {
            assert(es.skip(0) =~= es);
            assert(es.take(0) =~= Seq::<Item>::empty());
            assert(before + marker + render_all(es.take(0)) =~= before + marker);
            assert(self.buf@.subrange(head, end as int) == encode(es));
            lemma_render_part(es, 0);
        }
        let mut fits: bool = true;
        while fits && pos < end
            invariant
                self.inv(),
                !self.writing,
                self.dropped == 0,
                self.entries@ == es,
                self.head == head,
                self.buf@.len() == CAP,
                items_ok(es),
                end == head + encode(es).len(),
                end <= CAP,
                0 <= k <= es.len(),
                head <= pos <= end,
                self.buf@.subrange(pos as int, end as int) == encode(es.skip(k)),
                budget == limit - marker.len(),
                marker.len() <= limit,
                copied == marker.len() + render_all(es.take(k)).len(),
                copied <= limit,
                out@ == before + marker + render_all(es.take(k)),
                fits ==> fitting(es, budget) == k + fitting(
                    es.skip(k),
                    budget - render_all(es.take(k)).len(),
                ),
                !fits ==> fitting(es, budget) == k,
            decreases end - pos, (if fits { 1int } else { 0 }),
        {
            proof {
                if es.skip(k).len() == 0 {
                    assert(encode(es.skip(k)).len() == 0);
                }
                let b = self.buf@.subrange(pos as int, end as int);
                assert(items_ok(es.skip(k))) by {
                    assert forall|i: int| 0 <= i < es.skip(k).len() implies (
                    #[trigger] es.skip(k)[i]).content.len() <= 0x7fff by {
                        assert(es[i + k].content.len() <= 0x7fff);
                    }
                }
                lemma_first(b, es.skip(k));
                assert(b[0] == self.buf@[pos as int] && b[1] == self.buf@[pos + 1]);
                assert(es.skip(k)[0] == es[k]);
                let c = es[k].content;
                assert(self.buf@.subrange(pos + 2, pos + 2 + c.len()) =~= b.subrange(
                    2,
                    2 + c.len() as int,
                ));
                lemma_render_part(es, k + 1);
                assert(es.take(k + 1).drop_last() =~= es.take(k));
                assert(es.take(k + 1).last() == es[k]);
            }
            let ghost it = es[k];
            let word: u16 = self.length_at(pos);
            let entry_len: usize = (word % 0x8000) as usize;
            let mut total: usize = 0;
            if entry_len != 0 {
                total = entry_len + 1;
                if word >= LEN_FLAG_TRUNCATED {
                    total = total + truncation().len();
                }
            }
            assert(total == render(it).len());
            if total > limit - copied {
                fits = false;
            } else {
                self.emit(pos, out, Ghost(it));
                let ghost b = self.buf@.subrange(pos as int, end as int);
                copied = copied + total;
                pos = pos + HEADER + entry_len;
                proof {
                    lemma_fitting_step(es, k, budget);
                    assert(es.skip(k).skip(1) =~= es.skip(k + 1));
                    assert(self.buf@.subrange(pos as int, end as int) =~= b.skip(
                        2 + it.content.len() as int,
                    ));
                    assert(before + marker + render_all(es.take(k)) + render(it) =~= before + marker
                        + render_all(es.take(k + 1)));
                    k = k + 1;
                }
            }
        }
        proof {
            if fits {
                if es.skip(k).len() > 0 {
                    lemma_encode_front(es.skip(k));
                }
            }
            assert(fitting(es, budget) == k);
        }
        let consumed: usize = pos - self.head;
        self.head = self.head + consumed;
        self.len = self.len - consumed;
        self.entries = Ghost(es.skip(k));
        proof {
            assert forall|i: int| 0 <= i < es.skip(k).len() implies (
            #[trigger] es.skip(k)[i]).content.len() <= 0x7fff by {
                assert(es[i + k].content.len() <= 0x7fff);
            }
        }
        if self.head >= CAP {
            self.head = 0;
            self.len = 0;
            assert(self.buf@.subrange(0, 0) =~= encode(es.skip(k)));
        }
        copied
    }

    /// Draining all entries, which took the buffer from `before` to `self`, appended to
    /// `out` what now makes up `grown`: `r` bytes.
    pub open spec fn drained(self, before: Self, out: Seq<u8>, grown: Seq<u8>, r: int) -> bool {
        &&& self.busy() == before.busy()
        &&& if before.busy() {
            r == 0 && self == before && grown == out
        } else {
            &&& self.items() == Seq::<Item>::empty()
            &&& self.losses() == 0
            &&& grown == out + drop_marker(before.losses()) + render_all(before.items())
            &&& r == drop_marker(before.losses()).len() + render_all(before.items()).len()
        }
    }

    /// The same for draining what fits into `limit` bytes.
    pub open spec fn drained_limited(
        self,
        before: Self,
        out: Seq<u8>,
        limit: int,
        grown: Seq<u8>,
        r: int,
    ) -> bool {
        let es = before.items();
        let marker = drop_marker(before.losses());
        let n = fitting(es, limit - marker.len());
        &&& self.busy() == before.busy()
        &&& if before.busy() || marker.len() > limit {
            &&& r == 0
            &&& grown == out
            &&& self.items() == es
            &&& self.losses() == before.losses()
        } else {
            &&& self.items() == es.skip(n)
            &&& self.losses() == 0
            &&& grown == out + marker + render_all(es.take(n))
            &&& r == marker.len() + render_all(es.take(n)).len()
        }
    }

    /// Drain all entries, one line each, behind a marker for the lost ones.
    ///
    /// Nothing happens while an entry is being written. The result is the number
    /// of bytes.
    pub fn drain_into(&mut self, out: &mut Vec<u8>) -> (r: usize)
        requires
            old(self).inv(),
        ensures
            final(self).inv(),
            final(self).drained(*old(self), old(out)@, final(out)@, r as int),
    {
        if self.writing {
            return 0;
        }
        let ghost es = self.entries@;
        let ghost marker = drop_marker(self.dropped as int);
        proof {
            lemma_markers_are_short(self.dropped as u64);
            lemma_lines_are_short(es);
            lemma_all_fit(es, usize::MAX - marker.len());
            assert(es.take(es.len() as int) =~= es);
            assert(es.skip(es.len() as int) =~= Seq::<Item>::empty());
        }
        self.drain_limited(out, usize::MAX)
    }

    /// Drain the entries that fit into `limit` bytes as a whole, markers and line
    /// ends included; the others stay.
    ///
    /// The marker for lost entries comes first: if it does not fit, nothing is
    /// taken.
    pub fn drain_into_limited(&mut self, out: &mut Vec<u8>, limit: usize) -> (r: usize)
        requires
            old(self).inv(),
        ensures
            final(self).inv(),
            final(self).drained_limited(
                *old(self),
                old(out)@,
                limit as int,
                final(out)@,
                r as int,
            ),
    {
        if self.writing {
            return 0;
        }
        self.drain_limited(out, limit)
    }

    /// Drain the first entry, however long it is, behind a marker for the lost
    /// ones.
    pub fn drain_oldest_entry(&mut self, out: &mut Vec<u8>) -> (r: usize)
        requires
            old(self).inv(),
        ensures
            final(self).inv(),
            final(self).busy() == old(self).busy(),
            ({
                let es = old(self).items();
                let n = if es.len() > 0 {
                    1int
                } else {
                    0
                };
                let text = drop_marker(old(self).losses()) + render_all(es.take(n));
                if old(self).busy() {
                    r == 0 && *final(self) == *old(self) && final(out)@ == old(out)@
                } else {
                    &&& final(self).items() == es.skip(n)
                    &&& final(self).losses() == 0
                    &&& final(out)@ == old(out)@ + text
                    &&& r == text.len()
                }
            }),
    {
        if self.writing {
            return 0;
        }
        let ghost es = self.entries@;
        let ghost before = out@;
        let ghost marker = drop_marker(self.dropped as int);
        let copied: usize = self.emit_drop_marker(out);
        proof {
            if es.len() > 0 {
                lemma_encode_front(es);
            }
            assert(es.take(0) =~= Seq::<Item>::empty());
            assert(es.skip(0) =~= es);
        }
        if self.len == 0 {
            assert(out@ =~= before + (marker + render_all(es.take(0))));
            return copied;
        }
        let total: usize = self.take_first(out);
        proof {
            lemma_render_one(es);
            lemma_render_part(es, 1);
            assert(out@ =~= before + (marker + render_all(es.take(1))));
            lemma_markers_are_short(old(self).dropped as u64);
            assert(es[0].content.len() <= 0x7fff);
        }
        copied + total
    }

    /// Take the first entry out.
    #[verifier::spinoff_prover]
    #[verifier::rlimit(40)]
    fn take_first(&mut self, out: &mut Vec<u8>) -> (r: usize)
        requires
            old(self).inv(),
            !old(self).busy(),
            old(self).items().len() > 0,
        ensures
            final(self).inv(),
            !final(self).busy(),
            final(self).items() == old(self).items().skip(1),
            final(self).losses() == old(self).losses(),
            final(out)@ == old(out)@ + render(old(self).items()[0]),
            r == render(old(self).items()[0]).len(),
    {
        let ghost es = self.entries@;
        let ghost head = self.head as int;
        let ghost done = encode(es).len() as int;
        let ghost it = es[0];
        let ghost b = self.buf@.subrange(head, head + done);
        proof {
            lemma_first(b, es);
            lemma_encode_front(es);
            lemma_render_front(es);
            assert(b[0] == self.buf@[head] && b[1] == self.buf@[head + 1]);
            assert(self.buf@.subrange(head + 2, head + 2 + it.content.len()) =~= b.subrange(
                2,
                2 + it.content.len() as int,
            ));
        }
        let word: u16 = self.length_at(self.head);
        let entry_len: usize = (word % 0x8000) as usize;
        self.emit(self.head, out, Ghost(it));
        let mut total: usize = 0;
        if entry_len != 0 {
            total = entry_len + 1;
            if word >= LEN_FLAG_TRUNCATED {
                total = total + truncation().len();
            }
        }
        assert(total == render(it).len());
        let step: usize = HEADER + entry_len;
        self.head = self.head + step;
        self.len = self.len - step;
        self.entries = Ghost(es.skip(1));
        assert(self.buf@.subrange(self.head as int, head + done) =~= b.skip(step as int));
        if self.head >= CAP {
            self.head = 0;
            self.len = 0;
            assert(self.buf@.subrange(0, 0) =~= encode(es.skip(1)));
        }
        total
    }
}

proof fn lemma_render_one(es: Seq<Item>)
    requires
        es.len() > 0,
    ensures
        render_all(es.take(1)) == render(es[0]),
{
    assert(es.take(1).drop_last() =~= Seq::<Item>::empty());
    assert(es.take(1).last() == es[0]);
    reveal_with_fuel(render_all, 2);
    assert(render_all(es.take(1)) =~= render(es[0]));
}

/// A part is no longer than the whole.
proof fn lemma_render_part(es: Seq<Item>, k: int)
    requires
        0 <= k <= es.len(),
    ensures
        render_all(es.take(k)).len() <= render_all(es).len(),
    decreases es.len() - k,
{
    if k == es.len() {
        assert(es.take(k) =~= es);
    } else {
        lemma_render_part(es, k + 1);
        assert(es.take(k + 1).drop_last() =~= es.take(k));
    }
}

/// With room for all of them, all fit.
proof fn lemma_all_fit(es: Seq<Item>, budget: int)
    requires
        render_all(es).len() <= budget,
    ensures
        fitting(es, budget) == es.len(),
    decreases es.len(),
{
    if es.len() > 0 {
        lemma_render_front(es);
        lemma_all_fit(es.skip(1), budget - render(es[0]).len());
    }
}

/// Only the oldest entries are dropped, and no more of them than has to be.
pub proof fn law_only_the_oldest_are_dropped(es: Seq<Item>, room: int)
    ensures
        0 <= excess(es, room) <= es.len(),
        excess(es, room) < es.len() ==> encode(es.skip(excess(es, room))).len() <= room,
        forall|k: int|
            0 <= k < excess(es, room) ==> encode(#[trigger] es.skip(k)).len() > room,
        encode(es).len() <= room ==> es.skip(excess(es, room)) == es,
    decreases es.len(),
{
    assert(es.skip(0) =~= es);
    if es.len() > 0 && encode(es).len() > room {
        let rest = es.skip(1);
        law_only_the_oldest_are_dropped(rest, room);
        let n = excess(rest, room);
        assert(rest.skip(n) =~= es.skip(n + 1));
        assert forall|k: int| 0 <= k < excess(es, room) implies encode(#[trigger] es.skip(k)).len()
            > room by {
            if k > 0 {
                assert(rest.skip(k - 1) =~= es.skip(k));
            }
        }
    }
}

/// Draining in pieces gives out the same bytes as draining at once: what a limit
/// leaves behind is what comes next.
pub proof fn law_limited_drains_add_up(es: Seq<Item>, budget: int)
    ensures
        0 <= fitting(es, budget) <= es.len(),
        render_all(es.take(fitting(es, budget))) + render_all(es.skip(fitting(es, budget)))
            == render_all(es),
        budget >= 0 ==> render_all(es.take(fitting(es, budget))).len() <= budget,
        budget >= 0 && fitting(es, budget) < es.len() ==> render_all(
            es.take(fitting(es, budget) + 1),
        ).len() > budget,
    decreases es.len(),
{
    let n = fitting(es, budget);
    if es.len() == 0 || render(es[0]).len() > budget {
        assert(es.take(0) =~= Seq::<Item>::empty());
        assert(es.skip(0) =~= es);
        assert(render_all(es.take(0)) + render_all(es.skip(0)) =~= render_all(es));
        if es.len() > 0 {
            lemma_render_one(es);
        }
    } else {
        let rest = es.skip(1);
        let left = budget - render(es[0]).len();
        law_limited_drains_add_up(rest, left);
        let m = fitting(rest, left);
        lemma_render_front(es);
        lemma_render_front(es.take(n));
        assert(es.take(n).skip(1) =~= rest.take(m));
        assert(es.skip(n) =~= rest.skip(m));
        assert(render_all(es.take(n)) + render_all(es.skip(n)) =~= render(es[0]) + (render_all(
            rest.take(m),
        ) + render_all(rest.skip(m))));
        if n < es.len() {
            lemma_render_front(es.take(n + 1));
            assert(es.take(n + 1).skip(1) =~= rest.take(m + 1));
        }
    }
}

/// The contents of entries, one line each.
pub open spec fn lines(es: Seq<Item>) -> Seq<u8>
    decreases es.len(),
{
    if es.len() == 0 {
        Seq::empty()
    } else {
        lines(es.drop_last()) + es.last().content + seq![0x0au8]
    }
}

/// The bytes of these lines.
pub open spec fn lines_len(es: Seq<Item>) -> int
    decreases es.len(),
{
    if es.len() == 0 {
        0
    } else {
        lines_len(es.drop_last()) + es.last().content.len() + 1
    }
}

/// Entries that are complete and not empty are drained as their lines.
proof fn lemma_complete_entries_are_lines(es: Seq<Item>)
    requires
        forall|i: int|
            0 <= i < es.len() ==> (#[trigger] es[i]).content.len() > 0 && !es[i].truncated,
    ensures
        render_all(es) == lines(es),
        lines(es).len() == lines_len(es),
    decreases es.len(),
{
    if es.len() > 0 {
        let head = es.drop_last();
        assert forall|i: int| 0 <= i < head.len() implies (#[trigger] head[i]).content.len() > 0
            && !head[i].truncated by {
            assert(head[i] == es[i]);
        }
        lemma_complete_entries_are_lines(head);
        assert(es[es.len() - 1].content.len() > 0);
        assert(render_all(es) =~= lines(es));
    }
}

/// With nothing lost, entries that are complete and not empty are drained in their order,
/// one line each, and with nothing else. The buffer is empty afterwards, so that draining
/// again gives nothing. While an entry is being written, nothing is drained.
pub proof fn law_entries_are_drained_as_lines<const CAP: usize>(
    before: LogRing<CAP>,
    after: LogRing<CAP>,
    out: Seq<u8>,
    grown: Seq<u8>,
    r: int,
    again: LogRing<CAP>,
    grown_again: Seq<u8>,
    r_again: int,
)
    requires
        after.drained(before, out, grown, r),
        again.drained(after, grown, grown_again, r_again),
        before.losses() == 0,
        forall|i: int|
            0 <= i < before.items().len() ==> (#[trigger] before.items()[i]).content.len() > 0
                && !before.items()[i].truncated,
    ensures
        !before.busy() ==> {
            &&& grown == out + lines(before.items())
            &&& r == lines_len(before.items())
            &&& after.items().len() == 0 && !after.busy()
            &&& r_again == 0 && grown_again == grown
        },
        before.busy() ==> r == 0 && after == before && grown == out,
{
    lemma_complete_entries_are_lines(before.items());
    if !before.busy() {
        assert(grown =~= out + lines(before.items()));
        assert(grown_again =~= grown);
    }
}

/// A limited drain keeps to its limit and ends behind an entry. Draining the rest then
/// gives what draining all at once would have: nothing is lost, split, repeated or
/// reordered, and the marker for lost entries comes before all of them.
pub proof fn law_limited_drains_lose_nothing<const CAP: usize>(
    before: LogRing<CAP>,
    middle: LogRing<CAP>,
    after: LogRing<CAP>,
    out: Seq<u8>,
    limit: int,
    part: Seq<u8>,
    n: int,
    all: Seq<u8>,
    m: int,
    other: LogRing<CAP>,
    other_after: LogRing<CAP>,
    other_all: Seq<u8>,
    k: int,
)
    requires
        limit >= 0,
        !before.busy(),
        !other.busy(),
        other.items() == before.items(),
        other.losses() == before.losses(),
        middle.drained_limited(before, out, limit, part, n),
        after.drained(middle, part, all, m),
        other_after.drained(other, out, other_all, k),
    ensures
        n <= limit,
        part.len() == out.len() + n,
        n == 0 && part == out || exists|i: int|
            0 <= i <= before.items().len() && part == out + drop_marker(before.losses())
                + #[trigger] render_all(before.items().take(i)),
        all == other_all,
        n + m == k,
{
    let es = before.items();
    let marker = drop_marker(before.losses());
    let i = fitting(es, limit - marker.len());
    law_limited_drains_add_up(es, limit - marker.len());
    if marker.len() <= limit {
        assert(part == out + marker + render_all(es.take(i)));
        assert(all =~= part + render_all(es.skip(i)));
        assert(other_all =~= out + marker + (render_all(es.take(i)) + render_all(es.skip(i))));
        assert(all =~= other_all);
        assert((render_all(es.take(i)) + render_all(es.skip(i))).len() == render_all(es).len());
    }
}

impl<const CAP: usize> Default for LogRing<CAP> {
    fn default() -> (r: Self)
        ensures
            CAP <= MAX_CAPACITY ==> r.inv(),
            r.items() == Seq::<Item>::empty(),
            r.losses() == 0,
            !r.busy(),
    {
        Self::new()
    }
}

} // verus!
