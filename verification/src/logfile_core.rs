//! Names of log files: their order, and which file is the newest or the oldest.
//!
//! The files of boot number `n` are `boot_<n>.log` for the first segment and
//! `boot_<n>_<segment>.log` for the next ones. The boot number is a 64-bit counter
//! that grows with every start; it is written with 20 digits, so that the
//! dictionary order of the names is the order in which the files came about and
//! no file has to be read to tell which is newer.
//!
//! When there are too many files, the one with the smallest boot number and
//! segment goes first. The names `log<slot>.log` of an older layout count as boot
//! number 0: they are the oldest. Boot numbers are compared in a way that holds
//! across a wrap-around.

use vstd::prelude::*;
use vstd::string::StringSliceAdditionalSpecFns;

use crate::text;

verus! {

/// The longest name of a log file.
pub const NAME_CAP: usize = 40;

/// The longest boot marker.
pub const MARKER_CAP: usize = 48;

/// `boot_`
pub open spec fn name_prefix() -> Seq<u8> {
    seq![0x62u8, 0x6f, 0x6f, 0x74, 0x5f]
}

/// `.log`
pub open spec fn name_suffix() -> Seq<u8> {
    seq![0x2eu8, 0x6c, 0x6f, 0x67]
}

/// `log`
pub open spec fn slot_prefix() -> Seq<u8> {
    seq![0x6cu8, 0x6f, 0x67]
}

/// The name of a log file.
pub open spec fn name_of(boot: u64, segment: u32) -> Seq<u8> {
    name_prefix() + text::padded(boot as int, 20) + (if segment == 0 {
        Seq::empty()
    } else {
        seq![0x5fu8] + text::padded(segment as int, 2)
    }) + name_suffix()
}

/// The boot number and the segment that a name stands for: behind `boot_` up to
/// twenty digits, then `.log`, or an underscore, two digits and `.log`.
pub open spec fn segment_of(name: Seq<u8>) -> Option<(u64, u32)> {
    let rest = name.skip(5);
    let n = text::digit_run(rest);
    let boot = text::value(rest.take(n));
    let tail = rest.skip(n);
    let segment = text::number(tail.subrange(1, 3));
    if !text::starts_with(name, name_prefix()) || n == 0 || n > 20 || boot > u64::MAX {
        None
    } else if tail == name_suffix() {
        Some((boot as u64, 0))
    } else if tail.len() == 7 && tail[0] == 0x5f && tail.skip(3) == name_suffix() && segment is Some {
        Some((boot as u64, segment->0 as u32))
    } else {
        None
    }
}

/// The slot that a name of the older layout stands for.
pub open spec fn slot_of(name: Seq<u8>) -> Option<(u64, u32)> {
    let number = name.subrange(3, name.len() - 4);
    if name.len() < 7 || !text::starts_with(name, slot_prefix()) || !text::ends_with(
        name,
        name_suffix(),
    ) || number.len() == 0 || number.len() > 3 || text::number(number) is None {
        None
    } else {
        Some((0, text::number(number)->0 as u32))
    }
}

/// Boot `a` came after boot `b`: at most half of the counter's range ahead of it.
#[verifier::opaque]
pub open spec fn later(a: u64, b: u64) -> bool {
    0 < (a - b) % 0x1_0000_0000_0000_0000 < 0x8000_0000_0000_0000
}

/// File `a` came after file `b`.
pub open spec fn file_later(a: (u64, u32), b: (u64, u32)) -> bool {
    if a.0 != b.0 {
        later(a.0, b.0)
    } else {
        a.1 > b.1
    }
}

/// What a boot writes first.
pub open spec fn marker_of(boot: u64) -> Seq<u8> {
    "\n----- boot #".spec_bytes() + text::decimal(boot as int) + " -----\n".spec_bytes()
}

/// The name of a log file; the first segment has no number.
pub fn segment_name(boot: u64, segment: u32, out: &mut [u8; NAME_CAP]) -> (r: &[u8])
    ensures
        r@ == name_of(boot, segment),
{
    let mut name: Vec<u8> = Vec::new();
    let prefix: [u8; 5] = [0x62, 0x6f, 0x6f, 0x74, 0x5f];
    let suffix: [u8; 4] = [0x2e, 0x6c, 0x6f, 0x67];
    text::push_bytes(&mut name, &prefix);
    text::push_padded(&mut name, boot, 20);
    if segment != 0 {
        name.push(0x5f);
        text::push_padded(&mut name, segment as u64, 2);
    }
    text::push_bytes(&mut name, &suffix);
    assert(name@ =~= name_of(boot, segment));
    proof {
        reveal_with_fuel(text::pow10, 21);
        text::lemma_decimal_len(boot as int, 20);
        text::lemma_decimal_len(segment as int, 10);
    }
    text::fill_front(out, &name);
    &out[0..name.len()]
}

/// Names are made of ASCII characters.
pub proof fn lemma_name_is_ascii(boot: u64, segment: u32)
    ensures
        forall|i: int|
            0 <= i < name_of(boot, segment).len() ==> #[trigger] name_of(boot, segment)[i] < 128,
{
    text::lemma_padded_is_ascii(boot as int, 20);
    text::lemma_padded_is_ascii(segment as int, 2);
}

/// The boot number and the segment that a name stands for.
pub fn parse_segment_name(name: &str) -> (r: Option<(u64, u32)>)
    ensures
        r == segment_of(name.spec_bytes()),
{
    let prefix: [u8; 5] = [0x62, 0x6f, 0x6f, 0x74, 0x5f];
    let suffix: [u8; 4] = [0x2e, 0x6c, 0x6f, 0x67];
    let underscore: [u8; 1] = [0x5f];
    assert(prefix@ =~= name_prefix());
    assert(suffix@ =~= name_suffix());
    let bytes: &[u8] = name.as_bytes();
    let ghost b = bytes@;
    let rest: &[u8] = match text::without_prefix(bytes, &prefix) {
        Some(rest) => rest,
        None => {
            return None;
        },
    };
    let digits: usize = text::count_digits(rest);
    if digits == 0 || digits > 20 {
        return None;
    }
    assert(rest@.subrange(0, digits as int) =~= rest@.take(digits as int));
    let boot: u64 = match text::parse_digits(&rest[0..digits]) {
        Some(boot) => boot,
        None => {
            return None;
        },
    };
    let tail: &[u8] = &rest[digits..rest.len()];
    assert(tail@ =~= rest@.skip(digits as int));
    if text::same_bytes(tail, &suffix) {
        return Some((boot, 0));
    }
    let behind: &[u8] = match text::without_prefix(tail, &underscore) {
        Some(behind) => behind,
        None => {
            assert(tail@.len() > 0 ==> tail@.take(1) =~= seq![tail@[0]]);
            assert(underscore@ =~= seq![0x5fu8]);
            return None;
        },
    };
    assert(tail@.take(1)[0] == tail@[0]);
    let segment: &[u8] = match text::without_suffix(behind, &suffix) {
        Some(segment) => segment,
        None => {
            assert(tail@.len() == 7 ==> behind@.skip(2) =~= tail@.skip(3));
            return None;
        },
    };
    if segment.len() != 2 {
        return None;
    }
    proof {
        assert(behind@.skip(2) =~= tail@.skip(3));
        assert(segment@ =~= tail@.subrange(1, 3));
        lemma_short_number(segment@);
    }
    match text::parse_number(segment) {
        Some(segment) => Some((boot, segment)),
        None => None,
    }
}

/// A number of at most three characters is small.
proof fn lemma_short_number(s: Seq<u8>)
    requires
        s.len() <= 3,
    ensures
        text::number(s) is Some ==> 0 <= text::number(s)->0 <= 999,
{
    if s.len() > 0 && text::all_digits(s) {
        reveal_with_fuel(text::value, 4);
        assert(text::is_digit(s[s.len() - 1]));
        if s.len() > 1 {
            assert(text::is_digit(s[s.len() - 2]));
        }
        if s.len() > 2 {
            assert(text::is_digit(s[s.len() - 3]));
        }
    }
}

/// The slot that a name of the older layout stands for, as a file of boot 0.
pub fn parse_legacy_slot_name(name: &str) -> (r: Option<(u64, u32)>)
    ensures
        r == slot_of(name.spec_bytes()),
{
    let prefix: [u8; 3] = [0x6c, 0x6f, 0x67];
    let suffix: [u8; 4] = [0x2e, 0x6c, 0x6f, 0x67];
    assert(prefix@ =~= slot_prefix());
    assert(suffix@ =~= name_suffix());
    let bytes: &[u8] = name.as_bytes();
    let ghost b = bytes@;
    let rest: &[u8] = match text::without_prefix(bytes, &prefix) {
        Some(rest) => rest,
        None => {
            return None;
        },
    };
    let digits: &[u8] = match text::without_suffix(rest, &suffix) {
        Some(digits) => digits,
        None => {
            assert(b.len() >= 7 ==> rest@.skip(rest@.len() - 4) =~= b.skip(b.len() - 4));
            return None;
        },
    };
    proof {
        assert(rest@.skip(rest@.len() - 4) =~= b.skip(b.len() - 4));
        assert(digits@ =~= b.subrange(3, b.len() - 4));
    }
    if digits.len() == 0 || digits.len() > 3 {
        return None;
    }
    proof {
        lemma_short_number(digits@);
    }
    match text::parse_number(digits) {
        Some(slot) => Some((0, slot)),
        None => None,
    }
}

/// Whether boot `a` came after boot `b`, across a wrap-around too.
pub fn boot_newer(a: u64, b: u64) -> (r: bool)
    ensures
        r == later(a, b),
{
    proof {
        reveal(later);
    }
    a != b && a.wrapping_sub(b) < 0x8000_0000_0000_0000
}

/// Whether file `a` came after file `b`.
pub fn segment_newer(a: (u64, u32), b: (u64, u32)) -> (r: bool)
    ensures
        r == file_later(a, b),
{
    if a.0 != b.0 {
        boot_newer(a.0, b.0)
    } else {
        a.1 > b.1
    }
}

/// The latest boot, going through the files in order.
pub open spec fn newest_in(files: Seq<(u64, u32)>) -> Option<u64>
    decreases files.len(),
{
    if files.len() == 0 {
        None
    } else {
        match newest_in(files.drop_last()) {
            Some(best) => if later(files.last().0, best) {
                Some(files.last().0)
            } else {
                Some(best)
            },
            None => Some(files.last().0),
        }
    }
}

/// The first file, going through the files in order.
pub open spec fn oldest_in(files: Seq<(u64, u32)>) -> Option<(u64, u32)>
    decreases files.len(),
{
    if files.len() == 0 {
        None
    } else {
        match oldest_in(files.drop_last()) {
            Some(first) => if file_later(first, files.last()) {
                Some(files.last())
            } else {
                Some(first)
            },
            None => Some(files.last()),
        }
    }
}

/// How many boots `boot` is ahead of `base`.
#[verifier::opaque]
pub open spec fn ahead(boot: u64, base: u64) -> int {
    (boot - base) % 0x1_0000_0000_0000_0000
}

/// All boots lie within half of the counter's range, from `base` on.
pub open spec fn within_half(files: Seq<(u64, u32)>, base: u64) -> bool {
    forall|i: int|
        0 <= i < files.len() ==> ahead((#[trigger] files[i]).0, base) < 0x8000_0000_0000_0000
}

/// Within half of the counter's range, what is further ahead came later.
proof fn lemma_later(a: u64, b: u64, base: u64)
    requires
        ahead(a, base) < 0x8000_0000_0000_0000,
        ahead(b, base) < 0x8000_0000_0000_0000,
    ensures
        later(a, b) == (ahead(a, base) > ahead(b, base)),
        ahead(a, base) == ahead(b, base) ==> a == b,
{
    reveal(ahead);
    reveal(later);
}

/// The latest boot of a set of files.
pub fn newest_boot(files: &[(u64, u32)]) -> (r: Option<u64>)
    ensures
        r == newest_in(files@),
{
    let mut best: Option<u64> = None;
    let mut i: usize = 0;
    assert(files@.take(0) =~= Seq::<(u64, u32)>::empty());
    while i < files.len()
        invariant
            i <= files@.len(),
            best == newest_in(files@.take(i as int)),
        decreases files@.len() - i,
    {
        assert(files@.take(i + 1).drop_last() =~= files@.take(i as int));
        let boot: u64 = files[i].0;
        let take: bool = match best {
            Some(current) => boot_newer(boot, current),
            None => true,
        };
        if take {
            best = Some(boot);
        }
        i += 1;
    }
    assert(files@.take(i as int) =~= files@);
    best
}

/// The first file of a set of files.
pub fn oldest_file(files: &[(u64, u32)]) -> (r: Option<(u64, u32)>)
    ensures
        r == oldest_in(files@),
{
    let mut oldest: Option<(u64, u32)> = None;
    let mut i: usize = 0;
    assert(files@.take(0) =~= Seq::<(u64, u32)>::empty());
    while i < files.len()
        invariant
            i <= files@.len(),
            oldest == oldest_in(files@.take(i as int)),
        decreases files@.len() - i,
    {
        assert(files@.take(i + 1).drop_last() =~= files@.take(i as int));
        let file: (u64, u32) = files[i];
        let take: bool = match oldest {
            Some(current) => segment_newer(current, file),
            None => true,
        };
        if take {
            oldest = Some(file);
        }
        i += 1;
    }
    assert(files@.take(i as int) =~= files@);
    oldest
}

/// The number of this boot: one more than the latest, 1 without any, and never 0.
pub fn next_boot(newest: Option<u64>) -> (r: u64)
    ensures
        r == (match newest {
            Some(n) => if n == u64::MAX {
                1
            } else {
                n + 1
            },
            None => 1,
        }),
        newest matches Some(n) ==> later(r, n),
{
    proof {
        reveal(later);
    }
    match newest {
        Some(n) => {
            if n == 0xffff_ffff_ffff_ffff {
                1
            } else {
                n + 1
            }
        },
        None => 1,
    }
}

/// What a boot writes first: `----- boot #<number> -----` on a line of its own.
pub fn format_boot_marker(boot: u64, out: &mut [u8; MARKER_CAP]) -> (r: &[u8])
    ensures
        r@ == marker_of(boot),
{
    let mut marker: Vec<u8> = Vec::new();
    text::push_bytes(&mut marker, "\n----- boot #".as_bytes());
    text::push_decimal(&mut marker, boot);
    text::push_bytes(&mut marker, " -----\n".as_bytes());
    proof {
        assert(marker@ =~= marker_of(boot));
        reveal_with_fuel(text::pow10, 21);
        text::lemma_decimal_len(boot as int, 20);
        reveal_strlit("\n----- boot #");
        reveal_strlit(" -----\n");
        vstd::string::is_ascii_spec_bytes("\n----- boot #");
        vstd::string::is_ascii_spec_bytes(" -----\n");
    }
    text::fill_front(out, &marker);
    &out[0..marker.len()]
}

/// As long as the boots lie within half of the counter's range, no file is of a
/// later boot than the latest, and the latest is that of a file.
pub proof fn law_newest_is_latest(files: Seq<(u64, u32)>, base: u64)
    requires
        files.len() > 0,
        within_half(files, base),
    ensures
        newest_in(files) is Some,
        exists|i: int| 0 <= i < files.len() && (#[trigger] files[i]).0 == newest_in(files)->0,
        forall|i: int|
            0 <= i < files.len() ==> (#[trigger] files[i]).0 == newest_in(files)->0 || later(
                newest_in(files)->0,
                files[i].0,
            ),
    decreases files.len(),
{
    let head = files.drop_last();
    let last = files[files.len() - 1];
    assert(within_half(head, base)) by {
        assert forall|i: int| 0 <= i < head.len() implies ahead(
            (#[trigger] head[i]).0,
            base,
        ) < 0x8000_0000_0000_0000 by {
            assert(files[i] == head[i]);
        }
    }
    if head.len() > 0 {
        law_newest_is_latest(head, base);
        let k = choose|i: int| 0 <= i < head.len() && (#[trigger] head[i]).0 == newest_in(head)->0;
        assert(files[k] == head[k]);
        lemma_later(head[k].0, last.0, base);
        lemma_later(last.0, head[k].0, base);
        assert forall|i: int| 0 <= i < files.len() implies (#[trigger] files[i]).0 == newest_in(
            files,
        )->0 || later(newest_in(files)->0, files[i].0) by {
            if i < head.len() {
                assert(head[i] == files[i]);
                lemma_later(head[k].0, files[i].0, base);
                lemma_later(files[i].0, head[k].0, base);
                lemma_later(last.0, files[i].0, base);
                lemma_later(files[i].0, last.0, base);
            }
        }
    }
}

/// As long as the boots lie within half of the counter's range, every other file
/// came after the first, and the first is one of them.
pub proof fn law_oldest_is_first(files: Seq<(u64, u32)>, base: u64)
    requires
        files.len() > 0,
        within_half(files, base),
    ensures
        oldest_in(files) is Some,
        files.contains(oldest_in(files)->0),
        forall|i: int|
            0 <= i < files.len() ==> #[trigger] files[i] == oldest_in(files)->0 || file_later(
                files[i],
                oldest_in(files)->0,
            ),
    decreases files.len(),
{
    let head = files.drop_last();
    let last = files[files.len() - 1];
    assert(within_half(head, base)) by {
        assert forall|i: int| 0 <= i < head.len() implies ahead(
            (#[trigger] head[i]).0,
            base,
        ) < 0x8000_0000_0000_0000 by {
            assert(files[i] == head[i]);
        }
    }
    if head.len() > 0 {
        law_oldest_is_first(head, base);
        let k = choose|i: int| 0 <= i < head.len() && head[i] == oldest_in(head)->0;
        assert(files[k] == head[k]);
        lemma_later(head[k].0, last.0, base);
        lemma_later(last.0, head[k].0, base);
        assert forall|i: int| 0 <= i < files.len() implies #[trigger] files[i] == oldest_in(
            files,
        )->0 || file_later(files[i], oldest_in(files)->0) by {
            if i < head.len() {
                assert(head[i] == files[i]);
                lemma_later(head[k].0, files[i].0, base);
                lemma_later(files[i].0, head[k].0, base);
                lemma_later(last.0, files[i].0, base);
                lemma_later(files[i].0, last.0, base);
            }
        }
    }
}

/// The name of a file with a two-digit segment reads back.
pub proof fn law_names_read_back(boot: u64, segment: u32)
    requires
        segment < 100,
    ensures
        segment_of(name_of(boot, segment)) == Some((boot, segment)),
{
    reveal_with_fuel(text::pow10, 21);
    let name = name_of(boot, segment);
    let digits = text::padded(boot as int, 20);
    text::lemma_padded_reads(boot as int, 20);
    let tail = if segment == 0 {
        name_suffix()
    } else {
        seq![0x5fu8] + text::padded(segment as int, 2) + name_suffix()
    };
    if segment != 0 {
        text::lemma_padded_reads(segment as int, 2);
    }
    let rest = name.skip(5);
    assert(name.take(5) =~= name_prefix());
    assert(rest =~= digits + tail);
    text::lemma_run_of(digits, tail);
    assert(rest.take(20) =~= digits);
    assert(rest.skip(20) =~= tail);
    if segment != 0 {
        let two = text::padded(segment as int, 2);
        assert(tail.subrange(1, 3) =~= two);
        assert(tail.skip(3) =~= name_suffix());
        assert(text::is_digit(two[0]));
        assert(tail.len() == 7);
    }
}

/// Names are in dictionary order when the files are in order: of two files with
/// two-digit segments, the one with the smaller boot number comes first, and the
/// smaller segment of the same boot.
pub proof fn law_names_are_ordered(a: (u64, u32), b: (u64, u32))
    requires
        a.1 < 100,
        b.1 < 100,
        a.0 < b.0 || (a.0 == b.0 && a.1 < b.1),
    ensures
        text::precedes(name_of(a.0, a.1), name_of(b.0, b.1)),
{
    reveal_with_fuel(text::pow10, 21);
    let na = name_of(a.0, a.1);
    let nb = name_of(b.0, b.1);
    let da = text::padded(a.0 as int, 20);
    let db = text::padded(b.0 as int, 20);
    text::lemma_padded_reads(a.0 as int, 20);
    text::lemma_padded_reads(b.0 as int, 20);
    if a.0 < b.0 {
        let i = text::lemma_padded_order(a.0 as int, b.0 as int, 20);
        assert(da[i] < db[i]);
        assert(na[5 + i] == da[i]);
        assert(nb[5 + i] == db[i]);
        assert forall|j: int| 0 <= j < 5 + i implies na[j] == nb[j] by {
            if j >= 5 {
                assert(da.take(i)[j - 5] == db.take(i)[j - 5]);
            }
        }
        assert(na.take(5 + i) =~= nb.take(5 + i));
        assert(text::precedes_at(na, nb, 5 + i));
    } else if a.1 == 0 {
        assert(na.take(25) =~= nb.take(25));
        assert(na[25] == 0x2e && nb[25] == 0x5f);
        assert(text::precedes_at(na, nb, 25));
    } else {
        let sa = text::padded(a.1 as int, 2);
        let sb = text::padded(b.1 as int, 2);
        text::lemma_padded_reads(a.1 as int, 2);
        text::lemma_padded_reads(b.1 as int, 2);
        let i = text::lemma_padded_order(a.1 as int, b.1 as int, 2);
        assert(sa[i] < sb[i]);
        assert(na[26 + i] == sa[i]);
        assert(nb[26 + i] == sb[i]);
        assert forall|j: int| 0 <= j < 26 + i implies na[j] == nb[j] by {
            if j >= 26 {
                assert(sa.take(i)[j - 26] == sb.take(i)[j - 26]);
            }
        }
        assert(na.take(26 + i) =~= nb.take(26 + i));
        assert(text::precedes_at(na, nb, 26 + i));
    }
}

} // verus!
