//! Numbers as text, and text as numbers.

use vstd::prelude::*;

verus! {

/// A number in decimal.
pub open spec fn decimal(n: int) -> Seq<u8>
    decreases n,
{
    if n < 10 {
        seq![(0x30 + n) as u8]
    } else {
        decimal(n / 10).push((0x30 + n % 10) as u8)
    }
}

/// A number in decimal, filled up with zeros in front.
pub open spec fn padded(n: int, width: nat) -> Seq<u8> {
    let text = decimal(n);
    if text.len() >= width {
        text
    } else {
        Seq::new((width - text.len()) as nat, |i: int| 0x30u8) + text
    }
}

pub open spec fn is_digit(b: u8) -> bool {
    0x30 <= b <= 0x39
}

pub open spec fn all_digits(s: Seq<u8>) -> bool {
    forall|i: int| 0 <= i < s.len() ==> is_digit(#[trigger] s[i])
}

/// The number that digits stand for.
pub open spec fn value(s: Seq<u8>) -> int
    decreases s.len(),
{
    if s.len() == 0 {
        0
    } else {
        10 * value(s.drop_last()) + (s.last() - 0x30)
    }
}

/// How many digits `s` starts with.
pub open spec fn digit_run(s: Seq<u8>) -> int
    decreases s.len(),
{
    if s.len() == 0 || !is_digit(s[0]) {
        0
    } else {
        1 + digit_run(s.skip(1))
    }
}

/// The number that `s` is, if it is made of digits alone.
pub open spec fn number(s: Seq<u8>) -> Option<int> {
    if s.len() == 0 || !all_digits(s) {
        None
    } else {
        Some(value(s))
    }
}

/// The number that `s` is, if it is made of digits, with a plus sign in front or not.
pub open spec fn integer(s: Seq<u8>) -> Option<int> {
    number(
        if s.len() > 0 && s[0] == 0x2b {
            s.skip(1)
        } else {
            s
        },
    )
}

pub open spec fn starts_with(s: Seq<u8>, prefix: Seq<u8>) -> bool {
    s.len() >= prefix.len() && s.take(prefix.len() as int) == prefix
}

pub open spec fn ends_with(s: Seq<u8>, suffix: Seq<u8>) -> bool {
    s.len() >= suffix.len() && s.skip(s.len() - suffix.len()) == suffix
}

/// Dictionary order.
pub open spec fn precedes(a: Seq<u8>, b: Seq<u8>) -> bool {
    exists|i: int| #[trigger] precedes_at(a, b, i)
}

pub open spec fn precedes_at(a: Seq<u8>, b: Seq<u8>, i: int) -> bool {
    &&& 0 <= i <= a.len()
    &&& i < b.len()
    &&& a.take(i) == b.take(i)
    &&& i < a.len() ==> a[i] < b[i]
}

/// Append bytes.
pub fn push_bytes(out: &mut Vec<u8>, bytes: &[u8])
    ensures
        final(out)@ == old(out)@ + bytes@,
{
    let ghost before = out@;
    let mut i: usize = 0;
    assert(before + bytes@.take(0) =~= before);
    while i < bytes.len()
        invariant
            i <= bytes@.len(),
            out@ == before + bytes@.take(i as int),
        decreases bytes@.len() - i,
    {
        out.push(bytes[i]);
        assert(bytes@.take(i + 1) =~= bytes@.take(i as int).push(bytes@[i as int]));
        i += 1;
    }
    assert(bytes@.take(i as int) =~= bytes@);
}

proof fn lemma_reverse_push(s: Seq<u8>, d: u8)
    ensures
        s.push(d).reverse() == seq![d] + s.reverse(),
{
    assert(s.push(d).reverse() =~= seq![d] + s.reverse());
}

/// Append a number in decimal.
pub fn push_decimal(out: &mut Vec<u8>, value: u64)
    ensures
        final(out)@ == old(out)@ + decimal(value as int),
{
    let ghost before = out@;
    let ghost n = value as int;
    let mut digits: Vec<u8> = Vec::new();
    let mut v: u64 = value;
    assert(digits@.reverse() =~= Seq::<u8>::empty());
    assert(decimal(n) + digits@.reverse() =~= decimal(n));
    while v >= 10
        invariant
            decimal(n) == decimal(v as int) + digits@.reverse(),
        decreases v,
    {
        let d: u8 = 0x30 + (v % 10) as u8;
        proof {
            lemma_reverse_push(digits@, d);
            assert(decimal(v as int) =~= decimal(v as int / 10) + seq![d]);
            assert(decimal(v as int / 10) + (seq![d] + digits@.reverse()) =~= decimal(v as int)
                + digits@.reverse());
        }
        digits.push(d);
        v = v / 10;
    }
    let top: u8 = 0x30 + v as u8;
    proof {
        lemma_reverse_push(digits@, top);
        assert(decimal(v as int) =~= seq![top]);
    }
    digits.push(top);
    let ghost text = digits@.reverse();
    assert(text =~= decimal(n));
    let mut i: usize = digits.len();
    assert(before + text.take(0) =~= before);
    while i > 0
        invariant
            i <= digits@.len(),
            text == digits@.reverse(),
            out@ == before + text.take(digits@.len() - i),
        decreases i,
    {
        i -= 1;
        let d: u8 = digits[i];
        let ghost k = digits@.len() - i - 1;
        assert(text[k] == d);
        assert(text.take(k + 1) =~= text.take(k).push(d));
        out.push(d);
    }
    assert(text.take(digits@.len() as int) =~= text);
}

/// Number of decimal digits.
pub fn decimal_len(value: u64) -> (r: usize)
    ensures
        r == decimal(value as int).len(),
        1 <= r <= 20,
{
    let mut v: u64 = value;
    let mut n: usize = 1;
    proof {
        reveal_with_fuel(pow10, 22);
    }
    while v >= 10
        invariant
            decimal(value as int).len() == decimal(v as int).len() + n - 1,
            n >= 1,
            v < pow10(21 - n),
            n <= 20,
        decreases v,
    {
        proof {
            assert(v >= 10 ==> n < 20) by {
                if n >= 20 {
                    reveal_with_fuel(pow10, 3);
                }
            }
            reveal_with_fuel(pow10, 2);
        }
        v = v / 10;
        n += 1;
    }
    n
}

/// A power of ten.
pub open spec fn pow10(k: int) -> int
    decreases k,
{
    if k <= 0 {
        1
    } else {
        10 * pow10(k - 1)
    }
}


/// Append a number in decimal, filled up with zeros in front.
pub fn push_padded(out: &mut Vec<u8>, value: u64, width: usize)
    ensures
        final(out)@ == old(out)@ + padded(value as int, width as nat),
{
    let ghost before = out@;
    let len: usize = decimal_len(value);
    let mut i: usize = len;
    assert(before + Seq::new(0, |i: int| 0x30u8) =~= before);
    while i < width
        invariant
            len <= i,
            i <= width || i == len,
            out@ == before + Seq::new((i - len) as nat, |i: int| 0x30u8),
        decreases width - i,
    {
        out.push(0x30);
        assert(Seq::new((i - len) as nat, |i: int| 0x30u8).push(0x30) =~= Seq::new(
            (i + 1 - len) as nat,
            |i: int| 0x30u8,
        ));
        i += 1;
    }
    push_decimal(out, value);
    assert(out@ =~= before + padded(value as int, width as nat));
}

/// Whether two slices hold the same bytes.
pub fn same_bytes(a: &[u8], b: &[u8]) -> (r: bool)
    ensures
        r == (a@ == b@),
{
    if a.len() != b.len() {
        return false;
    }
    let mut i: usize = 0;
    while i < a.len()
        invariant
            i <= a@.len(),
            a@.len() == b@.len(),
            forall|j: int| 0 <= j < i ==> a@[j] == b@[j],
        decreases a@.len() - i,
    {
        if a[i] != b[i] {
            return false;
        }
        i += 1;
    }
    assert(a@ =~= b@);
    true
}

/// What follows a prefix.
pub fn without_prefix<'a>(s: &'a [u8], prefix: &[u8]) -> (r: Option<&'a [u8]>)
    ensures
        match r {
            Some(rest) => starts_with(s@, prefix@) && rest@ == s@.skip(prefix@.len() as int),
            None => !starts_with(s@, prefix@),
        },
{
    if s.len() < prefix.len() {
        return None;
    }
    assert(s@.subrange(0, prefix@.len() as int) =~= s@.take(prefix@.len() as int));
    if !same_bytes(&s[0..prefix.len()], prefix) {
        return None;
    }
    assert(s@.subrange(prefix@.len() as int, s@.len() as int) =~= s@.skip(prefix@.len() as int));
    Some(&s[prefix.len()..s.len()])
}

/// What stands in front of a suffix.
pub fn without_suffix<'a>(s: &'a [u8], suffix: &[u8]) -> (r: Option<&'a [u8]>)
    ensures
        match r {
            Some(rest) => ends_with(s@, suffix@) && rest@ == s@.take(s@.len() - suffix@.len()),
            None => !ends_with(s@, suffix@),
        },
{
    if s.len() < suffix.len() {
        return None;
    }
    let cut: usize = s.len() - suffix.len();
    assert(s@.subrange(cut as int, s@.len() as int) =~= s@.skip(cut as int));
    if !same_bytes(&s[cut..s.len()], suffix) {
        return None;
    }
    assert(s@.subrange(0, cut as int) =~= s@.take(cut as int));
    Some(&s[0..cut])
}

proof fn lemma_digit_run(s: Seq<u8>, n: int)
    requires
        0 <= n <= s.len(),
        all_digits(s.take(n)),
        n < s.len() ==> !is_digit(s[n]),
    ensures
        digit_run(s) == n,
    decreases n,
{
    if n > 0 {
        assert(is_digit(s.take(n)[0]));
        assert forall|i: int| 0 <= i < n - 1 implies is_digit(#[trigger] s.skip(1).take(n - 1)[i]) by {
            assert(is_digit(s.take(n)[i + 1]));
        }
        lemma_digit_run(s.skip(1), n - 1);
    }
}

/// How many digits `s` starts with.
pub fn count_digits(s: &[u8]) -> (r: usize)
    ensures
        r == digit_run(s@),
        r <= s@.len(),
        all_digits(s@.take(r as int)),
{
    let mut i: usize = 0;
    while i < s.len() && 0x30 <= s[i] && s[i] <= 0x39
        invariant
            i <= s@.len(),
            all_digits(s@.take(i as int)),
        decreases s@.len() - i,
    {
        assert(s@.take(i + 1) =~= s@.take(i as int).push(s@[i as int]));
        assert(forall|j: int| 0 <= j < i ==> s@.take(i as int)[j] == s@[j]);
        i += 1;
    }
    proof {
        lemma_digit_run(s@, i as int);
    }
    i
}

/// More digits, a larger number.
pub proof fn lemma_value_grows(s: Seq<u8>, k: int)
    requires
        all_digits(s),
        0 <= k <= s.len(),
    ensures
        0 <= value(s.take(k)) <= value(s),
    decreases s.len(),
{
    if s.len() == 0 {
        assert(s.take(k) =~= s);
    } else {
        let head = s.drop_last();
        assert(is_digit(s[s.len() - 1]));
        assert forall|i: int| 0 <= i < head.len() implies is_digit(#[trigger] head[i]) by {
            assert(is_digit(s[i]));
        }
        if k == s.len() {
            assert(s.take(k) =~= s);
            lemma_value_grows(head, 0);
        } else {
            lemma_value_grows(head, k);
            assert(head.take(k) =~= s.take(k));
        }
    }
}

/// Digits as a number, if it fits into 64 bits.
pub fn parse_digits(s: &[u8]) -> (r: Option<u64>)
    requires
        all_digits(s@),
    ensures
        match r {
            Some(v) => v == value(s@),
            None => value(s@) > u64::MAX,
        },
{
    let mut v: u64 = 0;
    let mut i: usize = 0;
    assert(s@.take(0) =~= Seq::<u8>::empty());
    while i < s.len()
        invariant
            i <= s@.len(),
            all_digits(s@),
            v == value(s@.take(i as int)),
        decreases s@.len() - i,
    {
        proof {
            assert(is_digit(s@[i as int]));
            assert(s@.take(i + 1).drop_last() =~= s@.take(i as int));
            lemma_value_grows(s@, i + 1);
        }
        let d: u64 = (s[i] - 0x30) as u64;
        if v > (u64::MAX - d) / 10 {
            return None;
        }
        v = 10 * v + d;
        i += 1;
    }
    assert(s@.take(i as int) =~= s@);
    Some(v)
}

/// A number made of digits alone, if it fits into 32 bits.
pub fn parse_number(s: &[u8]) -> (r: Option<u32>)
    ensures
        match r {
            Some(v) => number(s@) == Some(v as int),
            None => number(s@) is None || number(s@)->0 > u32::MAX,
        },
{
    if s.len() == 0 {
        return None;
    }
    let n: usize = count_digits(s);
    if n < s.len() {
        proof {
            lemma_run_ends(s@);
        }
        return None;
    }
    assert(s@.take(n as int) =~= s@);
    match parse_digits(s) {
        Some(v) => {
            if v > 0xffff_ffff {
                None
            } else {
                Some(v as u32)
            }
        },
        None => None,
    }
}

/// A number with an optional plus sign, if it fits into 32 bits.
pub fn parse_u32_text(s: &[u8]) -> (r: Option<u32>)
    ensures
        match r {
            Some(v) => integer(s@) == Some(v as int),
            None => integer(s@) is None || integer(s@)->0 > u32::MAX,
        },
{
    if s.len() > 0 && s[0] == 0x2b {
        assert(s@.subrange(1, s@.len() as int) =~= s@.skip(1));
        parse_number(&s[1..s.len()])
    } else {
        parse_number(s)
    }
}

/// What follows the leading digits is no digit.
proof fn lemma_run_ends(s: Seq<u8>)
    ensures
        0 <= digit_run(s) <= s.len(),
        digit_run(s) < s.len() ==> !is_digit(s[digit_run(s)]),
    decreases s.len(),
{
    if s.len() > 0 && is_digit(s[0]) {
        lemma_run_ends(s.skip(1));
    }
}

// ---------------------------------------------------------------------------
// Zero-padded numbers
// ---------------------------------------------------------------------------

/// The lowest `width` digits of a number.
spec fn fixed(n: int, width: nat) -> Seq<u8>
    decreases width,
{
    if width == 0 {
        Seq::empty()
    } else {
        fixed(n / 10, (width - 1) as nat).push((0x30 + n % 10) as u8)
    }
}

proof fn lemma_fixed(n: int, width: nat)
    requires
        0 <= n < pow10(width as int),
        width > 0,
    ensures
        padded(n, width) == fixed(n, width),
        padded(n, width).len() == width,
    decreases width,
{
    reveal_with_fuel(pow10, 2);
    reveal_with_fuel(fixed, 2);
    if n < 10 {
        lemma_fixed_small(n, width);
        assert(decimal(n).len() == 1);
        assert(padded(n, width) =~= fixed(n, width));
    } else {
        assert(width > 1);
        let w = (width - 1) as nat;
        lemma_fixed(n / 10, w);
        assert(padded(n, width) =~= padded(n / 10, w).push((0x30 + n % 10) as u8));
    }
}

proof fn lemma_fixed_small(n: int, width: nat)
    requires
        0 <= n < 10,
        width > 0,
    ensures
        fixed(n, width).len() == width,
        fixed(n, width)[width - 1] == (0x30 + n) as u8,
        forall|i: int| 0 <= i < width - 1 ==> #[trigger] fixed(n, width)[i] == 0x30,
    decreases width,
{
    reveal_with_fuel(fixed, 2);
    if width > 1 {
        lemma_fixed_small(0, (width - 1) as nat);
    }
}

/// Zero-padded numbers are in dictionary order when they are in order.
pub proof fn lemma_padded_order(a: int, b: int, width: nat) -> (at: int)
    requires
        0 <= a < b < pow10(width as int),
        width > 0,
    ensures
        padded(a, width).len() == width,
        padded(b, width).len() == width,
        0 <= at < width,
        precedes_at(padded(a, width), padded(b, width), at),
{
    lemma_fixed(a, width);
    lemma_fixed(b, width);
    lemma_fixed_order(a, b, width)
}

proof fn lemma_fixed_order(a: int, b: int, width: nat) -> (at: int)
    requires
        0 <= a < b < pow10(width as int),
    ensures
        fixed(a, width).len() == width,
        fixed(b, width).len() == width,
        0 <= at < width,
        precedes_at(fixed(a, width), fixed(b, width), at),
    decreases width,
{
    reveal_with_fuel(pow10, 2);
    reveal_with_fuel(fixed, 2);
    let w = (width - 1) as nat;
    let fa = fixed(a, width);
    let fb = fixed(b, width);
    lemma_fixed_len(a / 10, w);
    lemma_fixed_len(b / 10, w);
    if a / 10 == b / 10 {
        assert(fa.take(w as int) =~= fixed(a / 10, w));
        assert(fb.take(w as int) =~= fixed(a / 10, w));
        w as int
    } else {
        let i = lemma_fixed_order(a / 10, b / 10, w);
        assert(fa.take(i) =~= fixed(a / 10, w).take(i));
        assert(fb.take(i) =~= fixed(b / 10, w).take(i));
        i
    }
}

proof fn lemma_fixed_len(n: int, width: nat)
    ensures
        fixed(n, width).len() == width,
    decreases width,
{
    if width > 0 {
        lemma_fixed_len(n / 10, (width - 1) as nat);
    }
}

/// A zero-padded number reads back.
pub proof fn lemma_padded_reads(n: int, width: nat)
    requires
        0 <= n < pow10(width as int),
        width > 0,
    ensures
        padded(n, width).len() == width,
        all_digits(padded(n, width)),
        value(padded(n, width)) == n,
{
    lemma_fixed(n, width);
    lemma_fixed_reads(n, width);
}

proof fn lemma_fixed_reads(n: int, width: nat)
    requires
        0 <= n < pow10(width as int),
    ensures
        all_digits(fixed(n, width)),
        value(fixed(n, width)) == n,
    decreases width,
{
    reveal_with_fuel(pow10, 2);
    if width > 0 {
        let w = (width - 1) as nat;
        lemma_fixed_reads(n / 10, w);
        assert(fixed(n, width).drop_last() =~= fixed(n / 10, w));
    }
}

/// Digits with something else behind them.
pub proof fn lemma_run_of(digits: Seq<u8>, tail: Seq<u8>)
    requires
        all_digits(digits),
        tail.len() > 0,
        !is_digit(tail[0]),
    ensures
        digit_run(digits + tail) == digits.len(),
{
    let s = digits + tail;
    assert(s.take(digits.len() as int) =~= digits);
    lemma_digit_run(s, digits.len() as int);
}

/// How long a number is in decimal.
pub proof fn lemma_decimal_len(n: int, width: nat)
    requires
        0 <= n < pow10(width as int),
        width > 0,
    ensures
        1 <= decimal(n).len() <= width,
    decreases width,
{
    reveal_with_fuel(pow10, 2);
    if n >= 10 {
        lemma_decimal_len(n / 10, (width - 1) as nat);
    }
}

/// Copy bytes to the front of a buffer.
pub fn fill_front<const N: usize>(out: &mut [u8; N], bytes: &Vec<u8>)
    requires
        bytes@.len() <= N,
    ensures
        final(out)@.subrange(0, bytes@.len() as int) == bytes@,
        forall|j: int| bytes@.len() <= j < N ==> final(out)@[j] == old(out)@[j],
{
    let len: usize = bytes.len();
    let ghost before = out@;
    let mut i: usize = 0;
    while i < len
        invariant
            i <= len,
            len == bytes@.len(),
            len <= N,
            forall|j: int| 0 <= j < i ==> out@[j] == bytes@[j],
            forall|j: int| i <= j < N ==> out@[j] == before[j],
        decreases len - i,
    {
        out[i] = bytes[i];
        i += 1;
    }
    assert(out@.subrange(0, len as int) =~= bytes@);
}

/// Numbers are made of ASCII characters.
pub proof fn lemma_padded_is_ascii(n: int, width: nat)
    requires
        n >= 0,
    ensures
        forall|i: int| 0 <= i < padded(n, width).len() ==> #[trigger] padded(n, width)[i] < 128,
{
    lemma_decimal_is_ascii(n);
}

proof fn lemma_decimal_is_ascii(n: int)
    requires
        n >= 0,
    ensures
        forall|i: int| 0 <= i < decimal(n).len() ==> #[trigger] decimal(n)[i] < 128,
    decreases n,
{
    if n >= 10 {
        lemma_decimal_is_ascii(n / 10);
        let head = decimal(n / 10);
        assert forall|i: int| 0 <= i < decimal(n).len() implies #[trigger] decimal(n)[i] < 128 by {
            if i < head.len() {
                assert(decimal(n)[i] == head[i]);
            }
        }
    }
}

/// A hexadecimal digit.
pub open spec fn hex_digit(n: int) -> u8 {
    if n < 10 {
        (0x30 + n) as u8
    } else {
        (0x57 + n) as u8
    }
}

/// A number with `width` hexadecimal digits.
pub open spec fn hex_fixed(n: int, width: nat) -> Seq<u8>
    decreases width,
{
    if width == 0 {
        Seq::empty()
    } else {
        hex_fixed(n / 16, (width - 1) as nat).push(hex_digit(n % 16))
    }
}

/// A number in hexadecimal digits.
pub open spec fn hex(n: int) -> Seq<u8>
    decreases n,
{
    if n < 16 {
        seq![hex_digit(n)]
    } else {
        hex(n / 16).push(hex_digit(n % 16))
    }
}

fn hex_char(n: u32) -> (r: u8)
    requires
        n < 16,
    ensures
        r == hex_digit(n as int),
{
    if n < 10 {
        0x30 + n as u8
    } else {
        0x57 + n as u8
    }
}

/// Add a number as eight hexadecimal digits.
pub fn push_hex8(out: &mut Vec<u8>, value: u32)
    ensures
        final(out)@ == old(out)@ + hex_fixed(value as int, 8),
{
    let ghost before = out@;
    out.push(hex_char(value / 0x1000_0000));
    out.push(hex_char(value / 0x100_0000 % 16));
    out.push(hex_char(value / 0x10_0000 % 16));
    out.push(hex_char(value / 0x1_0000 % 16));
    out.push(hex_char(value / 0x1000 % 16));
    out.push(hex_char(value / 0x100 % 16));
    out.push(hex_char(value / 0x10 % 16));
    out.push(hex_char(value % 16));
    proof {
        reveal_with_fuel(hex_fixed, 9);
        let v = value as int;
        assert(v / 16 / 16 == v / 0x100);
        assert(v / 16 / 16 / 16 == v / 0x1000);
        assert(v / 16 / 16 / 16 / 16 == v / 0x1_0000);
        assert(v / 16 / 16 / 16 / 16 / 16 == v / 0x10_0000);
        assert(v / 16 / 16 / 16 / 16 / 16 / 16 == v / 0x100_0000);
        assert(v / 16 / 16 / 16 / 16 / 16 / 16 / 16 == v / 0x1000_0000);
        assert(v / 0x1000_0000 % 16 == v / 0x1000_0000);
    }
    assert(out@ =~= before + hex_fixed(value as int, 8));
}

/// Add a number in hexadecimal digits.
pub fn push_hex(out: &mut Vec<u8>, value: u32)
    ensures
        final(out)@ == old(out)@ + hex(value as int),
    decreases value,
{
    let ghost before = out@;
    if value >= 16 {
        push_hex(out, value / 16);
    }
    out.push(hex_char(value % 16));
    assert(out@ =~= before + hex(value as int));
}

} // verus!
