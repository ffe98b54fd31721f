//! Values of the configuration: how they are written, and which are admissible.
//!
//! A setting is text. What is not written as it should be, or lies outside of its
//! range, is refused before anything is built from it.

use vstd::prelude::*;
use vstd::string::StringSliceAdditionalSpecFns;

use crate::can::FilterType;
use crate::text;

verus! {

/// The value of a digit, hexadecimal ones included.
pub open spec fn digit_value(b: u8) -> int {
    if 0x30 <= b <= 0x39 {
        b - 0x30
    } else if 0x61 <= b <= 0x66 {
        b - 0x61 + 10
    } else if 0x41 <= b <= 0x46 {
        b - 0x41 + 10
    } else {
        99
    }
}

/// Digits with underscores between them.
pub open spec fn well_written(s: Seq<u8>, radix: int) -> bool {
    &&& s.len() > 0
    &&& forall|i: int|
        0 <= i < s.len() ==> (if #[trigger] s[i] == 0x5f {
            0 < i < s.len() - 1 && s[i - 1] != 0x5f
        } else {
            digit_value(s[i]) < radix
        })
}

/// What the digits stand for; underscores do not count.
pub open spec fn literal(s: Seq<u8>, radix: int) -> int
    decreases s.len(),
{
    if s.len() == 0 {
        0
    } else if s.last() == 0x5f {
        literal(s.drop_last(), radix)
    } else {
        radix * literal(s.drop_last(), radix) + digit_value(s.last())
    }
}

/// `0x` or `0X` and something behind it.
pub open spec fn is_hex(s: Seq<u8>) -> bool {
    s.len() > 2 && s[0] == 0x30 && (s[1] == 0x78 || s[1] == 0x58)
}

/// The number that a decimal or hexadecimal literal stands for.
pub open spec fn number_of(s: Seq<u8>) -> Option<int> {
    let radix = if is_hex(s) {
        16int
    } else {
        10
    };
    let digits = if is_hex(s) {
        s.skip(2)
    } else {
        s
    };
    if well_written(digits, radix) {
        Some(literal(digits, radix))
    } else {
        None
    }
}

/// More digits, a larger number.
proof fn lemma_literal_grows(s: Seq<u8>, k: int, radix: int)
    requires
        well_written(s, radix) || s.len() == 0,
        0 <= k <= s.len(),
        radix == 10 || radix == 16,
    ensures
        0 <= literal(s.take(k), radix) <= literal(s, radix),
    decreases s.len() - k,
{
    lemma_literal_positive(s, k, radix);
    if k == s.len() {
        assert(s.take(k) =~= s);
    } else {
        lemma_literal_grows(s, k + 1, radix);
        lemma_literal_step(s, k, radix);
        lemma_literal_positive(s, k, radix);
        let x = literal(s.take(k), radix);
        assert(x <= radix * x) by (nonlinear_arith)
            requires
                radix >= 1,
                x >= 0,
        ;
    }
}

proof fn lemma_literal_step(s: Seq<u8>, k: int, radix: int)
    requires
        0 <= k < s.len(),
    ensures
        literal(s.take(k + 1), radix) == (if s[k] == 0x5f {
            literal(s.take(k), radix)
        } else {
            radix * literal(s.take(k), radix) + digit_value(s[k])
        }),
{
    assert(s.take(k + 1).drop_last() =~= s.take(k));
}

proof fn lemma_literal_positive(s: Seq<u8>, k: int, radix: int)
    requires
        0 <= k <= s.len(),
        radix == 10 || radix == 16,
    ensures
        literal(s.take(k), radix) >= 0,
    decreases k,
{
    if k > 0 {
        lemma_literal_positive(s, k - 1, radix);
        lemma_literal_step(s, k - 1, radix);
        assert(radix * literal(s.take(k - 1), radix) >= 0) by (nonlinear_arith)
            requires
                radix >= 0,
                literal(s.take(k - 1), radix) >= 0,
        ;
    }
}

/// Digits with underscores between them as a number, if it fits into 32 bits.
fn parse_literal(s: &[u8], radix: u64) -> (r: Option<u32>)
    requires
        radix == 10 || radix == 16,
    ensures
        match r {
            Some(v) => well_written(s@, radix as int) && literal(s@, radix as int) == v,
            None => !well_written(s@, radix as int) || literal(s@, radix as int) > u32::MAX,
        },
{
    if s.len() == 0 {
        return None;
    }
    let mut i: usize = 0;
    let mut v: u64 = 0;
    let mut fits: bool = true;
    let ghost r = radix as int;
    assert(s@.take(0) =~= Seq::<u8>::empty());
    while i < s.len()
        invariant
            i <= s@.len(),
            s@.len() > 0,
            radix == 10 || radix == 16,
            r == radix,
            forall|j: int|
                0 <= j < i ==> (if #[trigger] s@[j] == 0x5f {
                    0 < j < s@.len() - 1 && s@[j - 1] != 0x5f
                } else {
                    digit_value(s@[j]) < r
                }),
            fits ==> v == literal(s@.take(i as int), r) && v <= u32::MAX,
            !fits ==> exists|k: int| 0 <= k <= i && literal(#[trigger] s@.take(k), r) > u32::MAX,
        decreases s@.len() - i,
    {
        let b: u8 = s[i];
        proof {
            lemma_literal_step(s@, i as int, r);
        }
        if b == 0x5f {
            if i == 0 || i + 1 >= s.len() || s[i - 1] == 0x5f {
                return None;
            }
        } else {
            let digit: u64 = if 0x30 <= b && b <= 0x39 {
                (b - 0x30) as u64
            } else if 0x61 <= b && b <= 0x66 {
                (b - 0x61) as u64 + 10
            } else if 0x41 <= b && b <= 0x46 {
                (b - 0x41) as u64 + 10
            } else {
                99
            };
            if digit >= radix {
                return None;
            }
            if fits {
                assert(radix * v <= 16 * 0xffff_ffff) by (nonlinear_arith)
                    requires
                        radix == 10 || radix == 16,
                        0 <= v <= 0xffff_ffff,
                ;
                v = radix * v + digit;
                if v > 0xffff_ffff {
                    fits = false;
                    assert(literal(s@.take(i + 1), r) > u32::MAX);
                }
            }
        }
        i += 1;
    }
    assert(s@.take(i as int) =~= s@);
    if fits {
        Some(v as u32)
    } else {
        proof {
            let k = choose|k: int| 0 <= k <= i && literal(#[trigger] s@.take(k), r) > u32::MAX;
            lemma_literal_grows(s@, k, r);
        }
        None
    }
}

/// A decimal number; underscores may separate digits.
pub fn parse_u32(s: &str) -> (r: Option<u32>)
    ensures
        match r {
            Some(v) => well_written(s.spec_bytes(), 10) && literal(s.spec_bytes(), 10) == v,
            None => !well_written(s.spec_bytes(), 10) || literal(s.spec_bytes(), 10) > u32::MAX,
        },
{
    parse_literal(s.as_bytes(), 10)
}

/// A decimal number, or a hexadecimal one behind `0x`.
pub fn parse_u32_auto(s: &str) -> (r: Option<u32>)
    ensures
        match r {
            Some(v) => number_of(s.spec_bytes()) == Some(v as int),
            None => number_of(s.spec_bytes()) is None || number_of(s.spec_bytes())->0 > u32::MAX,
        },
{
    let bytes: &[u8] = s.as_bytes();
    if bytes.len() > 2 && bytes[0] == 0x30 && (bytes[1] == 0x78 || bytes[1] == 0x58) {
        assert(bytes@.subrange(2, bytes@.len() as int) =~= bytes@.skip(2));
        parse_literal(&bytes[2..bytes.len()], 16)
    } else {
        parse_literal(bytes, 10)
    }
}

/// A decimal number of at most 255.
pub fn parse_u8(s: &str) -> (r: Option<u8>)
    ensures
        match r {
            Some(v) => well_written(s.spec_bytes(), 10) && literal(s.spec_bytes(), 10) == v,
            None => !well_written(s.spec_bytes(), 10) || literal(s.spec_bytes(), 10) > 255,
        },
{
    match parse_u32(s) {
        Some(v) => {
            if v <= 255 {
                Some(v as u8)
            } else {
                None
            }
        },
        None => None,
    }
}

/// Whether the text is not empty and made of printable ASCII characters.
pub fn is_printable_ascii(s: &str) -> (r: bool)
    ensures
        r == (s.spec_bytes().len() > 0 && forall|i: int|
            0 <= i < s.spec_bytes().len() ==> 0x20 <= #[trigger] s.spec_bytes()[i] <= 0x7e),
{
    let bytes: &[u8] = s.as_bytes();
    if bytes.len() == 0 {
        return false;
    }
    let mut i: usize = 0;
    while i < bytes.len()
        invariant
            i <= bytes@.len(),
            bytes@ == s.spec_bytes(),
            forall|j: int| 0 <= j < i ==> 0x20 <= #[trigger] bytes@[j] <= 0x7e,
        decreases bytes@.len() - i,
    {
        if bytes[i] < 0x20 || bytes[i] > 0x7e {
            assert(!(0x20 <= s.spec_bytes()[i as int] <= 0x7e));
            return false;
        }
        i += 1;
    }
    true
}

/// Whether two texts are the same.
pub fn eq_str(a: &str, b: &str) -> (r: bool)
    ensures
        r == (a.spec_bytes() == b.spec_bytes()),
{
    text::same_bytes(a.as_bytes(), b.as_bytes())
}

/// `true` or `false`.
pub fn parse_bool(s: &str) -> (r: Option<bool>)
    ensures
        r == (if s.spec_bytes() == "true".spec_bytes() {
            Some(true)
        } else if s.spec_bytes() == "false".spec_bytes() {
            Some(false)
        } else {
            None
        }),
{
    if eq_str(s, "true") {
        Some(true)
    } else if eq_str(s, "false") {
        Some(false)
    } else {
        None
    }
}

/// Whether `v` is a divider of a bus clock.
pub fn assert_div(v: u32) -> (r: bool)
    ensures
        r == (v == 1 || v == 2 || v == 4 || v == 8 || v == 16),
{
    v == 1 || v == 2 || v == 4 || v == 8 || v == 16
}

/// Whether the dividers and the multiplier of the PLL fit into their fields and
/// stand for an admissible factor: each stands for one more than its value, 20 to
/// 480 for `n` and 2 to 16 for `p`, `q` and `r`.
pub fn assert_pll_width(m: u32, n: u32, p: u32, q: u32, r: u32) -> (ok: bool)
    ensures
        ok == (m <= 31 && 20 <= n + 1 <= 480 && 2 <= p + 1 <= 16 && 2 <= q + 1 <= 16 && 2 <= r + 1
            <= 16),
{
    m <= 31 && n >= 19 && n <= 479 && p >= 1 && p <= 15 && q >= 1 && q <= 15 && r >= 1 && r <= 15
}

/// Whether the input of the PLL, `source_hz / (m + 1)`, is 1 to 25 MHz and its
/// oscillator, that times `n + 1`, 240 to 480 MHz.
pub fn assert_pll_range(source_hz: u32, m: u32, n: u32) -> (r: bool)
    ensures
        r == (1_000_000 * (m + 1) <= source_hz <= 25_000_000 * (m + 1) && 240_000_000 * (m + 1)
            <= source_hz * (n + 1) <= 480_000_000 * (m + 1)),
{
    let source: u64 = source_hz as u64;
    let input_div: u64 = m as u64 + 1;
    let factor: u64 = n as u64 + 1;
    assert(source * factor <= 0xffff_ffff * 0x1_0000_0000) by (nonlinear_arith)
        requires
            0 <= source <= 0xffff_ffff,
            0 <= factor <= 0x1_0000_0000,
    ;
    let vco: u64 = source * factor;
    source >= 1_000_000 * input_div && source <= 25_000_000 * input_div && vco >= 240_000_000
        * input_div && vco <= 480_000_000 * input_div
}

/// Whether a pin of port B can be connected to the CAN controller.
pub fn can_portb_supports_func_group2(pin: u8) -> (r: bool)
    ensures
        r == (3 <= pin <= 10 || 12 <= pin <= 15),
{
    (pin >= 3 && pin <= 10) || (pin >= 12 && pin <= 15)
}

/// Whether an acceptance filter is admissible: 29-bit identifier and mask, and an
/// 11-bit identifier for standard frames.
pub fn assert_can_filter(id: u32, mask: u32, kind: FilterType) -> (r: bool)
    ensures
        r == (id <= 0x1fff_ffff && mask <= 0x1fff_ffff && (kind is StandardOnly ==> id <= 0x7ff)),
{
    id <= 0x1fff_ffff && mask <= 0x1fff_ffff && (!matches!(kind, FilterType::StandardOnly) || id
        <= 0x7ff)
}

// ---------------------------------------------------------------------------
// The list of commands
// ---------------------------------------------------------------------------

/// Text without the spaces around it.
pub open spec fn trimmed(s: Seq<u8>) -> Seq<u8>
    decreases s.len(),
{
    if s.len() > 0 && s[0] == 0x20 {
        trimmed(s.skip(1))
    } else if s.len() > 0 && s.last() == 0x20 {
        trimmed(s.drop_last())
    } else {
        s
    }
}

/// `from..to` is an item of a comma-separated list.
pub open spec fn is_item(list: Seq<u8>, from: int, to: int) -> bool {
    &&& 0 <= from <= to <= list.len()
    &&& from > 0 ==> list[from - 1] == 0x2c
    &&& to < list.len() ==> list[to] == 0x2c
    &&& forall|k: int| from <= k < to ==> #[trigger] list[k] != 0x2c
}

/// `name` is an item of the list.
pub open spec fn listed(list: Seq<u8>, name: Seq<u8>) -> bool {
    exists|from: int, to: int| #[trigger]
        is_item(list, from, to) && trimmed(list.subrange(from, to)) == name
}

/// Whether the item `from..to` of `list` is `name`.
fn item_matches(list: &[u8], from: usize, to: usize, name: &[u8]) -> (r: bool)
    requires
        from <= to <= list@.len(),
    ensures
        r == (trimmed(list@.subrange(from as int, to as int)) == name@),
{
    let ghost item = list@.subrange(from as int, to as int);
    let mut a: usize = from;
    let mut b: usize = to;
    while a < b && list[a] == 0x20
        invariant
            from <= a <= b,
            b <= list@.len(),
            trimmed(item) == trimmed(list@.subrange(a as int, b as int)),
        decreases b - a,
    {
        assert(list@.subrange(a as int, b as int).skip(1) =~= list@.subrange(a + 1, b as int));
        a += 1;
    }
    while b > a && list[b - 1] == 0x20
        invariant
            from <= a <= b,
            b <= list@.len(),
            a < b ==> list@[a as int] != 0x20,
            trimmed(item) == trimmed(list@.subrange(a as int, b as int)),
        decreases b - a,
    {
        assert(list@.subrange(a as int, b as int).drop_last() =~= list@.subrange(a as int, b - 1));
        b -= 1;
    }
    text::same_bytes(&list[a..b], name)
}

/// Whether a command is in the comma-separated list of commands; spaces around an
/// item do not count.
pub fn cmd_enabled(list: &str, name: &str) -> (r: bool)
    ensures
        r == listed(list.spec_bytes(), name.spec_bytes()),
{
    let items: &[u8] = list.as_bytes();
    let wanted: &[u8] = name.as_bytes();
    let ghost all = items@;
    let mut start: usize = 0;
    let mut i: usize = 0;
    while i <= items.len()
        invariant
            all == items@,
            all == list.spec_bytes(),
            wanted@ == name.spec_bytes(),
            start <= i <= all.len() + 1,
            i <= all.len() ==> (start > 0 ==> all[start - 1] == 0x2c),
            i == all.len() + 1 ==> start == i,
            forall|k: int| start <= k < i && k < all.len() ==> #[trigger] all[k] != 0x2c,
            forall|from: int, to: int| #[trigger]
                is_item(all, from, to) && to < start ==> trimmed(all.subrange(from, to)) != wanted@,
        decreases all.len() + 1 - i,
    {
        if i == items.len() || items[i] == 0x2c {
            assert(is_item(all, start as int, i as int));
            if item_matches(items, start, i, wanted) {
                return true;
            }
            assert forall|from: int, to: int| #[trigger]
                is_item(all, from, to) && to < i + 1 implies trimmed(all.subrange(from, to))
                != wanted@ by {
                if to >= start {
                    assert(to == i) by {
                        if to < i {
                            assert(all[to] == 0x2c);
                        }
                    }
                    assert(from == start) by {
                        if from < start {
                            assert(all[start - 1] == 0x2c);
                        } else if from > start {
                            assert(all[from - 1] == 0x2c);
                        }
                    }
                }
            }
            if i == items.len() {
                assert forall|from: int, to: int| #[trigger] is_item(all, from, to) implies trimmed(
                    all.subrange(from, to),
                ) != wanted@ by {
                    assert(to < i + 1);
                }
                return false;
            }
            start = i + 1;
        }
        i += 1;
    }
    false
}

// ---------------------------------------------------------------------------
// Writing and reading numbers
// ---------------------------------------------------------------------------

/// One digit more is worth the radix times what was there, plus the digit.
proof fn lemma_literal_push(s: Seq<u8>, b: u8, radix: int)
    requires
        b != 0x5f,
    ensures
        literal(s.push(b), radix) == radix * literal(s, radix) + digit_value(b),
{
    assert(s.push(b).drop_last() =~= s);
}

/// A decimal number that was written reads back.
pub proof fn law_decimal_numbers_read_back(n: int)
    requires
        n >= 0,
    ensures
        well_written(text::decimal(n), 10),
        literal(text::decimal(n), 10) == n,
        number_of(text::decimal(n)) == Some(n),
    decreases n,
{
    lemma_decimal_literal(n);
    let s = text::decimal(n);
    assert(!is_hex(s)) by {
        if s.len() > 1 {
            assert(digit_value(s[1]) < 10);
        }
    }
}

proof fn lemma_decimal_literal(n: int)
    requires
        n >= 0,
    ensures
        text::decimal(n).len() > 0,
        forall|i: int|
            0 <= i < text::decimal(n).len() ==> 0x30 <= #[trigger] text::decimal(n)[i] <= 0x39,
        literal(text::decimal(n), 10) == n,
    decreases n,
{
    let s = text::decimal(n);
    if n < 10 {
        assert(s =~= Seq::<u8>::empty().push((0x30 + n) as u8));
        lemma_literal_push(Seq::empty(), (0x30 + n) as u8, 10);
        assert(literal(Seq::empty(), 10) == 0);
    } else {
        lemma_decimal_literal(n / 10);
        lemma_literal_push(text::decimal(n / 10), (0x30 + n % 10) as u8, 10);
    }
}

/// A hexadecimal number that was written reads back, behind `0x` and with as many digits
/// as it takes.
pub proof fn law_hexadecimal_numbers_read_back(n: int)
    requires
        n >= 0,
    ensures
        literal(text::hex(n), 16) == n,
        number_of(seq![0x30u8, 0x78u8] + text::hex(n)) == Some(n),
{
    lemma_hex_literal(n);
    let s = seq![0x30u8, 0x78u8] + text::hex(n);
    assert(s.skip(2) =~= text::hex(n));
}

proof fn lemma_hex_literal(n: int)
    requires
        n >= 0,
    ensures
        text::hex(n).len() > 0,
        forall|i: int|
            0 <= i < text::hex(n).len() ==> #[trigger] text::hex(n)[i] != 0x5f && digit_value(
                text::hex(n)[i],
            ) < 16,
        literal(text::hex(n), 16) == n,
    decreases n,
{
    let s = text::hex(n);
    if n < 16 {
        assert(s =~= Seq::<u8>::empty().push(text::hex_digit(n)));
        lemma_literal_push(Seq::empty(), text::hex_digit(n), 16);
        assert(literal(Seq::empty(), 16) == 0);
    } else {
        lemma_hex_literal(n / 16);
        lemma_literal_push(text::hex(n / 16), text::hex_digit(n % 16), 16);
    }
}

/// Sixteen to a power.
pub open spec fn sixteens(width: nat) -> int
    decreases width,
{
    if width == 0 {
        1
    } else {
        16 * sixteens((width - 1) as nat)
    }
}

/// A number written with a fixed number of hexadecimal digits has that many, and reads
/// back if it has no more.
pub proof fn law_fixed_hexadecimal_numbers_read_back(n: int, width: nat)
    requires
        0 <= n < sixteens(width),
    ensures
        text::hex_fixed(n, width).len() == width,
        literal(text::hex_fixed(n, width), 16) == n,
    decreases width,
{
    if width > 0 {
        let rest = (width - 1) as nat;
        assert(n / 16 < sixteens(rest)) by (nonlinear_arith)
            requires
                n < 16 * sixteens(rest),
        ;
        law_fixed_hexadecimal_numbers_read_back(n / 16, rest);
        lemma_literal_push(text::hex_fixed(n / 16, rest), text::hex_digit(n % 16), 16);
    } else {
        assert(literal(Seq::empty(), 16) == 0);
    }
}

/// Underscores between digits do not change what the digits stand for, and neither does
/// the case of the letters.
pub proof fn law_underscores_and_case_do_not_count(a: Seq<u8>, b: Seq<u8>, radix: int, k: int)
    requires
        0 <= k < 6,
    ensures
        literal(a.push(0x5f) + b, radix) == literal(a + b, radix),
        digit_value((0x61 + k) as u8) == digit_value((0x41 + k) as u8) == 10 + k,
    decreases b.len(),
{
    let with = a.push(0x5f) + b;
    let without = a + b;
    if b.len() == 0 {
        assert(with =~= a.push(0x5f));
        assert(with.drop_last() =~= a);
        assert(without =~= a);
    } else {
        let c = b.drop_last();
        law_underscores_and_case_do_not_count(a, c, radix, k);
        assert(with.drop_last() =~= a.push(0x5f) + c);
        assert(without.drop_last() =~= a + c);
        assert(with.last() == b.last() && without.last() == b.last());
    }
}

/// What is left of trimmed text has no space at either end, and only spaces were taken
/// from around it.
pub proof fn law_trimming_takes_spaces_only(s: Seq<u8>) -> (r: (int, int))
    ensures
        0 <= r.0 <= r.1 <= s.len(),
        trimmed(s) == s.subrange(r.0, r.1),
        forall|i: int| 0 <= i < s.len() && !(r.0 <= i < r.1) ==> #[trigger] s[i] == 0x20,
        r.0 < r.1 ==> s[r.0] != 0x20 && s[r.1 - 1] != 0x20,
    decreases s.len(),
{
    if s.len() > 0 && s[0] == 0x20 {
        let t = s.skip(1);
        let (a, b) = law_trimming_takes_spaces_only(t);
        assert(t.subrange(a, b) =~= s.subrange(a + 1, b + 1));
        assert forall|i: int| 0 <= i < s.len() && !(a + 1 <= i < b + 1) implies #[trigger] s[i]
            == 0x20 by {
            if i > 0 {
                assert(t[i - 1] == s[i]);
            }
        }
        (a + 1, b + 1)
    } else if s.len() > 0 && s.last() == 0x20 {
        let t = s.drop_last();
        let (a, b) = law_trimming_takes_spaces_only(t);
        assert(t.subrange(a, b) =~= s.subrange(a, b));
        assert forall|i: int| 0 <= i < s.len() && !(a <= i < b) implies #[trigger] s[i]
            == 0x20 by {
            if i < t.len() {
                assert(t[i] == s[i]);
            }
        }
        (a, b)
    } else {
        assert(s.subrange(0, s.len() as int) =~= s);
        (0, s.len() as int)
    }
}

} // verus!
