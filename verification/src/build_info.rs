//! What is known when the firmware is built: the date, the features, and whether
//! the memory layout agrees with the configuration.

use vstd::prelude::*;
use vstd::string::StringSliceAdditionalSpecFns;

use crate::text;

verus! {

// ---------------------------------------------------------------------------
// The date
// ---------------------------------------------------------------------------

/// A leap year of the Gregorian calendar.
pub open spec fn leap(y: int) -> bool {
    y % 4 == 0 && (y % 100 != 0 || y % 400 == 0)
}

/// Days of a month.
pub open spec fn month_days(y: int, m: int) -> int {
    if m == 2 {
        if leap(y) {
            29
        } else {
            28
        }
    } else if m == 4 || m == 6 || m == 9 || m == 11 {
        30
    } else {
        31
    }
}

/// Days from the start of a year to the start of a month.
pub open spec fn days_before_month(y: int, m: int) -> int
    decreases m,
{
    if m <= 1 {
        0
    } else {
        days_before_month(y, m - 1) + month_days(y, m - 1)
    }
}

/// Days from the start of the year 1 to the start of a year.
pub open spec fn days_before_year(y: int) -> int {
    365 * (y - 1) + (y - 1) / 4 - (y - 1) / 100 + (y - 1) / 400
}

/// Days from the first of January 1970 to a date.
pub open spec fn days_since_epoch(y: int, m: int, d: int) -> int {
    days_before_year(y) + days_before_month(y, m) + (d - 1) - days_before_year(1970)
}

/// The days before each month.
proof fn lemma_months(y: int)
    ensures
        days_before_month(y, 1) == 0,
        days_before_month(y, 2) == 31,
        ({
            let feb = month_days(y, 2);
            &&& days_before_month(y, 3) == 31 + feb
            &&& days_before_month(y, 4) == 62 + feb
            &&& days_before_month(y, 5) == 92 + feb
            &&& days_before_month(y, 6) == 123 + feb
            &&& days_before_month(y, 7) == 153 + feb
            &&& days_before_month(y, 8) == 184 + feb
            &&& days_before_month(y, 9) == 215 + feb
            &&& days_before_month(y, 10) == 245 + feb
            &&& days_before_month(y, 11) == 276 + feb
            &&& days_before_month(y, 12) == 306 + feb
        }),
{
    reveal_with_fuel(days_before_month, 13);
}

/// A year has as many days as its months.
proof fn lemma_years(y: int)
    requires
        y >= 1,
    ensures
        days_before_year(y + 1) - days_before_year(y) == (if leap(y) {
            366int
        } else {
            365
        }),
{
}

/// The month of day `doy` of a year that begins in March, counted from March, and
/// the day in it.
fn month_of(doy: u64) -> (r: (u64, u64))
    requires
        doy <= 365,
    ensures
        r.0 <= 11,
        r.1 >= 1,
        doy == (153 * r.0 + 2) / 5 + r.1 - 1,
        r.0 < 11 ==> r.1 <= (153 * (r.0 + 1) + 2) / 5 - (153 * r.0 + 2) / 5,
{
    let mp: u64 = (5 * doy + 2) / 153;
    (mp, doy - (153 * mp + 2) / 5 + 1)
}

/// The date, given the seconds since the start of the year 1970.
pub fn unix_to_ymd(secs: u64) -> (r: (i64, u32, u32))
    ensures
        r.0 >= 1970,
        1 <= r.1 <= 12,
        1 <= r.2 <= month_days(r.0 as int, r.1 as int),
        days_since_epoch(r.0 as int, r.1 as int, r.2 as int) == secs / 86_400,
{
    let z: u64 = secs / 86_400 + 719_468;
    let era: u64 = z / 146_097;
    let doe: u64 = z % 146_097;
    let century: u64 = if doe / 36_524 < 4 {
        doe / 36_524
    } else {
        3
    };
    let in_century: u64 = doe - 36_524 * century;
    let quad: u64 = in_century / 1_461;
    let in_quad: u64 = in_century - 1_461 * quad;
    let single: u64 = if in_quad / 365 < 4 {
        in_quad / 365
    } else {
        3
    };
    let doy: u64 = in_quad - 365 * single;
    let yoe: u64 = 100 * century + 4 * quad + single;
    let (mp, d) = month_of(doy);
    let m: u64 = if mp < 10 {
        mp + 3
    } else {
        mp - 9
    };
    let march_year: u64 = yoe + era * 400;
    let y: u64 = if m <= 2 {
        march_year + 1
    } else {
        march_year
    };
    proof {
        lemma_date(
            z as int,
            era as int,
            century as int,
            quad as int,
            single as int,
            doy as int,
            mp as int,
            d as int,
        );
    }
    (y as i64, m as u32, d as u32)
}

/// A day that was taken apart into eras, centuries, cycles of four years, years and
/// months is the date that is made of these.
#[verifier::spinoff_prover]
#[verifier::rlimit(60)]
proof fn lemma_date(
    z: int,
    era: int,
    century: int,
    quad: int,
    single: int,
    doy: int,
    mp: int,
    d: int,
)
    requires
        z >= 719_468,
        era >= 0,
        0 <= century <= 3,
        0 <= quad <= 24,
        0 <= single <= 3,
        z == 146_097 * era + 36_524 * century + 1_461 * quad + 365 * single + doy,
        0 <= doy <= 365,
        doy == 365 ==> single == 3,
        doy == 365 && quad == 24 ==> century == 3,
        0 <= mp <= 11,
        d >= 1,
        doy == (153 * mp + 2) / 5 + d - 1,
        mp < 11 ==> d <= (153 * (mp + 1) + 2) / 5 - (153 * mp + 2) / 5,
    ensures
        ({
            let m = if mp < 10 {
                mp + 3
            } else {
                mp - 9
            };
            let march_year = 400 * era + 100 * century + 4 * quad + single;
            let y = if m <= 2 {
                march_year + 1
            } else {
                march_year
            };
            &&& y >= 1970
            &&& 1 <= d <= month_days(y, m)
            &&& days_since_epoch(y, m, d) == z - 719_468
        }),
{
    let n = 400 * era + 100 * century + 4 * quad + single;
    lemma_cycle(era, century, quad, single);
    lemma_months(n);
    lemma_months(n + 1);
    lemma_shift(n);
    lemma_first_year(era, century, quad, single, doy, z);
    lemma_march(mp, d, doy, n);
}

/// The years of a March year, as its parts give them.
proof fn lemma_cycle(era: int, century: int, quad: int, single: int)
    requires
        era >= 0,
        0 <= century <= 3,
        0 <= quad <= 24,
        0 <= single <= 3,
    ensures
        ({
            let n = 400 * era + 100 * century + 4 * quad + single;
            &&& n / 4 == 100 * era + 25 * century + quad
            &&& n / 100 == 4 * era + century
            &&& n / 400 == era
            &&& leap(n + 1) == (single == 3 && (quad != 24 || century == 3))
            &&& 365 * n + n / 4 - n / 100 + n / 400 == 146_097 * era + 36_524 * century + 1_461 * quad
                + 365 * single
        }),
{
    let n = 400 * era + 100 * century + 4 * quad + single;
    assert(n / 4 == 100 * era + 25 * century + quad);
    assert(n / 100 == 4 * era + century);
    assert(n / 400 == era);
    assert((n + 1) % 4 == (single + 1) % 4);
    assert((n + 1) % 100 == (4 * quad + single + 1) % 100);
    assert((n + 1) % 400 == (100 * century + 4 * quad + single + 1) % 400);
}

/// The first of March of a year, counted from the start of the year 1.
proof fn lemma_shift(n: int)
    requires
        n >= 0,
    ensures
        days_before_year(n) + 31 + month_days(n, 2) == 365 * n + n / 4 - n / 100 + n / 400 - 306,
        days_before_year(n + 1) == 365 * n + n / 4 - n / 100 + n / 400,
{
    assert(n % 4 == 0 ==> (n - 1) / 4 == n / 4 - 1);
    assert(n % 4 != 0 ==> (n - 1) / 4 == n / 4);
    assert(n % 100 == 0 ==> (n - 1) / 100 == n / 100 - 1);
    assert(n % 100 != 0 ==> (n - 1) / 100 == n / 100);
    assert(n % 400 == 0 ==> (n - 1) / 400 == n / 400 - 1);
    assert(n % 400 != 0 ==> (n - 1) / 400 == n / 400);
    assert(n % 400 == 0 ==> n % 100 == 0);
    assert(n % 100 == 0 ==> n % 4 == 0);
}

/// Nothing is before 1970.
proof fn lemma_first_year(era: int, century: int, quad: int, single: int, doy: int, z: int)
    requires
        z >= 719_468,
        era >= 0,
        0 <= century <= 3,
        0 <= quad <= 24,
        0 <= single <= 3,
        0 <= doy <= 365,
        z == 146_097 * era + 36_524 * century + 1_461 * quad + 365 * single + doy,
    ensures
        400 * era + 100 * century + 4 * quad + single >= 1969,
        400 * era + 100 * century + 4 * quad + single == 1969 ==> doy >= 306,
{
    if era < 4 {
        assert(false);
    } else if era == 4 {
        if century < 3 {
            assert(false);
        }
        if quad < 17 {
            assert(false);
        }
    }
}

/// The month and the day of a day of a March year.
proof fn lemma_march(mp: int, d: int, doy: int, n: int)
    requires
        0 <= mp <= 11,
        d >= 1,
        0 <= doy <= 365,
        doy == (153 * mp + 2) / 5 + d - 1,
        mp < 11 ==> d <= (153 * (mp + 1) + 2) / 5 - (153 * mp + 2) / 5,
        doy == 365 ==> leap(n + 1),
    ensures
        mp < 10 ==> d <= month_days(n, mp + 3) && days_before_month(n, mp + 3) + d - 1 == 31
            + month_days(n, 2) + doy,
        mp >= 10 ==> d <= month_days(n + 1, mp - 9) && days_before_month(n + 1, mp - 9) + d - 1 == doy
            - 306,
{
    lemma_months(n);
    lemma_months(n + 1);
    if mp == 0 {
    } else if mp == 1 {
    } else if mp == 2 {
    } else if mp == 3 {
    } else if mp == 4 {
    } else if mp == 5 {
    } else if mp == 6 {
    } else if mp == 7 {
    } else if mp == 8 {
    } else if mp == 9 {
    } else if mp == 10 {
    } else {
        assert(mp == 11);
    }
}

/// The date changes once a day: two moments have the same date exactly if they lie
/// in the same day.
pub proof fn law_dates_tell_days_apart(y: int, m: int, d: int, y2: int, m2: int, d2: int)
    requires
        y >= 1,
        y2 >= 1,
        1 <= m <= 12,
        1 <= m2 <= 12,
        1 <= d <= month_days(y, m),
        1 <= d2 <= month_days(y2, m2),
        days_since_epoch(y, m, d) == days_since_epoch(y2, m2, d2),
    ensures
        y == y2,
        m == m2,
        d == d2,
{
    lemma_months(y);
    lemma_months(y2);
    if y < y2 {
        lemma_years(y);
        lemma_years_grow(y + 1, y2);
    } else if y2 < y {
        lemma_years(y2);
        lemma_years_grow(y2 + 1, y);
    }
}

proof fn lemma_years_grow(a: int, b: int)
    requires
        1 <= a <= b,
    ensures
        days_before_year(a) <= days_before_year(b),
    decreases b - a,
{
    if a < b {
        lemma_years(a);
        lemma_years_grow(a + 1, b);
    }
}

// ---------------------------------------------------------------------------
// Features
// ---------------------------------------------------------------------------

/// The parts of the firmware that can be left out.
#[derive(Clone, Copy, PartialEq, Eq, Debug, Structural)]
pub struct Features {
    pub nano: bool,
    pub zmodem: bool,
    pub selftest: bool,
    pub soak: bool,
    pub panic_verbose: bool,
    pub can: bool,
}

/// What is built: a debug build has all tools for debugging and testing, and the soak
/// test brings the self-test along.
pub fn effective_features(configured: Features, release: bool) -> (r: Features)
    ensures
        r.nano == (configured.nano || !release),
        r.zmodem == configured.zmodem,
        r.selftest == (configured.selftest || configured.soak || !release),
        r.soak == (configured.soak || !release),
        r.panic_verbose == configured.panic_verbose,
        r.can == configured.can,
{
    Features {
        nano: configured.nano || !release,
        zmodem: configured.zmodem,
        selftest: configured.selftest || configured.soak || !release,
        soak: configured.soak || !release,
        panic_verbose: configured.panic_verbose,
        can: configured.can,
    }
}

// ---------------------------------------------------------------------------
// The memory layout
// ---------------------------------------------------------------------------

/// The UTF-8 encoding of a character that is white space: a space of some width, a tab,
/// or a character that ends a line or a page.
pub open spec fn is_space(c: Seq<u8>) -> bool {
    ||| c.len() == 1 && (c[0] == 0x20 || 0x09 <= c[0] <= 0x0d)
    ||| c.len() == 2 && c[0] == 0xc2 && (c[1] == 0x85 || c[1] == 0xa0)
    ||| c.len() == 3 && ({
        ||| c[0] == 0xe1 && c[1] == 0x9a && c[2] == 0x80
        ||| c[0] == 0xe2 && c[1] == 0x80 && (0x80 <= c[2] <= 0x8a || c[2] == 0xa8 || c[2] == 0xa9
            || c[2] == 0xaf)
        ||| c[0] == 0xe2 && c[1] == 0x81 && c[2] == 0x9f
        ||| c[0] == 0xe3 && c[1] == 0x80 && c[2] == 0x80
    })
}

/// The bytes of white space with which text begins: those of one character, or none.
pub open spec fn space_before(s: Seq<u8>) -> int {
    if s.len() >= 1 && is_space(s.take(1)) {
        1
    } else if s.len() >= 2 && is_space(s.take(2)) {
        2
    } else if s.len() >= 3 && is_space(s.take(3)) {
        3
    } else {
        0
    }
}

/// The bytes of white space with which text ends.
pub open spec fn space_after(s: Seq<u8>) -> int {
    if s.len() >= 1 && is_space(s.skip(s.len() - 1)) {
        1
    } else if s.len() >= 2 && is_space(s.skip(s.len() - 2)) {
        2
    } else if s.len() >= 3 && is_space(s.skip(s.len() - 3)) {
        3
    } else {
        0
    }
}

/// Text without white space around it.
pub open spec fn stripped(s: Seq<u8>) -> Seq<u8>
    decreases s.len(),
{
    if space_before(s) > 0 {
        stripped(s.skip(space_before(s)))
    } else if space_after(s) > 0 {
        stripped(s.take(s.len() - space_after(s)))
    } else {
        s
    }
}

/// What stands before the size of the guard in the linker script.
pub open spec fn guard_prefix() -> Seq<u8> {
    "MPU_GUARD_SIZE =".spec_bytes()
}

/// The size that a line gives.
pub open spec fn size_in_line(line: Seq<u8>) -> Option<int> {
    let whole = stripped(line);
    let rest = stripped(whole.skip(guard_prefix().len() as int));
    if !text::starts_with(whole, guard_prefix()) || !text::ends_with(rest, seq![0x3bu8]) {
        None
    } else {
        match text::integer(stripped(rest.take(rest.len() - 1))) {
            Some(n) => if n <= u32::MAX {
                Some(n)
            } else {
                None
            },
            None => None,
        }
    }
}

/// `from..to` is a line.
pub open spec fn is_line(s: Seq<u8>, from: int, to: int) -> bool {
    &&& 0 <= from <= to <= s.len()
    &&& from > 0 ==> s[from - 1] == 0x0a
    &&& to < s.len() ==> s[to] == 0x0a
    &&& forall|k: int| from <= k < to ==> #[trigger] s[k] != 0x0a
}

/// The first line that gives a size gives `size`.
pub open spec fn first_size(s: Seq<u8>, size: Option<u32>) -> bool {
    match size {
        Some(n) => exists|from: int, to: int|
            {
                &&& #[trigger] is_line(s, from, to)
                &&& size_in_line(s.subrange(from, to)) == Some(n as int)
                &&& forall|a: int, b: int|
                    b < from && #[trigger] is_line(s, a, b) ==> size_in_line(s.subrange(a, b)) is None
            },
        None => forall|a: int, b: int| #[trigger]
            is_line(s, a, b) ==> size_in_line(s.subrange(a, b)) is None,
    }
}

/// Whether `n` bytes from `at` on are a white space character.
fn space_at(s: &[u8], at: usize, n: usize) -> (r: bool)
    requires
        at + n <= s@.len(),
        1 <= n <= 3,
    ensures
        r == is_space(s@.subrange(at as int, at + n)),
{
    if n == 1 {
        s[at] == 0x20 || (s[at] >= 0x09 && s[at] <= 0x0d)
    } else if n == 2 {
        s[at] == 0xc2 && (s[at + 1] == 0x85 || s[at + 1] == 0xa0)
    } else {
        let (a, b, c): (u8, u8, u8) = (s[at], s[at + 1], s[at + 2]);
        (a == 0xe1 && b == 0x9a && c == 0x80) || (a == 0xe2 && b == 0x80 && ((c >= 0x80 && c
            <= 0x8a) || c == 0xa8 || c == 0xa9 || c == 0xaf)) || (a == 0xe2 && b == 0x81 && c
            == 0x9f) || (a == 0xe3 && b == 0x80 && c == 0x80)
    }
}

/// The white space at the front of `a..b`.
fn space_first(s: &[u8], a: usize, b: usize) -> (r: usize)
    requires
        a <= b <= s@.len(),
    ensures
        r == space_before(s@.subrange(a as int, b as int)),
        r <= b - a,
{
    let ghost part = s@.subrange(a as int, b as int);
    let mut n: usize = 1;
    while n <= 3 && n <= b - a
        invariant
            a <= b <= s@.len(),
            1 <= n <= 4,
            n <= b - a + 1,
            part == s@.subrange(a as int, b as int),
            forall|m: int| 1 <= m < n ==> !is_space(#[trigger] part.take(m)),
        decreases 4 - n,
    {
        assert(part.take(n as int) =~= s@.subrange(a as int, a + n));
        if space_at(s, a, n) {
            return n;
        }
        n += 1;
    }
    0
}

/// The white space at the end of `a..b`.
fn space_last(s: &[u8], a: usize, b: usize) -> (r: usize)
    requires
        a <= b <= s@.len(),
    ensures
        r == space_after(s@.subrange(a as int, b as int)),
        r <= b - a,
{
    let ghost part = s@.subrange(a as int, b as int);
    let mut n: usize = 1;
    while n <= 3 && n <= b - a
        invariant
            a <= b <= s@.len(),
            1 <= n <= 4,
            n <= b - a + 1,
            part == s@.subrange(a as int, b as int),
            forall|m: int| 1 <= m < n ==> !is_space(#[trigger] part.skip(part.len() - m)),
        decreases 4 - n,
    {
        assert(part.skip(part.len() - n) =~= s@.subrange(b - n, b as int));
        if space_at(s, b - n, n) {
            return n;
        }
        n += 1;
    }
    0
}

fn strip(s: &[u8]) -> (r: &[u8])
    ensures
        r@ == stripped(s@),
{
    let ghost all = s@;
    let mut a: usize = 0;
    let mut b: usize = s.len();
    assert(all.subrange(0, all.len() as int) =~= all);
    loop
        invariant
            a <= b <= s@.len(),
            all == s@,
            stripped(all) == stripped(all.subrange(a as int, b as int)),
        decreases b - a,
    {
        let ghost part = all.subrange(a as int, b as int);
        let front: usize = space_first(s, a, b);
        if front > 0 {
            assert(part.skip(front as int) =~= all.subrange(a + front, b as int));
            a += front;
            continue;
        }
        let back: usize = space_last(s, a, b);
        if back == 0 {
            return &s[a..b];
        }
        assert(part.take(part.len() - back) =~= all.subrange(a as int, b - back));
        b -= back;
    }
}

fn line_size(line: &[u8]) -> (r: Option<u32>)
    ensures
        match r {
            Some(n) => size_in_line(line@) == Some(n as int),
            None => size_in_line(line@) is None,
        },
{
    let whole: &[u8] = strip(line);
    let semicolon: [u8; 1] = [0x3b];
    assert(semicolon@ =~= seq![0x3bu8]);
    match text::without_prefix(whole, "MPU_GUARD_SIZE =".as_bytes()) {
        Some(rest) => {
            let rest: &[u8] = strip(rest);
            match text::without_suffix(rest, &semicolon) {
                Some(digits) => text::parse_u32_text(strip(digits)),
                None => None,
            }
        },
        None => None,
    }
}

/// The size of the stack guard that the linker script sets aside.
pub fn link_guard_size(script: &str) -> (r: Option<u32>)
    ensures
        first_size(script.spec_bytes(), r),
{
    let s: &[u8] = script.as_bytes();
    let ghost all = s@;
    let mut start: usize = 0;
    let mut i: usize = 0;
    while i <= s.len()
        invariant
            all == s@,
            all == script.spec_bytes(),
            start <= i <= all.len() + 1,
            i <= all.len() ==> (start > 0 ==> all[start - 1] == 0x0a),
            i == all.len() + 1 ==> start == i,
            forall|k: int| start <= k < i && k < all.len() ==> #[trigger] all[k] != 0x0a,
            forall|from: int, to: int| #[trigger]
                is_line(all, from, to) && to < start ==> size_in_line(all.subrange(from, to))
                    is None,
        decreases all.len() + 1 - i,
    {
        if i == s.len() || s[i] == 0x0a {
            assert(is_line(all, start as int, i as int));
            if let Some(n) = line_size(&s[start..i]) {
                return Some(n);
            }
            assert forall|from: int, to: int| #[trigger]
                is_line(all, from, to) && to < i + 1 implies size_in_line(all.subrange(from, to))
                is None by {
                if to >= start {
                    assert(to == i) by {
                        if to < i {
                            assert(all[to] == 0x0a);
                        }
                    }
                    assert(from == start) by {
                        if from < start {
                            assert(all[start - 1] == 0x0a);
                        } else if from > start {
                            assert(all[from - 1] == 0x0a);
                        }
                    }
                }
            }
            if i == s.len() {
                return None;
            }
            start = i + 1;
        }
        i += 1;
    }
    None
}

/// Whether the linker script sets aside the guard that is configured.
pub fn guard_is_consistent(script: &str, configured: u32) -> (r: bool)
    ensures
        r == first_size(script.spec_bytes(), Some(configured)),
{
    match link_guard_size(script) {
        Some(n) => {
            proof {
                if first_size(script.spec_bytes(), Some(configured)) {
                    lemma_first_size(script.spec_bytes(), n, configured);
                }
            }
            n == configured
        },
        None => false,
    }
}

/// There is at most one first size.
proof fn lemma_first_size(s: Seq<u8>, a: u32, b: u32)
    requires
        first_size(s, Some(a)),
        first_size(s, Some(b)),
    ensures
        a == b,
{
    let (f1, t1) = choose|from: int, to: int|
        {
            &&& #[trigger] is_line(s, from, to)
            &&& size_in_line(s.subrange(from, to)) == Some(a as int)
            &&& forall|x: int, y: int|
                y < from && #[trigger] is_line(s, x, y) ==> size_in_line(s.subrange(x, y)) is None
        };
    let (f2, t2) = choose|from: int, to: int|
        {
            &&& #[trigger] is_line(s, from, to)
            &&& size_in_line(s.subrange(from, to)) == Some(b as int)
            &&& forall|x: int, y: int|
                y < from && #[trigger] is_line(s, x, y) ==> size_in_line(s.subrange(x, y)) is None
        };
    assert(!(t1 < f2));
    assert(!(t2 < f1));
    if f1 < f2 {
        assert(s[f2 - 1] == 0x0a);
    } else if f2 < f1 {
        assert(s[f1 - 1] == 0x0a);
    } else if t1 < t2 {
        assert(s[t1] == 0x0a);
    } else if t2 < t1 {
        assert(s[t2] == 0x0a);
    }
}

/// The first of January 1970 is day 0, and each further day of the calendar counts one
/// more, over the end of a month and of a year; February has a 29th day in every fourth
/// year, but of the hundredth years only in every fourth.
pub proof fn law_days_follow_each_other(y: int, m: int, d: int)
    requires
        y >= 1970,
        1 <= m <= 12,
        1 <= d,
        d <= (if m == 2 {
            if y % 4 == 0 && (y % 100 != 0 || y % 400 == 0) {
                29int
            } else {
                28
            }
        } else if m == 4 || m == 6 || m == 9 || m == 11 {
            30
        } else {
            31
        }),
    ensures
        days_since_epoch(1970, 1, 1) == 0,
        ({
            let last = if m == 2 {
                if y % 4 == 0 && (y % 100 != 0 || y % 400 == 0) {
                    29int
                } else {
                    28
                }
            } else if m == 4 || m == 6 || m == 9 || m == 11 {
                30
            } else {
                31
            };
            let next = if d < last {
                days_since_epoch(y, m, d + 1)
            } else if m < 12 {
                days_since_epoch(y, m + 1, 1)
            } else {
                days_since_epoch(y + 1, 1, 1)
            };
            next == days_since_epoch(y, m, d) + 1
        }),
{
    reveal_with_fuel(days_before_month, 13);
}

/// Nothing that is configured gets lost, a debug build has all that a release has, what is
/// in effect brings nothing more along, and the soak test never comes without the
/// self-test.
pub proof fn law_features_are_closed(
    configured: Features,
    release: Features,
    debug: Features,
    again: Features,
)
    requires
        call_ensures(effective_features, (configured, true), release),
        call_ensures(effective_features, (configured, false), debug),
        call_ensures(effective_features, (release, true), again),
    ensures
        again == release,
        release.soak ==> release.selftest,
        debug.soak && debug.selftest && debug.nano,
        release.nano == configured.nano && release.soak == configured.soak,
        configured.selftest ==> release.selftest,
        release.selftest ==> configured.selftest || configured.soak,
        debug.zmodem == release.zmodem && release.zmodem == configured.zmodem,
        debug.can == release.can && release.can == configured.can,
        debug.panic_verbose == release.panic_verbose && release.panic_verbose
            == configured.panic_verbose,
{
}

} // verus!
