//! Note lengths written in ABC (`A2`, `A/2`, `A3/2`, `A/`) and unit note
//! lengths (`L:1/8`), kept exact as quotients of whole numbers, and the
//! beats that an event of a given length lasts.
use vstd::prelude::*;
use crate::text::{
    all_digits, chars_of, copy_range, digits_value, find_char, find_char_in, is_ascii_digit,
    is_digit, lemma_digits_value_nonneg, lemma_find_from_found, lemma_run_end, parse_uint_in,
    run_end,
};

verus! {

/// A length as the quotient `num / den`. The denominator may be 0, as when
/// the text divides by zero: `n / 0` with `n > 0` is then an infinite length
/// and `0 / 0` is no number at all (it is never longer than anything, and
/// nothing is longer than it).
#[derive(Clone, Copy, Debug, PartialEq, Eq, Structural)]
pub struct Duration {
    pub num: u64,
    pub den: u64,
}

/// `a` is strictly longer than `b`, compared as the numbers they stand for.
pub open spec fn longer(a: Duration, b: Duration) -> bool {
    if a.den == 0 {
        // infinite (or no number): longer only than a finite length
        a.num > 0 && b.den > 0
    } else {
        b.den > 0 && a.num * b.den > b.num * a.den
    }
}

/// Whether `a` is strictly longer than `b`.
pub fn is_longer(a: Duration, b: Duration) -> (r: bool)
    ensures
        r == longer(a, b),
{
    if a.den == 0 {
        a.num > 0 && b.den > 0
    } else {
        proof {
            lemma_product_fits(a.num, b.den);
            lemma_product_fits(b.num, a.den);
        }
        b.den > 0 && (a.num as u128) * (b.den as u128) > (b.num as u128) * (a.den as u128)
    }
}

proof fn lemma_product_fits(x: u64, y: u64)
    ensures
        (x as int) * (y as int) <= u128::MAX,
{
    assert((x as int) * (y as int) <= (u64::MAX as int) * (u64::MAX as int)) by (nonlinear_arith)
        requires
            0 <= x <= u64::MAX,
            0 <= y <= u64::MAX,
    ;
}

/// The two numbers whose quotient is the length written after a note or
/// rest, in units of the tune's unit note length, each read as a real
/// number (see `parse_real`): nothing means 1/1, `n` means `n/1`, `/`
/// alone means 1/2, `/d` means `1/d`, and `n/d` means `n/d`; a part that is
/// not a number takes its default (2 for the lone denominator after `/`, 1
/// otherwise).
pub open spec fn length_parts(t: Seq<char>) -> ((bool, Duration), (bool, Duration)) {
    let one = (false, Duration { num: 1, den: 1 });
    if t.len() == 0 {
        (one, one)
    } else if t[0] == '/' {
        (one, parse_real(t.drop_first()).unwrap_or((false, Duration { num: 2, den: 1 })))
    } else {
        match find_char(t, '/') {
            Some(i) => (parse_real(t.take(i)).unwrap_or(one), parse_real(t.skip(i + 1)).unwrap_or(one)),
            None => (parse_real(t).unwrap_or(one), one),
        }
    }
}

/// The length written in `t` has 64-bit parts (see `spec_quotient`).
pub open spec fn length_fits(t: Seq<char>) -> bool {
    spec_quotient(length_parts(t).0, length_parts(t).1) is Some
}

/// The length written after a note or rest: the quotient of its two parts
/// (see `length_parts` and `spec_quotient`; a negative length, which never
/// makes a beat longer, is kept as 0), or 1 when the quotient does not fit
/// in 64-bit parts.
pub open spec fn spec_parse_duration(t: Seq<char>) -> Duration {
    if length_fits(t) {
        spec_quotient(length_parts(t).0, length_parts(t).1).unwrap()
    } else {
        Duration { num: 1, den: 1 }
    }
}

/// The length written in `s[lo..hi]` (see `spec_parse_duration`).
pub fn parse_duration_in(s: &[char], lo: usize, hi: usize) -> (d: Duration)
    requires
        lo <= hi <= s@.len(),
    ensures
        d == spec_parse_duration(s@.subrange(lo as int, hi as int)),
{
    let ghost t = s@.subrange(lo as int, hi as int);
    let one = (false, Duration { num: 1, den: 1 });
    let (n, d) = if lo == hi {
        (one, one)
    } else if s[lo] == '/' {
        assert(t.drop_first() == s@.subrange(lo + 1, hi as int));
        let d = match parse_real_in(s, lo + 1, hi) {
            Some(x) => x,
            None => (false, Duration { num: 2, den: 1 }),
        };
        (one, d)
    } else {
        match find_char_in(s, lo, hi, '/') {
            Some(i) => {
                assert(t.take(i - lo) == s@.subrange(lo as int, i as int));
                assert(t.skip(i - lo + 1) == s@.subrange(i + 1, hi as int));
                let n = match parse_real_in(s, lo, i) {
                    Some(x) => x,
                    None => one,
                };
                let d = match parse_real_in(s, i + 1, hi) {
                    Some(x) => x,
                    None => one,
                };
                (n, d)
            },
            None => {
                let n = match parse_real_in(s, lo, hi) {
                    Some(x) => x,
                    None => one,
                };
                (n, one)
            },
        }
    };
    assert((n, d) == length_parts(t));
    match quotient(n, d) {
        Some(x) => x,
        None => Duration { num: 1, den: 1 },
    }
}

/// The length written in `s` (see `spec_parse_duration`).
pub fn parse_duration(s: &str) -> (d: Duration)
    ensures
        d == spec_parse_duration(s@),
{
    let v = chars_of(s);
    proof {
        assert(v@.subrange(0, v@.len() as int) == v@);
    }
    parse_duration_in(v.as_slice(), 0, v.len())
}

/// The unit note length of a tune as its `L:` field writes it: the two
/// parts of `n/d`, each a sign and a magnitude (see `parse_real`). It is
/// held as read, so that reading it never overflows; the quotient is taken
/// only when beats are computed.
#[derive(Clone, Copy, Debug, PartialEq, Eq)]
pub struct UnitLength {
    pub num: (bool, Duration),
    pub den: (bool, Duration),
}

/// The unit note length `n/d` of two whole numbers.
pub open spec fn whole_unit(n: u64, d: u64) -> UnitLength {
    UnitLength { num: (false, Duration { num: n, den: 1 }), den: (false, Duration { num: d, den: 1 }) }
}

/// An event of `length` units under the unit note length `unit`, in
/// quarter notes: `length * (n / d) * 4` kept as the unreduced quotient
/// `(4 * length.num * n.num * d.den) / (length.den * n.den * d.num)`. A
/// negative unit (the parts' signs differ) makes it 0.
pub open spec fn scaled_beats(length: Duration, unit: UnitLength) -> (int, int) {
    let (a, b) = (unit.num.1, unit.den.1);
    if unit.num.0 != unit.den.0 {
        (0, 1)
    } else {
        (4 * (length.num * a.num * b.den), length.den * a.den * b.num)
    }
}

/// The beats of an event of length `length` when the unit note length is
/// `unit`: a quarter note is one beat, so the event lasts
/// `length * unit * 4` beats; one that does not come out positive (zero,
/// negative, or no number at all) counts as one beat.
pub open spec fn spec_beats(length: Duration, unit: UnitLength) -> Duration {
    let (n, d) = scaled_beats(length, unit);
    if n > 0 {
        Duration { num: n as u64, den: d as u64 }
    } else {
        Duration { num: 1, den: 1 }
    }
}

/// The beats of `length` under `unit` have 64-bit parts.
pub open spec fn beats_fit(length: Duration, unit: UnitLength) -> bool {
    let (n, d) = scaled_beats(length, unit);
    n > 0 ==> n <= u64::MAX && d <= u64::MAX
}

/// The product `x * y * z`, when it fits in 64 bits.
fn product3(x: u64, y: u64, z: u64) -> (r: Option<u64>)
    ensures
        r == (if x * y * z <= u64::MAX {
            Some((x * y * z) as u64)
        } else {
            None
        }),
{
    if x == 0 || y == 0 || z == 0 {
        assert(x * y * z == 0) by (nonlinear_arith)
            requires
                x == 0 || y == 0 || z == 0,
        ;
        return Some(0);
    }
    match x.checked_mul(y) {
        None => {
            assert(x * y * z >= x * y) by (nonlinear_arith)
                requires
                    z >= 1,
                    x * y >= 0,
            ;
            None
        },
        Some(p) => p.checked_mul(z),
    }
}

/// The beats of `length` under `unit` (see `spec_beats`), or `None` when
/// they do not fit in 64-bit parts.
pub fn beats_checked(length: Duration, unit: UnitLength) -> (b: Option<Duration>)
    ensures
        b == (if beats_fit(length, unit) {
            Some(spec_beats(length, unit))
        } else {
            None
        }),
{
    let (a, c) = (unit.num.1, unit.den.1);
    if unit.num.0 != unit.den.0 {
        return Some(Duration { num: 1, den: 1 });
    }
    let x = match product3(length.num, a.num, c.den) {
        Some(x) => x,
        None => {
            return None;
        },
    };
    if x == 0 {
        return Some(Duration { num: 1, den: 1 });
    }
    if x > u64::MAX / 4 {
        return None;
    }
    match product3(length.den, a.den, c.num) {
        Some(d) => Some(Duration { num: 4 * x, den: d }),
        None => None,
    }
}

/// The beats of `length` under `unit` (see `spec_beats`).
pub fn beats(length: Duration, unit: UnitLength) -> (b: Duration)
    requires
        beats_fit(length, unit),
    ensures
        b == spec_beats(length, unit),
{
    match beats_checked(length, unit) {
        Some(b) => b,
        None => Duration { num: 1, den: 1 },
    }
}

/// With the default unit note length 1/4, an event of `n` units lasts `n`
/// beats: its beats are `4n / 4`.
pub proof fn law_quarter_unit_is_one_beat(n: u64)
    requires
        n > 0,
        4 * n <= u64::MAX,
    ensures
        spec_beats((Duration { num: n, den: 1 }), whole_unit(1, 4)) == (Duration {
            num: (4 * n) as u64,
            den: 4,
        }),
{
}

// ---------------------------------------------------------------------------
// Real numbers as `str::parse::<f32>` writes them
// ---------------------------------------------------------------------------

/// Ten to the power `k`.
pub open spec fn pow10(k: nat) -> nat
    decreases k,
{
    if k == 0 {
        1
    } else {
        10 * pow10((k - 1) as nat)
    }
}

proof fn lemma_pow10_monotone(a: nat, b: nat)
    requires
        a <= b,
    ensures
        1 <= pow10(a) <= pow10(b),
    decreases b,
{
    if b > 0 {
        if a < b {
            lemma_pow10_monotone(a, (b - 1) as nat);
        } else {
            lemma_pow10_monotone((a - 1) as nat, (b - 1) as nat);
        }
    }
}

/// `c` is the lower-case ASCII letter `w` in either case.
pub open spec fn same_letter(c: char, w: char) -> bool {
    c == w || c as u32 + 32 == w as u32
}

/// `b` is the lower-case ASCII word `w`, letters in either case.
pub open spec fn word_ci(b: Seq<char>, w: Seq<char>) -> bool {
    b.len() == w.len() && forall|i: int| 0 <= i < b.len() ==> same_letter(#[trigger] b[i], w[i])
}

/// Characters other than the exponent mark `e` / `E`.
pub open spec fn not_exp_mark() -> spec_fn(char) -> bool {
    |c: char| c != 'e' && c != 'E'
}

/// The exponent written after `e`: an optional sign, then one or more
/// digits.
pub open spec fn exponent_value(x: Seq<char>) -> Option<int> {
    let ds = x.skip(sign_len(x));
    if ds.len() > 0 && all_digits(ds) {
        Some(if x.len() > 0 && x[0] == '-' { -digits_value(ds) } else { digits_value(ds) })
    } else {
        None
    }
}

/// The digits of a mantissa (those before and after its first `.`) and
/// how many of them follow the point.
pub open spec fn mantissa_parts(m: Seq<char>) -> (Seq<char>, int) {
    match find_char(m, '.') {
        Some(i) => (m.take(i) + m.skip(i + 1), m.len() - i - 1),
        None => (m, 0),
    }
}

/// The number `dv * 10^k` as a quotient with 64-bit parts: `dv * 10^k / 1`
/// or `dv / 10^-k`, 0 as `0/1`; `None` when a part does not fit.
pub open spec fn scaled_decimal(dv: int, k: int) -> Option<Duration> {
    if dv == 0 {
        Some(Duration { num: 0, den: 1 })
    } else if k >= 0 {
        if dv * pow10(k as nat) <= u64::MAX {
            Some(Duration { num: (dv * pow10(k as nat)) as u64, den: 1 })
        } else {
            None
        }
    } else if dv <= u64::MAX && pow10((-k) as nat) <= u64::MAX {
        Some(Duration { num: dv as u64, den: pow10((-k) as nat) as u64 })
    } else {
        None
    }
}

/// The magnitude of an unsigned decimal as `str::parse::<f32>` writes it:
/// a mantissa of digits with at most one `.` among them and at least one
/// digit, then optionally `e` or `E` and a signed whole exponent; its value
/// is the mantissa's digits times ten to the exponent less the number of
/// digits after the point (see `scaled_decimal`). `None` when it is not
/// such a decimal or a part of its value exceeds 64 bits.
pub open spec fn decimal_value(b: Seq<char>) -> Option<Duration> {
    let me = run_end(b, 0, not_exp_mark());
    let e = if me < b.len() {
        exponent_value(b.skip(me + 1))
    } else {
        Some(0int)
    };
    let (digits, f) = mantissa_parts(b.take(me));
    if digits.len() > 0 && all_digits(digits) && e is Some {
        scaled_decimal(digits_value(digits), e.unwrap() - f)
    } else {
        None
    }
}

/// The length of the sign (`+` or `-`) at the start of `t`.
pub open spec fn sign_len(t: Seq<char>) -> int {
    if t.len() > 0 && (t[0] == '+' || t[0] == '-') {
        1
    } else {
        0
    }
}

/// A real number as `str::parse::<f32>` reads it, kept exact: whether it
/// is negative, and its magnitude. An optional sign, then `inf` or
/// `infinity` (magnitude `1/0`), `nan` (`0/0`), letters in either case, or
/// an unsigned decimal (see `decimal_value`).
pub open spec fn parse_real(t: Seq<char>) -> Option<(bool, Duration)> {
    let neg = t.len() > 0 && t[0] == '-';
    let b = t.skip(sign_len(t));
    if word_ci(b, seq!['i', 'n', 'f']) || word_ci(b, seq!['i', 'n', 'f', 'i', 'n', 'i', 't', 'y']) {
        Some((neg, Duration { num: 1, den: 0 }))
    } else if word_ci(b, seq!['n', 'a', 'n']) {
        Some((neg, Duration { num: 0, den: 0 }))
    } else {
        match decimal_value(b) {
            Some(d) => Some((neg, d)),
            None => None,
        }
    }
}

/// The quotient `n / d` of two signed magnitudes, kept as lengths go: a
/// negative quotient counts as zero (every event then lasts one beat, as
/// with a zero unit), and otherwise the magnitude is
/// `(n.num * d.den) / (n.den * d.num)`; `None` when that does not fit in
/// 64 bits.
pub open spec fn spec_quotient(n: (bool, Duration), d: (bool, Duration)) -> Option<Duration> {
    let (sn, a) = n;
    let (sd, b) = d;
    if sn != sd {
        Some(Duration { num: 0, den: 1 })
    } else if a.num * b.den <= u64::MAX && a.den * b.num <= u64::MAX {
        Some(Duration { num: (a.num * b.den) as u64, den: (a.den * b.num) as u64 })
    } else {
        None
    }
}

/// The unit note length that `L:n/d` sets: the two parts read as real
/// numbers, 1 and 4 where they are not.
pub open spec fn unit_length_field(n: Seq<char>, d: Seq<char>) -> UnitLength {
    UnitLength {
        num: parse_real(n).unwrap_or((false, Duration { num: 1, den: 1 })),
        den: parse_real(d).unwrap_or((false, Duration { num: 4, den: 1 })),
    }
}

fn pow10_checked(k: usize) -> (r: Option<u64>)
    ensures
        r == (if pow10(k as nat) <= u64::MAX {
            Some(pow10(k as nat) as u64)
        } else {
            None
        }),
{
    let mut p: u64 = 1;
    let mut i: usize = 0;
    while i < k
        invariant
            i <= k,
            p == pow10(i as nat),
        decreases k - i,
    {
        match p.checked_mul(10) {
            Some(q) => {
                p = q;
            },
            None => {
                proof {
                    lemma_pow10_monotone((i + 1) as nat, k as nat);
                }
                return None;
            },
        }
        i = i + 1;
    }
    Some(p)
}

fn all_digits_in(s: &[char], lo: usize, hi: usize) -> (b: bool)
    requires
        lo <= hi <= s@.len(),
    ensures
        b == all_digits(s@.subrange(lo as int, hi as int)),
{
    let mut i = lo;
    while i < hi
        invariant
            lo <= i <= hi <= s@.len(),
            all_digits(s@.subrange(lo as int, i as int)),
        decreases hi - i,
    {
        if !is_ascii_digit(s[i]) {
            assert(s@.subrange(lo as int, hi as int)[i - lo] == s@[i as int]);
            return false;
        }
        assert forall|j: int| 0 <= j < i + 1 - lo implies is_digit(
            #[trigger] s@.subrange(lo as int, i + 1)[j],
        ) by {
            if j < i - lo {
                assert(s@.subrange(lo as int, i + 1)[j] == s@.subrange(lo as int, i as int)[j]);
            }
        }
        i = i + 1;
    }
    true
}

fn word_ci_in(s: &[char], lo: usize, hi: usize, w: &[char]) -> (b: bool)
    requires
        lo <= hi <= s@.len(),
        forall|i: int| 0 <= i < w@.len() ==> 'a' <= #[trigger] w@[i] <= 'z',
    ensures
        b == word_ci(s@.subrange(lo as int, hi as int), w@),
{
    if hi - lo != w.len() {
        return false;
    }
    let mut i: usize = 0;
    while i < w.len()
        invariant
            hi - lo == w@.len(),
            lo <= hi <= s@.len(),
            i <= w@.len(),
            forall|j: int| 0 <= j < i ==> same_letter(s@[lo + j], w@[j]),
        decreases w@.len() - i,
    {
        let c = s[lo + i];
        let x = w[i];
        if !(c == x || (x as u32 >= 32 && c as u32 == x as u32 - 32)) {
            assert(s@.subrange(lo as int, hi as int)[i as int] == c);
            return false;
        }
        i = i + 1;
    }
    assert forall|j: int| 0 <= j < w@.len() implies same_letter(
        #[trigger] s@.subrange(lo as int, hi as int)[j],
        w@[j],
    ) by {
        assert(s@.subrange(lo as int, hi as int)[j] == s@[lo + j]);
    }
    true
}

proof fn lemma_all_digits_concat(a: Seq<char>, b: Seq<char>)
    ensures
        all_digits(a + b) == (all_digits(a) && all_digits(b)),
{
    if all_digits(a + b) {
        assert forall|i: int| 0 <= i < a.len() implies is_digit(#[trigger] a[i]) by {
            assert((a + b)[i] == a[i]);
        }
        assert forall|i: int| 0 <= i < b.len() implies is_digit(#[trigger] b[i]) by {
            assert((a + b)[a.len() + i] == b[i]);
        }
    }
    if all_digits(a) && all_digits(b) {
        assert forall|i: int| 0 <= i < (a + b).len() implies is_digit(#[trigger] (a + b)[i]) by {
            if i < a.len() {
                assert((a + b)[i] == a[i]);
            } else {
                assert((a + b)[i] == b[i - a.len()]);
            }
        }
    }
}

proof fn lemma_pow10_20()
    ensures
        pow10(20) > u64::MAX,
{
    reveal_with_fuel(pow10, 21);
}

/// A value that is not zero, or exceeds 64 bits, scaled by ten to a power
/// at least 20 away from zero does not fit.
proof fn lemma_scaled_too_far(dv: int, k: int)
    requires
        dv >= 1,
        k >= 20 || k <= -20,
    ensures
        scaled_decimal(dv, k) is None,
{
    lemma_pow10_20();
    if k >= 20 {
        lemma_pow10_monotone(20, k as nat);
        let p = pow10(k as nat);
        assert(dv * p >= p) by (nonlinear_arith)
            requires
                dv >= 1,
                p >= 1,
        ;
    } else {
        lemma_pow10_monotone(20, (-k) as nat);
    }
}

proof fn lemma_scaled_too_big(dv: int, k: int)
    requires
        dv > u64::MAX,
    ensures
        scaled_decimal(dv, k) is None,
{
    if k >= 0 {
        lemma_pow10_monotone(0, k as nat);
        let p = pow10(k as nat);
        assert(dv * p >= dv) by (nonlinear_arith)
            requires
                dv >= 1,
                p >= 1,
        ;
    }
}

/// `dv * 10^k` (see `scaled_decimal`).
fn scale(dv: u64, k: i128) -> (r: Option<Duration>)
    requires
        dv > 0,
    ensures
        r == scaled_decimal(dv as int, k as int),
{
    if k >= 20 || k <= -20 {
        proof {
            lemma_scaled_too_far(dv as int, k as int);
        }
        return None;
    }
    if k >= 0 {
        match pow10_checked(k as usize) {
            Some(p) => match dv.checked_mul(p) {
                Some(n) => Some(Duration { num: n, den: 1 }),
                None => None,
            },
            None => {
                proof {
                    let q = pow10(k as nat);
                    assert(dv * q >= q) by (nonlinear_arith)
                        requires
                            dv >= 1,
                            q >= 0,
                    ;
                }
                None
            },
        }
    } else {
        match pow10_checked((-k) as usize) {
            Some(p) => Some(Duration { num: dv, den: p }),
            None => None,
        }
    }
}

/// The bound beyond which an exponent is only known to be large.
pub open spec fn exp_cap() -> int {
    0x400000000000000000
}

proof fn lemma_cap_step(x: int, d: int)
    requires
        x >= 0,
        0 <= d <= 9,
    ensures
        (if (if x < exp_cap() { x } else { exp_cap() }) * 10 + d < exp_cap() {
            (if x < exp_cap() { x } else { exp_cap() }) * 10 + d
        } else {
            exp_cap()
        }) == (if x * 10 + d < exp_cap() {
            x * 10 + d
        } else {
            exp_cap()
        }),
{
}

/// The exponent `s[lo..hi]` (see `exponent_value`), its magnitude capped
/// at `exp_cap()`.
fn exponent_in(s: &[char], lo: usize, hi: usize) -> (r: Option<i128>)
    requires
        lo <= hi <= s@.len(),
    ensures
        match r {
            None => exponent_value(s@.subrange(lo as int, hi as int)) is None,
            Some(v) => exponent_value(s@.subrange(lo as int, hi as int)) matches Some(e) && (if -exp_cap()
                < e < exp_cap() {
                v == e
            } else {
                (v == exp_cap() || v == -exp_cap()) && (v > 0 <==> e > 0)
            }),
        },
{
    let ghost x = s@.subrange(lo as int, hi as int);
    let neg = lo < hi && s[lo] == '-';
    let start = if lo < hi && (s[lo] == '+' || s[lo] == '-') {
        lo + 1
    } else {
        lo
    };
    let ghost ds = s@.subrange(start as int, hi as int);
    assert(x.skip(sign_len(x)) == ds);
    if start == hi || !all_digits_in(s, start, hi) {
        return None;
    }
    let cap: i128 = 0x400000000000000000;
    let mut v: i128 = 0;
    let mut i = start;
    while i < hi
        invariant
            start <= i <= hi <= s@.len(),
            ds == s@.subrange(start as int, hi as int),
            all_digits(ds),
            cap == exp_cap(),
            v == (if digits_value(s@.subrange(start as int, i as int)) < exp_cap() {
                digits_value(s@.subrange(start as int, i as int))
            } else {
                exp_cap()
            }),
            0 <= v <= exp_cap(),
        decreases hi - i,
    {
        let c = s[i];
        assert(ds[i - start] == c);
        let digit = (c as u32 - '0' as u32) as i128;
        let ghost pre = s@.subrange(start as int, i as int);
        assert(s@.subrange(start as int, i + 1).drop_last() == pre);
        assert(all_digits(pre)) by {
            assert forall|j: int| 0 <= j < pre.len() implies is_digit(#[trigger] pre[j]) by {
                assert(pre[j] == ds[j]);
            }
        }
        proof {
            lemma_digits_value_nonneg(pre);
            lemma_cap_step(digits_value(pre), digit as int);
        }
        let w = v * 10 + digit;
        v = if w < cap {
            w
        } else {
            cap
        };
        i = i + 1;
    }
    assert(s@.subrange(start as int, hi as int) == ds);
    proof {
        lemma_digits_value_nonneg(ds);
    }
    if neg {
        Some(-v)
    } else {
        Some(v)
    }
}

/// The unsigned decimal `s[lo..hi]` (see `decimal_value`).
fn decimal_in(s: &[char], lo: usize, hi: usize) -> (r: Option<Duration>)
    requires
        lo <= hi <= s@.len(),
    ensures
        r == decimal_value(s@.subrange(lo as int, hi as int)),
{
    let ghost b = s@.subrange(lo as int, hi as int);
    let mut me = lo;
    while me < hi && s[me] != 'e' && s[me] != 'E'
        invariant
            lo <= me <= hi <= s@.len(),
            b == s@.subrange(lo as int, hi as int),
            forall|j: int| 0 <= j < me - lo ==> not_exp_mark()(#[trigger] b[j]),
        decreases hi - me,
    {
        assert(b[me - lo] == s@[me as int]);
        me = me + 1;
    }
    proof {
        if me < hi {
            assert(b[me - lo] == s@[me as int]);
        }
        lemma_run_end(b, 0, me - lo, not_exp_mark());
    }
    let e: i128 = if me < hi {
        assert(b.skip(me - lo + 1) == s@.subrange(me + 1, hi as int));
        match exponent_in(s, me + 1, hi) {
            Some(v) => v,
            None => {
                return None;
            },
        }
    } else {
        0
    };
    let ghost m = b.take(me - lo);
    assert(m == s@.subrange(lo as int, me as int));
    let (ihi, flo) = match find_char_in(s, lo, me, '.') {
        Some(i) => {
            assert(m.take(i - lo) == s@.subrange(lo as int, i as int));
            assert(m.skip(i - lo + 1) == s@.subrange(i + 1, me as int));
            (i, i + 1)
        },
        None => {
            assert(s@.subrange(me as int, me as int) =~= Seq::<char>::empty());
            assert(m + Seq::<char>::empty() == m);
            (me, me)
        },
    };
    let ghost ip = s@.subrange(lo as int, ihi as int);
    let ghost fp = s@.subrange(flo as int, me as int);
    assert(mantissa_parts(m) == (ip + fp, fp.len() as int));
    proof {
        lemma_all_digits_concat(ip, fp);
    }
    if (ihi - lo) + (me - flo) == 0 {
        return None;
    }
    if !all_digits_in(s, lo, ihi) || !all_digits_in(s, flo, me) {
        return None;
    }
    let mut v = copy_range(s, lo, ihi);
    let mut w = copy_range(s, flo, me);
    v.append(&mut w);
    assert(v@ == ip + fp);
    assert(v@.subrange(0, v@.len() as int) == v@);
    assert(is_digit(v@[0]));
    let dv = match parse_uint_in(&v, 0, v.len(), u64::MAX) {
        Some(x) => x,
        None => {
            proof {
                let ev = if me < hi { exponent_value(b.skip(me - lo + 1)).unwrap() } else { 0 };
                assert(v@[0] != '+');
                lemma_scaled_too_big(digits_value(ip + fp), ev - fp.len());
            }
            return None;
        },
    };
    if dv == 0 {
        return Some(Duration { num: 0, den: 1 });
    }
    let cap: i128 = 0x400000000000000000;
    if e >= cap || e <= -cap {
        proof {
            let ev = if me < hi { exponent_value(b.skip(me - lo + 1)).unwrap() } else { 0 };
            lemma_scaled_too_far(dv as int, ev - fp.len());
        }
        return None;
    }
    let f = (me - flo) as i128;
    scale(dv, e - f)
}

/// The real number `s[lo..hi]` (see `parse_real`).
pub fn parse_real_in(s: &[char], lo: usize, hi: usize) -> (r: Option<(bool, Duration)>)
    requires
        lo <= hi <= s@.len(),
    ensures
        r == parse_real(s@.subrange(lo as int, hi as int)),
{
    let ghost t = s@.subrange(lo as int, hi as int);
    let neg = lo < hi && s[lo] == '-';
    let start = if lo < hi && (s[lo] == '+' || s[lo] == '-') {
        lo + 1
    } else {
        lo
    };
    assert(t.skip(sign_len(t)) == s@.subrange(start as int, hi as int));
    let inf = ['i', 'n', 'f'];
    let infinity = ['i', 'n', 'f', 'i', 'n', 'i', 't', 'y'];
    let nan = ['n', 'a', 'n'];
    assert(inf@ == seq!['i', 'n', 'f']);
    assert(infinity@ == seq!['i', 'n', 'f', 'i', 'n', 'i', 't', 'y']);
    assert(nan@ == seq!['n', 'a', 'n']);
    if word_ci_in(s, start, hi, &inf) || word_ci_in(s, start, hi, &infinity) {
        return Some((neg, Duration { num: 1, den: 0 }));
    }
    if word_ci_in(s, start, hi, &nan) {
        return Some((neg, Duration { num: 0, den: 0 }));
    }
    match decimal_in(s, start, hi) {
        Some(d) => Some((neg, d)),
        None => None,
    }
}

/// `n / d` for two signed magnitudes (see `spec_quotient`).
pub fn quotient(n: (bool, Duration), d: (bool, Duration)) -> (r: Option<Duration>)
    ensures
        r == spec_quotient(n, d),
{
    let (sn, a) = n;
    let (sd, b) = d;
    if sn != sd {
        return Some(Duration { num: 0, den: 1 });
    }
    proof {
        lemma_product_fits(a.num, b.den);
        lemma_product_fits(a.den, b.num);
    }
    let x = (a.num as u128) * (b.den as u128);
    let y = (a.den as u128) * (b.num as u128);
    if x <= u64::MAX as u128 && y <= u64::MAX as u128 {
        Some(Duration { num: x as u64, den: y as u64 })
    } else {
        None
    }
}

/// The unit note length of `L:` with the parts `s[n0..n1]` and `s[d0..d1]`
/// (see `unit_length_field`).
pub fn unit_length_in(s: &[char], n0: usize, n1: usize, d0: usize, d1: usize) -> (r: UnitLength)
    requires
        n0 <= n1 <= s@.len(),
        d0 <= d1 <= s@.len(),
    ensures
        r == unit_length_field(s@.subrange(n0 as int, n1 as int), s@.subrange(d0 as int, d1 as int)),
{
    let num = match parse_real_in(s, n0, n1) {
        Some(x) => x,
        None => (false, Duration { num: 1, den: 1 }),
    };
    let den = match parse_real_in(s, d0, d1) {
        Some(x) => x,
        None => (false, Duration { num: 4, den: 1 }),
    };
    UnitLength { num, den }
}


/// A nonempty run of decimal digits reads as the whole number it spells.
proof fn lemma_digits_read(t: Seq<char>)
    requires
        t.len() > 0,
        all_digits(t),
        digits_value(t) <= u64::MAX,
    ensures
        parse_real(t) == Some((false, Duration { num: digits_value(t) as u64, den: 1 })),
        find_char(t, '/') is None,
{
    assert(is_digit(t[0]));
    assert(!same_letter(t[0], 'i') && !same_letter(t[0], 'n'));
    assert(sign_len(t) == 0);
    assert(t.skip(0) == t);
    assert forall|i: int| 0 <= i < t.len() implies not_exp_mark()(#[trigger] t[i]) by {
        assert(is_digit(t[i]));
    }
    lemma_run_end(t, 0, t.len() as int, not_exp_mark());
    assert(t.take(t.len() as int) == t);
    if let Some(k) = find_char(t, '.') {
        lemma_find_from_found(t, seq!['.'], 0);
        assert(t.subrange(k, k + 1)[0] == t[k]);
        assert(is_digit(t[k]));
    }
    if let Some(k) = find_char(t, '/') {
        lemma_find_from_found(t, seq!['/'], 0);
        assert(t.subrange(k, k + 1)[0] == t[k]);
        assert(is_digit(t[k]));
    }
    lemma_digits_value_nonneg(t);
    assert(pow10(0) == 1);
    assert(digits_value(t) * pow10(0) == digits_value(t));
}

/// Lengths written in whole numbers: `n` is `n/1`, `n/d` is `n/d`, `/d` is
/// `1/d`, a lone `/` is `1/2` and nothing is `1/1`.
pub proof fn law_whole_number_lengths(n: Seq<char>, d: Seq<char>)
    requires
        n.len() > 0,
        all_digits(n),
        digits_value(n) <= u64::MAX,
        d.len() > 0,
        all_digits(d),
        digits_value(d) <= u64::MAX,
    ensures
        spec_parse_duration(n) == (Duration { num: digits_value(n) as u64, den: 1 }),
        spec_parse_duration(n + seq!['/'] + d) == (Duration {
            num: digits_value(n) as u64,
            den: digits_value(d) as u64,
        }),
        spec_parse_duration(seq!['/'] + d) == (Duration { num: 1, den: digits_value(d) as u64 }),
        spec_parse_duration(seq!['/']) == (Duration { num: 1, den: 2 }),
        spec_parse_duration(Seq::<char>::empty()) == (Duration { num: 1, den: 1 }),
{
    lemma_digits_read(n);
    lemma_digits_read(d);
    lemma_digits_value_nonneg(n);
    lemma_digits_value_nonneg(d);
    let nv = digits_value(n);
    let dv = digits_value(d);
    assert(nv * 1 == nv && 1 * dv == dv && 1 * 1 == 1);
    // n alone
    assert(n[0] != '/') by {
        assert(is_digit(n[0]));
    }
    // n / d
    let t = n + seq!['/'] + d;
    assert(t[0] == n[0]);
    assert(t.subrange(n.len() as int, n.len() as int + 1) == seq!['/']);
    assert forall|j: int| 0 <= j < n.len() implies #[trigger] t.subrange(j, j + 1) != seq!['/'] by {
        assert(t.subrange(j, j + 1)[0] == n[j]);
        assert(is_digit(n[j]));
    }
    lemma_find_from_first_slash(t, n.len() as int);
    assert(t.take(n.len() as int) =~= n);
    assert(t.skip(n.len() as int + 1) =~= d);
    // / d
    let u = seq!['/'] + d;
    assert(u[0] == '/');
    assert(u.drop_first() =~= d);
    // lone /
    let w = seq!['/'];
    assert(w.drop_first() =~= Seq::<char>::empty());
    assert(parse_real(Seq::<char>::empty()) is None) by {
        assert(Seq::<char>::empty().skip(0) =~= Seq::<char>::empty());
        lemma_run_end(Seq::<char>::empty(), 0, 0, not_exp_mark());
        assert(Seq::<char>::empty().take(0) =~= Seq::<char>::empty());
        let m = mantissa_parts(Seq::<char>::empty());
        if let Some(k) = find_char(Seq::<char>::empty(), '.') {
            lemma_find_from_found(Seq::<char>::empty(), seq!['.'], 0);
        }
        assert(m.0.len() == 0);
    }
}

/// The first `/` of `t` is at `i` when `t[i]` is `/` and no earlier
/// character is.
proof fn lemma_find_from_first_slash(t: Seq<char>, i: int)
    requires
        0 <= i < t.len(),
        t.subrange(i, i + 1) == seq!['/'],
        forall|j: int| 0 <= j < i ==> #[trigger] t.subrange(j, j + 1) != seq!['/'],
    ensures
        find_char(t, '/') == Some(i),
{
    lemma_find_from_steps(t, 0, i);
}

proof fn lemma_find_from_steps(t: Seq<char>, j: int, i: int)
    requires
        0 <= j <= i < t.len(),
        t.subrange(i, i + 1) == seq!['/'],
        forall|m: int| j <= m < i ==> #[trigger] t.subrange(m, m + 1) != seq!['/'],
    ensures
        crate::text::find_from(t, seq!['/'], j) == Some(i),
    decreases i - j,
{
    if j < i {
        lemma_find_from_steps(t, j + 1, i);
    }
}

} // verus!
