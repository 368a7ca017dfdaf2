//! Character-level helpers for reading ABC text: the characters of a
//! string, whitespace, trimming, searching and reading unsigned numbers.
//!
//! Text is handled as a sequence of `char`s; a range `lo..hi` of a slice
//! stands for the piece of text between those two character positions.
use vstd::prelude::*;

verus! {

broadcast use vstd::string::group_string_axioms;

// ---------------------------------------------------------------------------
// Specifications
// ---------------------------------------------------------------------------

/// Unicode `White_Space`: the characters that `char::is_whitespace` accepts.
pub open spec fn is_ws(c: char) -> bool {
    let u = c as u32;
    ||| 0x09 <= u <= 0x0d
    ||| u == 0x20
    ||| u == 0x85
    ||| u == 0xa0
    ||| u == 0x1680
    ||| 0x2000 <= u <= 0x200a
    ||| u == 0x2028
    ||| u == 0x2029
    ||| u == 0x202f
    ||| u == 0x205f
    ||| u == 0x3000
}

/// `t` without its leading whitespace.
pub open spec fn trim_start(t: Seq<char>) -> Seq<char>
    decreases t.len(),
{
    if t.len() > 0 && is_ws(t[0]) {
        trim_start(t.drop_first())
    } else {
        t
    }
}

/// `t` without its trailing whitespace.
pub open spec fn trim_end(t: Seq<char>) -> Seq<char>
    decreases t.len(),
{
    if t.len() > 0 && is_ws(t.last()) {
        trim_end(t.drop_last())
    } else {
        t
    }
}

/// `t` without leading and trailing whitespace (`str::trim`).
pub open spec fn trim(t: Seq<char>) -> Seq<char> {
    trim_end(trim_start(t))
}

/// `p` is a prefix of `t`.
pub open spec fn starts_with(t: Seq<char>, p: Seq<char>) -> bool {
    p.len() <= t.len() && t.subrange(0, p.len() as int) == p
}

/// The first position at or after `i` where `p` occurs in `t`.
pub open spec fn find_from(t: Seq<char>, p: Seq<char>, i: int) -> Option<int>
    decreases t.len() + 1 - i,
{
    if i < 0 || i + p.len() > t.len() {
        None
    } else if t.subrange(i, i + p.len()) == p {
        Some(i)
    } else {
        find_from(t, p, i + 1)
    }
}

/// The first position where `p` occurs in `t` (`str::find`).
pub open spec fn find(t: Seq<char>, p: Seq<char>) -> Option<int> {
    find_from(t, p, 0)
}

/// The first position of the character `c` in `t`.
pub open spec fn find_char(t: Seq<char>, c: char) -> Option<int> {
    find(t, seq![c])
}

pub open spec fn is_digit(c: char) -> bool {
    '0' <= c <= '9'
}

pub open spec fn all_digits(t: Seq<char>) -> bool {
    forall|i: int| 0 <= i < t.len() ==> is_digit(#[trigger] t[i])
}

/// The number that the decimal digits `t` spell.
pub open spec fn digits_value(t: Seq<char>) -> int
    decreases t.len(),
{
    if t.len() == 0 {
        0
    } else {
        digits_value(t.drop_last()) * 10 + (t.last() as int - '0' as int)
    }
}

/// What `str::parse` gives for an unsigned integer type whose largest
/// value is `max`: an optional `+`, then one or more decimal digits whose
/// value is at most `max`; anything else is refused.
pub open spec fn parse_uint(t: Seq<char>, max: int) -> Option<int> {
    let d = if t.len() > 0 && t[0] == '+' { t.drop_first() } else { t };
    if d.len() > 0 && all_digits(d) && digits_value(d) <= max {
        Some(digits_value(d))
    } else {
        None
    }
}

/// The first whitespace-separated word of `t`
/// (`str::split_whitespace().next()`).
pub open spec fn first_word(t: Seq<char>) -> Option<Seq<char>> {
    let s = trim_start(t);
    if s.len() == 0 {
        None
    } else {
        Some(s.subrange(0, word_end(s, 0)))
    }
}

/// The end of the run of non-whitespace characters of `t` starting at `i`.
pub open spec fn word_end(t: Seq<char>, i: int) -> int
    decreases t.len() - i,
{
    if 0 <= i < t.len() && !is_ws(t[i]) {
        word_end(t, i + 1)
    } else {
        i
    }
}

/// The end of the run of characters satisfying `p` that starts at `i`.
pub open spec fn run_end(t: Seq<char>, i: int, p: spec_fn(char) -> bool) -> int
    decreases t.len() - i,
{
    if 0 <= i < t.len() && p(t[i]) {
        run_end(t, i + 1, p)
    } else {
        i
    }
}

// ---------------------------------------------------------------------------
// Lemmas

/// The run that starts at `i` ends at `j` exactly when every character in
/// between satisfies `p` and the one at `j` (if any) does not.
pub proof fn lemma_run_end(t: Seq<char>, i: int, j: int, p: spec_fn(char) -> bool)
    requires
        0 <= i <= j <= t.len(),
        forall|k: int| i <= k < j ==> p(#[trigger] t[k]),
        j == t.len() || !p(t[j]),
    ensures
        run_end(t, i, p) == j,
    decreases j - i,
{
    if i < j {
        lemma_run_end(t, i + 1, j, p);
    }
}

/// Every character of a run satisfies `p`, and the run stops at the end of
/// `t` or at a character that does not.
pub proof fn lemma_run_end_facts(t: Seq<char>, i: int, p: spec_fn(char) -> bool)
    requires
        0 <= i <= t.len(),
    ensures
        i <= run_end(t, i, p) <= t.len(),
        forall|k: int| i <= k < run_end(t, i, p) ==> p(#[trigger] t[k]),
        run_end(t, i, p) == t.len() || !p(t[run_end(t, i, p)]),
    decreases t.len() - i,
{
    if i < t.len() && p(t[i]) {
        lemma_run_end_facts(t, i + 1, p);
    }
}
// ---------------------------------------------------------------------------

/// Decimal digits never spell a negative number.
pub proof fn lemma_digits_value_nonneg(t: Seq<char>)
    requires
        all_digits(t),
    ensures
        digits_value(t) >= 0,
    decreases t.len(),
{
    if t.len() > 0 {
        assert(all_digits(t.drop_last()));
        lemma_digits_value_nonneg(t.drop_last());
        assert(is_digit(t[t.len() - 1]));
    }
}

/// A longer run of digits never spells a smaller number.
proof fn lemma_digits_value_prefix(t: Seq<char>, k: int)
    requires
        all_digits(t),
        0 <= k <= t.len(),
    ensures
        digits_value(t.subrange(0, k)) <= digits_value(t),
    decreases t.len(),
{
    if k < t.len() {
        let u = t.drop_last();
        assert(all_digits(u));
        lemma_digits_value_prefix(u, k);
        assert(u.subrange(0, k) == t.subrange(0, k));
        lemma_digits_value_nonneg(u);
        assert(is_digit(t[t.len() - 1]));
    } else {
        assert(t.subrange(0, k) == t);
    }
}

// ---------------------------------------------------------------------------
// Executable helpers
// ---------------------------------------------------------------------------

/// The characters of `s`, in order.
pub fn chars_of(s: &str) -> (v: Vec<char>)
    ensures
        v@ == s@,
{
    let mut v: Vec<char> = Vec::new();
    for c in it: s.chars()
        invariant
            it.seq() == s@,
            v@ == it.seq().take(it.index()),
    {
        v.push(c);
    }
    v
}

/// The characters that `String::from_utf8_lossy` reads from `bytes`: each
/// ill-formed sequence becomes U+FFFD.
pub uninterp spec fn lossy_utf8(bytes: Seq<u8>) -> Seq<char>;

/// Calls `String::from_utf8_lossy` (std): the text of `bytes` read as
/// UTF-8, each ill-formed sequence replaced by U+FFFD. The result is named
/// `lossy_utf8(bytes)`; for valid UTF-8 the documentation says no
/// conversion takes place, so it is then the decoding of the bytes. How
/// invalid input is replaced is not stated here.
#[verifier::external_body]
pub fn utf8_lossy(bytes: &[u8]) -> (s: String)
    ensures
        s@ == lossy_utf8(bytes@),
        vstd::utf8::valid_utf8(bytes@) ==> s@ == vstd::utf8::decode_utf8(bytes@),
{
    String::from_utf8_lossy(bytes).into_owned()
}

/// A `String` holding the characters `s[a..b]`, in order.
/// Calls `FromIterator<char> for String` (`Iterator::collect`), which by its
/// documentation appends each character in turn; nothing else is claimed.
#[verifier::external_body]
pub fn string_from_range(s: &[char], a: usize, b: usize) -> (r: String)
    requires
        a <= b <= s@.len(),
    ensures
        r@ == s@.subrange(a as int, b as int),
{
    s[a..b].iter().collect()
}

/// A copy of the characters `s[a..b]`.
pub fn copy_range(s: &[char], a: usize, b: usize) -> (v: Vec<char>)
    requires
        a <= b <= s@.len(),
    ensures
        v@ == s@.subrange(a as int, b as int),
{
    let mut v: Vec<char> = Vec::new();
    let mut i = a;
    while i < b
        invariant
            a <= i <= b <= s@.len(),
            v@ == s@.subrange(a as int, i as int),
        decreases b - i,
    {
        v.push(s[i]);
        assert(v@ =~= s@.subrange(a as int, i + 1));
        i = i + 1;
    }
    v
}

/// `char::is_whitespace`.
pub fn is_whitespace(c: char) -> (b: bool)
    ensures
        b == is_ws(c),
{
    let u = c as u32;
    (0x09 <= u && u <= 0x0d) || u == 0x20 || u == 0x85 || u == 0xa0 || u == 0x1680 || (0x2000
        <= u && u <= 0x200a) || u == 0x2028 || u == 0x2029 || u == 0x202f || u == 0x205f || u
        == 0x3000
}

pub fn is_ascii_digit(c: char) -> (b: bool)
    ensures
        b == is_digit(c),
{
    '0' <= c && c <= '9'
}

proof fn lemma_trim_start_step(s: Seq<char>, a: int, hi: int)
    requires
        0 <= a < hi <= s.len(),
        is_ws(s[a]),
    ensures
        trim_start(s.subrange(a, hi)) == trim_start(s.subrange(a + 1, hi)),
{
    assert(s.subrange(a, hi).drop_first() == s.subrange(a + 1, hi));
}

proof fn lemma_trim_end_step(s: Seq<char>, a: int, b: int)
    requires
        0 <= a < b <= s.len(),
        is_ws(s[b - 1]),
    ensures
        trim_end(s.subrange(a, b)) == trim_end(s.subrange(a, b - 1)),
{
    assert(s.subrange(a, b).drop_last() == s.subrange(a, b - 1));
}

/// The bounds of `s[lo..hi]` with leading and trailing whitespace removed.
pub fn trim_bounds(s: &[char], lo: usize, hi: usize) -> (r: (usize, usize))
    requires
        lo <= hi <= s@.len(),
    ensures
        lo <= r.0 <= r.1 <= hi,
        s@.subrange(r.0 as int, r.1 as int) == trim(s@.subrange(lo as int, hi as int)),
{
    let mut a = lo;
    while a < hi && is_whitespace(s[a])
        invariant
            lo <= a <= hi <= s@.len(),
            trim_start(s@.subrange(lo as int, hi as int)) == trim_start(s@.subrange(a as int, hi as int)),
        decreases hi - a,
    {
        proof {
            lemma_trim_start_step(s@, a as int, hi as int);
        }
        a = a + 1;
    }
    assert(trim_start(s@.subrange(a as int, hi as int)) == s@.subrange(a as int, hi as int));
    let mut b = hi;
    while b > a && is_whitespace(s[b - 1])
        invariant
            lo <= a <= b <= hi <= s@.len(),
            trim_end(s@.subrange(a as int, hi as int)) == trim_end(s@.subrange(a as int, b as int)),
        decreases b - a,
    {
        proof {
            lemma_trim_end_step(s@, a as int, b as int);
        }
        b = b - 1;
    }
    (a, b)
}


/// The bounds of the first whitespace-separated word of `s[lo..hi]`.
pub fn first_word_bounds(s: &[char], lo: usize, hi: usize) -> (r: Option<(usize, usize)>)
    requires
        lo <= hi <= s@.len(),
    ensures
        match r {
            Some((a, b)) => lo <= a <= b <= hi && first_word(s@.subrange(lo as int, hi as int))
                == Some(s@.subrange(a as int, b as int)),
            None => first_word(s@.subrange(lo as int, hi as int)) is None,
        },
{
    let mut a = lo;
    while a < hi && is_whitespace(s[a])
        invariant
            lo <= a <= hi <= s@.len(),
            trim_start(s@.subrange(lo as int, hi as int)) == trim_start(s@.subrange(a as int, hi as int)),
        decreases hi - a,
    {
        proof {
            lemma_trim_start_step(s@, a as int, hi as int);
        }
        a = a + 1;
    }
    let ghost u = s@.subrange(a as int, hi as int);
    assert(trim_start(u) == u);
    if a == hi {
        return None;
    }
    let mut b = a;
    while b < hi && !is_whitespace(s[b])
        invariant
            lo <= a <= b <= hi <= s@.len(),
            u == s@.subrange(a as int, hi as int),
            word_end(u, 0) == word_end(u, b - a),
        decreases hi - b,
    {
        assert(u[b - a] == s@[b as int]);
        b = b + 1;
    }
    proof {
        if b < hi {
            assert(u[b - a] == s@[b as int]);
        }
        assert(u.subrange(0, b - a) == s@.subrange(a as int, b as int));
    }
    Some((a, b))
}

/// Whether `p` occurs in `s` at position `i`.
pub fn matches_at(s: &[char], i: usize, p: &[char]) -> (b: bool)
    requires
        i + p@.len() <= s@.len(),
    ensures
        b == (s@.subrange(i as int, i + p@.len()) == p@),
{
    let mut k: usize = 0;
    while k < p.len()
        invariant
            i + p@.len() <= s@.len(),
            k <= p@.len(),
            forall|j: int| 0 <= j < k ==> s@[i + j] == p@[j],
        decreases p@.len() - k,
    {
        let n = s.len();
        assert(i + k < n);
        if s[i + k] != p[k] {
            assert(s@.subrange(i as int, i + p@.len())[k as int] != p@[k as int]);
            return false;
        }
        k = k + 1;
    }
    assert(s@.subrange(i as int, i + p@.len()) =~= p@);
    true
}

/// Whether `s[lo..hi]` begins with `p`.
pub fn starts_with_at(s: &[char], lo: usize, hi: usize, p: &[char]) -> (b: bool)
    requires
        lo <= hi <= s@.len(),
    ensures
        b == starts_with(s@.subrange(lo as int, hi as int), p@),
{
    if p.len() > hi - lo {
        return false;
    }
    let b = matches_at(s, lo, p);
    assert(s@.subrange(lo as int, hi as int).subrange(0, p@.len() as int) == s@.subrange(
        lo as int,
        lo + p@.len(),
    ));
    b
}

/// The first position, counted in `s`, where `p` occurs inside `s[lo..hi]`.
pub fn find_in(s: &[char], lo: usize, hi: usize, p: &[char]) -> (r: Option<usize>)
    requires
        lo <= hi <= s@.len(),
    ensures
        match r {
            Some(i) => lo <= i && find(s@.subrange(lo as int, hi as int), p@) == Some(i - lo),
            None => find(s@.subrange(lo as int, hi as int), p@) is None,
        },
{
    let ghost t = s@.subrange(lo as int, hi as int);
    let mut i = lo;
    while p.len() <= hi - i
        invariant
            lo <= i <= hi,
            lo <= hi <= s@.len(),
            t == s@.subrange(lo as int, hi as int),
            find(t, p@) == find_from(t, p@, i - lo),
        decreases hi + 1 - i,
    {
        assert(t.subrange(i - lo, i - lo + p@.len()) == s@.subrange(i as int, i + p@.len()));
        if matches_at(s, i, p) {
            return Some(i);
        }
        assert(p@.len() > 0) by {
            if p@.len() == 0 {
                assert(s@.subrange(i as int, i as int) =~= p@);
            }
        }
        i = i + 1;
    }
    None
}

/// The first position, counted in `s`, of the character `c` inside `s[lo..hi]`.
pub fn find_char_in(s: &[char], lo: usize, hi: usize, c: char) -> (r: Option<usize>)
    requires
        lo <= hi <= s@.len(),
    ensures
        match r {
            Some(i) => lo <= i < hi && s@[i as int] == c && find_char(s@.subrange(lo as int, hi as int), c) == Some(i - lo),
            None => find_char(s@.subrange(lo as int, hi as int), c) is None,
        },
{
    let pat = [c];
    assert(pat@ == seq![c]);
    let r = find_in(s, lo, hi, &pat);
    if let Some(i) = r {
        proof {
            let t = s@.subrange(lo as int, hi as int);
            lemma_find_from_found(t, seq![c], 0);
            assert(t.subrange(i - lo, i - lo + 1)[0] == c);
        }
    }
    r
}

/// A position that `find_from` reports is one where the pattern occurs.
pub proof fn lemma_find_from_found(t: Seq<char>, p: Seq<char>, i: int)
    ensures
        find_from(t, p, i) matches Some(k) ==> i <= k && k + p.len() <= t.len() && t.subrange(
            k,
            k + p.len(),
        ) == p,
    decreases t.len() + 1 - i,
{
    if !(i < 0 || i + p.len() > t.len()) && t.subrange(i, i + p.len()) != p {
        lemma_find_from_found(t, p, i + 1);
    }
}

/// `str::parse` of `s[lo..hi]` into an unsigned integer type whose largest
/// value is `max`.
pub fn parse_uint_in(s: &[char], lo: usize, hi: usize, max: u64) -> (r: Option<u64>)
    requires
        lo <= hi <= s@.len(),
    ensures
        match r {
            Some(v) => parse_uint(s@.subrange(lo as int, hi as int), max as int) == Some(v as int),
            None => parse_uint(s@.subrange(lo as int, hi as int), max as int) is None,
        },
{
    let ghost t = s@.subrange(lo as int, hi as int);
    let ghost d0 = if t.len() > 0 && t[0] == '+' { t.drop_first() } else { t };
    let mut start = lo;
    if lo < hi && s[lo] == '+' {
        start = lo + 1;
        assert(t.drop_first() == s@.subrange(start as int, hi as int));
    } else {
        assert(t == s@.subrange(start as int, hi as int));
    }
    let ghost d = s@.subrange(start as int, hi as int);
    assert(d0 == d);
    if start == hi {
        return None;
    }
    let mut v: u64 = 0;
    let mut i = start;
    while i < hi
        invariant
            lo <= start <= i <= hi <= s@.len(),
            d == s@.subrange(start as int, hi as int),
            t == s@.subrange(lo as int, hi as int),
            d == (if t.len() > 0 && t[0] == '+' { t.drop_first() } else { t }),
            all_digits(s@.subrange(start as int, i as int)),
            v as int == digits_value(s@.subrange(start as int, i as int)),
            v <= max,
        decreases hi - i,
    {
        let c = s[i];
        assert(s@.subrange(start as int, i + 1).drop_last() == s@.subrange(start as int, i as int));
        if !is_ascii_digit(c) {
            assert(d[i - start] == c);
            assert(!is_digit(d[i - start]));
            return None;
        }
        let digit = (c as u32 - '0' as u32) as u64;
        if (v as u128) * 10 + (digit as u128) > max as u128 {
            proof {
                assert(all_digits(s@.subrange(start as int, i + 1)));
                assert(digits_value(s@.subrange(start as int, i + 1)) > max);
                if all_digits(d) {
                    lemma_digits_value_prefix(d, i + 1 - start);
                    assert(d.subrange(0, i + 1 - start) == s@.subrange(start as int, i + 1));
                }
            }
            return None;
        }
        v = v * 10 + digit;
        i = i + 1;
    }
    Some(v)
}

} // verus!
