//! ABC parser for SATB harp drills.
//!
//! Reads the `[V: S1V1]` inline voice format of the drill book and produces
//! raw MIDI events per voice: no voicing engine, no chord analysis.
use vstd::prelude::*;
use crate::duration::{
    is_longer, longer, parse_duration_in, spec_parse_duration, whole_unit, Duration, UnitLength,
};
use crate::duration::{unit_length_field, unit_length_in};
use crate::music::{key_signature, key_signature_in, major_scale, note_letters};
use crate::text::{
    chars_of, copy_range, find, find_char, find_char_in, find_in, first_word, first_word_bounds,
    is_digit, lemma_find_from_found, lemma_run_end, lemma_run_end_facts, parse_uint, parse_uint_in,
    lossy_utf8, run_end, starts_with, starts_with_at, string_from_range, trim, trim_bounds, utf8_lossy,
};

verus! {

// ---------------------------------------------------------------------------
// Notes: `^^c'`, `_B,,`, `=f`
// ---------------------------------------------------------------------------

/// Sharp `^`, flat `_` or natural `=`.
pub open spec fn is_accidental(c: char) -> bool {
    c == '^' || c == '_' || c == '='
}

/// `,` (an octave down) or `'` (an octave up).
pub open spec fn is_octave_mark(c: char) -> bool {
    c == ',' || c == '\''
}

pub open spec fn is_lower(c: char) -> bool {
    'a' <= c <= 'z'
}

pub open spec fn fits_i32(v: int) -> bool {
    i32::MIN <= v <= i32::MAX
}

/// The semitone shift written by the accidentals among the first `n`
/// characters of `t`: none at all when `n` is 0; otherwise each `^` raises
/// and each `_` lowers the shift by one, and `=` resets it to 0.
pub open spec fn accidental_after(t: Seq<char>, n: int) -> Option<int>
    decreases n,
{
    if n <= 0 {
        None
    } else {
        let prev = accidental_after(t, n - 1).unwrap_or(0);
        let c = t[n - 1];
        if c == '=' {
            Some(0)
        } else if c == '^' {
            Some(prev + 1)
        } else {
            Some(prev - 1)
        }
    }
}

/// The MIDI number, in the octave of middle C, and the diatonic degree
/// (C = 0 .. B = 6) of a note letter of either case.
pub open spec fn letter_base(c: char) -> Option<(int, int)> {
    if c == 'C' || c == 'c' {
        Some((60, 0))
    } else if c == 'D' || c == 'd' {
        Some((62, 1))
    } else if c == 'E' || c == 'e' {
        Some((64, 2))
    } else if c == 'F' || c == 'f' {
        Some((65, 3))
    } else if c == 'G' || c == 'g' {
        Some((67, 4))
    } else if c == 'A' || c == 'a' {
        Some((69, 5))
    } else if c == 'B' || c == 'b' {
        Some((71, 6))
    } else {
        None
    }
}

/// The shift written by the octave marks `t[i..j]`: 12 down for each `,`
/// and 12 up for each `'`.
pub open spec fn octave_shift(t: Seq<char>, i: int, j: int) -> int
    decreases j - i,
{
    if j <= i {
        0
    } else {
        octave_shift(t, i, j - 1) + (if t[j - 1] == ',' { -12int } else { 12int })
    }
}

pub open spec fn accidental_pred() -> spec_fn(char) -> bool {
    |c: char| is_accidental(c)
}

pub open spec fn octave_mark_pred() -> spec_fn(char) -> bool {
    |c: char| is_octave_mark(c)
}

/// Where the leading accidentals of a note token end (at the letter).
pub open spec fn accidental_end(t: Seq<char>) -> int {
    run_end(t, 0, accidental_pred())
}

/// Where the octave marks that follow the letter end.
pub open spec fn octave_end(t: Seq<char>) -> int {
    run_end(t, accidental_end(t) + 1, octave_mark_pred())
}

/// The shift that applies to the letter at `accidental_end(t)`: that of the
/// written accidentals, or else that of the key signature for the degree.
pub open spec fn note_adjust(t: Seq<char>, key: Seq<i32>, degree: int) -> int {
    match accidental_after(t, accidental_end(t)) {
        Some(a) => a,
        None => key[degree] as int,
    }
}

/// The MIDI number of the letter with its accidental, before octave marks:
/// a lower-case letter sounds an octave above its capital.
pub open spec fn note_start(t: Seq<char>, key: Seq<i32>) -> int {
    let k = accidental_end(t);
    let (base, degree) = letter_base(t[k]).unwrap();
    base + note_adjust(t, key, degree) + (if is_lower(t[k]) { 12int } else { 0int })
}

/// The MIDI number of an ABC note token (`^^c'` and the like) under the key
/// signature `key` (one shift per degree C..B): `None` when no note letter
/// A-G (either case) follows the accidentals.
pub open spec fn note_midi(t: Seq<char>, key: Seq<i32>) -> Option<int> {
    let k = accidental_end(t);
    if k >= t.len() || letter_base(t[k]) is None {
        None
    } else {
        Some(note_start(t, key) + octave_shift(t, k + 1, octave_end(t)))
    }
}

/// Reading the token step by step as ABC does (accidentals one by one, then
/// the letter, then the octave marks one by one) never leaves the range of
/// `i32`.
pub open spec fn note_in_range(t: Seq<char>, key: Seq<i32>) -> bool {
    let k = accidental_end(t);
    &&& forall|n: int| 1 <= n <= k ==> fits_i32(#[trigger] accidental_after(t, n).unwrap())
    &&& (k < t.len() && letter_base(t[k]) is Some) ==> {
        let (base, degree) = letter_base(t[k]).unwrap();
        &&& fits_i32(base + note_adjust(t, key, degree))
        &&& fits_i32(note_start(t, key))
        &&& forall|j: int|
            k + 1 <= j <= octave_end(t) ==> fits_i32(
                note_start(t, key) + #[trigger] octave_shift(t, k + 1, j),
            )
    }
}

/// A MIDI number would leave the range of `i32`.
#[derive(Clone, Copy, Debug, PartialEq, Eq, Structural)]
pub struct OutOfRange;

fn letter_of(c: char) -> (r: Option<(i32, usize)>)
    ensures
        match r {
            Some((b, d)) => letter_base(c) == Some((b as int, d as int)) && d < 7,
            None => letter_base(c) is None,
        },
{
    if c == 'C' || c == 'c' {
        Some((60, 0))
    } else if c == 'D' || c == 'd' {
        Some((62, 1))
    } else if c == 'E' || c == 'e' {
        Some((64, 2))
    } else if c == 'F' || c == 'f' {
        Some((65, 3))
    } else if c == 'G' || c == 'g' {
        Some((67, 4))
    } else if c == 'A' || c == 'a' {
        Some((69, 5))
    } else if c == 'B' || c == 'b' {
        Some((71, 6))
    } else {
        None
    }
}

/// A run of the first `m` characters all satisfying `p` ends no earlier than `m`.
proof fn lemma_run_at_least(t: Seq<char>, i: int, m: int, p: spec_fn(char) -> bool)
    requires
        0 <= i <= m <= t.len(),
        forall|k: int| i <= k < m ==> p(#[trigger] t[k]),
    ensures
        run_end(t, i, p) >= m,
{
    lemma_run_end_facts(t, i, p);
    let r = run_end(t, i, p);
    if r < m {
        assert(p(t[r]));
    }
}

/// The MIDI number of the note token `s[lo..hi]`, or `OutOfRange` when
/// reading it would leave the range of `i32`.
pub fn note_midi_in(s: &[char], lo: usize, hi: usize, key: &[i32; 7]) -> (r: Result<
    Option<i32>,
    OutOfRange,
>)
    requires
        lo <= hi <= s@.len(),
    ensures
        match r {
            Ok(m) => note_in_range(s@.subrange(lo as int, hi as int), key@) && match m {
                Some(v) => note_midi(s@.subrange(lo as int, hi as int), key@) == Some(v as int),
                None => note_midi(s@.subrange(lo as int, hi as int), key@) is None,
            },
            Err(_) => !note_in_range(s@.subrange(lo as int, hi as int), key@),
        },
{
    let ghost t = s@.subrange(lo as int, hi as int);
    let mut acc: Option<i32> = None;
    let mut i = lo;
    while i < hi && (s[i] == '^' || s[i] == '_' || s[i] == '=')
        invariant
            lo <= i <= hi <= s@.len(),
            t == s@.subrange(lo as int, hi as int),
            forall|k: int| 0 <= k < i - lo ==> accidental_pred()(#[trigger] t[k]),
            match acc {
                Some(a) => accidental_after(t, i - lo) == Some(a as int),
                None => accidental_after(t, i - lo) is None,
            },
            forall|n: int| 1 <= n <= i - lo ==> fits_i32(#[trigger] accidental_after(t, n).unwrap()),
        decreases hi - i,
    {
        let c = s[i];
        assert(t[i - lo] == c);
        let prev = match acc {
            Some(a) => a,
            None => 0,
        };
        if c == '=' {
            acc = Some(0);
        } else if c == '^' {
            if prev == i32::MAX {
                proof {
                    assert(forall|k: int| 0 <= k < i - lo + 1 ==> accidental_pred()(#[trigger] t[k]));
                    lemma_run_at_least(t, 0, i - lo + 1, accidental_pred());
                    assert(!fits_i32(accidental_after(t, i - lo + 1).unwrap()));
                }
                return Err(OutOfRange);
            }
            acc = Some(prev + 1);
        } else {
            if prev == i32::MIN {
                proof {
                    assert(forall|k: int| 0 <= k < i - lo + 1 ==> accidental_pred()(#[trigger] t[k]));
                    lemma_run_at_least(t, 0, i - lo + 1, accidental_pred());
                    assert(!fits_i32(accidental_after(t, i - lo + 1).unwrap()));
                }
                return Err(OutOfRange);
            }
            acc = Some(prev - 1);
        }
        i = i + 1;
    }
    let ghost k = i - lo;
    proof {
        if i < hi {
            assert(t[k] == s@[i as int]);
        }
        lemma_run_end(t, 0, k, accidental_pred());
        assert(accidental_end(t) == k);
    }
    if i >= hi {
        return Ok(None);
    }
    let ch = s[i];
    let (base, degree) = match letter_of(ch) {
        Some(bd) => bd,
        None => {
            return Ok(None);
        },
    };
    let adjustment = match acc {
        Some(a) => a,
        None => key[degree],
    };
    if adjustment > i32::MAX - base {
        return Err(OutOfRange);
    }
    let mut midi = base + adjustment;
    if 'a' <= ch && ch <= 'z' {
        if midi > i32::MAX - 12 {
            return Err(OutOfRange);
        }
        midi = midi + 12;
    }
    assert(midi as int == note_start(t, key@));
    let ghost start = midi as int;
    let mut j = i + 1;
    assert(octave_shift(t, k + 1, k + 1) == 0);
    while j < hi && (s[j] == ',' || s[j] == '\'')
        invariant
            lo <= i < j <= hi <= s@.len(),
            t == s@.subrange(lo as int, hi as int),
            k == i - lo,
            accidental_end(t) == k,
            k < t.len(),
            letter_base(t[k]) is Some,
            start == note_start(t, key@),
            forall|m: int| k + 1 <= m < j - lo ==> octave_mark_pred()(#[trigger] t[m]),
            midi as int == start + octave_shift(t, k + 1, j - lo),
            forall|m: int|
                k + 1 <= m <= j - lo ==> fits_i32(start + #[trigger] octave_shift(t, k + 1, m)),
        decreases hi - j,
    {
        let c = s[j];
        assert(t[j - lo] == c);
        if c == ',' {
            if midi < i32::MIN + 12 {
                proof {
                    assert(forall|m: int| k + 1 <= m < j - lo + 1 ==> octave_mark_pred()(#[trigger] t[m]));
                    lemma_run_at_least(t, k + 1, j - lo + 1, octave_mark_pred());
                    assert(!fits_i32(start + octave_shift(t, k + 1, j - lo + 1)));
                }
                return Err(OutOfRange);
            }
            midi = midi - 12;
        } else {
            if midi > i32::MAX - 12 {
                proof {
                    assert(forall|m: int| k + 1 <= m < j - lo + 1 ==> octave_mark_pred()(#[trigger] t[m]));
                    lemma_run_at_least(t, k + 1, j - lo + 1, octave_mark_pred());
                    assert(!fits_i32(start + octave_shift(t, k + 1, j - lo + 1)));
                }
                return Err(OutOfRange);
            }
            midi = midi + 12;
        }
        j = j + 1;
    }
    proof {
        if j < hi {
            assert(t[j - lo] == s@[j as int]);
        }
        lemma_run_end(t, k + 1, j - lo, octave_mark_pred());
        assert(octave_end(t) == j - lo);
    }
    Ok(Some(midi))
}

/// The MIDI note that the ABC note token `token` (accidentals, a letter,
/// octave marks) stands for under the key signature `key_sig_acc`: explicit
/// accidentals replace the key signature's shift for that degree, a
/// lower-case letter sounds an octave higher, each `,` an octave lower and
/// each `'` an octave higher. `None` when no note letter follows the
/// accidentals.
pub fn abc_note_to_midi(token: &str, key_sig_acc: &[i32; 7]) -> (r: Option<i32>)
    requires
        note_in_range(token@, key_sig_acc@),
    ensures
        match r {
            Some(v) => note_midi(token@, key_sig_acc@) == Some(v as int),
            None => note_midi(token@, key_sig_acc@) is None,
        },
{
    let v = chars_of(token);
    proof {
        assert(v@.subrange(0, v@.len() as int) == v@);
    }
    match note_midi_in(v.as_slice(), 0, v.len(), key_sig_acc) {
        Ok(m) => m,
        Err(_) => None,
    }
}

// ---------------------------------------------------------------------------
// Voices: the music of one voice as a stream of tokens
// ---------------------------------------------------------------------------

/// One element of a voice: a barline, a rest or a note, with its length in
/// units of the tune's unit note length.
#[derive(Clone, Copy, Debug, PartialEq, Eq, Structural)]
pub enum Token {
    Bar,
    Rest(Duration),
    Note(i32, Duration),
}

/// A piece of voice text that the tokenizer recognizes, before its meaning
/// is read: the characters of a note token and of a length.
pub ghost enum Lexeme {
    Bar,
    Rest(Seq<char>),
    Note(Seq<char>, Seq<char>),
}

pub open spec fn is_ascii_alpha(c: char) -> bool {
    ('a' <= c <= 'z') || ('A' <= c <= 'Z')
}

/// Letters that never start a note: rests and the invisible or
/// unsupported `x X w W h H`.
pub open spec fn is_rest_letter(c: char) -> bool {
    c == 'z' || c == 'Z' || c == 'x' || c == 'X' || c == 'w' || c == 'W' || c == 'h' || c == 'H'
}

/// The classes of characters whose runs the tokenizer skips or collects.
#[derive(Clone, Copy, Debug, PartialEq, Eq, Structural)]
pub enum CharClass {
    /// What may follow `|` in a barline: `| ] [ :`
    BarTail,
    /// The characters of a length: digits and `/`
    Length,
    /// `^ _ =`
    Accidental,
    /// `, '`
    OctaveMark,
    /// Anything but `"`
    NotQuote,
    /// Anything but `!`
    NotBang,
}

pub open spec fn in_class(k: CharClass, c: char) -> bool {
    match k {
        CharClass::BarTail => c == '|' || c == ']' || c == '[' || c == ':',
        CharClass::Length => is_digit(c) || c == '/',
        CharClass::Accidental => is_accidental(c),
        CharClass::OctaveMark => is_octave_mark(c),
        CharClass::NotQuote => c != '"',
        CharClass::NotBang => c != '!',
    }
}

pub open spec fn class_pred(k: CharClass) -> spec_fn(char) -> bool {
    |c: char| in_class(k, c)
}

/// The end of the run of characters of class `k` that starts at `i`.
pub open spec fn class_end(t: Seq<char>, i: int, k: CharClass) -> int {
    run_end(t, i, class_pred(k))
}

/// What the tokenizer recognizes at the start of the nonempty text `s`, and
/// how many characters it consumes:
/// - `|` and the barline characters after it make a barline;
/// - `z` or `Z` and the length after it make a rest;
/// - accidentals, a note letter, octave marks and a length make a note;
///   accidentals followed by anything else are dropped with that character;
/// - a `"..."` annotation and a `!...!` decoration are skipped;
/// - any other character is skipped.
pub open spec fn lex_step(s: Seq<char>) -> (Option<Lexeme>, int) {
    let c = s[0];
    if c == '|' {
        (Some(Lexeme::Bar), class_end(s, 1, CharClass::BarTail))
    } else if c == 'z' || c == 'Z' {
        let e = class_end(s, 1, CharClass::Length);
        (Some(Lexeme::Rest(s.subrange(1, e))), e)
    } else if is_accidental(c) || is_ascii_alpha(c) {
        let a = class_end(s, 0, CharClass::Accidental);
        if a >= s.len() {
            (None, a)
        } else if is_ascii_alpha(s[a]) && !is_rest_letter(s[a]) {
            let o = class_end(s, a + 1, CharClass::OctaveMark);
            let e = class_end(s, o, CharClass::Length);
            (Some(Lexeme::Note(s.subrange(0, o), s.subrange(o, e))), e)
        } else {
            (None, a + 1)
        }
    } else if c == '"' {
        let q = class_end(s, 1, CharClass::NotQuote);
        (None, if q < s.len() { q + 1 } else { q })
    } else if c == '!' {
        let q = class_end(s, 1, CharClass::NotBang);
        (None, if q < s.len() { q + 1 } else { q })
    } else {
        (None, 1)
    }
}

/// Every step consumes at least one character and stays within the text.
pub proof fn lemma_lex_step_progress(s: Seq<char>)
    requires
        s.len() > 0,
    ensures
        1 <= lex_step(s).1 <= s.len(),
{
    lemma_run_end_facts(s, 1, class_pred(CharClass::BarTail));
    lemma_run_end_facts(s, 1, class_pred(CharClass::Length));
    lemma_run_end_facts(s, 0, class_pred(CharClass::Accidental));
    lemma_run_end_facts(s, 1, class_pred(CharClass::NotQuote));
    lemma_run_end_facts(s, 1, class_pred(CharClass::NotBang));
    let c = s[0];
    if (is_accidental(c) || is_ascii_alpha(c)) && c != '|' && c != 'z' && c != 'Z' {
        let a = class_end(s, 0, CharClass::Accidental);
        if a < s.len() && is_ascii_alpha(s[a]) && !is_rest_letter(s[a]) {
            lemma_run_end_facts(s, a + 1, class_pred(CharClass::OctaveMark));
            let o = class_end(s, a + 1, CharClass::OctaveMark);
            lemma_run_end_facts(s, o, class_pred(CharClass::Length));
        }
        if is_accidental(c) {
            assert(class_pred(CharClass::Accidental)(s[0]));
        }
    }
}

/// The meaning of the note and rest tokens of the voice text `s` under the
/// key signature `key`: notes whose token has no note letter are dropped.
pub open spec fn voice_tokens(s: Seq<char>, key: Seq<i32>) -> Seq<Token>
    decreases s.len(),
{
    if s.len() == 0 {
        Seq::empty()
    } else {
        proof {
            lemma_lex_step_progress(s);
        }
        let (l, n) = lex_step(s);
        let rest = voice_tokens(s.skip(n), key);
        match l {
            Some(Lexeme::Bar) => seq![Token::Bar] + rest,
            Some(Lexeme::Rest(d)) => seq![Token::Rest(spec_parse_duration(d))] + rest,
            Some(Lexeme::Note(tok, d)) => match note_midi(tok, key) {
                Some(m) => seq![Token::Note(m as i32, spec_parse_duration(d))] + rest,
                None => rest,
            },
            None => rest,
        }
    }
}

/// Every note token of the voice text `s` reads within the range of `i32`.
pub open spec fn voice_in_range(s: Seq<char>, key: Seq<i32>) -> bool
    decreases s.len(),
{
    if s.len() == 0 {
        true
    } else {
        proof {
            lemma_lex_step_progress(s);
        }
        let (l, n) = lex_step(s);
        let here = match l {
            Some(Lexeme::Note(tok, d)) => note_in_range(tok, key),
            _ => true,
        };
        here && voice_in_range(s.skip(n), key)
    }
}

fn char_in_class(k: CharClass, c: char) -> (b: bool)
    ensures
        b == in_class(k, c),
{
    match k {
        CharClass::BarTail => c == '|' || c == ']' || c == '[' || c == ':',
        CharClass::Length => ('0' <= c && c <= '9') || c == '/',
        CharClass::Accidental => c == '^' || c == '_' || c == '=',
        CharClass::OctaveMark => c == ',' || c == '\'',
        CharClass::NotQuote => c != '"',
        CharClass::NotBang => c != '!',
    }
}

/// The end, counted in `s`, of the run of class `k` that starts at `i`
/// inside `s[base..hi]`.
fn scan_class(s: &[char], base: usize, i: usize, hi: usize, k: CharClass) -> (j: usize)
    requires
        base <= i <= hi <= s@.len(),
    ensures
        i <= j <= hi,
        j - base == class_end(s@.subrange(base as int, hi as int), i - base, k),
        forall|m: int| i <= m < j ==> in_class(k, #[trigger] s@[m]),
{
    let ghost t = s@.subrange(base as int, hi as int);
    let mut j = i;
    while j < hi && char_in_class(k, s[j])
        invariant
            base <= i <= j <= hi <= s@.len(),
            t == s@.subrange(base as int, hi as int),
            forall|m: int| i - base <= m < j - base ==> class_pred(k)(#[trigger] t[m]),
        decreases hi - j,
    {
        assert(t[j - base] == s@[j as int]);
        j = j + 1;
    }
    proof {
        if j < hi {
            assert(t[j - base] == s@[j as int]);
        }
        lemma_run_end(t, i - base, j - base, class_pred(k));
        assert forall|m: int| i <= m < j implies in_class(k, #[trigger] s@[m]) by {
            assert(t[m - base] == s@[m]);
            assert(class_pred(k)(t[m - base]));
        }
    }
    j
}

fn is_ascii_alphabetic(c: char) -> (b: bool)
    ensures
        b == is_ascii_alpha(c),
{
    ('a' <= c && c <= 'z') || ('A' <= c && c <= 'Z')
}

fn is_rest_letter_char(c: char) -> (b: bool)
    ensures
        b == is_rest_letter(c),
{
    c == 'z' || c == 'Z' || c == 'x' || c == 'X' || c == 'w' || c == 'W' || c == 'h' || c == 'H'
}

/// Reads one step of the voice text at `pos` (see `lex_step`), appends the
/// token it yields, if any, and returns where the next step starts.
fn lex_one(s: &[char], pos: usize, hi: usize, key: &[i32; 7], tokens: &mut Vec<Token>) -> (r:
    Result<usize, OutOfRange>)
    requires
        pos < hi <= s@.len(),
    ensures
        ({
            let u = s@.subrange(pos as int, hi as int);
            let (l, n) = lex_step(u);
            let here_ok = match l {
                Some(Lexeme::Note(tok, d)) => note_in_range(tok, key@),
                _ => true,
            };
            match r {
                Ok(next) => {
                    &&& here_ok
                    &&& next == pos + n
                    &&& final(tokens)@ == old(tokens)@ + match l {
                        Some(Lexeme::Bar) => seq![Token::Bar],
                        Some(Lexeme::Rest(d)) => seq![Token::Rest(spec_parse_duration(d))],
                        Some(Lexeme::Note(tok, d)) => match note_midi(tok, key@) {
                            Some(m) => seq![Token::Note(m as i32, spec_parse_duration(d))],
                            None => Seq::empty(),
                        },
                        None => Seq::empty(),
                    }
                },
                Err(_) => !here_ok,
            }
        }),
{
    let ghost u = s@.subrange(pos as int, hi as int);
    let c = s[pos];
    assert(u[0] == c);
    if c == '|' {
        let e = scan_class(s, pos, pos + 1, hi, CharClass::BarTail);
        tokens.push(Token::Bar);
        return Ok(e);
    }
    if c == 'z' || c == 'Z' {
        let e = scan_class(s, pos, pos + 1, hi, CharClass::Length);
        assert(u.subrange(1, e - pos) == s@.subrange(pos + 1, e as int));
        let d = parse_duration_in(s, pos + 1, e);
        tokens.push(Token::Rest(d));
        return Ok(e);
    }
    if c == '^' || c == '_' || c == '=' || is_ascii_alphabetic(c) {
        let a = scan_class(s, pos, pos, hi, CharClass::Accidental);
        if a >= hi {
            return Ok(a);
        }
        let c2 = s[a];
        assert(u[a - pos] == c2);
        if is_ascii_alphabetic(c2) && !is_rest_letter_char(c2) {
            let o = scan_class(s, pos, a + 1, hi, CharClass::OctaveMark);
            let e = scan_class(s, pos, o, hi, CharClass::Length);
            assert(u.subrange(0, o - pos) == s@.subrange(pos as int, o as int));
            assert(u.subrange(o - pos, e - pos) == s@.subrange(o as int, e as int));
            match note_midi_in(s, pos, o, key) {
                Err(x) => {
                    return Err(x);
                },
                Ok(Some(m)) => {
                    let d = parse_duration_in(s, o, e);
                    tokens.push(Token::Note(m, d));
                },
                Ok(None) => {},
            }
            return Ok(e);
        }
        return Ok(a + 1);
    }
    if c == '"' {
        let q = scan_class(s, pos, pos + 1, hi, CharClass::NotQuote);
        if q < hi {
            return Ok(q + 1);
        }
        return Ok(q);
    }
    if c == '!' {
        let q = scan_class(s, pos, pos + 1, hi, CharClass::NotBang);
        if q < hi {
            return Ok(q + 1);
        }
        return Ok(q);
    }
    Ok(pos + 1)
}

/// The tokens of the voice text `s[lo..hi]` under the key signature `key`,
/// or `OutOfRange` when a note number would leave the range of `i32`.
pub fn tokenize_voice_in(s: &[char], lo: usize, hi: usize, key: &[i32; 7]) -> (r: Result<
    Vec<Token>,
    OutOfRange,
>)
    requires
        lo <= hi <= s@.len(),
    ensures
        match r {
            Ok(v) => voice_in_range(s@.subrange(lo as int, hi as int), key@) && v@ == voice_tokens(
                s@.subrange(lo as int, hi as int),
                key@,
            ),
            Err(_) => !voice_in_range(s@.subrange(lo as int, hi as int), key@),
        },
{
    let ghost t = s@.subrange(lo as int, hi as int);
    let mut tokens: Vec<Token> = Vec::new();
    let mut pos = lo;
    while pos < hi
        invariant
            lo <= pos <= hi <= s@.len(),
            t == s@.subrange(lo as int, hi as int),
            voice_tokens(t, key@) == tokens@ + voice_tokens(s@.subrange(pos as int, hi as int), key@),
            voice_in_range(t, key@) == voice_in_range(s@.subrange(pos as int, hi as int), key@),
        decreases hi - pos,
    {
        let ghost u = s@.subrange(pos as int, hi as int);
        let ghost before = tokens@;
        proof {
            lemma_lex_step_progress(u);
        }
        let next = lex_one(s, pos, hi, key, &mut tokens)?;
        proof {
            assert(u.skip(next - pos) == s@.subrange(next as int, hi as int));
            assert(tokens@ + voice_tokens(s@.subrange(next as int, hi as int), key@) =~= before
                + voice_tokens(u, key@));
        }
        pos = next;
    }
    Ok(tokens)
}

/// The tokens of one voice's music under the key signature `key_sig_acc`
/// (see `voice_tokens`).
pub fn tokenize_voice(music: &[char], key_sig_acc: &[i32; 7]) -> (tokens: Vec<Token>)
    requires
        voice_in_range(music@, key_sig_acc@),
    ensures
        tokens@ == voice_tokens(music@, key_sig_acc@),
{
    proof {
        assert(music@.subrange(0, music@.len() as int) == music@);
    }
    match tokenize_voice_in(music, 0, music.len(), key_sig_acc) {
        Ok(v) => v,
        Err(_) => Vec::new(),
    }
}

// ---------------------------------------------------------------------------
// Merging the voices into simultaneous events
// ---------------------------------------------------------------------------

/// A simultaneous beat across all voices, or a barline.
#[derive(Clone, Debug)]
pub enum ScoreEvent {
    /// The MIDI notes sounding together, one per voice (soprano, alto,
    /// tenor, bass, ...); a voice with no note here holds 0 (rest). The
    /// length is that of the longest voice, in units of the tune's unit
    /// note length.
    Note { voices: Vec<i32>, length: Duration },
    /// No voice sounds; the length is that of the longest rest.
    Rest { length: Duration },
    Bar,
}

/// The mathematical value of a `ScoreEvent`.
pub ghost enum SpecEvent {
    Note { voices: Seq<i32>, length: Duration },
    Rest { length: Duration },
    Bar,
}

impl View for ScoreEvent {
    type V = SpecEvent;

    open spec fn view(&self) -> SpecEvent {
        match self {
            ScoreEvent::Note { voices, length } => SpecEvent::Note { voices: voices@, length: *length },
            ScoreEvent::Rest { length } => SpecEvent::Rest { length: *length },
            ScoreEvent::Bar => SpecEvent::Bar,
        }
    }
}

/// The token streams of the voices, as sequences.
pub open spec fn streams(voices: Seq<Vec<Token>>) -> Seq<Seq<Token>> {
    voices.map_values(|v: Vec<Token>| v@)
}

/// The positions reached in each voice, as integers.
pub open spec fn positions(idx: Seq<usize>) -> Seq<int> {
    idx.map_values(|i: usize| i as int)
}

/// One position per voice, each within its voice.
pub open spec fn valid_positions(v: Seq<Seq<Token>>, idx: Seq<int>) -> bool {
    &&& idx.len() == v.len()
    &&& forall|k: int| 0 <= k < v.len() ==> 0 <= #[trigger] idx[k] <= v[k].len()
}

/// The token that voice `k` is at, if it has not run out.
pub open spec fn token_at(v: Seq<Seq<Token>>, idx: Seq<int>, k: int) -> Option<Token> {
    if 0 <= idx[k] < v[k].len() {
        Some(v[k][idx[k]])
    } else {
        None
    }
}

pub open spec fn any_remaining(v: Seq<Seq<Token>>, idx: Seq<int>) -> bool {
    exists|k: int| 0 <= k < v.len() && #[trigger] token_at(v, idx, k) is Some
}

pub open spec fn any_bar(v: Seq<Seq<Token>>, idx: Seq<int>) -> bool {
    exists|k: int| 0 <= k < v.len() && #[trigger] token_at(v, idx, k) == Some(Token::Bar)
}

pub open spec fn any_note(v: Seq<Seq<Token>>, idx: Seq<int>) -> bool {
    exists|k: int| 0 <= k < v.len() && #[trigger] token_at(v, idx, k) matches Some(Token::Note(_, _))
}

/// Every voice that is at a barline moves past it.
pub open spec fn after_bar(v: Seq<Seq<Token>>, idx: Seq<int>) -> Seq<int> {
    Seq::new(
        idx.len(),
        |k: int|
            if token_at(v, idx, k) == Some(Token::Bar) {
                idx[k] + 1
            } else {
                idx[k]
            },
    )
}

/// Every voice that has not run out moves past its note or rest.
pub open spec fn after_beat(v: Seq<Seq<Token>>, idx: Seq<int>) -> Seq<int> {
    Seq::new(
        idx.len(),
        |k: int|
            if token_at(v, idx, k) is Some {
                idx[k] + 1
            } else {
                idx[k]
            },
    )
}

/// The note of each voice at this beat, 0 for a rest or a voice that ran out.
pub open spec fn beat_midis(v: Seq<Seq<Token>>, idx: Seq<int>) -> Seq<i32> {
    Seq::new(
        v.len(),
        |k: int|
            match token_at(v, idx, k) {
                Some(Token::Note(m, _)) => m,
                _ => 0i32,
            },
    )
}

/// The length of a token, if it has one.
pub open spec fn token_length(t: Option<Token>) -> Option<Duration> {
    match t {
        Some(Token::Note(_, d)) => Some(d),
        Some(Token::Rest(d)) => Some(d),
        _ => None,
    }
}

/// The longest length among the first `k` voices at this beat, the first
/// one kept among equals; zero when none is longer than zero.
pub open spec fn longest_upto(v: Seq<Seq<Token>>, idx: Seq<int>, k: int) -> Duration
    decreases k,
{
    if k <= 0 {
        Duration { num: 0, den: 1 }
    } else {
        let best = longest_upto(v, idx, k - 1);
        match token_length(token_at(v, idx, k - 1)) {
            Some(d) => if longer(d, best) {
                d
            } else {
                best
            },
            None => best,
        }
    }
}

/// The event of one beat: the voices' notes, or a rest when no voice has a
/// note, with the longest length among the voices.
pub open spec fn beat_event(v: Seq<Seq<Token>>, idx: Seq<int>) -> SpecEvent {
    let length = longest_upto(v, idx, v.len() as int);
    if any_note(v, idx) {
        SpecEvent::Note { voices: beat_midis(v, idx), length }
    } else {
        SpecEvent::Rest { length }
    }
}

/// The number of tokens the first `k` voices have left.
pub open spec fn remaining(v: Seq<Seq<Token>>, idx: Seq<int>, k: int) -> int
    decreases k,
{
    if k <= 0 {
        0
    } else {
        remaining(v, idx, k - 1) + (v[k - 1].len() - idx[k - 1])
    }
}

/// Moving some voices forward, and none back, leaves fewer tokens.
pub proof fn lemma_remaining_decreases(v: Seq<Seq<Token>>, a: Seq<int>, b: Seq<int>, k: int)
    requires
        0 <= k <= v.len(),
        a.len() == v.len(),
        b.len() == v.len(),
        forall|j: int| 0 <= j < k ==> #[trigger] a[j] <= b[j],
    ensures
        remaining(v, b, k) <= remaining(v, a, k),
        (exists|j: int| 0 <= j < k && #[trigger] a[j] < b[j]) ==> remaining(v, b, k) < remaining(v, a, k),
    decreases k,
{
    if k > 0 {
        lemma_remaining_decreases(v, a, b, k - 1);
        if exists|j: int| 0 <= j < k && #[trigger] a[j] < b[j] {
            let j = choose|j: int| 0 <= j < k && #[trigger] a[j] < b[j];
            if j < k - 1 {
                assert(exists|j: int| 0 <= j < k - 1 && #[trigger] a[j] < b[j]);
            }
        }
    }
}

/// Valid positions leave a nonnegative number of tokens.
pub proof fn lemma_remaining_nonneg(v: Seq<Seq<Token>>, idx: Seq<int>, k: int)
    requires
        valid_positions(v, idx),
        0 <= k <= v.len(),
    ensures
        remaining(v, idx, k) >= 0,
    decreases k,
{
    if k > 0 {
        lemma_remaining_nonneg(v, idx, k - 1);
    }
}

/// Passing the barlines leaves valid positions and fewer tokens.
pub proof fn lemma_bar_step(v: Seq<Seq<Token>>, idx: Seq<int>)
    requires
        valid_positions(v, idx),
        any_bar(v, idx),
    ensures
        valid_positions(v, after_bar(v, idx)),
        0 <= remaining(v, after_bar(v, idx), v.len() as int) < remaining(v, idx, v.len() as int),
{
    let j = choose|k: int| 0 <= k < v.len() && #[trigger] token_at(v, idx, k) == Some(Token::Bar);
    let b = after_bar(v, idx);
    assert(idx[j] < b[j]);
    assert(forall|i: int| 0 <= i < v.len() ==> #[trigger] idx[i] <= b[i]);
    lemma_remaining_decreases(v, idx, b, v.len() as int);
    lemma_remaining_nonneg(v, b, v.len() as int);
}

/// Passing one beat leaves valid positions and fewer tokens.
pub proof fn lemma_beat_step(v: Seq<Seq<Token>>, idx: Seq<int>)
    requires
        valid_positions(v, idx),
        any_remaining(v, idx),
    ensures
        valid_positions(v, after_beat(v, idx)),
        0 <= remaining(v, after_beat(v, idx), v.len() as int) < remaining(v, idx, v.len() as int),
{
    let j = choose|k: int| 0 <= k < v.len() && #[trigger] token_at(v, idx, k) is Some;
    let b = after_beat(v, idx);
    assert(idx[j] < b[j]);
    assert(forall|i: int| 0 <= i < v.len() ==> #[trigger] idx[i] <= b[i]);
    lemma_remaining_decreases(v, idx, b, v.len() as int);
    lemma_remaining_nonneg(v, b, v.len() as int);
}

/// The events of the voices `v`, from the positions `idx` on: while any
/// voice has tokens left, a barline in any voice makes a `Bar` event and
/// moves every voice at a barline past it; otherwise every voice moves past
/// its next note or rest together, making one beat.
pub open spec fn merge_from(v: Seq<Seq<Token>>, idx: Seq<int>) -> Seq<SpecEvent>
    decreases remaining(v, idx, v.len() as int),
{
    if !valid_positions(v, idx) || !any_remaining(v, idx) {
        Seq::empty()
    } else if any_bar(v, idx) {
        proof {
            lemma_bar_step(v, idx);
        }
        seq![SpecEvent::Bar] + merge_from(v, after_bar(v, idx))
    } else {
        proof {
            lemma_beat_step(v, idx);
        }
        seq![beat_event(v, idx)] + merge_from(v, after_beat(v, idx))
    }
}

/// The events of the whole voices: `merge_from` their starts.
pub open spec fn merged(v: Seq<Seq<Token>>) -> Seq<SpecEvent> {
    merge_from(v, Seq::new(v.len(), |k: int| 0int))
}

/// The values of a list of events.
pub open spec fn event_views(events: Seq<ScoreEvent>) -> Seq<SpecEvent> {
    events.map_values(|e: ScoreEvent| e@)
}

fn has_remaining(voices: &[Vec<Token>], idx: &Vec<usize>) -> (b: bool)
    requires
        idx@.len() == voices@.len(),
    ensures
        b == any_remaining(streams(voices@), positions(idx@)),
{
    let ghost v = streams(voices@);
    let ghost p = positions(idx@);
    let mut k: usize = 0;
    while k < voices.len()
        invariant
            k <= voices@.len(),
            idx@.len() == voices@.len(),
            v == streams(voices@),
            p == positions(idx@),
            forall|j: int| 0 <= j < k ==> !(#[trigger] token_at(v, p, j) is Some),
        decreases voices@.len() - k,
    {
        if idx[k] < voices[k].len() {
            assert(token_at(v, p, k as int) is Some);
            return true;
        }
        k = k + 1;
    }
    false
}

fn has_bar(voices: &[Vec<Token>], idx: &Vec<usize>) -> (b: bool)
    requires
        idx@.len() == voices@.len(),
    ensures
        b == any_bar(streams(voices@), positions(idx@)),
{
    let ghost v = streams(voices@);
    let ghost p = positions(idx@);
    let mut k: usize = 0;
    while k < voices.len()
        invariant
            k <= voices@.len(),
            idx@.len() == voices@.len(),
            v == streams(voices@),
            p == positions(idx@),
            forall|j: int| 0 <= j < k ==> #[trigger] token_at(v, p, j) != Some(Token::Bar),
        decreases voices@.len() - k,
    {
        if idx[k] < voices[k].len() {
            if let Token::Bar = voices[k][idx[k]] {
                assert(token_at(v, p, k as int) == Some(Token::Bar));
                return true;
            }
        }
        k = k + 1;
    }
    false
}

fn advance_bars(voices: &[Vec<Token>], idx: &mut Vec<usize>)
    requires
        valid_positions(streams(voices@), positions(old(idx)@)),
    ensures
        positions(final(idx)@) == after_bar(streams(voices@), positions(old(idx)@)),
{
    let ghost v = streams(voices@);
    let ghost p = positions(idx@);
    let mut k: usize = 0;
    while k < voices.len()
        invariant
            k <= voices@.len(),
            idx@.len() == voices@.len(),
            v == streams(voices@),
            valid_positions(v, p),
            forall|j: int| 0 <= j < k ==> #[trigger] positions(idx@)[j] == after_bar(v, p)[j],
            forall|j: int| k <= j < voices@.len() ==> #[trigger] positions(idx@)[j] == p[j],
        decreases voices@.len() - k,
    {
        let i = idx[k];
        assert(positions(idx@)[k as int] == idx@[k as int] as int);
        assert(i as int == p[k as int]);
        let ghost mid = idx@;
        if i < voices[k].len() {
            if let Token::Bar = voices[k][i] {
                idx.set(k, i + 1);
            }
        }
        proof {
            assert forall|j: int| 0 <= j < idx@.len() implies #[trigger] positions(idx@)[j] == (if j
                == k { idx@[j] as int } else { positions(mid)[j] }) by {}
        }
        k = k + 1;
    }
    assert(positions(idx@) =~= after_bar(v, p));
}

/// Reads one beat (no voice at a barline): the event and the positions
/// past it.
fn next_beat(voices: &[Vec<Token>], idx: &mut Vec<usize>) -> (e: ScoreEvent)
    requires
        valid_positions(streams(voices@), positions(old(idx)@)),
        !any_bar(streams(voices@), positions(old(idx)@)),
    ensures
        e@ == beat_event(streams(voices@), positions(old(idx)@)),
        positions(final(idx)@) == after_beat(streams(voices@), positions(old(idx)@)),
{
    let ghost v = streams(voices@);
    let ghost p = positions(idx@);
    let n = voices.len();
    let mut midis: Vec<i32> = Vec::new();
    let mut longest = Duration { num: 0, den: 1 };
    let mut got_note = false;
    let mut k: usize = 0;
    while k < n
        invariant
            n == voices@.len(),
            k <= n,
            idx@.len() == n,
            v == streams(voices@),
            valid_positions(v, p),
            !any_bar(v, p),
            midis@ == beat_midis(v, p).subrange(0, k as int),
            longest == longest_upto(v, p, k as int),
            got_note == exists|j: int| 0 <= j < k && #[trigger] token_at(v, p, j) matches Some(Token::Note(_, _)),
            forall|j: int| 0 <= j < k ==> #[trigger] positions(idx@)[j] == after_beat(v, p)[j],
            forall|j: int| k <= j < n ==> #[trigger] positions(idx@)[j] == p[j],
        decreases n - k,
    {
        let i = idx[k];
        assert(positions(idx@)[k as int] == idx@[k as int] as int);
        assert(i as int == p[k as int]);
        let ghost mid = idx@;
        let ghost old_got = got_note;
        let mut midi: i32 = 0;
        if i < voices[k].len() {
            assert(token_at(v, p, k as int) == Some(voices@[k as int]@[i as int]));
            match voices[k][i] {
                Token::Note(m, d) => {
                    midi = m;
                    if is_longer(d, longest) {
                        longest = d;
                    }
                    got_note = true;
                    idx.set(k, i + 1);
                },
                Token::Rest(d) => {
                    if is_longer(d, longest) {
                        longest = d;
                    }
                    idx.set(k, i + 1);
                },
                Token::Bar => {
                    assert(token_at(v, p, k as int) == Some(Token::Bar));
                },
            }
        }
        midis.push(midi);
        proof {
            assert forall|j: int| 0 <= j < idx@.len() implies #[trigger] positions(idx@)[j] == (if j
                == k { idx@[j] as int } else { positions(mid)[j] }) by {}
            assert(midis@ =~= beat_midis(v, p).subrange(0, k + 1));
            if got_note && !old_got {
                assert(token_at(v, p, k as int) matches Some(Token::Note(_, _)));
            }
            if !got_note {
                assert forall|j: int| 0 <= j < k + 1 implies !(#[trigger] token_at(v, p, j) matches Some(Token::Note(_, _))) by {
                    if j < k {
                        assert(!old_got);
                    }
                }
            }
        }
        k = k + 1;
    }
    proof {
        assert(positions(idx@) =~= after_beat(v, p));
        assert(midis@ =~= beat_midis(v, p));
    }
    if got_note {
        ScoreEvent::Note { voices: midis, length: longest }
    } else {
        ScoreEvent::Rest { length: longest }
    }
}

/// Merges the parallel token streams of the voices into simultaneous
/// events (see `merge_from`). All voices share the barline structure, so
/// they advance together note by note.
pub fn merge_voices(voices: &[Vec<Token>]) -> (events: Vec<ScoreEvent>)
    ensures
        event_views(events@) == merged(streams(voices@)),
{
    let ghost v = streams(voices@);
    let n = voices.len();
    let mut idx: Vec<usize> = Vec::new();
    let mut k: usize = 0;
    while k < n
        invariant
            k <= n,
            n == voices@.len(),
            idx@ == Seq::new(k as nat, |j: int| 0usize),
        decreases n - k,
    {
        idx.push(0);
        k = k + 1;
    }
    assert(positions(idx@) =~= Seq::new(v.len(), |j: int| 0int));
    let mut events: Vec<ScoreEvent> = Vec::new();
    while has_remaining(voices, &idx)
        invariant
            v == streams(voices@),
            idx@.len() == voices@.len(),
            valid_positions(v, positions(idx@)),
            merged(v) == event_views(events@) + merge_from(v, positions(idx@)),
        decreases remaining(v, positions(idx@), v.len() as int),
    {
        let ghost p = positions(idx@);
        let ghost before = events@;
        if has_bar(voices, &idx) {
            proof {
                lemma_bar_step(v, p);
            }
            events.push(ScoreEvent::Bar);
            advance_bars(voices, &mut idx);
        } else {
            proof {
                lemma_beat_step(v, p);
            }
            let e = next_beat(voices, &mut idx);
            events.push(e);
        }
        assert(event_views(events@) =~= event_views(before) + seq![events@.last()@]);
        assert(event_views(events@) + merge_from(v, positions(idx@)) =~= event_views(before)
            + merge_from(v, p));
    }
    events
}

// ---------------------------------------------------------------------------
// Tunes: the header fields and the voice lines
// ---------------------------------------------------------------------------

/// A tune: its header fields and its events.
#[derive(Debug)]
pub struct Score {
    pub title: String,
    pub number: String,
    pub key: String,
    pub meter_num: u8,
    pub meter_den: u8,
    pub tempo: u16,
    /// The unit note length (`L:`), as a fraction of a whole note, its two
    /// parts as written (see `unit_length_field`).
    pub unit_length: UnitLength,
    pub events: Vec<ScoreEvent>,
}

/// The mathematical value of a `Score`.
pub ghost struct SpecScore {
    pub title: Seq<char>,
    pub number: Seq<char>,
    pub key: Seq<char>,
    pub meter_num: u8,
    pub meter_den: u8,
    pub tempo: u16,
    pub unit_length: UnitLength,
    pub events: Seq<SpecEvent>,
}

impl View for Score {
    type V = SpecScore;

    open spec fn view(&self) -> SpecScore {
        SpecScore {
            title: self.title@,
            number: self.number@,
            key: self.key@,
            meter_num: self.meter_num,
            meter_den: self.meter_den,
            tempo: self.tempo,
            unit_length: self.unit_length,
            events: event_views(self.events@),
        }
    }
}

/// What the lines of a tune read so far have set.
pub ghost struct Header {
    pub title: Seq<char>,
    pub number: Seq<char>,
    pub key: Seq<char>,
    pub meter_num: u8,
    pub meter_den: u8,
    pub tempo: u16,
    pub unit_length: UnitLength,
    /// The music of each voice line, in order.
    pub voices: Seq<Seq<char>>,
}

/// Before any line: key C, 4/4, 80 beats per minute, unit length 1/4.
pub open spec fn initial_header() -> Header {
    Header {
        title: Seq::empty(),
        number: Seq::empty(),
        key: seq!['C'],
        meter_num: 4,
        meter_den: 4,
        tempo: 80,
        unit_length: whole_unit(1, 4),
        voices: Seq::empty(),
    }
}

/// A number as `str::parse` reads it into `u8`.
pub open spec fn parse_u8(t: Seq<char>) -> Option<u8> {
    match parse_uint(t, u8::MAX as int) {
        Some(v) => Some(v as u8),
        None => None,
    }
}

/// A number as `str::parse` reads it into `u16`.
pub open spec fn parse_u16(t: Seq<char>) -> Option<u16> {
    match parse_uint(t, u16::MAX as int) {
        Some(v) => Some(v as u16),
        None => None,
    }
}

/// The tempo of a `1/4=80` field: the number after `=`, or `tempo`
/// unchanged when there is no `=` or no number after it.
pub open spec fn tempo_field(tempo: u16, q: Seq<char>) -> u16 {
    match find_char(q, '=') {
        Some(i) => parse_u16(trim(q.skip(i + 1))).unwrap_or(tempo),
        None => tempo,
    }
}

/// Takes every inline tempo field `[Q:...]` out of voice music, reading
/// its tempo; a `[Q:` with no `]` after it stays, and so does what follows.
pub open spec fn strip_tempo(tempo: u16, m: Seq<char>) -> (u16, Seq<char>)
    decreases m.len(),
{
    match find(m, seq!['[', 'Q', ':']) {
        None => (tempo, m),
        Some(q) => match find_char(m.skip(q), ']') {
            None => (tempo, m),
            Some(e) => {
                proof {
                    lemma_find_from_found(m, seq!['[', 'Q', ':'], 0);
                    lemma_find_from_found(m.skip(q), seq![']'], 0);
                }
                strip_tempo(
                    tempo_field(tempo, m.subrange(q + 3, q + e)),
                    m.subrange(0, q) + m.skip(q + e + 1),
                )
            },
        },
    }
}

/// What one line of a tune sets. The line is trimmed; blank lines and
/// `%` comments are skipped (`%%` directives are not, but set nothing);
/// `X:` sets the number, `T:` the title, `M:` the meter, `L:` the unit
/// length, `K:` the key (its first word, C when none), `Q:` the tempo, and
/// a line starting `[V:` adds the music after its first `]` as a voice,
/// taking out its inline tempo fields.
pub open spec fn apply_line(h: Header, raw: Seq<char>) -> Header {
    let line = trim(raw);
    let rest = line.skip(2);
    if line.len() == 0 || (starts_with(line, seq!['%']) && !starts_with(line, seq!['%', '%'])) {
        h
    } else if starts_with(line, seq!['X', ':']) {
        Header { number: trim(rest), ..h }
    } else if starts_with(line, seq!['T', ':']) {
        Header { title: trim(rest), ..h }
    } else if starts_with(line, seq!['M', ':']) {
        let m = trim(rest);
        match find_char(m, '/') {
            Some(i) => Header {
                meter_num: parse_u8(trim(m.take(i))).unwrap_or(4),
                meter_den: parse_u8(trim(m.skip(i + 1))).unwrap_or(4),
                ..h
            },
            None => h,
        }
    } else if starts_with(line, seq!['L', ':']) {
        let l = trim(rest);
        match find_char(l, '/') {
            Some(i) => Header {
                unit_length: unit_length_field(trim(l.take(i)), trim(l.skip(i + 1))),
                ..h
            },
            None => h,
        }
    } else if starts_with(line, seq!['K', ':']) {
        Header { key: first_word(trim(rest)).unwrap_or(seq!['C']), ..h }
    } else if starts_with(line, seq!['[', 'V', ':']) {
        match find_char(line, ']') {
            Some(e) => {
                let (tempo, music) = strip_tempo(h.tempo, line.skip(e + 1));
                Header { tempo, voices: h.voices.push(music), ..h }
            },
            None => h,
        }
    } else if starts_with(line, seq!['Q', ':']) {
        Header { tempo: tempo_field(h.tempo, trim(rest)), ..h }
    } else {
        h
    }
}

/// Applies the lines of `s` (separated by `\n`) in order.
pub open spec fn apply_lines(h: Header, s: Seq<char>) -> Header
    decreases s.len(),
{
    if s.len() == 0 {
        h
    } else {
        match find_char(s, '\n') {
            Some(i) => {
                proof {
                    lemma_find_from_found(s, seq!['\n'], 0);
                }
                apply_lines(apply_line(h, s.take(i)), s.skip(i + 1))
            },
            None => apply_line(h, s),
        }
    }
}

/// The header fields and voices of the tune text `t`.
pub open spec fn tune_header(t: Seq<char>) -> Header {
    apply_lines(initial_header(), t)
}

/// The token streams of the voices of a header.
pub open spec fn header_streams(h: Header) -> Seq<Seq<Token>> {
    let key = key_signature(trim(h.key));
    Seq::new(h.voices.len(), |i: int| voice_tokens(h.voices[i], key))
}

/// Every voice of the tune text `t` reads within the range of `i32`.
pub open spec fn tune_in_range(t: Seq<char>) -> bool {
    let h = tune_header(t);
    forall|i: int|
        0 <= i < h.voices.len() ==> voice_in_range(
            #[trigger] h.voices[i],
            key_signature(trim(h.key)),
        )
}

/// The score of the tune text `t`: `None` when it has no voice line.
pub open spec fn tune_score(t: Seq<char>) -> Option<SpecScore> {
    let h = tune_header(t);
    if h.voices.len() == 0 {
        None
    } else {
        Some(
            SpecScore {
                title: h.title,
                number: h.number,
                key: h.key,
                meter_num: h.meter_num,
                meter_den: h.meter_den,
                tempo: h.tempo,
                unit_length: h.unit_length,
                events: merged(header_streams(h)),
            },
        )
    }
}

// ---------------------------------------------------------------------------
// A book of tunes
// ---------------------------------------------------------------------------

/// `t` split at each occurrence of the nonempty pattern `p`, left to right
/// (`str::split`).
pub open spec fn split_on(t: Seq<char>, p: Seq<char>) -> Seq<Seq<char>>
    decreases t.len(),
{
    if p.len() == 0 {
        seq![t]
    } else {
        match find(t, p) {
            None => seq![t],
            Some(i) => {
                proof {
                    lemma_find_from_found(t, p, 0);
                }
                seq![t.take(i)] + split_on(t.skip(i + p.len()), p)
            },
        }
    }
}

/// The pieces of a book between the lines that start a tune (`\nX:`).
pub open spec fn book_chunks(text: Seq<char>) -> Seq<Seq<char>> {
    split_on(text, seq!['\n', 'X', ':'])
}

/// The tune text of the `i`th piece: a later piece gets back the `X:` that
/// the split took off; the first piece starts at its first `X:` and is no
/// tune when it has none.
pub open spec fn chunk_tune(i: int, chunk: Seq<char>) -> Option<Seq<char>> {
    if i == 0 {
        if starts_with(chunk, seq!['X', ':']) {
            Some(chunk)
        } else {
            match find(chunk, seq!['X', ':']) {
                Some(pos) => Some(chunk.skip(pos)),
                None => None,
            }
        }
    } else {
        Some(seq!['X', ':'] + chunk)
    }
}

/// The scores of the tunes among the pieces `c[i..]` of piece index `i` on.
pub open spec fn scores_from(c: Seq<Seq<char>>, i: int) -> Seq<SpecScore>
    decreases c.len() - i,
{
    if i < 0 || i >= c.len() {
        Seq::empty()
    } else {
        let rest = scores_from(c, i + 1);
        match chunk_tune(i, c[i]) {
            Some(t) => match tune_score(t) {
                Some(sc) => seq![sc] + rest,
                None => rest,
            },
            None => rest,
        }
    }
}

/// The scores of the tunes of an ABC book, in order; tunes without a
/// voice line are left out.
pub open spec fn book_scores(text: Seq<char>) -> Seq<SpecScore> {
    scores_from(book_chunks(text), 0)
}

/// Every tune of the book reads within the range of `i32`.
pub open spec fn book_in_range(text: Seq<char>) -> bool {
    let c = book_chunks(text);
    forall|i: int|
        0 <= i < c.len() ==> (#[trigger] chunk_tune(i, c[i]) matches Some(t) ==> tune_in_range(t))
}

// ---------------------------------------------------------------------------
// Reading a tune
// ---------------------------------------------------------------------------

/// The tempo field `s[lo..hi]` (see `tempo_field`).
fn tempo_field_in(s: &[char], lo: usize, hi: usize, tempo: u16) -> (r: u16)
    requires
        lo <= hi <= s@.len(),
    ensures
        r == tempo_field(tempo, s@.subrange(lo as int, hi as int)),
{
    let ghost q = s@.subrange(lo as int, hi as int);
    match find_char_in(s, lo, hi, '=') {
        Some(i) => {
            assert(q.skip(i - lo + 1) == s@.subrange(i + 1, hi as int));
            let (a, b) = trim_bounds(s, i + 1, hi);
            match parse_uint_in(s, a, b, 65535) {
                Some(v) => v as u16,
                None => tempo,
            }
        },
        None => tempo,
    }
}

/// Takes the inline tempo fields out of voice music (see `strip_tempo`).
fn strip_tempo_in(tempo: u16, m: Vec<char>) -> (r: (u16, Vec<char>))
    ensures
        (r.0, r.1@) == strip_tempo(tempo, m@),
    decreases m@.len(),
{
    let pat = ['[', 'Q', ':'];
    assert(pat@ == seq!['[', 'Q', ':']);
    assert(m@.subrange(0, m@.len() as int) == m@);
    let q = match find_in(&m, 0, m.len(), &pat) {
        Some(q) => q,
        None => {
            return (tempo, m);
        },
    };
    proof {
        lemma_find_from_found(m@, seq!['[', 'Q', ':'], 0);
    }
    assert(m@.skip(q as int) == m@.subrange(q as int, m@.len() as int));
    let eb = match find_char_in(&m, q, m.len(), ']') {
        Some(eb) => eb,
        None => {
            return (tempo, m);
        },
    };
    proof {
        assert(m@.subrange(q as int, q + 3)[0] == '[');
        assert(m@.subrange(q as int, q + 3)[1] == 'Q');
        assert(m@.subrange(q as int, q + 3)[2] == ':');
        assert(eb >= q + 3);
    }
    let tempo2 = tempo_field_in(&m, q + 3, eb, tempo);
    let mut m2: Vec<char> = Vec::new();
    let mut i: usize = 0;
    while i < q
        invariant
            i <= q <= eb < m@.len(),
            m2@ == m@.subrange(0, i as int),
        decreases q - i,
    {
        m2.push(m[i]);
        assert(m2@ =~= m@.subrange(0, i + 1));
        i = i + 1;
    }
    let mut j: usize = eb + 1;
    while j < m.len()
        invariant
            q < eb < j <= m@.len(),
            m2@ == m@.subrange(0, q as int) + m@.subrange(eb + 1, j as int),
        decreases m@.len() - j,
    {
        m2.push(m[j]);
        assert(m2@ =~= m@.subrange(0, q as int) + m@.subrange(eb + 1, j + 1));
        j = j + 1;
    }
    assert(m@.skip(eb + 1) == m@.subrange(eb + 1, m@.len() as int));
    assert(m@.skip(q as int).len() >= 0);
    strip_tempo_in(tempo2, m2)
}

/// The header fields of a tune as read so far, the text fields as ranges of
/// the tune text (a key that is not in the text is C).
struct HeaderState {
    title: (usize, usize),
    number: (usize, usize),
    key: Option<(usize, usize)>,
    meter_num: u8,
    meter_den: u8,
    tempo: u16,
    unit_length: UnitLength,
    voices: Vec<Vec<char>>,
}

/// The ranges of `st` lie within a text of length `n`.
spec fn state_ok(n: int, st: HeaderState) -> bool {
    &&& st.title.0 <= st.title.1 <= n
    &&& st.number.0 <= st.number.1 <= n
    &&& st.key matches Some((a, b)) ==> a <= b <= n
}

/// The header that `st` holds for the tune text `s`.
spec fn header_of(s: Seq<char>, st: HeaderState) -> Header {
    Header {
        title: s.subrange(st.title.0 as int, st.title.1 as int),
        number: s.subrange(st.number.0 as int, st.number.1 as int),
        key: match st.key {
            Some((a, b)) => s.subrange(a as int, b as int),
            None => seq!['C'],
        },
        meter_num: st.meter_num,
        meter_den: st.meter_den,
        tempo: st.tempo,
        unit_length: st.unit_length,
        voices: st.voices@.map_values(|v: Vec<char>| v@),
    }
}

/// Applies the line `s[lo..hi]` to `st` (see `apply_line`).
fn apply_line_in(s: &[char], lo: usize, hi: usize, st: &mut HeaderState)
    requires
        lo <= hi <= s@.len(),
        state_ok(s@.len() as int, *old(st)),
    ensures
        state_ok(s@.len() as int, *final(st)),
        header_of(s@, *final(st)) == apply_line(header_of(s@, *old(st)), s@.subrange(lo as int, hi as int)),
{
    let ghost h = header_of(s@, *st);
    let ghost raw = s@.subrange(lo as int, hi as int);
    let (a, b) = trim_bounds(s, lo, hi);
    let ghost line = s@.subrange(a as int, b as int);
    assert(line == trim(raw));
    if a == b {
        return;
    }
    let pct = ['%'];
    let pct2 = ['%', '%'];
    assert(pct@ == seq!['%'] && pct2@ == seq!['%', '%']);
    if starts_with_at(s, a, b, &pct) && !starts_with_at(s, a, b, &pct2) {
        return;
    }
    let xp = ['X', ':'];
    let tp = ['T', ':'];
    let mp = ['M', ':'];
    let lp = ['L', ':'];
    let kp = ['K', ':'];
    let vp = ['[', 'V', ':'];
    let qp = ['Q', ':'];
    assert(xp@ == seq!['X', ':'] && tp@ == seq!['T', ':'] && mp@ == seq!['M', ':'] && lp@
        == seq!['L', ':'] && kp@ == seq!['K', ':'] && vp@ == seq!['[', 'V', ':'] && qp@ == seq![
        'Q',
        ':',
    ]);
    if starts_with_at(s, a, b, &xp) {
        assert(line.skip(2) == s@.subrange(a + 2, b as int));
        let (x, y) = trim_bounds(s, a + 2, b);
        st.number = (x, y);
    } else if starts_with_at(s, a, b, &tp) {
        assert(line.skip(2) == s@.subrange(a + 2, b as int));
        let (x, y) = trim_bounds(s, a + 2, b);
        st.title = (x, y);
    } else if starts_with_at(s, a, b, &mp) {
        assert(line.skip(2) == s@.subrange(a + 2, b as int));
        let (x, y) = trim_bounds(s, a + 2, b);
        let ghost m = s@.subrange(x as int, y as int);
        if let Some(i) = find_char_in(s, x, y, '/') {
            assert(m.take(i - x) == s@.subrange(x as int, i as int));
            assert(m.skip(i - x + 1) == s@.subrange(i + 1, y as int));
            let (n0, n1) = trim_bounds(s, x, i);
            let (d0, d1) = trim_bounds(s, i + 1, y);
            st.meter_num = match parse_uint_in(s, n0, n1, 255) {
                Some(v) => v as u8,
                None => 4,
            };
            st.meter_den = match parse_uint_in(s, d0, d1, 255) {
                Some(v) => v as u8,
                None => 4,
            };
        }
    } else if starts_with_at(s, a, b, &lp) {
        assert(line.skip(2) == s@.subrange(a + 2, b as int));
        let (x, y) = trim_bounds(s, a + 2, b);
        let ghost l = s@.subrange(x as int, y as int);
        if let Some(i) = find_char_in(s, x, y, '/') {
            assert(l.take(i - x) == s@.subrange(x as int, i as int));
            assert(l.skip(i - x + 1) == s@.subrange(i + 1, y as int));
            let (n0, n1) = trim_bounds(s, x, i);
            let (d0, d1) = trim_bounds(s, i + 1, y);
            st.unit_length = unit_length_in(s, n0, n1, d0, d1);
        }
    } else if starts_with_at(s, a, b, &kp) {
        assert(line.skip(2) == s@.subrange(a + 2, b as int));
        let (x, y) = trim_bounds(s, a + 2, b);
        st.key = match first_word_bounds(s, x, y) {
            Some(w) => Some(w),
            None => None,
        };
    } else if starts_with_at(s, a, b, &vp) {
        if let Some(e) = find_char_in(s, a, b, ']') {
            assert(line.skip(e - a + 1) == s@.subrange(e + 1, b as int));
            let music = copy_range(s, e + 1, b);
            let (tempo, music) = strip_tempo_in(st.tempo, music);
            let ghost old_voices = st.voices@;
            st.tempo = tempo;
            st.voices.push(music);
            assert(st.voices@.map_values(|v: Vec<char>| v@) =~= old_voices.map_values(
                |v: Vec<char>| v@,
            ).push(music@));
        }
    } else if starts_with_at(s, a, b, &qp) {
        assert(line.skip(2) == s@.subrange(a + 2, b as int));
        let (x, y) = trim_bounds(s, a + 2, b);
        st.tempo = tempo_field_in(s, x, y, st.tempo);
    }
}

/// Applies the lines of `s[lo..hi]` to `st` (see `apply_lines`).
fn apply_lines_in(s: &[char], lo: usize, hi: usize, st: &mut HeaderState)
    requires
        lo <= hi <= s@.len(),
        state_ok(s@.len() as int, *old(st)),
    ensures
        state_ok(s@.len() as int, *final(st)),
        header_of(s@, *final(st)) == apply_lines(header_of(s@, *old(st)), s@.subrange(lo as int, hi as int)),
{
    let ghost goal = apply_lines(header_of(s@, *st), s@.subrange(lo as int, hi as int));
    let mut pos = lo;
    while pos < hi
        invariant
            lo <= pos <= hi <= s@.len(),
            state_ok(s@.len() as int, *st),
            goal == apply_lines(header_of(s@, *st), s@.subrange(pos as int, hi as int)),
        decreases hi - pos,
    {
        let ghost t = s@.subrange(pos as int, hi as int);
        match find_char_in(s, pos, hi, '\n') {
            Some(i) => {
                assert(t.take(i - pos) == s@.subrange(pos as int, i as int));
                assert(t.skip(i - pos + 1) == s@.subrange(i + 1, hi as int));
                apply_line_in(s, pos, i, st);
                pos = i + 1;
            },
            None => {
                apply_line_in(s, pos, hi, st);
                pos = hi;
                assert(s@.subrange(pos as int, hi as int).len() == 0);
            },
        }
    }
}

/// The score of the tune text `s[lo..hi]` (see `tune_score`), or
/// `OutOfRange` when a note number would leave the range of `i32`.
pub fn parse_tune_in(s: &[char], lo: usize, hi: usize) -> (r: Result<Option<Score>, OutOfRange>)
    requires
        lo <= hi <= s@.len(),
    ensures
        match r {
            Ok(sc) => tune_in_range(s@.subrange(lo as int, hi as int)) && match sc {
                Some(sc) => tune_score(s@.subrange(lo as int, hi as int)) == Some(sc@),
                None => tune_score(s@.subrange(lo as int, hi as int)) is None,
            },
            Err(_) => !tune_in_range(s@.subrange(lo as int, hi as int)),
        },
{
    let ghost t = s@.subrange(lo as int, hi as int);
    let mut st = HeaderState {
        title: (lo, lo),
        number: (lo, lo),
        key: None,
        meter_num: 4,
        meter_den: 4,
        tempo: 80,
        unit_length: UnitLength {
            num: (false, Duration { num: 1, den: 1 }),
            den: (false, Duration { num: 4, den: 1 }),
        },
        voices: Vec::new(),
    };
    assert(s@.subrange(lo as int, lo as int) =~= Seq::<char>::empty());
    assert(st.voices@.map_values(|v: Vec<char>| v@) =~= Seq::<Seq<char>>::empty());
    assert(header_of(s@, st) == initial_header());
    apply_lines_in(s, lo, hi, &mut st);
    let ghost h = header_of(s@, st);
    assert(h == tune_header(t));
    let default_key = ['C'];
    let key_acc = match st.key {
        Some((a, b)) => key_signature_in(s, a, b),
        None => {
            assert(default_key@.subrange(0, 1) =~= seq!['C']);
            key_signature_in(&default_key, 0, 1)
        },
    };
    assert(key_acc@ == key_signature(trim(h.key)));
    if st.voices.len() == 0 {
        return Ok(None);
    }
    let mut parsed: Vec<Vec<Token>> = Vec::new();
    let mut i: usize = 0;
    while i < st.voices.len()
        invariant
            i <= st.voices@.len(),
            h == header_of(s@, st),
            t == s@.subrange(lo as int, hi as int),
            h == tune_header(t),
            key_acc@ == key_signature(trim(h.key)),
            parsed@.len() == i,
            forall|j: int| 0 <= j < i ==> (#[trigger] parsed@[j])@ == voice_tokens(h.voices[j], key_acc@),
            forall|j: int| 0 <= j < i ==> voice_in_range(#[trigger] h.voices[j], key_acc@),
        decreases st.voices@.len() - i,
    {
        let voice = &st.voices[i];
        assert(h.voices[i as int] == voice@);
        assert(voice@.subrange(0, voice@.len() as int) == voice@);
        let tokens = tokenize_voice_in(voice, 0, voice.len(), &key_acc)?;
        parsed.push(tokens);
        i = i + 1;
    }
    assert(streams(parsed@) =~= header_streams(h));
    let events = merge_voices(&parsed);
    let key = match st.key {
        Some((a, b)) => string_from_range(s, a, b),
        None => string_from_range(&default_key, 0, 1),
    };
    Ok(
        Some(
            Score {
                title: string_from_range(s, st.title.0, st.title.1),
                number: string_from_range(s, st.number.0, st.number.1),
                key,
                meter_num: st.meter_num,
                meter_den: st.meter_den,
                tempo: st.tempo,
                unit_length: st.unit_length,
                events,
            },
        ),
    )
}

/// The values of a list of scores.
pub open spec fn score_views(scores: Seq<Score>) -> Seq<SpecScore> {
    scores.map_values(|sc: Score| sc@)
}

/// The tune of piece `i` reads within the range of `i32`.
pub open spec fn chunk_in_range(c: Seq<Seq<char>>, i: int) -> bool {
    chunk_tune(i, c[i]) matches Some(t) ==> tune_in_range(t)
}

/// The score of the tune text `s[lo..hi]`, appended to `out` when there is one.
fn push_tune(s: &[char], lo: usize, hi: usize, out: &mut Vec<Score>) -> (r: Result<(), OutOfRange>)
    requires
        lo <= hi <= s@.len(),
    ensures
        match r {
            Ok(_) => tune_in_range(s@.subrange(lo as int, hi as int)) && score_views(final(out)@)
                == score_views(old(out)@) + match tune_score(s@.subrange(lo as int, hi as int)) {
                Some(sc) => seq![sc],
                None => Seq::empty(),
            },
            Err(_) => !tune_in_range(s@.subrange(lo as int, hi as int)),
        },
{
    let ghost before = out@;
    match parse_tune_in(s, lo, hi)? {
        Some(sc) => {
            out.push(sc);
            assert(score_views(out@) =~= score_views(before) + seq![out@.last()@]);
        },
        None => {
            assert(score_views(out@) =~= score_views(before) + Seq::empty());
        },
    }
    Ok(())
}

/// The score that piece `i` gives, if any.
pub open spec fn chunk_scores(c: Seq<Seq<char>>, i: int) -> Seq<SpecScore> {
    match chunk_tune(i, c[i]) {
        Some(t) => match tune_score(t) {
            Some(sc) => seq![sc],
            None => Seq::empty(),
        },
        None => Seq::empty(),
    }
}

/// A split always has at least one piece.
pub proof fn lemma_split_nonempty(t: Seq<char>, p: Seq<char>)
    ensures
        split_on(t, p).len() >= 1,
    decreases t.len(),
{
    if p.len() > 0 {
        if let Some(i) = find(t, p) {
            lemma_find_from_found(t, p, 0);
            lemma_split_nonempty(t.skip(i + p.len()), p);
        }
    }
}

/// The first piece of a split runs to the first occurrence of the pattern,
/// and the split goes on after it; with no occurrence it is the only piece.
pub proof fn lemma_split_step(c: Seq<Seq<char>>, rest: Seq<char>, p: Seq<char>, i: int)
    requires
        p.len() > 0,
        0 <= i < c.len(),
        split_on(rest, p) == c.skip(i),
    ensures
        match find(rest, p) {
            Some(f) => {
                &&& 0 <= f && f + p.len() <= rest.len()
                &&& c[i] == rest.take(f)
                &&& i + 1 < c.len()
                &&& c.skip(i + 1) == split_on(rest.skip(f + p.len()), p)
            },
            None => c[i] == rest && c.len() == i + 1,
        },
{
    assert(c.skip(i)[0] == c[i]);
    if let Some(f) = find(rest, p) {
        lemma_find_from_found(rest, p, 0);
        lemma_split_nonempty(rest.skip(f + p.len()), p);
        assert(c.skip(i + 1) =~= c.skip(i).skip(1));
    } else {
        assert(c.skip(i).len() == 1);
    }
}

/// The scores from piece `i` on: those of piece `i`, then the rest.
pub proof fn lemma_scores_from_step(c: Seq<Seq<char>>, i: int)
    requires
        0 <= i < c.len(),
    ensures
        scores_from(c, i) == chunk_scores(c, i) + scores_from(c, i + 1),
{
    assert(scores_from(c, i) =~= chunk_scores(c, i) + scores_from(c, i + 1));
}

/// Reads piece `i` of the book `s`, the text `s[start..end]`, and appends
/// its score to `out`, if it gives one.
fn parse_chunk(s: &[char], start: usize, end: usize, i: usize, out: &mut Vec<Score>) -> (r: Result<
    (),
    OutOfRange,
>)
    requires
        start <= end <= s@.len(),
        i < book_chunks(s@).len(),
        book_chunks(s@)[i as int] == s@.subrange(start as int, end as int),
        i == 0 ==> start == 0,
        i > 0 ==> start >= 3 && s@.subrange(start - 3, start as int) == seq!['\n', 'X', ':'],
    ensures
        match r {
            Ok(_) => chunk_in_range(book_chunks(s@), i as int) && score_views(final(out)@)
                == score_views(old(out)@) + chunk_scores(book_chunks(s@), i as int),
            Err(_) => !chunk_in_range(book_chunks(s@), i as int),
        },
{
    let ghost c = book_chunks(s@);
    let ghost chunk = s@.subrange(start as int, end as int);
    let xp = ['X', ':'];
    assert(xp@ == seq!['X', ':']);
    if i == 0 {
        if starts_with_at(s, start, end, &xp) {
            push_tune(s, start, end, out)
        } else {
            match find_in(s, start, end, &xp) {
                Some(pos) => {
                    proof {
                        lemma_find_from_found(chunk, seq!['X', ':'], 0);
                        assert(chunk.skip(pos - start) == s@.subrange(pos as int, end as int));
                    }
                    push_tune(s, pos, end, out)
                },
                None => {
                    assert(score_views(out@) =~= score_views(out@) + Seq::empty());
                    Ok(())
                },
            }
        }
    } else {
        assert(s@.subrange(start - 2, end as int) =~= seq!['X', ':'] + chunk) by {
            assert(s@.subrange(start - 3, start as int)[1] == 'X');
            assert(s@.subrange(start - 3, start as int)[2] == ':');
        }
        push_tune(s, start - 2, end, out)
    }
}

/// Reads the pieces of the book `s` from piece `i` on, which start at
/// `start`, appending their scores to `out`.
fn parse_book_from(s: &[char], start: usize, i: usize, out: &mut Vec<Score>) -> (r: Result<
    (),
    OutOfRange,
>)
    requires
        i <= start <= s@.len(),
        i < book_chunks(s@).len(),
        split_on(s@.subrange(start as int, s@.len() as int), seq!['\n', 'X', ':']) == book_chunks(
            s@,
        ).skip(i as int),
        i == 0 ==> start == 0,
        i > 0 ==> start >= 3 && s@.subrange(start - 3, start as int) == seq!['\n', 'X', ':'],
    ensures
        match r {
            Ok(_) => {
                &&& forall|j: int|
                    i <= j < book_chunks(s@).len() ==> #[trigger] chunk_in_range(book_chunks(s@), j)
                &&& score_views(final(out)@) == score_views(old(out)@) + scores_from(
                    book_chunks(s@),
                    i as int,
                )
            },
            Err(_) => !(forall|j: int|
                i <= j < book_chunks(s@).len() ==> #[trigger] chunk_in_range(book_chunks(s@), j)),
        },
    decreases s@.len() - start,
{
    let ghost c = book_chunks(s@);
    let ghost p = seq!['\n', 'X', ':'];
    let ghost rest = s@.subrange(start as int, s@.len() as int);
    let n = s.len();
    let sep = ['\n', 'X', ':'];
    assert(sep@ == p);
    let found = find_in(s, start, n, &sep);
    proof {
        lemma_split_step(c, rest, p, i as int);
        lemma_scores_from_step(c, i as int);
    }
    let end = match found {
        Some(f) => f,
        None => n,
    };
    proof {
        if let Some(f) = found {
            assert(rest.take(f - start) == s@.subrange(start as int, f as int));
        } else {
            assert(rest == s@.subrange(start as int, end as int));
        }
    }
    let ghost before = out@;
    match parse_chunk(s, start, end, i, out) {
        Ok(_) => {},
        Err(x) => {
            return Err(x);
        },
    }
    match found {
        Some(f) => {
            proof {
                assert(rest.skip(f - start + 3) == s@.subrange(f + 3, n as int));
                lemma_find_from_found(rest, p, 0);
                assert(s@.subrange(f + 3 - 3, f + 3) == rest.subrange(f - start, f - start + 3));
            }
            let ghost mid = out@;
            match parse_book_from(s, f + 3, i + 1, out) {
                Ok(_) => {},
                Err(x) => {
                    return Err(x);
                },
            }
            proof {
                assert forall|j: int| i <= j < c.len() implies #[trigger] chunk_in_range(c, j) by {
                    if j > i {
                        assert(chunk_in_range(c, j));
                    }
                }
                assert(score_views(out@) =~= score_views(before) + scores_from(c, i as int));
            }
        },
        None => {
            proof {
                assert forall|j: int| i <= j < c.len() implies #[trigger] chunk_in_range(c, j) by {}
                assert(scores_from(c, i + 1) =~= Seq::<SpecScore>::empty());
                assert(score_views(out@) =~= score_views(before) + scores_from(c, i as int));
            }
        },
    }
    Ok(())
}

/// The scores of the tunes of the ABC book `text` (see `book_scores`), or
/// `None` when a note number would leave the range of `i32`.
pub fn parse_all_checked(text: &str) -> (r: Option<Vec<Score>>)
    ensures
        match r {
            Some(v) => book_in_range(text@) && score_views(v@) == book_scores(text@),
            None => !book_in_range(text@),
        },
{
    let s = chars_of(text);
    let mut out: Vec<Score> = Vec::new();
    proof {
        assert(s@.subrange(0, s@.len() as int) == s@);
        assert(book_chunks(s@).skip(0) == book_chunks(s@));
        lemma_split_nonempty(s@, seq!['\n', 'X', ':']);
    }
    let ghost c = book_chunks(s@);
    match parse_book_from(s.as_slice(), 0, 0, &mut out) {
        Ok(_) => {
            assert(score_views(out@) =~= book_scores(text@));
            assert forall|i: int| 0 <= i < c.len() implies (#[trigger] chunk_tune(i, c[i]) matches Some(
                t,
            ) ==> tune_in_range(t)) by {
                assert(chunk_in_range(c, i));
            }
            Some(out)
        },
        Err(_) => {
            proof {
                if book_in_range(text@) {
                    assert forall|j: int| 0 <= j < c.len() implies #[trigger] chunk_in_range(c, j) by {
                        assert(chunk_tune(j, c[j]) matches Some(t) ==> tune_in_range(t));
                    }
                }
            }
            None
        },
    }
}

/// The scores of an ABC book given as bytes (see `book_scores`), the bytes
/// read as UTF-8 with each ill-formed sequence replaced by U+FFFD; `None`
/// when a note number would leave the range of `i32`.
pub fn scores_from_bytes(bytes: &[u8]) -> (r: Option<Vec<Score>>)
    ensures
        match r {
            Some(v) => book_in_range(lossy_utf8(bytes@)) && score_views(v@) == book_scores(
                lossy_utf8(bytes@),
            ),
            None => !book_in_range(lossy_utf8(bytes@)),
        },
{
    let text = utf8_lossy(bytes);
    parse_all_checked(text.as_str())
}

/// The scores of the tunes of the ABC book `text`, in order (see
/// `book_scores`): the book is split at each line that starts with `X:`,
/// and each tune with at least one voice line gives a score.
pub fn parse_all(text: &str) -> (scores: Vec<Score>)
    requires
        book_in_range(text@),
    ensures
        score_views(scores@) == book_scores(text@),
{
    match parse_all_checked(text) {
        Some(v) => v,
        None => Vec::new(),
    }
}

/// The score of the tune text `text` (see `tune_score`).
pub fn parse_tune(text: &str) -> (score: Option<Score>)
    requires
        tune_in_range(text@),
    ensures
        match score {
            Some(sc) => tune_score(text@) == Some(sc@),
            None => tune_score(text@) is None,
        },
{
    let s = chars_of(text);
    proof {
        assert(s@.subrange(0, s@.len() as int) == s@);
    }
    match parse_tune_in(s.as_slice(), 0, s.len()) {
        Ok(sc) => sc,
        Err(_) => None,
    }
}

// ---------------------------------------------------------------------------
// Laws of the merge
// ---------------------------------------------------------------------------

/// The zero length that a beat starts from.
pub open spec fn zero_length() -> Duration {
    Duration { num: 0, den: 1 }
}

/// A length that stands for a number (not `0 / 0`).
pub open spec fn is_number(d: Duration) -> bool {
    !(d.num == 0 && d.den == 0)
}

/// No length is longer than itself.
pub proof fn lemma_longer_irreflexive(a: Duration)
    ensures
        !longer(a, a),
{
}

/// If `a` is not longer than `b` and `c` is longer than `b`, then `a` is
/// not longer than `c`.
pub proof fn lemma_not_longer_than_longer(a: Duration, b: Duration, c: Duration)
    requires
        is_number(b),
        !longer(a, b),
        longer(c, b),
    ensures
        !longer(a, c),
{
    if a.den > 0 && b.den > 0 && c.den > 0 {
        let (an, ad, bn, bd, cn, cd) = (a.num as int, a.den as int, b.num as int, b.den as int, c.num as int, c.den as int);
        assert(an * cd <= cn * ad) by (nonlinear_arith)
            requires
                ad > 0,
                bd > 0,
                cd > 0,
                an >= 0,
                bn >= 0,
                cn >= 0,
                an * bd <= bn * ad,
                cn * bd > bn * cd,
        {
            assert(an * bd * cd <= bn * ad * cd);
            assert(bn * cd * ad < cn * bd * ad);
            assert(an * cd * bd < cn * ad * bd);
        }
    }
}

/// The running longest length among the first `k` voices is a number, no
/// voice among them is longer, and it is zero or one of their lengths.
pub proof fn lemma_longest_upto(v: Seq<Seq<Token>>, idx: Seq<int>, k: int)
    requires
        0 <= k <= v.len(),
    ensures
        is_number(longest_upto(v, idx, k)),
        forall|j: int|
            0 <= j < k ==> (#[trigger] token_length(token_at(v, idx, j)) matches Some(d) ==> !longer(
                d,
                longest_upto(v, idx, k),
            )),
        longest_upto(v, idx, k) == zero_length() || exists|j: int|
            0 <= j < k && #[trigger] token_length(token_at(v, idx, j)) == Some(longest_upto(v, idx, k)),
    decreases k,
{
    if k > 0 {
        lemma_longest_upto(v, idx, k - 1);
        let best = longest_upto(v, idx, k - 1);
        match token_length(token_at(v, idx, k - 1)) {
            Some(d) => {
                if longer(d, best) {
                    assert forall|j: int|
                        0 <= j < k implies (#[trigger] token_length(token_at(v, idx, j)) matches Some(
                        e,
                    ) ==> !longer(e, d)) by {
                        if j < k - 1 {
                            if let Some(e) = token_length(token_at(v, idx, j)) {
                                lemma_not_longer_than_longer(e, best, d);
                            }
                        } else {
                            lemma_longer_irreflexive(d);
                        }
                    }
                    assert(token_length(token_at(v, idx, k - 1)) == Some(d));
                } else {
                    if best != zero_length() {
                        let j = choose|j: int| 0 <= j < k - 1 && #[trigger] token_length(token_at(v, idx, j)) == Some(best);
                        assert(token_length(token_at(v, idx, j)) == Some(best));
                    }
                }
            },
            None => {
                if best != zero_length() {
                    let j = choose|j: int| 0 <= j < k - 1 && #[trigger] token_length(token_at(v, idx, j)) == Some(best);
                    assert(token_length(token_at(v, idx, j)) == Some(best));
                }
            },
        }
    }
}

/// The length of a beat: no voice's note or rest at that beat is longer,
/// and it is the length of one of them, or zero when none is longer than
/// zero.
pub proof fn law_beat_is_longest(v: Seq<Seq<Token>>, idx: Seq<int>)
    ensures
        ({
            let length = match beat_event(v, idx) {
                SpecEvent::Note { voices, length } => length,
                SpecEvent::Rest { length } => length,
                SpecEvent::Bar => zero_length(),
            };
            &&& forall|k: int|
                0 <= k < v.len() ==> (#[trigger] token_length(token_at(v, idx, k)) matches Some(d)
                    ==> !longer(d, length))
            &&& length == zero_length() || exists|k: int|
                0 <= k < v.len() && #[trigger] token_length(token_at(v, idx, k)) == Some(length)
        }),
{
    lemma_longest_upto(v, idx, v.len() as int);
}

/// Every beat of merged voices holds one MIDI note per voice.
pub proof fn law_one_note_per_voice(v: Seq<Seq<Token>>, idx: Seq<int>)
    ensures
        forall|i: int|
            0 <= i < merge_from(v, idx).len() ==> (#[trigger] merge_from(v, idx)[i] matches SpecEvent::Note {
                voices,
                length,
            } ==> voices.len() == v.len()),
    decreases remaining(v, idx, v.len() as int),
{
    let m = merge_from(v, idx);
    if valid_positions(v, idx) && any_remaining(v, idx) {
        if any_bar(v, idx) {
            lemma_bar_step(v, idx);
            law_one_note_per_voice(v, after_bar(v, idx));
            let rest = merge_from(v, after_bar(v, idx));
            assert forall|i: int| 0 <= i < m.len() implies (#[trigger] m[i] matches SpecEvent::Note {
                voices,
                length,
            } ==> voices.len() == v.len()) by {
                if i > 0 {
                    assert(m[i] == rest[i - 1]);
                }
            }
        } else {
            lemma_beat_step(v, idx);
            law_one_note_per_voice(v, after_beat(v, idx));
            let rest = merge_from(v, after_beat(v, idx));
            assert forall|i: int| 0 <= i < m.len() implies (#[trigger] m[i] matches SpecEvent::Note {
                voices,
                length,
            } ==> voices.len() == v.len()) by {
                if i > 0 {
                    assert(m[i] == rest[i - 1]);
                }
            }
        }
    }
}

/// The event that one token of a lone voice makes.
pub open spec fn solo_event(t: Token) -> SpecEvent {
    match t {
        Token::Bar => SpecEvent::Bar,
        Token::Note(m, d) => SpecEvent::Note {
            voices: seq![m],
            length: if longer(d, zero_length()) { d } else { zero_length() },
        },
        Token::Rest(d) => SpecEvent::Rest {
            length: if longer(d, zero_length()) { d } else { zero_length() },
        },
    }
}

proof fn lemma_solo_from(ts: Seq<Token>, i: int)
    requires
        0 <= i <= ts.len(),
    ensures
        merge_from(seq![ts], seq![i]) == ts.skip(i).map_values(|t: Token| solo_event(t)),
    decreases ts.len() - i,
{
    let v = seq![ts];
    let idx = seq![i];
    assert(v[0] == ts);
    if i == ts.len() {
        assert(!(token_at(v, idx, 0) is Some));
        assert(ts.skip(i).map_values(|t: Token| solo_event(t)) =~= Seq::empty());
    } else {
        assert(token_at(v, idx, 0) == Some(ts[i]));
        lemma_solo_from(ts, i + 1);
        let tail = ts.skip(i + 1).map_values(|t: Token| solo_event(t));
        assert(ts.skip(i).map_values(|t: Token| solo_event(t)) =~= seq![solo_event(ts[i])] + tail);
        if ts[i] == Token::Bar {
            assert(any_bar(v, idx));
            assert(after_bar(v, idx) =~= seq![i + 1]);
        } else {
            assert(!any_bar(v, idx));
            assert(after_beat(v, idx) =~= seq![i + 1]);
            assert(longest_upto(v, idx, 0) == zero_length());
            match ts[i] {
                Token::Note(m, d) => {
                    assert(any_note(v, idx));
                    assert(beat_midis(v, idx) =~= seq![m]);
                },
                _ => {
                    assert(!any_note(v, idx));
                },
            }
            assert(beat_event(v, idx) == solo_event(ts[i]));
        }
    }
}

/// A lone voice makes one event per token, in order: a barline for each
/// barline, a one-note beat for each note and a rest for each rest, each
/// as long as its token (zero when that is not longer than zero).
pub proof fn law_solo_voice(ts: Seq<Token>)
    ensures
        merged(seq![ts]) == ts.map_values(|t: Token| solo_event(t)),
{
    lemma_solo_from(ts, 0);
    assert(Seq::new(1, |k: int| 0int) =~= seq![0int]);
    assert(ts.skip(0) == ts);
}

// ---------------------------------------------------------------------------
// Laws of notes
// ---------------------------------------------------------------------------

pub open spec fn all_accidentals(a: Seq<char>) -> bool {
    forall|i: int| 0 <= i < a.len() ==> is_accidental(#[trigger] a[i])
}

pub open spec fn all_octave_marks(m: Seq<char>) -> bool {
    forall|i: int| 0 <= i < m.len() ==> is_octave_mark(#[trigger] m[i])
}

/// A note token: accidentals, a letter, octave marks.
pub open spec fn note_token(acc: Seq<char>, letter: char, marks: Seq<char>) -> Seq<char> {
    acc + seq![letter] + marks
}

proof fn lemma_accidental_after_local(t: Seq<char>, u: Seq<char>, n: int)
    requires
        0 <= n <= t.len(),
        n <= u.len(),
        t.take(n) == u.take(n),
    ensures
        accidental_after(t, n) == accidental_after(u, n),
    decreases n,
{
    if n > 0 {
        assert(t.take(n - 1) == t.take(n).take(n - 1));
        assert(u.take(n - 1) == u.take(n).take(n - 1));
        lemma_accidental_after_local(t, u, n - 1);
        assert(t[n - 1] == t.take(n)[n - 1]);
        assert(u[n - 1] == u.take(n)[n - 1]);
    }
}

proof fn lemma_octave_shift_local(t: Seq<char>, i: int, m: Seq<char>, k: int)
    requires
        0 <= i,
        0 <= k <= m.len(),
        i + m.len() <= t.len(),
        t.subrange(i, i + m.len()) == m,
    ensures
        octave_shift(t, i, i + k) == octave_shift(m, 0, k),
    decreases k,
{
    if k > 0 {
        lemma_octave_shift_local(t, i, m, k - 1);
        assert(t[i + k - 1] == t.subrange(i, i + m.len())[k - 1]);
    }
}

/// The MIDI number of a note token in closed form: the letter's note, the
/// shift of the written accidentals (or else of the key signature), an
/// octave up for a lower-case letter, and the octave marks.
pub proof fn lemma_note_token(acc: Seq<char>, letter: char, marks: Seq<char>, key: Seq<i32>)
    requires
        all_accidentals(acc),
        all_octave_marks(marks),
        letter_base(letter) is Some,
    ensures
        ({
            let t = note_token(acc, letter, marks);
            let (base, degree) = letter_base(letter).unwrap();
            let adj = match accidental_after(acc, acc.len() as int) {
                Some(a) => a,
                None => key[degree] as int,
            };
            &&& accidental_end(t) == acc.len()
            &&& octave_end(t) == t.len()
            &&& note_midi(t, key) == Some(
                base + adj + (if is_lower(letter) { 12int } else { 0int }) + octave_shift(
                    marks,
                    0,
                    marks.len() as int,
                ),
            )
        }),
{
    let t = note_token(acc, letter, marks);
    let k = acc.len() as int;
    assert(t[k] == letter);
    assert forall|i: int| 0 <= i < k implies accidental_pred()(#[trigger] t[i]) by {
        assert(t[i] == acc[i]);
    }
    lemma_run_end(t, 0, k, accidental_pred());
    assert forall|i: int| k + 1 <= i < t.len() implies octave_mark_pred()(#[trigger] t[i]) by {
        assert(t[i] == marks[i - k - 1]);
    }
    lemma_run_end(t, k + 1, t.len() as int, octave_mark_pred());
    assert(t.take(k) == acc.take(k));
    lemma_accidental_after_local(t, acc, k);
    assert(t.subrange(k + 1, k + 1 + marks.len()) == marks);
    lemma_octave_shift_local(t, k + 1, marks, marks.len() as int);
}

/// A lower-case letter sounds an octave above the same letter in capitals,
/// whatever the accidentals, the octave marks and the key.
pub proof fn law_lower_case_octave(
    acc: Seq<char>,
    upper: char,
    lower: char,
    marks: Seq<char>,
    key: Seq<i32>,
)
    requires
        all_accidentals(acc),
        all_octave_marks(marks),
        letter_base(upper) is Some,
        letter_base(lower) == letter_base(upper),
        is_lower(lower),
        !is_lower(upper),
    ensures
        note_midi(note_token(acc, lower, marks), key) == Some(
            note_midi(note_token(acc, upper, marks), key).unwrap() + 12,
        ),
{
    lemma_note_token(acc, upper, marks, key);
    lemma_note_token(acc, lower, marks, key);
}

/// Each `,` after a note takes it an octave down and each `'` an octave up.
pub proof fn law_octave_marks(acc: Seq<char>, letter: char, marks: Seq<char>, key: Seq<i32>)
    requires
        all_accidentals(acc),
        all_octave_marks(marks),
        letter_base(letter) is Some,
    ensures
        note_midi(note_token(acc, letter, marks.push(',')), key) == Some(
            note_midi(note_token(acc, letter, marks), key).unwrap() - 12,
        ),
        note_midi(note_token(acc, letter, marks.push('\'')), key) == Some(
            note_midi(note_token(acc, letter, marks), key).unwrap() + 12,
        ),
{
    lemma_note_token(acc, letter, marks, key);
    assert(all_octave_marks(marks.push(',')));
    assert(all_octave_marks(marks.push('\'')));
    lemma_note_token(acc, letter, marks.push(','), key);
    lemma_note_token(acc, letter, marks.push('\''), key);
    assert(marks.push(',').drop_last() == marks);
    assert(marks.push('\'').drop_last() == marks);
    assert(octave_shift(marks.push(','), 0, marks.len() as int) == octave_shift(marks, 0, marks.len() as int)) by {
        lemma_octave_shift_local(marks.push(','), 0, marks, marks.len() as int);
        assert(marks.push(',').subrange(0, marks.len() as int) == marks);
    }
    assert(octave_shift(marks.push('\''), 0, marks.len() as int) == octave_shift(marks, 0, marks.len() as int)) by {
        lemma_octave_shift_local(marks.push('\''), 0, marks, marks.len() as int);
        assert(marks.push('\'').subrange(0, marks.len() as int) == marks);
    }
}

/// Written accidentals replace the key signature: a note whose accidentals
/// end in a natural `=` is the same in every key.
pub proof fn law_natural_ignores_key(
    acc: Seq<char>,
    letter: char,
    marks: Seq<char>,
    key1: Seq<i32>,
    key2: Seq<i32>,
)
    requires
        all_accidentals(acc),
        all_octave_marks(marks),
        letter_base(letter) is Some,
    ensures
        note_midi(note_token(acc.push('='), letter, marks), key1) == note_midi(
            note_token(acc.push('='), letter, marks),
            key2,
        ),
{
    assert(all_accidentals(acc.push('=')));
    lemma_note_token(acc.push('='), letter, marks, key1);
    lemma_note_token(acc.push('='), letter, marks, key2);
}

/// With no accidentals written, the key signature's shift for the letter's
/// degree applies: the note is its natural shifted by the key.
pub proof fn law_key_signature_applies(letter: char, marks: Seq<char>, key: Seq<i32>)
    requires
        all_octave_marks(marks),
        letter_base(letter) is Some,
    ensures
        note_midi(note_token(Seq::empty(), letter, marks), key) == Some(
            note_midi(note_token(seq!['='], letter, marks), key).unwrap() + key[letter_base(
                letter,
            ).unwrap().1] as int,
        ),
{
    lemma_note_token(Seq::empty(), letter, marks, key);
    assert(all_accidentals(seq!['=']));
    lemma_note_token(seq!['='], letter, marks, key);
    assert(accidental_after(seq!['='], 1) == Some(0int));
}

/// Every beat of a tune's score holds one MIDI note per voice line of the
/// tune (a voice with nothing at that beat holds 0).
pub proof fn law_tune_one_note_per_voice(t: Seq<char>)
    ensures
        tune_score(t) matches Some(sc) ==> forall|i: int|
            0 <= i < sc.events.len() ==> (#[trigger] sc.events[i] matches SpecEvent::Note {
                voices,
                length,
            } ==> voices.len() == tune_header(t).voices.len()),
{
    let h = tune_header(t);
    let v = header_streams(h);
    law_one_note_per_voice(v, Seq::new(v.len(), |k: int| 0int));
}


// ---------------------------------------------------------------------------
// The law of the book
// ---------------------------------------------------------------------------

/// The values of the `Some` entries of `s`, in order.
pub open spec fn somes<A>(s: Seq<Option<A>>) -> Seq<A>
    decreases s.len(),
{
    if s.len() == 0 {
        Seq::empty()
    } else {
        match s[0] {
            Some(a) => seq![a] + somes(s.drop_first()),
            None => somes(s.drop_first()),
        }
    }
}

/// What parsing the tune text of each piece of a book gives, piece by
/// piece: `None` for a first piece without `X:` and for a tune without a
/// voice line.
pub open spec fn piece_scores(c: Seq<Seq<char>>) -> Seq<Option<SpecScore>> {
    Seq::new(
        c.len(),
        |i: int|
            match chunk_tune(i, c[i]) {
                Some(t) => tune_score(t),
                None => None,
            },
    )
}

proof fn lemma_scores_from_somes(c: Seq<Seq<char>>, i: int)
    requires
        0 <= i <= c.len(),
    ensures
        scores_from(c, i) == somes(piece_scores(c).skip(i)),
    decreases c.len() - i,
{
    let r = piece_scores(c).skip(i);
    if i < c.len() {
        lemma_scores_from_somes(c, i + 1);
        assert(r.drop_first() == piece_scores(c).skip(i + 1));
        assert(r[0] == piece_scores(c)[i]);
    } else {
        assert(r.len() == 0);
    }
}

/// A book reads as its tunes: the text is cut at each `\nX:` (`str::split`),
/// each piece after the first gets its `X:` back, the first piece is read
/// from its first `X:` (and skipped when it has none), and the scores are
/// those tunes' scores in order, tunes without a voice line left out.
pub proof fn law_book_is_its_tunes(text: Seq<char>)
    ensures
        book_chunks(text) == split_on(text, seq!['\n', 'X', ':']),
        book_scores(text) == somes(piece_scores(book_chunks(text))),
{
    lemma_scores_from_somes(book_chunks(text), 0);
    assert(piece_scores(book_chunks(text)).skip(0) == piece_scores(book_chunks(text)));
}


/// The capital letters C D E F G A B are the C major scale from middle C
/// (MIDI 60): written with a natural they sound `60 + major_scale()[i]`
/// in any key, and written bare they take the key signature's shift for
/// their degree `i`; the lower-case letters are the octave above.
pub proof fn law_letters_are_c_major(i: int, key: Seq<i32>)
    requires
        0 <= i < 7,
        key.len() == 7,
    ensures
        note_midi(seq![note_letters()[i]], key) == Some(60 + major_scale()[i] + key[i] as int),
        note_midi(seq!['=', note_letters()[i]], key) == Some(60 + major_scale()[i]),
        note_midi(seq![seq!['c', 'd', 'e', 'f', 'g', 'a', 'b'][i]], key) == Some(
            72 + major_scale()[i] + key[i] as int,
        ),
{
    let lc = seq!['c', 'd', 'e', 'f', 'g', 'a', 'b'][i];
    assert(letter_base(lc) == Some((60 + major_scale()[i], i)) && is_lower(lc)) by {
        assert(i == 0 || i == 1 || i == 2 || i == 3 || i == 4 || i == 5 || i == 6);
    }
    lemma_note_token(Seq::empty(), lc, Seq::empty(), key);
    assert(note_token(Seq::empty(), lc, Seq::empty()) =~= seq![lc]);
    let c = note_letters()[i];
    assert(i == 0 || i == 1 || i == 2 || i == 3 || i == 4 || i == 5 || i == 6);
    assert(letter_base(c) == Some((60 + major_scale()[i], i)));
    assert(all_accidentals(Seq::<char>::empty()));
    assert(all_octave_marks(Seq::<char>::empty()));
    assert(all_accidentals(seq!['=']));
    lemma_note_token(Seq::empty(), c, Seq::empty(), key);
    lemma_note_token(seq!['='], c, Seq::empty(), key);
    assert(note_token(Seq::empty(), c, Seq::empty()) =~= seq![c]);
    assert(note_token(seq!['='], c, Seq::empty()) =~= seq!['=', c]);
    assert(accidental_after(seq!['='], 1) == Some(0int));
    assert(accidental_after(Seq::<char>::empty(), 0) is None);
    assert(octave_shift(Seq::<char>::empty(), 0, 0) == 0);
    assert(!is_lower(c));
}

/// A note written as accidentals, a letter and octave marks (`,` and `'`),
/// followed by a length of digits and `/`, reads as one note token: the
/// voice holds exactly one note, whose MIDI number is that of the whole
/// token and whose length is that of the digits.
pub proof fn law_note_token_reads_whole(
    acc: Seq<char>,
    letter: char,
    marks: Seq<char>,
    len: Seq<char>,
    key: Seq<i32>,
)
    requires
        all_accidentals(acc),
        letter_base(letter) is Some,
        all_octave_marks(marks),
        forall|i: int| 0 <= i < len.len() ==> is_digit(#[trigger] len[i]) || len[i] == '/',
    ensures
        voice_tokens(note_token(acc, letter, marks) + len, key) == seq![
            Token::Note(
                note_midi(note_token(acc, letter, marks), key).unwrap() as i32,
                spec_parse_duration(len),
            ),
        ],
{
    let tok = note_token(acc, letter, marks);
    let s = tok + len;
    let a = acc.len() as int;
    let o = a + 1 + marks.len();
    assert(s[a] == letter);
    assert(s.len() > 0);
    assert forall|i: int| 0 <= i < a implies class_pred(CharClass::Accidental)(#[trigger] s[i]) by {
        assert(s[i] == acc[i]);
    }
    lemma_run_end(s, 0, a, class_pred(CharClass::Accidental));
    assert forall|i: int| a + 1 <= i < o implies class_pred(CharClass::OctaveMark)(#[trigger] s[i]) by {
        assert(s[i] == marks[i - a - 1]);
    }
    if o < s.len() {
        assert(s[o] == len[0]);
    }
    lemma_run_end(s, a + 1, o, class_pred(CharClass::OctaveMark));
    assert forall|i: int| o <= i < s.len() implies class_pred(CharClass::Length)(#[trigger] s[i]) by {
        assert(s[i] == len[i - o]);
    }
    lemma_run_end(s, o, s.len() as int, class_pred(CharClass::Length));
    if a > 0 {
        assert(is_accidental(s[0]));
    } else {
        assert(s[0] == letter);
    }
    assert(s.subrange(0, o) =~= tok);
    assert(s.subrange(o, s.len() as int) =~= len);
    assert(lex_step(s) == (Some(Lexeme::Note(tok, len)), s.len() as int));
    assert(s.skip(s.len() as int) =~= Seq::<char>::empty());
    assert(voice_tokens(Seq::<char>::empty(), key) =~= Seq::<Token>::empty());
    lemma_note_token(acc, letter, marks, key);
}


/// A sharp `^` raises a note a semitone and a flat `_` lowers it one, on
/// top of the accidentals written before it (or of a natural, when none
/// are), whatever the key.
pub proof fn law_sharp_and_flat(acc: Seq<char>, letter: char, marks: Seq<char>, key: Seq<i32>)
    requires
        all_accidentals(acc),
        letter_base(letter) is Some,
        all_octave_marks(marks),
    ensures
        ({
            let before = if acc.len() == 0 {
                note_midi(note_token(seq!['='], letter, marks), key).unwrap()
            } else {
                note_midi(note_token(acc, letter, marks), key).unwrap()
            };
            &&& note_midi(note_token(acc.push('^'), letter, marks), key) == Some(before + 1)
            &&& note_midi(note_token(acc.push('_'), letter, marks), key) == Some(before - 1)
        }),
{
    assert(all_accidentals(acc.push('^')));
    assert(all_accidentals(acc.push('_')));
    assert(all_accidentals(seq!['=']));
    lemma_note_token(acc, letter, marks, key);
    lemma_note_token(acc.push('^'), letter, marks, key);
    lemma_note_token(acc.push('_'), letter, marks, key);
    lemma_note_token(seq!['='], letter, marks, key);
    let n = acc.len() as int;
    assert(acc.push('^').take(n) == acc.take(n));
    assert(acc.push('_').take(n) == acc.take(n));
    lemma_accidental_after_local(acc.push('^'), acc, n);
    lemma_accidental_after_local(acc.push('_'), acc, n);
    assert(acc.push('^')[n] == '^');
    assert(acc.push('_')[n] == '_');
    assert(accidental_after(seq!['='], 1) == Some(0int));
    if n > 0 {
        assert(accidental_after(acc, n) is Some);
    }
}

/// A rest letter `z` or `Z` followed by a length of digits and `/` reads as
/// one rest of that length.
pub proof fn law_rest_reads_whole(z: char, len: Seq<char>, key: Seq<i32>)
    requires
        z == 'z' || z == 'Z',
        forall|i: int| 0 <= i < len.len() ==> is_digit(#[trigger] len[i]) || len[i] == '/',
    ensures
        voice_tokens(seq![z] + len, key) == seq![Token::Rest(spec_parse_duration(len))],
{
    let s = seq![z] + len;
    assert(s[0] == z);
    assert forall|i: int| 1 <= i < s.len() implies class_pred(CharClass::Length)(#[trigger] s[i]) by {
        assert(s[i] == len[i - 1]);
    }
    lemma_run_end(s, 1, s.len() as int, class_pred(CharClass::Length));
    assert(s.subrange(1, s.len() as int) =~= len);
    assert(lex_step(s) == (Some(Lexeme::Rest(len)), s.len() as int));
    assert(s.skip(s.len() as int) =~= Seq::<char>::empty());
    assert(voice_tokens(Seq::<char>::empty(), key) =~= Seq::<Token>::empty());
}

/// A barline `|` with the barline characters `| ] [ :` that follow it
/// reads as one barline.
pub proof fn law_barline_reads_whole(tail: Seq<char>, key: Seq<i32>)
    requires
        forall|i: int| 0 <= i < tail.len() ==> in_class(CharClass::BarTail, #[trigger] tail[i]),
    ensures
        voice_tokens(seq!['|'] + tail, key) == seq![Token::Bar],
{
    let s = seq!['|'] + tail;
    assert(s[0] == '|');
    assert forall|i: int| 1 <= i < s.len() implies class_pred(CharClass::BarTail)(#[trigger] s[i]) by {
        assert(s[i] == tail[i - 1]);
    }
    lemma_run_end(s, 1, s.len() as int, class_pred(CharClass::BarTail));
    assert(lex_step(s) == (Some(Lexeme::Bar), s.len() as int));
    assert(s.skip(s.len() as int) =~= Seq::<char>::empty());
    assert(voice_tokens(Seq::<char>::empty(), key) =~= Seq::<Token>::empty());
}

/// An annotation `"..."` or a decoration `!...!` reads as nothing: the
/// voice goes on after it as if it were not there.
pub proof fn law_annotations_are_skipped(mark: char, text: Seq<char>, rest: Seq<char>, key: Seq<i32>)
    requires
        mark == '"' || mark == '!',
        forall|i: int| 0 <= i < text.len() ==> #[trigger] text[i] != mark,
    ensures
        voice_tokens(seq![mark] + text + seq![mark] + rest, key) == voice_tokens(rest, key),
{
    let s = seq![mark] + text + seq![mark] + rest;
    let q = 1 + text.len() as int;
    assert(s[0] == mark);
    assert(s[q] == mark);
    let k = if mark == '"' { CharClass::NotQuote } else { CharClass::NotBang };
    assert forall|i: int| 1 <= i < q implies class_pred(k)(#[trigger] s[i]) by {
        assert(s[i] == text[i - 1]);
    }
    lemma_run_end(s, 1, q, class_pred(k));
    assert(lex_step(s) == (None::<Lexeme>, q + 1));
    assert(s.skip(q + 1) =~= rest);
}


/// The MIDI note that a note token sounds, 0 for a rest.
pub open spec fn sounding(t: Token) -> i32 {
    match t {
        Token::Note(m, _) => m,
        _ => 0i32,
    }
}

/// Two voices of one note or rest each make one event: a beat holding both
/// voices' notes (0 for the voice that rests) when either has a note, else
/// a rest; it lasts as long as the longer of the two, the first voice's
/// length kept when they are equal, and zero when neither is longer than
/// zero.
pub proof fn law_two_voices_one_beat(t1: Token, t2: Token)
    requires
        t1 !is Bar,
        t2 !is Bar,
    ensures
        ({
            let d1 = token_length(Some(t1)).unwrap();
            let d2 = token_length(Some(t2)).unwrap();
            let b1 = if longer(d1, zero_length()) { d1 } else { zero_length() };
            let length = if longer(d2, b1) { d2 } else { b1 };
            merged(seq![seq![t1], seq![t2]]) == seq![
                if t1 is Note || t2 is Note {
                    SpecEvent::Note { voices: seq![sounding(t1), sounding(t2)], length }
                } else {
                    SpecEvent::Rest { length }
                },
            ]
        }),
{
    let v = seq![seq![t1], seq![t2]];
    let idx = Seq::new(2, |k: int| 0int);
    assert(v.len() == 2 && v[0] == seq![t1] && v[1] == seq![t2]);
    assert(idx[0] == 0 && idx[1] == 0);
    assert(valid_positions(v, idx));
    assert(token_at(v, idx, 0) == Some(t1));
    assert(token_at(v, idx, 1) == Some(t2));
    assert(any_remaining(v, idx));
    assert(!any_bar(v, idx)) by {
        if any_bar(v, idx) {
            let k = choose|k: int| 0 <= k < v.len() && #[trigger] token_at(v, idx, k) == Some(Token::Bar);
            assert(k == 0 || k == 1);
        }
    }
    assert(any_note(v, idx) <==> (t1 is Note || t2 is Note)) by {
        if any_note(v, idx) {
            let k = choose|k: int| 0 <= k < v.len() && #[trigger] token_at(v, idx, k) matches Some(Token::Note(_, _));
            assert(k == 0 || k == 1);
        }
    }
    assert(beat_midis(v, idx) =~= seq![sounding(t1), sounding(t2)]);
    assert(longest_upto(v, idx, 0) == zero_length());
    let after = after_beat(v, idx);
    assert(after =~= seq![1int, 1int]);
    assert(token_at(v, after, 0) is None);
    assert(token_at(v, after, 1) is None);
    assert(!any_remaining(v, after)) by {
        if any_remaining(v, after) {
            let k = choose|k: int| 0 <= k < v.len() && #[trigger] token_at(v, after, k) is Some;
            assert(k == 0 || k == 1);
        }
    }
    assert(merge_from(v, after) =~= Seq::<SpecEvent>::empty());
    let d1 = token_length(Some(t1)).unwrap();
    let d2 = token_length(Some(t2)).unwrap();
    let b1 = if longer(d1, zero_length()) { d1 } else { zero_length() };
    assert(token_length(token_at(v, idx, 0)) == Some(d1));
    assert(token_length(token_at(v, idx, 1)) == Some(d2));
    assert(longest_upto(v, idx, 1) == b1);
    assert(longest_upto(v, idx, 2) == (if longer(d2, b1) { d2 } else { b1 }));
    assert(merged(v) == merge_from(v, idx));
    assert(merge_from(v, idx) == seq![beat_event(v, idx)] + merge_from(v, after));
}

} // verus!
