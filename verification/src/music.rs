//! Minimal music theory for reading ABC: pitch classes, key names and the
//! accidentals that a key signature applies.
use vstd::prelude::*;
use crate::text::{chars_of, trim, trim_bounds};

verus! {

/// Semitones above the tonic of the seven degrees of a major scale.
pub const MAJOR_SCALE: [i32; 7] = [0, 2, 4, 5, 7, 9, 11];

/// Names of the twelve pitch classes, C = 0, flats for the black keys
/// (F# for 6).
pub const PC_NAMES: [&'static str; 12] = ["C", "Db", "D", "Eb", "E", "F", "F#", "G", "Ab", "A", "Bb", "B"];

/// The pitch class of a MIDI note: its residue modulo the twelve semitones
/// of the octave, in `0..12` (C = 0).
pub open spec fn spec_pitch_class(midi: int) -> int {
    midi % 12
}

/// Pitch class (0 = C, 1 = C#/Db, ..., 11 = B) of a MIDI note number,
/// for negative note numbers too.
pub fn pitch_class(midi: i32) -> (pc: i32)
    ensures
        pc == spec_pitch_class(midi as int),
        0 <= pc < 12,
{
    ((midi % 12) + 12) % 12
}

/// The pitch class of the tonic of a (trimmed) major key name; names that
/// are not a major key give C.
pub open spec fn key_pc(k: Seq<char>) -> int {
    if k == seq!['C'] {
        0
    } else if k == seq!['D', 'b'] || k == seq!['C', '#'] {
        1
    } else if k == seq!['D'] {
        2
    } else if k == seq!['E', 'b'] || k == seq!['D', '#'] {
        3
    } else if k == seq!['E'] {
        4
    } else if k == seq!['F'] {
        5
    } else if k == seq!['F', '#'] || k == seq!['G', 'b'] {
        6
    } else if k == seq!['G'] {
        7
    } else if k == seq!['A', 'b'] || k == seq!['G', '#'] {
        8
    } else if k == seq!['A'] {
        9
    } else if k == seq!['B', 'b'] || k == seq!['A', '#'] {
        10
    } else if k == seq!['B'] {
        11
    } else {
        0
    }
}

/// Whether `s[a..b]` is the one-character word `c0`.
fn is_word1(s: &[char], a: usize, b: usize, c0: char) -> (r: bool)
    requires
        a <= b <= s@.len(),
    ensures
        r == (s@.subrange(a as int, b as int) == seq![c0]),
{
    let r = b - a == 1 && s[a] == c0;
    proof {
        if r {
            assert(s@.subrange(a as int, b as int) =~= seq![c0]);
        } else if s@.subrange(a as int, b as int) == seq![c0] {
            assert(seq![c0].len() == 1 && seq![c0][0] == c0);
            assert(s@.subrange(a as int, b as int)[0] == c0);
        }
    }
    r
}

/// Whether `s[a..b]` is the two-character word `c0 c1`.
fn is_word2(s: &[char], a: usize, b: usize, c0: char, c1: char) -> (r: bool)
    requires
        a <= b <= s@.len(),
    ensures
        r == (s@.subrange(a as int, b as int) == seq![c0, c1]),
{
    let r = b - a == 2 && s[a] == c0 && s[a + 1] == c1;
    proof {
        if r {
            assert(s@.subrange(a as int, b as int) =~= seq![c0, c1]);
        } else if s@.subrange(a as int, b as int) == seq![c0, c1] {
            assert(seq![c0, c1].len() == 2 && seq![c0, c1][0] == c0 && seq![c0, c1][1] == c1);
            assert(s@.subrange(a as int, b as int)[0] == c0);
            assert(s@.subrange(a as int, b as int)[1] == c1);
        }
    }
    r
}

/// Whether `s[a..b]` is the three-character word `c0 c1 c2`.
fn is_word3(s: &[char], a: usize, b: usize, c0: char, c1: char, c2: char) -> (r: bool)
    requires
        a <= b <= s@.len(),
    ensures
        r == (s@.subrange(a as int, b as int) == seq![c0, c1, c2]),
{
    let r = b - a == 3 && s[a] == c0 && s[a + 1] == c1 && s[a + 2] == c2;
    proof {
        if r {
            assert(s@.subrange(a as int, b as int) =~= seq![c0, c1, c2]);
        } else if s@.subrange(a as int, b as int) == seq![c0, c1, c2] {
            assert(seq![c0, c1, c2].len() == 3 && seq![c0, c1, c2][0] == c0 && seq![c0, c1, c2][1]
                == c1 && seq![c0, c1, c2][2] == c2);
            assert(s@.subrange(a as int, b as int)[0] == c0);
            assert(s@.subrange(a as int, b as int)[1] == c1);
            assert(s@.subrange(a as int, b as int)[2] == c2);
        }
    }
    r
}

/// The pitch class of the tonic of a major key named by `key`, surrounding
/// whitespace ignored; an unknown name gives C (0).
pub fn key_to_pc(key: &str) -> (pc: i32)
    ensures
        pc == key_pc(trim(key@)),
{
    let s = chars_of(key);
    let (a, b) = trim_bounds(&s, 0, s.len());
    proof {
        assert(s@.subrange(0, s@.len() as int) == s@);
    }
    let s = s.as_slice();
    if is_word1(s, a, b, 'C') {
        0
    } else if is_word2(s, a, b, 'D', 'b') || is_word2(s, a, b, 'C', '#') {
        1
    } else if is_word1(s, a, b, 'D') {
        2
    } else if is_word2(s, a, b, 'E', 'b') || is_word2(s, a, b, 'D', '#') {
        3
    } else if is_word1(s, a, b, 'E') {
        4
    } else if is_word1(s, a, b, 'F') {
        5
    } else if is_word2(s, a, b, 'F', '#') || is_word2(s, a, b, 'G', 'b') {
        6
    } else if is_word1(s, a, b, 'G') {
        7
    } else if is_word2(s, a, b, 'A', 'b') || is_word2(s, a, b, 'G', '#') {
        8
    } else if is_word1(s, a, b, 'A') {
        9
    } else if is_word2(s, a, b, 'B', 'b') || is_word2(s, a, b, 'A', '#') {
        10
    } else if is_word1(s, a, b, 'B') {
        11
    } else {
        0
    }
}


/// The semitone adjustment that the key signature of the (trimmed) key name
/// `k` applies to each diatonic degree C D E F G A B. A major key and its
/// relative minor share a signature; unknown names have none.
pub open spec fn key_signature(k: Seq<char>) -> Seq<i32> {
    if k == seq!['C'] || k == seq!['A', 'm'] {
        seq![0i32, 0i32, 0i32, 0i32, 0i32, 0i32, 0i32]
    } else if k == seq!['G'] || k == seq!['E', 'm'] {
        seq![0i32, 0i32, 0i32, 1i32, 0i32, 0i32, 0i32]
    } else if k == seq!['D'] || k == seq!['B', 'm'] {
        seq![1i32, 0i32, 0i32, 1i32, 0i32, 0i32, 0i32]
    } else if k == seq!['A'] || k == seq!['F', '#', 'm'] {
        seq![1i32, 0i32, 0i32, 1i32, 1i32, 0i32, 0i32]
    } else if k == seq!['E'] || k == seq!['C', '#', 'm'] {
        seq![1i32, 1i32, 0i32, 1i32, 1i32, 0i32, 0i32]
    } else if k == seq!['B'] || k == seq!['G', '#', 'm'] {
        seq![1i32, 1i32, 0i32, 1i32, 1i32, 1i32, 0i32]
    } else if k == seq!['F', '#'] || k == seq!['D', '#', 'm'] {
        seq![1i32, 1i32, 1i32, 1i32, 1i32, 1i32, 0i32]
    } else if k == seq!['F'] || k == seq!['D', 'm'] {
        seq![0i32, 0i32, 0i32, 0i32, 0i32, 0i32, -1i32]
    } else if k == seq!['B', 'b'] || k == seq!['G', 'm'] {
        seq![0i32, 0i32, -1i32, 0i32, 0i32, 0i32, -1i32]
    } else if k == seq!['E', 'b'] || k == seq!['C', 'm'] {
        seq![0i32, 0i32, -1i32, 0i32, 0i32, -1i32, -1i32]
    } else if k == seq!['A', 'b'] || k == seq!['F', 'm'] {
        seq![0i32, -1i32, -1i32, 0i32, 0i32, -1i32, -1i32]
    } else if k == seq!['D', 'b'] || k == seq!['B', 'b', 'm'] {
        seq![0i32, -1i32, -1i32, 0i32, -1i32, -1i32, -1i32]
    } else if k == seq!['G', 'b'] || k == seq!['E', 'b', 'm'] {
        seq![-1i32, -1i32, -1i32, 0i32, -1i32, -1i32, -1i32]
    } else {
        seq![0i32, 0i32, 0i32, 0i32, 0i32, 0i32, 0i32]
    }
}

/// The key signature named by `s[lo..hi]`, surrounding whitespace ignored.
pub fn key_signature_in(s: &[char], lo: usize, hi: usize) -> (acc: [i32; 7])
    requires
        lo <= hi <= s@.len(),
    ensures
        acc@ == key_signature(trim(s@.subrange(lo as int, hi as int))),
{
    let (a, b) = trim_bounds(s, lo, hi);
    if is_word1(s, a, b, 'C') || is_word2(s, a, b, 'A', 'm') {
        [0, 0, 0, 0, 0, 0, 0]
    } else if is_word1(s, a, b, 'G') || is_word2(s, a, b, 'E', 'm') {
        [0, 0, 0, 1, 0, 0, 0]
    } else if is_word1(s, a, b, 'D') || is_word2(s, a, b, 'B', 'm') {
        [1, 0, 0, 1, 0, 0, 0]
    } else if is_word1(s, a, b, 'A') || is_word3(s, a, b, 'F', '#', 'm') {
        [1, 0, 0, 1, 1, 0, 0]
    } else if is_word1(s, a, b, 'E') || is_word3(s, a, b, 'C', '#', 'm') {
        [1, 1, 0, 1, 1, 0, 0]
    } else if is_word1(s, a, b, 'B') || is_word3(s, a, b, 'G', '#', 'm') {
        [1, 1, 0, 1, 1, 1, 0]
    } else if is_word2(s, a, b, 'F', '#') || is_word3(s, a, b, 'D', '#', 'm') {
        [1, 1, 1, 1, 1, 1, 0]
    } else if is_word1(s, a, b, 'F') || is_word2(s, a, b, 'D', 'm') {
        [0, 0, 0, 0, 0, 0, -1]
    } else if is_word2(s, a, b, 'B', 'b') || is_word2(s, a, b, 'G', 'm') {
        [0, 0, -1, 0, 0, 0, -1]
    } else if is_word2(s, a, b, 'E', 'b') || is_word2(s, a, b, 'C', 'm') {
        [0, 0, -1, 0, 0, -1, -1]
    } else if is_word2(s, a, b, 'A', 'b') || is_word2(s, a, b, 'F', 'm') {
        [0, -1, -1, 0, 0, -1, -1]
    } else if is_word2(s, a, b, 'D', 'b') || is_word3(s, a, b, 'B', 'b', 'm') {
        [0, -1, -1, 0, -1, -1, -1]
    } else if is_word2(s, a, b, 'G', 'b') || is_word3(s, a, b, 'E', 'b', 'm') {
        [-1, -1, -1, 0, -1, -1, -1]
    } else {
        [0, 0, 0, 0, 0, 0, 0]
    }
}

/// Key signature accidentals per diatonic degree (C D E F G A B) for the key
/// named by `key`, surrounding whitespace ignored: the semitone adjustment
/// that the signature applies to each degree.
pub fn key_sig_accidentals(key: &str) -> (acc: [i32; 7])
    ensures
        acc@ == key_signature(trim(key@)),
{
    let s = chars_of(key);
    proof {
        assert(s@.subrange(0, s@.len() as int) == s@);
    }
    key_signature_in(s.as_slice(), 0, s.len())
}

/// Notes an octave apart have the same pitch class.
pub proof fn law_pitch_class_octave(midi: int)
    ensures
        spec_pitch_class(midi + 12) == spec_pitch_class(midi),
        0 <= spec_pitch_class(midi) < 12,
{
    assert((midi + 12) % 12 == midi % 12) by (nonlinear_arith);
}


/// The major scale as a sequence: semitones above the tonic of degrees
/// 0 to 6 (the values of `MAJOR_SCALE`).
pub open spec fn major_scale() -> Seq<int> {
    seq![0int, 2, 4, 5, 7, 9, 11]
}

/// The names of the thirteen major keys that have a signature, each with
/// the degree (C = 0 ... B = 6) of its tonic letter.
pub open spec fn major_key_degree(k: Seq<char>) -> Option<int> {
    if k == seq!['C'] {
        Some(0)
    } else if k == seq!['G'] {
        Some(4)
    } else if k == seq!['D'] {
        Some(1)
    } else if k == seq!['A'] {
        Some(5)
    } else if k == seq!['E'] {
        Some(2)
    } else if k == seq!['B'] {
        Some(6)
    } else if k == seq!['F', '#'] {
        Some(3)
    } else if k == seq!['F'] {
        Some(3)
    } else if k == seq!['B', 'b'] {
        Some(6)
    } else if k == seq!['E', 'b'] {
        Some(2)
    } else if k == seq!['A', 'b'] {
        Some(5)
    } else if k == seq!['D', 'b'] {
        Some(1)
    } else if k == seq!['G', 'b'] {
        Some(4)
    } else {
        None
    }
}

/// Degree `d` of the white-key scale C D E F G A B, altered by the
/// signature `sig`, is degree `(d - t) mod 7` of the major scale on the
/// tonic pitch class `tonic` (whose letter is degree `t`).
pub open spec fn degree_spells(sig: Seq<i32>, tonic: int, t: int, d: int) -> bool {
    spec_pitch_class(major_scale()[d] + sig[d] as int) == spec_pitch_class(
        tonic + major_scale()[(d - t + 7) % 7],
    )
}

/// Every degree of the white-key scale, altered by `sig`, spells the major
/// scale on `tonic`.
pub open spec fn signature_spells(sig: Seq<i32>, tonic: int, t: int) -> bool {
    &&& degree_spells(sig, tonic, t, 0)
    &&& degree_spells(sig, tonic, t, 1)
    &&& degree_spells(sig, tonic, t, 2)
    &&& degree_spells(sig, tonic, t, 3)
    &&& degree_spells(sig, tonic, t, 4)
    &&& degree_spells(sig, tonic, t, 5)
    &&& degree_spells(sig, tonic, t, 6)
}

proof fn lemma_major_key_spells(k: Seq<char>)
    requires
        major_key_degree(k) is Some,
    ensures
        signature_spells(key_signature(k), key_pc(k), major_key_degree(k).unwrap()),
{
    if k == seq!['C'] {
        assert(k.len() == 1 && k[0] == 'C');
        assert(major_key_degree(k) == Some(0int));
        assert(signature_spells(key_signature(k), key_pc(k), 0));
    } else if k == seq!['G'] {
        assert(k.len() == 1 && k[0] == 'G');
        assert(major_key_degree(k) == Some(4int));
        assert(signature_spells(key_signature(k), key_pc(k), 4));
    } else if k == seq!['D'] {
        assert(k.len() == 1 && k[0] == 'D');
        assert(major_key_degree(k) == Some(1int));
        assert(signature_spells(key_signature(k), key_pc(k), 1));
    } else if k == seq!['A'] {
        assert(k.len() == 1 && k[0] == 'A');
        assert(major_key_degree(k) == Some(5int));
        assert(signature_spells(key_signature(k), key_pc(k), 5));
    } else if k == seq!['E'] {
        assert(k.len() == 1 && k[0] == 'E');
        assert(major_key_degree(k) == Some(2int));
        assert(signature_spells(key_signature(k), key_pc(k), 2));
    } else if k == seq!['B'] {
        assert(k.len() == 1 && k[0] == 'B');
        assert(major_key_degree(k) == Some(6int));
        assert(signature_spells(key_signature(k), key_pc(k), 6));
    } else if k == seq!['F', '#'] {
        assert(k.len() == 2 && k[0] == 'F' && k[1] == '#');
        assert(major_key_degree(k) == Some(3int));
        assert(signature_spells(key_signature(k), key_pc(k), 3));
    } else if k == seq!['F'] {
        assert(k.len() == 1 && k[0] == 'F');
        assert(major_key_degree(k) == Some(3int));
        assert(signature_spells(key_signature(k), key_pc(k), 3));
    } else if k == seq!['B', 'b'] {
        assert(k.len() == 2 && k[0] == 'B' && k[1] == 'b');
        assert(major_key_degree(k) == Some(6int));
        assert(signature_spells(key_signature(k), key_pc(k), 6));
    } else if k == seq!['E', 'b'] {
        assert(k.len() == 2 && k[0] == 'E' && k[1] == 'b');
        assert(major_key_degree(k) == Some(2int));
        assert(signature_spells(key_signature(k), key_pc(k), 2));
    } else if k == seq!['A', 'b'] {
        assert(k.len() == 2 && k[0] == 'A' && k[1] == 'b');
        assert(major_key_degree(k) == Some(5int));
        assert(signature_spells(key_signature(k), key_pc(k), 5));
    } else if k == seq!['D', 'b'] {
        assert(k.len() == 2 && k[0] == 'D' && k[1] == 'b');
        assert(major_key_degree(k) == Some(1int));
        assert(signature_spells(key_signature(k), key_pc(k), 1));
    } else {
        assert(k.len() == 2 && k[0] == 'G' && k[1] == 'b');
        assert(major_key_degree(k) == Some(4int));
        assert(signature_spells(key_signature(k), key_pc(k), 4));
    }
}

/// The pitch class of degree `d` (C = 0 ... B = 6) of the white-key scale
/// altered by the signature of the key named `k`.
pub open spec fn altered_pc(k: Seq<char>, d: int) -> int {
    spec_pitch_class(major_scale()[d] + key_signature(k)[d] as int)
}

/// The pitch class of degree `j` of the major scale on the tonic of the key
/// named `k`.
pub open spec fn scale_pc(k: Seq<char>, j: int) -> int {
    spec_pitch_class(key_pc(k) + major_scale()[j])
}

/// `p` is the pitch class of a degree of the major scale of the key `k`.
pub open spec fn in_major_scale(k: Seq<char>, p: int) -> bool {
    exists|j: int| 0 <= j < 7 && #[trigger] scale_pc(k, j) == p
}

/// `p` is the pitch class of a white-key degree altered by the signature
/// of the key `k`.
pub open spec fn in_signature(k: Seq<char>, p: int) -> bool {
    exists|d: int| 0 <= d < 7 && #[trigger] altered_pc(k, d) == p
}

/// The signature of each major key spells that key's major scale: the
/// seven degrees C D E F G A B, each altered by the signature, give exactly
/// the pitch classes of the major scale on the key's tonic. Degree `d`
/// lands on scale degree `(d - t) mod 7`, where `t` is the degree of the
/// tonic's letter.
pub proof fn law_signature_spells_major_scale(k: Seq<char>)
    requires
        major_key_degree(k) is Some,
    ensures
        forall|d: int|
            0 <= d < 7 ==> #[trigger] altered_pc(k, d) == scale_pc(
                k,
                (d - major_key_degree(k).unwrap() + 7) % 7,
            ),
        forall|d: int| 0 <= d < 7 ==> in_major_scale(k, #[trigger] altered_pc(k, d)),
        forall|j: int| 0 <= j < 7 ==> in_signature(k, #[trigger] scale_pc(k, j)),
{
    lemma_major_key_spells(k);
    let sig = key_signature(k);
    let tonic = key_pc(k);
    let t = major_key_degree(k).unwrap();
    assert(0 <= t < 7);
    assert forall|d: int| 0 <= d < 7 implies #[trigger] altered_pc(k, d) == scale_pc(k, (d - t + 7) % 7) by {
        assert(d == 0 || d == 1 || d == 2 || d == 3 || d == 4 || d == 5 || d == 6);
        assert(degree_spells(sig, tonic, t, d));
    }
    assert forall|d: int| 0 <= d < 7 implies in_major_scale(k, #[trigger] altered_pc(k, d)) by {
        let j = (d - t + 7) % 7;
        assert(0 <= j < 7);
        assert(altered_pc(k, d) == scale_pc(k, j));
    }
    assert forall|j: int| 0 <= j < 7 implies in_signature(k, #[trigger] scale_pc(k, j)) by {
        let d = (j + t) % 7;
        assert(0 <= d < 7);
        assert((d - t + 7) % 7 == j);
        assert(altered_pc(k, d) == scale_pc(k, (d - t + 7) % 7));
    }
}

/// `MAJOR_SCALE` holds the major scale.
pub proof fn lemma_major_scale_const()
    ensures
        forall|d: int| 0 <= d < 7 ==> MAJOR_SCALE@[d] as int == #[trigger] major_scale()[d],
{
}


/// Every key signature, whatever the name, has seven entries, each a
/// single sharp (+1), flat (-1) or natural (0).
pub proof fn law_signature_single_accidentals(k: Seq<char>)
    ensures
        key_signature(k).len() == 7,
        forall|d: int| 0 <= d < 7 ==> -1 <= #[trigger] key_signature(k)[d] <= 1,
{
    let sig = key_signature(k);
    assert forall|d: int| 0 <= d < 7 implies -1 <= #[trigger] sig[d] <= 1 by {
        assert(d == 0 || d == 1 || d == 2 || d == 3 || d == 4 || d == 5 || d == 6);
    }
}


/// The capital note letters C D E F G A B, in scale order (degrees 0 to 6).
pub open spec fn note_letters() -> Seq<char> {
    seq!['C', 'D', 'E', 'F', 'G', 'A', 'B']
}

/// Key names spell pitch classes: a letter names the pitch class of its
/// degree of the C major scale, a `#` after it one semitone higher and a
/// `b` one semitone lower (for the sharp and flat names of the black keys).
pub proof fn law_key_names_spell_pitch_classes(i: int)
    requires
        0 <= i < 7,
    ensures
        key_pc(seq![note_letters()[i]]) == major_scale()[i],
        i != 2 && i != 6 ==> key_pc(seq![note_letters()[i], '#']) == major_scale()[i] + 1,
        i != 0 && i != 3 ==> key_pc(seq![note_letters()[i], 'b']) == major_scale()[i] - 1,
{
    let c = note_letters()[i];
    let k1 = seq![c];
    let ks = seq![c, '#'];
    let kf = seq![c, 'b'];
    assert(k1.len() == 1 && k1[0] == c);
    assert(ks.len() == 2 && ks[0] == c && ks[1] == '#');
    assert(kf.len() == 2 && kf[0] == c && kf[1] == 'b');
    if i == 0 {
        assert(c == 'C');
    }
    if i == 1 {
        assert(c == 'D');
    }
    if i == 2 {
        assert(c == 'E');
    }
    if i == 3 {
        assert(c == 'F');
    }
    if i == 4 {
        assert(c == 'G');
    }
    if i == 5 {
        assert(c == 'A');
    }
    if i == 6 {
        assert(c == 'B');
    }
}

/// The relative minor of a major key: the minor key a major sixth above
/// its tonic, by name.
pub open spec fn relative_minor(k: Seq<char>) -> Seq<char> {
    if k == seq!['C'] {
        seq!['A', 'm']
    } else if k == seq!['G'] {
        seq!['E', 'm']
    } else if k == seq!['D'] {
        seq!['B', 'm']
    } else if k == seq!['A'] {
        seq!['F', '#', 'm']
    } else if k == seq!['E'] {
        seq!['C', '#', 'm']
    } else if k == seq!['B'] {
        seq!['G', '#', 'm']
    } else if k == seq!['F', '#'] {
        seq!['D', '#', 'm']
    } else if k == seq!['F'] {
        seq!['D', 'm']
    } else if k == seq!['B', 'b'] {
        seq!['G', 'm']
    } else if k == seq!['E', 'b'] {
        seq!['C', 'm']
    } else if k == seq!['A', 'b'] {
        seq!['F', 'm']
    } else if k == seq!['D', 'b'] {
        seq!['B', 'b', 'm']
    } else {
        seq!['E', 'b', 'm']
    }
}

/// A major key and its relative minor share a key signature.
pub proof fn law_relative_minor_shares_signature(k: Seq<char>)
    requires
        major_key_degree(k) is Some,
    ensures
        key_signature(relative_minor(k)) == key_signature(k),
{
    if k == seq!['C'] {
        assert(k.len() == 1 && k[0] == 'C');
        assert(relative_minor(k) == seq!['A', 'm']);
        assert(seq!['A', 'm'].len() == 2 && seq!['A', 'm'][0] == 'A' && seq!['A', 'm'][1] == 'm');
    } else if k == seq!['G'] {
        assert(k.len() == 1 && k[0] == 'G');
        assert(relative_minor(k) == seq!['E', 'm']);
        assert(seq!['E', 'm'].len() == 2 && seq!['E', 'm'][0] == 'E' && seq!['E', 'm'][1] == 'm');
    } else if k == seq!['D'] {
        assert(k.len() == 1 && k[0] == 'D');
        assert(relative_minor(k) == seq!['B', 'm']);
        assert(seq!['B', 'm'].len() == 2 && seq!['B', 'm'][0] == 'B' && seq!['B', 'm'][1] == 'm');
    } else if k == seq!['A'] {
        assert(k.len() == 1 && k[0] == 'A');
        assert(relative_minor(k) == seq!['F', '#', 'm']);
        assert(seq!['F', '#', 'm'].len() == 3 && seq!['F', '#', 'm'][0] == 'F' && seq!['F', '#', 'm'][1] == '#' && seq!['F', '#', 'm'][2] == 'm');
    } else if k == seq!['E'] {
        assert(k.len() == 1 && k[0] == 'E');
        assert(relative_minor(k) == seq!['C', '#', 'm']);
        assert(seq!['C', '#', 'm'].len() == 3 && seq!['C', '#', 'm'][0] == 'C' && seq!['C', '#', 'm'][1] == '#' && seq!['C', '#', 'm'][2] == 'm');
    } else if k == seq!['B'] {
        assert(k.len() == 1 && k[0] == 'B');
        assert(relative_minor(k) == seq!['G', '#', 'm']);
        assert(seq!['G', '#', 'm'].len() == 3 && seq!['G', '#', 'm'][0] == 'G' && seq!['G', '#', 'm'][1] == '#' && seq!['G', '#', 'm'][2] == 'm');
    } else if k == seq!['F', '#'] {
        assert(k.len() == 2 && k[0] == 'F' && k[1] == '#');
        assert(relative_minor(k) == seq!['D', '#', 'm']);
        assert(seq!['D', '#', 'm'].len() == 3 && seq!['D', '#', 'm'][0] == 'D' && seq!['D', '#', 'm'][1] == '#' && seq!['D', '#', 'm'][2] == 'm');
    } else if k == seq!['F'] {
        assert(k.len() == 1 && k[0] == 'F');
        assert(relative_minor(k) == seq!['D', 'm']);
        assert(seq!['D', 'm'].len() == 2 && seq!['D', 'm'][0] == 'D' && seq!['D', 'm'][1] == 'm');
    } else if k == seq!['B', 'b'] {
        assert(k.len() == 2 && k[0] == 'B' && k[1] == 'b');
        assert(relative_minor(k) == seq!['G', 'm']);
        assert(seq!['G', 'm'].len() == 2 && seq!['G', 'm'][0] == 'G' && seq!['G', 'm'][1] == 'm');
    } else if k == seq!['E', 'b'] {
        assert(k.len() == 2 && k[0] == 'E' && k[1] == 'b');
        assert(relative_minor(k) == seq!['C', 'm']);
        assert(seq!['C', 'm'].len() == 2 && seq!['C', 'm'][0] == 'C' && seq!['C', 'm'][1] == 'm');
    } else if k == seq!['A', 'b'] {
        assert(k.len() == 2 && k[0] == 'A' && k[1] == 'b');
        assert(relative_minor(k) == seq!['F', 'm']);
        assert(seq!['F', 'm'].len() == 2 && seq!['F', 'm'][0] == 'F' && seq!['F', 'm'][1] == 'm');
    } else if k == seq!['D', 'b'] {
        assert(k.len() == 2 && k[0] == 'D' && k[1] == 'b');
        assert(relative_minor(k) == seq!['B', 'b', 'm']);
        assert(seq!['B', 'b', 'm'].len() == 3 && seq!['B', 'b', 'm'][0] == 'B' && seq!['B', 'b', 'm'][1] == 'b' && seq!['B', 'b', 'm'][2] == 'm');
    } else {
        assert(k.len() == 2 && k[0] == 'G' && k[1] == 'b');
        assert(relative_minor(k) == seq!['E', 'b', 'm']);
        assert(seq!['E', 'b', 'm'].len() == 3 && seq!['E', 'b', 'm'][0] == 'E' && seq!['E', 'b', 'm'][1] == 'b' && seq!['E', 'b', 'm'][2] == 'm');
    }
}

} // verus!
