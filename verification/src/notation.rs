//! The integer side of the grand-staff notation: staff positions of MIDI
//! notes, ledger lines, the staff and stem direction of each voice, and the
//! horizontal spacing of events.
use vstd::prelude::*;
use crate::abc::{ScoreEvent, SpecEvent, event_views};
use crate::music::major_scale;

verus! {

/// Diatonic steps above C of each pitch class (sharps sit on the note
/// below).
pub open spec fn diatonic_in_octave(pc: int) -> int {
    seq![0int, 0, 1, 1, 2, 3, 3, 4, 4, 5, 5, 6][pc]
}

/// The diatonic staff position of a MIDI note: middle C (60) is 0, each
/// line or space up is one more.
pub open spec fn staff_pos(midi: int) -> int {
    (midi / 12 - 5) * 7 + diatonic_in_octave(midi % 12)
}

/// MIDI note to diatonic staff position; middle C (60) is 0. The note is
/// nonnegative, or a multiple of 12 (other negative notes have no pitch
/// class to look up).
pub fn midi_to_staff_pos(midi: i32) -> (pos: i32)
    requires
        midi >= 0 || midi % 12 == 0,
    ensures
        pos == staff_pos(midi as int),
{
    let table: [i32; 12] = [0, 0, 1, 1, 2, 3, 3, 4, 4, 5, 5, 6];
    assert(table@ == seq![0i32, 0, 1, 1, 2, 3, 3, 4, 4, 5, 5, 6]);
    let octave = midi / 12 - 5;
    let pc = (midi % 12) as usize;
    assert(pc as int == midi % 12);
    assert(-178956975 <= octave <= 178956965);
    octave * 7 + table[pc]
}

/// The ledger lines that a note at staff position `pos` needs, in the
/// order they are drawn. On the treble staff (lines at positions 2 to 10)
/// they run from 0 down to the note, and from 12 up to the line at or just
/// above the note; on the bass staff (lines at -2 to -10) from 0 up to the
/// line at or just above the note, and from -12 down to the note.
pub open spec fn ledger_lines(pos: int, on_treble: bool) -> Seq<int> {
    if on_treble {
        let below = if pos <= 0 { Seq::new(((-pos) / 2 + 1) as nat, |i: int| -2 * i) } else { Seq::empty() };
        let above = if pos >= 12 { Seq::new(((pos - 11) / 2 + 1) as nat, |i: int| 12 + 2 * i) } else { Seq::empty() };
        below + above
    } else {
        let above = if pos >= 0 { Seq::new(((pos + 1) / 2 + 1) as nat, |i: int| 2 * i) } else { Seq::empty() };
        let below = if pos <= -12 { Seq::new(((-12 - pos) / 2 + 1) as nat, |i: int| -12 - 2 * i) } else { Seq::empty() };
        above + below
    }
}

/// The staff positions of the ledger lines for a note at `pos` (see
/// `ledger_lines`). Every ledger line lies on a line position off the
/// staff, between the staff and the note.
pub fn ledger_positions(pos: i32, on_treble: bool) -> (lines: Vec<i32>)
    requires
        i32::MIN < pos <= 2147483644,
    ensures
        lines@.map_values(|p: i32| p as int) == ledger_lines(pos as int, on_treble),
        forall|i: int|
            0 <= i < lines@.len() ==> {
                let p = #[trigger] lines@[i];
                &&& p % 2 == 0
                &&& if on_treble {
                    (pos <= p <= 0) || (pos >= 12 && 12 <= p <= pos + 1)
                } else {
                    (pos >= 0 && 0 <= p <= pos + 1) || (pos <= p <= -12)
                }
            },
{
    let mut lines: Vec<i32> = Vec::new();
    let ghost want = ledger_lines(pos as int, on_treble);
    if on_treble {
        if pos <= 0 {
            let mut p: i32 = 0;
            while p >= pos
                invariant
                    pos <= 0,
                    i32::MIN < pos,
                    p <= 0,
                    p % 2 == 0,
                    p >= pos - 2,
                    lines@.len() == (-p) / 2,
                    forall|i: int| 0 <= i < lines@.len() ==> #[trigger] lines@[i] == -2 * i,
                decreases p - pos + 2,
            {
                lines.push(p);
                p = p - 2;
            }
        }
        let ghost n_below = lines@.len();
        if pos >= 12 {
            let mut p: i32 = 12;
            while p <= pos + 1
                invariant
                    12 <= pos <= 2147483644,
                    p >= 12,
                    p % 2 == 0,
                    p <= pos + 3,
                    lines@.len() == n_below + (p - 12) / 2,
                    forall|i: int| 0 <= i < n_below ==> #[trigger] lines@[i] == -2 * i,
                    forall|i: int| n_below <= i < lines@.len() ==> #[trigger] lines@[i] == 12 + 2 * (i - n_below),
                decreases pos + 3 - p,
            {
                lines.push(p);
                p = p + 2;
            }
        }
    } else {
        if pos >= 0 {
            let mut p: i32 = 0;
            while p <= pos + 1
                invariant
                    0 <= pos <= 2147483644,
                    p >= 0,
                    p % 2 == 0,
                    p <= pos + 3,
                    lines@.len() == p / 2,
                    forall|i: int| 0 <= i < lines@.len() ==> #[trigger] lines@[i] == 2 * i,
                decreases pos + 3 - p,
            {
                lines.push(p);
                p = p + 2;
            }
        }
        let ghost n_above = lines@.len();
        if pos <= -12 {
            let mut p: i32 = -12;
            while p >= pos
                invariant
                    i32::MIN < pos <= -12,
                    p <= -12,
                    p % 2 == 0,
                    p >= pos - 2,
                    lines@.len() == n_above + (-12 - p) / 2,
                    forall|i: int| 0 <= i < n_above ==> #[trigger] lines@[i] == 2 * i,
                    forall|i: int| n_above <= i < lines@.len() ==> #[trigger] lines@[i] == -12 - 2 * (i - n_above),
                decreases p - pos + 2,
            {
                lines.push(p);
                p = p - 2;
            }
        }
    }
    assert(lines@.map_values(|p: i32| p as int) =~= want);
    lines
}

/// Which staff a voice is drawn on and which way its stems point: soprano
/// (0) treble, up; alto (1) treble, down; tenor (2) bass, up; bass (3)
/// bass, down. Other voices are not drawn.
pub fn voice_placement(voice: usize) -> (r: Option<(bool, bool)>)
    ensures
        r == (if voice < 4 { Some((voice < 2, voice % 2 == 0)) } else { None::<(bool, bool)> }),
{
    if voice == 0 {
        Some((true, true))
    } else if voice == 1 {
        Some((true, false))
    } else if voice == 2 {
        Some((false, true))
    } else if voice == 3 {
        Some((false, false))
    } else {
        None
    }
}

/// Horizontal room of a note or rest event.
pub const NOTE_WIDTH: u64 = 42;

/// Horizontal room of a barline event.
pub const BAR_WIDTH: u64 = 15;

/// The room of an event: a barline's, or a note's or rest's.
pub open spec fn event_width(is_bar: bool) -> int {
    if is_bar {
        BAR_WIDTH as int
    } else {
        NOTE_WIDTH as int
    }
}

/// Where event `i` starts: the room of the events before it.
pub open spec fn offset_before(bars: Seq<bool>, i: int) -> int
    decreases i,
{
    if i <= 0 {
        0
    } else {
        offset_before(bars, i - 1) + event_width(bars[i - 1])
    }
}

proof fn lemma_offset_bound(bars: Seq<bool>, i: int)
    requires
        0 <= i,
    ensures
        0 <= offset_before(bars, i) <= NOTE_WIDTH * i,
    decreases i,
{
    if i > 0 {
        lemma_offset_bound(bars, i - 1);
    }
}

/// Whether each event is a barline.
pub open spec fn event_bars(events: Seq<SpecEvent>) -> Seq<bool> {
    events.map_values(|e: SpecEvent| e is Bar)
}

/// The horizontal start of each event, `bars[i]` telling whether event
/// `i` is a barline, when notes and rests take `NOTE_WIDTH` and barlines
/// `BAR_WIDTH`; and the end after them: one more than there are events.
pub fn event_offsets(bars: &[bool]) -> (xs: Vec<u64>)
    requires
        bars@.len() * NOTE_WIDTH <= u64::MAX,
    ensures
        xs@.len() == bars@.len() + 1,
        forall|i: int| 0 <= i <= bars@.len() ==> #[trigger] xs@[i] == offset_before(bars@, i),
{
    let mut xs: Vec<u64> = Vec::new();
    let mut x: u64 = 0;
    let mut i: usize = 0;
    while i < bars.len()
        invariant
            i <= bars@.len(),
            bars@.len() * NOTE_WIDTH <= u64::MAX,
            xs@.len() == i,
            x == offset_before(bars@, i as int),
            forall|j: int| 0 <= j < i ==> #[trigger] xs@[j] == offset_before(bars@, j),
        decreases bars@.len() - i,
    {
        xs.push(x);
        proof {
            lemma_offset_bound(bars@, i + 1);
            assert(NOTE_WIDTH * (i + 1) <= NOTE_WIDTH * bars@.len()) by (nonlinear_arith)
                requires
                    i + 1 <= bars@.len(),
            ;
        }
        let w = if bars[i] {
            BAR_WIDTH
        } else {
            NOTE_WIDTH
        };
        x = x + w;
        i = i + 1;
    }
    xs.push(x);
    xs
}

/// Which events of a list are barlines.
pub fn bar_flags(events: &[ScoreEvent]) -> (bars: Vec<bool>)
    ensures
        bars@ == event_bars(event_views(events@)),
{
    let mut bars: Vec<bool> = Vec::new();
    let mut i: usize = 0;
    while i < events.len()
        invariant
            i <= events@.len(),
            bars@ == event_bars(event_views(events@)).subrange(0, i as int),
        decreases events@.len() - i,
    {
        let b = match &events[i] {
            ScoreEvent::Bar => true,
            _ => false,
        };
        bars.push(b);
        assert(bars@ =~= event_bars(event_views(events@)).subrange(0, i + 1));
        i = i + 1;
    }
    assert(bars@ =~= event_bars(event_views(events@)));
    bars
}

/// A note an octave higher sits seven staff positions higher.
pub proof fn law_staff_octave(midi: int)
    ensures
        staff_pos(midi + 12) == staff_pos(midi) + 7,
{
    assert((midi + 12) / 12 == midi / 12 + 1 && (midi + 12) % 12 == midi % 12) by (nonlinear_arith);
}

/// A higher note never sits lower on the staff.
pub proof fn law_staff_monotone(m1: int, m2: int)
    requires
        m1 <= m2,
    ensures
        staff_pos(m1) <= staff_pos(m2),
{
    let (q1, r1, q2, r2) = (m1 / 12, m1 % 12, m2 / 12, m2 % 12);
    vstd::arithmetic::div_mod::lemma_fundamental_div_mod(m1, 12);
    vstd::arithmetic::div_mod::lemma_fundamental_div_mod(m2, 12);
    vstd::arithmetic::div_mod::lemma_mod_bound(m1, 12);
    vstd::arithmetic::div_mod::lemma_mod_bound(m2, 12);
    assert(q1 <= q2) by (nonlinear_arith)
        requires
            m1 == 12 * q1 + r1,
            0 <= r1 < 12,
            m2 == 12 * q2 + r2,
            0 <= r2 < 12,
            m1 <= m2,
    ;
    assert(0 <= diatonic_in_octave(r1) <= 6);
    assert(0 <= diatonic_in_octave(r2) <= 6);
    if q1 == q2 {
        assert(r1 <= r2);
        assert(forall|a: int, b: int| 0 <= a <= b < 12 ==> diatonic_in_octave(a) <= diatonic_in_octave(b));
    }
}

/// Each event starts exactly its room after the one before it, so events
/// never overlap and stand left to right in order.
pub proof fn law_offsets_increase(bars: Seq<bool>, i: int)
    requires
        0 <= i,
    ensures
        offset_before(bars, i + 1) == offset_before(bars, i) + event_width(bars[i]),
        offset_before(bars, i) < offset_before(bars, i + 1),
{
}


/// The white keys of each octave sit on consecutive staff positions: the
/// `i`th degree (C = 0 ... B = 6) of the C major scale in octave `o` above
/// middle C sits `7 * o + i` steps above middle C.
pub proof fn law_white_keys_step(o: int, i: int)
    requires
        0 <= i < 7,
    ensures
        staff_pos(60 + 12 * o + major_scale()[i]) == 7 * o + i,
{
    let r = major_scale()[i];
    assert(0 <= r < 12) by {
        assert(i == 0 || i == 1 || i == 2 || i == 3 || i == 4 || i == 5 || i == 6);
    }
    let m = 60 + 12 * o + r;
    assert(m == (o + 5) * 12 + r) by (nonlinear_arith)
        requires
            m == 60 + 12 * o + r,
    ;
    vstd::arithmetic::div_mod::lemma_fundamental_div_mod_converse_div(m, 12, o + 5, r);
    vstd::arithmetic::div_mod::lemma_fundamental_div_mod_converse_mod(m, 12, o + 5, r);
    assert(i == 0 || i == 1 || i == 2 || i == 3 || i == 4 || i == 5 || i == 6);
}

/// A black key shares the staff position of the white key below it: one
/// semitone above each degree of C major other than E and B.
pub proof fn law_sharp_shares_position(o: int, i: int)
    requires
        0 <= i < 7,
        i != 2,
        i != 6,
    ensures
        staff_pos(60 + 12 * o + major_scale()[i] + 1) == 7 * o + i,
{
    let r = major_scale()[i] + 1;
    assert(0 <= r < 12) by {
        assert(i == 0 || i == 1 || i == 3 || i == 4 || i == 5);
    }
    let m = 60 + 12 * o + r;
    assert(m == (o + 5) * 12 + r) by (nonlinear_arith)
        requires
            m == 60 + 12 * o + r,
    ;
    vstd::arithmetic::div_mod::lemma_fundamental_div_mod_converse_div(m, 12, o + 5, r);
    vstd::arithmetic::div_mod::lemma_fundamental_div_mod_converse_mod(m, 12, o + 5, r);
    assert(i == 0 || i == 1 || i == 3 || i == 4 || i == 5);
}

/// `p` is a ledger line that a note at `pos` needs on the treble staff
/// (lines at 2 to 10): a line position from 0 down to a note at or below 0,
/// or from 12 up to the line at or just above a note at 12 or above.
pub open spec fn treble_ledger(pos: int, p: int) -> bool {
    p % 2 == 0 && ((pos <= p <= 0) || (pos >= 12 && 12 <= p <= pos + 1))
}

/// `p` is a ledger line that a note at `pos` needs on the bass staff (lines
/// at -2 to -10): a line position from 0 up to the line at or just above a
/// note at 0 or above, or from -12 down to a note at -12 or below.
pub open spec fn bass_ledger(pos: int, p: int) -> bool {
    p % 2 == 0 && ((pos >= 0 && 0 <= p <= pos + 1) || (pos <= p <= -12))
}

/// The ledger lines of a note are exactly the line positions off the
/// staff between the staff and the note (see `treble_ledger` and
/// `bass_ledger`), each once; a note on the staff or in the space just
/// beyond it needs none.
pub proof fn law_ledger_lines(pos: int, on_treble: bool)
    ensures
        forall|i: int|
            0 <= i < ledger_lines(pos, on_treble).len() ==> (if on_treble {
                treble_ledger(pos, #[trigger] ledger_lines(pos, on_treble)[i])
            } else {
                bass_ledger(pos, ledger_lines(pos, on_treble)[i])
            }),
        forall|p: int|
            (if on_treble { treble_ledger(pos, p) } else { bass_ledger(pos, p) }) ==> #[trigger] ledger_lines(
                pos,
                on_treble,
            ).contains(p),
        forall|i: int, j: int|
            0 <= i < j < ledger_lines(pos, on_treble).len() ==> ledger_lines(pos, on_treble)[i]
                != ledger_lines(pos, on_treble)[j],
        on_treble && 1 <= pos <= 11 ==> ledger_lines(pos, on_treble).len() == 0,
        !on_treble && -11 <= pos <= -1 ==> ledger_lines(pos, on_treble).len() == 0,
{
    let l = ledger_lines(pos, on_treble);
    if on_treble {
        let below = if pos <= 0 { Seq::new(((-pos) / 2 + 1) as nat, |i: int| -2 * i) } else { Seq::empty() };
        let above = if pos >= 12 { Seq::new(((pos - 11) / 2 + 1) as nat, |i: int| 12 + 2 * i) } else { Seq::empty() };
        assert(l == below + above);
        assert forall|i: int| 0 <= i < l.len() implies treble_ledger(pos, #[trigger] l[i]) by {
            if i < below.len() {
                assert(l[i] == -2 * i);
            } else {
                assert(l[i] == 12 + 2 * (i - below.len()));
            }
        }
        assert forall|p: int| treble_ledger(pos, p) implies #[trigger] l.contains(p) by {
            if pos <= p <= 0 {
                let i = (-p) / 2;
                assert(l[i] == p);
            } else {
                let i = below.len() + (p - 12) / 2;
                assert(l[i] == p);
            }
        }
        assert forall|i: int, j: int| 0 <= i < j < l.len() implies l[i] != l[j] by {
            if j < below.len() {
                assert(l[i] == -2 * i && l[j] == -2 * j);
            } else if i >= below.len() {
                assert(l[i] == 12 + 2 * (i - below.len()) && l[j] == 12 + 2 * (j - below.len()));
            } else {
                assert(l[i] == -2 * i && l[j] == 12 + 2 * (j - below.len()));
            }
        }
    } else {
        let above = if pos >= 0 { Seq::new(((pos + 1) / 2 + 1) as nat, |i: int| 2 * i) } else { Seq::empty() };
        let below = if pos <= -12 { Seq::new(((-12 - pos) / 2 + 1) as nat, |i: int| -12 - 2 * i) } else { Seq::empty() };
        assert(l == above + below);
        assert forall|i: int| 0 <= i < l.len() implies bass_ledger(pos, #[trigger] l[i]) by {
            if i < above.len() {
                assert(l[i] == 2 * i);
            } else {
                assert(l[i] == -12 - 2 * (i - above.len()));
            }
        }
        assert forall|p: int| bass_ledger(pos, p) implies #[trigger] l.contains(p) by {
            if pos >= 0 && 0 <= p <= pos + 1 {
                let i = p / 2;
                assert(l[i] == p);
            } else {
                let i = above.len() + (-12 - p) / 2;
                assert(l[i] == p);
            }
        }
        assert forall|i: int, j: int| 0 <= i < j < l.len() implies l[i] != l[j] by {
            if j < above.len() {
                assert(l[i] == 2 * i && l[j] == 2 * j);
            } else if i >= above.len() {
                assert(l[i] == -12 - 2 * (i - above.len()) && l[j] == -12 - 2 * (j - above.len()));
            } else {
                assert(l[i] == 2 * i && l[j] == -12 - 2 * (j - above.len()));
            }
        }
    }
}

} // verus!
