use harpdrills::abc::ScoreEvent;
use harpdrills::duration::Duration;
use harpdrills::notation::{
    bar_flags, event_offsets, ledger_positions, midi_to_staff_pos, voice_placement, BAR_WIDTH,
    NOTE_WIDTH,
};

#[test]
fn middle_c_is_staff_position_zero() {
    assert_eq!(midi_to_staff_pos(60), 0);
}

#[test]
fn staff_reference_lines() {
    // top line of the treble staff is F5, of the bass staff A3
    assert_eq!(midi_to_staff_pos(77), 10);
    assert_eq!(midi_to_staff_pos(57), -2);
    assert_eq!(midi_to_staff_pos(61), 0);
    assert_eq!(midi_to_staff_pos(62), 1);
    assert_eq!(midi_to_staff_pos(72), 7);
    assert_eq!(midi_to_staff_pos(0), -35);
    assert_eq!(midi_to_staff_pos(-12), -42);
}

#[test]
fn staff_position_octave_and_order() {
    for m in 0..120 {
        assert_eq!(midi_to_staff_pos(m + 12), midi_to_staff_pos(m) + 7);
        assert!(midi_to_staff_pos(m) <= midi_to_staff_pos(m + 1));
    }
}

#[test]
fn ledger_lines_treble() {
    assert_eq!(ledger_positions(5, true), Vec::<i32>::new());
    assert_eq!(ledger_positions(0, true), vec![0]);
    assert_eq!(ledger_positions(-3, true), vec![0, -2]);
    assert_eq!(ledger_positions(-4, true), vec![0, -2, -4]);
    assert_eq!(ledger_positions(12, true), vec![12]);
    assert_eq!(ledger_positions(13, true), vec![12, 14]);
}

#[test]
fn ledger_lines_bass() {
    assert_eq!(ledger_positions(-5, false), Vec::<i32>::new());
    assert_eq!(ledger_positions(0, false), vec![0]);
    assert_eq!(ledger_positions(1, false), vec![0, 2]);
    assert_eq!(ledger_positions(-12, false), vec![-12]);
    assert_eq!(ledger_positions(-14, false), vec![-12, -14]);
}

#[test]
fn voices_on_staves() {
    // Soprano and Tenor get stems up; Alto and Bass get stems down.
    assert_eq!(voice_placement(0), Some((true, true)));
    assert_eq!(voice_placement(1), Some((true, false)));
    assert_eq!(voice_placement(2), Some((false, true)));
    assert_eq!(voice_placement(3), Some((false, false)));
    assert_eq!(voice_placement(4), None);
}

#[test]
fn event_spacing() {
    let one = Duration { num: 1, den: 1 };
    let events = vec![
        ScoreEvent::Note { voices: vec![60], length: one },
        ScoreEvent::Bar,
        ScoreEvent::Rest { length: one },
    ];
    let bars = bar_flags(&events);
    assert_eq!(bars, vec![false, true, false]);
    let xs = event_offsets(&bars);
    assert_eq!(xs, vec![0, NOTE_WIDTH, NOTE_WIDTH + BAR_WIDTH, 2 * NOTE_WIDTH + BAR_WIDTH]);
    assert_eq!(xs, vec![0, 42, 57, 99]);
    assert_eq!(event_offsets(&[]), vec![0]);
}
