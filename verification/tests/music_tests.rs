use harpdrills::music::{key_sig_accidentals, key_to_pc, pitch_class, MAJOR_SCALE, PC_NAMES};
use harpdrills::playback::{next_score, previous_score};

#[test]
fn pitch_class_of_notes() {
    assert_eq!(pitch_class(60), 0);
    assert_eq!(pitch_class(61), 1);
    assert_eq!(pitch_class(71), 11);
    assert_eq!(pitch_class(-1), 11);
    assert_eq!(pitch_class(-12), 0);
    assert_eq!(pitch_class(i32::MIN), 4);
}

#[test]
fn pitch_class_repeats_every_octave() {
    for m in -30..30 {
        assert_eq!(pitch_class(m + 12), pitch_class(m));
    }
}

#[test]
fn key_names_give_tonic_pitch_class() {
    assert_eq!(key_to_pc("C"), 0);
    assert_eq!(key_to_pc("C#"), 1);
    assert_eq!(key_to_pc("Db"), 1);
    assert_eq!(key_to_pc(" F# "), 6);
    assert_eq!(key_to_pc("Gb"), 6);
    assert_eq!(key_to_pc("A"), 9);
    assert_eq!(key_to_pc("Bb"), 10);
    assert_eq!(key_to_pc("B"), 11);
    assert_eq!(key_to_pc("Am"), 0);
    assert_eq!(key_to_pc("H"), 0);
    assert_eq!(key_to_pc(""), 0);
}

#[test]
fn key_signatures() {
    assert_eq!(key_sig_accidentals("C"), [0, 0, 0, 0, 0, 0, 0]);
    assert_eq!(key_sig_accidentals("G"), [0, 0, 0, 1, 0, 0, 0]);
    assert_eq!(key_sig_accidentals("D"), [1, 0, 0, 1, 0, 0, 0]);
    assert_eq!(key_sig_accidentals("F#m"), [1, 0, 0, 1, 1, 0, 0]);
    assert_eq!(key_sig_accidentals("F"), [0, 0, 0, 0, 0, 0, -1]);
    assert_eq!(key_sig_accidentals("Bbm"), [0, -1, -1, 0, -1, -1, -1]);
    assert_eq!(key_sig_accidentals("Gb"), [-1, -1, -1, 0, -1, -1, -1]);
    assert_eq!(key_sig_accidentals("  Eb\t"), [0, 0, -1, 0, 0, -1, -1]);
    assert_eq!(key_sig_accidentals("Cmaj"), [0, 0, 0, 0, 0, 0, 0]);
}

#[test]
fn relative_minor_shares_the_signature() {
    let pairs = [
        ("C", "Am"), ("G", "Em"), ("D", "Bm"), ("A", "F#m"), ("E", "C#m"), ("B", "G#m"),
        ("F#", "D#m"), ("F", "Dm"), ("Bb", "Gm"), ("Eb", "Cm"), ("Ab", "Fm"), ("Db", "Bbm"),
        ("Gb", "Ebm"),
    ];
    for (major, minor) in pairs {
        assert_eq!(key_sig_accidentals(major), key_sig_accidentals(minor));
    }
}

#[test]
fn prev_and_next_wrap_around() {
    assert_eq!(previous_score(0, 5), 4);
    assert_eq!(previous_score(3, 5), 2);
    assert_eq!(next_score(4, 5), 0);
    assert_eq!(next_score(1, 5), 2);
    assert_eq!(previous_score(0, 0), 0);
    assert_eq!(next_score(0, 0), 0);
    for n in 1..6usize {
        for c in 0..n {
            assert_eq!(next_score(previous_score(c, n), n), c);
            assert_eq!(previous_score(next_score(c, n), n), c);
        }
    }
}

#[test]
fn pitch_class_names_round_trip() {
    for (pc, name) in PC_NAMES.iter().enumerate() {
        assert_eq!(key_to_pc(name) as usize, pc);
    }
    assert_eq!(PC_NAMES[pitch_class(61) as usize], "Db");
}

#[test]
fn major_scale_degrees() {
    assert_eq!(MAJOR_SCALE, [0, 2, 4, 5, 7, 9, 11]);
    assert_eq!(PC_NAMES[MAJOR_SCALE[4] as usize], "G");
}

#[test]
fn signatures_spell_major_scales() {
    for k in ["C", "G", "D", "A", "E", "B", "F#", "F", "Bb", "Eb", "Ab", "Db", "Gb"] {
        let acc = key_sig_accidentals(k);
        let mut altered: Vec<i32> = (0..7).map(|d| pitch_class(MAJOR_SCALE[d] + acc[d])).collect();
        let mut scale: Vec<i32> = (0..7).map(|j| pitch_class(key_to_pc(k) + MAJOR_SCALE[j])).collect();
        altered.sort();
        scale.sort();
        assert_eq!(altered, scale, "key {}", k);
    }
}
