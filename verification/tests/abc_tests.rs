use harpdrills::abc::{
    abc_note_to_midi, merge_voices, note_midi_in, parse_all, parse_all_checked, parse_tune,
    scores_from_bytes, tokenize_voice, tokenize_voice_in, OutOfRange, ScoreEvent, Token,
};
use harpdrills::duration::{
    beats, beats_checked, is_longer, parse_duration, Duration, UnitLength,
};

const C_MAJOR: [i32; 7] = [0, 0, 0, 0, 0, 0, 0];
const G_MAJOR: [i32; 7] = [0, 0, 0, 1, 0, 0, 0];

fn d(num: u64, den: u64) -> Duration {
    Duration { num, den }
}

fn chars(s: &str) -> Vec<char> {
    s.chars().collect()
}

#[test]
fn notes_to_midi() {
    assert_eq!(abc_note_to_midi("C", &C_MAJOR), Some(60));
    assert_eq!(abc_note_to_midi("c", &C_MAJOR), Some(72));
    assert_eq!(abc_note_to_midi("c'", &C_MAJOR), Some(84));
    assert_eq!(abc_note_to_midi("C,", &C_MAJOR), Some(48));
    assert_eq!(abc_note_to_midi("C,,'", &C_MAJOR), Some(48));
    assert_eq!(abc_note_to_midi("B", &C_MAJOR), Some(71));
    assert_eq!(abc_note_to_midi("^F", &C_MAJOR), Some(66));
    assert_eq!(abc_note_to_midi("_B", &C_MAJOR), Some(70));
    assert_eq!(abc_note_to_midi("^^C", &C_MAJOR), Some(62));
    assert_eq!(abc_note_to_midi("__e", &C_MAJOR), Some(74));
    assert_eq!(abc_note_to_midi("^=C", &C_MAJOR), Some(60));
    assert_eq!(abc_note_to_midi("=^C", &C_MAJOR), Some(61));
}

#[test]
fn notes_follow_the_key() {
    assert_eq!(abc_note_to_midi("F", &G_MAJOR), Some(66));
    assert_eq!(abc_note_to_midi("f", &G_MAJOR), Some(78));
    assert_eq!(abc_note_to_midi("=F", &G_MAJOR), Some(65));
    assert_eq!(abc_note_to_midi("_F", &G_MAJOR), Some(64));
    assert_eq!(abc_note_to_midi("G", &G_MAJOR), Some(67));
}

#[test]
fn not_notes() {
    assert_eq!(abc_note_to_midi("", &C_MAJOR), None);
    assert_eq!(abc_note_to_midi("^", &C_MAJOR), None);
    assert_eq!(abc_note_to_midi("H", &C_MAJOR), None);
    assert_eq!(abc_note_to_midi("x", &C_MAJOR), None);
    assert_eq!(abc_note_to_midi("^,", &C_MAJOR), None);
}

#[test]
fn note_laws_on_examples() {
    for (up, lo) in [("C", "c"), ("_E", "_e"), ("^G,", "^g,"), ("=B'", "=b'")] {
        assert_eq!(
            abc_note_to_midi(lo, &G_MAJOR).unwrap(),
            abc_note_to_midi(up, &G_MAJOR).unwrap() + 12
        );
    }
    assert_eq!(abc_note_to_midi("A,", &C_MAJOR).unwrap(), abc_note_to_midi("A", &C_MAJOR).unwrap() - 12);
    assert_eq!(abc_note_to_midi("A'", &C_MAJOR).unwrap(), abc_note_to_midi("A", &C_MAJOR).unwrap() + 12);
    assert_eq!(abc_note_to_midi("=F", &G_MAJOR), abc_note_to_midi("=F", &C_MAJOR));
    assert_eq!(abc_note_to_midi("F", &G_MAJOR).unwrap(), abc_note_to_midi("=F", &G_MAJOR).unwrap() + 1);
}

#[test]
fn durations() {
    assert_eq!(parse_duration(""), d(1, 1));
    assert_eq!(parse_duration("2"), d(2, 1));
    assert_eq!(parse_duration("/"), d(1, 2));
    assert_eq!(parse_duration("/4"), d(1, 4));
    assert_eq!(parse_duration("3/2"), d(3, 2));
    assert_eq!(parse_duration("3/"), d(3, 1));
    assert_eq!(parse_duration("/3/4"), d(1, 2));
    assert_eq!(parse_duration("3/4/5"), d(3, 1));
    assert_eq!(parse_duration("/0"), d(1, 0));
    assert_eq!(parse_duration("007"), d(7, 1));
}

#[test]
fn longer_lengths() {
    assert!(is_longer(d(3, 2), d(1, 1)));
    assert!(!is_longer(d(1, 2), d(2, 4)));
    assert!(!is_longer(d(2, 4), d(1, 2)));
    assert!(is_longer(d(1, 0), d(100, 1)));
    assert!(!is_longer(d(1, 0), d(1, 0)));
    assert!(!is_longer(d(0, 0), d(0, 1)));
    assert!(!is_longer(d(5, 1), d(0, 0)));
}

#[test]
fn tokenize_a_voice() {
    let toks = tokenize_voice(&chars("C2 D/ |] z E3/2 \"Am\" !accent! x ^F,"), &C_MAJOR);
    assert_eq!(
        toks,
        vec![
            Token::Note(60, d(2, 1)),
            Token::Note(62, d(1, 2)),
            Token::Bar,
            Token::Rest(d(1, 1)),
            Token::Note(64, d(3, 2)),
            Token::Note(54, d(1, 1)),
        ]
    );
}

#[test]
fn tokenize_skips_what_is_not_a_note() {
    // accidentals followed by no note letter are dropped with that character
    assert_eq!(tokenize_voice(&chars("^|C"), &C_MAJOR), vec![Token::Note(60, d(1, 1))]);
    assert_eq!(tokenize_voice(&chars("Hc"), &C_MAJOR), vec![Token::Note(72, d(1, 1))]);
    assert_eq!(tokenize_voice(&chars("\"unclosed C"), &C_MAJOR), Vec::<Token>::new());
    assert_eq!(tokenize_voice(&chars("Z4 ||"), &C_MAJOR), vec![Token::Rest(d(4, 1)), Token::Bar]);
}

#[test]
fn merge_two_voices() {
    let v1 = vec![Token::Note(60, d(1, 1)), Token::Bar, Token::Note(62, d(2, 1))];
    let v2 = vec![Token::Rest(d(1, 2)), Token::Bar, Token::Note(50, d(1, 1))];
    let events = merge_voices(&[v1, v2]);
    assert_eq!(events.len(), 3);
    match &events[0] {
        ScoreEvent::Note { voices, length } => {
            assert_eq!(voices, &vec![60, 0]);
            assert_eq!(*length, d(1, 1));
        }
        _ => panic!("expected a note"),
    }
    assert!(matches!(events[1], ScoreEvent::Bar));
    match &events[2] {
        ScoreEvent::Note { voices, length } => {
            assert_eq!(voices, &vec![62, 50]);
            assert_eq!(*length, d(2, 1));
        }
        _ => panic!("expected a note"),
    }
}

#[test]
fn beat_takes_the_longest_voice() {
    let v1 = vec![Token::Note(60, d(1, 2))];
    let v2 = vec![Token::Note(64, d(3, 2))];
    let v3 = vec![Token::Rest(d(6, 4))];
    let events = merge_voices(&[v1, v2, v3]);
    match &events[0] {
        ScoreEvent::Note { voices, length } => {
            assert_eq!(voices, &vec![60, 64, 0]);
            assert_eq!(*length, d(3, 2));
        }
        _ => panic!("expected a note"),
    }
}

#[test]
fn rests_only_make_a_rest_and_uneven_voices_fill_with_zero() {
    let v1 = vec![Token::Rest(d(2, 1)), Token::Note(60, d(1, 1))];
    let v2 = vec![Token::Rest(d(1, 1))];
    let events = merge_voices(&[v1, v2]);
    assert_eq!(events.len(), 2);
    match &events[0] {
        ScoreEvent::Rest { length } => assert_eq!(*length, d(2, 1)),
        _ => panic!("expected a rest"),
    }
    match &events[1] {
        ScoreEvent::Note { voices, .. } => assert_eq!(voices, &vec![60, 0]),
        _ => panic!("expected a note"),
    }
}

#[test]
fn bars_in_one_voice_only() {
    let v1 = vec![Token::Bar, Token::Note(60, d(1, 1))];
    let v2 = vec![Token::Note(62, d(1, 1))];
    let events = merge_voices(&[v1, v2]);
    assert_eq!(events.len(), 2);
    assert!(matches!(events[0], ScoreEvent::Bar));
    match &events[1] {
        ScoreEvent::Note { voices, .. } => assert_eq!(voices, &vec![60, 62]),
        _ => panic!("expected a note"),
    }
}

#[test]
fn lone_voice_events_follow_its_tokens() {
    let v = vec![Token::Note(60, d(1, 1)), Token::Bar, Token::Rest(d(0, 1)), Token::Note(62, d(0, 0))];
    let events = merge_voices(&[v]);
    assert_eq!(events.len(), 4);
    assert!(matches!(&events[0], ScoreEvent::Note { voices, length } if voices == &vec![60] && *length == d(1, 1)));
    assert!(matches!(events[1], ScoreEvent::Bar));
    assert!(matches!(&events[2], ScoreEvent::Rest { length } if *length == d(0, 1)));
    assert!(matches!(&events[3], ScoreEvent::Note { voices, length } if voices == &vec![62] && *length == d(0, 1)));
    assert_eq!(merge_voices(&[]).len(), 0);
}

const BOOK: &str = "%abc-2.1\n\
% harp drills\n\
\n\
X:1001\n\
T:Drill: I Placing (Full)\n\
M:4/4\n\
L:1/4\n\
Q:1/4=80\n\
K:C\n\
[V: S1V1] e d c2 | c4 |]\n\
[V: S1V2] c B, A,2 | G,4 |]\n\
[V: S2V1] G F E2 | E4 |]\n\
[V: S2V2] C, D, E,2 | C,4 |]\n\
\n\
X:1002\n\
T:Drill: II Thirds\n\
M:3/4\n\
L:1/8\n\
K:G\n\
[V: S1V1] [Q:1/4=96] F2 G2 A2 |]\n\
\n\
X:1003\n\
T:No voices here\n";

#[test]
fn book_of_drills() {
    let scores = parse_all(BOOK);
    assert_eq!(scores.len(), 2);
    let s = &scores[0];
    assert_eq!(s.number, "1001");
    assert_eq!(s.title, "Drill: I Placing (Full)");
    assert_eq!(s.key, "C");
    assert_eq!(s.meter_num, 4);
    assert_eq!(s.meter_den, 4);
    assert_eq!(s.tempo, 80);
    assert_eq!(s.unit_length, wu(1, 4));
    let first_note = s.events.iter().find(|e| matches!(e, ScoreEvent::Note { .. }));
    if let Some(ScoreEvent::Note { voices, length }) = first_note {
        assert_eq!(voices, &vec![76, 72, 67, 48]);
        assert_eq!(*length, d(1, 1));
    } else {
        panic!("No note found in drill I");
    }
    assert_eq!(s.events.len(), 6);
    let t = &scores[1];
    assert_eq!(t.number, "1002");
    assert_eq!(t.key, "G");
    assert_eq!(t.meter_num, 3);
    assert_eq!(t.tempo, 96);
    assert_eq!(t.unit_length, wu(1, 8));
    match &t.events[0] {
        ScoreEvent::Note { voices, length } => {
            assert_eq!(voices, &vec![66]);
            assert_eq!(*length, d(2, 1));
        }
        _ => panic!("expected a note"),
    }
}

#[test]
fn tune_header_defaults() {
    let s = parse_tune("X:7\n[V:1] C").unwrap();
    assert_eq!(s.number, "7");
    assert_eq!(s.title, "");
    assert_eq!(s.key, "C");
    assert_eq!((s.meter_num, s.meter_den), (4, 4));
    assert_eq!(s.tempo, 80);
    assert_eq!(s.unit_length, wu(1, 4));
    assert!(parse_tune("X:8\nT:Empty\nK:D\n").is_none());
}

#[test]
fn tune_header_fields() {
    let s = parse_tune("X: 12 \r\nT:  Scales  \r\nM:6/8\nL:1/16\nK: Bb major\nQ:3/8=120\n%[V:ignored] C\n%%score\n[V:A] _B").unwrap();
    assert_eq!(s.number, "12");
    assert_eq!(s.title, "Scales");
    assert_eq!(s.key, "Bb");
    assert_eq!((s.meter_num, s.meter_den), (6, 8));
    assert_eq!(s.unit_length, wu(1, 16));
    assert_eq!(s.tempo, 120);
    assert_eq!(s.events.len(), 1);
    match &s.events[0] {
        ScoreEvent::Note { voices, .. } => assert_eq!(voices, &vec![70]),
        _ => panic!("expected a note"),
    }
}

#[test]
fn bad_header_numbers_keep_defaults() {
    let s = parse_tune("M:C\nM:x/300\nL:a/b\nQ:1/4=fast\n[V:1] C").unwrap();
    assert_eq!((s.meter_num, s.meter_den), (4, 4));
    assert_eq!(s.unit_length, wu(1, 4));
    assert_eq!(s.tempo, 80);
    let s = parse_tune("K:\n[V:1] [Q:1/4=70] F [Q:no] G").unwrap();
    assert_eq!(s.key, "C");
    assert_eq!(s.tempo, 70);
    assert_eq!(s.events.len(), 2);
}

#[test]
fn first_piece_before_any_tune() {
    let scores = parse_all("garbage X:5\n[V:1] C\nX:6\n[V:1] D");
    assert_eq!(scores.len(), 2);
    assert_eq!(scores[0].number, "5");
    assert_eq!(scores[1].number, "6");
    assert_eq!(parse_all("no tunes at all").len(), 0);
    assert_eq!(parse_all("").len(), 0);
}

#[test]
fn checked_parse_agrees() {
    let a = parse_all_checked(BOOK).unwrap();
    assert_eq!(a.len(), 2);
    assert_eq!(a[0].title, "Drill: I Placing (Full)");
}

#[test]
fn book_from_bytes() {
    let scores = scores_from_bytes(b"X:3\nT:A\xffB\n[V:1] c").unwrap();
    assert_eq!(scores.len(), 1);
    assert_eq!(scores[0].title, "A\u{FFFD}B");
    assert_eq!(scores[0].number, "3");
    let scores = scores_from_bytes(BOOK.as_bytes()).unwrap();
    assert_eq!(scores.len(), 2);
    assert_eq!(scores[1].title, "Drill: II Thirds");
}

#[test]
fn unicode_whitespace_is_trimmed() {
    let s = parse_tune("X:\u{3000}9\u{a0}\nT:\u{2003}Title\u{2029}\n[V:1] C").unwrap();
    assert_eq!(s.number, "9");
    assert_eq!(s.title, "Title");
}

#[test]
fn long_octave_runs_stay_in_range() {
    let mut book = String::from("X:1\n[V:1] C");
    // fine: a long run of octave marks that stays in range
    for _ in 0..1000 {
        book.push(',');
    }
    let scores = parse_all_checked(&book).unwrap();
    match &scores[0].events[0] {
        ScoreEvent::Note { voices, .. } => assert_eq!(voices[0], 60 - 12 * 1000),
        _ => panic!("expected a note"),
    }
}

#[test]
fn out_of_range_notes() {
    let huge = [i32::MAX; 7];
    let tiny = [i32::MIN; 7];
    assert_eq!(note_midi_in(&['C'], 0, 1, &huge), Err(OutOfRange));
    assert_eq!(note_midi_in(&['C', ',', ','], 0, 3, &tiny), Ok(Some(i32::MIN + 36)));
    assert_eq!(note_midi_in(&['C', ',', ',', ',', ',', ',', ','], 0, 7, &tiny), Err(OutOfRange));
    assert_eq!(note_midi_in(&['C'], 0, 1, &tiny), Ok(Some(i32::MIN + 60)));
    assert_eq!(note_midi_in(&['=', 'C'], 0, 2, &huge), Ok(Some(60)));
    assert_eq!(note_midi_in(&['x'], 0, 1, &huge), Ok(None));
    let v = chars("D C");
    assert_eq!(tokenize_voice_in(&v, 0, v.len(), &huge), Err(OutOfRange));
    assert_eq!(tokenize_voice_in(&v, 0, 1, &C_MAJOR), Ok(vec![Token::Note(62, d(1, 1))]));
}

fn unit_of(l: &str) -> UnitLength {
    parse_tune(&format!("X:1\nL:{}\n[V:1] C", l)).unwrap().unit_length
}

fn r(negative: bool, num: u64, den: u64) -> (bool, Duration) {
    (negative, d(num, den))
}

fn wu(num: u64, den: u64) -> UnitLength {
    UnitLength { num: r(false, num, 1), den: r(false, den, 1) }
}

fn one_unit_beats(l: &str) -> Duration {
    beats(d(1, 1), unit_of(l))
}

#[test]
fn unit_length_reads_real_numbers() {
    assert_eq!(unit_of("1/8"), wu(1, 8));
    assert_eq!(unit_of("0.5/4"), UnitLength { num: r(false, 5, 10), den: r(false, 4, 1) });
    assert_eq!(one_unit_beats("0.5/4"), d(20, 40));
    assert_eq!(unit_of("1/8.0"), UnitLength { num: r(false, 1, 1), den: r(false, 80, 10) });
    assert_eq!(one_unit_beats("1/8.0"), d(40, 80));
    assert_eq!(unit_of("+.5/2."), UnitLength { num: r(false, 5, 10), den: r(false, 2, 1) });
    assert_eq!(unit_of("-1/-4"), UnitLength { num: r(true, 1, 1), den: r(true, 4, 1) });
    assert_eq!(one_unit_beats("-1/-4"), d(4, 4));
    assert_eq!(one_unit_beats("1/0"), d(4, 0));
    assert_eq!(unit_of("INF/4"), UnitLength { num: r(false, 1, 0), den: r(false, 4, 1) });
    assert_eq!(one_unit_beats("infinity/inf"), d(1, 1));
    assert_eq!(one_unit_beats("NaN/4"), d(1, 1));
    assert_eq!(unit_of("1e3/4"), UnitLength { num: r(false, 1000, 1), den: r(false, 4, 1) });
    assert_eq!(one_unit_beats("1e3/4"), d(4000, 4));
    assert_eq!(unit_of("2.5E-1/1"), UnitLength { num: r(false, 25, 100), den: r(false, 1, 1) });
    assert_eq!(unit_of("1e/4"), wu(1, 4));
    assert_eq!(unit_of("x/2"), wu(1, 2));
}

#[test]
fn negative_unit_length_makes_one_beat() {
    assert_eq!(unit_of("-1/4"), UnitLength { num: r(true, 1, 1), den: r(false, 4, 1) });
    assert_eq!(one_unit_beats("-1/4"), d(1, 1));
    assert_eq!(one_unit_beats("1/-0"), d(1, 1));
    assert_eq!(one_unit_beats("-nan/4"), d(1, 1));
    let s = parse_tune("L:-1/4\n[V:1] C4").unwrap();
    match &s.events[0] {
        ScoreEvent::Note { length, .. } => assert_eq!(beats(*length, s.unit_length), d(1, 1)),
        _ => panic!("expected a note"),
    }
}

#[test]
fn large_unit_length_is_read() {
    let s = parse_tune("X:1\nL:18446744073709551615/0.1\n[V:1] C").unwrap();
    assert_eq!(s.unit_length, UnitLength { num: r(false, u64::MAX, 1), den: r(false, 1, 10) });
    assert_eq!(beats_checked(d(1, 1), s.unit_length), None);
    let t = parse_tune("L:9999999999999999999/1.0\n[V:1] C").unwrap();
    assert_eq!(t.events.len(), 1);
    let all = parse_all_checked("X:1\nL:9999999999999999999/1.0\n[V:1] C").unwrap();
    assert_eq!(all.len(), 1);
    assert!(parse_tune("X:1\nT:Header only\nK:C\n").is_none());
}

#[test]
fn beats_of_lengths() {
    assert_eq!(beats(d(1, 1), wu(1, 4)), d(4, 4));
    assert_eq!(beats(d(3, 2), wu(1, 8)), d(12, 16));
    assert_eq!(beats(d(0, 1), wu(1, 4)), d(1, 1));
    assert_eq!(beats(d(0, 0), wu(1, 4)), d(1, 1));
    assert_eq!(beats(d(1, 0), wu(1, 4)), d(4, 0));
    assert_eq!(beats(d(2, 1), wu(0, 1)), d(1, 1));
    assert_eq!(beats_checked(d(1, 1), wu(1, 4)), Some(d(4, 4)));
    assert_eq!(beats_checked(d(u64::MAX, 1), wu(1, 1)), None);
    assert_eq!(beats_checked(d(1, u64::MAX), wu(1, 2)), None);
    assert_eq!(beats_checked(d(0, u64::MAX), wu(1, 2)), Some(d(1, 1)));
}

#[test]
fn beat_of_merged_rests() {
    let events = merge_voices(&[vec![Token::Rest(d(1, 2))], vec![Token::Rest(d(1, 1))]]);
    match &events[0] {
        ScoreEvent::Rest { length } => {
            let b = beats(*length, wu(1, 8));
            assert_eq!(b, d(4, 8));
        }
        _ => panic!("expected a rest"),
    }
}

#[test]
fn book_reads_as_its_tunes() {
    let text = "% lead\nX:1\nT:One\n[V:1] C\nX:2\nT:No voices\nX:3\nT:Three\n[V:1] D";
    let all = parse_all(text);
    let pieces: Vec<&str> = text.split("\nX:").collect();
    let mut one_by_one = Vec::new();
    for (i, p) in pieces.iter().enumerate() {
        let tune = if i == 0 {
            match p.find("X:") {
                Some(pos) => p[pos..].to_string(),
                None => continue,
            }
        } else {
            format!("X:{}", p)
        };
        if let Some(sc) = parse_tune(&tune) {
            one_by_one.push(sc);
        }
    }
    assert_eq!(all.len(), one_by_one.len());
    assert_eq!(all.len(), 2);
    for (a, b) in all.iter().zip(one_by_one.iter()) {
        assert_eq!(a.number, b.number);
        assert_eq!(a.title, b.title);
        assert_eq!(a.events.len(), b.events.len());
    }
    assert_eq!(all[1].title, "Three");
}

#[test]
fn lengths_read_real_numbers() {
    assert_eq!(parse_duration("1.5"), d(15, 10));
    assert_eq!(parse_duration("3/0.5"), d(30, 5));
    assert_eq!(parse_duration("/0.5"), d(10, 5));
    assert_eq!(parse_duration("-2"), d(0, 1));
    assert_eq!(parse_duration("inf"), d(1, 0));
    assert_eq!(parse_duration("1/inf"), d(0, 1));
    assert_eq!(parse_duration("2/3/4"), d(2, 1));
    assert_eq!(parse_duration("1e1"), d(10, 1));
    assert_eq!(parse_duration("/2e0"), d(1, 2));
    assert_eq!(parse_duration("0.0"), d(0, 1));
}
