use rusty_music::clock::Beat;
use rusty_music::level::level_from_bits;
use rusty_music::musicians::bassist::Bassist;
use rusty_music::musicians::{Chord, IntensityRoll, Note, TonalPlayer, STEPS_PER_BAR};

fn lv(x: f32) -> i32 {
    level_from_bits(x.to_bits())
}

fn make_beat(beat: u32, sixteenth: u32) -> Beat {
    Beat { beat, sixteenth, bar_count: 0, beat_count: beat, sixteenth_count: beat * 4 + sixteenth }
}

fn bar_beat(beat: u32, sixteenth: u32, bar: u32) -> Beat {
    Beat { beat, sixteenth, bar_count: bar, beat_count: bar * 4 + beat, sixteenth_count: bar * 16 + beat * 4 + sixteenth }
}

fn make_bassist() -> Bassist {
    Bassist::new()
}

const NO_ROLL: IntensityRoll = IntensityRoll { quarter: false, eighth: false, sixteenth: false };
const ALL_ROLL: IntensityRoll = IntensityRoll { quarter: true, eighth: true, sixteenth: true };

#[test]
fn bassist_flat_step_downbeat_is_zero() {
    assert_eq!(TonalPlayer::flat_step(&make_beat(0, 0)), 0);
}

#[test]
fn bassist_flat_step_quarter_positions() {
    assert_eq!(TonalPlayer::flat_step(&make_beat(1, 0)), 4);
    assert_eq!(TonalPlayer::flat_step(&make_beat(2, 0)), 8);
    assert_eq!(TonalPlayer::flat_step(&make_beat(3, 0)), 12);
}

#[test]
fn bassist_flat_step_eighth_positions() {
    for (b, s) in [(0u32, 2u32), (1, 2), (2, 2), (3, 2)] {
        let step = TonalPlayer::flat_step(&make_beat(b, s));
        assert!(step % 2 == 0 && step % 4 != 0);
    }
}

#[test]
fn flat_step_sixteenth_positions() {
    for (b, s) in [(0u32, 1u32), (0, 3), (1, 1), (1, 3)] {
        let step = TonalPlayer::flat_step(&make_beat(b, s));
        assert!(step % 2 != 0);
    }
}

#[test]
fn get_proximate_prefers_close_notes() {
    let notes = vec![Note::new(0, lv(1.0)), Note::new(7, lv(1.0)), Note::new(12, lv(1.0))];
    for _ in 0..20 {
        let n = Bassist::get_proximate_note(&notes, lv(1.0), Some(1)).unwrap();
        assert_eq!(n.midi_note_diff, 0);
    }
}

#[test]
fn get_proximate_falls_back_when_no_close_note() {
    let notes = vec![Note::new(10, lv(1.0))];
    let n = Bassist::get_proximate_note(&notes, lv(1.0), Some(0)).unwrap();
    assert_eq!(n.midi_note_diff, 10);
}

#[test]
fn bassist_tracks_last_midi_diff() {
    let mut bassist = make_bassist();
    assert!(bassist.last_midi_diff().is_none());
    let chord = Chord::new(lv(0.0), vec![Note::new(5, lv(1.0))], vec![]);
    bassist.play(&make_beat(0, 0), &NO_ROLL, &chord);
    assert_eq!(bassist.last_midi_diff(), Some(5));
}

#[test]
fn memory_bars_initializes_recorded_line() {
    let mut b = make_bassist();
    b.memory_bars = 2;
    let chord = Chord::new(lv(0.0), vec![Note::new(0, lv(1.0))], vec![]);
    b.play(&make_beat(0, 0), &NO_ROLL, &chord);
    assert_eq!(b.recorded_line().len(), 32);
    assert_eq!(b.recorded_line().len(), (2 * STEPS_PER_BAR) as usize);
}

#[test]
fn get_proximate_none_when_nothing_strong_enough() {
    let notes = vec![Note::new(0, lv(0.25)), Note::new(2, lv(0.5))];
    assert!(Bassist::get_proximate_note(&notes, lv(0.75), Some(0)).is_none());
    assert_eq!(Bassist::get_proximate_note(&notes, lv(0.5), None).unwrap().midi_note_diff, 2);
}

#[test]
fn pick_proximate_note_takes_from_the_close_pool() {
    let notes = vec![Note::new(-12, lv(1.0)), Note::new(3, lv(1.0)), Note::new(20, lv(1.0)), Note::new(-2, lv(1.0))];
    assert_eq!(Bassist::pick_proximate_note(&notes, lv(1.0), Some(0), 0).unwrap().midi_note_diff, 3);
    assert_eq!(Bassist::pick_proximate_note(&notes, lv(1.0), Some(0), 1).unwrap().midi_note_diff, -2);
    assert!(Bassist::pick_proximate_note(&notes, lv(1.0), Some(0), 2).is_none());
    assert_eq!(Bassist::pick_proximate_note(&notes, lv(1.0), None, 2).unwrap().midi_note_diff, 20);
}

#[test]
fn bassist_plays_chord_tones_on_even_steps_and_scale_tones_on_odd() {
    let chord = Chord::new(lv(0.0), vec![Note::new(0, lv(1.0))], vec![Note::new(2, lv(0.0))]);
    let b = make_bassist();
    assert_eq!(b.generate_note(0, &NO_ROLL, &chord).unwrap().midi_note_diff, 0);
    assert!(b.generate_note(4, &NO_ROLL, &chord).is_none());
    assert!(b.generate_note(4, &ALL_ROLL, &chord).is_some());
    assert_eq!(b.generate_note(1, &ALL_ROLL, &chord).unwrap().midi_note_diff, 2);
    assert!(b.generate_note(1, &NO_ROLL, &chord).is_none());
}

#[test]
fn bassist_memory_repeats_recorded_line() {
    let mut b = make_bassist();
    b.memory_bars = 1;
    b.memory_repeats = 2;
    let first = Chord::new(lv(0.0), vec![Note::new(0, lv(1.0))], vec![Note::new(0, lv(1.0))]);
    let second = Chord::new(lv(0.0), vec![Note::new(9, lv(1.0))], vec![Note::new(9, lv(1.0))]);
    let mut recorded = Vec::new();
    for beat in 0..4 {
        for six in 0..4 {
            recorded.push(b.play(&bar_beat(beat, six, 0), &ALL_ROLL, &first));
        }
    }
    assert!(recorded.iter().all(|n| n.map(|n| n.midi_note_diff) == Some(0)));
    // Bars 1 and 2 repeat the line, whatever the chord.
    for bar in 1..3 {
        assert!(b.is_replaying(&bar_beat(0, 0, bar)));
        for beat in 0..4 {
            for six in 0..4 {
                let played = b.play(&bar_beat(beat, six, bar), &ALL_ROLL, &second);
                assert_eq!(played.unwrap().midi_note_diff, 0);
            }
        }
    }
    // Bar 3 records afresh.
    assert!(!b.is_replaying(&bar_beat(0, 0, 3)));
    assert_eq!(b.play(&bar_beat(0, 0, 3), &ALL_ROLL, &second).unwrap().midi_note_diff, 9);
}

#[test]
fn bassist_can_play_checks_its_ranges() {
    let mut b = make_bassist();
    let chord = Chord::new(lv(0.0), vec![Note::new(0, lv(1.0))], vec![Note::new(i32::MAX, lv(0.0))]);
    assert!(b.can_play(&make_beat(0, 0), &ALL_ROLL, &chord));
    b.play(&make_beat(0, 0), &ALL_ROLL, &chord);
    assert_eq!(b.last_midi_diff(), Some(0));
    assert!(b.can_play(&make_beat(0, 1), &ALL_ROLL, &chord));
    let far = Chord::new(lv(0.0), vec![], vec![Note::new(i32::MIN, lv(0.0))]);
    assert!(!b.can_play(&make_beat(0, 1), &ALL_ROLL, &far));
    assert!(b.can_play(&make_beat(0, 1), &NO_ROLL, &far));
    b.memory_bars = 1;
    assert!(!b.can_play(&make_beat(4, 0), &NO_ROLL, &chord));
    assert!(b.can_play(&make_beat(3, 3), &NO_ROLL, &chord));
}
