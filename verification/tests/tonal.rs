use rusty_music::clock::Beat;
use rusty_music::level::{level_from_bits, LEVEL_HALF, LEVEL_ONE, LEVEL_QUARTER, LEVEL_ZERO};
use rusty_music::generate_chords;
use rusty_music::musicians::{draw_for_step, note_threshold, octave_clamped_shift, IntensityRoll, Note, TonalPlayer};

fn lv(x: f32) -> i32 {
    level_from_bits(x.to_bits())
}

fn test_beat(beat: u32, sixteenth: u32) -> Beat {
    Beat { beat, sixteenth, bar_count: 0, beat_count: beat, sixteenth_count: beat * 4 + sixteenth }
}

fn scale_notes() -> Vec<Note> {
    vec![Note::new(0, lv(1.0)), Note::new(2, lv(0.75)), Note::new(4, lv(0.5)), Note::new(7, lv(0.25))]
}

#[test]
fn get_note_returns_none_when_all_filtered() {
    assert!(TonalPlayer::get_note(&scale_notes(), lv(1.1)).is_none());
}

#[test]
fn get_note_includes_at_threshold() {
    let notes = vec![Note::new(0, lv(0.5))];
    assert!(TonalPlayer::get_note(&notes, lv(0.5)).is_some());
}

#[test]
fn get_note_excludes_below_threshold() {
    let notes = vec![Note::new(0, lv(0.4)), Note::new(2, lv(0.6))];
    for _ in 0..20 {
        let n = TonalPlayer::get_note(&notes, lv(0.5)).unwrap();
        assert_eq!(n.midi_note_diff, 2);
    }
}

#[test]
fn get_note_only_essential_at_zero_intensity() {
    for _ in 0..20 {
        let n = TonalPlayer::get_note(&scale_notes(), lv(1.0)).unwrap();
        assert_eq!(n.strength, lv(1.0));
    }
}

#[test]
fn mod_flat_step_downbeat_is_zero() {
    assert_eq!(TonalPlayer::flat_step(&test_beat(0, 0)), 0);
}

#[test]
fn flat_step_last_position_is_fifteen() {
    assert_eq!(TonalPlayer::flat_step(&test_beat(3, 3)), 15);
}

#[test]
fn mod_flat_step_quarter_positions() {
    assert_eq!(TonalPlayer::flat_step(&test_beat(1, 0)), 4);
    assert_eq!(TonalPlayer::flat_step(&test_beat(2, 0)), 8);
    assert_eq!(TonalPlayer::flat_step(&test_beat(3, 0)), 12);
}

#[test]
fn mod_flat_step_eighth_positions() {
    assert_eq!(TonalPlayer::flat_step(&test_beat(0, 2)), 2);
    assert_eq!(TonalPlayer::flat_step(&test_beat(1, 2)), 6);
}

#[test]
fn get_note_draws_every_strong_note() {
    let notes = scale_notes();
    let mut seen = [false; 3];
    for _ in 0..300 {
        let n = TonalPlayer::get_note(&notes, lv(0.5)).unwrap();
        assert!(n.strength >= lv(0.5));
        let k = [0, 2, 4].iter().position(|&d| d == n.midi_note_diff).unwrap();
        seen[k] = true;
    }
    assert!(seen.iter().all(|&s| s));
}

#[test]
fn pick_and_count_follow_the_strong_notes_in_order() {
    let notes = scale_notes();
    assert_eq!(TonalPlayer::count_strong(&notes, lv(0.5)), 3);
    assert_eq!(TonalPlayer::count_strong(&notes, lv(0.0)), 4);
    assert_eq!(TonalPlayer::count_strong(&notes, lv(1.1)), 0);
    assert_eq!(TonalPlayer::pick_note(&notes, lv(0.5), 2).unwrap().midi_note_diff, 4);
    assert_eq!(TonalPlayer::pick_note(&notes, lv(0.75), 1).unwrap().midi_note_diff, 2);
    assert!(TonalPlayer::pick_note(&notes, lv(0.5), 3).is_none());
}

#[test]
fn thresholds_by_position_in_the_bar() {
    let all = IntensityRoll { quarter: true, eighth: true, sixteenth: true };
    let none = IntensityRoll { quarter: false, eighth: false, sixteenth: false };
    assert_eq!(note_threshold(0, &none), Some(LEVEL_ONE));
    assert_eq!(note_threshold(8, &all), Some(LEVEL_HALF));
    assert_eq!(note_threshold(8, &none), None);
    assert_eq!(note_threshold(6, &all), Some(LEVEL_QUARTER));
    assert_eq!(note_threshold(6, &none), None);
    assert_eq!(note_threshold(7, &all), Some(LEVEL_ZERO));
    assert_eq!(note_threshold(7, &none), None);
    assert_eq!(LEVEL_HALF, lv(0.5));
    assert_eq!(LEVEL_QUARTER, lv(0.25));
    assert_eq!(LEVEL_ONE, lv(1.0));
}

#[test]
fn draw_for_step_respects_the_threshold() {
    let notes = scale_notes();
    let all = IntensityRoll { quarter: true, eighth: true, sixteenth: true };
    for _ in 0..20 {
        assert_eq!(draw_for_step(&notes, 0, &all).unwrap().midi_note_diff, 0);
        assert!(draw_for_step(&notes, 4, &all).unwrap().strength >= lv(0.5));
    }
}

#[test]
fn levels_order_like_the_numbers() {
    let values = [-1.0f32, -0.5, -0.0, 0.0, 0.1, 0.25, 0.3, 0.4, 0.5, 0.7, 0.75, 1.0, 2.0];
    for &a in &values {
        for &b in &values {
            assert_eq!(a <= b, lv(a) <= lv(b), "{a} {b}");
        }
    }
    assert_eq!(lv(-0.0), lv(0.0));
}

#[test]
fn shifts_are_held_within_an_octave() {
    assert_eq!(octave_clamped_shift(-30), -12);
    assert_eq!(octave_clamped_shift(-12), -12);
    assert_eq!(octave_clamped_shift(-5), -5);
    assert_eq!(octave_clamped_shift(0), 0);
    assert_eq!(octave_clamped_shift(7), 7);
    assert_eq!(octave_clamped_shift(13), 12);
}

#[test]
fn demo_progression_has_four_one_bar_chords() {
    let chords = generate_chords();
    assert_eq!(chords.len(), 4);
    let positions: Vec<i32> = chords.iter().map(|c| c.pos_bars).collect();
    assert_eq!(positions, vec![lv(0.0), lv(1.0), lv(2.0), lv(3.0)]);
    assert!(chords.iter().all(|c| c.scale_notes.len() == 15));
    assert_eq!(chords[0].chord_notes, chords[0].scale_notes);
    assert_eq!(chords[1].chord_notes.len(), 11);
    assert_eq!(chords[2].chord_notes.len(), 12);
    assert_eq!(chords[2].chord_notes[1], Note::new(2, lv(0.7)));
    assert_eq!(chords[0].scale_notes[1], Note::new(0, lv(0.2)));
    assert_eq!(chords[0].scale_notes[2], Note::new(2, lv(0.6)));
    assert_eq!(chords[3].chord_notes[14], Note::new(3, lv(0.1)));
}
