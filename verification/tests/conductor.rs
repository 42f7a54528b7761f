use rusty_music::level::level_from_bits;
use rusty_music::musicians::conductor::Conductor;
use rusty_music::musicians::{Chord, Note};

fn lv(x: f32) -> i32 {
    level_from_bits(x.to_bits())
}

/// A conductor together with the length of its progression in bars.
struct Progression {
    conductor: Conductor,
    chord_length_bars: f32,
}

impl Progression {
    fn current_chord(&self, time_bars: f32) -> &Chord {
        let pos = time_bars % self.chord_length_bars;
        let position = if pos.is_nan() { None } else { Some(lv(pos)) };
        self.conductor.current_chord(position)
    }
}

fn make_conductor() -> Progression {
    Progression {
        conductor: Conductor::new(vec![
            Chord::new(lv(0.0), vec![Note::new(0, lv(1.0))], vec![]),
            Chord::new(lv(1.0), vec![Note::new(2, lv(1.0))], vec![]),
            Chord::new(lv(2.0), vec![Note::new(4, lv(1.0))], vec![]),
            Chord::new(lv(3.0), vec![Note::new(7, lv(1.0))], vec![]),
        ]),
        chord_length_bars: 4.0,
    }
}

#[test]
fn current_chord_at_bar_zero() {
    let c = make_conductor();
    assert_eq!(c.current_chord(0.0).chord_notes[0].midi_note_diff, 0);
}

#[test]
fn current_chord_mid_bar() {
    let c = make_conductor();
    assert_eq!(c.current_chord(0.5).chord_notes[0].midi_note_diff, 0);
}

#[test]
fn current_chord_at_bar_boundary() {
    let c = make_conductor();
    assert_eq!(c.current_chord(1.0).chord_notes[0].midi_note_diff, 2);
    assert_eq!(c.current_chord(2.0).chord_notes[0].midi_note_diff, 4);
    assert_eq!(c.current_chord(3.0).chord_notes[0].midi_note_diff, 7);
}

#[test]
fn current_chord_wraps_at_chord_length() {
    let c = make_conductor();
    assert_eq!(c.current_chord(4.0).chord_notes[0].midi_note_diff, c.current_chord(0.0).chord_notes[0].midi_note_diff);
    assert_eq!(c.current_chord(5.5).chord_notes[0].midi_note_diff, c.current_chord(1.5).chord_notes[0].midi_note_diff);
}

#[test]
fn current_chord_handles_fractional_pos_bars() {
    let c = Progression {
        conductor: Conductor::new(vec![
            Chord::new(lv(0.0), vec![Note::new(0, lv(1.0))], vec![]),
            Chord::new(lv(0.5), vec![Note::new(5, lv(1.0))], vec![]),
        ]),
        chord_length_bars: 1.0,
    };
    assert_eq!(c.current_chord(0.25).chord_notes[0].midi_note_diff, 0);
    assert_eq!(c.current_chord(0.5).chord_notes[0].midi_note_diff, 5);
    assert_eq!(c.current_chord(0.75).chord_notes[0].midi_note_diff, 5);
}

#[test]
fn current_chord_index_walks_back_to_the_last_started_chord() {
    let c = make_conductor().conductor;
    assert_eq!(c.current_chord_index(Some(lv(2.5))), 2);
    assert_eq!(c.current_chord_index(Some(lv(3.99))), 3);
    assert_eq!(c.current_chord_index(Some(lv(-0.0))), 0);
}

#[test]
fn current_chord_falls_back_to_the_first_chord() {
    let c = Conductor::new(vec![
        Chord::new(lv(1.0), vec![Note::new(2, lv(1.0))], vec![]),
        Chord::new(lv(2.0), vec![Note::new(4, lv(1.0))], vec![]),
    ]);
    assert_eq!(c.current_chord_index(Some(lv(0.5))), 0);
    assert_eq!(c.current_chord_index(Some(lv(-1.0))), 0);
    assert_eq!(c.current_chord_index(None), 0);
    assert_eq!(c.current_chord(None).chord_notes[0].midi_note_diff, 2);
}
