use rusty_music::clock::Beat;
use rusty_music::level::level_from_bits;
use rusty_music::musicians::soloist::{AabaPhase, Soloist};
use rusty_music::musicians::{Chord, IntensityRoll, Note, STEPS_PER_BAR};

fn lv(x: f32) -> i32 {
    level_from_bits(x.to_bits())
}

fn make_beat(beat: u32, sixteenth: u32, bar: u32) -> Beat {
    Beat {
        beat,
        sixteenth,
        bar_count: bar,
        beat_count: bar * 4 + beat,
        sixteenth_count: bar * 16 + beat * 4 + sixteenth,
    }
}

fn make_soloist(record_bars: u32) -> Soloist {
    Soloist::new(record_bars)
}

/// The draws of `random::<f32>() < threshold` for every tier with one random
/// number `r`.
fn roll(r: f32, intensity: f32) -> IntensityRoll {
    IntensityRoll { quarter: r < intensity, eighth: r < intensity - 0.25, sixteenth: r < intensity - 0.5 }
}

#[test]
fn recording_index_downbeat_bar0() {
    assert_eq!(Soloist::recording_index(&make_beat(0, 0, 0), 2), 0);
}

#[test]
fn recording_index_last_step_bar0() {
    assert_eq!(Soloist::recording_index(&make_beat(3, 3, 0), 2), 15);
}

#[test]
fn recording_index_bar1() {
    assert_eq!(Soloist::recording_index(&make_beat(0, 0, 1), 2), 16);
}

#[test]
fn recording_index_last_step_bar1() {
    assert_eq!(Soloist::recording_index(&make_beat(3, 3, 1), 2), 31);
}

#[test]
fn recording_index_wraps_at_record_bars() {
    let beat_bar2 = make_beat(0, 0, 2);
    let beat_bar0 = make_beat(0, 0, 0);
    assert_eq!(Soloist::recording_index(&beat_bar2, 2), Soloist::recording_index(&beat_bar0, 2));
}

#[test]
fn soloist_starts_in_record_a_phase() {
    let s = make_soloist(2);
    assert_eq!(s.phase(), AabaPhase::RecordA);
    assert_eq!(s.section_end_bar(), 0);
}

#[test]
fn both_melodies_pre_allocated_as_none() {
    let s = make_soloist(2);
    assert_eq!(s.melody_a().len(), 32);
    assert_eq!(s.melody_b().len(), 32);
    assert!(s.melody_a().iter().all(|n| n.is_none()));
    assert!(s.melody_b().iter().all(|n| n.is_none()));
}

#[test]
fn total_recording_steps_equals_record_bars_times_steps_per_bar() {
    let s = make_soloist(4);
    assert_eq!(s.melody_a().len(), 4 * STEPS_PER_BAR as usize);
    assert_eq!(s.melody_b().len(), 4 * STEPS_PER_BAR as usize);
}

#[test]
fn aaba_phase_sequence() {
    let mut phase = AabaPhase::RecordA;
    let expected = [AabaPhase::PlayA1, AabaPhase::PlayA2, AabaPhase::RecordB, AabaPhase::PlayA3, AabaPhase::RecordA];
    for &next in &expected {
        phase = phase.next();
        assert_eq!(phase, next);
    }
}

#[test]
fn recording_phases_are_record_a_and_record_b() {
    assert!(AabaPhase::RecordA.is_recording());
    assert!(AabaPhase::RecordB.is_recording());
    assert!(!AabaPhase::PlayA1.is_recording());
    assert!(!AabaPhase::PlayA2.is_recording());
    assert!(!AabaPhase::PlayA3.is_recording());
}

#[test]
fn generate_note_downbeat_always_returns_scale_note_when_available() {
    let chord = Chord::new(lv(0.0), vec![], vec![Note::new(0, lv(1.0)), Note::new(2, lv(0.5))]);
    for _ in 0..10 {
        let r: f32 = rand::random();
        assert!(Soloist::generate_note(0, &chord, &roll(r, 0.0)).is_some());
    }
}

#[test]
fn generate_note_16th_never_plays_at_half_intensity() {
    let chord = Chord::new(lv(0.0), vec![], vec![Note::new(0, lv(0.0))]);
    let fires: Vec<bool> = (0..50)
        .map(|_| {
            let r: f32 = rand::random();
            Soloist::generate_note(1, &chord, &roll(r, 0.5)).is_some()
        })
        .collect();
    assert!(fires.iter().all(|&f| !f));
}

#[test]
fn generate_note_quarter_never_plays_at_zero_intensity() {
    let chord = Chord::new(lv(0.0), vec![], vec![Note::new(0, lv(0.5))]);
    let fires: Vec<bool> = (0..50)
        .map(|_| {
            let r: f32 = rand::random();
            Soloist::generate_note(4, &chord, &roll(r, 0.0)).is_some()
        })
        .collect();
    assert!(fires.iter().all(|&f| !f));
}

#[test]
fn generate_note_downbeat_takes_only_essential_notes() {
    let chord = Chord::new(lv(0.0), vec![], vec![Note::new(0, lv(1.0)), Note::new(2, lv(0.5))]);
    for _ in 0..20 {
        let n = Soloist::generate_note(0, &chord, &roll(0.0, 1.0)).unwrap();
        assert_eq!(n.midi_note_diff, 0);
    }
}

#[test]
fn generate_note_follows_the_rolls() {
    let chord = Chord::new(lv(0.0), vec![], vec![Note::new(0, lv(1.0)), Note::new(5, lv(0.0))]);
    let all = IntensityRoll { quarter: true, eighth: true, sixteenth: true };
    let none = IntensityRoll { quarter: false, eighth: false, sixteenth: false };
    assert!(Soloist::generate_note(4, &chord, &all).is_some());
    assert!(Soloist::generate_note(4, &chord, &none).is_none());
    assert!(Soloist::generate_note(2, &chord, &none).is_none());
    assert!(Soloist::generate_note(3, &chord, &none).is_none());
    assert!(Soloist::generate_note(3, &chord, &all).is_some());
}

/// Plays one bar-cycle of `record_bars` bars starting at `first_bar`, always
/// generating `note` while recording, and returns what sounded.
fn play_section(s: &mut Soloist, first_bar: u32, note: Option<Note>) -> Vec<Option<Note>> {
    let mut played = Vec::new();
    for bar in first_bar..first_bar + s.record_bars() {
        for beat in 0..4 {
            for six in 0..4 {
                let b = make_beat(beat, six, bar);
                let generated = if s.phase_for(&b).is_recording() { note } else { None };
                played.push(s.advance(&b, generated));
            }
        }
    }
    played
}

#[test]
fn soloist_moves_through_aaba_and_replays_melody_a() {
    let mut s = make_soloist(1);
    let a = Some(Note::new(3, lv(1.0)));
    let b = Some(Note::new(9, lv(1.0)));
    // Section 1 records A.
    let first = play_section(&mut s, 0, a);
    assert!(first.iter().all(|n| *n == a));
    assert_eq!(s.phase(), AabaPhase::RecordA);
    assert_eq!(s.section_end_bar(), 1);
    // Sections 2 and 3 replay A whatever is generated.
    assert!(play_section(&mut s, 1, b).iter().all(|n| *n == a));
    assert_eq!(s.phase(), AabaPhase::PlayA1);
    assert!(play_section(&mut s, 2, b).iter().all(|n| *n == a));
    assert_eq!(s.phase(), AabaPhase::PlayA2);
    // Section 4 records B.
    assert!(play_section(&mut s, 3, b).iter().all(|n| *n == b));
    assert_eq!(s.phase(), AabaPhase::RecordB);
    assert!(s.melody_b().iter().all(|n| *n == b));
    // Section 5 replays A again, then the form starts over with a fresh A.
    assert!(play_section(&mut s, 4, b).iter().all(|n| *n == a));
    assert_eq!(s.phase(), AabaPhase::PlayA3);
    let next = play_section(&mut s, 5, None);
    assert_eq!(s.phase(), AabaPhase::RecordA);
    assert!(next.iter().all(|n| n.is_none()));
    assert!(s.melody_a().iter().all(|n| n.is_none()));
}

#[test]
fn soloist_play_records_generated_notes() {
    let mut s = make_soloist(1);
    let chord = Chord::new(lv(0.0), vec![], vec![Note::new(0, lv(1.0))]);
    let all = IntensityRoll { quarter: true, eighth: true, sixteenth: true };
    let played = s.play(&make_beat(0, 0, 0), &chord, &all);
    assert_eq!(played, Some(Note::new(0, lv(1.0))));
    assert_eq!(s.melody_a()[0], played);
}

#[test]
fn soloist_can_play_only_on_a_slot_of_its_melody() {
    let s = make_soloist(2);
    assert!(s.can_play(&make_beat(3, 3, 7)));
    assert!(s.can_play(&make_beat(4, 0, 0)));
    assert!(!s.can_play(&make_beat(4, 0, 1)));
    assert!(!s.can_play(&make_beat(0, 16, 1)));
    assert!(!make_soloist(0).can_play(&make_beat(0, 0, 0)));
}
