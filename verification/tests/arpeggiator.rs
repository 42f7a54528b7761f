use rusty_music::clock::Beat;
use rusty_music::level::level_from_bits;
use rusty_music::musicians::arpeggiator::{ArpeggioMode, Arpeggiator};
use rusty_music::musicians::{Chord, Note};

fn lv(x: f32) -> i32 {
    level_from_bits(x.to_bits())
}

fn wait_for(intensity: f32) -> u32 {
    Arpeggiator::wait_ticks(lv(intensity))
}

fn tick(sixteenth_count: u32) -> Beat {
    Beat::new((sixteenth_count / 4) % 4, sixteenth_count % 4, sixteenth_count / 16, sixteenth_count / 4, sixteenth_count)
}

fn triad() -> Chord {
    Chord::new(0, vec![Note::new(0, lv(1.0)), Note::new(4, lv(1.0)), Note::new(7, lv(1.0))], vec![])
}

#[test]
fn low_intensity_plays_every_4_ticks() {
    assert_eq!(wait_for(0.0), 4);
    assert_eq!(wait_for(0.39), 4);
}

#[test]
fn mid_intensity_plays_every_2_ticks() {
    assert_eq!(wait_for(0.4), 2);
    assert_eq!(wait_for(0.69), 2);
}

#[test]
fn high_intensity_plays_every_tick() {
    assert_eq!(wait_for(0.7), 1);
    assert_eq!(wait_for(1.0), 1);
}

#[test]
fn wait_is_monotonically_decreasing_with_intensity() {
    assert!(wait_for(0.0) > wait_for(0.5));
    assert!(wait_for(0.5) > wait_for(1.0));
}

#[test]
fn next_sixteenth_advances_by_wait() {
    let wait: u32 = wait_for(0.5);
    let mut next_sixteenth: u32 = 0;
    let current: u32 = 5;
    if current >= next_sixteenth {
        next_sixteenth = current + wait;
    }
    assert_eq!(next_sixteenth, 7);
}

#[test]
fn does_not_fire_before_next_sixteenth() {
    let _wait = wait_for(0.5);
    let next_sixteenth: u32 = 10;
    assert!(9 < next_sixteenth);
    assert!(10 >= next_sixteenth);
}

#[test]
fn arpeggiator_schedules_next_note_after_wait() {
    let mut arp = Arpeggiator::new();
    let chord = triad();
    assert!(arp.play(&tick(5), lv(0.5), &chord).is_some());
    assert_eq!(arp.next_sixteenth, 7);
    assert!(arp.play(&tick(6), lv(0.5), &chord).is_none());
    assert_eq!(arp.next_sixteenth, 7);
    assert!(arp.play(&tick(7), lv(0.5), &chord).is_some());
    assert_eq!(arp.next_sixteenth, 9);
}

#[test]
fn arpeggiator_walks_up_the_chord() {
    let mut arp = Arpeggiator::new();
    arp.arpeggio_mode = ArpeggioMode::Up;
    let chord = triad();
    let mut diffs = Vec::new();
    for t in 0..4u32 {
        diffs.push(arp.play(&tick(t), lv(1.0), &chord).unwrap().midi_note_diff);
    }
    assert_eq!(diffs, vec![4, 7, 0, 4]);
}

#[test]
fn arpeggiator_walks_down_the_chord() {
    let mut arp = Arpeggiator::new();
    arp.arpeggio_mode = ArpeggioMode::Down;
    let chord = triad();
    let mut diffs = Vec::new();
    for t in 0..4u32 {
        diffs.push(arp.play(&tick(t), lv(1.0), &chord).unwrap().midi_note_diff);
    }
    assert_eq!(diffs, vec![4, 0, 7, 4]);
}

#[test]
fn arpeggiator_random_mode_stays_on_chord_tones() {
    let mut arp = Arpeggiator::new();
    arp.arpeggio_mode = ArpeggioMode::Random;
    let chord = triad();
    for t in 0..200u32 {
        let n = arp.play(&tick(t), lv(1.0), &chord).unwrap();
        assert!([0, 4, 7].contains(&n.midi_note_diff));
        assert_eq!(arp.some_index, 0);
    }
}

#[test]
fn arpeggiator_random_mode_uses_the_roll() {
    let mut arp = Arpeggiator::new();
    arp.arpeggio_mode = ArpeggioMode::Random;
    let chord = triad();
    assert_eq!(arp.advance(&tick(0), lv(1.0), &chord, 2).unwrap().midi_note_diff, 7);
    assert_eq!(arp.advance(&tick(1), lv(1.0), &chord, 0).unwrap().midi_note_diff, 0);
}

#[test]
fn arpeggiator_empty_chord_only_reschedules() {
    let mut arp = Arpeggiator::new();
    let chord = Chord::new(0, vec![], vec![]);
    assert!(arp.play(&tick(3), lv(0.0), &chord).is_none());
    assert_eq!(arp.next_sixteenth, 7);
    assert_eq!(arp.some_index, 0);
}

#[test]
fn arpeggiator_can_play_checks_counters() {
    let arp = Arpeggiator::new();
    let chord = triad();
    assert!(arp.can_play(&tick(3), lv(0.0), &chord));
    assert!(!arp.can_play(&tick(u32::MAX - 1), lv(0.0), &chord));
    assert!(arp.can_play(&tick(u32::MAX), lv(1.0), &chord) == false);
    let mut waiting = Arpeggiator::new();
    waiting.next_sixteenth = u32::MAX;
    assert!(waiting.can_play(&tick(u32::MAX - 1), lv(0.0), &chord));
}

fn four_tones() -> Chord {
    Chord::new(0, vec![Note::new(0, lv(1.0)), Note::new(4, lv(1.0)), Note::new(7, lv(1.0)), Note::new(11, lv(1.0))], vec![])
}

#[test]
fn new_arpeggiator_defaults_to_auto() {
    let arp = Arpeggiator::new();
    assert_eq!(arp.arpeggio_mode, ArpeggioMode::Auto);
    assert_eq!(arp.some_index, 0);
    assert_eq!(arp.next_sixteenth, 0);
    assert!(!arp.use_scale_runs);
}

#[test]
fn auto_mode_picks_the_order_by_intensity() {
    assert_eq!(Arpeggiator::mode_for(ArpeggioMode::Auto, lv(0.0)), ArpeggioMode::Up);
    assert_eq!(Arpeggiator::mode_for(ArpeggioMode::Auto, lv(0.39)), ArpeggioMode::Up);
    assert_eq!(Arpeggiator::mode_for(ArpeggioMode::Auto, lv(0.4)), ArpeggioMode::PingPong);
    assert_eq!(Arpeggiator::mode_for(ArpeggioMode::Auto, lv(0.69)), ArpeggioMode::PingPong);
    assert_eq!(Arpeggiator::mode_for(ArpeggioMode::Auto, lv(0.7)), ArpeggioMode::Random);
    assert_eq!(Arpeggiator::mode_for(ArpeggioMode::Down, lv(1.0)), ArpeggioMode::Down);
    let mut arp = Arpeggiator::new();
    let chord = four_tones();
    let mut diffs = Vec::new();
    for t in 0..4u32 {
        diffs.push(arp.play(&tick(t * 4), lv(0.0), &chord).unwrap().midi_note_diff);
    }
    assert_eq!(diffs, vec![4, 7, 11, 0]);
}

#[test]
fn ping_pong_goes_up_and_back_down() {
    let mut arp = Arpeggiator::new();
    arp.arpeggio_mode = ArpeggioMode::PingPong;
    let chord = four_tones();
    let mut diffs = Vec::new();
    for t in 0..8u32 {
        diffs.push(arp.play(&tick(t), lv(1.0), &chord).unwrap().midi_note_diff);
    }
    assert_eq!(diffs, vec![4, 7, 11, 7, 4, 0, 4, 7]);
    let mut auto = Arpeggiator::new();
    let played: Vec<i32> = (0..6u32).map(|t| auto.play(&tick(t * 2), lv(0.5), &chord).unwrap().midi_note_diff).collect();
    assert_eq!(played, vec![4, 7, 11, 7, 4, 0]);
}

#[test]
fn scale_runs_fill_the_off_sixteenths_at_high_intensity() {
    let mut arp = Arpeggiator::new();
    arp.arpeggio_mode = ArpeggioMode::Up;
    arp.use_scale_runs = true;
    let chord = Chord::new(0, vec![Note::new(0, lv(1.0)), Note::new(4, lv(1.0))], vec![Note::new(2, lv(0.5)), Note::new(5, lv(0.5)), Note::new(9, lv(0.5))]);
    let diffs: Vec<i32> = (0..6u32).map(|t| arp.play(&tick(t), lv(0.8), &chord).unwrap().midi_note_diff).collect();
    assert_eq!(diffs, vec![4, 5, 0, 9, 4, 2]);
    let mut calm = Arpeggiator::new();
    calm.arpeggio_mode = ArpeggioMode::Up;
    calm.use_scale_runs = true;
    assert_eq!(calm.play(&tick(1), lv(0.5), &chord).unwrap().midi_note_diff, 4);
}
