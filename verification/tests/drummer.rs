use rusty_music::clock::Beat;
use rusty_music::level::level_from_bits;
use rusty_music::musicians::drummer::{
    DrumKit, generate_hihat_beat, generate_kick_beat, generate_snare_beat, generate_snare_fill_beat, Drummer, Hit,
    SuperDrummer,
};
use rusty_music::musicians::Note;

fn lv(x: f32) -> i32 {
    level_from_bits(x.to_bits())
}

fn notes_at(map: &[Hit], beat: u32, six: u32) -> Vec<&Note> {
    map.iter().filter(|(k, _)| k.0 == beat && k.1 == six).map(|(_, v)| v).collect()
}

fn passes(note: &Note, intensity: f32) -> bool {
    note.strength >= lv(1.0 - intensity)
}

fn make_beat(beat: u32, sixteenth: u32, bar: u32) -> Beat {
    Beat { beat, sixteenth, bar_count: bar, beat_count: bar * 4 + beat, sixteenth_count: bar * 16 + beat * 4 + sixteenth }
}

#[test]
fn kick_downbeat_always_plays() {
    let kick = generate_kick_beat();
    let note = &notes_at(&kick, 0, 0)[0];
    assert!(passes(note, 0.0), "kick downbeat should play at zero intensity");
    assert!(passes(note, 1.0));
}

#[test]
fn kick_beat3_always_plays() {
    let kick = generate_kick_beat();
    let note = &notes_at(&kick, 2, 0)[0];
    assert!(passes(note, 0.0));
}

#[test]
fn kick_fill_only_at_high_intensity() {
    let kick = generate_kick_beat();
    let note = &notes_at(&kick, 3, 2)[0];
    assert!(!passes(note, 0.5), "fill should not play at 0.5 intensity");
    assert!(passes(note, 0.8));
}

#[test]
fn snare_backbeats_always_play() {
    let snare = generate_snare_beat();
    for (beat, six) in [(1u32, 0u32), (3, 0)] {
        let note = &notes_at(&snare, beat, six)[0];
        assert!(passes(note, 0.0), "snare on ({beat},{six}) should play at zero intensity");
    }
}

#[test]
fn snare_ghost_only_near_full_intensity() {
    let snare = generate_snare_beat();
    let note = &notes_at(&snare, 0, 2)[0];
    assert!(!passes(note, 0.8), "ghost should not play at 0.8");
    assert!(passes(note, 0.95));
}

#[test]
fn hihat_quarter_plays_at_low_intensity() {
    let hihat = generate_hihat_beat();
    let note = &notes_at(&hihat, 0, 0)[0];
    assert!(passes(note, 0.3));
}

#[test]
fn hihat_eighth_only_at_mid_intensity() {
    let hihat = generate_hihat_beat();
    let note = &notes_at(&hihat, 0, 2)[0];
    assert!(!passes(note, 0.4), "8th hat should not play below 0.5");
    assert!(passes(note, 0.5));
}

#[test]
fn fill_beat_has_four_hits_on_beat4() {
    let fill = generate_snare_fill_beat();
    for s in 0..4u32 {
        assert!(!notes_at(&fill, 3, s).is_empty(), "fill missing (3,{s})");
    }
    for b in 0..3u32 {
        assert!(notes_at(&fill, b, 0).is_empty());
    }
}

#[test]
fn half_time_gating_skips_odd_sixteenth_counts() {
    let gate = |intensity: f32, sixteenth_count: u32| -> bool { SuperDrummer::half_time_gate(lv(intensity), sixteenth_count) };
    assert!(gate(0.2, 1), "odd tick at low intensity should be gated");
    assert!(!gate(0.2, 0), "even tick should pass");
    assert!(!gate(0.5, 1), "normal intensity should not gate");
}

#[test]
fn drummer_plays_only_strong_enough_hits_at_the_position() {
    let kick = Drummer::new(generate_kick_beat());
    assert!(kick.play(&make_beat(0, 0, 0), lv(1.0)).is_some());
    assert!(kick.play(&make_beat(0, 1, 0), lv(0.0)).is_none());
    assert!(kick.play(&make_beat(3, 0, 0), lv(1.0 - 0.4)).is_none());
    assert!(kick.play(&make_beat(3, 0, 0), lv(1.0 - 0.6)).is_some());
}

#[test]
fn super_drummer_plays_fill_in_last_bar_of_group() {
    let kit = SuperDrummer::new(vec![Drummer::new(generate_kick_beat()), Drummer::new(generate_snare_beat())])
        .with_fills(4, vec![Drummer::new(generate_snare_fill_beat())]);
    assert!(!kit.is_fill_bar(2));
    assert!(kit.is_fill_bar(3));
    let regular = kit.play(&make_beat(3, 0, 2), lv(1.0), lv(0.0));
    assert_eq!(regular.kit, DrumKit::Regular);
    assert_eq!(regular.hits.len(), 2);
    assert!(regular.hits[0].is_some() && regular.hits[1].is_some());
    let fill = kit.play(&make_beat(3, 1, 3), lv(1.0), lv(0.0));
    assert_eq!(fill.kit, DrumKit::Fill);
    assert_eq!(fill.hits.len(), 1);
    assert!(fill.hits[0].is_some());
}

#[test]
fn super_drummer_half_time_skips_the_whole_kit() {
    let kit = SuperDrummer::new(vec![Drummer::new(generate_hihat_beat())]);
    let skipped = kit.play(&make_beat(0, 1, 0), lv(0.2), lv(0.8));
    assert!(skipped.hits.is_empty());
    let played = kit.play(&make_beat(0, 0, 0), lv(0.2), lv(0.8));
    assert_eq!(played.hits.len(), 1);
    assert!(played.hits[0].is_none());
    let loud = kit.play(&make_beat(0, 0, 0), lv(0.3), lv(0.7));
    assert!(loud.hits[0].is_some());
}

#[test]
fn fills_disabled_without_fill_kit() {
    let kit = SuperDrummer::new(vec![Drummer::new(generate_kick_beat())]);
    assert!(!kit.is_fill_bar(3));
    let with_empty = SuperDrummer::new(vec![]).with_fills(4, vec![]);
    assert!(!with_empty.is_fill_bar(3));
}

#[test]
fn auto_time_feel_swaps_the_kit_by_intensity() {
    let mut kit = SuperDrummer::new(vec![Drummer::new(generate_kick_beat())]);
    kit.auto_time_feel = true;
    kit.half_time_drums = vec![Drummer::new(generate_snare_beat())];
    kit.double_time_drums = vec![Drummer::new(generate_hihat_beat()), Drummer::new(generate_kick_beat())];
    let kit = kit.with_fills(4, vec![Drummer::new(generate_snare_fill_beat())]);
    let at = |intensity: f32, bar: u32| kit.play(&make_beat(0, 0, bar), lv(intensity), lv(1.0 - intensity)).kit;
    assert_eq!(at(0.32, 0), DrumKit::HalfTime);
    assert_eq!(at(0.33, 0), DrumKit::Regular);
    assert_eq!(at(0.66, 0), DrumKit::Regular);
    assert_eq!(at(0.67, 0), DrumKit::DoubleTime);
    assert_eq!(at(1.0, 3), DrumKit::Fill);
    assert_eq!(kit.play(&make_beat(0, 0, 0), lv(0.9), lv(0.1)).hits.len(), 2);
    let mut off = SuperDrummer::new(vec![Drummer::new(generate_kick_beat())]);
    off.half_time_drums = vec![Drummer::new(generate_snare_beat())];
    assert_eq!(off.play(&make_beat(0, 0, 0), lv(0.1), lv(0.9)).kit, DrumKit::Regular);
}

#[test]
fn patterns_hold_one_note_per_position() {
    assert!(Drummer::positions_distinct(&generate_kick_beat()));
    assert!(Drummer::positions_distinct(&generate_hihat_beat()));
    assert!(Drummer::positions_distinct(&vec![]));
    let twice = vec![((0, 0), Note::new(0, lv(1.0))), ((1, 0), Note::new(0, lv(1.0))), ((0, 0), Note::new(2, lv(0.5)))];
    assert!(!Drummer::positions_distinct(&twice));
}
