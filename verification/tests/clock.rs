use rusty_music::clock::{Beat, BeatCounter};

#[test]
fn beat_advances_after_four_sixteenths() {
    let mut c = BeatCounter::new();
    for _ in 0..4 {
        c.tick(4);
    }
    assert_eq!(c.beat, 1);
    assert_eq!(c.sixteenth, 0);
    assert_eq!(c.beat_count, 1);
}

#[test]
fn bar_advances_after_sixteen_sixteenths() {
    let mut c = BeatCounter::new();
    for _ in 0..16 {
        c.tick(4);
    }
    assert_eq!(c.bar_count, 1);
    assert_eq!(c.beat, 0);
    assert_eq!(c.sixteenth, 0);
    assert_eq!(c.beat_count, 4);
    assert_eq!(c.sixteenth_count, 16);
}

#[test]
fn sixteenth_count_is_monotonically_increasing() {
    let mut c = BeatCounter::new();
    let mut last = 0u32;
    for _ in 0..20 {
        c.tick(4);
        assert!(c.sixteenth_count > last);
        last = c.sixteenth_count;
    }
}

#[test]
fn counter_position_moves_one_sixteenth_per_tick() {
    for beats in [3u32, 4, 7] {
        let mut c = BeatCounter::new();
        for n in 1..100u32 {
            c.tick(beats);
            assert!(c.sixteenth < beats && c.beat < beats);
            assert_eq!((c.bar_count * beats + c.beat) * beats + c.sixteenth, n);
        }
    }
}

#[test]
fn counter_refuses_a_tick_that_overflows() {
    let mut c = BeatCounter::new();
    assert!(c.can_tick(4));
    c.sixteenth_count = u32::MAX;
    assert!(!c.can_tick(4));
    let mut d = BeatCounter::new();
    d.sixteenth = 3;
    d.beat = 3;
    d.bar_count = u32::MAX;
    assert!(!d.can_tick(4));
    d.sixteenth = 0;
    assert!(d.can_tick(4));
}

#[test]
fn beat_event_copies_the_counters() {
    let mut c = BeatCounter::new();
    for _ in 0..21 {
        c.tick(4);
    }
    assert_eq!(c.to_beat(), Beat::new(1, 1, 1, 5, 21));
}

#[test]
fn ceil_bar_rounds_up_off_the_downbeat() {
    assert_eq!(Beat::new(0, 0, 3, 12, 48).ceil_bar(), 3);
    assert_eq!(Beat::new(0, 1, 3, 12, 49).ceil_bar(), 4);
    assert_eq!(Beat::new(3, 3, 3, 15, 63).ceil_bar(), 4);
}

#[test]
fn counters_after_n_ticks_follow_division() {
    for beats in [3u32, 4] {
        let mut c = BeatCounter::new();
        for n in 1..=200u32 {
            c.tick(beats);
            assert_eq!(c.sixteenth_count, n);
            assert_eq!(c.sixteenth, n % beats);
            assert_eq!(c.beat, (n / beats) % beats);
            assert_eq!(c.beat_count, n / beats);
            assert_eq!(c.bar_count, n / (beats * beats));
        }
    }
}
