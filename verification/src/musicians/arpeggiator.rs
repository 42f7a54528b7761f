//! The arpeggiator: walks through the chord tones one at a time, faster as
//! the intensity rises, in an order that can follow the intensity too, and
//! can weave runs up the scale in between at high intensity.
use vstd::prelude::*;
use crate::clock::Beat;
use crate::level::{LEVEL_FOUR_TENTHS, LEVEL_SEVEN_TENTHS};
use crate::musicians::{Chord, Note};
use crate::rng::random_below;

verus! {

/// The order in which the chord tones are played. `PingPong` goes up and
/// back down (0, 1, 2, 3, 2, 1, 0, 1, ...); `Auto`, the default, picks up,
/// ping-pong or random by intensity (see [`mode_at`]).
#[derive(Clone, Copy, PartialEq, Eq, Debug, Structural)]
pub enum ArpeggioMode {
    Up,
    Down,
    PingPong,
    Random,
    Auto,
}

/// Ticks (16ths) between notes at an intensity level: quarter notes below
/// 0.4, eighths below 0.7, sixteenths from 0.7 up.
pub open spec fn wait_for(intensity: int) -> u32 {
    if intensity < LEVEL_FOUR_TENTHS {
        4
    } else if intensity < LEVEL_SEVEN_TENTHS {
        2
    } else {
        1
    }
}

/// The order followed at an intensity level: the mode itself, or for `Auto`
/// up below 0.4, ping-pong below 0.7 and random from 0.7 up.
pub open spec fn mode_at(mode: ArpeggioMode, intensity: int) -> ArpeggioMode {
    match mode {
        ArpeggioMode::Auto => if intensity < LEVEL_FOUR_TENTHS {
            ArpeggioMode::Up
        } else if intensity < LEVEL_SEVEN_TENTHS {
            ArpeggioMode::PingPong
        } else {
            ArpeggioMode::Random
        },
        _ => mode,
    }
}

/// The number of chord tones as a `u32` (the count taken modulo 2^32).
pub open spec fn tone_count(chord: Chord) -> int {
    chord.chord_notes@.len() as int % 0x1_0000_0000
}

/// The number of scale tones as a `u32` (the count taken modulo 2^32).
pub open spec fn scale_count(chord: Chord) -> int {
    chord.scale_notes@.len() as int % 0x1_0000_0000
}

/// The length of one ping-pong round over `len` tones: up and back down,
/// without repeating the top and bottom tones.
pub open spec fn ping_pong_period(len: int) -> int {
    if len > 1 { 2 * len - 2 } else { 1 }
}

/// The tone at `position` of a ping-pong round over `len` tones.
pub open spec fn ping_pong_tone(position: int, len: int) -> int {
    if position < len { position } else { ping_pong_period(len) - position }
}

pub struct Arpeggiator {
    pub arpeggio_mode: ArpeggioMode,
    pub some_index: u32,
    /// The sixteenth_count at which the next note should fire.
    pub next_sixteenth: u32,
    /// Weave runs up the scale into the arpeggio at high intensity.
    pub use_scale_runs: bool,
    /// The position of the scale run.
    pub scale_index: u32,
}

impl Arpeggiator {
    /// An arpeggiator in the default `Auto` mode, due to fire on the first
    /// beat, without scale runs.
    pub fn new() -> (a: Arpeggiator)
        ensures
            a.arpeggio_mode == ArpeggioMode::Auto,
            a.some_index == 0,
            a.next_sixteenth == 0,
            !a.use_scale_runs,
            a.scale_index == 0,
    {
        Arpeggiator {
            arpeggio_mode: ArpeggioMode::Auto,
            some_index: 0,
            next_sixteenth: 0,
            use_scale_runs: false,
            scale_index: 0,
        }
    }

    /// Ticks to wait between notes at `intensity` (a level): higher intensity,
    /// more frequent notes.
    pub fn wait_ticks(intensity: i32) -> (wait: u32)
        ensures
            wait == wait_for(intensity as int),
    {
        if intensity < LEVEL_FOUR_TENTHS {
            4
        } else if intensity < LEVEL_SEVEN_TENTHS {
            2
        } else {
            1
        }
    }

    /// The order followed at `intensity` (computes [`mode_at`]).
    pub fn mode_for(mode: ArpeggioMode, intensity: i32) -> (m: ArpeggioMode)
        ensures
            m == mode_at(mode, intensity as int),
    {
        match mode {
            ArpeggioMode::Auto => if intensity < LEVEL_FOUR_TENTHS {
                ArpeggioMode::Up
            } else if intensity < LEVEL_SEVEN_TENTHS {
                ArpeggioMode::PingPong
            } else {
                ArpeggioMode::Random
            },
            _ => mode,
        }
    }

    /// Whether a note fires on `beat`: not before `next_sixteenth`.
    pub open spec fn fires(&self, beat: Beat) -> bool {
        beat.sixteenth_count >= self.next_sixteenth
    }

    /// Whether the note of `beat` is a scale run: runs are on, the intensity
    /// is at least 0.7, the beat falls between the 8ths (an odd 16th) and the
    /// chord has scale tones.
    pub open spec fn scale_run(&self, beat: Beat, intensity: int, chord: Chord) -> bool {
        &&& self.use_scale_runs
        &&& intensity >= LEVEL_SEVEN_TENTHS
        &&& beat.sixteenth % 2 == 1
        &&& scale_count(chord) > 0
    }

    /// Computes [`Arpeggiator::scale_run`].
    fn is_scale_run(&self, beat: &Beat, intensity: i32, chord: &Chord) -> (b: bool)
        ensures
            b == self.scale_run(*beat, intensity as int, *chord),
    {
        self.use_scale_runs && intensity >= LEVEL_SEVEN_TENTHS && beat.sixteenth % 2 == 1
            && chord.scale_notes.len() as u64 % 0x1_0000_0000 > 0
    }

    /// What playing `beat` requires so that no counter overflows.
    pub open spec fn playable(&self, beat: Beat, intensity: int, chord: Chord) -> bool {
        self.fires(beat) ==> {
            &&& beat.sixteenth_count + wait_for(intensity) <= u32::MAX
            &&& self.scale_run(beat, intensity, chord) ==> self.scale_index < u32::MAX
            &&& (!self.scale_run(beat, intensity, chord) && tone_count(chord) > 0
                && mode_at(self.arpeggio_mode, intensity) != ArpeggioMode::Random)
                ==> self.some_index < u32::MAX
        }
    }

    /// Whether playing `beat` keeps every counter in range (computes
    /// [`Arpeggiator::playable`]).
    pub fn can_play(&self, beat: &Beat, intensity: i32, chord: &Chord) -> (b: bool)
        ensures
            b == self.playable(*beat, intensity as int, *chord),
    {
        if beat.sixteenth_count < self.next_sixteenth {
            return true;
        }
        let wait = Self::wait_ticks(intensity);
        if beat.sixteenth_count as u64 + wait as u64 > u32::MAX as u64 {
            return false;
        }
        if self.is_scale_run(beat, intensity, chord) {
            return self.scale_index < u32::MAX;
        }
        let len = chord.chord_notes.len() as u64 % 0x1_0000_0000;
        len == 0 || Self::mode_for(self.arpeggio_mode, intensity) == ArpeggioMode::Random
            || self.some_index < u32::MAX
    }

    /// `post` is the arpeggiator after playing `beat`, where `roll` is the
    /// random tone index used when the order is random, and `played` the
    /// note sounded.
    pub open spec fn stepped(&self, post: Arpeggiator, beat: Beat, intensity: int, chord: Chord, roll: u32, played: Option<Note>) -> bool {
        let len = tone_count(chord);
        let next_index = ((self.some_index + 1) % len) as u32;
        let next_position = ((self.some_index + 1) % ping_pong_period(len)) as u32;
        let next_scale = ((self.scale_index + 1) % scale_count(chord)) as u32;
        if !self.fires(beat) {
            post == *self && played is None
        } else {
            &&& post.arpeggio_mode == self.arpeggio_mode
            &&& post.use_scale_runs == self.use_scale_runs
            &&& post.next_sixteenth == beat.sixteenth_count + wait_for(intensity)
            &&& if self.scale_run(beat, intensity, chord) {
                &&& post.some_index == self.some_index
                &&& post.scale_index == next_scale
                &&& played == Some(chord.scale_notes@[next_scale as int])
            } else {
                &&& post.scale_index == self.scale_index
                &&& if len == 0 {
                    post.some_index == self.some_index && played is None
                } else {
                    match mode_at(self.arpeggio_mode, intensity) {
                        ArpeggioMode::Up => post.some_index == next_index
                            && played == Some(chord.chord_notes@[next_index as int]),
                        ArpeggioMode::Down => post.some_index == next_index
                            && played == Some(chord.chord_notes@[len - (next_index + 1)]),
                        ArpeggioMode::PingPong => post.some_index == next_position
                            && played == Some(chord.chord_notes@[ping_pong_tone(next_position as int, len)]),
                        ArpeggioMode::Random => post.some_index == self.some_index
                            && played == Some(chord.chord_notes@[roll as int]),
                        ArpeggioMode::Auto => false,
                    }
                }
            }
        }
    }

    /// Plays `beat` with `roll` as the random tone index (used when the
    /// order is random): fires once the next due 16th is reached, schedules
    /// the next note `wait_ticks(intensity)` 16ths later, and returns the
    /// tone to sound.
    pub fn advance(&mut self, beat: &Beat, intensity: i32, chord: &Chord, roll: u32) -> (played: Option<Note>)
        requires
            old(self).playable(*beat, intensity as int, *chord),
            mode_at(old(self).arpeggio_mode, intensity as int) == ArpeggioMode::Random
                && !old(self).scale_run(*beat, intensity as int, *chord) && tone_count(*chord) > 0
                ==> roll < tone_count(*chord),
        ensures
            old(self).stepped(*final(self), *beat, intensity as int, *chord, roll, played),
    {
        let wait_ticks = Self::wait_ticks(intensity);
        if beat.sixteenth_count < self.next_sixteenth {
            return None;
        }
        if self.is_scale_run(beat, intensity, chord) {
            self.next_sixteenth = beat.sixteenth_count + wait_ticks;
            let scale_len = (chord.scale_notes.len() as u64 % 0x1_0000_0000) as u32;
            self.scale_index = (self.scale_index + 1) % scale_len;
            return Some(chord.scale_notes[self.scale_index as usize]);
        }
        self.next_sixteenth = beat.sixteenth_count + wait_ticks;

        let chord_note_length = (chord.chord_notes.len() as u64 % 0x1_0000_0000) as u32;
        if chord_note_length == 0 {
            return None;
        }

        let note_index = match Self::mode_for(self.arpeggio_mode, intensity) {
            ArpeggioMode::Up => {
                self.some_index = (self.some_index + 1) % chord_note_length;
                self.some_index
            },
            ArpeggioMode::Down => {
                self.some_index = (self.some_index + 1) % chord_note_length;
                chord_note_length - (self.some_index + 1)
            },
            ArpeggioMode::PingPong => {
                let period: u64 = if chord_note_length > 1 { 2 * chord_note_length as u64 - 2 } else { 1 };
                let next: u64 = self.some_index as u64 + 1;
                let position: u64 = next % period;
                assert(position <= next) by (nonlinear_arith)
                    requires position == next % period, next >= 0, period > 0;
                self.some_index = position as u32;
                if position < chord_note_length as u64 {
                    position as u32
                } else {
                    (period - position) as u32
                }
            },
            _ => roll,
        };
        Some(chord.chord_notes[note_index as usize])
    }

    /// Plays one 16th-note step as [`Arpeggiator::advance`] does, drawing the
    /// tone uniformly at random when the order is random.
    pub fn play(&mut self, beat: &Beat, intensity: i32, chord: &Chord) -> (played: Option<Note>)
        requires
            old(self).playable(*beat, intensity as int, *chord),
        ensures
            exists|roll: u32| (tone_count(*chord) > 0 ==> roll < tone_count(*chord))
                && old(self).stepped(*final(self), *beat, intensity as int, *chord, roll, played),
            old(self).fires(*beat) && old(self).scale_run(*beat, intensity as int, *chord)
                ==> (played matches Some(n) && chord.scale_notes@.contains(n)),
            old(self).fires(*beat) && !old(self).scale_run(*beat, intensity as int, *chord)
                && tone_count(*chord) > 0 ==> (played matches Some(n) && chord.chord_notes@.contains(n)),
            !old(self).fires(*beat) || (!old(self).scale_run(*beat, intensity as int, *chord)
                && tone_count(*chord) == 0) ==> played is None,
    {
        let len = (chord.chord_notes.len() as u64 % 0x1_0000_0000) as u32;
        let random = Self::mode_for(self.arpeggio_mode, intensity) == ArpeggioMode::Random;
        let roll: u32 = if random && beat.sixteenth_count >= self.next_sixteenth
            && !self.is_scale_run(beat, intensity, chord) && len > 0 {
            random_below(len)
        } else {
            0
        };
        let ghost pre = *self;
        let played = self.advance(beat, intensity, chord, roll);
        proof {
            let run = pre.scale_run(*beat, intensity as int, *chord);
            if pre.fires(*beat) && run {
                let k = ((pre.scale_index + 1) % scale_count(*chord)) as u32;
                assert(chord.scale_notes@[k as int] == played->0);
            }
            if pre.fires(*beat) && !run && len > 0 {
                let n = played->0;
                let l = len as int;
                let k = ((pre.some_index + 1) % l) as u32;
                let p = ((pre.some_index + 1) % ping_pong_period(l)) as u32;
                match mode_at(pre.arpeggio_mode, intensity as int) {
                    ArpeggioMode::Up => assert(chord.chord_notes@[k as int] == n),
                    ArpeggioMode::Down => assert(chord.chord_notes@[l - (k + 1)] == n),
                    ArpeggioMode::PingPong => assert(chord.chord_notes@[ping_pong_tone(p as int, l)] == n),
                    _ => assert(chord.chord_notes@[roll as int] == n),
                }
            }
        }
        played
    }
}

/// Higher intensity never waits longer between notes.
pub proof fn lemma_wait_never_grows(low: int, high: int)
    requires
        low <= high,
    ensures
        wait_for(high) <= wait_for(low),
{
}

/// A ping-pong round visits only tones of the chord.
pub proof fn lemma_ping_pong_stays_on_the_chord(position: int, len: int)
    requires
        len > 0,
        0 <= position < ping_pong_period(len),
    ensures
        0 <= ping_pong_tone(position, len) < len,
{
}

/// `Auto` plays up at low intensity, ping-pong in the middle and at random
/// at high intensity, and every other mode keeps its own order.
pub proof fn lemma_auto_follows_intensity(mode: ArpeggioMode, intensity: int)
    ensures
        mode_at(mode, intensity) != ArpeggioMode::Auto,
        mode != ArpeggioMode::Auto ==> mode_at(mode, intensity) == mode,
        mode == ArpeggioMode::Auto && intensity < LEVEL_FOUR_TENTHS ==> mode_at(mode, intensity) == ArpeggioMode::Up,
        mode == ArpeggioMode::Auto && LEVEL_FOUR_TENTHS <= intensity < LEVEL_SEVEN_TENTHS
            ==> mode_at(mode, intensity) == ArpeggioMode::PingPong,
        mode == ArpeggioMode::Auto && intensity >= LEVEL_SEVEN_TENTHS
            ==> mode_at(mode, intensity) == ArpeggioMode::Random,
{
}

} // verus!
