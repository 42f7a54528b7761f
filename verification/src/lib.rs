//! An improvisational music engine: a bar/beat clock, a conductor that walks a
//! chord progression, and musicians (drummers, a bassist, a soloist that plays
//! in AABA form, an arpeggiator) that decide on every 16th note what to play
//! from the current chord and the music's intensity. A multisample library
//! indexes recorded instrument samples by pitch, dynamic and articulation.
//!
//! The library decides *what* is played; playing it (audio, assets, the game
//! engine's schedule) is the caller's part.

pub mod level;
pub mod clock;
pub mod musicians;
mod rng;
pub mod text;
pub mod sampler;

use vstd::prelude::*;
use crate::level::{
    LEVEL_FIFTH, LEVEL_FOUR_TENTHS, LEVEL_HALF, LEVEL_ONE, LEVEL_SEVEN_TENTHS, LEVEL_TENTH, LEVEL_THREE,
    LEVEL_THREE_FIFTHS, LEVEL_TWO, LEVEL_ZERO,
};
use crate::musicians::{Chord, Note};

verus! {

/// The note `midi_note_diff` semitones away with strength level `strength`.
pub open spec fn tone(midi_note_diff: i32, strength: i32) -> Note {
    Note { midi_note_diff, strength }
}

/// The scale of the demo progression.
pub open spec fn demo_scale() -> Seq<Note> {
    seq![
        tone(-2i32, LEVEL_ONE), tone(0i32, LEVEL_FIFTH), tone(2i32, LEVEL_THREE_FIFTHS), tone(4i32, LEVEL_HALF),
        tone(3i32, LEVEL_HALF), tone(2i32, LEVEL_HALF), tone(1i32, LEVEL_HALF), tone(0i32, LEVEL_HALF),
        tone(-1i32, LEVEL_HALF), tone(-2i32, LEVEL_HALF), tone(-3i32, LEVEL_HALF), tone(-4i32, LEVEL_HALF),
        tone(8i32, LEVEL_SEVEN_TENTHS), tone(-4i32, LEVEL_FOUR_TENTHS), tone(3i32, LEVEL_TENTH),
    ]
}

/// The chord tones of the second chord of the demo progression.
pub open spec fn demo_second_chord() -> Seq<Note> {
    seq![
        tone(-2i32, LEVEL_ONE), tone(4i32, LEVEL_HALF), tone(3i32, LEVEL_HALF), tone(2i32, LEVEL_HALF),
        tone(1i32, LEVEL_HALF), tone(0i32, LEVEL_HALF), tone(-1i32, LEVEL_HALF), tone(-2i32, LEVEL_HALF),
        tone(-3i32, LEVEL_HALF), tone(-4i32, LEVEL_HALF), tone(3i32, LEVEL_TENTH),
    ]
}

/// The chord tones of the third chord of the demo progression.
pub open spec fn demo_third_chord() -> Seq<Note> {
    seq![
        tone(-1i32, LEVEL_ONE), tone(2i32, LEVEL_SEVEN_TENTHS), tone(4i32, LEVEL_HALF), tone(3i32, LEVEL_HALF),
        tone(2i32, LEVEL_HALF), tone(1i32, LEVEL_HALF), tone(0i32, LEVEL_HALF), tone(-1i32, LEVEL_HALF),
        tone(-2i32, LEVEL_HALF), tone(-3i32, LEVEL_HALF), tone(-4i32, LEVEL_HALF), tone(-2i32, LEVEL_FOUR_TENTHS),
    ]
}

fn demo_scale_notes() -> (v: Vec<Note>)
    ensures
        v@ == demo_scale(),
{
    vec![
        Note::new(-2, LEVEL_ONE), Note::new(0, LEVEL_FIFTH), Note::new(2, LEVEL_THREE_FIFTHS), Note::new(4, LEVEL_HALF),
        Note::new(3, LEVEL_HALF), Note::new(2, LEVEL_HALF), Note::new(1, LEVEL_HALF), Note::new(0, LEVEL_HALF),
        Note::new(-1, LEVEL_HALF), Note::new(-2, LEVEL_HALF), Note::new(-3, LEVEL_HALF), Note::new(-4, LEVEL_HALF),
        Note::new(8, LEVEL_SEVEN_TENTHS), Note::new(-4, LEVEL_FOUR_TENTHS), Note::new(3, LEVEL_TENTH),
    ]
}

/// The demo chord progression: four one-bar chords starting at bars 0, 1, 2
/// and 3, all over the same scale; the first and last chords offer the whole
/// scale as chord tones.
pub fn generate_chords() -> (chords: Vec<Chord>)
    ensures
        chords@.len() == 4,
        chords@[0].pos_bars == LEVEL_ZERO,
        chords@[1].pos_bars == LEVEL_ONE,
        chords@[2].pos_bars == LEVEL_TWO,
        chords@[3].pos_bars == LEVEL_THREE,
        forall|i: int| 0 <= i < 4 ==> (#[trigger] chords@[i]).scale_notes@ == demo_scale(),
        chords@[0].chord_notes@ == demo_scale(),
        chords@[1].chord_notes@ == demo_second_chord(),
        chords@[2].chord_notes@ == demo_third_chord(),
        chords@[3].chord_notes@ == demo_scale(),
{
    let second = vec![
        Note::new(-2, LEVEL_ONE), Note::new(4, LEVEL_HALF), Note::new(3, LEVEL_HALF), Note::new(2, LEVEL_HALF),
        Note::new(1, LEVEL_HALF), Note::new(0, LEVEL_HALF), Note::new(-1, LEVEL_HALF), Note::new(-2, LEVEL_HALF),
        Note::new(-3, LEVEL_HALF), Note::new(-4, LEVEL_HALF), Note::new(3, LEVEL_TENTH),
    ];
    let third = vec![
        Note::new(-1, LEVEL_ONE), Note::new(2, LEVEL_SEVEN_TENTHS), Note::new(4, LEVEL_HALF), Note::new(3, LEVEL_HALF),
        Note::new(2, LEVEL_HALF), Note::new(1, LEVEL_HALF), Note::new(0, LEVEL_HALF), Note::new(-1, LEVEL_HALF),
        Note::new(-2, LEVEL_HALF), Note::new(-3, LEVEL_HALF), Note::new(-4, LEVEL_HALF), Note::new(-2, LEVEL_FOUR_TENTHS),
    ];
    vec![
        Chord::new(LEVEL_ZERO, demo_scale_notes(), demo_scale_notes()),
        Chord::new(LEVEL_ONE, second, demo_scale_notes()),
        Chord::new(LEVEL_TWO, third, demo_scale_notes()),
        Chord::new(LEVEL_THREE, demo_scale_notes(), demo_scale_notes()),
    ]
}

} // verus!
