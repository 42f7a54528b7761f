//! The musicians and what they share: notes, chords and the note-choosing
//! helpers of tonal players.
pub mod arpeggiator;
pub mod bassist;
pub mod conductor;
pub mod drummer;
pub mod soloist;

use vstd::prelude::*;
use crate::clock::Beat;
use crate::level::{LEVEL_HALF, LEVEL_ONE, LEVEL_QUARTER, LEVEL_ZERO};
use crate::rng::choose_below;

verus! {

/// 16th-note steps per bar in 4/4.
pub const STEPS_PER_BAR: u32 = 16;

/// The largest pitch shift, in semitones, applied to a sample either way.
pub const MAX_SHIFT: i32 = 12;

/// The shift, in semitones, at which a note `midi_diff` semitones away from
/// its sample is played: the difference itself, held at one octave up or
/// down. The playback speed is `2^(shift / 12)`.
pub fn octave_clamped_shift(midi_diff: i32) -> (shift: i32)
    ensures
        shift == (if midi_diff < -MAX_SHIFT { -MAX_SHIFT } else if midi_diff > MAX_SHIFT { MAX_SHIFT as int } else { midi_diff as int }),
        -MAX_SHIFT <= shift <= MAX_SHIFT,
{
    if midi_diff < -MAX_SHIFT {
        -MAX_SHIFT
    } else if midi_diff > MAX_SHIFT {
        MAX_SHIFT
    } else {
        midi_diff
    }
}

/// A note relative to the instrument's sample (`midi_note_diff` semitones
/// away) with a strength, held as a level (see [`crate::level`]).
///
/// Strength semantics (used by tonal musicians and drummers alike):
/// strength 1.0 is essential and plays at any intensity, strength 0.0 is the
/// richest embellishment and plays only at full intensity. A note plays when
/// `strength >= 1.0 - intensity`.
#[derive(Clone, Copy, Debug, Default, PartialEq, Eq, Structural)]
pub struct Note {
    pub midi_note_diff: i32,
    pub strength: i32,
}

impl Note {
    pub fn new(midi_note_diff: i32, strength: i32) -> (n: Note)
        ensures
            n == (Note { midi_note_diff, strength }),
    {
        Note { midi_note_diff, strength }
    }
}

/// A chord of the progression: where it starts (in bars, as a level), its
/// chord tones and the scale tones that fit over it.
#[derive(Clone, Debug, PartialEq)]
pub struct Chord {
    pub pos_bars: i32,
    pub chord_notes: Vec<Note>,
    pub scale_notes: Vec<Note>,
}

impl Chord {
    pub fn new(pos_bars: i32, chord_notes: Vec<Note>, scale_notes: Vec<Note>) -> (c: Chord)
        ensures
            c.pos_bars == pos_bars,
            c.chord_notes@ == chord_notes@,
            c.scale_notes@ == scale_notes@,
    {
        Chord { pos_bars, chord_notes, scale_notes }
    }
}

/// The outcome of this step's random draws against the intensity, for each
/// rhythmic tier: `quarter` is `random < intensity`, `eighth` is
/// `random < intensity - 0.25`, `sixteenth` is `random < intensity - 0.5`.
#[derive(Clone, Copy, Debug, PartialEq, Eq, Structural)]
pub struct IntensityRoll {
    pub quarter: bool,
    pub eighth: bool,
    pub sixteenth: bool,
}

/// The notes of `notes` whose strength is at least `min_strength`, in order.
pub open spec fn strong_notes(notes: Seq<Note>, min_strength: int) -> Seq<Note>
    decreases notes.len(),
{
    if notes.len() == 0 {
        Seq::empty()
    } else {
        let rest = strong_notes(notes.drop_last(), min_strength);
        if notes.last().strength >= min_strength {
            rest.push(notes.last())
        } else {
            rest
        }
    }
}

/// Every note kept by [`strong_notes`] is a note of the input that is strong
/// enough, and every strong enough note is kept.
pub proof fn lemma_strong_notes(notes: Seq<Note>, min_strength: int)
    ensures
        forall|n: Note| #[trigger] strong_notes(notes, min_strength).contains(n)
            <==> notes.contains(n) && n.strength >= min_strength,
        strong_notes(notes, min_strength).len() <= notes.len(),
    decreases notes.len(),
{
    if notes.len() > 0 {
        lemma_strong_notes(notes.drop_last(), min_strength);
        assert(notes =~= notes.drop_last().push(notes.last()));
        let rest = strong_notes(notes.drop_last(), min_strength);
        assert forall|n: Note| #[trigger] strong_notes(notes, min_strength).contains(n)
            <==> notes.contains(n) && n.strength >= min_strength by {
            if notes.contains(n) && n.strength >= min_strength {
                let i = choose|i: int| 0 <= i < notes.len() && notes[i] == n;
                if i < notes.len() - 1 {
                    assert(notes.drop_last()[i] == n);
                    assert(notes.drop_last().contains(n));
                    assert(rest.contains(n));
                    if notes.last().strength >= min_strength {
                        let j = choose|j: int| 0 <= j < rest.len() && rest[j] == n;
                        assert(rest.push(notes.last())[j] == n);
                    }
                } else {
                    assert(rest.push(notes.last())[rest.len() as int] == n);
                }
            }
            if strong_notes(notes, min_strength).contains(n) {
                if rest.contains(n) {
                    assert(notes.drop_last().contains(n));
                    let j = choose|j: int| 0 <= j < notes.drop_last().len() && notes.drop_last()[j] == n;
                    assert(notes[j] == n);
                } else {
                    let j = choose|j: int| 0 <= j < strong_notes(notes, min_strength).len() && strong_notes(notes, min_strength)[j] == n;
                    if j < rest.len() {
                        assert(rest[j] == n);
                    }
                    assert(n == notes.last());
                    assert(notes[notes.len() - 1] == n);
                }
            }
        }
    }
}

/// Lowering the strength threshold (raising the intensity) never drops a
/// note: every note that passes a threshold also passes any lower one.
pub proof fn lemma_lower_threshold_keeps_notes(notes: Seq<Note>, low: int, high: int, n: Note)
    requires
        low <= high,
        strong_notes(notes, high).contains(n),
    ensures
        strong_notes(notes, low).contains(n),
{
    lemma_strong_notes(notes, high);
    lemma_strong_notes(notes, low);
}

/// The strength threshold a tonal musician draws a note with at 16th step
/// `step` of the bar, or `None` when this step stays silent: the downbeat
/// always draws an essential note (1.0); quarter positions draw a note of
/// strength 0.5 if `random < intensity`; eighth positions one of 0.25 if
/// `random < intensity - 0.25`; the remaining 16ths any note if
/// `random < intensity - 0.5`.
pub open spec fn step_threshold(step: int, roll: IntensityRoll) -> Option<int> {
    if step == 0 {
        Some(LEVEL_ONE as int)
    } else if step % 4 == 0 {
        if roll.quarter { Some(LEVEL_HALF as int) } else { None }
    } else if step % 2 == 0 {
        if roll.eighth { Some(LEVEL_QUARTER as int) } else { None }
    } else if roll.sixteenth {
        Some(LEVEL_ZERO as int)
    } else {
        None
    }
}

/// How a step's position in the bar and this step's draws decide what may
/// play: the downbeat always plays an essential note (strength 1.0); the
/// other quarters a note of strength at least 0.5 exactly when the quarter
/// draw (`random < intensity`) succeeds; the other eighths one of at least
/// 0.25 exactly when the eighth draw succeeds; the odd 16ths any note exactly
/// when the sixteenth draw succeeds. No other draw matters to a position.
pub proof fn lemma_thresholds_by_position(step: int, roll: IntensityRoll, other: IntensityRoll)
    requires
        step >= 0,
    ensures
        step == 0 ==> step_threshold(step, roll) == Some(LEVEL_ONE as int),
        step != 0 && step % 4 == 0 ==> step_threshold(step, roll)
            == (if roll.quarter { Some(LEVEL_HALF as int) } else { None }),
        step % 4 == 2 ==> step_threshold(step, roll)
            == (if roll.eighth { Some(LEVEL_QUARTER as int) } else { None }),
        step % 2 == 1 ==> step_threshold(step, roll)
            == (if roll.sixteenth { Some(LEVEL_ZERO as int) } else { None }),
        step % 4 == 0 && roll.quarter == other.quarter ==> step_threshold(step, roll) == step_threshold(step, other),
        step % 4 == 2 && roll.eighth == other.eighth ==> step_threshold(step, roll) == step_threshold(step, other),
        step % 2 == 1 && roll.sixteenth == other.sixteenth ==> step_threshold(step, roll) == step_threshold(step, other),
{
}

/// At a quarter position other than the downbeat, a note is drawn exactly
/// when the quarter draw succeeds and some note has strength at least 0.5,
/// and the note drawn is such a note.
pub proof fn lemma_quarter_draws(r: Option<Note>, notes: Seq<Note>, step: int, roll: IntensityRoll)
    requires
        step > 0,
        step % 4 == 0,
        drawn_from(r, notes, step_threshold(step, roll)),
    ensures
        r is Some <==> roll.quarter && exists|i: int| 0 <= i < notes.len() && (#[trigger] notes[i]).strength >= LEVEL_HALF,
        r matches Some(n) ==> notes.contains(n) && n.strength >= LEVEL_HALF,
{
    lemma_strong_notes(notes, LEVEL_HALF as int);
    let strong = strong_notes(notes, LEVEL_HALF as int);
    if roll.quarter {
        if strong.len() > 0 {
            assert(strong.contains(strong[0]));
            let i = choose|i: int| 0 <= i < notes.len() && notes[i] == strong[0];
            assert(notes[i].strength >= LEVEL_HALF);
        }
        assert forall|i: int| 0 <= i < notes.len() && (#[trigger] notes[i]).strength >= LEVEL_HALF implies strong.len() > 0 by {
            assert(notes.contains(notes[i]));
            assert(strong.contains(notes[i]));
        }
    }
}

/// Computes [`step_threshold`].
pub fn note_threshold(step: u32, roll: &IntensityRoll) -> (t: Option<i32>)
    ensures
        t matches Some(v) ==> step_threshold(step as int, *roll) == Some(v as int),
        t is None <==> step_threshold(step as int, *roll) is None,
{
    if step == 0 {
        Some(LEVEL_ONE)
    } else if step % 4 == 0 {
        if roll.quarter { Some(LEVEL_HALF) } else { None }
    } else if step % 2 == 0 {
        if roll.eighth { Some(LEVEL_QUARTER) } else { None }
    } else if roll.sixteenth {
        Some(LEVEL_ZERO)
    } else {
        None
    }
}

/// `r` is a possible outcome of drawing a random note of strength at least
/// `threshold` from `notes` (nothing is drawn when there is no threshold).
pub open spec fn drawn_from(r: Option<Note>, notes: Seq<Note>, threshold: Option<int>) -> bool {
    match threshold {
        None => r is None,
        Some(t) => {
            &&& (r is None <==> strong_notes(notes, t).len() == 0)
            &&& (r matches Some(n) ==> strong_notes(notes, t).contains(n))
        },
    }
}

/// Draws a random note for 16th step `step` from `notes`, following
/// [`step_threshold`].
pub fn draw_for_step(notes: &[Note], step: u32, roll: &IntensityRoll) -> (r: Option<Note>)
    ensures
        drawn_from(r, notes@, step_threshold(step as int, *roll)),
{
    match note_threshold(step, roll) {
        Some(t) => TonalPlayer::get_note(notes, t),
        None => None,
    }
}

/// Shared helpers for tonal musicians (bassist, soloist, arpeggiator).
pub struct TonalPlayer;

impl TonalPlayer {
    /// The `pick`-th note (counting from 0) among the notes of `notes` whose
    /// strength is at least `min_strength`; `None` when there are not that
    /// many.
    pub fn pick_note(notes: &[Note], min_strength: i32, pick: usize) -> (r: Option<Note>)
        ensures
            r == (if pick < strong_notes(notes@, min_strength as int).len() {
                Some(strong_notes(notes@, min_strength as int)[pick as int])
            } else {
                None
            }),
    {
        let mut seen: usize = 0;
        let mut i: usize = 0;
        while i < notes.len()
            invariant
                i <= notes@.len(),
                seen == strong_notes(notes@.take(i as int), min_strength as int).len(),
                seen <= pick,
            decreases notes.len() - i,
        {
            assert(notes@.take(i + 1).drop_last() =~= notes@.take(i as int));
            if notes[i].strength >= min_strength {
                if seen == pick {
                    assert(strong_notes(notes@.take(i + 1), min_strength as int)[pick as int] == notes[i as int]);
                    proof { lemma_strong_prefix(notes@, min_strength as int, i as int + 1); }
                    return Some(notes[i]);
                }
                seen = seen + 1;
            }
            i = i + 1;
        }
        assert(notes@.take(notes@.len() as int) =~= notes@);
        None
    }

    /// The number of notes of `notes` whose strength is at least
    /// `min_strength`.
    pub fn count_strong(notes: &[Note], min_strength: i32) -> (count: usize)
        ensures
            count == strong_notes(notes@, min_strength as int).len(),
    {
        let mut count: usize = 0;
        let mut i: usize = 0;
        while i < notes.len()
            invariant
                i <= notes@.len(),
                count == strong_notes(notes@.take(i as int), min_strength as int).len(),
                count <= i,
            decreases notes.len() - i,
        {
            assert(notes@.take(i + 1).drop_last() =~= notes@.take(i as int));
            if notes[i].strength >= min_strength {
                count = count + 1;
            }
            i = i + 1;
        }
        assert(notes@.take(notes@.len() as int) =~= notes@);
        count
    }

    /// Returns a random note from `notes` whose strength is at least
    /// `min_strength`: `None` exactly when there is none.
    pub fn get_note(notes: &[Note], min_strength: i32) -> (r: Option<Note>)
        ensures
            r is None <==> strong_notes(notes@, min_strength as int).len() == 0,
            r matches Some(n) ==> strong_notes(notes@, min_strength as int).contains(n),
            r matches Some(n) ==> notes@.contains(n) && n.strength >= min_strength,
    {
        proof { lemma_strong_notes(notes@, min_strength as int); }
        let count = Self::count_strong(notes, min_strength);
        match choose_below(count) {
            Some(pick) => {
                let r = Self::pick_note(notes, min_strength, pick);
                assert(strong_notes(notes@, min_strength as int).contains(r->0));
                r
            }
            None => None,
        }
    }

    /// A random chord tone of at least `min_strength`.
    pub fn get_chord_note(chord: &Chord, min_strength: i32) -> (r: Option<Note>)
        ensures
            r is None <==> strong_notes(chord.chord_notes@, min_strength as int).len() == 0,
            r matches Some(n) ==> chord.chord_notes@.contains(n) && n.strength >= min_strength,
    {
        Self::get_note(chord.chord_notes.as_slice(), min_strength)
    }

    /// A random scale tone of at least `min_strength`.
    pub fn get_scale_note(chord: &Chord, min_strength: i32) -> (r: Option<Note>)
        ensures
            r is None <==> strong_notes(chord.scale_notes@, min_strength as int).len() == 0,
            r matches Some(n) ==> chord.scale_notes@.contains(n) && n.strength >= min_strength,
    {
        Self::get_note(chord.scale_notes.as_slice(), min_strength)
    }

    /// Flat 16th-note step within the current bar (0–15 in 4/4).
    pub fn flat_step(beat: &Beat) -> (step: u32)
        requires
            beat.beat * 4 + beat.sixteenth <= u32::MAX,
        ensures
            step == beat.beat * 4 + beat.sixteenth,
    {
        beat.beat * 4 + beat.sixteenth
    }
}

/// The strong notes of a prefix are a prefix of the strong notes.
pub proof fn lemma_strong_prefix(notes: Seq<Note>, min_strength: int, k: int)
    requires
        0 <= k <= notes.len(),
    ensures
        strong_notes(notes.take(k), min_strength).len() <= strong_notes(notes, min_strength).len(),
        forall|j: int| 0 <= j < strong_notes(notes.take(k), min_strength).len() ==>
            #[trigger] strong_notes(notes, min_strength)[j] == strong_notes(notes.take(k), min_strength)[j],
    decreases notes.len() - k,
{
    if k < notes.len() {
        lemma_strong_prefix(notes, min_strength, k + 1);
        assert(notes.take(k + 1).drop_last() =~= notes.take(k));
    } else {
        assert(notes.take(k) =~= notes);
    }
}

} // verus!
