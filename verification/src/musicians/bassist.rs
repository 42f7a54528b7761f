//! The bassist: plays chord tones on the strong positions of the bar and
//! scale tones as passing notes, prefers notes close to the last one it
//! played, and can record a few bars of its line and repeat them.
use vstd::prelude::*;
use crate::clock::Beat;
use crate::musicians::{
    lemma_strong_notes, note_threshold, step_threshold, strong_notes, Chord, IntensityRoll, Note, TonalPlayer,
    STEPS_PER_BAR,
};
use crate::musicians::soloist::{silence, silent_melody};
use crate::rng::choose_below;

verus! {

/// The largest interval (in semitones) the bassist still counts as close to
/// its last note.
pub const PROXIMITY: i32 = 5;

/// `note` lies within [`PROXIMITY`] semitones of `last`.
pub open spec fn near(note: Note, last: int) -> bool {
    -PROXIMITY <= note.midi_note_diff - last <= PROXIMITY
}

/// The notes of `notes` that lie near `last`, in order.
pub open spec fn near_notes(notes: Seq<Note>, last: int) -> Seq<Note>
    decreases notes.len(),
{
    if notes.len() == 0 {
        Seq::empty()
    } else {
        let rest = near_notes(notes.drop_last(), last);
        if near(notes.last(), last) {
            rest.push(notes.last())
        } else {
            rest
        }
    }
}

/// Every note kept by [`near_notes`] is near `last` and is one of `notes`.
pub proof fn lemma_near_notes(notes: Seq<Note>, last: int)
    ensures
        forall|i: int| 0 <= i < near_notes(notes, last).len() ==> {
            &&& near(#[trigger] near_notes(notes, last)[i], last)
            &&& notes.contains(near_notes(notes, last)[i])
        },
        near_notes(notes, last).len() <= notes.len(),
    decreases notes.len(),
{
    if notes.len() > 0 {
        lemma_near_notes(notes.drop_last(), last);
        let rest = near_notes(notes.drop_last(), last);
        assert forall|i: int| 0 <= i < near_notes(notes, last).len() implies {
            &&& near(#[trigger] near_notes(notes, last)[i], last)
            &&& notes.contains(near_notes(notes, last)[i])
        } by {
            if i < rest.len() {
                let j = choose|j: int| 0 <= j < notes.drop_last().len() && notes.drop_last()[j] == rest[i];
                assert(notes[j] == rest[i]);
            } else {
                assert(notes[notes.len() - 1] == notes.last());
            }
        }
    }
}

/// The notes the bassist chooses among: those of at least `min_strength`,
/// narrowed to the ones near the last played note when there are any.
pub open spec fn proximate_pool(notes: Seq<Note>, min_strength: int, last: Option<i32>) -> Seq<Note> {
    let candidates = strong_notes(notes, min_strength);
    match last {
        Some(l) => if near_notes(candidates, l as int).len() > 0 {
            near_notes(candidates, l as int)
        } else {
            candidates
        },
        None => candidates,
    }
}

/// The distance from `last` to every candidate note can be computed in
/// 32-bit arithmetic.
pub open spec fn distances_fit(notes: Seq<Note>, min_strength: int, last: Option<i32>) -> bool {
    last matches Some(l) ==> forall|i: int| 0 <= i < strong_notes(notes, min_strength).len() ==>
        i32::MIN < #[trigger] strong_notes(notes, min_strength)[i].midi_note_diff - l <= i32::MAX
}

/// The tones the bassist draws from at 16th step `step`: chord tones on even
/// steps, scale tones (passing notes) on the others.
pub open spec fn bass_source(step: int, chord: Chord) -> Seq<Note> {
    if step % 2 == 0 {
        chord.chord_notes@
    } else {
        chord.scale_notes@
    }
}

/// `r` is a possible outcome of the bassist's draw at a step with the given
/// threshold.
pub open spec fn bass_drawn(r: Option<Note>, notes: Seq<Note>, threshold: Option<int>, last: Option<i32>) -> bool {
    match threshold {
        None => r is None,
        Some(t) => {
            &&& (r is None <==> proximate_pool(notes, t, last).len() == 0)
            &&& (r matches Some(n) ==> proximate_pool(notes, t, last).contains(n))
        },
    }
}

/// The notes of `notes` of at least `min_strength`, in order.
fn strong_vec(notes: &[Note], min_strength: i32) -> (v: Vec<Note>)
    ensures
        v@ == strong_notes(notes@, min_strength as int),
{
    let mut v: Vec<Note> = Vec::new();
    let mut i: usize = 0;
    while i < notes.len()
        invariant
            i <= notes@.len(),
            v@ == strong_notes(notes@.take(i as int), min_strength as int),
        decreases notes.len() - i,
    {
        assert(notes@.take(i + 1).drop_last() =~= notes@.take(i as int));
        if notes[i].strength >= min_strength {
            v.push(notes[i]);
        }
        i = i + 1;
    }
    assert(notes@.take(notes@.len() as int) =~= notes@);
    v
}

/// The notes of `notes` near `last`, in order.
fn near_vec(notes: &Vec<Note>, last: i32) -> (v: Vec<Note>)
    requires
        forall|i: int| 0 <= i < notes@.len() ==> i32::MIN < #[trigger] notes@[i].midi_note_diff - last <= i32::MAX,
    ensures
        v@ == near_notes(notes@, last as int),
{
    let mut v: Vec<Note> = Vec::new();
    let mut i: usize = 0;
    while i < notes.len()
        invariant
            i <= notes@.len(),
            v@ == near_notes(notes@.take(i as int), last as int),
            forall|i: int| 0 <= i < notes@.len() ==> i32::MIN < #[trigger] notes@[i].midi_note_diff - last <= i32::MAX,
        decreases notes.len() - i,
    {
        assert(notes@.take(i + 1).drop_last() =~= notes@.take(i as int));
        let difference = notes[i].midi_note_diff - last;
        if -PROXIMITY <= difference && difference <= PROXIMITY {
            v.push(notes[i]);
        }
        i = i + 1;
    }
    assert(notes@.take(notes@.len() as int) =~= notes@);
    v
}

pub struct Bassist {
    /// MIDI semitone offset of the last played note, for proximity-biased
    /// selection.
    last_midi_diff: Option<i32>,
    /// Record `memory_bars` bars of bass line and repeat it `memory_repeats`
    /// times. 0 = no memory.
    pub memory_bars: u32,
    pub memory_repeats: u32,
    recorded_line: Vec<Option<Note>>,
    /// The bar before which the recorded line is being repeated.
    repeat_end_bar: u64,
}

impl Bassist {
    pub closed spec fn memory_bars_of(&self) -> nat {
        self.memory_bars as nat
    }

    pub closed spec fn memory_repeats_of(&self) -> nat {
        self.memory_repeats as nat
    }

    pub closed spec fn last_of(&self) -> Option<i32> {
        self.last_midi_diff
    }

    pub closed spec fn line_of(&self) -> Seq<Option<Note>> {
        self.recorded_line@
    }

    pub closed spec fn repeat_end_of(&self) -> nat {
        self.repeat_end_bar as nat
    }

    /// A bassist with no memory that has not played yet.
    pub fn new() -> (b: Bassist)
        ensures
            b.last_of() is None,
            b.memory_bars_of() == 0,
            b.memory_repeats_of() == 1,
            b.line_of().len() == 0,
            b.repeat_end_of() == 0,
    {
        Bassist {
            last_midi_diff: None,
            memory_bars: 0,
            memory_repeats: 1,
            recorded_line: Vec::new(),
            repeat_end_bar: 0,
        }
    }

    pub fn last_midi_diff(&self) -> (l: Option<i32>)
        ensures
            l == self.last_of(),
    {
        self.last_midi_diff
    }

    pub fn recorded_line(&self) -> (line: &Vec<Option<Note>>)
        ensures
            line@ == self.line_of(),
    {
        &self.recorded_line
    }

    /// The `pick`-th note (counting from 0) of [`proximate_pool`], or `None`
    /// when the pool is smaller.
    pub fn pick_proximate_note(notes: &[Note], min_strength: i32, last: Option<i32>, pick: usize) -> (r: Option<Note>)
        requires
            distances_fit(notes@, min_strength as int, last),
        ensures
            r == (if pick < proximate_pool(notes@, min_strength as int, last).len() {
                Some(proximate_pool(notes@, min_strength as int, last)[pick as int])
            } else {
                None
            }),
    {
        let pool = Self::proximate_vec(notes, min_strength, last);
        if pick < pool.len() {
            Some(pool[pick])
        } else {
            None
        }
    }

    fn proximate_vec(notes: &[Note], min_strength: i32, last: Option<i32>) -> (pool: Vec<Note>)
        requires
            distances_fit(notes@, min_strength as int, last),
        ensures
            pool@ == proximate_pool(notes@, min_strength as int, last),
    {
        let candidates = strong_vec(notes, min_strength);
        match last {
            Some(l) => {
                let close = near_vec(&candidates, l);
                if close.len() > 0 {
                    close
                } else {
                    candidates
                }
            },
            None => candidates,
        }
    }

    /// Selects a random note of at least `min_strength`, preferring notes
    /// within [`PROXIMITY`] semitones of the last played note for smoother
    /// lines. `None` exactly when no note is strong enough.
    pub fn get_proximate_note(notes: &[Note], min_strength: i32, last: Option<i32>) -> (r: Option<Note>)
        requires
            distances_fit(notes@, min_strength as int, last),
        ensures
            r is None <==> strong_notes(notes@, min_strength as int).len() == 0,
            r is None <==> proximate_pool(notes@, min_strength as int, last).len() == 0,
            r matches Some(n) ==> proximate_pool(notes@, min_strength as int, last).contains(n),
    {
        let pool = Self::proximate_vec(notes, min_strength, last);
        match choose_below(pool.len()) {
            Some(pick) => {
                assert(pool@.contains(pool@[pick as int]));
                Some(pool[pick])
            },
            None => None,
        }
    }

    /// Draws a note for 16th step `step`: the root-strength chord tone on the
    /// downbeat, stronger chord tones on quarters, medium ones on eighths
    /// and scale passing tones on the other 16ths, gated by the intensity
    /// roll as [`step_threshold`] describes.
    pub fn generate_note(&self, step: u32, base_roll: &IntensityRoll, chord: &Chord) -> (r: Option<Note>)
        requires
            step_threshold(step as int, *base_roll) matches Some(t) ==>
                distances_fit(bass_source(step as int, *chord), t, self.last_of()),
        ensures
            bass_drawn(r, bass_source(step as int, *chord), step_threshold(step as int, *base_roll), self.last_of()),
            step % 2 == 0 ==> (r matches Some(n) ==> chord.chord_notes@.contains(n)),
            step % 2 == 1 ==> (r matches Some(n) ==> chord.scale_notes@.contains(n)),
    {
        let last = self.last_midi_diff;
        let r = match note_threshold(step, base_roll) {
            Some(t) => {
                if step % 2 == 0 {
                    Self::get_proximate_note(chord.chord_notes.as_slice(), t, last)
                } else {
                    Self::get_proximate_note(chord.scale_notes.as_slice(), t, last)
                }
            },
            None => None,
        };
        proof { lemma_bass_draws_by_position(r, step as int, *chord, *base_roll, last); }
        r
    }

    /// The 16th step of `beat` in its bar.
    pub open spec fn step_of(beat: Beat) -> int {
        beat.beat * 4 + beat.sixteenth
    }

    /// The slot of the recorded line that `beat` falls on.
    pub open spec fn line_index(&self, beat: Beat) -> int {
        ((beat.bar_count as int) % (self.memory_bars_of() as int)) * STEPS_PER_BAR + Self::step_of(beat)
    }

    /// Whether `beat` falls while the recorded line is being repeated.
    pub open spec fn replays(&self, beat: Beat) -> bool {
        self.memory_bars_of() > 0 && beat.bar_count < self.repeat_end_of()
    }

    /// The recorded line as it stands when `beat` is played: resized (and
    /// silenced) when the memory length changed.
    pub open spec fn line_at(&self) -> Seq<Option<Note>> {
        let total = (self.memory_bars_of() * STEPS_PER_BAR) as nat;
        if self.line_of().len() != total {
            silence(total)
        } else {
            self.line_of()
        }
    }

    /// What playing `beat` requires so that no index or count overflows.
    pub open spec fn playable(&self, beat: Beat) -> bool {
        &&& Self::step_of(beat) <= u32::MAX
        &&& self.memory_bars_of() > 0 ==> {
            &&& self.memory_bars_of() * STEPS_PER_BAR <= u32::MAX
            &&& self.line_index(beat) < self.memory_bars_of() * STEPS_PER_BAR
            &&& (!self.replays(beat) && self.line_index(beat) == self.memory_bars_of() * STEPS_PER_BAR - 1)
                ==> self.memory_repeats_of() * self.memory_bars_of() <= u32::MAX
        }
    }

    /// `post` is the bassist after playing `beat`, with `generated` the note
    /// drawn for it (used unless the recorded line is being repeated) and
    /// `played` the note that sounds.
    pub open spec fn stepped(&self, post: &Bassist, beat: Beat, generated: Option<Note>, played: Option<Note>) -> bool {
        let total = self.memory_bars_of() * STEPS_PER_BAR;
        let idx = self.line_index(beat);
        &&& post.memory_bars_of() == self.memory_bars_of()
        &&& post.memory_repeats_of() == self.memory_repeats_of()
        &&& post.last_of() == (match played {
            Some(n) => Some(n.midi_note_diff),
            None => self.last_of(),
        })
        &&& if self.memory_bars_of() == 0 {
            &&& played == generated
            &&& post.line_of() == self.line_of()
            &&& post.repeat_end_of() == self.repeat_end_of()
        } else if self.replays(beat) {
            &&& played == self.line_at()[idx]
            &&& post.line_of() == self.line_at()
            &&& post.repeat_end_of() == self.repeat_end_of()
        } else {
            let line = if idx == 0 { silence(total as nat) } else { self.line_at() };
            &&& played == generated
            &&& post.line_of() == line.update(idx, generated)
            &&& post.repeat_end_of() == (if idx >= total - 1 {
                (beat.ceil_bars() + self.memory_repeats_of() * self.memory_bars_of()) as nat
            } else {
                self.repeat_end_of()
            })
        }
    }

    /// Whether every distance from `last` to a note of `notes` of at least
    /// `min_strength` can be computed in 32-bit arithmetic (computes
    /// [`distances_fit`]).
    fn distances_ok(notes: &[Note], min_strength: i32, last: Option<i32>) -> (b: bool)
        ensures
            b == distances_fit(notes@, min_strength as int, last),
    {
        match last {
            None => true,
            Some(l) => {
                let strong = strong_vec(notes, min_strength);
                let mut i: usize = 0;
                while i < strong.len()
                    invariant
                        i <= strong@.len(),
                        last == Some(l),
                        strong@ == strong_notes(notes@, min_strength as int),
                        forall|j: int| 0 <= j < i ==> i32::MIN < #[trigger] strong_notes(notes@, min_strength as int)[j].midi_note_diff - l <= i32::MAX,
                    decreases strong.len() - i,
                {
                    let difference: i64 = strong[i].midi_note_diff as i64 - l as i64;
                    if difference <= i32::MIN as i64 || difference > i32::MAX as i64 {
                        assert(strong_notes(notes@, min_strength as int)[i as int].midi_note_diff - l == difference);
                        return false;
                    }
                    i = i + 1;
                }
                true
            },
        }
    }

    /// Whether the bassist can play `beat` with these draws and chord
    /// (computes the `requires` of [`Bassist::play`]).
    pub fn can_play(&self, beat: &Beat, base_roll: &IntensityRoll, chord: &Chord) -> (b: bool)
        ensures
            b == (self.playable(*beat) && (!self.replays(*beat) ==> (step_threshold(Self::step_of(*beat), *base_roll) matches Some(t) ==>
                distances_fit(bass_source(Self::step_of(*beat), *chord), t, self.last_of())))),
    {
        let step: u64 = beat.beat as u64 * 4 + beat.sixteenth as u64;
        if step > u32::MAX as u64 {
            return false;
        }
        if self.memory_bars > 0 {
            let total: u64 = (self.memory_bars as u64) * 16;
            if total > u32::MAX as u64 {
                return false;
            }
            let idx: u64 = ((beat.bar_count % self.memory_bars) as u64) * 16 + step;
            if idx >= total {
                return false;
            }
            let replaying = (beat.bar_count as u64) < self.repeat_end_bar;
            let repeats: u64 = self.memory_repeats as u64;
            let bars: u64 = self.memory_bars as u64;
            assert(repeats * bars <= 0xffff_ffff * 0xffff_ffff) by (nonlinear_arith)
                requires repeats <= 0xffff_ffff, bars <= 0xffff_ffff;
            if !replaying && idx == total - 1 && repeats * bars > u32::MAX as u64 {
                return false;
            }
        }
        if self.is_replaying(beat) {
            return true;
        }
        match note_threshold(step as u32, base_roll) {
            Some(t) => {
                if step % 2 == 0 {
                    Self::distances_ok(chord.chord_notes.as_slice(), t, self.last_midi_diff)
                } else {
                    Self::distances_ok(chord.scale_notes.as_slice(), t, self.last_midi_diff)
                }
            },
            None => true,
        }
    }

    /// Plays `beat` with `generated` as the freshly drawn note: repeats the
    /// recorded line while a repeat is running, records `generated` into the
    /// line while the memory is on, and returns the note to sound.
    pub fn advance(&mut self, beat: &Beat, generated: Option<Note>) -> (played: Option<Note>)
        requires
            old(self).playable(*beat),
        ensures
            old(self).stepped(final(self), *beat, generated, played),
    {
        let step = TonalPlayer::flat_step(beat);
        let played = if self.memory_bars > 0 {
            let total = self.memory_bars * STEPS_PER_BAR;
            if self.recorded_line.len() != total as usize {
                self.recorded_line = silent_melody(total as usize);
            }
            let bar_in_cycle = beat.bar_count % self.memory_bars;
            assert(bar_in_cycle * STEPS_PER_BAR + step <= u32::MAX);
            let recording_index = bar_in_cycle * STEPS_PER_BAR + step;
            if (beat.bar_count as u64) < self.repeat_end_bar {
                self.recorded_line[recording_index as usize]
            } else {
                if recording_index == 0 {
                    self.recorded_line = silent_melody(total as usize);
                }
                self.recorded_line.set(recording_index as usize, generated);
                if recording_index >= total - 1 {
                    self.repeat_end_bar = beat.ceil_bar() + (self.memory_repeats * self.memory_bars) as u64;
                }
                generated
            }
        } else {
            generated
        };
        if let Some(n) = played {
            self.last_midi_diff = Some(n.midi_note_diff);
        }
        played
    }

    /// Whether `beat` falls while the recorded line is being repeated
    /// (computes [`Bassist::replays`]).
    pub fn is_replaying(&self, beat: &Beat) -> (b: bool)
        ensures
            b == self.replays(*beat),
    {
        self.memory_bars > 0 && (beat.bar_count as u64) < self.repeat_end_bar
    }

    /// Plays one 16th-note step: repeats the recorded line while a repeat is
    /// running, and otherwise draws a fresh note (see
    /// [`Bassist::generate_note`]), recording it while the memory is on.
    /// Returns the note to sound.
    pub fn play(&mut self, beat: &Beat, base_roll: &IntensityRoll, chord: &Chord) -> (played: Option<Note>)
        requires
            old(self).playable(*beat),
            !old(self).replays(*beat) ==> (step_threshold(Self::step_of(*beat), *base_roll) matches Some(t) ==>
                distances_fit(bass_source(Self::step_of(*beat), *chord), t, old(self).last_of())),
        ensures
            old(self).stepped(final(self), *beat, if old(self).replays(*beat) { None } else { played }, played),
            !old(self).replays(*beat) ==> bass_drawn(
                played,
                bass_source(Self::step_of(*beat), *chord),
                step_threshold(Self::step_of(*beat), *base_roll),
                old(self).last_of(),
            ),
    {
        let generated = if self.is_replaying(beat) {
            None
        } else {
            let step = TonalPlayer::flat_step(beat);
            self.generate_note(step, base_roll, chord)
        };
        self.advance(beat, generated)
    }
}

/// Every note of the bassist's pool is a note of `notes` of at least
/// `min_strength`, and the pool is empty exactly when no note is that strong.
pub proof fn lemma_pool_of_strong_notes(notes: Seq<Note>, min_strength: int, last: Option<i32>)
    ensures
        forall|n: Note| #[trigger] proximate_pool(notes, min_strength, last).contains(n)
            ==> notes.contains(n) && n.strength >= min_strength,
        proximate_pool(notes, min_strength, last).len() == 0
            <==> forall|i: int| 0 <= i < notes.len() ==> (#[trigger] notes[i]).strength < min_strength,
{
    let candidates = strong_notes(notes, min_strength);
    lemma_strong_notes(notes, min_strength);
    if let Some(l) = last {
        lemma_near_notes(candidates, l as int);
        assert forall|n: Note| #[trigger] near_notes(candidates, l as int).contains(n) implies candidates.contains(n) by {
            let k = choose|k: int| 0 <= k < near_notes(candidates, l as int).len() && near_notes(candidates, l as int)[k] == n;
            assert(candidates.contains(near_notes(candidates, l as int)[k]));
        }
    }
    if candidates.len() > 0 {
        assert(candidates.contains(candidates[0]));
        assert(notes.contains(candidates[0]));
    }
    assert forall|i: int| 0 <= i < notes.len() && (#[trigger] notes[i]).strength >= min_strength implies candidates.len() > 0 by {
        assert(notes.contains(notes[i]));
        assert(candidates.contains(notes[i]));
    }
}

/// On every even 16th step (the downbeat, the quarters and the eighths) the
/// bassist draws a chord tone, and on every odd step a scale tone as a
/// passing note, always of at least the step's strength; on an even step
/// with a threshold it plays exactly when some chord tone is that strong.
pub proof fn lemma_bass_draws_by_position(r: Option<Note>, step: int, chord: Chord, roll: IntensityRoll, last: Option<i32>)
    requires
        step >= 0,
        bass_drawn(r, bass_source(step, chord), step_threshold(step, roll), last),
    ensures
        step % 2 == 0 ==> (r matches Some(n) ==> chord.chord_notes@.contains(n)),
        step % 2 == 1 ==> (r matches Some(n) ==> chord.scale_notes@.contains(n)),
        r matches Some(n) ==> (step_threshold(step, roll) matches Some(t) && n.strength >= t),
        step % 2 == 0 && step_threshold(step, roll) is Some ==> (r is Some <==> exists|i: int|
            0 <= i < chord.chord_notes@.len() && (#[trigger] chord.chord_notes@[i]).strength >= step_threshold(step, roll)->0),
{
    if let Some(t) = step_threshold(step, roll) {
        lemma_pool_of_strong_notes(bass_source(step, chord), t, last);
        if r is Some {
            assert(proximate_pool(bass_source(step, chord), t, last).contains(r->0));
        }
    }
}

/// When some strong enough note lies within [`PROXIMITY`] semitones of the
/// last played note, the bassist's choice does too.
pub proof fn lemma_prefers_close_notes(notes: Seq<Note>, min_strength: int, last: i32, chosen: Note)
    requires
        near_notes(strong_notes(notes, min_strength), last as int).len() > 0,
        proximate_pool(notes, min_strength, Some(last)).contains(chosen),
    ensures
        near(chosen, last as int),
{
    let pool = near_notes(strong_notes(notes, min_strength), last as int);
    lemma_near_notes(strong_notes(notes, min_strength), last as int);
    let i = choose|i: int| 0 <= i < pool.len() && pool[i] == chosen;
    assert(near(pool[i], last as int));
}

/// Step `k` of a performance: `states[k + 1]` is `states[k]` after playing
/// `beats[k]`, with `generated[k]` the freshly drawn note and `played[k]`
/// the note that sounded.
pub open spec fn performed_step(states: Seq<Bassist>, beats: Seq<Beat>, generated: Seq<Option<Note>>, played: Seq<Option<Note>>, k: int) -> bool {
    &&& states[k].playable(beats[k])
    &&& states[k].stepped(&states[k + 1], beats[k], generated[k], played[k])
}

/// `states` are the bassist's states through a performance of `beats`.
pub open spec fn performs(states: Seq<Bassist>, beats: Seq<Beat>, generated: Seq<Option<Note>>, played: Seq<Option<Note>>) -> bool {
    &&& states.len() == beats.len() + 1
    &&& generated.len() == beats.len()
    &&& played.len() == beats.len()
    &&& forall|k: int| 0 <= k < beats.len() ==> #[trigger] performed_step(states, beats, generated, played, k)
}

/// Through a performance the memory settings stay, and once a step has been
/// played with the memory on, the line holds one slot per step of it.
proof fn lemma_bass_keeps_memory(states: Seq<Bassist>, beats: Seq<Beat>, generated: Seq<Option<Note>>, played: Seq<Option<Note>>, k: int)
    requires
        performs(states, beats, generated, played),
        0 <= k < states.len(),
    ensures
        states[k].memory_bars_of() == states[0].memory_bars_of(),
        states[k].memory_repeats_of() == states[0].memory_repeats_of(),
        k > 0 && states[0].memory_bars_of() > 0
            ==> states[k].line_of().len() == states[0].memory_bars_of() * STEPS_PER_BAR,
    decreases k,
{
    if k > 0 {
        lemma_bass_keeps_memory(states, beats, generated, played, k - 1);
        assert(performed_step(states, beats, generated, played, k - 1));
    }
}

/// The line holds `generated[i]` at the slot of beat `i` after every step
/// from `i` to `k`.
proof fn lemma_bass_slot_kept(states: Seq<Bassist>, beats: Seq<Beat>, generated: Seq<Option<Note>>, played: Seq<Option<Note>>, i: int, k: int)
    requires
        performs(states, beats, generated, played),
        states[0].memory_bars_of() > 0,
        0 <= i < k <= beats.len(),
        !states[i].replays(beats[i]),
        forall|m: int| i < m < k && !(#[trigger] states[m].replays(beats[m])) ==> {
            &&& states[m].line_index(beats[m]) != states[i].line_index(beats[i])
            &&& states[m].line_index(beats[m]) != 0
        },
    ensures
        states[k].line_of().len() == states[0].memory_bars_of() * STEPS_PER_BAR,
        states[k].line_of()[states[i].line_index(beats[i])] == generated[i],
    decreases k,
{
    let m = k - 1;
    lemma_bass_keeps_memory(states, beats, generated, played, i);
    lemma_bass_keeps_memory(states, beats, generated, played, m);
    lemma_bass_keeps_memory(states, beats, generated, played, k);
    assert(performed_step(states, beats, generated, played, m));
    assert(performed_step(states, beats, generated, played, i));
    if m > i {
        lemma_bass_slot_kept(states, beats, generated, played, i, m);
    }
}

/// What the bassist records into its line is what it repeats: a note drawn
/// at some slot comes back when a later repeat reaches the same slot, as
/// long as no fresh recording in between wrote that slot or started the
/// line afresh.
pub proof fn lemma_bass_repeats_recorded_note(states: Seq<Bassist>, beats: Seq<Beat>, generated: Seq<Option<Note>>, played: Seq<Option<Note>>, i: int, j: int)
    requires
        performs(states, beats, generated, played),
        states[0].memory_bars_of() > 0,
        0 <= i < j < beats.len(),
        !states[i].replays(beats[i]),
        states[j].replays(beats[j]),
        states[j].line_index(beats[j]) == states[i].line_index(beats[i]),
        forall|m: int| i < m < j && !(#[trigger] states[m].replays(beats[m])) ==> {
            &&& states[m].line_index(beats[m]) != states[i].line_index(beats[i])
            &&& states[m].line_index(beats[m]) != 0
        },
    ensures
        played[j] == generated[i],
{
    lemma_bass_slot_kept(states, beats, generated, played, i, j);
    lemma_bass_keeps_memory(states, beats, generated, played, j);
    assert(performed_step(states, beats, generated, played, j));
}

} // verus!
