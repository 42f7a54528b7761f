//! The soloist: improvises a melody over the chords and shapes it in AABA
//! form (record A, play A, play A, record B, play A, then start over).
use vstd::prelude::*;
use vstd::arithmetic::div_mod::{lemma_fundamental_div_mod_converse, lemma_mod_breakdown};
use crate::clock::Beat;
use crate::level::LEVEL_HALF;
use crate::musicians::{
    draw_for_step, drawn_from, lemma_quarter_draws, step_threshold, Chord, IntensityRoll, Note, TonalPlayer,
    STEPS_PER_BAR,
};

verus! {

/// The sections of the AABA phrase form.
#[derive(Clone, Copy, PartialEq, Eq, Debug, Structural)]
pub enum AabaPhase {
    RecordA,
    PlayA1,
    PlayA2,
    RecordB,
    PlayA3,
}

impl AabaPhase {
    /// The section that follows this one.
    pub open spec fn following(self) -> AabaPhase {
        match self {
            AabaPhase::RecordA => AabaPhase::PlayA1,
            AabaPhase::PlayA1 => AabaPhase::PlayA2,
            AabaPhase::PlayA2 => AabaPhase::RecordB,
            AabaPhase::RecordB => AabaPhase::PlayA3,
            AabaPhase::PlayA3 => AabaPhase::RecordA,
        }
    }

    /// The sections in which a fresh melody is generated and recorded.
    pub open spec fn records(self) -> bool {
        self == AabaPhase::RecordA || self == AabaPhase::RecordB
    }

    pub fn next(self) -> (p: Self)
        ensures
            p == self.following(),
    {
        match self {
            AabaPhase::RecordA => AabaPhase::PlayA1,
            AabaPhase::PlayA1 => AabaPhase::PlayA2,
            AabaPhase::PlayA2 => AabaPhase::RecordB,
            AabaPhase::RecordB => AabaPhase::PlayA3,
            AabaPhase::PlayA3 => AabaPhase::RecordA,
        }
    }

    pub fn is_recording(self) -> (b: bool)
        ensures
            b == self.records(),
    {
        match self {
            AabaPhase::RecordA | AabaPhase::RecordB => true,
            _ => false,
        }
    }
}

/// Five section changes bring the form back to where it started, no change
/// stays in the same section, and of the five sections of one round exactly
/// two record (A and B) while the other three replay A.
pub proof fn lemma_aaba_cycle(p: AabaPhase)
    ensures
        p.following().following().following().following().following() == p,
        p.following() != p,
        recording_sections(p) == 2,
{
}

/// How many of the five sections of the round starting at `p` record.
pub open spec fn recording_sections(p: AabaPhase) -> int {
    let q1 = p.following();
    let q2 = q1.following();
    let q3 = q2.following();
    let q4 = q3.following();
    (if p.records() { 1int } else { 0int }) + (if q1.records() { 1int } else { 0int })
        + (if q2.records() { 1int } else { 0int }) + (if q3.records() { 1int } else { 0int })
        + (if q4.records() { 1int } else { 0int })
}

/// Where in the recorded melody a beat falls: the bar within the
/// `record_bars`-bar cycle, then the 16th step within the bar.
pub open spec fn recording_index_of(beat: Beat, record_bars: nat) -> int {
    ((beat.bar_count as int) % (record_bars as int)) * STEPS_PER_BAR + beat.beat * 4 + beat.sixteenth
}

/// A melody of `len` silent steps.
pub open spec fn silence(len: nat) -> Seq<Option<Note>> {
    Seq::new(len, |i: int| None)
}

/// Creates a vector of `len` silent steps.
pub fn silent_melody(len: usize) -> (v: Vec<Option<Note>>)
    ensures
        v@ == silence(len as nat),
{
    let mut v: Vec<Option<Note>> = Vec::new();
    while v.len() < len
        invariant
            v.len() <= len,
            v@ == silence(v.len() as nat),
        decreases len - v.len(),
    {
        v.push(None);
    }
    v
}

pub struct Soloist {
    /// Number of bars in each AABA section.
    record_bars: u32,
    melody_a: Vec<Option<Note>>,
    melody_b: Vec<Option<Note>>,
    phase: AabaPhase,
    /// The bar at which the current section ends and the next begins;
    /// 0 means "not set yet".
    section_end_bar: u64,
}

impl Soloist {
    pub closed spec fn bars(&self) -> nat {
        self.record_bars as nat
    }

    pub closed spec fn melody_a_of(&self) -> Seq<Option<Note>> {
        self.melody_a@
    }

    pub closed spec fn melody_b_of(&self) -> Seq<Option<Note>> {
        self.melody_b@
    }

    pub closed spec fn phase_of(&self) -> AabaPhase {
        self.phase
    }

    pub closed spec fn section_end_of(&self) -> nat {
        self.section_end_bar as nat
    }

    /// Both melodies hold one slot per 16th step of a section.
    pub open spec fn wf(&self) -> bool {
        &&& self.bars() * STEPS_PER_BAR <= u32::MAX
        &&& self.melody_a_of().len() == self.bars() * STEPS_PER_BAR
        &&& self.melody_b_of().len() == self.bars() * STEPS_PER_BAR
    }

    /// Whether this beat ends the current section and starts the next one.
    pub open spec fn turns_section(&self, beat: Beat) -> bool {
        &&& self.section_end_of() > 0
        &&& beat.bar_count >= self.section_end_of()
        &&& recording_index_of(beat, self.bars()) == 0
    }

    /// The section the soloist is in while playing `beat`.
    pub open spec fn phase_at(&self, beat: Beat) -> AabaPhase {
        if self.turns_section(beat) {
            self.phase_of().following()
        } else {
            self.phase_of()
        }
    }

    /// Melody A as it stands when `beat` is played (cleared when a new A
    /// section starts).
    pub open spec fn melody_a_at(&self, beat: Beat) -> Seq<Option<Note>> {
        if self.turns_section(beat) && self.phase_at(beat) == AabaPhase::RecordA {
            silence(self.melody_a_of().len())
        } else {
            self.melody_a_of()
        }
    }

    /// Melody B as it stands when `beat` is played.
    pub open spec fn melody_b_at(&self, beat: Beat) -> Seq<Option<Note>> {
        if self.turns_section(beat) && self.phase_at(beat) == AabaPhase::RecordB {
            silence(self.melody_b_of().len())
        } else {
            self.melody_b_of()
        }
    }

    /// The section end after `beat`: set to the next bar line once the last
    /// step of the section has sounded, and not moved while it is set.
    pub open spec fn section_end_after(&self, beat: Beat) -> nat {
        let end = if self.turns_section(beat) { 0 } else { self.section_end_of() };
        if recording_index_of(beat, self.bars()) >= self.bars() * STEPS_PER_BAR - 1 && end == 0 {
            beat.ceil_bars() as nat
        } else {
            end
        }
    }

    /// `post` is the soloist after playing `beat`, with `generated` the note
    /// improvised for it (used only while recording) and `played` the note
    /// that sounds.
    pub open spec fn stepped(&self, post: &Soloist, beat: Beat, generated: Option<Note>, played: Option<Note>) -> bool {
        let idx = recording_index_of(beat, self.bars());
        let phase = self.phase_at(beat);
        &&& post.bars() == self.bars()
        &&& post.phase_of() == phase
        &&& post.section_end_of() == self.section_end_after(beat)
        &&& if phase.records() {
            &&& played == generated
            &&& post.melody_a_of() == (if phase == AabaPhase::RecordA {
                self.melody_a_at(beat).update(idx, generated)
            } else {
                self.melody_a_at(beat)
            })
            &&& post.melody_b_of() == (if phase == AabaPhase::RecordB {
                self.melody_b_at(beat).update(idx, generated)
            } else {
                self.melody_b_at(beat)
            })
        } else {
            &&& played == self.melody_a_at(beat)[idx]
            &&& post.melody_a_of() == self.melody_a_at(beat)
            &&& post.melody_b_of() == self.melody_b_at(beat)
        }
    }

    /// A soloist about to record A, with both melodies silent.
    pub fn new(record_bars: u32) -> (s: Soloist)
        requires
            record_bars * STEPS_PER_BAR <= u32::MAX,
        ensures
            s.wf(),
            s.bars() == record_bars,
            s.phase_of() == AabaPhase::RecordA,
            s.section_end_of() == 0,
            s.melody_a_of() == silence((record_bars * STEPS_PER_BAR) as nat),
            s.melody_b_of() == silence((record_bars * STEPS_PER_BAR) as nat),
    {
        let total = (record_bars * STEPS_PER_BAR) as usize;
        Soloist {
            record_bars,
            melody_a: silent_melody(total),
            melody_b: silent_melody(total),
            phase: AabaPhase::RecordA,
            section_end_bar: 0,
        }
    }

    pub fn record_bars(&self) -> (r: u32)
        ensures
            r == self.bars(),
    {
        self.record_bars
    }

    pub fn phase(&self) -> (p: AabaPhase)
        ensures
            p == self.phase_of(),
    {
        self.phase
    }

    pub fn section_end_bar(&self) -> (e: u64)
        ensures
            e == self.section_end_of(),
    {
        self.section_end_bar
    }

    pub fn melody_a(&self) -> (m: &Vec<Option<Note>>)
        ensures
            m@ == self.melody_a_of(),
    {
        &self.melody_a
    }

    pub fn melody_b(&self) -> (m: &Vec<Option<Note>>)
        ensures
            m@ == self.melody_b_of(),
    {
        &self.melody_b
    }

    /// The slot of the recorded melody that `beat` falls on.
    pub fn recording_index(beat: &Beat, record_bars: u32) -> (idx: u32)
        requires
            record_bars > 0,
            recording_index_of(*beat, record_bars as nat) <= u32::MAX,
        ensures
            idx == recording_index_of(*beat, record_bars as nat),
    {
        let bar_in_cycle = beat.bar_count % record_bars;
        assert(bar_in_cycle * STEPS_PER_BAR >= 0);
        let within_bar = TonalPlayer::flat_step(beat);
        bar_in_cycle * STEPS_PER_BAR + within_bar
    }

    /// Improvises a note for 16th step `step` from the chord's scale tones,
    /// as [`step_threshold`] describes.
    pub fn generate_note(step: u32, chord: &Chord, roll: &IntensityRoll) -> (r: Option<Note>)
        ensures
            drawn_from(r, chord.scale_notes@, step_threshold(step as int, *roll)),
            step > 0 && step % 4 == 0 ==> (r is Some <==> roll.quarter && exists|i: int|
                0 <= i < chord.scale_notes@.len() && (#[trigger] chord.scale_notes@[i]).strength >= LEVEL_HALF),
    {
        let r = draw_for_step(chord.scale_notes.as_slice(), step, roll);
        proof {
            if step > 0 && step % 4 == 0 {
                lemma_quarter_draws(r, chord.scale_notes@, step as int, *roll);
            }
        }
        r
    }

    /// Whether `beat` ends the current section (computes
    /// [`Soloist::turns_section`]).
    fn section_turns(&self, beat: &Beat, idx: u32) -> (b: bool)
        requires
            idx == recording_index_of(*beat, self.bars()),
        ensures
            b == self.turns_section(*beat),
    {
        self.section_end_bar > 0 && beat.bar_count as u64 >= self.section_end_bar && idx == 0
    }

    /// Plays `beat` with `generated` as the improvised note: moves to the
    /// next section when the current one is over, records `generated` while
    /// recording, replays melody A otherwise, and returns the note to sound.
    pub fn advance(&mut self, beat: &Beat, generated: Option<Note>) -> (played: Option<Note>)
        requires
            old(self).wf(),
            old(self).bars() > 0,
            recording_index_of(*beat, old(self).bars()) < old(self).bars() * STEPS_PER_BAR,
        ensures
            final(self).wf(),
            old(self).stepped(final(self), *beat, generated, played),
    {
        let idx = Self::recording_index(beat, self.record_bars);
        let last_index = self.record_bars * STEPS_PER_BAR - 1;
        let ghost pre = *self;
        let ghost pre_a = self.melody_a@;
        let ghost pre_b = self.melody_b@;

        if self.section_turns(beat, idx) {
            self.phase = self.phase.next();
            self.section_end_bar = 0;
            match self.phase {
                AabaPhase::RecordA => {
                    self.melody_a = silent_melody(self.melody_a.len());
                },
                AabaPhase::RecordB => {
                    self.melody_b = silent_melody(self.melody_b.len());
                },
                _ => {},
            }
        }
        assert(self.melody_a@ == pre.melody_a_at(*beat));
        assert(self.melody_b@ == pre.melody_b_at(*beat));

        let played = if self.phase.is_recording() {
            match self.phase {
                AabaPhase::RecordA => self.melody_a.set(idx as usize, generated),
                _ => self.melody_b.set(idx as usize, generated),
            }
            generated
        } else {
            self.melody_a[idx as usize]
        };
        if idx >= last_index && self.section_end_bar == 0 {
            self.section_end_bar = beat.ceil_bar();
        }
        played
    }

    /// Whether the soloist can play `beat` (computes the `requires` of
    /// [`Soloist::play`]): the beat falls on a slot of the melodies.
    pub fn can_play(&self, beat: &Beat) -> (b: bool)
        ensures
            b == (self.wf() && self.bars() > 0
                && recording_index_of(*beat, self.bars()) < self.bars() * STEPS_PER_BAR),
    {
        let total: u64 = self.record_bars as u64 * 16;
        if !(total <= u32::MAX as u64 && self.melody_a.len() as u64 == total
            && self.melody_b.len() as u64 == total && self.record_bars > 0) {
            return false;
        }
        let idx: u64 = (beat.bar_count % self.record_bars) as u64 * 16 + beat.beat as u64 * 4 + beat.sixteenth as u64;
        idx < total
    }

    /// The section the soloist is in while playing `beat` (computes
    /// [`Soloist::phase_at`]).
    pub fn phase_for(&self, beat: &Beat) -> (p: AabaPhase)
        requires
            self.wf(),
            self.bars() > 0,
            recording_index_of(*beat, self.bars()) < self.bars() * STEPS_PER_BAR,
        ensures
            p == self.phase_at(*beat),
    {
        let idx = Self::recording_index(beat, self.record_bars);
        if self.section_turns(beat, idx) {
            self.phase.next()
        } else {
            self.phase
        }
    }

    /// Plays one 16th-note step: improvises a note from the chord's scale
    /// tones while recording (see [`Soloist::generate_note`]) and otherwise
    /// replays melody A, moving through the AABA form as sections end.
    /// Returns the note to sound.
    pub fn play(&mut self, beat: &Beat, chord: &Chord, roll: &IntensityRoll) -> (played: Option<Note>)
        requires
            old(self).wf(),
            old(self).bars() > 0,
            recording_index_of(*beat, old(self).bars()) < old(self).bars() * STEPS_PER_BAR,
        ensures
            final(self).wf(),
            old(self).stepped(
                final(self),
                *beat,
                if old(self).phase_at(*beat).records() { played } else { None },
                played,
            ),
            old(self).phase_at(*beat).records() ==> drawn_from(
                played,
                chord.scale_notes@,
                step_threshold(beat.beat * 4 + beat.sixteenth, *roll),
            ),
    {
        let phase = self.phase_for(beat);
        let generated = if phase.is_recording() {
            let step = TonalPlayer::flat_step(beat);
            Self::generate_note(step, chord, roll)
        } else {
            None
        };
        self.advance(beat, generated)
    }
}

/// The recorded melody repeats every `record_bars` bars: beats a whole cycle
/// apart fall on the same slot.
pub proof fn lemma_recording_index_wraps(beat: Beat, later: Beat, record_bars: nat)
    requires
        record_bars > 0,
        later.beat == beat.beat,
        later.sixteenth == beat.sixteenth,
        later.bar_count == beat.bar_count + record_bars,
    ensures
        recording_index_of(later, record_bars) == recording_index_of(beat, record_bars),
{
    assert((beat.bar_count as int + record_bars) % (record_bars as int) == (beat.bar_count as int) % (record_bars as int)) by (nonlinear_arith)
        requires record_bars > 0;
}


/// Step `k` of a performance: `states[k + 1]` is `states[k]` after playing
/// `beats[k]`, with `generated[k]` the note improvised for it and
/// `played[k]` the note that sounded.
pub open spec fn performed_step(states: Seq<Soloist>, beats: Seq<Beat>, generated: Seq<Option<Note>>, played: Seq<Option<Note>>, k: int) -> bool {
    states[k].stepped(&states[k + 1], beats[k], generated[k], played[k])
}

/// `states` are the soloist's states through a performance of `beats`,
/// each beat falling on a slot of the melodies.
pub open spec fn performs(states: Seq<Soloist>, beats: Seq<Beat>, generated: Seq<Option<Note>>, played: Seq<Option<Note>>) -> bool {
    &&& states.len() == beats.len() + 1
    &&& generated.len() == beats.len()
    &&& played.len() == beats.len()
    &&& forall|k: int| 0 <= k < beats.len() ==> #[trigger] performed_step(states, beats, generated, played, k)
    &&& forall|k: int| 0 <= k < beats.len()
        ==> recording_index_of(#[trigger] beats[k], states[k].bars()) < states[k].bars() * STEPS_PER_BAR
}

/// Through a performance the section length stays and both melodies keep
/// one slot per step of a section.
proof fn lemma_performance_keeps_shape(states: Seq<Soloist>, beats: Seq<Beat>, generated: Seq<Option<Note>>, played: Seq<Option<Note>>, k: int)
    requires
        performs(states, beats, generated, played),
        states[0].wf(),
        states[0].bars() > 0,
        0 <= k < states.len(),
    ensures
        states[k].wf(),
        states[k].bars() == states[0].bars(),
    decreases k,
{
    if k > 0 {
        lemma_performance_keeps_shape(states, beats, generated, played, k - 1);
        assert(performed_step(states, beats, generated, played, k - 1));
        let pre = states[k - 1];
        let beat = beats[k - 1];
        assert(recording_index_of(beats[k - 1], states[k - 1].bars()) < states[k - 1].bars() * STEPS_PER_BAR);
        assert(pre.melody_a_at(beat).len() == pre.melody_a_of().len());
        assert(pre.melody_b_at(beat).len() == pre.melody_b_of().len());
    }
}

/// Melody A holds `generated[i]` at the slot of beat `i` after every step
/// from `i` to `k`.
proof fn lemma_slot_kept(states: Seq<Soloist>, beats: Seq<Beat>, generated: Seq<Option<Note>>, played: Seq<Option<Note>>, i: int, k: int)
    requires
        performs(states, beats, generated, played),
        states[0].wf(),
        states[0].bars() > 0,
        0 <= i < k <= beats.len(),
        states[i].phase_at(beats[i]) == AabaPhase::RecordA,
        forall|m: int| i < m < k && #[trigger] states[m].phase_at(beats[m]) == AabaPhase::RecordA ==> {
            &&& !states[m].turns_section(beats[m])
            &&& recording_index_of(beats[m], states[0].bars()) != recording_index_of(beats[i], states[0].bars())
        },
    ensures
        states[k].melody_a_of()[recording_index_of(beats[i], states[0].bars())] == generated[i],
    decreases k,
{
    let bars = states[0].bars();
    let idx = recording_index_of(beats[i], bars);
    let m = k - 1;
    lemma_performance_keeps_shape(states, beats, generated, played, m);
    lemma_performance_keeps_shape(states, beats, generated, played, k);
    assert(performed_step(states, beats, generated, played, m));
    lemma_performance_keeps_shape(states, beats, generated, played, i);
    assert(recording_index_of(beats[m], states[m].bars()) < states[m].bars() * STEPS_PER_BAR);
    assert(recording_index_of(beats[i], states[i].bars()) < states[i].bars() * STEPS_PER_BAR);
    if m > i {
        lemma_slot_kept(states, beats, generated, played, i, m);
    }
}

/// What the soloist records into melody A is what it replays: a note
/// recorded at some slot comes back when a later replaying section reaches
/// the same slot, as long as no recording in between wrote that slot or
/// started melody A afresh.
pub proof fn lemma_replays_recorded_note(states: Seq<Soloist>, beats: Seq<Beat>, generated: Seq<Option<Note>>, played: Seq<Option<Note>>, i: int, j: int)
    requires
        performs(states, beats, generated, played),
        states[0].wf(),
        states[0].bars() > 0,
        0 <= i < j < beats.len(),
        states[i].phase_at(beats[i]) == AabaPhase::RecordA,
        !states[j].phase_at(beats[j]).records(),
        recording_index_of(beats[j], states[0].bars()) == recording_index_of(beats[i], states[0].bars()),
        forall|m: int| i < m < j && #[trigger] states[m].phase_at(beats[m]) == AabaPhase::RecordA ==> {
            &&& !states[m].turns_section(beats[m])
            &&& recording_index_of(beats[m], states[0].bars()) != recording_index_of(beats[i], states[0].bars())
        },
    ensures
        played[j] == generated[i],
{
    lemma_slot_kept(states, beats, generated, played, i, j);
    lemma_performance_keeps_shape(states, beats, generated, played, j);
    assert(performed_step(states, beats, generated, played, j));
    assert(recording_index_of(beats[j], states[j].bars()) < states[j].bars() * STEPS_PER_BAR);
}

/// `beat` is the 16th note number `t` of a 4/4 performance started on the
/// downbeat of bar 0.
pub open spec fn counts(beat: Beat, t: int) -> bool {
    &&& beat.bar_count == t / 16
    &&& beat.beat == (t / 4) % 4
    &&& beat.sixteenth == t % 4
}

/// The section of the form that section number `s` of a run from a fresh
/// soloist is in: RecordA, PlayA1, PlayA2, RecordB, PlayA3, RecordA, ...
pub open spec fn section_phase(s: nat) -> AabaPhase
    decreases s,
{
    if s == 0 {
        AabaPhase::RecordA
    } else {
        section_phase((s - 1) as nat).following()
    }
}

/// Section numbers five apart are in the same section of the form; those
/// that are multiples of five record A.
proof fn lemma_section_phase_cycle(s: nat)
    ensures
        section_phase(s) == section_phase((s % 5) as nat),
        s % 5 == 0 <==> section_phase(s) == AabaPhase::RecordA,
    decreases s,
{
    if s >= 5 {
        lemma_section_phase_cycle((s - 5) as nat);
        lemma_aaba_cycle(section_phase((s - 5) as nat));
        assert(section_phase(s) == section_phase((s - 5) as nat).following().following().following().following().following()) by {
            reveal_with_fuel(section_phase, 6);
        }
        assert((s - 5) % 5 == s % 5);
    } else {
        reveal_with_fuel(section_phase, 6);
    }
}

/// The slot of 16th note `t` is `t` modulo the section length.
proof fn lemma_slot_of_count(beat: Beat, t: int, bars: nat)
    requires
        counts(beat, t),
        0 <= t,
        bars > 0,
    ensures
        recording_index_of(beat, bars) == t % (16 * (bars as int)),
        beat.beat == 0 && beat.sixteenth == 0 <==> t % 16 == 0,
{
    lemma_mod_breakdown(t, 4, 4);
    lemma_mod_breakdown(t, 16, bars as int);
}

/// Where a section starts, its bar is the section number times its bars;
/// where it ends, the next bar line is one section further.
proof fn lemma_section_bars(beat: Beat, t: int, bars: nat)
    requires
        counts(beat, t),
        0 <= t,
        bars > 0,
    ensures
        t % (16 * (bars as int)) == 0 ==> beat.bar_count == (t / (16 * (bars as int))) * bars,
        t % (16 * (bars as int)) == 16 * (bars as int) - 1 ==> beat.ceil_bars() == (t / (16 * (bars as int)) + 1) * bars,
{
    let l: int = 16 * (bars as int);
    let q = t / l;
    let r = t % l;
    assert(l > 0);
    assert(t == l * q + r) by (nonlinear_arith) requires l > 0, q == t / l, r == t % l;
    if r == 0 {
        assert(t == (q * bars) * 16 + 0) by (nonlinear_arith) requires t == l * q + r, r == 0, l == 16 * bars;
        lemma_fundamental_div_mod_converse(t, 16, q * bars, 0);
    }
    if r == l - 1 {
        assert(t == (q * bars + bars - 1) * 16 + 15) by (nonlinear_arith)
            requires t == l * q + r, r == l - 1, l == 16 * bars;
        lemma_fundamental_div_mod_converse(t, 16, q * bars + bars - 1, 15);
        lemma_mod_breakdown(t, 4, 4);
        assert((q * bars + bars - 1) + 1 == (q + 1) * bars) by (nonlinear_arith);
    }
}

/// Consecutive 16th notes: stepping back one note from a section start
/// lands on the last slot of the previous section, and otherwise stays in
/// the same section one slot earlier.
proof fn lemma_previous_note(t: int, l: int)
    requires
        t > 0,
        l > 1,
    ensures
        t % l == 0 ==> (t - 1) / l == t / l - 1 && (t - 1) % l == l - 1,
        t % l != 0 ==> (t - 1) / l == t / l && (t - 1) % l == t % l - 1,
{
    let q = t / l;
    let r = t % l;
    assert(t == q * l + r) by (nonlinear_arith) requires l > 0, q == t / l, r == t % l;
    if r == 0 {
        assert(t - 1 == (q - 1) * l + (l - 1)) by (nonlinear_arith) requires t == q * l + r, r == 0;
        lemma_fundamental_div_mod_converse(t - 1, l, q - 1, l - 1);
    } else {
        lemma_fundamental_div_mod_converse(t - 1, l, q, r - 1);
    }
}

/// A fresh soloist: about to record A, with no section end set.
pub open spec fn fresh(s: Soloist) -> bool {
    &&& s.wf()
    &&& s.bars() > 0
    &&& s.phase_of() == AabaPhase::RecordA
    &&& s.section_end_of() == 0
}

/// `states` are a fresh soloist's states through the consecutive 16th
/// notes `beats` of a 4/4 performance started on bar 0.
pub open spec fn fresh_run(states: Seq<Soloist>, beats: Seq<Beat>, generated: Seq<Option<Note>>, played: Seq<Option<Note>>) -> bool {
    &&& performs(states, beats, generated, played)
    &&& fresh(states[0])
    &&& forall|t: int| 0 <= t < beats.len() ==> counts(#[trigger] beats[t], t)
}

/// Through a fresh run, the soloist before note `t` is in the section of
/// the previous note, with its end set exactly after a section's last
/// note; so note `t` plays in section `t / section length`, and a section
/// turns exactly on the first note of every section but the first.
proof fn lemma_fresh_run_sections(states: Seq<Soloist>, beats: Seq<Beat>, generated: Seq<Option<Note>>, played: Seq<Option<Note>>, t: int)
    requires
        fresh_run(states, beats, generated, played),
        0 <= t <= beats.len(),
    ensures
        states[t].bars() == states[0].bars(),
        t == 0 ==> states[t].phase_of() == AabaPhase::RecordA && states[t].section_end_of() == 0,
        t > 0 ==> states[t].phase_of() == section_phase(((t - 1) / (16 * (states[0].bars() as int))) as nat),
        t > 0 ==> states[t].section_end_of() == (if (t - 1) % (16 * (states[0].bars() as int)) == 16 * (states[0].bars() as int) - 1 {
            ((t - 1) / (16 * (states[0].bars() as int)) + 1) * states[0].bars()
        } else {
            0
        }),
        t < beats.len() ==> states[t].phase_at(beats[t]) == section_phase((t / (16 * (states[0].bars() as int))) as nat),
        t < beats.len() ==> (states[t].turns_section(beats[t]) <==> t > 0 && t % (16 * (states[0].bars() as int)) == 0),
    decreases t,
{
    let bars = states[0].bars();
    let l: int = 16 * (bars as int);
    assert(l > 1);
    if t > 0 {
        lemma_fresh_run_sections(states, beats, generated, played, t - 1);
        lemma_performance_keeps_shape(states, beats, generated, played, t - 1);
        assert(performed_step(states, beats, generated, played, t - 1));
        assert(counts(beats[t - 1], t - 1));
        lemma_slot_of_count(beats[t - 1], t - 1, bars);
        lemma_section_bars(beats[t - 1], t - 1, bars);
        if t - 1 > 0 {
            lemma_previous_note(t - 1, l);
        }
    }
    if t < beats.len() {
        assert(counts(beats[t], t));
        lemma_slot_of_count(beats[t], t, bars);
        lemma_section_bars(beats[t], t, bars);
        if t > 0 {
            lemma_previous_note(t, l);
            if t % l == 0 {
                assert(section_phase((t / l) as nat) == section_phase(((t / l) - 1) as nat).following());
            }
        }
    }
}

/// The AABA form from a fresh start: playing consecutive 16th notes, a
/// soloist spends each `record_bars`-bar section in turn recording A,
/// replaying it twice, recording B and replaying A once more, and every
/// note of a replaying section is the note generated on the same slot of
/// the last section that recorded A.
pub proof fn lemma_aaba_from_fresh_start(states: Seq<Soloist>, beats: Seq<Beat>, generated: Seq<Option<Note>>, played: Seq<Option<Note>>, j: int)
    requires
        fresh_run(states, beats, generated, played),
        0 <= j < beats.len(),
    ensures
        states[j].phase_at(beats[j]) == section_phase((j / (16 * (states[0].bars() as int))) as nat),
        !section_phase((j / (16 * (states[0].bars() as int))) as nat).records() ==> {
            let l = 16 * (states[0].bars() as int);
            played[j] == generated[(j / l / 5) * 5 * l + j % l]
        },
{
    let bars = states[0].bars();
    let l: int = 16 * (bars as int);
    lemma_fresh_run_sections(states, beats, generated, played, j);
    let sj = (j / l) as nat;
    if !section_phase(sj).records() {
        let q = j / l / 5;
        let i = q * 5 * l + j % l;
        lemma_section_phase_cycle(sj);
        assert(j / l == q * 5 + (j / l) % 5) by (nonlinear_arith) requires q == j / l / 5, j / l >= 0;
        assert((j / l) % 5 != 0);
        assert(j == (j / l) * l + j % l) by (nonlinear_arith) requires l > 0;
        assert(0 <= j % l < l);
        assert(i < j) by (nonlinear_arith)
            requires i == q * 5 * l + j % l, j == (j / l) * l + j % l, j / l > q * 5, l > 0;
        lemma_fundamental_div_mod_converse(i, l, q * 5, j % l);
        assert(i == (q * 5) * l + j % l) by (nonlinear_arith) requires i == q * 5 * l + j % l;
        lemma_fresh_run_sections(states, beats, generated, played, i);
        lemma_section_phase_cycle((q * 5) as nat);
        assert(counts(beats[i], i));
        assert(counts(beats[j], j));
        lemma_slot_of_count(beats[i], i, bars);
        lemma_slot_of_count(beats[j], j, bars);
        assert forall|m: int| i < m < j && #[trigger] states[m].phase_at(beats[m]) == AabaPhase::RecordA implies {
            &&& !states[m].turns_section(beats[m])
            &&& recording_index_of(beats[m], states[0].bars()) != recording_index_of(beats[i], states[0].bars())
        } by {
            lemma_fresh_run_sections(states, beats, generated, played, m);
            lemma_section_phase_cycle((m / l) as nat);
            assert(counts(beats[m], m));
            lemma_slot_of_count(beats[m], m, bars);
            assert(m == (m / l) * l + m % l) by (nonlinear_arith) requires l > 0;
            assert(q * 5 <= m / l <= j / l) by (nonlinear_arith)
                requires i < m < j, i == (q * 5) * l + j % l, j % l >= 0, m == (m / l) * l + m % l,
                    0 <= m % l < l, j == (j / l) * l + j % l, 0 <= j % l < l, l > 0;
            assert(m / l == q * 5);
            assert(m % l > j % l) by (nonlinear_arith)
                requires i < m, i == (q * 5) * l + j % l, m == (q * 5) * l + m % l;
        }
        lemma_replays_recorded_note(states, beats, generated, played, i, j);
    }
}

} // verus!
