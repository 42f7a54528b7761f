//! Drummers: each plays one drum sample on a fixed pattern of 16th positions
//! whose notes carry strengths, so that the pattern fills in as intensity
//! rises. A super drummer leads a kit of drummers, with a half-time feel at
//! low intensity and an alternate fill pattern every few bars.
use vstd::prelude::*;
use crate::clock::Beat;
use crate::level::{
    LEVEL_HALF, LEVEL_ONE, LEVEL_QUARTER, LEVEL_TENTH, LEVEL_THIRD, LEVEL_THREE_QUARTERS, LEVEL_THREE_TENTHS,
    LEVEL_TWO_THIRDS,
};
use crate::musicians::Note;
use crate::rng::choose_below;

verus! {

/// A drum pattern entry: the (beat, 16th) position within the bar and the
/// note played there.
pub type Hit = ((u32, u32), Note);

/// The notes of `pattern` at position (`beat`, `sixteenth`) whose strength is
/// at least `min_strength`, in order.
pub open spec fn hits_at(pattern: Seq<Hit>, beat: u32, sixteenth: u32, min_strength: int) -> Seq<Note>
    decreases pattern.len(),
{
    if pattern.len() == 0 {
        Seq::empty()
    } else {
        let rest = hits_at(pattern.drop_last(), beat, sixteenth, min_strength);
        let last = pattern.last();
        if last.0.0 == beat && last.0.1 == sixteenth && last.1.strength >= min_strength {
            rest.push(last.1)
        } else {
            rest
        }
    }
}

/// `r` is a possible outcome of a drummer with `pattern` playing at
/// (`beat`, `sixteenth`) with threshold `min_strength`.
pub open spec fn drum_drawn(r: Option<Note>, pattern: Seq<Hit>, beat: u32, sixteenth: u32, min_strength: int) -> bool {
    &&& (r is None <==> hits_at(pattern, beat, sixteenth, min_strength).len() == 0)
    &&& (r matches Some(n) ==> hits_at(pattern, beat, sixteenth, min_strength).contains(n))
}

pub struct Drummer {
    pub notes: Vec<Hit>,
}

impl Drummer {
    /// A drummer playing `notes`, a pattern with at most one note per
    /// position.
    pub fn new(notes: Vec<Hit>) -> (d: Drummer)
        requires
            distinct_positions(notes@),
        ensures
            d.notes@ == notes@,
    {
        Drummer { notes }
    }

    /// Whether `notes` holds at most one note per position (computes
    /// [`distinct_positions`]).
    pub fn positions_distinct(notes: &Vec<Hit>) -> (b: bool)
        ensures
            b == distinct_positions(notes@),
    {
        let mut i: usize = 0;
        while i < notes.len()
            invariant
                i <= notes@.len(),
                forall|x: int, y: int| 0 <= x < notes@.len() && 0 <= y < notes@.len() && x != y && (x < i || y < i)
                    ==> (#[trigger] notes@[x]).0 != (#[trigger] notes@[y]).0,
            decreases notes.len() - i,
        {
            let mut j: usize = 0;
            while j < notes.len()
                invariant
                    i < notes@.len(),
                    j <= notes@.len(),
                    forall|x: int, y: int| 0 <= x < notes@.len() && 0 <= y < notes@.len() && x != y && (x < i || y < i)
                        ==> (#[trigger] notes@[x]).0 != (#[trigger] notes@[y]).0,
                    forall|y: int| 0 <= y < j && y != i ==> notes@[i as int].0 != (#[trigger] notes@[y]).0,
                decreases notes.len() - j,
            {
                if j != i && notes[i].0.0 == notes[j].0.0 && notes[i].0.1 == notes[j].0.1 {
                    assert(notes@[i as int].0 == notes@[j as int].0);
                    return false;
                }
                j = j + 1;
            }
            i = i + 1;
        }
        true
    }

    fn matching_hits(&self, beat: &Beat, min_strength: i32) -> (v: Vec<Note>)
        ensures
            v@ == hits_at(self.notes@, beat.beat, beat.sixteenth, min_strength as int),
    {
        let mut v: Vec<Note> = Vec::new();
        let mut i: usize = 0;
        while i < self.notes.len()
            invariant
                i <= self.notes@.len(),
                v@ == hits_at(self.notes@.take(i as int), beat.beat, beat.sixteenth, min_strength as int),
            decreases self.notes.len() - i,
        {
            assert(self.notes@.take(i + 1).drop_last() =~= self.notes@.take(i as int));
            let (position, note) = self.notes[i];
            if position.0 == beat.beat && position.1 == beat.sixteenth && note.strength >= min_strength {
                v.push(note);
            }
            i = i + 1;
        }
        assert(self.notes@.take(self.notes@.len() as int) =~= self.notes@);
        v
    }

    /// The note this drummer plays on `beat`: a random one among the pattern
    /// notes at the beat's position whose strength is at least
    /// `min_strength` (the level of `1.0 - intensity`), so strength 1.0
    /// always plays and strength 0.0 only at full intensity.
    pub fn play(&self, beat: &Beat, min_strength: i32) -> (r: Option<Note>)
        ensures
            drum_drawn(r, self.notes@, beat.beat, beat.sixteenth, min_strength as int),
    {
        let candidates = self.matching_hits(beat, min_strength);
        match choose_below(candidates.len()) {
            Some(pick) => {
                assert(candidates@.contains(candidates@[pick as int]));
                Some(candidates[pick])
            },
            None => None,
        }
    }
}

/// Lowering the strength threshold (raising the intensity) never silences a
/// position of a pattern that plays at the higher threshold.
pub proof fn lemma_lower_threshold_keeps_hits(pattern: Seq<Hit>, beat: u32, sixteenth: u32, low: int, high: int)
    requires
        low <= high,
    ensures
        hits_at(pattern, beat, sixteenth, high).len() > 0 ==> hits_at(pattern, beat, sixteenth, low).len() > 0,
    decreases pattern.len(),
{
    if pattern.len() > 0 {
        lemma_lower_threshold_keeps_hits(pattern.drop_last(), beat, sixteenth, low, high);
    }
}

/// A pattern holds at most one note per position, as a map from positions
/// to notes does.
pub open spec fn distinct_positions(pattern: Seq<Hit>) -> bool {
    forall|i: int, j: int| 0 <= i < pattern.len() && 0 <= j < pattern.len() && i != j
        ==> (#[trigger] pattern[i]).0 != (#[trigger] pattern[j]).0
}

/// A note found at a position comes from a pattern entry at that position.
proof fn lemma_hit_has_position(pattern: Seq<Hit>, beat: u32, sixteenth: u32, min_strength: int)
    ensures
        hits_at(pattern, beat, sixteenth, min_strength).len() > 0
            ==> exists|i: int| 0 <= i < pattern.len() && (#[trigger] pattern[i]).0 == (beat, sixteenth),
    decreases pattern.len(),
{
    if pattern.len() > 0 {
        let rest = pattern.drop_last();
        lemma_hit_has_position(rest, beat, sixteenth, min_strength);
        if hits_at(rest, beat, sixteenth, min_strength).len() > 0 {
            let i = choose|i: int| 0 <= i < rest.len() && (#[trigger] rest[i]).0 == (beat, sixteenth);
            assert(pattern[i] == rest[i]);
        } else if hits_at(pattern, beat, sixteenth, min_strength).len() > 0 {
            assert(pattern[pattern.len() - 1].0 == (beat, sixteenth));
        }
    }
}

/// With at most one note per position, a drummer has at most one candidate
/// on every step: what it plays is decided, not drawn.
pub proof fn lemma_one_hit_per_position(pattern: Seq<Hit>, beat: u32, sixteenth: u32, min_strength: int)
    requires
        distinct_positions(pattern),
    ensures
        hits_at(pattern, beat, sixteenth, min_strength).len() <= 1,
    decreases pattern.len(),
{
    if pattern.len() > 0 {
        let rest = pattern.drop_last();
        assert(distinct_positions(rest)) by {
            assert forall|i: int, j: int| 0 <= i < rest.len() && 0 <= j < rest.len() && i != j
                implies (#[trigger] rest[i]).0 != (#[trigger] rest[j]).0 by {
                assert(rest[i] == pattern[i] && rest[j] == pattern[j]);
            }
        }
        lemma_one_hit_per_position(rest, beat, sixteenth, min_strength);
        let last = pattern.last();
        if last.0.0 == beat && last.0.1 == sixteenth && last.1.strength >= min_strength {
            lemma_hit_has_position(rest, beat, sixteenth, min_strength);
            if hits_at(rest, beat, sixteenth, min_strength).len() > 0 {
                let i = choose|i: int| 0 <= i < rest.len() && (#[trigger] rest[i]).0 == (beat, sixteenth);
                assert(rest[i] == pattern[i]);
                assert(pattern[i].0 != pattern[pattern.len() - 1].0);
            }
        }
    }
}

/// The set of drummers that plays a step.
#[derive(Clone, Copy, PartialEq, Eq, Debug, Structural)]
pub enum DrumKit {
    Regular,
    Fill,
    HalfTime,
    DoubleTime,
}

/// What the kit plays on one step: which set of drummers and, for each of
/// its drummers in order, the note it plays. An empty `hits` means the step
/// is skipped.
pub struct DrumHits {
    pub kit: DrumKit,
    pub hits: Vec<Option<Note>>,
}

pub struct SuperDrummer {
    pub drums: Vec<Drummer>,
    /// Alternate pattern played in the last bar of every `fill_every` bars.
    /// Set `fill_every = 0` to disable fills.
    pub fill_every: u32,
    pub fill_drums: Vec<Drummer>,
    /// Swap the whole kit by intensity: the half-time kit below 0.33, the
    /// double-time kit from 0.67 up (each only when it has drummers).
    pub auto_time_feel: bool,
    pub half_time_drums: Vec<Drummer>,
    pub double_time_drums: Vec<Drummer>,
}

/// The half-time feel: below intensity 0.3 only every other 16th tick plays.
pub open spec fn half_time_skips(intensity: int, sixteenth_count: u32) -> bool {
    intensity < LEVEL_THREE_TENTHS && sixteenth_count % 2 != 0
}

impl SuperDrummer {
    /// A kit of `drums`, without fills or time-feel switching.
    pub fn new(drums: Vec<Drummer>) -> (s: SuperDrummer)
        ensures
            s.drums@ == drums@,
            s.fill_every == 0,
            s.fill_drums@.len() == 0,
            !s.auto_time_feel,
            s.half_time_drums@.len() == 0,
            s.double_time_drums@.len() == 0,
    {
        SuperDrummer {
            drums,
            fill_every: 0,
            fill_drums: Vec::new(),
            auto_time_feel: false,
            half_time_drums: Vec::new(),
            double_time_drums: Vec::new(),
        }
    }

    /// Attaches a fill pattern triggered every `fill_every` bars.
    pub fn with_fills(self, fill_every: u32, fill_drums: Vec<Drummer>) -> (s: SuperDrummer)
        ensures
            s.drums@ == self.drums@,
            s.fill_every == fill_every,
            s.fill_drums@ == fill_drums@,
            s.auto_time_feel == self.auto_time_feel,
            s.half_time_drums@ == self.half_time_drums@,
            s.double_time_drums@ == self.double_time_drums@,
    {
        let mut s = self;
        s.fill_every = fill_every;
        s.fill_drums = fill_drums;
        s
    }

    /// The kit that plays a step at `intensity` in bar `bar_count` (when the
    /// step is not skipped): the fill kit in a fill bar, otherwise the
    /// half-time or double-time kit when the time feel follows the intensity,
    /// otherwise the regular kit.
    pub open spec fn kit_at(&self, bar_count: u32, intensity: int) -> DrumKit {
        if self.fill_bar(bar_count) {
            DrumKit::Fill
        } else if self.auto_time_feel && intensity < LEVEL_THIRD && self.half_time_drums@.len() > 0 {
            DrumKit::HalfTime
        } else if self.auto_time_feel && intensity >= LEVEL_TWO_THIRDS && self.double_time_drums@.len() > 0 {
            DrumKit::DoubleTime
        } else {
            DrumKit::Regular
        }
    }

    /// The drummers of `kit`.
    pub open spec fn drummers(&self, kit: DrumKit) -> Seq<Drummer> {
        match kit {
            DrumKit::Regular => self.drums@,
            DrumKit::Fill => self.fill_drums@,
            DrumKit::HalfTime => self.half_time_drums@,
            DrumKit::DoubleTime => self.double_time_drums@,
        }
    }

    /// Whether the half-time feel skips this tick at `intensity` (a level).
    pub fn half_time_gate(intensity: i32, sixteenth_count: u32) -> (skip: bool)
        ensures
            skip == half_time_skips(intensity as int, sixteenth_count),
            sixteenth_count % 2 == 0 ==> !skip,
            skip <==> intensity < LEVEL_THREE_TENTHS && sixteenth_count % 2 == 1,
    {
        intensity < LEVEL_THREE_TENTHS && sixteenth_count % 2 != 0
    }

    /// Whether bar `bar_count` is the last bar of a `fill_every`-bar group
    /// and a fill kit is attached.
    pub open spec fn fill_bar(&self, bar_count: u32) -> bool {
        &&& self.fill_every > 0
        &&& self.fill_drums@.len() > 0
        &&& (bar_count + 1) % (self.fill_every as int) == 0
    }

    /// Computes [`SuperDrummer::fill_bar`].
    pub fn is_fill_bar(&self, bar_count: u32) -> (b: bool)
        requires
            self.fill_every > 0 && self.fill_drums@.len() > 0 ==> bar_count < u32::MAX,
        ensures
            b == self.fill_bar(bar_count),
    {
        self.fill_every > 0 && !self.fill_drums.is_empty() && (bar_count + 1) % self.fill_every == 0
    }

    /// Plays every drummer of `kit` on `beat`.
    fn play_kit(kit: &Vec<Drummer>, beat: &Beat, min_strength: i32) -> (hits: Vec<Option<Note>>)
        ensures
            hits@.len() == kit@.len(),
            forall|i: int| 0 <= i < kit@.len() ==> drum_drawn(
                #[trigger] hits@[i], kit@[i].notes@, beat.beat, beat.sixteenth, min_strength as int),
    {
        let mut hits: Vec<Option<Note>> = Vec::new();
        let mut i: usize = 0;
        while i < kit.len()
            invariant
                i <= kit@.len(),
                hits@.len() == i,
                forall|j: int| 0 <= j < i ==> drum_drawn(
                    #[trigger] hits@[j], kit@[j].notes@, beat.beat, beat.sixteenth, min_strength as int),
            decreases kit.len() - i,
        {
            hits.push(kit[i].play(beat, min_strength));
            i = i + 1;
        }
        hits
    }

    /// Plays one 16th-note step: skips it under the half-time feel, and
    /// otherwise lets every drummer of the kit of [`SuperDrummer::kit_at`]
    /// play. `intensity` is the music's intensity and `min_strength` the
    /// level of `1.0 - intensity`.
    pub fn play(&self, beat: &Beat, intensity: i32, min_strength: i32) -> (r: DrumHits)
        requires
            self.fill_every > 0 && self.fill_drums@.len() > 0 ==> beat.bar_count < u32::MAX,
        ensures
            half_time_skips(intensity as int, beat.sixteenth_count) ==> r.kit == DrumKit::Regular && r.hits@.len() == 0,
            !half_time_skips(intensity as int, beat.sixteenth_count) ==> {
                let kit = self.drummers(self.kit_at(beat.bar_count, intensity as int));
                &&& r.kit == self.kit_at(beat.bar_count, intensity as int)
                &&& r.hits@.len() == kit.len()
                &&& forall|i: int| 0 <= i < kit.len() ==> drum_drawn(
                    #[trigger] r.hits@[i], kit[i].notes@, beat.beat, beat.sixteenth, min_strength as int)
            },
    {
        if Self::half_time_gate(intensity, beat.sixteenth_count) {
            return DrumHits { kit: DrumKit::Regular, hits: Vec::new() };
        }
        if self.is_fill_bar(beat.bar_count) {
            DrumHits { kit: DrumKit::Fill, hits: Self::play_kit(&self.fill_drums, beat, min_strength) }
        } else if self.auto_time_feel && intensity < LEVEL_THIRD && self.half_time_drums.len() > 0 {
            DrumHits { kit: DrumKit::HalfTime, hits: Self::play_kit(&self.half_time_drums, beat, min_strength) }
        } else if self.auto_time_feel && intensity >= LEVEL_TWO_THIRDS && self.double_time_drums.len() > 0 {
            DrumHits { kit: DrumKit::DoubleTime, hits: Self::play_kit(&self.double_time_drums, beat, min_strength) }
        } else {
            DrumHits { kit: DrumKit::Regular, hits: Self::play_kit(&self.drums, beat, min_strength) }
        }
    }
}

/// The half-time feel thins the groove to every other tick: every even
/// tick plays, from intensity 0.3 up every tick plays, and below 0.3 the odd
/// ticks are skipped.
pub proof fn lemma_half_time_skips_odd_ticks(intensity: int, sixteenth_count: u32)
    ensures
        sixteenth_count % 2 == 0 ==> !half_time_skips(intensity, sixteenth_count),
        intensity >= LEVEL_THREE_TENTHS ==> !half_time_skips(intensity, sixteenth_count),
        intensity < LEVEL_THREE_TENTHS && sixteenth_count % 2 == 1 ==> half_time_skips(intensity, sixteenth_count),
        half_time_skips(intensity, sixteenth_count) ==> !half_time_skips(intensity, (sixteenth_count + 1) as u32)
            || sixteenth_count == u32::MAX,
{
}

/// Standard 4/4 kick pattern: downbeats of beats 1 and 3 always, beat 4 from
/// mid intensity, and two 16th pickups as fills at high intensity.
pub fn generate_kick_beat() -> (pattern: Vec<Hit>)
    ensures
        distinct_positions(pattern@),
        pattern@ == seq![
            ((0u32, 0u32), Note { midi_note_diff: 0, strength: LEVEL_ONE }),
            ((2u32, 0u32), Note { midi_note_diff: 0, strength: LEVEL_ONE }),
            ((3u32, 0u32), Note { midi_note_diff: 0, strength: LEVEL_HALF }),
            ((1u32, 2u32), Note { midi_note_diff: 0, strength: LEVEL_QUARTER }),
            ((3u32, 2u32), Note { midi_note_diff: 0, strength: LEVEL_QUARTER }),
        ],
{
    vec![
        ((0, 0), Note::new(0, LEVEL_ONE)),
        ((2, 0), Note::new(0, LEVEL_ONE)),
        ((3, 0), Note::new(0, LEVEL_HALF)),
        ((1, 2), Note::new(0, LEVEL_QUARTER)),
        ((3, 2), Note::new(0, LEVEL_QUARTER)),
    ]
}

/// Standard 4/4 snare on beats 2 and 4, with ghost notes near full
/// intensity.
pub fn generate_snare_beat() -> (pattern: Vec<Hit>)
    ensures
        distinct_positions(pattern@),
        pattern@ == seq![
            ((1u32, 0u32), Note { midi_note_diff: 0, strength: LEVEL_ONE }),
            ((3u32, 0u32), Note { midi_note_diff: 0, strength: LEVEL_ONE }),
            ((0u32, 2u32), Note { midi_note_diff: 0, strength: LEVEL_TENTH }),
            ((2u32, 2u32), Note { midi_note_diff: 0, strength: LEVEL_TENTH }),
        ],
{
    vec![
        ((1, 0), Note::new(0, LEVEL_ONE)),
        ((3, 0), Note::new(0, LEVEL_ONE)),
        ((0, 2), Note::new(0, LEVEL_TENTH)),
        ((2, 2), Note::new(0, LEVEL_TENTH)),
    ]
}

/// Snare fill: four 16th hits on beat 4, from mid intensity.
pub fn generate_snare_fill_beat() -> (pattern: Vec<Hit>)
    ensures
        distinct_positions(pattern@),
        pattern@ == seq![
            ((3u32, 0u32), Note { midi_note_diff: 0, strength: LEVEL_HALF }),
            ((3u32, 1u32), Note { midi_note_diff: 0, strength: LEVEL_HALF }),
            ((3u32, 2u32), Note { midi_note_diff: 0, strength: LEVEL_HALF }),
            ((3u32, 3u32), Note { midi_note_diff: 0, strength: LEVEL_HALF }),
        ],
{
    vec![
        ((3, 0), Note::new(0, LEVEL_HALF)),
        ((3, 1), Note::new(0, LEVEL_HALF)),
        ((3, 2), Note::new(0, LEVEL_HALF)),
        ((3, 3), Note::new(0, LEVEL_HALF)),
    ]
}

/// Hi-hat: quarter notes from intensity 0.25, 8th offbeats from 0.5.
pub fn generate_hihat_beat() -> (pattern: Vec<Hit>)
    ensures
        distinct_positions(pattern@),
        pattern@ == seq![
            ((0u32, 0u32), Note { midi_note_diff: 0, strength: LEVEL_THREE_QUARTERS }),
            ((1u32, 0u32), Note { midi_note_diff: 0, strength: LEVEL_THREE_QUARTERS }),
            ((2u32, 0u32), Note { midi_note_diff: 0, strength: LEVEL_THREE_QUARTERS }),
            ((3u32, 0u32), Note { midi_note_diff: 0, strength: LEVEL_THREE_QUARTERS }),
            ((0u32, 2u32), Note { midi_note_diff: 0, strength: LEVEL_HALF }),
            ((1u32, 2u32), Note { midi_note_diff: 0, strength: LEVEL_HALF }),
            ((2u32, 2u32), Note { midi_note_diff: 0, strength: LEVEL_HALF }),
            ((3u32, 2u32), Note { midi_note_diff: 0, strength: LEVEL_HALF }),
        ],
{
    vec![
        ((0, 0), Note::new(0, LEVEL_THREE_QUARTERS)),
        ((1, 0), Note::new(0, LEVEL_THREE_QUARTERS)),
        ((2, 0), Note::new(0, LEVEL_THREE_QUARTERS)),
        ((3, 0), Note::new(0, LEVEL_THREE_QUARTERS)),
        ((0, 2), Note::new(0, LEVEL_HALF)),
        ((1, 2), Note::new(0, LEVEL_HALF)),
        ((2, 2), Note::new(0, LEVEL_HALF)),
        ((3, 2), Note::new(0, LEVEL_HALF)),
    ]
}

} // verus!
