//! Multisamplers: curated, pitch-indexed subsets of a library for one
//! instrument, picked from by role, dynamic and pitch.
use vstd::prelude::*;
use crate::sampler::{rank_of, Dynamic, SampleLibrary, SampleSpec};
use crate::text::{str_equal, to_chars};

verus! {

/// Which samples a [`Voice`] should be built from. `articulations` is a
/// fallback-ordered list (earlier articulations win a pitch); `durations`
/// filters by note length (`"025"`, `"1"`, `"long"`, …), empty meaning
/// "any".
pub struct VoiceFilter<'a> {
    /// Label the musician refers to this voice by, e.g. `"ostinato"`.
    pub role: &'a str,
    pub articulations: &'a [&'a str],
    pub durations: &'a [&'a str],
    /// Inclusive MIDI range to load, e.g. `(48, 96)`.
    pub midi_range: (i32, i32),
}

/// One pitch-indexed layer of a [`MultiSampler`]: a single role at a single
/// dynamic. The keymap maps MIDI notes to the asset paths of their samples.
pub struct Voice {
    pub role: String,
    pub dynamic: Dynamic,
    keymap: Vec<(i32, String)>,
}

/// A keymap holds each MIDI note at most once.
pub open spec fn distinct_keys(keymap: Seq<(i32, String)>) -> bool {
    forall|x: int, y: int| 0 <= x < keymap.len() && 0 <= y < keymap.len() && x != y ==> keymap[x].0 != keymap[y].0
}

/// Whether `keymap` holds MIDI note `midi`.
pub open spec fn has_key(keymap: Seq<(i32, String)>, midi: int) -> bool {
    exists|x: int| 0 <= x < keymap.len() && #[trigger] keymap[x].0 == midi
}

/// Sample `spec` passes the filter's duration list (empty means any).
pub open spec fn duration_allowed(spec: SampleSpec, durations: Seq<&str>) -> bool {
    durations.len() == 0 || exists|x: int| 0 <= x < durations.len() && (#[trigger] durations[x])@ == spec.duration@
}

/// Sample `spec` belongs in the voice for articulation `art`, dynamic `d`
/// and the filter's durations and range, at its (present) pitch.
pub open spec fn voice_sample(spec: SampleSpec, art: Seq<char>, d: Dynamic, durations: Seq<&str>, range: (i32, i32)) -> bool {
    &&& spec.articulation@ == art
    &&& spec.dynamic == Some(d)
    &&& duration_allowed(spec, durations)
    &&& spec.midi is Some
    &&& range.0 <= spec.midi->0 <= range.1
}

/// The voice candidate (`a`, `s`), articulation `a` of the filter and sample
/// `s` of the instrument, comes before (`a2`, `s2`) in fill order.
pub open spec fn fill_before(a: int, s: int, a2: int, s2: int) -> bool {
    a < a2 || (a == a2 && s < s2)
}

/// Candidate (`a`, `s`) fills MIDI note `midi` for dynamic `d`.
pub open spec fn fills(specs: Seq<SampleSpec>, filter: VoiceFilter, d: Dynamic, a: int, s: int, midi: int) -> bool {
    &&& 0 <= a < filter.articulations@.len()
    &&& 0 <= s < specs.len()
    &&& voice_sample(specs[s], filter.articulations@[a]@, d, filter.durations@, filter.midi_range)
    &&& specs[s].midi->0 == midi
}

/// `keymap` is the voice the filter builds from `specs` at dynamic `d` when
/// only the candidates before (`a_end`, `s_end`) in fill order are taken: a
/// MIDI note is present exactly when some candidate fills it, and holds the
/// asset path of the first candidate that does.
pub open spec fn keymap_built(keymap: Seq<(i32, String)>, specs: Seq<SampleSpec>, filter: VoiceFilter, d: Dynamic, a_end: int, s_end: int) -> bool {
    &&& distinct_keys(keymap)
    &&& forall|a: int, s: int, midi: int| fill_before(a, s, a_end, s_end) && #[trigger] fills(specs, filter, d, a, s, midi)
        ==> has_key(keymap, midi)
    &&& forall|x: int| 0 <= x < keymap.len() ==> entry_from(#[trigger] keymap[x], specs, filter, d, a_end, s_end)
}

/// Candidate (`a`, `s`) is the first in fill order to fill `midi`.
pub open spec fn first_fill(specs: Seq<SampleSpec>, filter: VoiceFilter, d: Dynamic, a: int, s: int, midi: int) -> bool {
    &&& fills(specs, filter, d, a, s, midi)
    &&& forall|a2: int, s2: int| fill_before(a2, s2, a, s) ==> !#[trigger] fills(specs, filter, d, a2, s2, midi)
}

/// A keymap entry holds the asset path of the first candidate before
/// (`a_end`, `s_end`) to fill its note.
pub open spec fn entry_from(entry: (i32, String), specs: Seq<SampleSpec>, filter: VoiceFilter, d: Dynamic, a_end: int, s_end: int) -> bool {
    exists|a: int, s: int| {
        &&& fill_before(a, s, a_end, s_end)
        &&& #[trigger] first_fill(specs, filter, d, a, s, entry.0 as int)
        &&& entry.1@ == specs[s].asset_path@
    }
}

/// Every key of a voice being built lies inside the filter's inclusive MIDI
/// range: samples pitched outside it are never loaded.
pub proof fn lemma_keys_in_range(keymap: Seq<(i32, String)>, specs: Seq<SampleSpec>, filter: VoiceFilter, d: Dynamic, a_end: int, s_end: int)
    requires
        keymap_built(keymap, specs, filter, d, a_end, s_end),
    ensures
        forall|x: int| 0 <= x < keymap.len() ==> filter.midi_range.0 <= (#[trigger] keymap[x]).0 <= filter.midi_range.1,
{
    assert forall|x: int| 0 <= x < keymap.len() implies filter.midi_range.0 <= (#[trigger] keymap[x]).0 <= filter.midi_range.1 by {
        assert(entry_from(keymap[x], specs, filter, d, a_end, s_end));
        let (a, s) = choose|a: int, s: int| {
            &&& fill_before(a, s, a_end, s_end)
            &&& #[trigger] first_fill(specs, filter, d, a, s, keymap[x].0 as int)
            &&& keymap[x].1@ == specs[s].asset_path@
        };
        assert(fills(specs, filter, d, a, s, keymap[x].0 as int));
    }
}

impl Voice {
    pub closed spec fn keymap_of(&self) -> Seq<(i32, String)> {
        self.keymap@
    }

    pub closed spec fn role_of(&self) -> String {
        self.role
    }

    pub closed spec fn dynamic_of(&self) -> Dynamic {
        self.dynamic
    }

    pub fn keymap(&self) -> (k: &Vec<(i32, String)>)
        ensures
            k@ == self.keymap_of(),
    {
        &self.keymap
    }
}

/// A curated, loaded multisample for one instrument: several [`Voice`]s the
/// musician selects between by role and dynamic at play time.
pub struct MultiSampler {
    pub instrument: String,
    voices: Vec<Voice>,
}

/// The number of samples of voices `0..n`.
pub open spec fn samples_in(voices: Seq<Voice>, n: int) -> int
    decreases n,
{
    if n <= 0 {
        0
    } else {
        samples_in(voices, n - 1) + voices[n - 1].keymap_of().len()
    }
}

/// Whether `s` equals one of the strings of `list`.
fn str_listed(list: &[&str], s: &str) -> (b: bool)
    ensures
        b == exists|x: int| 0 <= x < list@.len() && (#[trigger] list@[x])@ == s@,
{
    let mut x: usize = 0;
    while x < list.len()
        invariant
            x <= list@.len(),
            forall|y: int| 0 <= y < x ==> (#[trigger] list@[y])@ != s@,
        decreases list.len() - x,
    {
        if str_equal(list[x], s) {
            return true;
        }
        x = x + 1;
    }
    false
}

/// Whether the keymap holds `midi`.
fn keymap_has(keymap: &Vec<(i32, String)>, midi: i32) -> (b: bool)
    ensures
        b == has_key(keymap@, midi as int),
{
    let mut x: usize = 0;
    while x < keymap.len()
        invariant
            x <= keymap@.len(),
            forall|y: int| 0 <= y < x ==> (#[trigger] keymap@[y]).0 != midi,
        decreases keymap.len() - x,
    {
        if keymap[x].0 == midi {
            return true;
        }
        x = x + 1;
    }
    false
}

/// Some candidate of the filter fills a note at dynamic `d`.
pub open spec fn voice_exists(specs: Seq<SampleSpec>, filter: VoiceFilter, d: Dynamic) -> bool {
    exists|a: int, s: int, midi: int| #[trigger] fills(specs, filter, d, a, s, midi)
}

/// Whether sample `spec` belongs in the voice for articulation `art` and
/// dynamic `d` (computes [`voice_sample`]).
fn is_voice_sample(spec: &SampleSpec, art: &str, d: Dynamic, filter: &VoiceFilter) -> (b: bool)
    ensures
        b == voice_sample(*spec, art@, d, filter.durations@, filter.midi_range),
{
    if !str_equal(spec.articulation.as_str(), art) {
        return false;
    }
    let same_dynamic = match spec.dynamic {
        Some(have) => have == d,
        None => false,
    };
    if !same_dynamic {
        return false;
    }
    if !(filter.durations.len() == 0 || str_listed(filter.durations, spec.duration.as_str())) {
        return false;
    }
    match spec.midi {
        Some(midi) => filter.midi_range.0 <= midi && midi <= filter.midi_range.1,
        None => false,
    }
}

/// Builds the keymap of the voice for dynamic `d`: for each MIDI note in
/// range, the first sample in fill order (articulations in fallback order,
/// then samples in library order) that matches the filter.
pub fn build_keymap(specs: &[SampleSpec], filter: &VoiceFilter, d: Dynamic) -> (keymap: Vec<(i32, String)>)
    ensures
        keymap_built(keymap@, specs@, *filter, d, filter.articulations@.len() as int, 0),
        keymap@.len() > 0 <==> voice_exists(specs@, *filter, d),
        forall|x: int| 0 <= x < keymap@.len() ==> filter.midi_range.0 <= (#[trigger] keymap@[x]).0 <= filter.midi_range.1,
{
    let mut keymap: Vec<(i32, String)> = Vec::new();
    let mut a: usize = 0;
    while a < filter.articulations.len()
        invariant
            a <= filter.articulations@.len(),
            keymap_built(keymap@, specs@, *filter, d, a as int, 0),
        decreases filter.articulations.len() - a,
    {
        let art = filter.articulations[a];
        let mut s: usize = 0;
        while s < specs.len()
            invariant
                a < filter.articulations@.len(),
                art == filter.articulations@[a as int],
                s <= specs@.len(),
                keymap_built(keymap@, specs@, *filter, d, a as int, s as int),
            decreases specs.len() - s,
        {
            let ghost before = keymap@;
            if is_voice_sample(&specs[s], art, d, filter) {
                let midi = specs[s].midi.unwrap();
                assert(fills(specs@, *filter, d, a as int, s as int, midi as int));
                if !keymap_has(&keymap, midi) {
                    let path = specs[s].asset_path.clone();
                    keymap.push((midi, path));
                    proof {
                        assert forall|a2: int, s2: int| fill_before(a2, s2, a as int, s as int)
                            implies !#[trigger] fills(specs@, *filter, d, a2, s2, midi as int) by {
                            if fills(specs@, *filter, d, a2, s2, midi as int) {
                                assert(has_key(before, midi as int));
                            }
                        }
                        assert(first_fill(specs@, *filter, d, a as int, s as int, midi as int));
                        assert forall|x: int| 0 <= x < keymap@.len() implies entry_from(#[trigger] keymap@[x], specs@, *filter, d, a as int, s + 1) by {
                            if x < before.len() {
                                assert(keymap@[x] == before[x]);
                                assert(entry_from(before[x], specs@, *filter, d, a as int, s as int));
                                let (a1, s1) = choose|a1: int, s1: int| {
                                    &&& fill_before(a1, s1, a as int, s as int)
                                    &&& #[trigger] first_fill(specs@, *filter, d, a1, s1, before[x].0 as int)
                                    &&& before[x].1@ == specs@[s1].asset_path@
                                };
                                assert(fill_before(a1, s1, a as int, s + 1));
                                assert(first_fill(specs@, *filter, d, a1, s1, keymap@[x].0 as int));
                                assert(keymap@[x].1@ == specs@[s1].asset_path@);
                            } else {
                                assert(keymap@[x] == (midi, path));
                                assert(fill_before(a as int, s as int, a as int, s + 1));
                                assert(first_fill(specs@, *filter, d, a as int, s as int, keymap@[x].0 as int));
                                assert(keymap@[x].1@ == specs@[s as int].asset_path@);
                            }
                        }
                        assert forall|a2: int, s2: int, m2: int| fill_before(a2, s2, a as int, s + 1) && #[trigger] fills(specs@, *filter, d, a2, s2, m2)
                            implies has_key(keymap@, m2) by {
                            if fill_before(a2, s2, a as int, s as int) {
                                assert(has_key(before, m2));
                                let x = choose|x: int| 0 <= x < before.len() && #[trigger] before[x].0 == m2;
                                assert(keymap@[x] == before[x]);
                            } else {
                                assert(keymap@[before.len() as int].0 == m2);
                            }
                        }
                        assert forall|x: int, y: int| 0 <= x < keymap@.len() && 0 <= y < keymap@.len() && x != y
                            implies keymap@[x].0 != keymap@[y].0 by {
                            if x < before.len() && y < before.len() {
                                assert(keymap@[x] == before[x] && keymap@[y] == before[y]);
                            } else if x < before.len() {
                                assert(keymap@[x] == before[x]);
                                assert(before[x].0 != midi);
                            } else if y < before.len() {
                                assert(keymap@[y] == before[y]);
                                assert(before[y].0 != midi);
                            }
                        }
                    }
                } else {
                    proof {
                        assert forall|x: int| 0 <= x < keymap@.len() implies entry_from(#[trigger] keymap@[x], specs@, *filter, d, a as int, s + 1) by {
                            assert(entry_from(keymap@[x], specs@, *filter, d, a as int, s as int));
                            let (a1, s1) = choose|a1: int, s1: int| {
                                &&& fill_before(a1, s1, a as int, s as int)
                                &&& #[trigger] first_fill(specs@, *filter, d, a1, s1, keymap@[x].0 as int)
                                &&& keymap@[x].1@ == specs@[s1].asset_path@
                            };
                            assert(fill_before(a1, s1, a as int, s + 1));
                        }
                    }
                }
            } else {
                proof {
                    assert forall|x: int| 0 <= x < keymap@.len() implies entry_from(#[trigger] keymap@[x], specs@, *filter, d, a as int, s + 1) by {
                        assert(entry_from(keymap@[x], specs@, *filter, d, a as int, s as int));
                        let (a1, s1) = choose|a1: int, s1: int| {
                            &&& fill_before(a1, s1, a as int, s as int)
                            &&& #[trigger] first_fill(specs@, *filter, d, a1, s1, keymap@[x].0 as int)
                            &&& keymap@[x].1@ == specs@[s1].asset_path@
                        };
                        assert(fill_before(a1, s1, a as int, s + 1));
                    }
                }
            }
            s = s + 1;
        }
        proof {
            assert forall|x: int| 0 <= x < keymap@.len() implies entry_from(#[trigger] keymap@[x], specs@, *filter, d, a + 1, 0) by {
                assert(entry_from(keymap@[x], specs@, *filter, d, a as int, specs@.len() as int));
                let (a1, s1) = choose|a1: int, s1: int| {
                    &&& fill_before(a1, s1, a as int, specs@.len() as int)
                    &&& #[trigger] first_fill(specs@, *filter, d, a1, s1, keymap@[x].0 as int)
                    &&& keymap@[x].1@ == specs@[s1].asset_path@
                };
                assert(fill_before(a1, s1, a + 1, 0));
            }
            assert forall|a2: int, s2: int, m2: int| fill_before(a2, s2, a + 1, 0) && #[trigger] fills(specs@, *filter, d, a2, s2, m2)
                implies has_key(keymap@, m2) by {
                assert(fill_before(a2, s2, a as int, specs@.len() as int));
            }
        }
        a = a + 1;
    }
    proof {
        lemma_keys_in_range(keymap@, specs@, *filter, d, filter.articulations@.len() as int, 0);
        if voice_exists(specs@, *filter, d) {
            let (a1, s1, m1) = choose|a1: int, s1: int, m1: int| #[trigger] fills(specs@, *filter, d, a1, s1, m1);
            assert(fill_before(a1, s1, filter.articulations@.len() as int, 0));
            assert(has_key(keymap@, m1));
        }
        if keymap@.len() > 0 {
            assert(entry_from(keymap@[0], specs@, *filter, d, filter.articulations@.len() as int, 0));
            let (a1, s1) = choose|a1: int, s1: int| {
                &&& fill_before(a1, s1, filter.articulations@.len() as int, 0)
                &&& #[trigger] first_fill(specs@, *filter, d, a1, s1, keymap@[0].0 as int)
                &&& keymap@[0].1@ == specs@[s1].asset_path@
            };
            assert(fills(specs@, *filter, d, a1, s1, keymap@[0].0 as int));
        }
    }
    keymap
}

/// The samples the library holds for `instrument` (none when unknown).
pub open spec fn instrument_specs(library: SampleLibrary, instrument: Seq<char>) -> Seq<SampleSpec> {
    match library.instrument_index(instrument) {
        Some(i) => library.specs_of(i),
        None => Seq::empty(),
    }
}

/// `v` is the voice the filter builds from `specs` at dynamic `d`.
pub open spec fn voice_built(v: Voice, specs: Seq<SampleSpec>, filter: VoiceFilter, d: Dynamic) -> bool {
    &&& v.role_of()@ == filter.role@
    &&& v.dynamic_of() == d
    &&& keymap_built(v.keymap_of(), specs, filter, d, filter.articulations@.len() as int, 0)
}

/// `added` are the voices the filter builds for `dynamics`, in order: one
/// for each dynamic that has any matching sample.
pub open spec fn voices_built(added: Seq<Voice>, dynamics: Seq<Dynamic>, specs: Seq<SampleSpec>, filter: VoiceFilter) -> bool
    decreases dynamics.len(),
{
    if dynamics.len() == 0 {
        added.len() == 0
    } else if voice_exists(specs, filter, dynamics.last()) {
        &&& added.len() > 0
        &&& voice_built(added.last(), specs, filter, dynamics.last())
        &&& voices_built(added.drop_last(), dynamics.drop_last(), specs, filter)
    } else {
        voices_built(added, dynamics.drop_last(), specs, filter)
    }
}

/// Absolute value.
pub open spec fn abs(x: int) -> int {
    if x < 0 { -x } else { x }
}

/// How well voice `v` suits a request for `role` at dynamic `d` (lower is
/// better): another role costs 100, and each step of dynamic away costs 1.
pub open spec fn voice_cost(v: Voice, role: Seq<char>, d: Dynamic) -> int {
    (if v.role_of()@ == role { 0int } else { 100int }) + abs(rank_of(v.dynamic_of()) - rank_of(d))
}

/// Voice `c` is the first of the cheapest voices for the request.
pub open spec fn best_voice(voices: Seq<Voice>, role: Seq<char>, d: Dynamic, c: int) -> bool {
    &&& 0 <= c < voices.len()
    &&& forall|x: int| 0 <= x < voices.len() ==> {
        &&& voice_cost(#[trigger] voices[x], role, d) >= voice_cost(voices[c], role, d)
        &&& x < c ==> voice_cost(voices[x], role, d) > voice_cost(voices[c], role, d)
    }
}

/// Entry `x` of the keymap holds the pitch nearest `target`, the lower one
/// on a tie.
pub open spec fn nearest(keymap: Seq<(i32, String)>, target: int, x: int) -> bool {
    &&& 0 <= x < keymap.len()
    &&& forall|y: int| 0 <= y < keymap.len() ==> {
        ||| abs(target - (#[trigger] keymap[y]).0) > abs(target - keymap[x].0)
        ||| abs(target - keymap[y].0) == abs(target - keymap[x].0) && keymap[y].0 >= keymap[x].0
    }
}

/// The recorded pitches next to `target`, below and above, are within
/// `i32` range of it (the residual is computed in `i32`).
pub open spec fn neighbours_fit(keymap: Seq<(i32, String)>, target: int) -> bool {
    forall|x: int| 0 <= x < keymap.len() && nearest(keymap, target, x) ==> i32::MIN <= target - (#[trigger] keymap[x]).0 <= i32::MAX
}

/// Nearest key (by absolute semitone distance) in a keymap, the lower key
/// on a tie, with its asset path.
pub fn nearest_in_keymap(keymap: &Vec<(i32, String)>, target: i32) -> (r: Option<(i32, &String)>)
    ensures
        r is None <==> keymap@.len() == 0,
        r matches Some(found) ==> exists|x: int| #[trigger] nearest(keymap@, target as int, x)
            && found.0 == keymap@[x].0 && *found.1 == keymap@[x].1,
{
    if keymap.len() == 0 {
        return None;
    }
    let mut best: usize = 0;
    let mut best_distance: i64 = if target as i64 >= keymap[0].0 as i64 { target as i64 - keymap[0].0 as i64 } else { keymap[0].0 as i64 - target as i64 };
    let mut y: usize = 1;
    while y < keymap.len()
        invariant
            1 <= y <= keymap@.len(),
            best < y,
            best_distance == abs(target - keymap@[best as int].0),
            forall|z: int| 0 <= z < y ==> {
                ||| abs(target - (#[trigger] keymap@[z]).0) > best_distance
                ||| abs(target - keymap@[z].0) == best_distance && keymap@[z].0 >= keymap@[best as int].0
            },
        decreases keymap.len() - y,
    {
        let key = keymap[y].0;
        let distance: i64 = if target as i64 >= key as i64 { target as i64 - key as i64 } else { key as i64 - target as i64 };
        if distance < best_distance || (distance == best_distance && key < keymap[best].0) {
            best = y;
            best_distance = distance;
        }
        y = y + 1;
    }
    assert(nearest(keymap@, target as int, best as int));
    Some((keymap[best].0, &keymap[best].1))
}

impl MultiSampler {
    pub closed spec fn voices_of(&self) -> Seq<Voice> {
        self.voices@
    }

    pub closed spec fn instrument_of(&self) -> String {
        self.instrument
    }

    /// Every voice holds at least one sample and each pitch at most once.
    pub open spec fn wf(&self) -> bool {
        forall|v: int| 0 <= v < self.voices_of().len() ==> {
            &&& (#[trigger] self.voices_of()[v]).keymap_of().len() > 0
            &&& distinct_keys(self.voices_of()[v].keymap_of())
        }
    }

    pub fn new(instrument: String) -> (m: MultiSampler)
        ensures
            m.instrument_of() == instrument,
            m.voices_of().len() == 0,
            m.wf(),
    {
        MultiSampler { instrument, voices: Vec::new() }
    }

    pub fn voices(&self) -> (v: &Vec<Voice>)
        ensures
            v@ == self.voices_of(),
    {
        &self.voices
    }

    /// Builds one voice per requested dynamic that has matching samples of
    /// this instrument in `library` (see [`build_keymap`]). Returns the number
    /// of voices actually added (0 if the instrument/articulations yielded
    /// nothing).
    pub fn add_voice(&mut self, library: &SampleLibrary, filter: &VoiceFilter, dynamics: &[Dynamic]) -> (added: usize)
        requires
            old(self).wf(),
            library.wf(),
        ensures
            final(self).wf(),
            final(self).instrument_of() == old(self).instrument_of(),
            final(self).voices_of().len() == old(self).voices_of().len() + added,
            final(self).voices_of().take(old(self).voices_of().len() as int) == old(self).voices_of(),
            voices_built(
                final(self).voices_of().skip(old(self).voices_of().len() as int),
                dynamics@,
                instrument_specs(*library, old(self).instrument_of()@),
                *filter,
            ),
    {
        let specs = library.specs(self.instrument.as_str());
        let ghost all_specs = instrument_specs(*library, self.instrument_of()@);
        assert(specs@ == all_specs);
        let ghost start = self.voices@.len() as int;
        let ghost earlier = self.voices@;
        let ghost instrument = self.instrument;
        let mut added: usize = 0;
        let mut t: usize = 0;
        assert(dynamics@.take(0) =~= Seq::<Dynamic>::empty());
        assert(self.voices@.skip(start) =~= Seq::<Voice>::empty());
        while t < dynamics.len()
            invariant
                t <= dynamics@.len(),
                self.wf(),
                specs@ == all_specs,
                self.voices@.len() == start + added,
                0 <= start,
                self.instrument == instrument,
                self.voices@.take(start) == earlier,
                added <= t,
                voices_built(self.voices@.skip(start), dynamics@.take(t as int), all_specs, *filter),
            decreases dynamics.len() - t,
        {
            let d = dynamics[t];
            let keymap = build_keymap(specs, filter, d);
            let ghost before = self.voices@;
            assert(dynamics@.take(t + 1).drop_last() =~= dynamics@.take(t as int));
            assert(dynamics@.take(t + 1).last() == d);
            if keymap.len() > 0 {
                let ghost built = keymap@;
                let voice = Voice { role: filter.role.to_owned(), dynamic: d, keymap };
                assert(voice.keymap_of() == built);
                assert forall|v: int| 0 <= v < before.len() implies {
                    &&& (#[trigger] before[v]).keymap_of().len() > 0
                    &&& distinct_keys(before[v].keymap_of())
                } by {
                    assert(self.voices_of()[v] == before[v]);
                }
                self.voices.push(voice);
                added = added + 1;
                assert forall|v: int| 0 <= v < self.voices@.len() implies {
                    &&& (#[trigger] self.voices@[v]).keymap_of().len() > 0
                    &&& distinct_keys(self.voices@[v].keymap_of())
                } by {
                    if v < before.len() {
                        assert(self.voices@[v] == before[v]);
                    } else {
                        assert(self.voices@[v] == voice);
                    }
                }
                assert(self.voices@.skip(start).drop_last() =~= before.skip(start));
                assert(self.voices@.take(start) =~= before.take(start));
                assert(self.voices@.skip(start).last() == voice);
            }
            t = t + 1;
        }
        assert(dynamics@.take(dynamics@.len() as int) =~= dynamics@);
        added
    }

    pub fn is_empty(&self) -> (b: bool)
        ensures
            b == (self.voices_of().len() == 0),
    {
        self.voices.is_empty()
    }

    /// Whether the total number of loaded samples fits in a `usize`.
    pub fn sample_count_fits(&self) -> (b: bool)
        ensures
            b == (samples_in(self.voices_of(), self.voices_of().len() as int) <= usize::MAX),
    {
        let mut total: u128 = 0;
        let mut v: usize = 0;
        while v < self.voices.len()
            invariant
                v <= self.voices@.len(),
                total == samples_in(self.voices@, v as int),
                total <= v * (usize::MAX as int),
            decreases self.voices.len() - v,
        {
            let n = self.voices[v].keymap.len();
            assert(total + n <= (v + 1) * (usize::MAX as int)) by (nonlinear_arith)
                requires total <= v * (usize::MAX as int), n <= usize::MAX;
            assert((v + 1) * (usize::MAX as int) <= u64::MAX * u64::MAX) by (nonlinear_arith)
                requires v < usize::MAX;
            total = total + n as u128;
            v = v + 1;
        }
        total <= usize::MAX as u128
    }

    /// Total number of samples across all voices.
    pub fn sample_count(&self) -> (n: usize)
        requires
            samples_in(self.voices_of(), self.voices_of().len() as int) <= usize::MAX,
        ensures
            n == samples_in(self.voices_of(), self.voices_of().len() as int),
    {
        let mut total: usize = 0;
        let mut v: usize = 0;
        while v < self.voices.len()
            invariant
                v <= self.voices@.len(),
                total == samples_in(self.voices@, v as int),
                samples_in(self.voices@, self.voices@.len() as int) <= usize::MAX,
            decreases self.voices.len() - v,
        {
            proof { lemma_samples_grow(self.voices@, v as int + 1, self.voices@.len() as int); }
            total = total + self.voices[v].keymap.len();
            v = v + 1;
        }
        total
    }

    /// True if any voice carries this role.
    pub fn has_role(&self, role: &str) -> (b: bool)
        ensures
            b == exists|v: int| 0 <= v < self.voices_of().len() && (#[trigger] self.voices_of()[v]).role_of()@ == role@,
    {
        let mut v: usize = 0;
        while v < self.voices.len()
            invariant
                v <= self.voices@.len(),
                forall|w: int| 0 <= w < v ==> (#[trigger] self.voices@[w]).role@ != role@,
            decreases self.voices.len() - v,
        {
            if str_equal(self.voices[v].role.as_str(), role) {
                assert(self.voices_of()[v as int].role_of()@ == role@);
                return true;
            }
            v = v + 1;
        }
        false
    }

    /// The index of the first of the cheapest voices for the request.
    fn best_voice_index(&self, role: &str, dynamic: Dynamic) -> (r: Option<usize>)
        ensures
            r is None <==> self.voices_of().len() == 0,
            r matches Some(c) ==> best_voice(self.voices_of(), role@, dynamic, c as int),
    {
        let mut best: Option<usize> = None;
        let mut best_cost: i32 = 0;
        let mut v: usize = 0;
        while v < self.voices.len()
            invariant
                v <= self.voices@.len(),
                best is None <==> v == 0,
                best matches Some(c) ==> c < v && best_cost == voice_cost(self.voices@[c as int], role@, dynamic)
                    && forall|x: int| 0 <= x < v ==> {
                        &&& voice_cost(#[trigger] self.voices@[x], role@, dynamic) >= best_cost
                        &&& x < c ==> voice_cost(self.voices@[x], role@, dynamic) > best_cost
                    },
            decreases self.voices.len() - v,
        {
            let role_penalty: i32 = if str_equal(self.voices[v].role.as_str(), role) { 0 } else { 100 };
            let diff = self.voices[v].dynamic.rank() - dynamic.rank();
            let cost = role_penalty + if diff < 0 { -diff } else { diff };
            match best {
                Some(_) => {
                    if cost < best_cost {
                        best = Some(v);
                        best_cost = cost;
                    }
                },
                None => {
                    best = Some(v);
                    best_cost = cost;
                },
            }
            v = v + 1;
        }
        best
    }

    /// Whether [`MultiSampler::pick`] can compute the residual offset of
    /// `target_midi` in `i32` arithmetic (computes its second `requires`).
    pub fn can_pick(&self, target_midi: i32, role: &str, dynamic: Dynamic) -> (b: bool)
        requires
            self.wf(),
        ensures
            b == forall|c: int| best_voice(self.voices_of(), role@, dynamic, c)
                ==> neighbours_fit(self.voices_of()[c].keymap_of(), target_midi as int),
    {
        let c = match self.best_voice_index(role, dynamic) {
            Some(c) => c,
            None => return true,
        };
        let keymap = &self.voices[c].keymap;
        assert(keymap@ == self.voices_of()[c as int].keymap_of());
        match nearest_in_keymap(keymap, target_midi) {
            Some((midi, _)) => {
                let residual: i64 = target_midi as i64 - midi as i64;
                let fits = i32::MIN as i64 <= residual && residual <= i32::MAX as i64;
                proof {
                    let x0 = choose|x: int| #[trigger] nearest(keymap@, target_midi as int, x) && midi == keymap@[x].0;
                    assert(nearest(keymap@, target_midi as int, x0));
                    if fits {
                        assert forall|c2: int| best_voice(self.voices_of(), role@, dynamic, c2)
                            implies neighbours_fit(self.voices_of()[c2].keymap_of(), target_midi as int) by {
                            lemma_best_voice_unique(self.voices_of(), role@, dynamic, c as int, c2);
                            assert forall|x: int| 0 <= x < keymap@.len() && nearest(keymap@, target_midi as int, x)
                                implies i32::MIN <= target_midi - (#[trigger] keymap@[x]).0 <= i32::MAX by {
                                lemma_nearest_unique(keymap@, target_midi as int, x0, x);
                            }
                        }
                    } else {
                        assert(best_voice(self.voices_of(), role@, dynamic, c as int));
                        assert(!neighbours_fit(self.voices_of()[c as int].keymap_of(), target_midi as int));
                    }
                }
                fits
            },
            None => true,
        }
    }

    /// Picks the sample for a target pitch, preferring the named role and the
    /// nearest available dynamic. Returns the sample's asset path and the
    /// residual semitone offset (`target - chosen_pitch`) for fine
    /// pitch-shifting, usually 0. Falls back across roles and dynamics, so
    /// callers always get a sample as long as the sampler isn't empty.
    pub fn pick(&self, target_midi: i32, role: &str, dynamic: Dynamic) -> (r: Option<(String, i32)>)
        requires
            self.wf(),
            forall|c: int| best_voice(self.voices_of(), role@, dynamic, c)
                ==> neighbours_fit(self.voices_of()[c].keymap_of(), target_midi as int),
        ensures
            r is None <==> self.voices_of().len() == 0,
            r matches Some(picked) ==> exists|c: int, x: int| {
                &&& best_voice(self.voices_of(), role@, dynamic, c)
                &&& #[trigger] nearest(self.voices_of()[c].keymap_of(), target_midi as int, x)
                &&& picked.0@ == self.voices_of()[c].keymap_of()[x].1@
                &&& picked.1 == target_midi - self.voices_of()[c].keymap_of()[x].0
            },
    {
        let c = match self.best_voice_index(role, dynamic) {
            Some(c) => c,
            None => return None,
        };
        let keymap = &self.voices[c].keymap;
        assert(keymap@.len() > 0);
        match nearest_in_keymap(keymap, target_midi) {
            Some((midi, path)) => {
                let ghost x = choose|x: int| #[trigger] nearest(keymap@, target_midi as int, x)
                    && midi == keymap@[x].0 && *path == keymap@[x].1;
                assert(nearest(keymap@, target_midi as int, x));
                Some((path.clone(), target_midi - midi))
            },
            None => None,
        }
    }
}

/// The first of the cheapest voices is unique.
proof fn lemma_best_voice_unique(voices: Seq<Voice>, role: Seq<char>, d: Dynamic, c1: int, c2: int)
    requires
        best_voice(voices, role, d, c1),
        best_voice(voices, role, d, c2),
    ensures
        c1 == c2,
{
    let k1 = voices[c1];
    let k2 = voices[c2];
    assert(voice_cost(k1, role, d) >= voice_cost(k2, role, d));
    assert(voice_cost(k2, role, d) >= voice_cost(k1, role, d));
}

/// In a keymap holding each pitch once, the nearest entry to a target is
/// unique.
proof fn lemma_nearest_unique(keymap: Seq<(i32, String)>, target: int, x1: int, x2: int)
    requires
        distinct_keys(keymap),
        nearest(keymap, target, x1),
        nearest(keymap, target, x2),
    ensures
        x1 == x2,
{
    let e1 = keymap[x1];
    let e2 = keymap[x2];
    if x1 != x2 {
        assert(e1.0 != e2.0);
    }
}

/// Sample totals never shrink as more voices are counted.
proof fn lemma_samples_grow(voices: Seq<Voice>, m: int, n: int)
    requires
        0 <= m <= n <= voices.len(),
    ensures
        samples_in(voices, m) <= samples_in(voices, n),
    decreases n - m,
{
    if m < n {
        lemma_samples_grow(voices, m, n - 1);
    }
}

/// A sampler with any voice always has a sample for any request, and the
/// residual offset brings the sample's pitch to the target.
pub proof fn lemma_pick_total(keymap: Seq<(i32, String)>, target: int, x: int, residual: int)
    requires
        nearest(keymap, target, x),
        residual == target - keymap[x].0,
    ensures
        keymap[x].0 + residual == target,
        forall|y: int| 0 <= y < keymap.len() ==> abs(target - (#[trigger] keymap[y]).0) >= abs(residual),
{
}

} // verus!
