//! The conductor: knows the chord progression and which chord is playing.
use vstd::prelude::*;
use crate::musicians::Chord;

verus! {

/// The chord progression, sorted by `pos_bars`. Must have at least one
/// entry to be asked for a chord.
pub struct Conductor {
    pub chords: Vec<Chord>,
}

/// Whether chord `i` has started by `position` (a level of the position in
/// bars within the progression; `None` stands for a position that is not a
/// number and so comes after no chord start).
pub open spec fn started(chords: Seq<Chord>, i: int, position: Option<i32>) -> bool {
    position matches Some(p) && chords[i].pos_bars <= p
}

/// The chord active at `position`: the last chord whose start is not after
/// it, or the first chord when there is none.
pub open spec fn active_chord_index(chords: Seq<Chord>, position: Option<i32>) -> int {
    if exists|i: int| 0 <= i < chords.len() && started(chords, i, position) {
        choose|i: int| 0 <= i < chords.len() && started(chords, i, position)
            && forall|j: int| i < j < chords.len() ==> !started(chords, j, position)
    } else {
        0
    }
}

impl Conductor {
    pub fn new(chords: Vec<Chord>) -> (c: Conductor)
        ensures
            c.chords@ == chords@,
    {
        Conductor { chords }
    }

    /// The index of the chord active at `position`, walking backwards from
    /// the last chord.
    pub fn current_chord_index(&self, position: Option<i32>) -> (i: usize)
        requires
            self.chords@.len() > 0,
        ensures
            i < self.chords@.len(),
            i == active_chord_index(self.chords@, position),
            started(self.chords@, i as int, position)
                || forall|j: int| 0 <= j < self.chords@.len() ==> !started(self.chords@, j, position),
            forall|j: int| i < j < self.chords@.len() ==> !started(self.chords@, j, position),
    {
        let mut k = self.chords.len();
        while k > 0
            invariant
                k <= self.chords@.len(),
                forall|j: int| k <= j < self.chords@.len() ==> !started(self.chords@, j, position),
            decreases k,
        {
            let i = k - 1;
            let found = match position {
                Some(p) => self.chords[i].pos_bars <= p,
                None => false,
            };
            if found {
                let ghost chords = self.chords@;
                assert(started(chords, i as int, position));
                assert(forall|j: int| i < j < chords.len() ==> !started(chords, j, position));
                assert(0 <= i < chords.len() && started(chords, i as int, position)
                    && forall|j: int| i < j < chords.len() ==> !started(chords, j, position));
                let ghost c = active_chord_index(chords, position);
                assert(c == i) by {
                    assert(started(chords, c, position));
                    if c < i {
                        assert(!started(chords, i as int, position));
                    }
                }
                return i;
            }
            k = i;
        }
        0
    }

    /// The chord active at `position` (see [`active_chord_index`]).
    pub fn current_chord(&self, position: Option<i32>) -> (c: &Chord)
        requires
            self.chords@.len() > 0,
        ensures
            *c == self.chords@[active_chord_index(self.chords@, position)],
    {
        let i = self.current_chord_index(position);
        &self.chords[i]
    }
}

} // verus!
