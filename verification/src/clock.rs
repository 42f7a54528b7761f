//! The musical clock's counters: where in the bar a tick falls.
use vstd::prelude::*;
use vstd::arithmetic::div_mod::{lemma_div_denominator, lemma_fundamental_div_mod_converse};

verus! {

/// One tick of the clock, as musicians see it: the 16th-note position inside
/// the bar plus running counts. The bar position in bars (`time_bars`) is
/// `bar_count` plus a fraction in `[0, 1)` that is zero exactly on the bar's
/// downbeat (`beat == 0 && sixteenth == 0`); the library works with that
/// integer description and never needs the fraction itself.
#[derive(Clone, Copy, Debug, PartialEq, Eq)]
pub struct Beat {
    pub beat: u32,
    pub sixteenth: u32,
    pub bar_count: u32,
    pub beat_count: u32,
    pub sixteenth_count: u32,
}

impl Beat {
    pub fn new(beat: u32, sixteenth: u32, bar_count: u32, beat_count: u32, sixteenth_count: u32) -> (b: Beat)
        ensures
            b == (Beat { beat, sixteenth, bar_count, beat_count, sixteenth_count }),
    {
        Beat { beat, sixteenth, bar_count, beat_count, sixteenth_count }
    }

    /// `time_bars.ceil()`: the bar count itself on a downbeat, the next bar
    /// otherwise.
    pub open spec fn ceil_bars(self) -> int {
        if self.beat == 0 && self.sixteenth == 0 {
            self.bar_count as int
        } else {
            self.bar_count + 1
        }
    }

    /// Computes [`Beat::ceil_bars`].
    pub fn ceil_bar(&self) -> (c: u64)
        ensures
            c == self.ceil_bars(),
    {
        if self.beat == 0 && self.sixteenth == 0 {
            self.bar_count as u64
        } else {
            self.bar_count as u64 + 1
        }
    }
}

/// The counters of the clock. Each tick is one 16th note; `beats` 16ths make
/// a beat and `beats` beats make a bar.
#[derive(Clone, Copy, Debug, PartialEq, Eq)]
pub struct BeatCounter {
    pub sixteenth: u32,
    pub beat: u32,
    pub bar_count: u32,
    pub beat_count: u32,
    pub sixteenth_count: u32,
}

/// The counters after one tick with `beats` beats to the bar (and 16ths to
/// the beat).
pub open spec fn ticked(c: BeatCounter, beats: u32) -> BeatCounter {
    let sixteenth = c.sixteenth + 1;
    let sixteenth_count = c.sixteenth_count + 1;
    let wraps_beat = sixteenth >= beats;
    let beat = if wraps_beat { c.beat + 1 } else { c.beat as int };
    let beat_count = if wraps_beat { c.beat_count + 1 } else { c.beat_count as int };
    let wraps_bar = beat >= beats;
    BeatCounter {
        sixteenth: if wraps_beat { 0 } else { sixteenth as u32 },
        beat: if wraps_bar { 0 } else { beat as u32 },
        bar_count: if wraps_bar { (c.bar_count + 1) as u32 } else { c.bar_count },
        beat_count: beat_count as u32,
        sixteenth_count: sixteenth_count as u32,
    }
}

/// One tick does not overflow any counter.
pub open spec fn tick_fits(c: BeatCounter, beats: u32) -> bool {
    &&& c.sixteenth < u32::MAX
    &&& c.sixteenth_count < u32::MAX
    &&& c.sixteenth + 1 >= beats ==> c.beat < u32::MAX && c.beat_count < u32::MAX
    &&& (if c.sixteenth + 1 >= beats { c.beat + 1 } else { c.beat as int }) >= beats
        ==> c.bar_count < u32::MAX
}

/// The counters are inside the bar: a valid 16th and beat.
pub open spec fn in_bar(c: BeatCounter, beats: u32) -> bool {
    c.sixteenth < beats && c.beat < beats
}

/// Position of the counters in 16ths since the start.
pub open spec fn position(c: BeatCounter, beats: u32) -> int {
    (c.bar_count * beats + c.beat) * beats + c.sixteenth
}

impl BeatCounter {
    pub fn new() -> (c: BeatCounter)
        ensures
            c == (BeatCounter { sixteenth: 0, beat: 0, bar_count: 0, beat_count: 0, sixteenth_count: 0 }),
    {
        BeatCounter { sixteenth: 0, beat: 0, bar_count: 0, beat_count: 0, sixteenth_count: 0 }
    }

    /// Advances the counters by one 16th note with `beats` beats to the bar.
    pub fn tick(&mut self, beats: u32)
        requires
            tick_fits(*old(self), beats),
        ensures
            *final(self) == ticked(*old(self), beats),
    {
        self.sixteenth += 1;
        self.sixteenth_count += 1;
        if self.sixteenth >= beats {
            self.sixteenth = 0;
            self.beat += 1;
            self.beat_count += 1;
        }
        if self.beat >= beats {
            self.beat = 0;
            self.bar_count += 1;
        }
    }

    /// Whether one more tick fits in the counters.
    pub fn can_tick(&self, beats: u32) -> (b: bool)
        ensures
            b == tick_fits(*self, beats),
    {
        let wraps_beat = self.sixteenth >= u32::MAX || self.sixteenth + 1 >= beats;
        if self.sixteenth >= u32::MAX || self.sixteenth_count >= u32::MAX {
            return false;
        }
        if wraps_beat && (self.beat >= u32::MAX || self.beat_count >= u32::MAX) {
            return false;
        }
        let next_beat: u64 = if wraps_beat { self.beat as u64 + 1 } else { self.beat as u64 };
        !(next_beat >= beats as u64 && self.bar_count >= u32::MAX)
    }

    /// The beat event for the current counters.
    pub fn to_beat(&self) -> (b: Beat)
        ensures
            b == (Beat {
                beat: self.beat,
                sixteenth: self.sixteenth,
                bar_count: self.bar_count,
                beat_count: self.beat_count,
                sixteenth_count: self.sixteenth_count,
            }),
    {
        Beat {
            beat: self.beat,
            sixteenth: self.sixteenth,
            bar_count: self.bar_count,
            beat_count: self.beat_count,
            sixteenth_count: self.sixteenth_count,
        }
    }
}

/// Every tick counts exactly one more 16th note.
pub proof fn lemma_tick_counts_one_sixteenth(c: BeatCounter, beats: u32)
    requires
        tick_fits(c, beats),
    ensures
        ticked(c, beats).sixteenth_count == c.sixteenth_count + 1,
{
}

/// A tick keeps counters that are inside the bar inside the bar, and moves
/// the bar position forward by exactly one 16th note.
pub proof fn lemma_tick_advances_position(c: BeatCounter, beats: u32)
    requires
        tick_fits(c, beats),
        in_bar(c, beats),
    ensures
        in_bar(ticked(c, beats), beats),
        position(ticked(c, beats), beats) == position(c, beats) + 1,
{
    let n = ticked(c, beats);
    let b = beats as int;
    if c.sixteenth + 1 < b {
        assert((c.bar_count * b + c.beat) * b + c.sixteenth + 1 == (n.bar_count * b + n.beat) * b + n.sixteenth);
    } else if c.beat + 1 < b {
        assert((c.bar_count * b + c.beat) * b + c.sixteenth + 1 == (c.bar_count * b + c.beat + 1) * b)
            by (nonlinear_arith) requires c.sixteenth + 1 == b;
    } else {
        assert((c.bar_count * b + c.beat) * b + c.sixteenth + 1 == ((c.bar_count + 1) * b + 0) * b + 0)
            by (nonlinear_arith) requires c.sixteenth + 1 == b, c.beat + 1 == b;
    }
}

/// The counters of a fresh clock after `n` ticks with `beats` beats to the
/// bar.
pub open spec fn ticks_from_start(beats: u32, n: nat) -> BeatCounter
    decreases n,
{
    if n == 0 {
        BeatCounter { sixteenth: 0, beat: 0, bar_count: 0, beat_count: 0, sixteenth_count: 0 }
    } else {
        ticked(ticks_from_start(beats, (n - 1) as nat), beats)
    }
}

/// The shape the counters keep from a fresh start: inside the bar, at
/// position `n`, with every counted beat a beat of a bar.
proof fn lemma_ticks_shape(beats: u32, n: nat)
    requires
        beats > 0,
        n <= u32::MAX,
    ensures
        in_bar(ticks_from_start(beats, n), beats),
        position(ticks_from_start(beats, n), beats) == n,
        ticks_from_start(beats, n).sixteenth_count == n,
        ticks_from_start(beats, n).beat_count == ticks_from_start(beats, n).bar_count * beats + ticks_from_start(beats, n).beat,
        n > 0 ==> tick_fits(ticks_from_start(beats, (n - 1) as nat), beats),
    decreases n,
{
    if n > 0 {
        let m = (n - 1) as nat;
        lemma_ticks_shape(beats, m);
        let c = ticks_from_start(beats, m);
        let b = beats as int;
        assert(c.bar_count * b <= (c.bar_count * b + c.beat) * b) by (nonlinear_arith)
            requires b >= 1, c.beat >= 0, c.bar_count >= 0;
        assert(c.bar_count <= c.bar_count * b) by (nonlinear_arith)
            requires b >= 1, c.bar_count >= 0;
        assert(tick_fits(c, beats));
        lemma_tick_advances_position(c, beats);
        let d = ticked(c, beats);
        if c.sixteenth + 1 < b {
        } else if c.beat + 1 < b {
        } else {
            assert(d.beat_count == (c.bar_count + 1) * b) by (nonlinear_arith)
                requires d.beat_count == c.bar_count * b + c.beat + 1, c.beat + 1 == b;
        }
    }
}

/// After `n` ticks from a fresh start with `beats` beats to the bar, the
/// clock has counted `n` 16ths, `n / beats` beats and `n / beats²` bars, and
/// stands at beat `(n / beats) % beats`, 16th `n % beats` of its bar; every
/// one of those ticks fitted the counters.
pub proof fn lemma_counters_after_ticks(beats: u32, n: nat)
    requires
        beats > 0,
        n <= u32::MAX,
    ensures
        ticks_from_start(beats, n).sixteenth_count == n,
        ticks_from_start(beats, n).sixteenth == (n as int) % (beats as int),
        ticks_from_start(beats, n).beat == ((n as int) / (beats as int)) % (beats as int),
        ticks_from_start(beats, n).beat_count == (n as int) / (beats as int),
        ticks_from_start(beats, n).bar_count == (n as int) / (beats * beats),
        forall|k: nat| 0 < k <= n ==> #[trigger] tick_fits(ticks_from_start(beats, (k - 1) as nat), beats),
{
    lemma_ticks_shape(beats, n);
    let c = ticks_from_start(beats, n);
    let b = beats as int;
    let q = c.bar_count * b + c.beat;
    lemma_fundamental_div_mod_converse(n as int, b, q, c.sixteenth as int);
    lemma_fundamental_div_mod_converse(q, b, c.bar_count as int, c.beat as int);
    lemma_div_denominator(n as int, b, b);
    assert forall|k: nat| 0 < k <= n implies #[trigger] tick_fits(ticks_from_start(beats, (k - 1) as nat), beats) by {
        lemma_ticks_shape(beats, k);
    }
}

} // verus!
