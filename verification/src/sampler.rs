//! Multisampled-instrument support for sample libraries that follow the
//! Philharmonia / Sonatina filename grammar:
//!
//! ```text
//! <instrument>_<pitch>_<duration>_<dynamic>_<articulation>.<ext>
//! violin_Ds5_1_piano_arco-sul-tasto.wav      (pitched)
//! snare-drum__025_fortissimo_with-snares.wav (unpitched: empty pitch field)
//! ```
//!
//! The point of multisampling is to avoid the artefacts of pitch-shifting one
//! recording across a wide range: with a real note recorded at (almost) every
//! semitone, a musician picks the *nearest recorded pitch* to its target and
//! shifts only the leftover semitone or two, usually zero.
//!
//! Two layers:
//!   * [`SampleLibrary`]: built once from the files of a sample folder,
//!     parsing every filename into a [`SampleSpec`]. Pure metadata, so even
//!     tens of thousands of files are cheap. Dedupes `.wav`/`.mp3` pairs,
//!     preferring `.wav`.
//!   * [`MultiSampler`]: a *curated* subset for one instrument: a set of
//!     named [`Voice`]s (e.g. an "ostinato" voice and a "sustain" voice), each
//!     indexed by pitch for nearest-neighbour selection.
use vstd::prelude::*;
use crate::text::{chars_equal, find_char_from, find_from, str_equal, substring, to_chars};

verus! {

// ─────────────────────────────────────────────────────────────────────────
//  Parsing helpers
// ─────────────────────────────────────────────────────────────────────────

/// The value of a decimal digit character.
pub open spec fn digit_value(c: char) -> Option<int> {
    match c {
        '0' => Some(0),
        '1' => Some(1),
        '2' => Some(2),
        '3' => Some(3),
        '4' => Some(4),
        '5' => Some(5),
        '6' => Some(6),
        '7' => Some(7),
        '8' => Some(8),
        '9' => Some(9),
        _ => None,
    }
}

/// Every character of `s` is a decimal digit.
pub open spec fn all_digits(s: Seq<char>) -> bool {
    forall|i: int| 0 <= i < s.len() ==> (#[trigger] digit_value(s[i])) is Some
}

/// The number written by the decimal digits `s`.
pub open spec fn digits_value(s: Seq<char>) -> int
    decreases s.len(),
{
    if s.len() == 0 {
        0
    } else {
        digits_value(s.drop_last()) * 10 + digit_value(s.last())->0
    }
}

/// What `str::parse::<i32>` returns for `s`: an optional `+` or `-` sign
/// followed by at least one decimal digit, and a value that fits in `i32`;
/// `None` (an error) otherwise.
pub open spec fn parse_i32(s: Seq<char>) -> Option<i32> {
    let signed = s.len() > 0 && (s[0] == '-' || s[0] == '+');
    let negative = s.len() > 0 && s[0] == '-';
    let digits = if signed { s.drop_first() } else { s };
    let value = if negative { -digits_value(digits) } else { digits_value(digits) };
    if digits.len() > 0 && all_digits(digits) && i32::MIN <= value <= i32::MAX {
        Some(value as i32)
    } else {
        None
    }
}

/// The digits of a digit sequence never write a smaller number than the
/// digits of any of its prefixes.
proof fn lemma_digits_grow(s: Seq<char>, k: int)
    requires
        0 <= k <= s.len(),
        all_digits(s),
    ensures
        digits_value(s) >= digits_value(s.take(k)) >= 0,
    decreases s.len(),
{
    if s.len() > 0 {
        if k == s.len() {
            assert(s.take(k) =~= s);
            lemma_digits_grow(s.drop_last(), s.len() - 1);
            assert(s.drop_last().take(s.len() - 1) =~= s.drop_last());
        } else {
            lemma_digits_grow(s.drop_last(), k);
            assert(s.drop_last().take(k) =~= s.take(k));
        }
    }
}

fn digit_of(c: char) -> (d: Option<u64>)
    ensures
        d matches Some(v) ==> digit_value(c) == Some(v as int) && v <= 9,
        d is None <==> digit_value(c) is None,
{
    match c {
        '0' => Some(0),
        '1' => Some(1),
        '2' => Some(2),
        '3' => Some(3),
        '4' => Some(4),
        '5' => Some(5),
        '6' => Some(6),
        '7' => Some(7),
        '8' => Some(8),
        '9' => Some(9),
        _ => None,
    }
}

/// Parses `chars[start..]` as `str::parse::<i32>` does.
pub fn parse_i32_from(chars: &Vec<char>, start: usize) -> (r: Option<i32>)
    requires
        start <= chars@.len(),
    ensures
        r == parse_i32(chars@.skip(start as int)),
{
    let ghost s = chars@.skip(start as int);
    let len = chars.len();
    let mut i = start;
    let mut negative = false;
    if i < len && chars[i] == '-' {
        negative = true;
        i = i + 1;
    } else if i < len && chars[i] == '+' {
        i = i + 1;
    }
    let digits_start = i;
    let ghost digits = chars@.skip(digits_start as int);
    assert(digits =~= (if s.len() > 0 && (s[0] == '-' || s[0] == '+') { s.drop_first() } else { s }));
    if i == len {
        return None;
    }
    let limit: u64 = 0x8000_0000;
    let mut magnitude: u64 = 0;
    while i < len
        invariant
            digits_start <= i <= len,
            len == chars@.len(),
            digits == chars@.skip(digits_start as int),
            s == chars@.skip(start as int),
            digits == (if s.len() > 0 && (s[0] == '-' || s[0] == '+') { s.drop_first() } else { s }),
            negative == (s.len() > 0 && s[0] == '-'),
            all_digits(digits.take(i - digits_start)),
            magnitude == digits_value(digits.take(i - digits_start)),
            magnitude <= limit,
            limit == 0x8000_0000,
        decreases len - i,
    {
        let d = match digit_of(chars[i]) {
            Some(d) => d,
            None => {
                assert(digits[i - digits_start] == chars@[i as int]);
                assert(digit_value(digits[i - digits_start]) is None);
                assert(!all_digits(digits));
                return None;
            },
        };
        let ghost k = i - digits_start;
        assert(digits.take(k + 1).drop_last() =~= digits.take(k));
        assert(digits.take(k + 1).last() == chars@[i as int]);
        assert(magnitude * 10 <= 21474836480) by (nonlinear_arith)
            requires magnitude <= 2147483648;
        let ghost before = magnitude;
        magnitude = magnitude * 10 + d;
        assert(magnitude == digits_value(digits.take(k + 1))) by {
            assert(digits_value(digits.take(k + 1)) == digits_value(digits.take(k + 1).drop_last()) * 10
                + digit_value(digits.take(k + 1).last())->0);
        }
        i = i + 1;
        assert forall|j: int| 0 <= j < digits.take(k + 1).len() implies (#[trigger] digit_value(digits.take(k + 1)[j])) is Some by {
            if j < k {
                assert(digits.take(k + 1)[j] == digits.take(k)[j]);
            }
        }
        if magnitude > limit {
            proof {
                if all_digits(digits) {
                    lemma_digits_grow(digits, k + 1);
                }
            }
            return None;
        }
    }
    assert(digits.take(len - digits_start) =~= digits);
    if negative {
        let value: i64 = -(magnitude as i64);
        Some(value as i32)
    } else if magnitude > 0x7fff_ffff {
        None
    } else {
        Some(magnitude as i32)
    }
}

/// The semitone of a natural note letter (C = 0 … B = 11).
pub open spec fn letter_semitone(c: char) -> Option<int> {
    match c {
        'C' => Some(0),
        'D' => Some(2),
        'E' => Some(4),
        'F' => Some(5),
        'G' => Some(7),
        'A' => Some(9),
        'B' => Some(11),
        _ => None,
    }
}

/// Whether the note name is sharp: an `s` right after the letter.
pub open spec fn is_sharp(tok: Seq<char>) -> bool {
    tok.len() > 1 && tok[1] == 's'
}

/// The semitone of a note name within its octave.
pub open spec fn note_semitone(tok: Seq<char>) -> int {
    letter_semitone(tok[0])->0 + if is_sharp(tok) { 1int } else { 0int }
}

/// The octave number of a note name: what follows the letter and sharp
/// sign, parsed as an `i32`.
pub open spec fn note_octave(tok: Seq<char>) -> Option<i32> {
    parse_i32(tok.skip(if is_sharp(tok) { 2int } else { 1int }))
}

/// Whether `tok` starts like a note name (a letter C–B).
pub open spec fn has_note_letter(tok: Seq<char>) -> bool {
    tok.len() > 0 && letter_semitone(tok[0]) is Some
}

/// The MIDI number of a scientific note name such as `C4`, `Ds5`, `As0`
/// (C4 = 60, A4 = 69; only sharps, no flats): `(octave + 1) * 12 +
/// semitone`. `None` for an empty or malformed token.
pub open spec fn note_midi(tok: Seq<char>) -> Option<i32> {
    if has_note_letter(tok) {
        match note_octave(tok) {
            Some(o) => Some(((o + 1) * 12 + note_semitone(tok)) as i32),
            None => None,
        }
    } else {
        None
    }
}

/// The MIDI arithmetic of a note name stays within `i32` (the parse panics
/// on an overflow otherwise).
pub open spec fn midi_fits(tok: Seq<char>) -> bool {
    (has_note_letter(tok) && note_octave(tok) is Some) ==> {
        let o = note_octave(tok)->0;
        &&& o + 1 <= i32::MAX
        &&& i32::MIN <= (o + 1) * 12 <= i32::MAX
        &&& (o + 1) * 12 + note_semitone(tok) <= i32::MAX
    }
}

fn letter_of(c: char) -> (s: Option<i32>)
    ensures
        s matches Some(v) ==> letter_semitone(c) == Some(v as int),
        s is None <==> letter_semitone(c) is None,
{
    match c {
        'C' => Some(0),
        'D' => Some(2),
        'E' => Some(4),
        'F' => Some(5),
        'G' => Some(7),
        'A' => Some(9),
        'B' => Some(11),
        _ => None,
    }
}

/// Whether parsing `tok` as a note name stays within `i32` arithmetic
/// (computes [`midi_fits`]).
pub fn note_fits(tok: &str) -> (b: bool)
    ensures
        b == midi_fits(tok@),
{
    let chars = to_chars(tok);
    if chars.len() == 0 {
        return true;
    }
    let letter = match letter_of(chars[0]) {
        Some(l) => l,
        None => return true,
    };
    let sharp = chars.len() > 1 && chars[1] == 's';
    let semis: i64 = if sharp { letter as i64 + 1 } else { letter as i64 };
    let start: usize = if sharp { 2 } else { 1 };
    match parse_i32_from(&chars, start) {
        Some(octave) => {
            let next: i64 = octave as i64 + 1;
            next <= 0x7fff_ffff && -0x8000_0000 <= next * 12 && next * 12 <= 0x7fff_ffff
                && next * 12 + semis <= 0x7fff_ffff
        },
        None => true,
    }
}

/// Parse a scientific note name (`C4`, `Ds5`, `As0`) into a MIDI note number,
/// using the convention C4 = 60 (A4 = 69). Only sharps are used by this
/// library (no flats). Returns `None` for an empty or malformed token.
pub fn parse_note_to_midi(tok: &str) -> (r: Option<i32>)
    requires
        midi_fits(tok@),
    ensures
        r == note_midi(tok@),
{
    let chars = to_chars(tok);
    if chars.len() == 0 {
        return None;
    }
    let letter = match letter_of(chars[0]) {
        Some(l) => l,
        None => return None,
    };
    let sharp = chars.len() > 1 && chars[1] == 's';
    let (semis, oct_start) = if sharp { (letter + 1, 2) } else { (letter, 1) };
    let octave = match parse_i32_from(&chars, oct_start) {
        Some(o) => o,
        None => return None,
    };
    Some((octave + 1) * 12 + semis)
}

/// The decimal digit character for `d` (0 to 9).
pub open spec fn digit_char(d: int) -> char {
    if d == 0 { '0' } else if d == 1 { '1' } else if d == 2 { '2' } else if d == 3 { '3' }
    else if d == 4 { '4' } else if d == 5 { '5' } else if d == 6 { '6' } else if d == 7 { '7' }
    else if d == 8 { '8' } else { '9' }
}

/// A single digit octave parses to itself.
proof fn lemma_one_digit_octave(tok: Seq<char>, skip: int, octave: int)
    requires
        0 <= octave <= 9,
        0 <= skip < tok.len(),
        tok.len() == skip + 1,
        tok[skip] == digit_char(octave),
    ensures
        parse_i32(tok.skip(skip)) == Some(octave as i32),
{
    let digits = tok.skip(skip);
    assert(digits =~= seq![digit_char(octave)]);
    assert(digits.drop_last() =~= Seq::<char>::empty());
    assert(digit_value(digits[0]) == Some(octave));
    assert(all_digits(digits));
    assert(digits_value(digits) == octave) by {
        reveal_with_fuel(digits_value, 2);
    }
}

/// Scientific note names over the octaves 0 to 8: a natural note
/// `L` + octave `o` is MIDI `(o + 1) * 12 + semitone(L)`, one octave up adds
/// 12, a sharp adds 1, and every such name lies between C0 = 12 and B#8 =
/// 120.
pub proof fn lemma_note_names(letter: char, octave: int)
    requires
        letter_semitone(letter) is Some,
        0 <= octave <= 8,
    ensures
        note_midi(seq![letter, digit_char(octave)])
            == Some(((octave + 1) * 12 + letter_semitone(letter)->0) as i32),
        note_midi(seq![letter, 's', digit_char(octave)])
            == Some(((octave + 1) * 12 + letter_semitone(letter)->0 + 1) as i32),
        12 <= (octave + 1) * 12 + letter_semitone(letter)->0,
        (octave + 1) * 12 + letter_semitone(letter)->0 + 1 <= 120,
        octave < 8 ==> note_midi(seq![letter, digit_char(octave + 1)])->0
            == note_midi(seq![letter, digit_char(octave)])->0 + 12,
        note_midi(seq![letter, 's', digit_char(octave)])->0
            == note_midi(seq![letter, digit_char(octave)])->0 + 1,
{
    let natural = seq![letter, digit_char(octave)];
    let sharp = seq![letter, 's', digit_char(octave)];
    assert(digit_char(octave) != 's');
    lemma_one_digit_octave(natural, 1, octave);
    lemma_one_digit_octave(sharp, 2, octave);
    assert(!is_sharp(natural));
    assert(is_sharp(sharp));
    if octave < 8 {
        let up = seq![letter, digit_char(octave + 1)];
        assert(digit_char(octave + 1) != 's');
        lemma_one_digit_octave(up, 1, octave + 1);
        assert(!is_sharp(up));
    }
}

/// The natural note letters of an octave form the C major scale: C of
/// octave `o` is MIDI `(o + 1) * 12` (C4 = 60), and from there D, E, F, G, A
/// and B rise by 2, 2, 1, 2, 2 and 2 semitones, with the next octave's C one
/// semitone above B. So the seven letters of an octave give seven different
/// MIDI numbers, rising in letter order.
pub proof fn lemma_letters_form_the_major_scale(octave: int)
    requires
        0 <= octave <= 8,
    ensures
        note_midi(seq!['C', digit_char(octave)]) == Some(((octave + 1) * 12) as i32),
        note_midi(seq!['D', digit_char(octave)])->0 == note_midi(seq!['C', digit_char(octave)])->0 + 2,
        note_midi(seq!['E', digit_char(octave)])->0 == note_midi(seq!['D', digit_char(octave)])->0 + 2,
        note_midi(seq!['F', digit_char(octave)])->0 == note_midi(seq!['E', digit_char(octave)])->0 + 1,
        note_midi(seq!['G', digit_char(octave)])->0 == note_midi(seq!['F', digit_char(octave)])->0 + 2,
        note_midi(seq!['A', digit_char(octave)])->0 == note_midi(seq!['G', digit_char(octave)])->0 + 2,
        note_midi(seq!['B', digit_char(octave)])->0 == note_midi(seq!['A', digit_char(octave)])->0 + 2,
        note_midi(seq!['B', digit_char(octave)])->0 == note_midi(seq!['C', digit_char(octave)])->0 + 11,
        note_midi(seq!['D', digit_char(octave)]) is Some && note_midi(seq!['E', digit_char(octave)]) is Some
            && note_midi(seq!['F', digit_char(octave)]) is Some && note_midi(seq!['G', digit_char(octave)]) is Some
            && note_midi(seq!['A', digit_char(octave)]) is Some && note_midi(seq!['B', digit_char(octave)]) is Some,
{
    lemma_note_names('C', octave);
    lemma_note_names('D', octave);
    lemma_note_names('E', octave);
    lemma_note_names('F', octave);
    lemma_note_names('G', octave);
    lemma_note_names('A', octave);
    lemma_note_names('B', octave);
}

/// Standard orchestral dynamic levels, ordered soft → loud.
///
/// Swell tokens (`crescendo`, `decrescendo`, `cresc-decresc`) are *not* fixed
/// levels and parse to `None`.
#[derive(Clone, Copy, PartialEq, Eq, PartialOrd, Ord, Debug, Hash, Structural)]
pub enum Dynamic {
    Pianissimo,
    Piano,
    MezzoPiano,
    MezzoForte,
    Forte,
    Fortissimo,
}

/// Rank 0 (softest) … 5 (loudest).
pub open spec fn rank_of(d: Dynamic) -> int {
    match d {
        Dynamic::Pianissimo => 0,
        Dynamic::Piano => 1,
        Dynamic::MezzoPiano => 2,
        Dynamic::MezzoForte => 3,
        Dynamic::Forte => 4,
        Dynamic::Fortissimo => 5,
    }
}

/// The dynamic a filename token names, if any.
pub open spec fn dynamic_of_token(tok: Seq<char>) -> Option<Dynamic> {
    if tok == "pianissimo"@ {
        Some(Dynamic::Pianissimo)
    } else if tok == "piano"@ {
        Some(Dynamic::Piano)
    } else if tok == "mezzo-piano"@ {
        Some(Dynamic::MezzoPiano)
    } else if tok == "mezzo-forte"@ {
        Some(Dynamic::MezzoForte)
    } else if tok == "forte"@ {
        Some(Dynamic::Forte)
    } else if tok == "fortissimo"@ {
        Some(Dynamic::Fortissimo)
    } else {
        None
    }
}

/// The dynamic for an intensity of `sixths` sixths (0–5; anything above is
/// fortissimo).
pub open spec fn dynamic_for_sixths(sixths: u32) -> Dynamic {
    if sixths == 0 {
        Dynamic::Pianissimo
    } else if sixths == 1 {
        Dynamic::Piano
    } else if sixths == 2 {
        Dynamic::MezzoPiano
    } else if sixths == 3 {
        Dynamic::MezzoForte
    } else if sixths == 4 {
        Dynamic::Forte
    } else {
        Dynamic::Fortissimo
    }
}

impl Dynamic {
    pub fn from_token(tok: &str) -> (d: Option<Dynamic>)
        ensures
            d == dynamic_of_token(tok@),
    {
        if str_equal(tok, "pianissimo") {
            Some(Dynamic::Pianissimo)
        } else if str_equal(tok, "piano") {
            Some(Dynamic::Piano)
        } else if str_equal(tok, "mezzo-piano") {
            Some(Dynamic::MezzoPiano)
        } else if str_equal(tok, "mezzo-forte") {
            Some(Dynamic::MezzoForte)
        } else if str_equal(tok, "forte") {
            Some(Dynamic::Forte)
        } else if str_equal(tok, "fortissimo") {
            Some(Dynamic::Fortissimo)
        } else {
            None
        }
    }

    /// Rank 0 (softest) … 5 (loudest), for nearest-dynamic selection.
    pub fn rank(self) -> (r: i32)
        ensures
            r == rank_of(self),
    {
        match self {
            Dynamic::Pianissimo => 0,
            Dynamic::Piano => 1,
            Dynamic::MezzoPiano => 2,
            Dynamic::MezzoForte => 3,
            Dynamic::Forte => 4,
            Dynamic::Fortissimo => 5,
        }
    }

    /// Maps an intensity, counted in whole sixths of the 0–1 range
    /// (`(intensity.clamp(0.0, 1.0) * 6.0) as u32`), onto a dynamic level, so
    /// timbre (not just volume) hardens as a piece builds.
    pub fn for_intensity_sixths(sixths: u32) -> (d: Dynamic)
        ensures
            d == dynamic_for_sixths(sixths),
    {
        match sixths {
            0 => Dynamic::Pianissimo,
            1 => Dynamic::Piano,
            2 => Dynamic::MezzoPiano,
            3 => Dynamic::MezzoForte,
            4 => Dynamic::Forte,
            _ => Dynamic::Fortissimo,
        }
    }
}

/// The ranks order the dynamics soft to loud, and the intensity mapping
/// lands on each dynamic at the sixths equal to its rank.
pub proof fn lemma_dynamic_rank_round_trip(d: Dynamic)
    ensures
        0 <= rank_of(d) <= 5,
        dynamic_for_sixths(rank_of(d) as u32) == d,
        forall|e: Dynamic| rank_of(e) == rank_of(d) ==> e == d,
{
}

/// Distance from a spec's (possibly absent) dynamic to a target.
pub open spec fn dynamic_distance_of(have: Option<Dynamic>, want: Dynamic) -> int {
    match have {
        Some(d) => {
            let diff = rank_of(d) - rank_of(want);
            if diff < 0 { -diff } else { diff }
        },
        None => 100,
    }
}

/// Distance from a spec's (possibly absent) dynamic to a target, used to rank
/// candidates. A missing dynamic (swell) is treated as far away.
pub fn dynamic_distance(have: Option<Dynamic>, want: Dynamic) -> (d: i32)
    ensures
        d == dynamic_distance_of(have, want),
{
    match have {
        Some(d) => {
            let diff = d.rank() - want.rank();
            if diff < 0 { -diff } else { diff }
        },
        None => 100,
    }
}

// ─────────────────────────────────────────────────────────────────────────
//  Sample specs
// ─────────────────────────────────────────────────────────────────────────

/// The index of the `k`-th (from 0) `_` of a file stem, or the stem's
/// length when it has fewer.
pub open spec fn separator(stem: Seq<char>, k: nat) -> int
    decreases k,
{
    if k == 0 {
        find_from(stem, '_', 0)
    } else {
        find_from(stem, '_', separator(stem, (k - 1) as nat) + 1)
    }
}

/// The `k`-th `_`-separated field of a stem, for `k` from 1 to 3.
pub open spec fn stem_field(stem: Seq<char>, k: nat) -> Seq<char> {
    stem.subrange(separator(stem, (k - 1) as nat) + 1, separator(stem, k))
}

/// A stem parses when it has at least five `_`-separated fields.
pub open spec fn stem_parses(stem: Seq<char>) -> bool {
    separator(stem, 3) < stem.len()
}

/// Parsing the stem's pitch field stays within `i32` arithmetic.
pub open spec fn stem_fits(stem: Seq<char>) -> bool {
    stem_parses(stem) ==> midi_fits(stem_field(stem, 1))
}

/// One parsed sample file: pure metadata plus its asset path.
#[derive(Clone, Debug)]
pub struct SampleSpec {
    /// Leaf-folder name, e.g. `"violin"` or `"snare drum"`.
    pub instrument: String,
    /// Asset-server path (relative to the `assets/` root).
    pub asset_path: String,
    /// `None` for unpitched percussion.
    pub midi: Option<i32>,
    pub duration: String,
    /// `None` for swell recordings (crescendo/decrescendo).
    pub dynamic: Option<Dynamic>,
    pub articulation: String,
}

impl SampleSpec {
    /// `self` is what parsing `stem` gives, with `instrument` and
    /// `asset_path`: the pitch from the second field, duration and dynamic
    /// from the third and fourth, and the articulation from everything after
    /// the fourth `_`.
    pub open spec fn parsed_from(&self, instrument: Seq<char>, asset_path: Seq<char>, stem: Seq<char>) -> bool {
        &&& self.instrument@ == instrument
        &&& self.asset_path@ == asset_path
        &&& self.midi == note_midi(stem_field(stem, 1))
        &&& self.duration@ == stem_field(stem, 2)
        &&& self.dynamic == dynamic_of_token(stem_field(stem, 3))
        &&& self.articulation@ == stem.subrange(separator(stem, 3) + 1, stem.len() as int)
    }

    /// Whether parsing `stem` stays within `i32` arithmetic (computes
    /// [`stem_fits`]).
    pub fn stem_fits(stem: &str) -> (b: bool)
        ensures
            b == stem_fits(stem@),
    {
        let chars = to_chars(stem);
        let len = chars.len();
        proof { lemma_separators(stem@); }
        let p1 = find_char_from(&chars, '_', 0);
        if p1 == len {
            return true;
        }
        let p2 = find_char_from(&chars, '_', p1 + 1);
        if p2 == len {
            return true;
        }
        let p3 = find_char_from(&chars, '_', p2 + 1);
        if p3 == len {
            return true;
        }
        let p4 = find_char_from(&chars, '_', p3 + 1);
        if p4 == len {
            return true;
        }
        note_fits(substring(stem, p1 + 1, p2).as_str())
    }

    /// Parse `<instrument>_<pitch>_<duration>_<dynamic>_<articulation>` from a
    /// file stem. `instrument` and `asset_path` come from the caller (the leaf
    /// folder and full asset path), since the leading filename field can use a
    /// different separator (e.g. `snare-drum`). `None` when the stem has fewer
    /// than five fields.
    pub fn parse(instrument: &str, asset_path: &str, stem: &str) -> (r: Option<SampleSpec>)
        requires
            stem_fits(stem@),
        ensures
            r is Some <==> stem_parses(stem@),
            r matches Some(s) ==> s.parsed_from(instrument@, asset_path@, stem@),
    {
        let chars = to_chars(stem);
        let len = chars.len();
        proof { lemma_separators(stem@); }
        let p1 = find_char_from(&chars, '_', 0);
        if p1 == len {
            return None;
        }
        let p2 = find_char_from(&chars, '_', p1 + 1);
        if p2 == len {
            return None;
        }
        let p3 = find_char_from(&chars, '_', p2 + 1);
        if p3 == len {
            return None;
        }
        let p4 = find_char_from(&chars, '_', p3 + 1);
        if p4 == len {
            return None;
        }
        let pitch = substring(stem, p1 + 1, p2);
        let duration = substring(stem, p2 + 1, p3);
        let dynamic = substring(stem, p3 + 1, p4);
        let articulation = substring(stem, p4 + 1, len);
        Some(SampleSpec {
            instrument: instrument.to_owned(),
            asset_path: asset_path.to_owned(),
            midi: parse_note_to_midi(pitch.as_str()),
            duration,
            dynamic: Dynamic::from_token(dynamic.as_str()),
            articulation,
        })
    }
}

/// The separators of a stem come in increasing order.
proof fn lemma_separators(stem: Seq<char>)
    ensures
        separator(stem, 0) == find_from(stem, '_', 0),
        separator(stem, 1) == find_from(stem, '_', separator(stem, 0) + 1),
        separator(stem, 2) == find_from(stem, '_', separator(stem, 1) + 1),
        separator(stem, 3) == find_from(stem, '_', separator(stem, 2) + 1),
{
}

} // verus!

pub mod library;
pub use library::{SampleLibrary, ScannedFile};
pub mod multi;
pub use multi::{MultiSampler, Voice, VoiceFilter};
