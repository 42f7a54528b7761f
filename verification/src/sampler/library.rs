//! The sample library: every sample file of a scanned folder, parsed,
//! deduplicated and grouped by instrument.
use vstd::prelude::*;
use crate::sampler::{dynamic_distance, dynamic_distance_of, stem_fits, stem_parses, Dynamic, SampleSpec};
use crate::text::{
    chars_equal, chars_equal_ignore_ascii_case, chars_less, chars_lt, eq_ignore_ascii_case,
    lemma_chars_lt_total, lemma_chars_lt_transitive, to_chars,
};

verus! {

/// A file found while walking a sample folder, described by plain values:
/// its file name, the instrument (its folder's name), its asset path
/// relative to the assets root, and its stem and extension when the path
/// has them as valid UTF-8.
pub struct ScannedFile {
    pub file_name: String,
    pub instrument: String,
    pub asset_path: String,
    pub stem: Option<String>,
    pub extension: Option<String>,
}

/// The rank of a file extension among the preferred ones (`wav`, `ogg`,
/// `flac`, `mp3`, compared ignoring ASCII case): lower is preferred.
pub open spec fn extension_rank(ext: Seq<char>) -> Option<nat> {
    if eq_ignore_ascii_case("wav"@, ext) {
        Some(0)
    } else if eq_ignore_ascii_case("ogg"@, ext) {
        Some(1)
    } else if eq_ignore_ascii_case("flac"@, ext) {
        Some(2)
    } else if eq_ignore_ascii_case("mp3"@, ext) {
        Some(3)
    } else {
        None
    }
}

/// Computes [`extension_rank`].
pub fn preferred_extension_rank(ext: &str) -> (r: Option<usize>)
    ensures
        r matches Some(v) ==> extension_rank(ext@) == Some(v as nat),
        r is None <==> extension_rank(ext@) is None,
{
    let e = to_chars(ext);
    if chars_equal_ignore_ascii_case(&to_chars("wav"), &e) {
        Some(0)
    } else if chars_equal_ignore_ascii_case(&to_chars("ogg"), &e) {
        Some(1)
    } else if chars_equal_ignore_ascii_case(&to_chars("flac"), &e) {
        Some(2)
    } else if chars_equal_ignore_ascii_case(&to_chars("mp3"), &e) {
        Some(3)
    } else {
        None
    }
}

/// Whether the stem of a scanned file gets parsed: the file is not hidden
/// (no leading `.`) and has a preferred audio extension.
pub open spec fn stem_parsed(f: ScannedFile) -> bool {
    &&& !(f.file_name@.len() > 0 && f.file_name@[0] == '.')
    &&& f.extension matches Some(e) && extension_rank(e@) is Some
}

/// Parsing every stem that gets parsed stays within `i32` arithmetic.
pub open spec fn stems_fit(files: Seq<ScannedFile>) -> bool {
    forall|k: int| 0 <= k < files.len() && stem_parsed(#[trigger] files[k])
        ==> (files[k].stem matches Some(s) ==> stem_fits(s@))
}

/// Whether a scanned file becomes a sample: not hidden (no leading `.`), with
/// a preferred audio extension, and a stem that parses.
pub open spec fn accepted(f: ScannedFile) -> bool {
    &&& !(f.file_name@.len() > 0 && f.file_name@[0] == '.')
    &&& f.extension matches Some(e) && extension_rank(e@) is Some
    &&& f.stem matches Some(s) && stem_parses(s@)
}

/// The extension rank of an accepted file.
pub open spec fn rank(f: ScannedFile) -> nat {
    extension_rank(f.extension->0@)->0
}

/// Two files are the same sample (in different formats): same instrument and
/// same stem.
pub open spec fn same_sample(a: ScannedFile, b: ScannedFile) -> bool {
    a.instrument@ == b.instrument@ && a.stem->0@ == b.stem->0@
}

/// File `k` is the one kept for its sample among the first `n` files: the
/// earliest accepted file of the sample with the most preferred extension.
pub open spec fn kept_among(files: Seq<ScannedFile>, n: int, k: int) -> bool {
    &&& 0 <= k < n <= files.len()
    &&& accepted(files[k])
    &&& forall|j: int| #![trigger files[j]] 0 <= j < n && j != k && accepted(files[j]) && same_sample(files[j], files[k])
        ==> if j < k { rank(files[j]) > rank(files[k]) } else { rank(files[j]) >= rank(files[k]) }
}

/// A sequence of strings strictly increasing in character order.
pub open spec fn strictly_sorted(s: Seq<String>) -> bool {
    forall|i: int, j: int| 0 <= i < j < s.len() ==> chars_lt(#[trigger] s[i]@, #[trigger] s[j]@)
}

/// Inserting a string between its neighbours keeps a sequence sorted.
proof fn lemma_insert_sorted(s: Seq<String>, pos: int, x: String)
    requires
        strictly_sorted(s),
        0 <= pos <= s.len(),
        forall|i: int| 0 <= i < pos ==> chars_lt(#[trigger] s[i]@, x@),
        forall|i: int| pos <= i < s.len() ==> chars_lt(x@, #[trigger] s[i]@),
    ensures
        strictly_sorted(s.insert(pos, x)),
{
    let t = s.insert(pos, x);
    assert forall|i: int, j: int| 0 <= i < j < t.len() implies chars_lt(#[trigger] t[i]@, #[trigger] t[j]@) by {
        if i < pos && j < pos {
            assert(t[i] == s[i] && t[j] == s[j]);
        } else if i < pos && j == pos {
        } else if i < pos {
            assert(t[i] == s[i] && t[j] == s[j - 1]);
            assert(chars_lt(s[i]@, s[j - 1]@));
        } else if i == pos {
            assert(t[j] == s[j - 1]);
        } else {
            assert(t[i] == s[i - 1] && t[j] == s[j - 1]);
        }
    }
}

/// Where `key` stands in a strictly sorted list of strings: found at `pos`,
/// or to be inserted at `pos`.
fn locate(list: &Vec<String>, key: &Vec<char>) -> (r: (usize, bool))
    requires
        strictly_sorted(list@),
    ensures
        r.0 <= list@.len(),
        r.1 ==> r.0 < list@.len() && list@[r.0 as int]@ == key@,
        !r.1 ==> forall|i: int| 0 <= i < r.0 ==> chars_lt(#[trigger] list@[i]@, key@),
        !r.1 ==> forall|i: int| r.0 <= i < list@.len() ==> chars_lt(key@, #[trigger] list@[i]@),
        forall|i: int| 0 <= i < list@.len() && list@[i]@ == key@ ==> r.1 && i == r.0,
{
    let mut i: usize = 0;
    while i < list.len()
        invariant
            i <= list@.len(),
            strictly_sorted(list@),
            forall|j: int| 0 <= j < i ==> chars_lt(#[trigger] list@[j]@, key@),
        decreases list.len() - i,
    {
        let item = to_chars(list[i].as_str());
        if !chars_less(&item, key) {
            let found = chars_equal(&item, key);
            proof {
                lemma_chars_lt_total(item@, key@);
                assert forall|j: int| 0 <= j < list@.len() && list@[j]@ == key@ implies found && j == i by {
                    lemma_chars_lt_total(list@[j]@, key@);
                    if j < i {
                    } else if j > i {
                        assert(chars_lt(list@[i as int]@, list@[j]@));
                        if !found {
                            lemma_chars_lt_total(key@, list@[i as int]@);
                        }
                    }
                }
                if !found {
                    assert forall|j: int| i <= j < list@.len() implies chars_lt(key@, #[trigger] list@[j]@) by {
                        if j > i {
                            assert(chars_lt(list@[i as int]@, list@[j]@));
                            lemma_chars_lt_transitive(key@, list@[i as int]@, list@[j]@);
                        }
                    }
                }
            }
            return (i, found);
        }
        i = i + 1;
    }
    proof {
        assert forall|j: int| 0 <= j < list@.len() && list@[j]@ == key@ implies false by {
            lemma_chars_lt_total(list@[j]@, key@);
        }
    }
    (i, false)
}

/// An index of every sample beneath a scanned folder, grouped by instrument.
pub struct SampleLibrary {
    /// Instrument names, sorted.
    names: Vec<String>,
    /// For each instrument, the stems of its samples, sorted.
    stems: Vec<Vec<String>>,
    /// For each instrument, the extension rank of each sample kept.
    ranks: Vec<Vec<usize>>,
    /// For each instrument, its samples in stem order.
    groups: Vec<Vec<SampleSpec>>,
    /// Total number of samples.
    count: usize,
}

/// The number of samples in groups `0..n`.
pub open spec fn total_in(groups: Seq<Vec<SampleSpec>>, n: int) -> int
    decreases n,
{
    if n <= 0 {
        0
    } else {
        total_in(groups, n - 1) + groups[n - 1]@.len()
    }
}

impl SampleLibrary {
    pub closed spec fn names_of(&self) -> Seq<String> {
        self.names@
    }

    pub closed spec fn stems_of(&self, i: int) -> Seq<String> {
        self.stems@[i]@
    }

    pub closed spec fn specs_of(&self, i: int) -> Seq<SampleSpec> {
        self.groups@[i]@
    }

    pub closed spec fn count_of(&self) -> nat {
        self.count as nat
    }

    pub closed spec fn wf(&self) -> bool {
        &&& self.stems@.len() == self.names@.len()
        &&& self.ranks@.len() == self.names@.len()
        &&& self.groups@.len() == self.names@.len()
        &&& strictly_sorted(self.names@)
        &&& forall|i: int| 0 <= i < self.names@.len() ==> {
            &&& (#[trigger] self.stems@[i])@.len() > 0
            &&& self.ranks@[i]@.len() == self.stems@[i]@.len()
            &&& self.groups@[i]@.len() == self.stems@[i]@.len()
            &&& strictly_sorted(self.stems@[i]@)
        }
        &&& self.count == total_in(self.groups@, self.groups@.len() as int)
    }

    /// Slot (`i`, `j`) of the library holds the sample parsed from file `k`,
    /// the file kept for that instrument and stem among `files`.
    pub open spec fn slot_kept(&self, files: Seq<ScannedFile>, i: int, j: int, k: int) -> bool {
        &&& kept_among(files, files.len() as int, k)
        &&& files[k].instrument@ == self.names_of()[i]@
        &&& files[k].stem->0@ == self.stems_of(i)[j]@
        &&& self.specs_of(i)[j].parsed_from(files[k].instrument@, files[k].asset_path@, files[k].stem->0@)
    }

    /// Some file is kept in slot (`i`, `j`).
    pub open spec fn slot_filled(&self, files: Seq<ScannedFile>, i: int, j: int) -> bool {
        exists|k: int| #[trigger] self.slot_kept(files, i, j, k)
    }

    /// The library holds, for every (instrument, stem) pair it lists, the
    /// sample parsed from the file kept for that pair among `files`, and
    /// lists a pair for every accepted file.
    pub open spec fn indexes(&self, files: Seq<ScannedFile>) -> bool {
        &&& forall|i: int, j: int| 0 <= i < self.names_of().len() && 0 <= j < self.stems_of(i).len()
            ==> #[trigger] self.slot_filled(files, i, j)
        &&& forall|k: int| 0 <= k < files.len() && accepted(#[trigger] files[k]) ==> exists|i: int, j: int| {
            &&& 0 <= i < self.names_of().len()
            &&& 0 <= j < self.stems_of(i).len()
            &&& #[trigger] self.names_of()[i]@ == files[k].instrument@
            &&& #[trigger] self.stems_of(i)[j]@ == files[k].stem->0@
        }
    }
}

/// A library slot (instrument name, stem, rank, sample) is the one parsed
/// from file `k`, which is the file kept for its sample among the first `n`.
pub open spec fn slot_from(files: Seq<ScannedFile>, n: int, name: String, stem: String, rank_v: usize, spec: SampleSpec, k: int) -> bool {
    &&& kept_among(files, n, k)
    &&& files[k].instrument@ == name@
    &&& files[k].stem->0@ == stem@
    &&& spec.parsed_from(files[k].instrument@, files[k].asset_path@, files[k].stem->0@)
    &&& rank_v == rank(files[k])
}

/// A kept file stays kept when the next file is of another sample or not
/// accepted.
proof fn lemma_kept_other(files: Seq<ScannedFile>, n: int, k: int)
    requires
        kept_among(files, n, k),
        n < files.len(),
        !(accepted(files[n]) && same_sample(files[n], files[k])),
    ensures
        kept_among(files, n + 1, k),
{
}

/// A kept file stays kept when the next file of its sample has an extension
/// that is not preferred over its own.
proof fn lemma_kept_not_worse(files: Seq<ScannedFile>, n: int, k: int)
    requires
        kept_among(files, n, k),
        n < files.len(),
        accepted(files[n]),
        rank(files[n]) >= rank(files[k]),
    ensures
        kept_among(files, n + 1, k),
{
}

/// The next file of a kept file's sample replaces it when its extension is
/// preferred.
proof fn lemma_kept_better(files: Seq<ScannedFile>, n: int, k: int)
    requires
        kept_among(files, n, k),
        n < files.len(),
        accepted(files[n]),
        same_sample(files[n], files[k]),
        rank(files[n]) < rank(files[k]),
    ensures
        kept_among(files, n + 1, n),
{
    assert forall|j: int| #![trigger files[j]] 0 <= j < n + 1 && j != n && accepted(files[j]) && same_sample(files[j], files[n])
        implies rank(files[j]) > rank(files[n]) by {
        if j != k {
            assert(same_sample(files[j], files[k]));
        }
    }
}

/// The first accepted file of a sample is kept.
proof fn lemma_kept_first(files: Seq<ScannedFile>, n: int)
    requires
        0 <= n < files.len(),
        accepted(files[n]),
        forall|j: int| 0 <= j < n && accepted(#[trigger] files[j]) ==> !same_sample(files[j], files[n]),
    ensures
        kept_among(files, n + 1, n),
{
}

impl SampleLibrary {
    /// The state while building from `files`: the first `n` files are
    /// indexed, with `src` naming the file kept in each slot.
    closed spec fn building(&self, files: Seq<ScannedFile>, n: int, src: Seq<Seq<int>>) -> bool {
        &&& self.wf()
        &&& 0 <= n <= files.len()
        &&& self.count <= n
        &&& src.len() == self.names@.len()
        &&& forall|i: int| 0 <= i < src.len() ==> (#[trigger] src[i]).len() == self.stems@[i]@.len()
        &&& forall|i: int, j: int| 0 <= i < src.len() && 0 <= j < src[i].len() ==> slot_from(
            files, n, self.names@[i], self.stems@[i]@[j], self.ranks@[i]@[j], self.groups@[i]@[j], #[trigger] src[i][j])
        &&& forall|k: int| 0 <= k < n && accepted(#[trigger] files[k]) ==> exists|i: int, j: int| {
            &&& 0 <= i < self.names@.len()
            &&& 0 <= j < self.stems@[i]@.len()
            &&& #[trigger] self.names@[i]@ == files[k].instrument@
            &&& #[trigger] self.stems@[i]@[j]@ == files[k].stem->0@
        }
    }

    /// An empty library.
    pub fn new() -> (lib: SampleLibrary)
        ensures
            lib.wf(),
            lib.names_of().len() == 0,
            lib.samples_before(0) == 0,
            lib.count_of() == 0,
    {
        SampleLibrary { names: Vec::new(), stems: Vec::new(), ranks: Vec::new(), groups: Vec::new(), count: 0 }
    }
}

/// Inserting a group adds its samples to the total.
proof fn lemma_total_insert(groups: Seq<Vec<SampleSpec>>, i: int, g: Vec<SampleSpec>, n: int)
    requires
        0 <= i <= groups.len(),
        i <= n <= groups.len(),
    ensures
        total_in(groups.insert(i, g), n + 1) == total_in(groups, n) + g@.len(),
    decreases n,
{
    if n > i {
        lemma_total_insert(groups, i, g, n - 1);
        assert(groups.insert(i, g)[n] == groups[n - 1]);
    } else {
        lemma_total_prefix(groups, groups.insert(i, g), n);
    }
}

/// Totals only depend on the groups counted.
proof fn lemma_total_prefix(a: Seq<Vec<SampleSpec>>, b: Seq<Vec<SampleSpec>>, n: int)
    requires
        0 <= n <= a.len(),
        n <= b.len(),
        forall|i: int| 0 <= i < n ==> a[i]@.len() == b[i]@.len(),
    ensures
        total_in(a, n) == total_in(b, n),
    decreases n,
{
    if n > 0 {
        lemma_total_prefix(a, b, n - 1);
    }
}

/// Replacing a group changes the total by the difference in sizes.
proof fn lemma_total_update(groups: Seq<Vec<SampleSpec>>, i: int, g: Vec<SampleSpec>, n: int)
    requires
        0 <= i < groups.len(),
        0 <= n <= groups.len(),
    ensures
        total_in(groups.update(i, g), n) == total_in(groups, n) + (if i < n { g@.len() - groups[i]@.len() } else { 0 }),
    decreases n,
{
    if n > 0 {
        lemma_total_update(groups, i, g, n - 1);
    }
}

/// Distinct positions of a strictly sorted sequence hold different strings.
proof fn lemma_sorted_distinct(s: Seq<String>, i: int, j: int)
    requires
        strictly_sorted(s),
        0 <= i < s.len(),
        0 <= j < s.len(),
        i != j,
    ensures
        s[i]@ != s[j]@,
{
    if i < j {
        lemma_chars_lt_total(s[i]@, s[j]@);
    } else {
        lemma_chars_lt_total(s[j]@, s[i]@);
    }
}

impl SampleLibrary {
    /// A file that is not accepted leaves the library as it is.
    proof fn lemma_building_skip(&self, files: Seq<ScannedFile>, n: int, src: Seq<Seq<int>>)
        requires
            self.building(files, n, src),
            n < files.len(),
            !accepted(files[n]),
        ensures
            self.building(files, n + 1, src),
    {
        assert forall|i: int, j: int| 0 <= i < src.len() && 0 <= j < src[i].len() implies slot_from(
            files, n + 1, self.names@[i], self.stems@[i]@[j], self.ranks@[i]@[j], self.groups@[i]@[j], #[trigger] src[i][j]) by {
            lemma_kept_other(files, n, src[i][j]);
        }
    }

    /// Adds file `m` to a library built from the files before it.
    fn add_file(&mut self, files: &Vec<ScannedFile>, m: usize, Ghost(src): Ghost<Seq<Seq<int>>>) -> (new_src: Ghost<Seq<Seq<int>>>)
        requires
            old(self).building(files@, m as int, src),
            m < files@.len(),
            stem_parsed(files@[m as int]) ==> (files@[m as int].stem matches Some(s) ==> stem_fits(s@)),
        ensures
            final(self).building(files@, m + 1, new_src@),
    {
        let ghost fs = files@;
        let f = &files[m];
        let file_name = to_chars(f.file_name.as_str());
        if file_name.len() > 0 && file_name[0] == '.' {
            proof { self.lemma_building_skip(fs, m as int, src); }
            return Ghost(src);
        }
        let rank_v = match &f.extension {
            Some(e) => match preferred_extension_rank(e.as_str()) {
                Some(r) => r,
                None => {
                    proof { self.lemma_building_skip(fs, m as int, src); }
                    return Ghost(src);
                },
            },
            None => {
                proof { self.lemma_building_skip(fs, m as int, src); }
                return Ghost(src);
            },
        };
        let stem = match &f.stem {
            Some(s) => s,
            None => {
                proof { self.lemma_building_skip(fs, m as int, src); }
                return Ghost(src);
            },
        };
        let spec = match SampleSpec::parse(f.instrument.as_str(), f.asset_path.as_str(), stem.as_str()) {
            Some(sp) => sp,
            None => {
                proof { self.lemma_building_skip(fs, m as int, src); }
                return Ghost(src);
            },
        };
        assert(accepted(fs[m as int]));
        assert(rank(fs[m as int]) == rank_v);
        let instrument = to_chars(f.instrument.as_str());
        let (i, found) = locate(&self.names, &instrument);
        if !found {
            self.add_instrument(files, m, i, f.instrument.clone(), stem.clone(), rank_v, spec, Ghost(src))
        } else {
            let stem_chars = to_chars(stem.as_str());
            let (j, found_stem) = locate(&self.stems[i], &stem_chars);
            if !found_stem {
                self.add_stem(files, m, i, j, stem.clone(), rank_v, spec, Ghost(src))
            } else {
                self.revisit(files, m, i, j, rank_v, spec, Ghost(src))
            }
        }
    }
}

impl SampleLibrary {
    /// Adds file `m`, the first sample of a new instrument, at position `i`.
    fn add_instrument(
        &mut self,
        files: &Vec<ScannedFile>,
        m: usize,
        i: usize,
        name: String,
        stem: String,
        rank_v: usize,
        spec: SampleSpec,
        Ghost(src): Ghost<Seq<Seq<int>>>,
    ) -> (new_src: Ghost<Seq<Seq<int>>>)
        requires
            old(self).building(files@, m as int, src),
            m < files@.len(),
            accepted(files@[m as int]),
            rank(files@[m as int]) == rank_v,
            name@ == files@[m as int].instrument@,
            stem@ == files@[m as int].stem->0@,
            spec.parsed_from(files@[m as int].instrument@, files@[m as int].asset_path@, stem@),
            i <= old(self).names@.len(),
            forall|x: int| 0 <= x < i ==> chars_lt(#[trigger] old(self).names@[x]@, name@),
            forall|x: int| i <= x < old(self).names@.len() ==> chars_lt(name@, #[trigger] old(self).names@[x]@),
        ensures
            final(self).building(files@, m + 1, new_src@),
    {
        let ghost fs = files@;
        let ghost mm = m as int;
        let ghost ii = i as int;
        let ghost old_names = self.names@;
        let ghost old_stems = self.stems@;
        let ghost old_ranks = self.ranks@;
        let ghost old_groups = self.groups@;
        let ghost n_old = old_names.len();
        assert forall|x: int| 0 <= x < n_old implies old_names[x]@ != name@ by {
            if x < ii {
                lemma_chars_lt_total(old_names[x]@, name@);
            } else {
                lemma_chars_lt_total(name@, old_names[x]@);
            }
        }
        proof {
            lemma_insert_sorted(old_names, ii, name);
        }
        self.names.insert(i, name);
        let mut sv: Vec<String> = Vec::new();
        sv.push(stem);
        self.stems.insert(i, sv);
        let mut rv: Vec<usize> = Vec::new();
        rv.push(rank_v);
        self.ranks.insert(i, rv);
        let mut gv: Vec<SampleSpec> = Vec::new();
        gv.push(spec);
        proof {
            lemma_total_insert(old_groups, ii, gv, old_groups.len() as int);
        }
        self.groups.insert(i, gv);
        let _ = files.len();
        self.count = self.count + 1;
        let ghost new_src = src.insert(ii, seq![mm]);
        proof {
            assert forall|x: int| 0 <= x < self.names@.len() implies {
                &&& (#[trigger] self.stems@[x])@.len() > 0
                &&& self.ranks@[x]@.len() == self.stems@[x]@.len()
                &&& self.groups@[x]@.len() == self.stems@[x]@.len()
                &&& strictly_sorted(self.stems@[x]@)
            } by {
                if x < ii {
                    assert(self.stems@[x] == old_stems[x]);
                } else if x > ii {
                    assert(self.stems@[x] == old_stems[x - 1]);
                }
            }
            assert(self.wf());
            assert forall|j: int| 0 <= j < mm && accepted(#[trigger] fs[j]) implies !same_sample(fs[j], fs[mm]) by {
                let (i1, j1) = choose|i1: int, j1: int| {
                    &&& 0 <= i1 < old_names.len()
                    &&& 0 <= j1 < old_stems[i1]@.len()
                    &&& #[trigger] old_names[i1]@ == fs[j].instrument@
                    &&& #[trigger] old_stems[i1]@[j1]@ == fs[j].stem->0@
                };
                assert(old_names[i1]@ != name@);
            }
            lemma_kept_first(fs, mm);
            assert forall|x: int, j: int| 0 <= x < new_src.len() && 0 <= j < new_src[x].len() implies slot_from(
                fs, mm + 1, self.names@[x], self.stems@[x]@[j], self.ranks@[x]@[j], self.groups@[x]@[j], #[trigger] new_src[x][j]) by {
                if x != ii {
                    let xo = if x < ii { x } else { x - 1 };
                    assert(new_src[x] == src[xo]);
                    assert(self.names@[x] == old_names[xo]);
                    assert(self.stems@[x] == old_stems[xo]);
                    assert(self.ranks@[x] == old_ranks[xo]);
                    assert(self.groups@[x] == old_groups[xo]);
                    assert(slot_from(fs, mm, old_names[xo], old_stems[xo]@[j], old_ranks[xo]@[j], old_groups[xo]@[j], src[xo][j]));
                    assert(old_names[xo]@ != name@);
                    lemma_kept_other(fs, mm, src[xo][j]);
                }
            }
            assert forall|x: int| 0 <= x < new_src.len() implies (#[trigger] new_src[x]).len() == self.stems@[x]@.len() by {
                if x < ii {
                    assert(new_src[x] == src[x]);
                } else if x > ii {
                    assert(new_src[x] == src[x - 1]);
                }
            }
            assert forall|k: int| 0 <= k < mm + 1 && accepted(#[trigger] fs[k]) implies exists|x: int, j: int| {
                &&& 0 <= x < self.names@.len()
                &&& 0 <= j < self.stems@[x]@.len()
                &&& #[trigger] self.names@[x]@ == fs[k].instrument@
                &&& #[trigger] self.stems@[x]@[j]@ == fs[k].stem->0@
            } by {
                if k == mm {
                    assert(self.names@[ii]@ == fs[k].instrument@);
                    assert(self.stems@[ii]@[0]@ == fs[k].stem->0@);
                } else {
                    let (i1, j1) = choose|i1: int, j1: int| {
                        &&& 0 <= i1 < old_names.len()
                        &&& 0 <= j1 < old_stems[i1]@.len()
                        &&& #[trigger] old_names[i1]@ == fs[k].instrument@
                        &&& #[trigger] old_stems[i1]@[j1]@ == fs[k].stem->0@
                    };
                    let x = if i1 < ii { i1 } else { i1 + 1 };
                    assert(self.names@[x] == old_names[i1]);
                    assert(self.stems@[x] == old_stems[i1]);
                    assert(self.names@[x]@ == fs[k].instrument@);
                    assert(self.stems@[x]@[j1]@ == fs[k].stem->0@);
                }
            }
        }
        Ghost(new_src)
    }
}

impl SampleLibrary {
    /// Adds file `m`, a new sample of instrument `i`, at position `j` of its
    /// group.
    fn add_stem(
        &mut self,
        files: &Vec<ScannedFile>,
        m: usize,
        i: usize,
        j: usize,
        stem: String,
        rank_v: usize,
        spec: SampleSpec,
        Ghost(src): Ghost<Seq<Seq<int>>>,
    ) -> (new_src: Ghost<Seq<Seq<int>>>)
        requires
            old(self).building(files@, m as int, src),
            m < files@.len(),
            accepted(files@[m as int]),
            rank(files@[m as int]) == rank_v,
            i < old(self).names@.len(),
            old(self).names@[i as int]@ == files@[m as int].instrument@,
            stem@ == files@[m as int].stem->0@,
            spec.parsed_from(files@[m as int].instrument@, files@[m as int].asset_path@, stem@),
            j <= old(self).stems@[i as int]@.len(),
            forall|x: int| 0 <= x < j ==> chars_lt(#[trigger] old(self).stems@[i as int]@[x]@, stem@),
            forall|x: int| j <= x < old(self).stems@[i as int]@.len() ==> chars_lt(stem@, #[trigger] old(self).stems@[i as int]@[x]@),
        ensures
            final(self).building(files@, m + 1, new_src@),
    {
        let ghost fs = files@;
        let ghost mm = m as int;
        let ghost ii = i as int;
        let ghost jj = j as int;
        let ghost old_names = self.names@;
        let ghost old_stems = self.stems@;
        let ghost old_ranks = self.ranks@;
        let ghost old_groups = self.groups@;
        let ghost group = old_stems[ii]@;
        assert forall|x: int| 0 <= x < group.len() implies group[x]@ != stem@ by {
            if x < jj {
                lemma_chars_lt_total(group[x]@, stem@);
            } else {
                lemma_chars_lt_total(stem@, group[x]@);
            }
        }
        assert forall|x: int| 0 <= x < old_names.len() && x != ii implies old_names[x]@ != old_names[ii]@ by {
            lemma_sorted_distinct(old_names, x, ii);
        }
        proof {
            lemma_insert_sorted(group, jj, stem);
        }
        let mut sv = self.stems.remove(i);
        sv.insert(j, stem);
        self.stems.insert(i, sv);
        let mut rv = self.ranks.remove(i);
        rv.insert(j, rank_v);
        self.ranks.insert(i, rv);
        let mut gv = self.groups.remove(i);
        let ghost old_group_specs = gv@;
        gv.insert(j, spec);
        let ghost new_group = gv;
        self.groups.insert(i, gv);
        assert(self.stems@ =~= old_stems.update(ii, self.stems@[ii]));
        assert(self.ranks@ =~= old_ranks.update(ii, self.ranks@[ii]));
        assert(self.groups@ =~= old_groups.update(ii, new_group));
        proof {
            lemma_total_update(old_groups, ii, new_group, old_groups.len() as int);
        }
        let _ = files.len();
        self.count = self.count + 1;
        let ghost new_src = src.update(ii, src[ii].insert(jj, mm));
        proof {
            assert forall|x: int| 0 <= x < self.names@.len() implies {
                &&& (#[trigger] self.stems@[x])@.len() > 0
                &&& self.ranks@[x]@.len() == self.stems@[x]@.len()
                &&& self.groups@[x]@.len() == self.stems@[x]@.len()
                &&& strictly_sorted(self.stems@[x]@)
            } by {
                if x != ii {
                    assert(self.stems@[x] == old_stems[x]);
                }
            }
            assert(self.wf());
            assert forall|k: int| 0 <= k < mm && accepted(#[trigger] fs[k]) implies !same_sample(fs[k], fs[mm]) by {
                let (i1, j1) = choose|i1: int, j1: int| {
                    &&& 0 <= i1 < old_names.len()
                    &&& 0 <= j1 < old_stems[i1]@.len()
                    &&& #[trigger] old_names[i1]@ == fs[k].instrument@
                    &&& #[trigger] old_stems[i1]@[j1]@ == fs[k].stem->0@
                };
                if same_sample(fs[k], fs[mm]) {
                    assert(i1 == ii);
                    assert(group[j1]@ != stem@);
                }
            }
            lemma_kept_first(fs, mm);
            assert forall|x: int, y: int| 0 <= x < new_src.len() && 0 <= y < new_src[x].len() implies slot_from(
                fs, mm + 1, self.names@[x], self.stems@[x]@[y], self.ranks@[x]@[y], self.groups@[x]@[y], #[trigger] new_src[x][y]) by {
                if x != ii {
                    assert(new_src[x] == src[x]);
                    assert(slot_from(fs, mm, old_names[x], old_stems[x]@[y], old_ranks[x]@[y], old_groups[x]@[y], src[x][y]));
                    lemma_kept_other(fs, mm, src[x][y]);
                } else if y != jj {
                    let yo = if y < jj { y } else { y - 1 };
                    assert(new_src[x][y] == src[ii][yo]);
                    assert(self.stems@[x]@[y] == old_stems[ii]@[yo]);
                    assert(self.ranks@[x]@[y] == old_ranks[ii]@[yo]);
                    assert(self.groups@[x]@[y] == old_groups[ii]@[yo]);
                    assert(slot_from(fs, mm, old_names[ii], old_stems[ii]@[yo], old_ranks[ii]@[yo], old_groups[ii]@[yo], src[ii][yo]));
                    assert(group[yo]@ != stem@);
                    lemma_kept_other(fs, mm, src[ii][yo]);
                } else {
                    assert(new_src[x][y] == mm);
                }
            }
            assert forall|x: int| 0 <= x < new_src.len() implies (#[trigger] new_src[x]).len() == self.stems@[x]@.len() by {
                if x != ii {
                    assert(new_src[x] == src[x]);
                }
            }
            assert forall|k: int| 0 <= k < mm + 1 && accepted(#[trigger] fs[k]) implies exists|x: int, y: int| {
                &&& 0 <= x < self.names@.len()
                &&& 0 <= y < self.stems@[x]@.len()
                &&& #[trigger] self.names@[x]@ == fs[k].instrument@
                &&& #[trigger] self.stems@[x]@[y]@ == fs[k].stem->0@
            } by {
                if k == mm {
                    assert(self.names@[ii]@ == fs[k].instrument@);
                    assert(self.stems@[ii]@[jj]@ == fs[k].stem->0@);
                } else {
                    let (i1, j1) = choose|i1: int, j1: int| {
                        &&& 0 <= i1 < old_names.len()
                        &&& 0 <= j1 < old_stems[i1]@.len()
                        &&& #[trigger] old_names[i1]@ == fs[k].instrument@
                        &&& #[trigger] old_stems[i1]@[j1]@ == fs[k].stem->0@
                    };
                    if i1 != ii {
                        assert(self.stems@[i1] == old_stems[i1]);
                        assert(self.names@[i1]@ == fs[k].instrument@);
                        assert(self.stems@[i1]@[j1]@ == fs[k].stem->0@);
                    } else {
                        let y = if j1 < jj { j1 } else { j1 + 1 };
                        assert(self.stems@[ii]@[y] == old_stems[ii]@[j1]);
                        assert(self.names@[ii]@ == fs[k].instrument@);
                        assert(self.stems@[ii]@[y]@ == fs[k].stem->0@);
                    }
                }
            }
        }
        Ghost(new_src)
    }
}

impl SampleLibrary {
    /// Meets file `m` again for a sample already in slot (`i`, `j`): its
    /// sample replaces the slot's when its extension is preferred.
    fn revisit(
        &mut self,
        files: &Vec<ScannedFile>,
        m: usize,
        i: usize,
        j: usize,
        rank_v: usize,
        spec: SampleSpec,
        Ghost(src): Ghost<Seq<Seq<int>>>,
    ) -> (new_src: Ghost<Seq<Seq<int>>>)
        requires
            old(self).building(files@, m as int, src),
            m < files@.len(),
            accepted(files@[m as int]),
            rank(files@[m as int]) == rank_v,
            i < old(self).names@.len(),
            old(self).names@[i as int]@ == files@[m as int].instrument@,
            j < old(self).stems@[i as int]@.len(),
            old(self).stems@[i as int]@[j as int]@ == files@[m as int].stem->0@,
            spec.parsed_from(files@[m as int].instrument@, files@[m as int].asset_path@, files@[m as int].stem->0@),
        ensures
            final(self).building(files@, m + 1, new_src@),
    {
        let ghost fs = files@;
        let ghost mm = m as int;
        let ghost ii = i as int;
        let ghost jj = j as int;
        let ghost old_names = self.names@;
        let ghost old_stems = self.stems@;
        let ghost old_ranks = self.ranks@;
        let ghost old_groups = self.groups@;
        let ghost kept = src[ii][jj];
        assert(slot_from(fs, mm, old_names[ii], old_stems[ii]@[jj], old_ranks[ii]@[jj], old_groups[ii]@[jj], src[ii][jj]));
        assert forall|x: int| 0 <= x < old_names.len() && x != ii implies old_names[x]@ != old_names[ii]@ by {
            lemma_sorted_distinct(old_names, x, ii);
        }
        assert forall|y: int| 0 <= y < old_stems[ii]@.len() && y != jj implies old_stems[ii]@[y]@ != old_stems[ii]@[jj]@ by {
            lemma_sorted_distinct(old_stems[ii]@, y, jj);
        }
        let old_rank = self.ranks[i][j];
        if rank_v < old_rank {
            let mut rv = self.ranks.remove(i);
            rv.set(j, rank_v);
            self.ranks.insert(i, rv);
            let mut gv = self.groups.remove(i);
            gv.set(j, spec);
            let ghost new_group = gv;
            self.groups.insert(i, gv);
            assert(self.ranks@ =~= old_ranks.update(ii, self.ranks@[ii]));
            assert(self.groups@ =~= old_groups.update(ii, new_group));
            proof {
                lemma_total_update(old_groups, ii, new_group, old_groups.len() as int);
                lemma_kept_better(fs, mm, kept);
            }
            let ghost new_src = src.update(ii, src[ii].update(jj, mm));
            proof {
                assert forall|x: int| 0 <= x < self.names@.len() implies {
                    &&& (#[trigger] self.stems@[x])@.len() > 0
                    &&& self.ranks@[x]@.len() == self.stems@[x]@.len()
                    &&& self.groups@[x]@.len() == self.stems@[x]@.len()
                    &&& strictly_sorted(self.stems@[x]@)
                } by {
                    if x != ii {
                        assert(self.ranks@[x] == old_ranks[x]);
                        assert(self.groups@[x] == old_groups[x]);
                    }
                }
                assert(self.wf());
                assert forall|x: int, y: int| 0 <= x < new_src.len() && 0 <= y < new_src[x].len() implies slot_from(
                    fs, mm + 1, self.names@[x], self.stems@[x]@[y], self.ranks@[x]@[y], self.groups@[x]@[y], #[trigger] new_src[x][y]) by {
                    if x != ii || y != jj {
                        assert(new_src[x][y] == src[x][y]);
                        assert(self.ranks@[x]@[y] == old_ranks[x]@[y]);
                        assert(self.groups@[x]@[y] == old_groups[x]@[y]);
                        assert(slot_from(fs, mm, old_names[x], old_stems[x]@[y], old_ranks[x]@[y], old_groups[x]@[y], src[x][y]));
                        lemma_kept_other(fs, mm, src[x][y]);
                    }
                }
                assert forall|x: int| 0 <= x < new_src.len() implies (#[trigger] new_src[x]).len() == self.stems@[x]@.len() by {
                    if x != ii {
                        assert(new_src[x] == src[x]);
                    }
                }
            }
            Ghost(new_src)
        } else {
            proof {
                lemma_kept_not_worse(fs, mm, kept);
                assert forall|x: int, y: int| 0 <= x < src.len() && 0 <= y < src[x].len() implies slot_from(
                    fs, mm + 1, self.names@[x], self.stems@[x]@[y], self.ranks@[x]@[y], self.groups@[x]@[y], #[trigger] src[x][y]) by {
                    if x != ii || y != jj {
                        lemma_kept_other(fs, mm, src[x][y]);
                    }
                }
            }
            Ghost(src)
        }
    }
}

/// `spec` carries articulation `art`.
pub open spec fn has_articulation(spec: SampleSpec, art: Seq<char>) -> bool {
    spec.articulation@ == art
}

/// Some sample of `specs` carries articulation `art`.
pub open spec fn offers(specs: Seq<SampleSpec>, art: Seq<char>) -> bool {
    exists|j: int| 0 <= j < specs.len() && has_articulation(#[trigger] specs[j], art)
}

/// Sample `j` is the one [`SampleLibrary::resolve_spec`] picks from `specs`
/// for `arts` and `want`: it carries the first articulation of `arts` that
/// any sample offers, and among the samples with that articulation it has
/// the dynamic nearest to `want`, the first of them on a tie.
pub open spec fn resolves_to(specs: Seq<SampleSpec>, arts: Seq<&str>, want: Dynamic, a: int, j: int) -> bool {
    &&& 0 <= a < arts.len()
    &&& 0 <= j < specs.len()
    &&& has_articulation(specs[j], arts[a]@)
    &&& forall|b: int| 0 <= b < a ==> !offers(specs, (#[trigger] arts[b])@)
    &&& forall|x: int| 0 <= x < specs.len() && has_articulation(#[trigger] specs[x], arts[a]@) ==> {
        &&& dynamic_distance_of(specs[x].dynamic, want) >= dynamic_distance_of(specs[j].dynamic, want)
        &&& x < j ==> dynamic_distance_of(specs[x].dynamic, want) > dynamic_distance_of(specs[j].dynamic, want)
    }
}

impl SampleLibrary {
    /// The number of samples of the first `n` instruments.
    pub open spec fn samples_before(&self, n: int) -> int
        decreases n,
    {
        if n <= 0 {
            0
        } else {
            self.samples_before(n - 1) + self.specs_of(n - 1).len()
        }
    }

    /// The index of `instrument` among the library's instruments.
    pub open spec fn instrument_index(&self, instrument: Seq<char>) -> Option<int> {
        if exists|i: int| 0 <= i < self.names_of().len() && #[trigger] self.names_of()[i]@ == instrument {
            Some(choose|i: int| 0 <= i < self.names_of().len() && #[trigger] self.names_of()[i]@ == instrument)
        } else {
            None
        }
    }

    proof fn lemma_count(&self, n: int)
        requires
            self.wf(),
            0 <= n <= self.names_of().len(),
        ensures
            total_in(self.groups@, n) == self.samples_before(n),
        decreases n,
    {
        if n > 0 {
            self.lemma_count(n - 1);
        }
    }

    /// Every instrument of a well-formed library has at least one sample,
    /// its samples and stems pair up in stem order, and so the library holds
    /// at least one sample per instrument: it holds no sample exactly when it
    /// lists no instrument.
    pub proof fn lemma_instruments_have_samples(&self)
        requires
            self.wf(),
        ensures
            forall|i: int| 0 <= i < self.names_of().len() ==> {
                &&& (#[trigger] self.specs_of(i)).len() > 0
                &&& self.specs_of(i).len() == self.stems_of(i).len()
                &&& strictly_sorted(self.stems_of(i))
            },
            strictly_sorted(self.names_of()),
            self.samples_before(self.names_of().len() as int) >= self.names_of().len(),
            self.samples_before(self.names_of().len() as int) == 0 <==> self.names_of().len() == 0,
    {
        self.lemma_samples_per_instrument(self.names_of().len() as int);
        assert forall|i: int| 0 <= i < self.names_of().len() implies {
            &&& (#[trigger] self.specs_of(i)).len() > 0
            &&& self.specs_of(i).len() == self.stems_of(i).len()
            &&& strictly_sorted(self.stems_of(i))
        } by {
            assert(self.stems@[i]@.len() > 0);
        }
    }

    /// The first `n` instruments hold at least `n` samples.
    proof fn lemma_samples_per_instrument(&self, n: int)
        requires
            self.wf(),
            0 <= n <= self.names_of().len(),
        ensures
            self.samples_before(n) >= n,
            n > 0 ==> self.samples_before(n) > 0,
        decreases n,
    {
        if n > 0 {
            self.lemma_samples_per_instrument(n - 1);
            assert(self.stems@[n - 1]@.len() > 0);
        }
    }

    /// Whether every stem that [`SampleLibrary::from_files`] parses stays
    /// within `i32` arithmetic (computes [`stems_fit`]).
    pub fn stems_fit(files: &Vec<ScannedFile>) -> (b: bool)
        ensures
            b == stems_fit(files@),
    {
        let mut k: usize = 0;
        while k < files.len()
            invariant
                k <= files@.len(),
                forall|j: int| 0 <= j < k && stem_parsed(#[trigger] files@[j])
                    ==> (files@[j].stem matches Some(s) ==> stem_fits(s@)),
            decreases files.len() - k,
        {
            let f = &files[k];
            let file_name = to_chars(f.file_name.as_str());
            let hidden = file_name.len() > 0 && file_name[0] == '.';
            let preferred = match &f.extension {
                Some(e) => preferred_extension_rank(e.as_str()).is_some(),
                None => false,
            };
            if !hidden && preferred {
                if let Some(stem) = &f.stem {
                    if !SampleSpec::stem_fits(stem.as_str()) {
                        assert(stem_parsed(files@[k as int]));
                        return false;
                    }
                }
            }
            k = k + 1;
        }
        true
    }

    /// Builds the library from the files found beneath a sample folder, in
    /// the order they were found. Hidden files, files without a preferred
    /// audio extension and stems that do not parse are skipped; when the same
    /// sample (instrument and stem) exists in several formats, the one with
    /// the most preferred extension (wav, then ogg, flac, mp3) is kept, the
    /// earliest found on a tie. Instruments come out sorted by name and each
    /// instrument's samples sorted by stem.
    pub fn from_files(files: &Vec<ScannedFile>) -> (lib: SampleLibrary)
        requires
            stems_fit(files@),
        ensures
            lib.wf(),
            lib.indexes(files@),
            strictly_sorted(lib.names_of()),
            forall|i: int| 0 <= i < lib.names_of().len() ==> strictly_sorted(#[trigger] lib.stems_of(i))
                && lib.stems_of(i).len() == lib.specs_of(i).len()
                && lib.specs_of(i).len() > 0,
            lib.names_of().len() == 0 <==> forall|k: int| 0 <= k < files@.len() ==> !accepted(#[trigger] files@[k]),
    {
        let mut lib = SampleLibrary::new();
        let ghost mut src: Seq<Seq<int>> = Seq::empty();
        let mut m: usize = 0;
        while m < files.len()
            invariant
                m <= files@.len(),
                lib.building(files@, m as int, src),
                stems_fit(files@),
            decreases files.len() - m,
        {
            assert(stem_parsed(files@[m as int]) ==> (files@[m as int].stem matches Some(s) ==> stem_fits(s@)));
            let Ghost(next) = lib.add_file(files, m, Ghost(src));
            proof {
                src = next;
            }
            m = m + 1;
        }
        proof {
            let fs = files@;
            assert forall|i: int, j: int| 0 <= i < lib.names_of().len() && 0 <= j < lib.stems_of(i).len()
                implies #[trigger] lib.slot_filled(fs, i, j) by {
                assert(slot_from(fs, fs.len() as int, lib.names@[i], lib.stems@[i]@[j], lib.ranks@[i]@[j], lib.groups@[i]@[j], src[i][j]));
                assert(lib.slot_kept(fs, i, j, src[i][j]));
            }
            assert forall|k: int| 0 <= k < fs.len() && accepted(#[trigger] fs[k]) implies exists|i: int, j: int| {
                &&& 0 <= i < lib.names_of().len()
                &&& 0 <= j < lib.stems_of(i).len()
                &&& #[trigger] lib.names_of()[i]@ == fs[k].instrument@
                &&& #[trigger] lib.stems_of(i)[j]@ == fs[k].stem->0@
            } by {
                let (i, j) = choose|i: int, j: int| {
                    &&& 0 <= i < lib.names@.len()
                    &&& 0 <= j < lib.stems@[i]@.len()
                    &&& #[trigger] lib.names@[i]@ == fs[k].instrument@
                    &&& #[trigger] lib.stems@[i]@[j]@ == fs[k].stem->0@
                };
                assert(lib.names_of()[i]@ == fs[k].instrument@);
                assert(lib.stems_of(i)[j]@ == fs[k].stem->0@);
            }
            if lib.names_of().len() > 0 {
                assert(lib.stems_of(0).len() > 0);
                assert(lib.slot_filled(fs, 0, 0));
                let k = choose|k: int| #[trigger] lib.slot_kept(fs, 0, 0, k);
                assert(accepted(fs[k]));
            }
        }
        lib
    }

    /// All instrument names found, sorted.
    pub fn instruments(&self) -> (names: Vec<String>)
        ensures
            names@ == self.names_of(),
    {
        let mut names: Vec<String> = Vec::new();
        let mut i: usize = 0;
        while i < self.names.len()
            invariant
                i <= self.names@.len(),
                names@ == self.names@.take(i as int),
            decreases self.names.len() - i,
        {
            names.push(self.names[i].clone());
            i = i + 1;
            assert(names@ =~= self.names@.take(i as int));
        }
        assert(self.names@.take(self.names@.len() as int) =~= self.names@);
        names
    }

    /// The index of `instrument` (computes [`SampleLibrary::instrument_index`]).
    fn find_instrument(&self, instrument: &str) -> (r: Option<usize>)
        requires
            self.wf(),
        ensures
            r matches Some(i) ==> self.instrument_index(instrument@) == Some(i as int),
            r is None <==> self.instrument_index(instrument@) is None,
    {
        let key = to_chars(instrument);
        let (i, found) = locate(&self.names, &key);
        if found {
            proof {
                let c = choose|x: int| 0 <= x < self.names_of().len() && #[trigger] self.names_of()[x]@ == instrument@;
                assert(self.names_of()[i as int]@ == instrument@);
            }
            Some(i)
        } else {
            None
        }
    }

    /// Specs for one instrument (empty slice if unknown).
    pub fn specs(&self, instrument: &str) -> (specs: &[SampleSpec])
        requires
            self.wf(),
        ensures
            match self.instrument_index(instrument@) {
                Some(i) => specs@ == self.specs_of(i) && specs@.len() > 0,
                None => specs@.len() == 0,
            },
    {
        proof { self.lemma_instruments_have_samples(); }
        match self.find_instrument(instrument) {
            Some(i) => {
                assert(self.specs_of(i as int).len() > 0);
                self.groups[i].as_slice()
            },
            None => &[],
        }
    }

    /// Total sample count across all instruments.
    pub fn len(&self) -> (n: usize)
        requires
            self.wf(),
        ensures
            n == self.samples_before(self.names_of().len() as int),
            n >= self.names_of().len(),
            n == 0 <==> self.names_of().len() == 0,
    {
        proof {
            self.lemma_count(self.names_of().len() as int);
            self.lemma_instruments_have_samples();
        }
        self.count
    }

    /// Whether the library holds no instrument.
    pub fn is_empty(&self) -> (b: bool)
        requires
            self.wf(),
        ensures
            b == (self.names_of().len() == 0),
            b == (self.samples_before(self.names_of().len() as int) == 0),
    {
        proof { self.lemma_instruments_have_samples(); }
        self.names.is_empty()
    }

    /// The index of the first sample of `specs` with articulation `art` and
    /// the nearest dynamic to `want` (the first on a tie), if any.
    fn nearest_dynamic(specs: &Vec<SampleSpec>, art: &str, want: Dynamic) -> (r: Option<usize>)
        ensures
            r is None <==> !offers(specs@, art@),
            r matches Some(j) ==> j < specs@.len() && has_articulation(specs@[j as int], art@)
                && forall|x: int| 0 <= x < specs@.len() && has_articulation(#[trigger] specs@[x], art@) ==> {
                    &&& dynamic_distance_of(specs@[x].dynamic, want) >= dynamic_distance_of(specs@[j as int].dynamic, want)
                    &&& x < j ==> dynamic_distance_of(specs@[x].dynamic, want) > dynamic_distance_of(specs@[j as int].dynamic, want)
                },
    {
        let art_chars = to_chars(art);
        let mut best: Option<usize> = None;
        let mut best_distance: i32 = 0;
        let mut x: usize = 0;
        while x < specs.len()
            invariant
                x <= specs@.len(),
                art_chars@ == art@,
                best is None <==> forall|y: int| 0 <= y < x ==> !has_articulation(#[trigger] specs@[y], art@),
                best matches Some(j) ==> j < x && has_articulation(specs@[j as int], art@)
                    && best_distance == dynamic_distance_of(specs@[j as int].dynamic, want)
                    && forall|y: int| 0 <= y < x && has_articulation(#[trigger] specs@[y], art@) ==> {
                        &&& dynamic_distance_of(specs@[y].dynamic, want) >= best_distance
                        &&& y < j ==> dynamic_distance_of(specs@[y].dynamic, want) > best_distance
                    },
            decreases specs.len() - x,
        {
            let candidate = to_chars(specs[x].articulation.as_str());
            if chars_equal(&candidate, &art_chars) {
                let d = dynamic_distance(specs[x].dynamic, want);
                match best {
                    Some(_) => {
                        if d < best_distance {
                            best = Some(x);
                            best_distance = d;
                        }
                    },
                    None => {
                        best = Some(x);
                        best_distance = d;
                    },
                }
            }
            x = x + 1;
        }
        proof {
            if best is None {
                assert forall|y: int| 0 <= y < specs@.len() && has_articulation(#[trigger] specs@[y], art@) implies false by {}
            }
        }
        best
    }

    /// The sample to use as a single representative of an (often unpitched)
    /// instrument, e.g. to feed percussion samples into a drummer.
    /// `articulations` is a fallback-ordered preference list: the first one
    /// with any matching sample wins. Among its matches, the dynamic closest
    /// to `dynamic_pref` is chosen (the first on a tie). `None` when the
    /// instrument is unknown or offers none of the articulations.
    pub fn resolve_spec(&self, instrument: &str, articulations: &[&str], dynamic_pref: Dynamic) -> (r: Option<&SampleSpec>)
        requires
            self.wf(),
        ensures
            r is None <==> match self.instrument_index(instrument@) {
                Some(i) => forall|a: int| 0 <= a < articulations@.len() ==> !offers(self.specs_of(i), (#[trigger] articulations@[a])@),
                None => true,
            },
            r matches Some(spec) ==> exists|a: int, j: int| {
                &&& #[trigger] resolves_to(self.specs_of(self.instrument_index(instrument@)->0), articulations@, dynamic_pref, a, j)
                &&& *spec == self.specs_of(self.instrument_index(instrument@)->0)[j]
            },
    {
        let i = match self.find_instrument(instrument) {
            Some(i) => i,
            None => return None,
        };
        let specs = &self.groups[i];
        let mut a: usize = 0;
        while a < articulations.len()
            invariant
                a <= articulations@.len(),
                specs@ == self.specs_of(i as int),
                self.instrument_index(instrument@) == Some(i as int),
                forall|b: int| 0 <= b < a ==> !offers(specs@, (#[trigger] articulations@[b])@),
            decreases articulations.len() - a,
        {
            match Self::nearest_dynamic(specs, articulations[a], dynamic_pref) {
                Some(j) => {
                    assert(resolves_to(specs@, articulations@, dynamic_pref, a as int, j as int));
                    assert(resolves_to(self.specs_of(self.instrument_index(instrument@)->0), articulations@, dynamic_pref, a as int, j as int));
                    assert(has_articulation(specs@[j as int], articulations@[a as int]@));
                    assert(offers(self.specs_of(i as int), articulations@[a as int]@));
                    return Some(&specs[j]);
                },
                None => {},
            }
            a = a + 1;
        }
        None
    }
}

} // verus!
