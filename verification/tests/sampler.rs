use rusty_music::sampler::multi::{build_keymap, nearest_in_keymap};
use rusty_music::sampler::library::preferred_extension_rank;
use rusty_music::sampler::{
    dynamic_distance, parse_note_to_midi, Dynamic, MultiSampler, SampleLibrary, SampleSpec, ScannedFile, VoiceFilter,
};

fn keymap(notes: &[i32]) -> Vec<(i32, String)> {
    notes.iter().map(|&n| (n, String::new())).collect()
}

fn for_intensity(intensity: f32) -> Dynamic {
    Dynamic::for_intensity_sixths((intensity.clamp(0.0, 1.0) * 6.0) as u32)
}

/// A file `name` found in the folder of `instrument` under `all-samples`.
fn file(instrument: &str, name: &str) -> ScannedFile {
    let (stem, extension) = match name.rfind('.') {
        Some(dot) if dot > 0 => (name[..dot].to_string(), Some(name[dot + 1..].to_string())),
        _ => (name.to_string(), None),
    };
    ScannedFile {
        file_name: name.to_string(),
        instrument: instrument.to_string(),
        asset_path: format!("all-samples/{instrument}/{name}"),
        stem: Some(stem),
        extension,
    }
}

fn small_library() -> SampleLibrary {
    SampleLibrary::from_files(&vec![
        file("violin", "violin_C4_1_piano_arco-normal.mp3"),
        file("violin", "violin_C4_1_piano_arco-normal.wav"),
        file("violin", "violin_E4_1_piano_arco-normal.wav"),
        file("violin", "violin_G4_05_forte_arco-normal.wav"),
        file("violin", "violin_C4_1_forte_pizz-normal.ogg"),
        file("violin", "violin_A4_025_forte_arco-normal.flac"),
        file("violin", ".violin_D4_1_piano_arco-normal.wav"),
        file("violin", "violin_D4_1_piano_arco-normal.txt"),
        file("violin", "notes.wav"),
        file("snare drum", "snare-drum__025_fortissimo_with-snares.wav"),
        file("snare drum", "snare-drum__05_piano_with-snares.WAV"),
        file("snare drum", "snare-drum__1_crescendo_with-snares.mp3"),
    ])
}

#[test]
fn parses_naturals_and_sharps() {
    assert_eq!(parse_note_to_midi("C4"), Some(60));
    assert_eq!(parse_note_to_midi("A4"), Some(69));
    assert_eq!(parse_note_to_midi("Cs4"), Some(61));
    assert_eq!(parse_note_to_midi("Ds5"), Some(75));
    assert_eq!(parse_note_to_midi("As0"), Some(22));
}

#[test]
fn rejects_garbage_and_empty() {
    assert_eq!(parse_note_to_midi(""), None);
    assert_eq!(parse_note_to_midi("H4"), None);
    assert_eq!(parse_note_to_midi("C"), None);
}

#[test]
fn dynamic_tokens_round_trip() {
    assert_eq!(Dynamic::from_token("mezzo-forte"), Some(Dynamic::MezzoForte));
    assert_eq!(Dynamic::from_token("crescendo"), None);
    assert!(Dynamic::Pianissimo < Dynamic::Fortissimo);
}

#[test]
fn intensity_maps_across_full_range() {
    assert_eq!(for_intensity(0.0), Dynamic::Pianissimo);
    assert_eq!(for_intensity(1.0), Dynamic::Fortissimo);
    assert_eq!(for_intensity(0.5), Dynamic::MezzoForte);
}

#[test]
fn parses_pitched_spec() {
    let s = SampleSpec::parse(
        "violin",
        "all-samples/violin/violin_Ds5_1_piano_arco-sul-tasto.wav",
        "violin_Ds5_1_piano_arco-sul-tasto",
    )
    .unwrap();
    assert_eq!(s.midi, Some(75));
    assert_eq!(s.duration, "1");
    assert_eq!(s.dynamic, Some(Dynamic::Piano));
    assert_eq!(s.articulation, "arco-sul-tasto");
}

#[test]
fn parses_unpitched_percussion_spec() {
    let s = SampleSpec::parse(
        "snare drum",
        "all-samples/percussion/snare drum/snare-drum__025_fortissimo_with-snares.wav",
        "snare-drum__025_fortissimo_with-snares",
    )
    .unwrap();
    assert_eq!(s.midi, None);
    assert_eq!(s.dynamic, Some(Dynamic::Fortissimo));
    assert_eq!(s.articulation, "with-snares");
}

#[test]
fn nearest_prefers_closest_and_ties_low() {
    let km = keymap(&[60, 64, 67]);
    assert_eq!(nearest_in_keymap(&km, 61).unwrap().0, 60);
    assert_eq!(nearest_in_keymap(&km, 66).unwrap().0, 67);
    assert_eq!(nearest_in_keymap(&km, 62).unwrap().0, 60);
    assert_eq!(nearest_in_keymap(&km, 40).unwrap().0, 60);
    assert_eq!(nearest_in_keymap(&km, 90).unwrap().0, 67);
}

#[test]
fn parse_rejects_short_stems_and_keeps_extra_fields() {
    assert!(SampleSpec::parse("violin", "p", "violin_C4_1_piano").is_none());
    assert!(SampleSpec::parse("violin", "p", "").is_none());
    let s = SampleSpec::parse("violin", "p", "violin_Cs4_long_forte_arco_extra").unwrap();
    assert_eq!(s.midi, Some(61));
    assert_eq!(s.duration, "long");
    assert_eq!(s.dynamic, Some(Dynamic::Forte));
    assert_eq!(s.articulation, "arco_extra");
    assert_eq!(s.instrument, "violin");
    assert_eq!(s.asset_path, "p");
}

#[test]
fn note_names_follow_str_parse() {
    assert_eq!(parse_note_to_midi("C-1"), Some(0));
    assert_eq!(parse_note_to_midi("C+4"), Some(60));
    assert_eq!(parse_note_to_midi("Bs4"), Some(72));
    assert_eq!(parse_note_to_midi("C4x"), None);
    assert_eq!(parse_note_to_midi("Cs"), None);
    assert_eq!(parse_note_to_midi("c4"), None);
    assert!(SampleSpec::stem_fits("violin_C4_1_piano_arco"));
    assert!(!SampleSpec::stem_fits("violin_C2147483647_1_piano_arco"));
}

#[test]
fn dynamic_ranks_and_distances() {
    assert_eq!(Dynamic::Pianissimo.rank(), 0);
    assert_eq!(Dynamic::Fortissimo.rank(), 5);
    assert_eq!(dynamic_distance(Some(Dynamic::Piano), Dynamic::Forte), 3);
    assert_eq!(dynamic_distance(Some(Dynamic::Forte), Dynamic::Piano), 3);
    assert_eq!(dynamic_distance(None, Dynamic::Piano), 100);
    for sixths in 0..8u32 {
        let d = Dynamic::for_intensity_sixths(sixths);
        assert_eq!(d.rank() as u32, sixths.min(5));
    }
}

#[test]
fn extension_ranks_prefer_wav() {
    assert_eq!(preferred_extension_rank("wav"), Some(0));
    assert_eq!(preferred_extension_rank("OGG"), Some(1));
    assert_eq!(preferred_extension_rank("Flac"), Some(2));
    assert_eq!(preferred_extension_rank("mp3"), Some(3));
    assert_eq!(preferred_extension_rank("txt"), None);
}

#[test]
fn library_dedupes_and_sorts() {
    let lib = small_library();
    assert_eq!(lib.instruments(), vec!["snare drum".to_string(), "violin".to_string()]);
    let violins = lib.specs("violin");
    let paths: Vec<&str> = violins.iter().map(|s| s.asset_path.as_str()).collect();
    assert_eq!(
        paths,
        vec![
            "all-samples/violin/violin_A4_025_forte_arco-normal.flac",
            "all-samples/violin/violin_C4_1_forte_pizz-normal.ogg",
            "all-samples/violin/violin_C4_1_piano_arco-normal.wav",
            "all-samples/violin/violin_E4_1_piano_arco-normal.wav",
            "all-samples/violin/violin_G4_05_forte_arco-normal.wav",
        ]
    );
    assert_eq!(lib.specs("snare drum").len(), 3);
    assert!(lib.specs("snare drum").iter().all(|s| s.midi.is_none()));
    assert!(lib.specs("cello").is_empty());
    assert_eq!(lib.len(), 8);
    assert!(!lib.is_empty());
    assert!(SampleLibrary::from_files(&vec![]).is_empty());
}

#[test]
fn library_keeps_earliest_of_equal_extensions() {
    let mut first = file("flute", "flute_C5_1_piano_normal.wav");
    first.asset_path = "a/flute_C5_1_piano_normal.wav".to_string();
    let mut second = file("flute", "flute_C5_1_piano_normal.wav");
    second.asset_path = "b/flute_C5_1_piano_normal.wav".to_string();
    let lib = SampleLibrary::from_files(&vec![first, second]);
    assert_eq!(lib.len(), 1);
    assert_eq!(lib.specs("flute")[0].asset_path, "a/flute_C5_1_piano_normal.wav");
}

#[test]
fn resolve_prefers_articulation_order_then_nearest_dynamic() {
    let lib = small_library();
    let s = lib.resolve_spec("violin", &["pizz-normal", "arco-normal"], Dynamic::Piano).unwrap();
    assert_eq!(s.articulation, "pizz-normal");
    let s = lib.resolve_spec("violin", &["col-legno", "arco-normal"], Dynamic::Fortissimo).unwrap();
    assert_eq!(s.asset_path, "all-samples/violin/violin_A4_025_forte_arco-normal.flac");
    let s = lib.resolve_spec("violin", &["arco-normal"], Dynamic::Pianissimo).unwrap();
    assert_eq!(s.asset_path, "all-samples/violin/violin_C4_1_piano_arco-normal.wav");
    let s = lib.resolve_spec("snare drum", &["with-snares"], Dynamic::Forte).unwrap();
    assert_eq!(s.dynamic, Some(Dynamic::Fortissimo));
    assert!(lib.resolve_spec("violin", &["col-legno"], Dynamic::Piano).is_none());
    assert!(lib.resolve_spec("cello", &["arco-normal"], Dynamic::Piano).is_none());
    assert!(lib.resolve_spec("violin", &[], Dynamic::Piano).is_none());
}

#[test]
fn keymap_takes_first_articulation_per_pitch() {
    let lib = SampleLibrary::from_files(&vec![
        file("cello", "cello_C3_1_forte_arco-normal.wav"),
        file("cello", "cello_C3_1_forte_arco-legato.wav"),
        file("cello", "cello_D3_1_forte_arco-legato.wav"),
        file("cello", "cello_E3_05_forte_arco-normal.wav"),
        file("cello", "cello_C6_1_forte_arco-normal.wav"),
        file("cello", "cello_F3_1_piano_arco-normal.wav"),
    ]);
    let filter = VoiceFilter { role: "pad", articulations: &["arco-normal", "arco-legato"], durations: &["1"], midi_range: (36, 72) };
    let km = build_keymap(lib.specs("cello"), &filter, Dynamic::Forte);
    let mut keys: Vec<(i32, &str)> = km.iter().map(|(m, p)| (*m, p.as_str())).collect();
    keys.sort();
    assert_eq!(
        keys,
        vec![
            (48, "all-samples/cello/cello_C3_1_forte_arco-normal.wav"),
            (50, "all-samples/cello/cello_D3_1_forte_arco-legato.wav"),
        ]
    );
    let any_length = VoiceFilter { role: "pad", articulations: &["arco-normal"], durations: &[], midi_range: (36, 72) };
    assert_eq!(build_keymap(lib.specs("cello"), &any_length, Dynamic::Forte).len(), 2);
    assert!(build_keymap(lib.specs("cello"), &any_length, Dynamic::Pianissimo).is_empty());
}

#[test]
fn multisampler_adds_voices_and_picks_nearest() {
    let lib = SampleLibrary::from_files(&vec![
        file("flute", "flute_C5_1_piano_normal.wav"),
        file("flute", "flute_E5_1_piano_normal.wav"),
        file("flute", "flute_G5_1_forte_normal.wav"),
        file("flute", "flute_C6_025_forte_staccato.wav"),
    ]);
    let mut sampler = MultiSampler::new("flute".to_string());
    assert!(sampler.is_empty());
    let sustain = VoiceFilter { role: "sustain", articulations: &["normal"], durations: &[], midi_range: (0, 127) };
    let added = sampler.add_voice(&lib, &sustain, &[Dynamic::Piano, Dynamic::MezzoForte, Dynamic::Forte]);
    assert_eq!(added, 2);
    let runs = VoiceFilter { role: "runs", articulations: &["staccato"], durations: &["025"], midi_range: (0, 127) };
    assert_eq!(sampler.add_voice(&lib, &runs, &[Dynamic::Forte]), 1);
    assert_eq!(sampler.voices().len(), 3);
    assert_eq!(sampler.sample_count(), 4);
    assert!(sampler.sample_count_fits());
    assert!(sampler.has_role("runs"));
    assert!(!sampler.has_role("pad"));

    let (path, residual) = sampler.pick(73, "sustain", Dynamic::Piano).unwrap();
    assert_eq!(path, "all-samples/flute/flute_C5_1_piano_normal.wav");
    assert_eq!(residual, 1);
    let (path, residual) = sampler.pick(78, "sustain", Dynamic::Fortissimo).unwrap();
    assert_eq!(path, "all-samples/flute/flute_G5_1_forte_normal.wav");
    assert_eq!(residual, -1);
    let (path, residual) = sampler.pick(60, "runs", Dynamic::Piano).unwrap();
    assert_eq!(path, "all-samples/flute/flute_C6_025_forte_staccato.wav");
    assert_eq!(residual, -24);
    let (path, _) = sampler.pick(79, "bass", Dynamic::Forte).unwrap();
    assert_eq!(path, "all-samples/flute/flute_G5_1_forte_normal.wav");
    assert!(MultiSampler::new("oboe".to_string()).pick(60, "sustain", Dynamic::Piano).is_none());
}

#[test]
fn multisampler_ignores_unknown_instrument() {
    let lib = small_library();
    let mut sampler = MultiSampler::new("tuba".to_string());
    let filter = VoiceFilter { role: "bass", articulations: &["normal"], durations: &[], midi_range: (0, 127) };
    assert_eq!(sampler.add_voice(&lib, &filter, &[Dynamic::Forte]), 0);
    assert!(sampler.is_empty());
    assert_eq!(sampler.sample_count(), 0);
}

#[test]
fn can_pick_checks_the_residual_range() {
    let lib = SampleLibrary::from_files(&vec![file("flute", "flute_C5_1_piano_normal.wav")]);
    let mut sampler = MultiSampler::new("flute".to_string());
    let sustain = VoiceFilter { role: "sustain", articulations: &["normal"], durations: &[], midi_range: (0, 127) };
    sampler.add_voice(&lib, &sustain, &[Dynamic::Piano]);
    assert!(sampler.can_pick(60, "sustain", Dynamic::Piano));
    assert!(sampler.can_pick(i32::MAX, "sustain", Dynamic::Piano));
    assert!(!sampler.can_pick(i32::MIN, "sustain", Dynamic::Piano));
    assert!(MultiSampler::new("oboe".to_string()).can_pick(i32::MIN, "sustain", Dynamic::Piano));
}

#[test]
fn octave_and_sharp_shift_note_numbers() {
    for letter in ["C", "D", "E", "F", "G", "A", "B"] {
        for octave in 0..=8 {
            let natural = parse_note_to_midi(&format!("{letter}{octave}")).unwrap();
            let sharp = parse_note_to_midi(&format!("{letter}s{octave}")).unwrap();
            assert_eq!(sharp, natural + 1);
            assert!((12..=120).contains(&natural) && (12..=120).contains(&sharp));
            if octave < 8 {
                assert_eq!(parse_note_to_midi(&format!("{letter}{}", octave + 1)).unwrap(), natural + 12);
            }
        }
    }
    assert_eq!(parse_note_to_midi("C0"), Some(12));
}

#[test]
fn every_listed_instrument_has_samples() {
    let lib = small_library();
    for name in lib.instruments() {
        assert!(!lib.specs(&name).is_empty());
        assert!(lib.specs(&name).iter().all(|s| s.instrument == name));
    }
    assert!(lib.len() >= lib.instruments().len());
    let none = SampleLibrary::from_files(&vec![file("violin", ".hidden_C4_1_piano_arco.wav"), file("violin", "notes.txt")]);
    assert!(none.is_empty());
    assert_eq!(none.len(), 0);
    assert!(none.instruments().is_empty());
}
