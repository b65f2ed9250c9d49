use jonnah_slicer::bms::{bms_plan, keysound_label, slice_keysound_label};
use jonnah_slicer::project::{Project, Slice, SliceKeysound, Slices, Stem, StemType};
use jonnah_slicer::timing::{BPMChange, Timing};
use jonnah_slicer::{Error, TimePoint};

fn auto(m: i64) -> Slice {
    Slice::new(TimePoint::from_integer(m))
}

fn reference(m: i64, r: i64) -> Slice {
    Slice {
        time_point: TimePoint::from_integer(m),
        keysound_id: SliceKeysound::Reference(TimePoint::from_integer(r)),
    }
}

fn stem(path: &str, group: Option<&str>, start: Option<u64>, slices: Vec<Slice>) -> Stem {
    let mut s = Stem::from_audio_path(path.to_owned());
    s.group = group.map(|g| g.to_owned());
    s.starting_keysound = start;
    s.slices = Slices(slices);
    s
}

fn project(stems: Vec<Stem>) -> Project {
    let mut p = Project::default();
    p.stems = stems;
    p
}

#[test]
fn keysound_labels_are_two_base62_digits() {
    assert_eq!(keysound_label(0), "00");
    assert_eq!(keysound_label(1), "01");
    assert_eq!(keysound_label(61), "0z");
    assert_eq!(keysound_label(62), "10");
    assert_eq!(keysound_label(3843), "zz");
    assert_eq!(keysound_label(3844), "100");
}

#[test]
fn plan_of_one_stem() {
    let p = project(vec![stem(
        "audio/bass.wav",
        None,
        None,
        vec![auto(0), reference(1, 0), auto(2)],
    )]);
    let plan = bms_plan(&p).unwrap();
    assert_eq!(f64::from_bits(plan.base_bpm_bits), 120.0);
    assert!(plan.bpm_changes.is_empty());
    let wavs: Vec<(&str, &str)> =
        plan.wav_files.iter().map(|w| (w.label.as_str(), w.path.as_str())).collect();
    assert_eq!(wavs, vec![("01", "bass_000.wav"), ("02", "bass_001.wav")]);
    let notes: Vec<((u64, u64, u64), &str)> =
        plan.notes.iter().map(|n| (n.time, n.label.as_str())).collect();
    assert_eq!(
        notes,
        vec![((0, 0, 1), "01"), ((1, 0, 1), "01"), ((2, 0, 1), "02")]
    );
    assert!(plan.notes.iter().all(|n| n.ty == StemType::BGM));
}

#[test]
fn plan_charts_only_first_stem_of_group() {
    let mut first = stem("x/kick.wav", Some("drums"), Some(5), vec![auto(0)]);
    first.ty = StemType::Note;
    let second = stem("x/snare.wav", Some("drums"), Some(5), vec![auto(0), auto(1)]);
    let third = stem("x/pad.flac", None, Some(7), vec![TimePoint::new(3, 2)].into_iter().map(Slice::new).collect());
    let plan = bms_plan(&project(vec![first, second, third])).unwrap();
    let wavs: Vec<(&str, &str)> =
        plan.wav_files.iter().map(|w| (w.label.as_str(), w.path.as_str())).collect();
    assert_eq!(wavs, vec![("05", "drums_000.wav"), ("07", "pad_000.flac")]);
    assert_eq!(plan.notes.len(), 2);
    assert_eq!(plan.notes[0].ty, StemType::Note);
    assert_eq!(plan.notes[1].time, (1, 1, 2));
}

#[test]
fn plan_carries_later_tempo_changes() {
    let mut p = project(vec![]);
    p.timing = Timing::from_changes(vec![
        BPMChange { time_point: TimePoint::zero(), bpm_bits: 150.0f64.to_bits() },
        BPMChange { time_point: TimePoint::from_submeasure(2, 1, 4), bpm_bits: 60.0f64.to_bits() },
    ]);
    let plan = bms_plan(&p).unwrap();
    assert_eq!(f64::from_bits(plan.base_bpm_bits), 150.0);
    assert_eq!(plan.bpm_changes.len(), 1);
    assert_eq!(plan.bpm_changes[0].time, (2, 1, 4));
    assert_eq!(f64::from_bits(plan.bpm_changes[0].bpm_bits), 60.0);
}

#[test]
fn plan_errors() {
    let mut empty = project(vec![]);
    empty.timing = Timing::from_changes(vec![]);
    assert!(matches!(bms_plan(&empty), Err(Error::EmptyTiming)));

    let dangling = project(vec![stem("a.wav", None, None, vec![reference(0, 5)])]);
    assert!(matches!(bms_plan(&dangling), Err(Error::MissingKeysound(0))));

    let negative = project(vec![stem("a.wav", None, None, vec![Slice::new(TimePoint::new(-1, 2))])]);
    assert!(matches!(bms_plan(&negative), Err(Error::NegativeTimePoint)));

    let crowded = project(vec![stem("a.wav", None, Some(3843), vec![auto(0), auto(1)])]);
    assert!(matches!(bms_plan(&crowded), Err(Error::InvalidObjId)));

    let nameless = project(vec![stem("", None, None, vec![auto(0)])]);
    assert!(matches!(bms_plan(&nameless), Err(Error::NoFileName)));

    let no_extension = project(vec![stem("dir/audio", None, None, vec![auto(0)])]);
    assert!(matches!(bms_plan(&no_extension), Err(Error::NoExtension)));

    let mut late_tempo = project(vec![]);
    late_tempo.timing = Timing::from_changes(vec![
        BPMChange { time_point: TimePoint::zero(), bpm_bits: 150.0f64.to_bits() },
        BPMChange { time_point: TimePoint::new(-3, 1), bpm_bits: 60.0f64.to_bits() },
    ]);
    assert!(matches!(bms_plan(&late_tempo), Err(Error::NegativeTimePoint)));
}

#[test]
fn slice_labels_count_from_stem_start() {
    let mut s = stem("a.wav", None, None, vec![auto(0), reference(1, 0), auto(2), reference(3, 9)]);
    assert_eq!(slice_keysound_label(&s, 0).as_deref(), Some("01"));
    assert_eq!(slice_keysound_label(&s, 1).as_deref(), Some("01"));
    assert_eq!(slice_keysound_label(&s, 2).as_deref(), Some("02"));
    assert_eq!(slice_keysound_label(&s, 3), None);
    s.starting_keysound = Some(61);
    assert_eq!(slice_keysound_label(&s, 2).as_deref(), Some("10"));
}
