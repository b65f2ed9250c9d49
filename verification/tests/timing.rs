use jonnah_slicer::audio::{snapping_of_number_key, Snapping};
use jonnah_slicer::grouping::{name_order, str_greater};
use jonnah_slicer::paths::normalise_project_path;
use jonnah_slicer::timing::{BPMChange, Timing};
use jonnah_slicer::TimePoint;

#[test]
fn default_timing_is_120_bpm_from_start() {
    let t = Timing::default();
    assert_eq!(t.bpm_changes().len(), 1);
    assert_eq!(f64::from_bits(t.base_bpm()), 120.0);
    assert_eq!(t.first().unwrap().time_point, TimePoint::zero());
}

#[test]
fn timing_accessors() {
    let t = Timing::from_changes(vec![
        BPMChange { time_point: TimePoint::zero(), bpm_bits: 100.0f64.to_bits() },
        BPMChange { time_point: TimePoint::from_integer(4), bpm_bits: 50.0f64.to_bits() },
    ]);
    assert_eq!(t.last().unwrap().time_point, TimePoint::from_integer(4));
    assert_eq!(f64::from_bits(t.get_bpm_change_unchecked(1).bpm_bits), 50.0);
    assert_eq!(t.clone().into_changes().len(), 2);
    let empty = Timing::from_changes(vec![]);
    assert!(empty.first().is_none());
    assert!(empty.last().is_none());
}

#[test]
fn project_file_of_directory() {
    assert_eq!(normalise_project_path("projects/new", true), "projects/new/project.jonnah");
    assert_eq!(normalise_project_path("projects/new/", true), "projects/new/project.jonnah");
    assert_eq!(normalise_project_path("song.jonnah", false), "song.jonnah");
    assert_eq!(normalise_project_path("", true), "project.jonnah");
}

#[test]
fn lexicographic_order_of_names() {
    assert!(str_greater("beta", "alpha"));
    assert!(str_greater("ab", "a"));
    assert!(!str_greater("a", "a"));
    assert!(!str_greater("a", "ab"));
}

#[test]
fn names_in_alphabetical_order() {
    let names = vec!["drums".to_owned(), "bass".to_owned(), "fx".to_owned(), "bass2".to_owned()];
    assert_eq!(name_order(&names), vec![1, 3, 0, 2]);
    assert!(name_order(&vec![]).is_empty());
}

#[test]
fn number_keys_pick_snapping() {
    assert!(matches!(snapping_of_number_key(1), Snapping::Measure(1)));
    assert!(matches!(snapping_of_number_key(9), Snapping::Measure(24)));
    assert!(matches!(snapping_of_number_key(0), Snapping::Measure(32)));
}

#[test]
fn timing_iter_in_order() {
    let t = Timing::from_changes(vec![
        BPMChange { time_point: TimePoint::zero(), bpm_bits: 100.0f64.to_bits() },
        BPMChange { time_point: TimePoint::from_integer(4), bpm_bits: 50.0f64.to_bits() },
    ]);
    let bpms: Vec<f64> = t.iter().map(|c| f64::from_bits(c.bpm_bits)).collect();
    assert_eq!(bpms, vec![100.0, 50.0]);
}
