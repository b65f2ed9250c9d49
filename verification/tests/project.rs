use jonnah_slicer::project::{
    Project, SampleRate, Slice, SliceKeysound, Slices, Stem, StemType,
};
use jonnah_slicer::TimePoint;

fn auto(m: i64) -> Slice {
    Slice { time_point: TimePoint::from_measure(m), keysound_id: SliceKeysound::Auto }
}

fn reference(m: i64, r: i64) -> Slice {
    Slice {
        time_point: TimePoint::from_measure(m),
        keysound_id: SliceKeysound::Reference(TimePoint::from_integer(r)),
    }
}

fn times(s: &Slices) -> Vec<(i64, i64)> {
    s.0.iter().map(|x| (x.time_point.numer(), x.time_point.denom())).collect()
}

#[test]
fn get_keysounds() {
    let slices = Slices(vec![auto(0), auto(1), reference(2, 0), auto(3), reference(4, 1)]);

    assert_eq!(slices.keysound_index_of(0), Some(0));
    assert_eq!(slices.keysound_index_of(1), Some(1));
    assert_eq!(slices.keysound_index_of(2), Some(0));
    assert_eq!(slices.keysound_index_of(3), Some(2));
    assert_eq!(slices.keysound_index_of(4), Some(1));
}

#[test]
fn keysound_index_out_of_range_or_dangling() {
    let slices = Slices(vec![auto(0), reference(1, 7)]);
    assert_eq!(slices.keysound_index_of(1), None);
    assert_eq!(slices.keysound_index_of(2), None);
}

#[test]
fn insert_keeps_slices_sorted_and_unique() {
    let mut slices = Slices::default();
    slices.insert(Slice::new(TimePoint::from_integer(3)));
    slices.insert(Slice::new(TimePoint::new(1, 2)));
    slices.insert(Slice::new(TimePoint::from_integer(2)));
    slices.insert(Slice::new(TimePoint::new(6, 2)));
    assert_eq!(times(&slices), vec![(1, 2), (2, 1), (3, 1)]);
}

#[test]
fn insert_then_query_finds_slice() {
    let mut slices = Slices(vec![auto(0), auto(2)]);
    slices.insert(Slice::new(TimePoint::from_integer(1)));
    let (i, found) = slices.query(TimePoint::from_integer(1)).unwrap();
    assert_eq!(i, 1);
    assert_eq!(found.time_point, TimePoint::from_integer(1));
    assert!(slices.query(TimePoint::new(1, 2)).is_none());
}

#[test]
fn union_merges_in_order() {
    let mut a = Slices(vec![auto(0), auto(2)]);
    let b = Slices(vec![auto(1), auto(2), auto(5)]);
    a.union(&b);
    assert_eq!(times(&a), vec![(0, 1), (1, 1), (2, 1), (5, 1)]);
}

#[test]
fn query_dereferenced_follows_references() {
    let slices = Slices(vec![auto(0), reference(1, 0), reference(2, 1)]);
    let x = slices.query_dereferenced(TimePoint::from_integer(2)).unwrap();
    assert_eq!(x.time_point, TimePoint::from_integer(0));
    assert!(slices.query_dereferenced(TimePoint::from_integer(9)).is_none());
    let dangling = Slices(vec![reference(1, 4)]);
    assert!(dangling.query_dereferenced(TimePoint::from_integer(1)).is_none());
}

#[test]
fn query_dereferenced_stops_on_cycles() {
    let cyclic = Slices(vec![reference(0, 1), reference(1, 0)]);
    assert!(cyclic.query_dereferenced(TimePoint::from_integer(0)).is_none());
}

#[test]
fn keysounds_are_the_auto_slices() {
    let slices = Slices(vec![auto(0), reference(1, 0), auto(2)]);
    let ks = slices.keysounds();
    assert_eq!(ks.len(), 2);
    assert_eq!(ks[1].time_point, TimePoint::from_integer(2));
    assert_eq!(slices.keysounds_required(), 2);
}

#[test]
fn query_referenced_finds_nth_auto() {
    let slices = Slices(vec![auto(0), reference(1, 0), auto(2)]);
    let (i, x) = slices.query_referenced(1).unwrap();
    assert_eq!(i, 2);
    assert_eq!(x.time_point, TimePoint::from_integer(2));
    assert!(slices.query_referenced(2).is_none());
}

#[test]
fn query_range_is_inclusive() {
    let slices = Slices(vec![auto(0), auto(1), auto(2), auto(3)]);
    let r = slices.query_range(TimePoint::from_integer(1), TimePoint::from_integer(2));
    assert_eq!(r.len(), 2);
    assert_eq!(r[0].time_point, TimePoint::from_integer(1));
    assert_eq!(r[1].time_point, TimePoint::from_integer(2));
}

#[test]
fn closest_picks_nearest_first() {
    let slices = Slices(vec![auto(0), auto(2), auto(4)]);
    let (x, d) = slices.closest(TimePoint::from_integer(3)).unwrap();
    assert_eq!(x.time_point, TimePoint::from_integer(2));
    assert_eq!(d, TimePoint::from_integer(1));
    let (y, _) = slices.closest(TimePoint::new(37, 10)).unwrap();
    assert_eq!(y.time_point, TimePoint::from_integer(4));
    assert!(Slices::default().closest(TimePoint::zero()).is_none());
}

#[test]
fn closest_bound_filters_far_slices() {
    let slices = Slices(vec![auto(0), auto(4)]);
    assert!(slices.closest_bound(TimePoint::from_integer(2), TimePoint::new(1, 2)).is_none());
    let (x, _) = slices.closest_bound(TimePoint::new(41, 10), TimePoint::new(1, 2)).unwrap();
    assert_eq!(x.time_point, TimePoint::from_integer(4));
}

#[test]
fn closest_mut_edits_nearest() {
    let mut slices = Slices(vec![auto(0), auto(4)]);
    {
        let (x, _) = slices.closest_mut(TimePoint::from_integer(3)).unwrap();
        x.keysound_id = SliceKeysound::Reference(TimePoint::zero());
    }
    assert!(matches!(slices.0[1].keysound_id, SliceKeysound::Reference(_)));
    let mut far = Slices(vec![auto(0)]);
    assert!(far.closest_bound_mut(TimePoint::from_integer(5), TimePoint::new(1, 10)).is_none());
}

#[test]
fn iter_visits_slices_in_order() {
    let slices = Slices(vec![auto(0), auto(1)]);
    let v: Vec<i64> = slices.iter().map(|s| s.time_point.numer()).collect();
    assert_eq!(v, vec![0, 1]);
    assert_eq!(slices.slices().len(), 2);
}

#[test]
fn stem_from_audio_path_defaults() {
    let stem = Stem::from_audio_path("drums/kick.wav".to_owned());
    assert_eq!(stem.audio_path, "drums/kick.wav");
    assert!(stem.slices.0.is_empty());
    assert_eq!(stem.starting_keysound, None);
    assert_eq!(stem.ty, StemType::BGM);
    assert!(stem.group.is_none());
    assert_eq!(stem.export_prefix(), Some("kick"));
}

#[test]
fn export_prefix_prefers_group() {
    let mut stem = Stem::from_audio_path("drums/kick.wav".to_owned());
    stem.group = Some("drums".to_owned());
    assert_eq!(stem.export_prefix(), Some("drums"));
    stem.slices_mut().insert(Slice::new(TimePoint::zero()));
    assert_eq!(stem.slices().0.len(), 1);
}

#[test]
fn project_defaults() {
    let p = Project::default();
    assert_eq!(p.sample_rate, SampleRate(44100));
    assert_eq!(SampleRate::default(), SampleRate(44100));
    assert_eq!(SampleRate::from(48000), SampleRate(48000));
    assert!(p.stems.is_empty());
    assert_eq!(p.timing.bpm_changes().len(), 1);
    assert_eq!(f64::from_bits(p.timing.base_bpm()), 120.0);
    assert_eq!(p.samples_fadeout, 0);
}

#[test]
fn slices_compare_by_time_point() {
    let a = Slice::new(TimePoint::new(1, 2));
    let b = Slice::new(TimePoint::new(2, 4));
    let c = reference(1, 0);
    assert!(a == b);
    assert!(a < c);
    assert!(c > b);
    let d = Slice { time_point: TimePoint::new(1, 2), keysound_id: SliceKeysound::Reference(TimePoint::zero()) };
    assert!(a != d);
    assert_eq!(a.partial_cmp(&d), Some(std::cmp::Ordering::Equal));
    assert_eq!(SliceKeysound::Reference(TimePoint::new(2, 2)), SliceKeysound::Reference(TimePoint::from_integer(1)));
}

#[test]
fn query_dereferenced_follows_long_chains() {
    let mut v = vec![auto(0)];
    for m in 1..8 {
        v.push(reference(m, m - 1));
    }
    let slices = Slices(v);
    let x = slices.query_dereferenced(TimePoint::from_integer(7)).unwrap();
    assert_eq!(x.time_point, TimePoint::zero());
}

#[test]
fn keysound_index_leads_back_to_its_owner() {
    let slices = Slices(vec![auto(0), reference(1, 2), auto(2), reference(3, 0)]);
    // a slice with its own keysound is found again by its number
    let k = slices.keysound_index_of(2).unwrap();
    assert_eq!(slices.query_referenced(k).unwrap().0, 2);
    // a reference leads to the slice at the time point it names
    let k = slices.keysound_index_of(1).unwrap();
    let (j, owner) = slices.query_referenced(k).unwrap();
    assert_eq!(j, 2);
    assert_eq!(owner.time_point, TimePoint::from_integer(2));
    let k = slices.keysound_index_of(3).unwrap();
    assert_eq!(slices.query_referenced(k).unwrap().0, 0);
}
