use jonnah_slicer::keysounds::calculate_initial_keysounds;
use jonnah_slicer::project::{Slice, SliceKeysound, Slices, Stem};
use jonnah_slicer::{Error, TimePoint};

fn auto(m: i64) -> Slice {
    Slice::new(TimePoint::from_integer(m))
}

fn stem(path: &str, group: Option<&str>, slices: Vec<Slice>) -> Stem {
    let mut s = Stem::from_audio_path(path.to_owned());
    s.group = group.map(|g| g.to_owned());
    s.slices = Slices(slices);
    s
}

fn sample_stems() -> Vec<Stem> {
    vec![
        stem("a.wav", Some("g"), vec![auto(0), auto(1)]),
        stem(
            "b.wav",
            None,
            vec![
                auto(0),
                Slice {
                    time_point: TimePoint::from_integer(1),
                    keysound_id: SliceKeysound::Reference(TimePoint::zero()),
                },
            ],
        ),
        stem("c.wav", Some("g"), vec![auto(1), auto(2)]),
    ]
}

#[test]
fn groups_share_keysounds_and_strays_follow() {
    let mut stems = sample_stems();
    assert_eq!(calculate_initial_keysounds(&mut stems, 2), Ok(()));
    assert_eq!(stems[0].starting_keysound, Some(1));
    assert_eq!(stems[2].starting_keysound, Some(1));
    // the group's merged slices need 3 keysounds, plus 2 spare
    assert_eq!(stems[1].starting_keysound, Some(6));
}

#[test]
fn empty_group_name_counts_as_stray() {
    let mut stems = vec![
        stem("a.wav", Some(""), vec![auto(0)]),
        stem("b.wav", Some("x"), vec![auto(0), auto(1)]),
    ];
    assert_eq!(calculate_initial_keysounds(&mut stems, 0), Ok(()));
    assert_eq!(stems[1].starting_keysound, Some(1));
    assert_eq!(stems[0].starting_keysound, Some(3));
}

#[test]
fn stems_without_slices_keep_their_keysound() {
    let mut stems = vec![stem("a.wav", None, vec![]), stem("b.wav", None, vec![auto(0)])];
    stems[0].starting_keysound = Some(40);
    assert_eq!(calculate_initial_keysounds(&mut stems, 0), Ok(()));
    assert_eq!(stems[0].starting_keysound, Some(40));
    assert_eq!(stems[1].starting_keysound, Some(1));
}

#[test]
fn too_many_keysounds_is_refused() {
    let mut stems = sample_stems();
    assert_eq!(calculate_initial_keysounds(&mut stems, 4000), Err(Error::TooManySlices(8005)));
    assert_eq!(stems[0].starting_keysound, Some(1));
    assert_eq!(stems[1].starting_keysound, Some(4004));
}

#[test]
fn keysound_count_overflow_is_refused() {
    let mut stems = sample_stems();
    assert_eq!(
        calculate_initial_keysounds(&mut stems, u64::MAX - 10),
        Err(Error::SliceCountOverflow)
    );
}

#[test]
fn groups_come_before_stems_without_group_in_order() {
    let mut stems = vec![
        stem("a.wav", None, vec![auto(0)]),
        stem("b.wav", Some("g"), vec![auto(0), auto(1)]),
        stem("c.wav", None, vec![auto(0), auto(1), auto(2)]),
        stem("d.wav", Some(""), vec![auto(5)]),
    ];
    assert_eq!(calculate_initial_keysounds(&mut stems, 0), Ok(()));
    assert_eq!(stems[1].starting_keysound, Some(1));
    assert_eq!(stems[0].starting_keysound, Some(3));
    assert_eq!(stems[2].starting_keysound, Some(4));
    assert_eq!(stems[3].starting_keysound, Some(7));
}
