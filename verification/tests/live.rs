use jonnah_slicer::live::{LiveProject, LiveStem, Selection};
use jonnah_slicer::project::{Project, Stem};
use jonnah_slicer::TimePoint;

fn stem(path: &str, group: Option<&str>) -> Stem {
    let mut s = Stem::from_audio_path(path.to_owned());
    s.group = group.map(|g| g.to_owned());
    s
}

#[test]
fn selection_takes_two_points() {
    let mut sel = Selection::default();
    assert!(sel.get().is_none());
    sel.select(2, TimePoint::from_integer(1));
    assert!(sel.get().is_none());
    sel.select(5, TimePoint::from_integer(3));
    let (i, range) = sel.get().unwrap();
    assert_eq!(i, 2);
    assert_eq!(range.start, TimePoint::from_integer(1));
    assert_eq!(range.end, TimePoint::from_integer(3));
    sel.select(1, TimePoint::zero());
    assert!(sel.get().is_none());
    sel.select(1, TimePoint::from_integer(4));
    assert_eq!(sel.get().unwrap().0, 1);
    sel.clear();
    assert!(sel.get().is_none());
}

#[test]
fn live_project_round_trip() {
    let mut p = Project::default();
    p.stems = vec![stem("a.wav", None), stem("b.wav", Some("g"))];
    p.samples_fadeout = 7;
    let live: LiveProject<()> = LiveProject::from_project(p);
    assert_eq!(live.stems.len(), 2);
    assert!(live.stems.iter().all(|s| !s.locked && s.audio.is_none() && s.best_channel == 0));
    let back = live.as_project();
    assert_eq!(back.samples_fadeout, 7);
    assert_eq!(back.stems[1].group.as_deref(), Some("g"));
    assert_eq!(back.stems[0].audio_path, "a.wav");
}

#[test]
fn groups_in_order_of_first_appearance() {
    let mut p = Project::default();
    p.stems = vec![
        stem("a.wav", Some("y")),
        stem("b.wav", None),
        stem("c.wav", Some("x")),
        stem("d.wav", Some("y")),
    ];
    let live: LiveProject<()> = LiveProject::from_project(p);
    let (names, groups, strays) = live.groups();
    assert_eq!(names, vec!["y".to_owned(), "x".to_owned()]);
    assert_eq!(groups, vec![vec![0, 3], vec![2]]);
    assert_eq!(strays, vec![1]);
}

#[test]
fn refresh_lists_groups_first_in_reverse_order() {
    let mut p = Project::default();
    p.stems = vec![
        stem("a.wav", None),
        stem("b.wav", Some("alpha")),
        stem("c.wav", Some("beta")),
        stem("d.wav", None),
        stem("e.wav", Some("alpha")),
    ];
    let mut live: LiveProject<()> = LiveProject::from_project(p);
    live.refresh();
    let order: Vec<&str> = live.stems.iter().map(|s| s.stem.audio_path.as_str()).collect();
    assert_eq!(order, vec!["c.wav", "b.wav", "e.wav", "a.wav", "d.wav"]);
    let one: LiveStem<()> = LiveStem::from_stem(stem("z.wav", None));
    assert!(!one.locked);
}

#[test]
fn selection_alternates_over_many_calls() {
    let mut sel = Selection::default();
    for n in 1..=6i64 {
        sel.select(n as usize, TimePoint::from_integer(n));
        if n % 2 == 1 {
            assert!(sel.get().is_none());
        } else {
            let (i, range) = sel.get().unwrap();
            assert_eq!(i, (n - 1) as usize);
            assert_eq!(range.start, TimePoint::from_integer(n - 1));
            assert_eq!(range.end, TimePoint::from_integer(n));
        }
    }
}
