use jonnah_slicer::editing::{stem_action, Keys, StemAction};
use jonnah_slicer::editing::{
    event_allowed, paint_keysound, paste_selection, pasted_slices, press_copy, stem_event,
    CopyState, PaintOutcome, StemEvent,
};
use jonnah_slicer::project::{Slice, SliceKeysound, Slices};
use jonnah_slicer::TimePoint;

fn auto(m: i64) -> Slice {
    Slice::new(TimePoint::from_integer(m))
}

fn reference(m: i64, r: i64) -> Slice {
    Slice {
        time_point: TimePoint::from_integer(m),
        keysound_id: SliceKeysound::Reference(TimePoint::from_integer(r)),
    }
}

fn refers_to(x: &Slice) -> Option<TimePoint> {
    match x.keysound_id {
        SliceKeysound::Auto => None,
        SliceKeysound::Reference(t) => Some(t),
    }
}

#[test]
fn pasted_slices_are_moved_selection() {
    let source = Slices(vec![auto(0), auto(1), reference(2, 0), auto(3)]);
    let moved = pasted_slices(
        &source,
        TimePoint::from_integer(1),
        TimePoint::from_integer(2),
        TimePoint::from_integer(4),
        false,
    );
    assert_eq!(moved.0.len(), 2);
    assert_eq!(moved.0[0].time_point, TimePoint::from_integer(4));
    assert_eq!(refers_to(&moved.0[0]), None);
    assert_eq!(moved.0[1].time_point, TimePoint::from_integer(5));
    assert_eq!(refers_to(&moved.0[1]), Some(TimePoint::zero()));
}

#[test]
fn reference_paste_points_back_to_sources() {
    let source = Slices(vec![auto(0), auto(1)]);
    let moved = pasted_slices(
        &source,
        TimePoint::zero(),
        TimePoint::from_integer(1),
        TimePoint::new(1, 2),
        true,
    );
    assert_eq!(moved.0[0].time_point, TimePoint::new(1, 2));
    assert_eq!(refers_to(&moved.0[0]), Some(TimePoint::zero()));
    assert_eq!(moved.0[1].time_point, TimePoint::new(3, 2));
    assert_eq!(refers_to(&moved.0[1]), Some(TimePoint::from_integer(1)));
}

#[test]
fn paste_selection_unions_into_target() {
    let source = Slices(vec![auto(0), auto(1), reference(2, 0)]);
    let mut target = Slices(vec![auto(5)]);
    let count = paste_selection(
        &mut target,
        &source,
        TimePoint::from_integer(1),
        TimePoint::from_integer(2),
        TimePoint::from_integer(5),
        false,
    );
    assert_eq!(count, 2);
    let times: Vec<i64> = target.0.iter().map(|x| x.time_point.numer()).collect();
    assert_eq!(times, vec![5, 6]);
    assert_eq!(refers_to(&target.0[0]), None);
    assert_eq!(refers_to(&target.0[1]), Some(TimePoint::zero()));
}

#[test]
fn paint_keysound_outcomes() {
    let bound = TimePoint::new(3, 40);
    let mut target = Slices(vec![auto(0), auto(2)]);
    let click = TimePoint::new(41, 20);

    assert_eq!(
        paint_keysound(&mut target, None, TimePoint::zero(), click, bound),
        PaintOutcome::NoSource
    );
    assert_eq!(
        paint_keysound(&mut target, Some(TimePoint::zero()), TimePoint::zero(), TimePoint::from_integer(1), bound),
        PaintOutcome::NoTarget
    );
    assert_eq!(
        paint_keysound(&mut target, Some(TimePoint::zero()), TimePoint::from_integer(3), click, bound),
        PaintOutcome::BeforeSource
    );
    assert_eq!(refers_to(&target.0[1]), None);
    assert_eq!(
        paint_keysound(&mut target, Some(TimePoint::zero()), TimePoint::zero(), click, bound),
        PaintOutcome::Painted
    );
    assert_eq!(refers_to(&target.0[1]), Some(TimePoint::zero()));
    assert_eq!(target.0[1].time_point, TimePoint::from_integer(2));
    assert_eq!(refers_to(&target.0[0]), None);
}

#[test]
fn stem_event_priorities() {
    assert_eq!(stem_event(7, false, false, false), StemEvent::Hovering(7));
    assert_eq!(stem_event(7, true, false, false), StemEvent::PlayAudio(7));
    assert_eq!(stem_event(7, true, true, true), StemEvent::LeftClick(7));
    assert_eq!(stem_event(7, true, false, true), StemEvent::RightClick(7));
}

#[test]
fn locked_stems_only_hover() {
    assert!(event_allowed(true, StemEvent::Hovering(1)));
    assert!(!event_allowed(true, StemEvent::LeftClick(1)));
    assert!(event_allowed(false, StemEvent::RightClick(1)));
}

#[test]
fn copy_button_cycle() {
    let none = CopyState { from: None, to: None };
    let started = press_copy(none, 2);
    assert_eq!(started, CopyState { from: Some(2), to: None });
    assert_eq!(press_copy(started, 2), none);
    assert_eq!(press_copy(started, 4), CopyState { from: Some(2), to: Some(4) });
}

#[test]
fn stem_actions_follow_keys() {
    let none = Keys { command: false, shift: false, paste: false, reference_paste: false, space: false };
    assert_eq!(stem_action(StemEvent::Hovering(0), none), StemAction::Nothing);
    assert_eq!(
        stem_action(StemEvent::Hovering(0), Keys { reference_paste: true, space: true, ..none }),
        StemAction::Paste { as_reference: true }
    );
    assert_eq!(stem_action(StemEvent::Hovering(0), Keys { space: true, ..none }), StemAction::Select);
    assert_eq!(stem_action(StemEvent::LeftClick(0), none), StemAction::InsertSlice);
    assert_eq!(stem_action(StemEvent::LeftClick(0), Keys { shift: true, ..none }), StemAction::Nothing);
    assert_eq!(stem_action(StemEvent::LeftClick(0), Keys { command: true, ..none }), StemAction::Paint);
    assert_eq!(stem_action(StemEvent::RightClick(0), none), StemAction::DeleteNear);
    assert_eq!(stem_action(StemEvent::RightClick(0), Keys { command: true, ..none }), StemAction::BeginPaint);
    assert_eq!(stem_action(StemEvent::PlayAudio(0), none), StemAction::PlayAudio);
}
