use jonnah_slicer::audio::Snapping;
use jonnah_slicer::TimePoint;

#[test]
fn add_test() {
    let lhs = TimePoint::from_integer(8);
    let rhs = TimePoint::from_submeasure(2, 3, 10).neg();

    // 5.7
    assert_eq!(lhs.add(rhs), TimePoint::new(57, 10));
}

#[test]
fn sub_test() {
    let lhs = TimePoint::from_integer(8);
    let rhs = TimePoint::from_submeasure(2, 3, 10);

    // 5.7
    assert_eq!(lhs.sub(rhs), TimePoint::new(57, 10));
}

#[test]
fn sub_test_2() {
    let right = TimePoint::from_submeasure(5, 1, 2);
    let left = TimePoint::from_submeasure(2, 6, 10);

    assert_eq!(right.sub(left), TimePoint::from_submeasure(2, 9, 10));
}

#[test]
fn neg_test() {
    let tp = TimePoint::from_submeasure(2, 3, 10);
    assert_eq!(tp.neg(), TimePoint::from_submeasure(-2, -3, 10));
}

#[test]
fn quantise_1_2() {
    assert_eq!(
        TimePoint::from_submeasure(0, 6, 10).quantised(Snapping::Measure(2)),
        TimePoint::from_submeasure(0, 5, 10),
    );
}

#[test]
fn quantise_1_3() {
    assert_eq!(
        TimePoint::from_integer(1),
        TimePoint::from_submeasure(1, 3, 100).quantised(Snapping::Measure(3)),
    );

    assert_eq!(
        TimePoint::new(4, 3),
        TimePoint::from_submeasure(1, 3, 10).quantised(Snapping::Measure(3)),
    );

    assert_eq!(
        TimePoint::new(4, 3),
        TimePoint::from_submeasure(1, 4, 10).quantised(Snapping::Measure(3)),
    );
}

#[test]
fn quantise_1_4() {
    assert_eq!(
        TimePoint::from_integer(1),
        TimePoint::from_submeasure(1, 1, 10).quantised(Snapping::Measure(4)),
    );
    assert_eq!(
        TimePoint::from_integer(1),
        TimePoint::from_submeasure(1, 1, 10).quantised(Snapping::Beat(1)),
    );

    assert_eq!(
        TimePoint::new(5, 4),
        TimePoint::from_submeasure(1, 15, 100).quantised(Snapping::Measure(4)),
    );
    assert_eq!(
        TimePoint::new(5, 4),
        TimePoint::from_submeasure(1, 15, 100).quantised(Snapping::Beat(1)),
    );
}

#[test]
fn new_reduces_to_lowest_terms() {
    let t = TimePoint::new(6, -8);
    assert_eq!(t.numer(), -3);
    assert_eq!(t.denom(), 4);
}

#[test]
fn submeasure_is_measure_plus_fraction() {
    let t = TimePoint::from_submeasure(3, 1, 4);
    assert_eq!((t.numer(), t.denom()), (13, 4));
    assert_eq!(TimePoint::from_measure(2), TimePoint::from_integer(2));
}

#[test]
fn sub_is_add_of_negation() {
    let a = TimePoint::from_submeasure(7, 2, 9);
    let b = TimePoint::from_submeasure(1, 5, 6);
    assert_eq!(a.sub(b), a.add(b.neg()));
}

#[test]
fn mul_and_div() {
    let a = TimePoint::new(3, 4);
    let b = TimePoint::new(2, 3);
    assert_eq!(a.mul(b), TimePoint::new(1, 2));
    assert_eq!(a.div(b), TimePoint::new(9, 8));
}

#[test]
fn comparisons() {
    let a = TimePoint::new(1, 3);
    let b = TimePoint::new(1, 2);
    assert!(a.lt(&b));
    assert!(a.le(&b));
    assert!(b.gt(&a));
    assert!(b.ge(&a));
    assert!(a.le(&a));
    assert!(!a.lt(&a));
    assert!(TimePoint::new(2, 4).same_value(&b));
}

#[test]
fn clamped_to_zero_keeps_positive() {
    assert_eq!(TimePoint::new(-1, 2).clamped_to_zero(), TimePoint::zero());
    assert_eq!(TimePoint::new(1, 2).clamped_to_zero(), TimePoint::new(1, 2));
    assert_eq!(TimePoint::zero().clamped_to_zero(), TimePoint::zero());
}

#[test]
fn abs_is_distance_from_zero() {
    assert_eq!(TimePoint::new(-3, 2).abs(), TimePoint::new(3, 2));
    assert_eq!(TimePoint::new(3, 2).abs(), TimePoint::new(3, 2));
}

#[test]
fn ratio_interpolates() {
    let start = TimePoint::from_integer(2);
    let end = TimePoint::from_integer(4);
    assert_eq!(start.ratio(&end, TimePoint::new(1, 4)), TimePoint::new(5, 2));
    assert_eq!(start.ratio_at_t(&end, &TimePoint::from_integer(3)), TimePoint::new(1, 2));
}

#[test]
fn quantise_in_place_matches_quantised() {
    let mut t = TimePoint::from_submeasure(2, 7, 10);
    t.quantise(Snapping::Measure(4));
    assert_eq!(t, TimePoint::from_submeasure(2, 3, 4));
    assert_eq!(t, TimePoint::from_submeasure(2, 7, 10).quantised(Snapping::Measure(4)));
}

#[test]
fn quantised_is_idempotent() {
    let once = TimePoint::from_submeasure(1, 37, 100).quantised(Snapping::Beat(2));
    assert_eq!(once.quantised(Snapping::Beat(2)), once);
}

#[test]
fn objtime_parts_split_measure() {
    assert_eq!(TimePoint::from_submeasure(3, 1, 4).objtime_parts(), Ok((3, 1, 4)));
    assert_eq!(TimePoint::zero().objtime_parts(), Ok((0, 0, 1)));
    assert_eq!(
        TimePoint::new(-1, 4).objtime_parts(),
        Err(jonnah_slicer::Error::NegativeTimePoint)
    );
}

#[test]
fn snapping_conversions() {
    assert!(matches!(Snapping::Measure(2).simplify(), Snapping::Beat(8)));
    assert!(matches!(Snapping::Beat(3).simplify(), Snapping::Beat(3)));
    assert_eq!(Snapping::Beat(3).as_measure_denom(), 12);
    assert_eq!(Snapping::Measure(5).as_measure_denom(), 5);
    assert!(matches!(Snapping::default(), Snapping::Measure(16)));
}

#[test]
fn default_time_point_is_zero() {
    assert_eq!(TimePoint::default(), TimePoint::zero());
    assert_eq!(TimePoint::zero().numer(), 0);
}

#[test]
fn checked_arithmetic_reports_overflow() {
    let a = TimePoint::new(1, 3);
    let b = TimePoint::new(1, 6);
    assert_eq!(a.checked_add(b), Some(TimePoint::new(1, 2)));
    assert_eq!(a.checked_sub(b), Some(TimePoint::new(1, 6)));
    let big = TimePoint::from_integer(i64::MAX);
    assert_eq!(big.checked_add(TimePoint::from_integer(1)), None);
    assert_eq!(TimePoint::from_integer(i64::MIN).checked_sub(TimePoint::from_integer(1)), None);
    let fine = TimePoint::new(i64::MAX, 3);
    assert_eq!(fine.checked_add(TimePoint::new(1, 5)), None);
}
