use jonnah_slicer::audio::{cut_ranges, deinterleave, sample_counts_between};
use jonnah_slicer::playback::PlaybackCursor;
use jonnah_slicer::Error;

#[test]
fn sample_counts_are_gaps_to_next_start() {
    assert_eq!(sample_counts_between(&vec![0, 10, 25], 40), Ok(vec![10, 15, 15]));
    assert_eq!(sample_counts_between(&vec![5], 5), Ok(vec![0]));
}

#[test]
fn sample_counts_errors() {
    assert_eq!(sample_counts_between(&vec![], 40), Err(Error::NoSlices));
    assert_eq!(sample_counts_between(&vec![0, 10, 5], 40), Err(Error::BadSampleCountSub));
    assert_eq!(sample_counts_between(&vec![0, 50], 40), Err(Error::BadSampleCountSub));
}

#[test]
fn cut_ranges_follow_frame_counts() {
    assert_eq!(cut_ranges(20, 2, 1, &vec![3, 4, 10]), Ok(vec![(2, 8), (8, 16)]));
    assert_eq!(cut_ranges(20, 1, 0, &vec![]), Ok(vec![]));
}

#[test]
fn cut_ranges_errors() {
    assert_eq!(
        cut_ranges(20, 2, 10, &vec![1]),
        Err(Error::StartingSampleOutOfRange { starting_sample: 20, available: 20 })
    );
    assert_eq!(
        cut_ranges(10, 0, 0, &vec![3]),
        Err(Error::FewerFramesThanExpected { got: 0, expected: 3, available: 10 })
    );
}

#[test]
fn deinterleave_splits_channels() {
    let samples = [1.0f32, -1.0, 2.0, -2.0, 3.0];
    let channels = deinterleave(&samples, 2);
    assert_eq!(channels, vec![vec![1.0, 2.0, 3.0], vec![-1.0, -2.0]]);
    assert_eq!(deinterleave(&[7u8, 8, 9], 1), vec![vec![7, 8, 9]]);
    assert_eq!(deinterleave::<u8>(&[], 0), Vec::<Vec<u8>>::new());
    assert_eq!(deinterleave::<u8>(&[1], 3), vec![vec![1], vec![], vec![]]);
}

#[test]
fn playback_reads_in_steps() {
    let mut p = PlaybackCursor::new(&[5, 3], None).unwrap();
    assert_eq!(p.length(), 5);
    assert_eq!(p.samples_remaining_per_channel(), 5);
    assert_eq!(p.total_samples_remaining(2), 10);
    assert_eq!(p.read(2), Some((0, 2)));
    assert_eq!(p.read(4), Some((2, 5)));
    assert_eq!(p.cursor(), 5);
    assert_eq!(p.read(4), None);
    assert_eq!(p.read(0), None);
}

#[test]
fn playback_start_errors() {
    assert!(matches!(PlaybackCursor::new(&[], None), Err(Error::NoChannels)));
    assert!(matches!(
        PlaybackCursor::new(&[4], Some(6)),
        Err(Error::CursorPastEnd { cursor: 6, length: 4 })
    ));
    let p = PlaybackCursor::new(&[4], Some(4)).unwrap();
    assert_eq!(p.samples_remaining_per_channel(), 0);
}
