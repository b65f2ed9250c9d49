use jonnah_slicer::midi::{midi_note_on_times, note_on_times, TimedEvent};
use jonnah_slicer::Error;

fn midi_file() -> Vec<u8> {
    let mut bytes = vec![];
    bytes.extend_from_slice(b"MThd");
    bytes.extend_from_slice(&[0, 0, 0, 6, 0, 0, 0, 1, 0, 96]);
    bytes.extend_from_slice(b"MTrk");
    bytes.extend_from_slice(&[0, 0, 0, 12]);
    // note on at tick 0, note on at tick 96, end of track
    bytes.extend_from_slice(&[0x00, 0x90, 0x3C, 0x40]);
    bytes.extend_from_slice(&[0x60, 0x90, 0x3E, 0x40]);
    bytes.extend_from_slice(&[0x00, 0xFF, 0x2F, 0x00]);
    bytes
}

#[test]
fn note_on_times_keeps_note_starts() {
    let events = [
        TimedEvent { microseconds: 0, note_on: false },
        TimedEvent { microseconds: 10, note_on: true },
        TimedEvent { microseconds: 20, note_on: false },
        TimedEvent { microseconds: 30, note_on: true },
    ];
    assert_eq!(note_on_times(&events), vec![10, 30]);
    assert!(note_on_times(&[]).is_empty());
}

#[test]
fn midi_note_starts_in_microseconds() {
    // 96 ticks per beat at the default 120 BPM: one beat is half a second
    assert_eq!(midi_note_on_times(&midi_file()), Ok(vec![0, 500_000]));
}

#[test]
fn midi_errors() {
    assert_eq!(midi_note_on_times(b"not a midi file"), Err(Error::MidiParse));
    let mut zero_ticks = midi_file();
    zero_ticks[12] = 0;
    zero_ticks[13] = 0;
    assert_eq!(midi_note_on_times(&zero_ticks), Err(Error::MidiTiming));
}

#[test]
fn midi_too_long_is_refused() {
    let mut events = vec![];
    for _ in 0..2049 {
        events.extend_from_slice(&[0xFF, 0xFF, 0xFF, 0x7F, 0x90, 0x3C, 0x40]);
    }
    events.extend_from_slice(&[0x00, 0xFF, 0x2F, 0x00]);
    let mut bytes = vec![];
    bytes.extend_from_slice(b"MThd");
    bytes.extend_from_slice(&[0, 0, 0, 6, 0, 0, 0, 1, 0, 96]);
    bytes.extend_from_slice(b"MTrk");
    bytes.extend_from_slice(&(events.len() as u32).to_be_bytes());
    bytes.extend_from_slice(&events);
    assert_eq!(midi_note_on_times(&bytes), Err(Error::MidiTooLong));
}

#[test]
fn midi_tempo_changes_stretch_later_notes() {
    let mut events = vec![];
    // note on at tick 0 and at tick 96, at the default 120 BPM
    events.extend_from_slice(&[0x00, 0x90, 0x3C, 0x40]);
    events.extend_from_slice(&[0x60, 0x90, 0x3E, 0x40]);
    // at tick 96 the tempo becomes one beat per second (60 BPM)
    events.extend_from_slice(&[0x00, 0xFF, 0x51, 0x03, 0x0F, 0x42, 0x40]);
    // note on at tick 192, end of track
    events.extend_from_slice(&[0x60, 0x90, 0x40, 0x40]);
    events.extend_from_slice(&[0x00, 0xFF, 0x2F, 0x00]);
    let mut bytes = vec![];
    bytes.extend_from_slice(b"MThd");
    bytes.extend_from_slice(&[0, 0, 0, 6, 0, 0, 0, 1, 0, 96]);
    bytes.extend_from_slice(b"MTrk");
    bytes.extend_from_slice(&(events.len() as u32).to_be_bytes());
    bytes.extend_from_slice(&events);
    assert_eq!(midi_note_on_times(&bytes), Ok(vec![0, 500_000, 1_500_000]));
}

#[test]
fn midi_tracks_are_merged_by_time() {
    let track = |events: &[u8]| {
        let mut t = vec![];
        t.extend_from_slice(b"MTrk");
        t.extend_from_slice(&(events.len() as u32).to_be_bytes());
        t.extend_from_slice(events);
        t
    };
    let mut bytes = vec![];
    bytes.extend_from_slice(b"MThd");
    bytes.extend_from_slice(&[0, 0, 0, 6, 0, 1, 0, 2, 0, 96]);
    // first track: notes at ticks 48 and 144; second track: a note at tick 96
    bytes.extend(track(&[0x30, 0x90, 0x3C, 0x40, 0x60, 0x90, 0x3C, 0x40, 0x00, 0xFF, 0x2F, 0x00]));
    bytes.extend(track(&[0x60, 0x90, 0x3E, 0x40, 0x00, 0xFF, 0x2F, 0x00]));
    assert_eq!(midi_note_on_times(&bytes), Ok(vec![250_000, 500_000, 750_000]));
}
