//! The ways in which the library's operations can fail.
use vstd::prelude::*;

verus! {

/// Why an operation of the library failed.
#[derive(Debug, Clone, PartialEq, Eq)]
pub enum Error {
    /// A time point before the start of the song has no BMS object time.
    NegativeTimePoint,
    /// There are no slices to start from.
    NoSlices,
    /// A slice starts before the slice in front of it.
    BadSampleCountSub,
    /// The first sample lies past the end of the audio.
    StartingSampleOutOfRange { starting_sample: usize, available: usize },
    /// A cut holds fewer frames than were asked for.
    FewerFramesThanExpected { got: usize, expected: usize, available: usize },
    /// Counting keysounds overflowed.
    SliceCountOverflow,
    /// More keysounds than two base-62 digits can name.
    TooManySlices(u64),
    /// The timing has no BPM changes.
    EmptyTiming,
    /// A slice points to a keysound that does not exist.
    MissingKeysound(usize),
    /// A keysound number has no two-character BMS object id.
    InvalidObjId,
    /// A stem's audio path has no file name.
    NoFileName,
    /// A stem's audio path has no extension.
    NoExtension,
    /// Audio to play has no channels.
    NoChannels,
    /// Playback would start past the end of the audio.
    CursorPastEnd { cursor: usize, length: usize },
    /// The MIDI data could not be read.
    MidiParse,
    /// The MIDI header's timing cannot be converted to microseconds.
    MidiTiming,
    /// A MIDI event lies too many ticks into the file to be converted.
    MidiTooLong,
}

} // verus!
