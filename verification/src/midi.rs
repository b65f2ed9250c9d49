//! The times at which the notes of a MIDI file start.
use vstd::prelude::*;

use midi_reader_writer::midly_0_5::exports::Error as MidlyError;
use midi_reader_writer::midly_0_5::exports::num::{u15, u24};
use midi_reader_writer::midly_0_5::exports::{Format, Fps, Header, MetaMessage, MidiMessage, Smf, Timing, TrackEventKind};
use midi_reader_writer::midly_0_5::merge_tracks;
use crate::error::Error;
use midi_reader_writer::{ConvertTicksToMicroseconds, MidiEvent, TimeConversionError};

verus! {

#[verifier::external_type_specification]
#[verifier::external_body]
pub struct ExSmf<'a>(Smf<'a>);

#[verifier::external_type_specification]
#[verifier::external_body]
pub struct ExMidlyError(MidlyError);

#[verifier::external_type_specification]
#[verifier::external_body]
pub struct ExConvertTicksToMicroseconds(ConvertTicksToMicroseconds);

#[verifier::external_type_specification]
#[verifier::external_body]
pub struct ExTimeConversionError(TimeConversionError);

/// Frames per second of a MIDI timecode.
#[derive(Debug, Clone, Copy, PartialEq, Eq, Structural)]
pub enum FrameRate {
    Fps24,
    Fps25,
    Fps29,
    Fps30,
}

/// How a MIDI file counts time: ticks per beat, or frames per second and
/// ticks per frame.
#[derive(Debug, Clone, Copy, PartialEq, Eq, Structural)]
pub enum MidiTiming {
    Metrical(u16),
    Timecode(FrameRate, u8),
}

/// The header timing of the MIDI file `bytes` as midly reads it, or `None`
/// when midly does not read the file.
pub uninterp spec fn smf_timing(bytes: Seq<u8>) -> Option<MidiTiming>;

/// What an event of a MIDI file is to the note reader: the start of a note,
/// a change of tempo (microseconds per beat), or anything else.
#[derive(Debug, Clone, Copy, PartialEq, Eq, Structural)]
pub enum EventKind {
    NoteOn,
    Tempo(u32),
    Other,
}

/// The events of all tracks of the MIDI file `bytes`, each with its time in
/// ticks from the start of the file, in the order midi-reader-writer's
/// `merge_tracks` gives them.
pub uninterp spec fn merged_midi_events(bytes: Seq<u8>) -> Seq<(u64, EventKind)>;

/// The time in microseconds that midi-reader-writer's tick converter, made
/// for `timing`, gives for the last of the calls `fed` (ticks and the tempo
/// that the event sets, if any), after it was given the earlier ones in order.
pub uninterp spec fn converted_time(timing: MidiTiming, fed: Seq<(u64, Option<u32>)>) -> u64;

/// A timing that can be converted to microseconds: some ticks per beat, or
/// some ticks per frame.
pub open spec fn timing_convertible(t: MidiTiming) -> bool {
    match t {
        MidiTiming::Metrical(n) => n > 0,
        MidiTiming::Timecode(_, ticks) => ticks > 0,
    }
}

/// The bound on the ticks the conversion to microseconds is given. A tick
/// lasts at most `2^24` microseconds (the largest tempo at one tick per beat),
/// so every time the converter reaches stays below `2^63`; its other products
/// multiply a remainder below the divisor (under `2^23`) by a factor below
/// `2^30`. Below this bound the converter's `u64` arithmetic cannot overflow.
pub open spec fn tick_limit() -> u64 {
    0x80_0000_0000
}

/// The tempo an event sets, if any.
pub open spec fn tempo_of(kind: EventKind) -> Option<u32> {
    match kind {
        EventKind::Tempo(t) => Some(t),
        _ => None,
    }
}

/// What the tick converter is given for `events`, in order: each one's ticks
/// and the tempo it sets.
pub open spec fn clock_input(events: Seq<(u64, EventKind)>) -> Seq<(u64, Option<u32>)> {
    events.map_values(|e: (u64, EventKind)| (e.0, tempo_of(e.1)))
}

/// The tick converter is given every event, in order, whatever its tick: its
/// ticks, and the tempo it sets exactly when it is a tempo change.
pub proof fn lemma_clock_sees_every_event(events: Seq<(u64, EventKind)>)
    ensures
        clock_input(events).len() == events.len(),
        forall|i: int|
            0 <= i < events.len() ==> (#[trigger] clock_input(events)[i]).0 == events[i].0 && match events[i].1 {
                EventKind::Tempo(t) => clock_input(events)[i].1 == Some(t),
                _ => clock_input(events)[i].1 is None,
            },
{
}

/// Timing events gives one time per event, and each says whether that event
/// starts a note.
pub proof fn lemma_timed_events_match(timing: MidiTiming, events: Seq<(u64, EventKind)>)
    ensures
        midi_timed_events(timing, events).len() == events.len(),
        forall|i: int|
            0 <= i < events.len() ==> (#[trigger] midi_timed_events(timing, events)[i]).note_on == (events[i].1
                == EventKind::NoteOn),
{
}

/// The events `events` timed in microseconds: each gets the time the tick
/// converter gives for it after all events before it.
pub open spec fn midi_timed_events(timing: MidiTiming, events: Seq<(u64, EventKind)>) -> Seq<TimedEvent> {
    Seq::new(
        events.len(),
        |i: int|
            TimedEvent {
                microseconds: converted_time(timing, clock_input(events.take(i + 1))),
                note_on: events[i].1 is NoteOn,
            },
    )
}

/// Ticks that never decrease along `events`.
pub open spec fn ticks_ordered(events: Seq<(u64, EventKind)>) -> bool {
    forall|i: int, j: int| 0 <= i <= j < events.len() ==> events[i].0 <= events[j].0
}

/// Every tempo set along `events` is a 24-bit number, as a MIDI tempo event
/// holds it.
pub open spec fn tempos_in_range(events: Seq<(u64, EventKind)>) -> bool {
    forall|i: int|
        0 <= i < events.len() ==> match #[trigger] events[i].1 {
            EventKind::Tempo(t) => t < 0x100_0000,
            _ => true,
        }
}

/// Some event of `events` lies `2^39` ticks or more into the file.
pub open spec fn beyond_tick_limit(events: Seq<(u64, EventKind)>) -> bool {
    exists|i: int| 0 <= i < events.len() && events[i].0 >= tick_limit()
}

/// A MIDI file as midly read it, with the timing of its header, and the
/// bytes it was read from as its view.
pub struct ParsedMidi<'a> {
    smf: Smf<'a>,
    pub timing: MidiTiming,
    source: Ghost<Seq<u8>>,
}

impl<'a> View for ParsedMidi<'a> {
    type V = Seq<u8>;

    closed spec fn view(&self) -> Seq<u8> {
        self.source@
    }
}

/// midi-reader-writer's converter from ticks to microseconds, with the timing
/// it was made for and the calls it was given so far.
pub struct TickClock {
    converter: ConvertTicksToMicroseconds,
    pub timing: MidiTiming,
    fed: Ghost<Seq<(u64, Option<u32>)>>,
}

impl TickClock {
    /// The calls the converter was given so far, in order.
    pub closed spec fn fed(&self) -> Seq<(u64, Option<u32>)> {
        self.fed@
    }
}

/// `Smf::parse` of midly, with the header's timing read out. Whether it
/// succeeds, and the timing, depend on the bytes alone; ticks per beat are a
/// 15-bit number.
#[verifier::external_body]
fn parse_smf<'a>(bytes: &'a [u8]) -> (r: Result<ParsedMidi<'a>, MidlyError>)
    ensures
        r is Ok <==> smf_timing(bytes@) is Some,
        r matches Ok(p) ==> p@ == bytes@ && p.timing == smf_timing(bytes@)->0,
        r matches Ok(p) ==> (p.timing matches MidiTiming::Metrical(n) ==> n < 0x8000),
{
    let smf = Smf::parse(bytes)?;
    let timing = match smf.header.timing {
        Timing::Metrical(t) => MidiTiming::Metrical(t.as_int()),
        Timing::Timecode(Fps::Fps24, t) => MidiTiming::Timecode(FrameRate::Fps24, t),
        Timing::Timecode(Fps::Fps25, t) => MidiTiming::Timecode(FrameRate::Fps25, t),
        Timing::Timecode(Fps::Fps29, t) => MidiTiming::Timecode(FrameRate::Fps29, t),
        Timing::Timecode(Fps::Fps30, t) => MidiTiming::Timecode(FrameRate::Fps30, t),
    };
    Ok(ParsedMidi { smf, timing, source: Ghost(bytes@) })
}

/// `ConvertTicksToMicroseconds::try_from` of midi-reader-writer on a header
/// with the given timing (only the timing is read): fails exactly on zero
/// ticks per beat or per frame. The new converter has been given no calls.
#[verifier::external_body]
fn tick_clock(timing: MidiTiming) -> (r: Result<TickClock, TimeConversionError>)
    requires
        timing matches MidiTiming::Metrical(n) ==> n < 0x8000,
    ensures
        r is Ok <==> timing_convertible(timing),
        r matches Ok(c) ==> c.timing == timing && c.fed() == Seq::<(u64, Option<u32>)>::empty(),
{
    let midly_timing = match timing {
        MidiTiming::Metrical(n) => Timing::Metrical(u15::new(n)),
        MidiTiming::Timecode(FrameRate::Fps24, t) => Timing::Timecode(Fps::Fps24, t),
        MidiTiming::Timecode(FrameRate::Fps25, t) => Timing::Timecode(Fps::Fps25, t),
        MidiTiming::Timecode(FrameRate::Fps29, t) => Timing::Timecode(Fps::Fps29, t),
        MidiTiming::Timecode(FrameRate::Fps30, t) => Timing::Timecode(Fps::Fps30, t),
    };
    let converter = ConvertTicksToMicroseconds::try_from(Header::new(Format::SingleTrack, midly_timing))?;
    Ok(TickClock { converter, timing, fed: Ghost(Seq::empty()) })
}

/// `merge_tracks` of midi-reader-writer: the events of all tracks, each with
/// its time in ticks from the start of the file, merged into one list in
/// order of time. Each event is told apart by its kind: a MIDI `NoteOn`
/// message on any channel, a tempo change (midi-reader-writer's `tempo`,
/// read from a 24-bit number), or another event.
#[verifier::external_body]
fn merged_events(midi: &ParsedMidi) -> (r: Vec<(u64, EventKind)>)
    ensures
        r@ == merged_midi_events(midi@),
        ticks_ordered(r@),
        tempos_in_range(r@),
{
    merge_tracks(&midi.smf.tracks).map(|(ticks, _, event)| match event {
        TrackEventKind::Midi { message: MidiMessage::NoteOn { .. }, .. } => (ticks, EventKind::NoteOn),
        TrackEventKind::Midi { .. } | TrackEventKind::SysEx(..) | TrackEventKind::Escape(..) => (ticks, EventKind::Other),
        TrackEventKind::Meta(..) => match event.tempo() {
            Some(t) => (ticks, EventKind::Tempo(t)),
            None => (ticks, EventKind::Other),
        },
    }).collect()
}

/// `ConvertTicksToMicroseconds::convert` of midi-reader-writer: the time in
/// microseconds of an event at `ticks` that sets the tempo `tempo`, if any
/// (the converter reads nothing else of the event, so a tempo meta event or
/// an end of track stands for it). The converter panics on ticks below those
/// of the call before, and its products of ticks and conversion factor are
/// plain `u64` products, which `tick_limit` keeps from overflowing.
#[verifier::external_body]
fn clock_convert(clock: &mut TickClock, ticks: u64, tempo: Option<u32>) -> (r: u64)
    requires
        ticks < tick_limit(),
        old(clock).fed().len() > 0 ==> old(clock).fed().last().0 <= ticks,
        tempo matches Some(t) ==> t < 0x100_0000,
    ensures
        final(clock).timing == old(clock).timing,
        final(clock).fed() == old(clock).fed().push((ticks, tempo)),
        r == converted_time(old(clock).timing, final(clock).fed()),
{
    let event = match tempo {
        Some(t) => TrackEventKind::Meta(MetaMessage::Tempo(u24::new(t))),
        None => TrackEventKind::Meta(MetaMessage::EndOfTrack),
    };
    clock.converter.convert(ticks, &event)
}

/// An event of a MIDI file: its time in microseconds from the start, and
/// whether it starts a note.
#[derive(Debug, Clone, Copy, PartialEq, Eq, Structural)]
pub struct TimedEvent {
    pub microseconds: u64,
    pub note_on: bool,
}

/// The times of the events that start notes, in order.
pub open spec fn note_on_spec(events: Seq<TimedEvent>) -> Seq<u64>
    decreases events.len(),
{
    if events.len() == 0 {
        Seq::empty()
    } else if events.last().note_on {
        note_on_spec(events.drop_last()).push(events.last().microseconds)
    } else {
        note_on_spec(events.drop_last())
    }
}

/// The times kept are those of the events that start notes, in order: the
/// events filtered to note starts, each taken by its time.
pub proof fn lemma_note_on_times_kept(events: Seq<TimedEvent>)
    ensures
        note_on_spec(events) == events.filter(|e: TimedEvent| e.note_on).map_values(
            |e: TimedEvent| e.microseconds,
        ),
    decreases events.len(),
{
    reveal(Seq::filter);
    if events.len() > 0 {
        lemma_note_on_times_kept(events.drop_last());
        let f = events.drop_last().filter(|e: TimedEvent| e.note_on);
        assert(f.push(events.last()).map_values(|e: TimedEvent| e.microseconds) =~= f.map_values(
            |e: TimedEvent| e.microseconds,
        ).push(events.last().microseconds));
    }
}

/// The times of the events that start notes, in order.
pub fn note_on_times(events: &[TimedEvent]) -> (r: Vec<u64>)
    ensures
        r@ == note_on_spec(events@),
{
    let mut out: Vec<u64> = Vec::new();
    let n = events.len();
    for i in 0..n
        invariant
            n == events@.len(),
            out@ == note_on_spec(events@.take(i as int)),
    {
        proof {
            assert(events@.take(i + 1).drop_last() =~= events@.take(i as int));
        }
        let e = events[i];
        if e.note_on {
            out.push(e.microseconds);
        }
    }
    proof {
        assert(events@.take(n as int) =~= events@);
    }
    out
}

/// The times in microseconds at which the notes of the MIDI file `bytes`
/// start, in order. Fails when midly cannot read the file, when its header
/// gives a timing that cannot be converted to microseconds, or when an event
/// lies `2^39` ticks or more into the file.
pub fn midi_note_on_times(bytes: &[u8]) -> (r: Result<Vec<u64>, Error>)
    ensures
        smf_timing(bytes@) is None <==> r == Err::<Vec<u64>, Error>(Error::MidiParse),
        (smf_timing(bytes@) matches Some(t) && !timing_convertible(t)) <==> r == Err::<Vec<u64>, Error>(
            Error::MidiTiming,
        ),
        (smf_timing(bytes@) matches Some(t) && timing_convertible(t) && beyond_tick_limit(
            merged_midi_events(bytes@),
        )) <==> r == Err::<Vec<u64>, Error>(Error::MidiTooLong),
        r is Ok <==> (smf_timing(bytes@) matches Some(t) && timing_convertible(t) && !beyond_tick_limit(
            merged_midi_events(bytes@),
        )),
        r matches Ok(v) ==> v@ == note_on_spec(
            midi_timed_events(smf_timing(bytes@)->0, merged_midi_events(bytes@)),
        ),
{
    let midi = match parse_smf(bytes) {
        Ok(p) => p,
        Err(_) => {
            return Err(Error::MidiParse);
        },
    };
    let timing = midi.timing;
    let mut clock = match tick_clock(timing) {
        Ok(c) => c,
        Err(_) => {
            return Err(Error::MidiTiming);
        },
    };
    let events = merged_events(&midi);
    let ghost merged = merged_midi_events(bytes@);
    let mut timed: Vec<TimedEvent> = Vec::new();
    let n = events.len();
    for i in 0..n
        invariant
            n == events@.len(),
            events@ == merged,
            merged == merged_midi_events(bytes@),
            smf_timing(bytes@) == Some(timing),
            timing_convertible(timing),
            ticks_ordered(merged),
            tempos_in_range(merged),
            forall|j: int| 0 <= j < i ==> (#[trigger] merged[j]).0 < tick_limit(),
            clock.timing == timing,
            clock.fed() == clock_input(merged.take(i as int)),
            timed@ == midi_timed_events(timing, merged).take(i as int),
    {
        let ticks = events[i].0;
        if ticks >= 0x80_0000_0000 {
            return Err(Error::MidiTooLong);
        }
        let kind = events[i].1;
        let tempo = match kind {
            EventKind::Tempo(t) => Some(t),
            _ => None,
        };
        proof {
            assert(merged.take(i + 1) =~= merged.take(i as int).push(merged[i as int]));
            assert(clock_input(merged.take(i + 1)) =~= clock_input(merged.take(i as int)).push((ticks, tempo)));
            if i > 0 {
                assert(clock.fed().last() == clock_input(merged.take(i as int))[i - 1]);
            }
        }
        let microseconds = clock_convert(&mut clock, ticks, tempo);
        let note_on = match kind {
            EventKind::NoteOn => true,
            _ => false,
        };
        timed.push(TimedEvent { microseconds, note_on });
        proof {
            assert(timed@ =~= midi_timed_events(timing, merged).take(i + 1));
        }
    }
    proof {
        assert(timed@ =~= midi_timed_events(timing, merged));
        assert(!beyond_tick_limit(merged));
    }
    Ok(note_on_times(timed.as_slice()))
}

} // verus!
