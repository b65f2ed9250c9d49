# jonnah_slicer

A tool for slicing audio stems into BMS keysounds on a musical time grid.
Time points are exact fractions of a measure; slices of a stem are cut at
time points, share keysounds by reference, and are exported as keysound
files and as a BMS chart.

The library in `src/` is verified with Verus:

- `time_point`, `ratio`, `grid_laws`: exact time points, their arithmetic
  (done by `num-rational`), snapping to a grid, and laws of snapping.
- `project`, `slice_order`, `slice_laws`, `editing`: slices, stems and
  projects; inserting, merging, querying and editing slices, with the laws
  that keep slices ordered by time point.
- `keysounds`, `grouping`: numbering the keysounds of stems and groups.
- `bms`: what a BMS chart of a project holds (labels, file names, notes,
  tempo changes), checked against bms-rs object ids.
- `audio`, `playback`: the integer side of cutting and playing audio.
- `midi`: reads a MIDI file with midly and midi-reader-writer and keeps the
  times of its note starts: the tracks are merged and each event's ticks
  are converted to microseconds by midi-reader-writer's converter, fed in
  order of time; the library states when reading fails and which times are
  kept, in terms of what those crates return.
- `live`, `timing`, `paths`, `error`: editor state, tempo maps, file names
  and the errors of the library.

`app/` is the editor program around it (egui/eframe, cpal, wavers, serde):
windows, audio I/O, the floating-point tempo conversions and file I/O.
