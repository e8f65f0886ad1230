# dipho

A terminal program for making sentence mixes, and the verified library under it.

The idea: sentence mixing is unit-selection speech synthesis whose unit database
is whatever media it is pointed at. Two abstractions carry it.

- The corpus is an index over immutable sources. Every word, phone and diphone
  in them can be addressed, with its speaker and prosody frames.
- The edit is a list of spans with transforms. It compiles to an mpv playlist
  for a preview without rendering, and to ffmpeg invocations for the final file.

## Layout

- `src/`: the library, written in Verus. Every function is proved against its
  contract; what outside crates compute is stated in the contracts of a few
  wrappers (`text`, `json`, `hash`, `corpus/npz`, `tui/line`).
- `app/`: the program around it: the command line, files and processes, the
  SQLite database, the sockets and the terminal. Floating point stays here too.
- `tests/`: tests of the library.

## Numbers

Times are nanoseconds in `i64`, positions on the output timeline in `i128`, frame
rates are fractions, and audio samples are the bit patterns of 32-bit floats.
Tolerances below a nanosecond, which floating-point seconds would need, are one
nanosecond. What is compared more closely than that keeps eighteen decimals: the
length and hop of a frame grid, and the times that ffprobe reports of a master.
