# wego-voice

Real-time pitch correction for singers on Windows, with recording and offline
correction. The decisions of the signal path and everything around it are a
library verified with Verus; arithmetic on samples and the work with devices,
files and threads are ordinary Rust around it.

## Layout

`src/` is the verified library.

- Signal path: `psola` (pitch marks, delays, ring positions), `yin` and `fft`
  (lag search and transform plan), `noise` (noise gate), `scale` (keys and
  retuning), `tilt`, `corrector` (analysis hops and frames).
- Whole recordings: `offline` (pitch tracks), `timbre` (voice profiles),
  `f0eval` (scoring of a tracker).
- Engine: `ring`, `duplex` (bridge between capture and render), `metrics`,
  `params`, `latency` (pulse probe), `priority`, `backend`, `engine`, `pcm`.
- Files and jobs: `wav`, `recorder`, `takes`, `paths`, `job`, `clone`.
- Conclusions: `report`, `survey`, `thresholds`.
- Shared ground: `single` (order of single-precision numbers by their bit
  patterns), `sorting`, `sizes`, `text`.

Numbers with a fraction travel through the library as their bit patterns: it
orders, clamps, selects and stores them, and never calculates with them.

`app/` is the program `wego-bench`: floating-point arithmetic, devices, threads,
files and the command line.

`tests/` runs the library, with the arithmetic of `app/` where a test needs it.

## What is taken on trust

`ring` states what `rtrb` promises of its ring buffer, `priority` what
`audio_thread_priority` is asked and that it refuses a sample rate of zero, and
`text` what `String::push` does. What else the contracts in `src/` state is proved. How a
sample is calculated is not among it: that is floating point, and stands in `app/`.
