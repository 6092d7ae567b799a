# timings

A lightweight crate for timing and benchmarking, verified with Verus.

Measurements are taken for a *metric* under a *label*, possibly on many threads,
and end in statistics by metric and label: average, minimum, maximum, standard
deviation and outliers of every invocation. Benchmarks run implementations with
several configurations and numbers of threads, and let the threads of a run
start together.

## Layout

- `src/` is the verified library.
  - `label`, `order`, `sorted`: labels, total orders, and maps sorted by key.
  - `collect`, `stats`, `wide`: gathering of measurements and their statistics,
    in whole numbers. `collect_laws` states what holds of the summaries, and
    `received_laws` in which orders of the measurements they are the same.
  - `timing`, `channel`, `ends`, `shared`: timings, the channel that carries them,
    its two ends, and the handle of their summary. `timing_laws` states what holds
    from where a timing is finished to where it is summarized.
  - `sync`, `cores`, `machine`: the synchronized start of threads and their cores.
    `sync_laws` states what holds of a start, however threads are scheduled.
  - `benchmark`: what a benchmark does, one action after the other.
  - `formatting`: tables, units and digits.
- `app/` holds what needs a clock, threads, locks, floating point or output.
- `tests/` runs the library on given values.
