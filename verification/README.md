# lime_rtw

Real-time task model extraction from Linux scheduling traces, with its
logic verified by Verus.

- `src/` is the verified library: trace events and their formats, interval
  sequences, the intermediate representation of a thread's timeline (run
  and suspension layers, job tracking), job separator detection (automata
  over event sequences), the model extractors (execution times, self
  suspensions, job counts, arrival curves, periods, request-bound
  functions, and the arrival models reported from raw distance models),
  the task model pipeline that feeds the jobs of each thread to the
  extractors of their separator,
  the tracer's decoding of kernel records into events, its rate limiter,
  PID-namespace detection and the reassembly
  of chunked affinity masks and process information, and the naming of
  result files.
- `src/model_extractors/step_list.rs` and `src/utils/kth_max.rs` hold the
  trusted declarations through which the library uses `index_list` and
  `min_max_heap`; `src/text.rs` holds the one through which strings are
  built from characters, and `src/tracer/assembler.rs` the one through
  which bytes become text.
- `tests/` exercises the library on concrete traces and values.
- `app/` is the command-line program around it: argument parsing, reading
  recorded traces, JSON conversions, and writing the job and model
  results.
