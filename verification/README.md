# rbspy

The data model and report formats of a sampling profiler for Ruby programs, written
in Verus with their contracts proved.

- `src/` is the library: stack frames and traces; the statistics behind each report
  format (collapsed stacks and flamegraphs, callgrind, speedscope, pprof and the
  summary); reading and writing the raw recording format; the parsing of
  `/proc/<pid>/maps` and `/proc/<pid>/status`; the sampling schedule and the
  decisions of the sampling loop; and the symbol names for each Ruby version.
- `tests/` runs the library on concrete inputs.
- `app/` is the command line around it: argument parsing, files, threads, and the
  parts of each format that need floating point or an outside crate's derive.

This build cannot profile a running Ruby process: reading another process's memory
needs the interpreter structure bindings for each Ruby version and a reader of process
memory, and neither is part of this project. `record`, `snapshot` and `inspect` on a
live process stop with an error saying so. Reports from raw files recorded elsewhere
(`rbspy report`) work, and the library keeps the decisions of the sampling loops, the
table of supported Ruby versions and every report format.
