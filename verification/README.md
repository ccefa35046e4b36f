# traviz

A library for reading and analysing OpenTelemetry traces, with a command-line program around it.

- `src/` — the library, verified with Verus: the trace data model and its conversion from export
  requests, span trees, structured display modes and grouping, node filters, relations between
  spans, span duration statistics, dependency analysis between span names (with the one-line
  descriptions it reads and writes), what the timeline displays, saved settings and profiling
  figures. Each public function states what it returns in its contract; public proof functions
  state the laws that hold across functions.
- `tests/` — tests of the library.
- `app/` — the command-line program: reads a trace file (a JSON list of export requests), prints
  the spans as a display mode arranges them, relation links, span statistics and dependency
  analyses, and loads and saves the user's modes and filters.

Times are whole nanoseconds since the Unix epoch.
