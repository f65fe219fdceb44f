# JitterSnoop

A flight recorder for scheduling jitter on isolated cores. A probe watches the context switches of
the chosen cores. When a task is put off its core and comes back at the next switch, the time in
between is an event: the task is the victim, the one that ran in its place the aggressor. The
recorder keeps the last hundred events and a 24-hour history, serves both on a web dashboard and can
log every event as a line of CSV.

- `src/` is the verified library: the decision at a context switch, the format of an event, the
  buffer, the history with its buckets and its ranking, and the report. Functions state what they do
  over plain models (`RollingBuffer` is a sequence of events, `History24hStore` a sequence of minute
  summaries and a ranking). Proof functions named `law_` state what holds across them.
- `app/` is the program around it: command line, probe set-up, poll loop, demo and web server.
- `tests/` runs the library.

The one function whose contract is taken on trust is `event::utf8_lossy`, which calls
`String::from_utf8_lossy`.

Figures are kept in machine integers. `has_room` says whether an event can still be counted, and
`totals` says whether the figures of all minutes can be added up; the program stops where they
cannot.
