# logtripwire

Tails a log file and fires an alert, a shell command, or a nonzero exit
when a pattern recurs N times within a rolling time window.

The library in `src/` is verified with Verus:

- `duration` — spans of time in nanoseconds, and the parser for duration
  strings such as `30s`, `5m`, `1.5h`, `200ms`, `2.5e-1m` (exact decimal
  arithmetic, rounded to the nearest nanosecond);
- `window` — the edge-triggered sliding-window counter, with its laws (one
  flood fires once, the count is the matches within the closed window,
  taking a count changes nothing later calls see);
- `matcher` — patterns compiled with the `regex` crate, literally or not,
  case-sensitively or not;
- `tail` — assembly of appended bytes into whole lines, independent of how
  the reads are split;
- `action` and the crate root — the configured response and the `Tripwire`
  that ties a matcher to a window.

`app/` is the command-line program: argument parsing, reading the file,
sleeping between polls, printing alerts and running commands.
