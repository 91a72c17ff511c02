# ush

`ush` runs a command template once per target read from standard input, in
parallel, locally or through jump hosts, and reports what each command did;
`ush freq` summarises those reports. This crate is the verified library behind
the tool, with the command line in `app/`.

## Layout

- `src/` — the library, verified with Verus:
  - `text`, `numeral` — string building, whitespace, decimal and hexadecimal
    rendering, and integer parsing as std reads integers;
  - `codec` — JSON (newline) and MessagePack (length-prefix) framing, with the
    laws that decoding gives back what was encoded;
  - `time` — durations, compact and Go-style rendering, RFC 3339 timestamps and
    the calendar arithmetic behind them;
  - `json` — string escaping and a JSON value parser, with the law that parsing
    an escaped string gives it back;
  - `strutil` — a sorted set of strings;
  - `exec` — validating a run, substituting targets, capturing output, choosing
    targets, rendering results, and building jump-host invocations;
  - `freq` — grouping results by key, ordering groups and rendering them;
  - `update` — versions, release targets, URL rules, the check schedule,
    checksums and the upgrade plan.
- `app/` — `main`, argument parsing, processes, threads, files, HTTP, and the
  floating-point parts (duration values and percentages).
- `tests/` — tests of the library.
