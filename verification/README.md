# sel

`sel` selects slices of text files: lines by number or range (`10-20`),
positions (`23:260`) with a window of characters around them, or lines that
match a regular expression, with optional context lines around each hit.

The library under `src/` holds all of the tool's logic, each function with a
contract that Verus proves:

- `selector` — parsing of selectors and their normal form (sorted, merged
  ranges; sorted, distinct positions); `ranges` — the sorting and merging.
- `matcher` — per-line verdicts: every line, line ranges, positions, regex.
- `context` — the expanders: hits only, or hits with `n` lines around them.
- `format` — plain lines (prefix, target marker, highlighting) and fragments
  with a caret under the target column; `output` — a line writer over a byte
  buffer with the same pieces.
- `pipeline` — the per-line driver joining a matcher, an expander and a
  formatter; `wiring` — which of them the command-line options ask for.
- `cli`, `reader`, `error`, `text`, `types` — options, line reading and
  ring buffers, errors, byte-level helpers, shared types.

`app/` is the program around the library: argument parsing with clap,
files, stdin, stdout and the output file, and the loop that reads lines,
feeds them to the library's driver and writes out the bytes it returns.
