# xfx

The parts of a terminal coding assistant that can be settled without a
terminal, a filesystem or a clock, written in Verus: executable Rust whose
behaviour is stated in contracts and proved.

- `src/workspace` decides which real paths a turn may touch (`path`) and which
  project instructions it is given (`context`).
- `src/tui/wrap` breaks text into rows of cells, and `src/tui/transcript` turns a
  stream of text into rows the terminal's own document keeps.
- `src/tui/document` orders what is written above the band, `src/tui/band` is the
  band itself, and `src/tui/shell` is the session: what a keystroke, an event or
  a moment does to it.
- `src/tui/worker` is the queue of work, its interruption and its end;
  `src/tui/signals` and `src/tui/term` say how a terminal is taken and given
  back; `src/tui/theme` picks the palette.

Nothing in `src` reads or writes anything. `app` does that: it asks the
filesystem, the terminal and the kernel, and hands the library plain values.

Names that begin with `law_` are what the library promises as a whole, each
proved from the same specifications the functions' own contracts use.
