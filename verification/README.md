# rgathing

A graphical front end for ripgrep-all (`rga`): pick directories, search
inside any file, browse the results by file, and find text within them.

The logic lives in a library verified with Verus (`src/`); the window, the
`rga` process, the settings file and the other input and output live in a
thin program around it (`app/`).

## Library (`src/`)

- `types.rs` — the directory tree (ungrouped directories and groups), its
  operations, and the invariant that every identifier in use lies below the
  counter that hands out new ones.
- `search.rs` — when a search may start and the `rga` arguments for it; the
  results read from `rga`'s JSON events, long lines cut to size; draining the
  results that have arrived from the search.
- `find.rs` — find in results: byte search, case-sensitive and
  case-insensitive matching, whole-word boundaries, and the state of the find
  bar.
- `highlight.rs` — how a result line is cut into highlighted pieces.
- `view.rs` — page separators, row grouping by file, the files of the results
  and what "Collapse all" sets them to, gutters, status texts.
- `history.rs` — the search history and moving through it.
- `text.rs`, `paths.rs` — trimming, character boundaries, decimal numbers,
  and the few standard-library path and text functions the library relies on.

## Program (`app/`)

`main.rs` starts the window; `app.rs` holds the window state; `search.rs`
runs `rga` in a thread; `types.rs` reads and writes the settings file;
`ui/` draws the panels.
