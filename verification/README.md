# graph_core

The core of a notes site's content pipeline, verified with Verus.

A run scans a repository of Markdown notes, writes a staged copy of the tree
with every note's links normalised for the site, builds the note graph (notes,
section hubs and a root hub) in CSR form, lays it out with ForceAtlas2 and
writes the frozen artefacts `pos.bin`, `graph.bin`, `search.json`,
`meta.json` and `CONTRACT.md`. The browser side answers queries on the loaded
graph (search, neighbours, ego networks, local views).

## Layout

- `src/` — the verified library. Paths and text (`strs`, `text`, `excerpt`),
  link resolution and rewriting (`links`), the scan's order and rebasing
  (`scan`), the staged tree's rules (`stage`), the graph and its encodings
  (`graph`, `le`, `graph_laws`), JSON (`json`), search entries, titles,
  fingerprints and metadata (`pipeline`), related-note tokens and edge choice
  (`related`), the seeded generator (`layout`), time stamps (`timefmt`), the
  browser-side queries (`query`) and the `CONTRACT.md` document (`contract`).
  Each module states its contracts over `Seq`/`Set` models; the `law_*` proof
  functions state properties that span calls.
- `app/` — the program around it: command line, file system walk and writes,
  the clock, the floating-point layout through the `fa2` crate, the
  floating-point parts of related-note scoring, and the browser exports'
  screen-space work.
- `tests/` — tests of the library on concrete values.

Outside crates: `unicode-normalization` (NFC) and `sha2` (SHA-256) are called
from the library behind trusted wrappers; `fa2` is used by the program only.
