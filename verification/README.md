# wafflematrix

The verified core of a PDF comparison tool. Two PDF documents are compared
page by page in one of three modes (text, visual, hybrid); the result is a
diff report that can be shown, searched and exported as Excel, CSV, JSON or
HTML. An evaluation harness scores the engine against ground truth.

## Layout

- `src/` — the library, written in Verus. Its functions carry
  `requires`/`ensures` contracts over spec models (`Seq`, `Map`, integers)
  and are proved by Verus, except the few marked
  `#[verifier::external_body]`: thin wrappers around calls into `std`,
  `similar` and `lru`, whose contracts are trusted, not proved (one of them,
  the clock reading, promises nothing of its result).
  - `report` — the diff report model, its views and statistics.
  - `textdiff` — turning a line edit script into diff entries.
  - `loader` — report assembly, statistics and RFC 3339 timestamps.
  - `visual` — mask erosion, connected pixel regions, clustering of nearby
    regions, and the entries of visual and hybrid pages.
  - `export` — the text of the CSV and HTML exports and the rows of the
    spreadsheet sheets.
  - `search` — case-insensitive search over page texts with snippets.
  - `cache` — the LRU cache of rendered pages.
  - `commands` — argument checks and answers of the application commands.
  - `files` — PDF file checks and metadata cleaning.
  - `bench` — ground truth, scoring counts, aggregation, golden snapshots and
    the seeded generator.
  - `strings` — character-level helpers.
- `tests/` — tests of the library on concrete values.
- `app/` — the program around the library: PDF parsing and rendering,
  floating-point image alignment and colour comparison, file I/O and the
  command line. It calls the library for every decision the library makes.

Laws that span several functions are public proof functions named `law_*`.
