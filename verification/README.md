# mdcore

A small engine that turns documents into Markdown: Word (`.docx`), HTML,
CSV, JSON and plain text. A file's format is guessed from its extension and
from its first bytes; the guesses are tried in turn, and the Markdown of the
first converter that succeeds is normalised (no trailing whitespace, no runs
of blank lines, no blank lines at either end).

The library in `src/` is written in Verus: each function carries a contract
over the spec functions next to it. Where a result comes from an outside
crate it is named rather than restated, and the text of an operating-system
I/O error is left unstated (only the message's prefix is). The
laws of the library are proof functions (`src/normal_form.rs`,
`src/laws.rs`). The `csv`, `serde_json` and `zip` crates are called through
small trusted wrappers (`src/records.rs`, `src/json.rs`, `src/archive.rs`)
whose results are named rather than restated.

Layout:

- `src/text.rs` – characters, trimming, searching, UTF-8 and `String` helpers
- `src/html.rs` – the HTML state machine and `normalize`
- `src/sniff.rs` – format guessing by extension and by content
- `src/converters.rs` – CSV, DOCX (`word/document.xml`) to Markdown
- `src/json.rs` – the JSON value type, its rendering and the parse
- `src/browser.rs` – the file browser's listing of a folder (hidden entries
  left out, folders first, then by lowercase name, stable)
- `src/lib.rs` – the conversion chain (`convert_bytes`) and `Error`
- `app/` – the command line, file and folder reading and the Tauri commands
