# prosmotr-core

The core of a small document viewer. A file picked in the window becomes one
of a few document forms (text, HTML, table, tree, page, image, or a polite
refusal); this crate decides which form and fills it in. Its functions carry
contracts that Verus proves.

## Layout

- `src/` — the verified library.
  - `doc.rs`: the document forms, limits, extensions, categories, routes.
  - `opening.rs`: what to read from a file and which document it becomes.
  - `text.rs`: decoding (UTF-8 first, windows-1251 otherwise) and truncation.
  - `natural.rs`, `scan.rs`: natural ordering of names and the folder list.
  - `formats/`: markdown, csv/tsv, json, yaml, toml, xml, docx/odt, workbooks.
  - `csvread.rs`, `xmlread.rs`, `ziparch.rs`, `json.rs`: the calls into the
    `csv`, `quick-xml`, `zip` and `serde_json` crates, with their contracts.
- `tests/` — tests run against the compiled library.
- `app/` — the window (Tauri) and everything that touches the disk: reading
  files, opening workbooks with calamine, walking folders.

Paths reach the library with `/` between components (on Windows the app
turns `\` into `/` first).

Laws that hold across functions are public proof functions named `law_…`.
