# jsoned

A keyboard-driven terminal viewer and editor for JSON documents (also reading and writing
YAML, TOML and CSV), with a structural diff, a linter, redaction of sensitive values and a
random-data generator.

The library under `src/` is written in Verus. Its own functions carry contracts that the
verifier proves; the calls into outside crates (serde_json, serde_yaml, toml, csv, regex,
chrono, fake, jaq) and a few std functions go through small wrappers marked
`#[verifier::external_body]`, whose contracts are trusted and say in their doc comments
what they claim of the outside code.

- `tree` — the document tree, paths into it, the flat row listing and its in-place patch
- `pretty` — the annotated pretty-printed source and its in-place patch
- `lint` — structural warnings (empty keys, excessive depth) and their in-place patch
- `diff`, `diff_app` — the key-path diff, its text and JSON reports, and the diff viewer
- `editor`, `keys` — the editor state, what every key does to it (navigation, folding, editing, renaming,
  sorting, undo and redo, the lint warnings and their `Tab` navigation, the search prompt), and
  the save dialog
- `search` — which rows a search query matches, by key or scalar value, without regard to case
- `view` — the text of table cells, status lines, hints and the detail panel
- `convert`, `json` — reading JSON, YAML, TOML, CSV and JSON Lines into the document tree,
  writing a document in those formats, format names, compact JSON text
- `redact` — masking of values by key name and inside `name=value` strings
- `fake_data`, `plugin` — the random-document description language, the checks before a
  jq filter is run on a node and how its outputs combine
- `text` — string building blocks

`app/` is the command-line program around the library: argument handling, files, standard
streams, the terminal, drawing, and running a jq filter (which may never finish, so no
verified function can promise to return from it).
