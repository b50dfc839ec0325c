# karaconf

A Karabiner-Elements manager: TOML keymap profiles under
`~/.config/karaconf/<name>.toml` are compiled into Karabiner rules and
upserted into `karabiner.json`. The upsert is verified code: the document is
held as a plain JSON value (`json.rs`), and the contracts state which profile
is updated, that only its `complex_modifications.rules` changes, and that
every other profile and member of the document is kept.

- `src/` is the library, verified with Verus: key expressions and text
  macros (`keys.rs`, `layouts/`), the profile schema (`config.rs`), the
  Karabiner rule schema (`karabiner.rs`), the compiler from profiles to rules
  (`converter.rs`), the `karabiner.json` edits of a sync (`json.rs`), the
  decisions behind the CLI commands (`sync.rs`), string helpers (`text.rs`)
  and properties of the whole (`laws.rs`).
  Each public function's contract states its result exactly, errors included,
  over the plain-value views of the types.
- `app/` is the command line: argument handling, reading and writing files,
  running `karabiner_cli`, and the serde forms of the library's types
  (including the conversion between `serde_json::Value` and the library's
  JSON value).
- `tests/` runs the library on concrete values.
