# forge_core

The verified core of the forge text editor, written in Verus.

- `src/` is the library. Every function of it is proved against its
  contract, except a handful of small trusted wrappers around calls into
  std and PCRE2, whose contracts are believed, not proved: `is_valid_utf8`
  (`str::from_utf8`), `string_from_utf8` (`String::from_utf8`),
  `compile_pattern` (`pcre2::bytes::Regex::new`), `captures_read_at`
  (`Regex::captures_read_at`), `to_lowercase_bytes` (`str::to_lowercase`),
  and the declaration of the outside type `pcre2::bytes::Regex`. The modules:
  - `snippet`: expansion of LSP snippet bodies into text and tabstops;
  - `doc`: the document model (lines of bytes, 1-based positions,
    selections) with insertion, removal, reading and cursor merging;
  - `record`: the packed byte format of undo records;
  - `edit`: single, bulk and replayed edits with their undo records;
  - `undo`: what undo records give back, and the line shape that edits keep;
  - `search`: literal and PCRE2 searches and replacements;
  - `tabs`, `tokenizer`: tab-bar counting and the subsyntax walk of a
    highlighter state.
- `tests/` runs the library on concrete values.
- `app/` binds the library to Lua with mlua, and holds the floating-point
  layout code and the fatal-error dialog.
