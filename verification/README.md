# context_index

Markdown documents as chunks for an embedding index, and the plan that brings such
an index up to date. The library is written in Verus: every function in `src/`
carries a contract that Verus proves, but for the few that only call another crate
or the standard library.

- `text`, `order`: characters, lines, trimming; the order of paths and a stable sort.
- `pattern`, `front_matter`, `metadata`: headings, front matter, and the JSON map
  that holds it.
- `chunk`, `markdown`, `oversize`: chunks, the sections of a document, and the
  overlapping windows that a long section is cut into.
- `hash`, `group`, `plan`: the content hash of a file, chunks grouped by file, and
  which files to embed, skip and delete.
- `files`: which files are collected, and what is collected of them.

Functions named `law_..` state what holds of several functions together.

The contracts of the functions that only call another crate or the standard
library are believed without proof. They stand beside the calls they are about:
`regex` in `pattern`, `serde_json` in `metadata`, `sha2` and `hex` in `hash`, and
`String::push` in `text`.

`app/` walks the file system and hands what it reads to the library. `tests/` runs
the library.
