# tarn

An MCP server that exposes Obsidian vaults to AI agents, with its logic
verified by Verus.

- `src/` is the verified library: vault and note paths, the note parser
  (sections, headings, tags, tasks, links), the search query language, the
  section index and term statistics, revision tokens and change review,
  storage decisions (access lists, write plans, conflicts), replacement and
  renaming of note text, data URIs, rendering, MCP resource routes and prompt
  texts. Each public function states its result in its contract, except for
  what the system alone decides (an I/O error's kind and text), which its doc
  comment names; the laws (round trips, parent chains, reconciling events,
  index updates, browse results, task numbering) stand as public proof
  functions.
- `app/` is the program around it: the command line, file and network I/O,
  the file watcher, the MCP handlers, YAML frontmatter, persistence, and the
  floating-point ranking (BM25, tag similarity, reciprocal rank fusion).
- `tests/` runs the library on concrete values.

Outside crates are reached from `src/` only through a few trusted items
(regex, base64, the Unicode word class, `std::path`, `std::io` errors and the
clock); each says in its doc comment what it claims of the outside code.
