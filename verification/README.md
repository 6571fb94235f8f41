# json_parser

A JSON parser with a machine-checked specification.

`LeptParser::parse` reads a JSON text into a tree of `LeptValue` nodes and
reports a `ParseStatus`. What it reads is stated as a function of the text's
characters (`src/grammar.rs`); the parser is proved to follow it, and the
tree's text (`LeptValue::to_json_string`) is proved to read back as a tree
with the same value when every number holds a valid number text and no
string or key holds a character that would need an escape. `src/laws.rs` states what holds of
every text: whitespace around a document, a minus sign before a number, and
the outcome of a whole document.

Numbers keep the text they were written with; the program in `app/` reads
them as `f64` where it compares or prints them.

Layout:

- `src/` the verified library;
- `tests/` its tests;
- `app/main.rs` a small program that reads a text, prints the tree and reads
  the printed text again.
