# scon

SCON (Structured Compact Object Notation) is a compact, human-readable text
format for structured data: objects as `key: value` lines, arrays of
primitives inline (`tags[2]: a,b`), arrays of uniform objects as tables
(`rows[2]{id,name}:` and one row per line), other arrays as `- ` list items,
and a minified one-line form with `;` between lines.

This crate is written in Verus. Every function in `src/` carries a contract
that Verus proves, except small wrappers whose contracts are taken on trust:
in `src/text.rs`, `push_char` (`String::push`), and `i64_text` and
`usize_text` (`itoa::Buffer::format`); in `src/value.rs`, the calls into the
`IndexMap` that holds an object's entries (`with_hasher`, `len`,
`get_index`, `get_index_of`, `insert`).
The central law, that decoding gives back what encoding wrote, is
`document_round_trip::lemma_document_round_trip`.

## Layout

- `src/value.rs`: values (`Value`, `SconMap`) and their mathematical model.
- `src/format.rs`: what the encoder writes, as spec functions.
- `src/encoder.rs`: the encoder; `src/parsed_quoting.rs`: an encoder that
  quotes a string where it parses as a number; `src/script_encoder.rs` and
  `src/php_encoder.rs`: encoders for script values and for PHP arrays.
- `src/text.rs`, `src/syntax.rs`, `src/inline.rs`: text helpers, scanners and
  the parsers of keys, headers and inline values.
- `src/decoder.rs`, `src/layout.rs`: the decoder, from text to lines and from
  lines to a value.
- `src/tape.rs`, `src/tree.rs`, `src/json.rs`: the tape decoder, the tree of a
  tape, and JSON text of a tape.
- `src/calendar.rs`: days since the epoch as a calendar date.
- `src/round_trip.rs`, `src/array_round_trip.rs`,
  `src/tabular_round_trip.rs`, `src/one_line_round_trip.rs`,
  `src/document_round_trip.rs`: the proofs that what is written reads back.
- `tests/`: tests on concrete values.
- `app/`: the benchmark program and the WebAssembly and PHP bindings, which
  do I/O or talk to their host and call into the library.
