# pyyaml_rust

A verified event-level YAML parser. `parse_rust` turns a text into the
stream of parse events (stream, document, mapping, sequence and scalar
events), each marked with its line, column and character index in the
text; its contract states the result exactly, over a model written on
character sequences.

Layout:

- `src/text.rs`: whitespace, trimming, searching, line splitting and UTF-8
  widths, as specifications and as verified loops over character ranges.
- `src/event.rs`: marks, events and their models.
- `src/scalar.rs`: quote removal and `!!type` tag resolution.
- `src/model.rs`: what parsing yields, line by line and document by
  document.
- `src/document.rs`, `src/stream.rs`: the verified parser.
- `src/parser.rs`: the stateful parser interface: once a scanner has
  supplied the text, `check_event`, `peek_event` and `get_event` hand out
  the events of that text one at a time, then `None`.
- `src/token.rs`: the text of a token given by byte positions.
- `src/laws.rs`: proofs that every parse is framed by stream events, nests
  its start and end events, takes every scalar from the input text, and
  marks every event with a true position in it.
- `src/pairs.rs`: the proof that every mapping of a parse holds key/value
  pairs (a key without a value gets an empty scalar).
- `app/`: the Python bindings (pyo3), which read the input (strings,
  files, `StringIO`, `BytesIO`) and raise the Python errors.
