# type_forge

Generates types from data samples. Samples in JSON, YAML, TOML, XML or
`.properties` form are read, merged into one shape, and handed, as compact
JSON text, to `json_typegen_shared`, which writes Rust, TypeScript, Kotlin,
JSON Schema or a shape description.

Layout:

- `src/` is the verified library (Verus). `json.rs` holds the value type and
  its model; `format.rs` picks formats and reads samples; `xml.rs` renames
  XML-derived keys; `scalar.rs` types `.properties` values; `merge.rs` merges
  samples and states the merge laws; `serialize.rs` has samples written as
  compact JSON by `serde_json`;
  `codegen.rs` drives the generator; `input.rs` decides where samples come
  from; `parsers.rs` holds the calls into the readers and `text.rs` the character
  helpers.
- `app/` is the command-line front end: argument parsing, reading files,
  URLs and standard input, and printing.
- `tests/` runs the library on concrete inputs.
