# pick

Extract values from JSON, YAML, TOML, `.env` files, HTTP headers, logfmt, CSV
and plain text with one selector language (`foo.bar[0]`, `items[*].name`,
`..id`, `items[1:3]`, `keys()`, `select(.price > 10)`, `set(.a, 1)`, `del(.b)`,
pipelines with `|` and unions with `,`).

The library in `src/` is written in Verus and verified: each public function
states what it returns in terms of a mathematical model of the values
(`value::Json`), and `src/laws.rs` proves properties that hold across
operations (a value written by `set` is what selecting its path gives back;
`set` and `del` keep objects' keys ordered and unique; splitting at top-level
delimiters loses nothing; and more).

Layout:

- `src/selector/`: the selector language: syntax (`types`), parser, path
  extraction, filters, `set`/`del`, literals, and pipelines (`execute`).
- `src/formats/`: readers for each input format; JSON, YAML, TOML and CSV
  go through `serde_json`, `serde_yaml`, `toml` and `csv`.
- `src/detector.rs`: guessing the input format.
- `src/output.rs`: rendering results as plain text, JSON, YAML or TOML.
- `src/lib.rs`: `run`, one selection with the command's options;
  `src/streaming.rs`: one line of a JSON Lines stream.
- `src/value.rs`, `src/text.rs`, `src/decimal.rs`: values, text, and decimal
  numbers (compared by their exact values).
- `app/main.rs`: the command line (argument parsing, reading files and
  standard input, printing).
