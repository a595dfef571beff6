# json_repair_rs

Repairs malformed JSON text from language models, logs and user input, and proves with Verus
what the repair does.

- `src/` is the verified library. `repair.rs` holds the entry points, `grammar.rs` what a
  malformed text means, `parser.rs`, `token.rs` and `cursor.rs` the parser that reads it so,
  `writer.rs` the JSON text of a value, `strict.rs` the strict reading that `serde_json` does,
  `reader.rs` and `keys.rs` the search for a key that JSON text repeats.
- `standard.rs`, `laws.rs`, `loading.rs` and `equality.rs` prove what holds of every repair: the
  text that is written is JSON and writes the repaired value, keys are distinct, valid JSON is
  taken as it is, and what strict mode accepts is what the same options give without it.
- `tests/` run the library, `app/` is the command line around it.
