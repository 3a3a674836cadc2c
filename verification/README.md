# misanthropic (structured output)

Structured output configuration for prompts, verified with Verus.

- `src/json.rs` — `JsonValue`, a JSON document whose objects keep their keys
  in insertion order with no key twice (`JsonMap`), and its mathematical
  value `Json`.
- `src/json_eq.rs` — equality of documents as serde_json has it: objects
  regardless of key order, numbers by value.
- `src/schema.rs` — `sanitize_for_anthropic`, which rewrites a JSON Schema
  into the subset that structured output accepts, and `contains_ref`; both
  are specified by spec functions over `Json`.
- `src/schema_laws.rs` — what holds of the rewriting: it is idempotent, its
  result lies in the accepted subset at every depth, it keeps key order and
  the keywords it does not treat specially, and how `anyOf`/`oneOf` come out.
- `src/output.rs` — `Effort`, `OutputFormat`, `JsonSchemaFormat`,
  `OutputConfig` and `Items`, with the laws of reading effort levels from the
  wire and of overlaying configurations.
- `app/` — serde and schemars around the library: wire forms of the types,
  conversion to and from `serde_json::Value`, and `schema_for`.
