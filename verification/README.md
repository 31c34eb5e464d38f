# star_toml

Loading, layering, validating and admitting TOML configuration, with the
library's behaviour stated in `requires`/`ensures` contracts and proved by
Verus.

## Layout

- `src/` — the verified library.
  - `value`, `text`, `lexical`, `order`, `scan`: the TOML tree and its
    model, text utilities, key ordering, line scanning.
  - `toml_io`, `digest`: the `toml` parser/serializer and BLAKE3 behind
    trusted wrappers; FNV-1a and UTF-8 encoding, verified.
  - `merge`, `merge_laws`: recursive and traced merges, dotted keys,
    environment value coercion, and their laws.
  - `env`: `${VAR}` expansion over an environment snapshot.
  - `loader`: layers, the configuration typestate
    (raw → merged → deserialized → validated → frozen), bounded loading with
    provenance, environment overrides.
  - `validation`, `schema`: the validator, error reports, fitness and
    fingerprints; runtime schemas.
  - `path`: path policies and their witnesses.
  - `canonical`, `witness`, `admission`: canonical trees, unknown-field
    detection, the admission witness, admitted and trusted configurations.
  - `ratio`: the six-decimal text of a fitness ratio, computed in integers
    exactly as the floating-point quotient would print.
  - `events`, `ocel`, `reports`: lifecycle events, their object-centric log,
    provenance reports.
  - `lsp`: the editor analysis — diagnostics, hover, completion, outline,
    quick fixes, the ANDON signal, telemetry records, open documents.
  - `laws`, `load_laws`: properties of the library as a whole.
- `tests/` — tests of the library on concrete values.
- `app/` — the program around it: reading files and the environment,
  writing reports and the ANDON file, serde conversions, the counterexample
  report runner and a one-file analysis command.
