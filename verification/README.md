# dtschema

Devicetree binding schema tooling, written in Verus: the schema fixups, the
property-type and compatible extraction that build a processed schema set,
the reference checks on bindings, the formatting of diagnostics and their
cache, and the extraction of DTS examples. Every function in `src/` outside
`src/trusted.rs` carries a contract that Verus proves; `src/trusted.rs` holds
the calls into std and outside crates, whose contracts are believed.

Layout:

- `src/` — the verified library.
  - `json`, `jsontext`, `strings`: the JSON value model (objects as key-sorted
    entry lists), its text forms, and string helpers.
  - `fixups`, `subschema`: the fixup pass applied to each binding schema.
  - `types`, `lib_helpers`: property types, matrix dimensions, compatibles.
  - `process`: the processed schema set, its dispatch tables, and reading it
    back from its JSON document.
  - `schema`: a loaded binding and its checks.
  - `diagnostic`, `cache`: error lines, diagnostic records, the cache document.
  - `example`: DTS examples of a binding.
  - `trusted`: the calls into std and into regex, fancy-regex, sha2,
    serde_json and jsonschema, each with the contract it is believed to meet.
- `tests/` — tests of the library on concrete values.
- `app/` — the command-line program: file and directory access, YAML
  loading, meta-schema validation with a file-backed retriever, parallel
  processing, and the subcommands `mk-schema`, `doc-validate` and
  `extract-example`.

The laws the library states (map reads after writes, sortedness of generated
sets, round trips of path rewriting, of the diagnostics cache and of the
processed schema set) are public proof functions next to the functions they
speak of.
