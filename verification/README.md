# wasmcp_cue

Tooling for MCP tool servers whose tool schemas are written in CUE and
exported as JSON Schema: the generation of WIT from JSON Schema that gives the
components their interfaces, the rewriting of JSON member names between the
camel case of the schemas and the snake case of the component types, the
lookup of named schemas through their `$ref` aliases, and the tool listings
and call results the servers answer with.

The library under `src/` is verified: each public function states
its result over a mathematical model of its inputs, and the properties that
span several calls stand as proof functions.

- `json.rs`: the JSON value type and its model.
- `text.rs`: case conversion of names and the string operations used below.
- `wit.rs`: the WIT package for one input and output schema, or of a set of
  tools over an all-schemas document.
- `keys.rs`: snake-case member names, their remapping to schema property
  names, and the inlining of definitions that only alias a primitive type.
- `pointer.rs`: percent decoding, reference names and JSON Pointers.
- `registry.rs`: the named schemas of a document and the lookup through
  `$ref` aliases.
- `mcp.rs`, `template.rs`, `component.rs`, `component_pet.rs`: tool listings,
  call handling and the example tools.
- `build_common.rs`: the tool bindings read from an exported tool table.

`app/` holds what the library leaves to ordinary Rust: file and process I/O,
`serde` conversions, and the server glue. `tests/` exercises the library.
