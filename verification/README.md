# visualize_java

Reads the sources of a Java project and builds its abstraction graph: one
node per type (class, interface, enum, annotation type), with inheritance,
implementation and association edges between them.

The library under `src/` is written in Verus and verified:

- `parser/` — the lexer (specified against a character-level lexical
  grammar) and a recursive-descent parser for the Java subset the tool reads;
- `name_resolution/` — the project index (packages, types, visibility), the
  scope a file sees (Java's lookup order: same file, single-type imports,
  same package, wildcard imports) and the resolver that turns every name into
  a fully qualified one;
- `abstraction_graph/` — the graph built from the resolved types, and the
  flattened per-package view of a project;
- `wasm_api.rs` — the builder that accumulates files and produces a graph;
- `path_rules.rs` — which uploaded paths may name a file inside the upload
  directory.

Laws that hold across functions are public proof functions named `law_*`.

`app/` holds what stays outside verification: the HTTP server and its
handlers, directory walking and file reading, the browser bindings, and the
serialisable copies of the graph types. `tests/` exercises the library on
concrete projects.

Maps keyed by qualified names (the scope, the exports of a type, the
package index, the project and the graph) are kept as vectors of pairs with
distinct keys, and specified through map views. Their keys are structs with
derived `Eq` and `Hash`. vstd's specification of `HashMap` and `HashSet`
describes their contents only for keys that obey its key model, which it
grants to primitive types and boxes of them; for any other key type that
fact has to be assumed, and this crate assumes nothing. A vector whose
contents Verus can read, with the distinctness of its keys as an invariant,
takes the map's place.
