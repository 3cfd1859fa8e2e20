# cynic_querygen

The rules by which GraphQL query documents are turned into the Rust
structs that query them with `cynic`, proved in Verus: reading a query
into a graph of fragments, rewriting that graph, and building the
fragment structs, enums, input objects and variables that the generated
code declares, with their names, casing and types. Writing the finished
items out as Rust text is not part of this library.

The library (`src/`) holds:

- `document`, `executable`: the parsed schema and query documents.
- `graph`: values paired with the types they are read at and the Rust
  literals they are written as (`typed_value`), schema types with their
  wrappers (`types`), and the query graph that a document is read into
  (`query_graph`, a `petgraph` stable graph, and `builder`), and the
  fragments of that graph as subjects that ask for a name (`fragments`).
- `ingest`: root types, field lookup and the decisions on how a selection
  set is split into query fragments and inline fragments.
- `transforms`: rewrites of the query graph: the groups of equal fragments
  and their merging, the lifting of a fragment that only spreads another,
  and the pruning of leaf fields that nothing selects.
- `fragment_structs`: the query fragment structs and inline fragment enums
  generated for the fragments of a graph, one field per selection.
- `inputs`, `leaf_types`, `variables`, `processing`: the input objects,
  enums, scalars and variables structs that a query needs.
- `output`, `type_spec`, `casing`, `naming`, `coordinate`, `maps`,
  `wrappers`, `text`: Rust types and names, casing, schema coordinates,
  the generator's option maps, and the calls into `std` that the rest uses.

`app/` gives the library's error types the standard error traits.
