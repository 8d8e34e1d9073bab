# camau

Assessment, compilation, rendering and stepwise execution of JSON workflow routing
specifications, verified with Verus.

- `src/` is the verified library:
  - `json_value`, `json_pointer`, `json_parsing`: JSON values (objects as ordered, uniquely
    keyed member lists; numbers as `i64` or binary64 bit patterns) and JSON Pointers.
  - `json_parser`: what parsing reports besides the value — repeated keys, the class of a
    parse failure — and the assessment of a parsed specification.
  - `graph`: structural and semantic assessment (identifiers, references, roles, flows, gate
    overlaps, reachability, cycles, activity), graph algorithms, and compilation; `graph::clean`
    proves that a specification with no issues compiles.
  - `execution`: the execution state machine; tasks are handed out as requests with tickets,
    their results fed back; randomised gates ask the caller for a route.
  - `diagram`: the Markdown document with a Mermaid flowchart of a compiled graph.
  - `diagnostics`: issues, canonical reports and their text, JUnit and GitHub renderings.
- `app/` holds the Python extension module and the `camau` command: reading files, the
  serde_json parse into library values, floating-point weights and route sampling, and the
  Python classes.
- `tests/` exercises the library on concrete specifications.

JSON objects and node maps are kept as `Vec`s of key–value pairs (`insert_member` keeps keys
unique and in first-insertion order), not as `indexmap::IndexMap`: Verus refused the
declaration of `IndexMap` as an outside type, because its type parameters do not match those
of its impls.
