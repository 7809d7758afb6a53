# neo4j-schema

Introspects a Neo4j database and prints a readable schema: labels and
relationship types with their properties, types and sampled values, and the
edge patterns that connect them.

- `src/` is the library. It is verified with Verus: what the rows of the schema
  procedures amount to, which queries to ask, what the answers mean, and how the
  schema is written down.
- `app/` is the command-line tool around it: arguments, connection, running the
  queries concurrently, printing.
- `tests/` runs the library on concrete schemas.

## Options

| Flag | Meaning |
|---|---|
| `--uri`, `--user`, `--password`, `--database` | where to connect; the password can come from `NEO4J_PASSWORD` |
| `--no-examples` | print types only, without asking for values |
| `--most-specific` | document properties under the last label of a node only |
| `--nodes A:B` | look at these labels only; edges need both ends among them |
| `--rels X:Y` | look at these relationship types only |

## What is trusted

The set of types of a property is an `indexmap::IndexSet`, joined with
`itertools`; sampled values are written by `serde_json`. `src/type_set.rs` and
`src/json.rs` state what the library relies on there.
