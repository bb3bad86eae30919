# bda

A verified library for a datastore of resources (functions and runtimes)
with a small query language over their JSON form.

- `src/scanner.rs`, `src/parser.rs`, `src/bql.rs`, `src/number.rs`: the query
  language, its values and their order, with exact decimal numbers.
- `src/json.rs`, `src/flatserde.rs`: documents and their flattening into
  field paths and values.
- `src/resource.rs`, `src/decode.rs`, `src/records.rs`, `src/responses.rs`:
  resources, requests and responses and their JSON forms, read and written.
- `src/index.rs`, `src/idset.rs`, `src/kvstore.rs`, `src/datastore.rs`,
  `src/data.rs`: the in-memory store, its inverted index and the rules of
  writing entities.
- `src/backend.rs`, `src/backend/ordered.rs`: an ordered backend of index keys.
- `src/query.rs`, `src/logic.rs`, `src/service.rs`, `src/cli.rs`,
  `src/server.rs`: the queries built from requests, resource defaults and
  identifiers, the datastore service and the command-line commands.
- `app/main.rs`: the command-line program around the library.
- `tests/`: tests run against the compiled library.
