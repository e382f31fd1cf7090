# qmind_sql

The SQL layer of an embedded relational engine, written in Verus: every
function of the library carries a contract that Verus proves.

- `src/codec.rs` — SQL values, the row byte codec and row keys.
- `src/order.rs` — the orders on values, texts and byte strings.
- `src/parser.rs` — tokenizer and recursive-descent parser, with the
  grammar as spec functions.
- `src/engine.rs` — expression evaluation (three-valued logic), labels,
  conjunct handling, index keys, aggregates of a projection.
- `src/executor.rs` — row-at-a-time operators (scan, filter, project,
  limit, hash join, hash aggregate).
- `src/batch.rs`, `src/batch_ops.rs`, `src/result_stream.rs` — column
  batches, the batch operators and streamed results.
- `src/query.rs` — SELECT, joins, grouping and INSERT over rows read from
  storage, in both executors.
- `src/parity.rs` — the two executors agree.
- `src/session.rs` — the transaction discipline of a session.
- `src/catalog.rs` — the catalog that recovery rebuilds from the log.
- `src/dbdir.rs` — the versioned database metadata.

`app/` holds the file-system side of the database directory and the
`Display` / `Iterator` adapters; `tests/` runs the library on concrete
inputs.
