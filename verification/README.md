# group_hash

Hash aggregation over arrow columns, verified with Verus.

An aggregation takes in batches. A store of group keys gives each distinct key an index, in the
order in which the keys first come. The accumulators, one for each aggregate, are told the index of
each row and keep the state of all groups. At the end of the input, or earlier where its order
allows, the keys and what the accumulators make of them go out as record batches of a bounded
number of rows.

- `src/grouping.rs`: what groups and group indices are.
- `src/group_values.rs`: the store of group keys, on the row format of arrow (`src/rows.rs`) and a
  hash table (`src/table.rs`).
- `src/stream.rs`: the aggregation as a whole. It does no input or output of its own: `next_action`
  says what to do next, and `handle_input` takes in what came of it.
- `src/trace.rs`: what an aggregation does, as the calls that it makes of its accumulators, its
  ordering and its memory reservation.
- `src/laws.rs`, `src/answers.rs`, `src/output.rs`, `src/polling.rs`: what holds from the first batch
  to the last row of output.
- `src/columns.rs`, `src/data_type.rs`: the columns, batches and data types of arrow.
- `src/limits.rs`, `src/encoding.rs`: what the offsets and dictionary keys of columns, and the row
  format, have room for.
- `src/accumulator.rs`, `src/ordering.rs`, `src/reservation.rs`: what an aggregation is given.
- `app/lib.rs`: the aggregation as a stream of record batches.

What arrow, ahash and hashbrown do is taken from their sources. The functions marked
`external_body` hold the calls, and their contracts say what is taken to be true of them.

Rows are hashed by ahash in row format, a row at a time, and the accounts of the table and of the
vectors are kept by a few lines in `src/table.rs` and `src/memory.rs`: no other crate has a part in
either.

`chrono` is named in `Cargo.toml` only to hold it to a release that arrow 43 builds with.
