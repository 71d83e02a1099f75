# staked_tokens_tracker

A verified library for a substreams package that tracks the staked tokens of
indexers of The Graph. Each time an allocation closes, the indexer's staked
tokens are snapshotted together with the running totals of its own stake,
query fees and indexing rewards.

Layout:

- `src/amount.rs`: signed big amounts (two's complement bytes), their decimal
  text, parsing, addition, and decimal formatting of machine integers.
- `src/text.rs`: lower-case hexadecimal encoding and decoding, lower-casing.
- `src/filter.rs`: the indexer parameter ("*" or a JSON array of indexers).
- `src/chain.rs`: the part of a block the modules read (transactions, logs,
  decoded staking events).
- `src/records.rs`: the records the modules exchange, with their views.
- `src/shapes.rs`: the shape of the records made of well-formed blocks
  (hexadecimal widths, unsigned amounts, withdrawals as negated events).
- `src/maps.rs`: the map modules (query fees, indexing rewards, stake
  deposits and withdrawals, closed allocations).
- `src/stores.rs`: what the store modules add to the per-indexer totals.
- `src/sink.rs`: staked-token snapshots, their database rows and the
  database changes of `db_out`.
- `src/tables.rs`: the rows turned into database changes through the sink's
  table builder.
- `src/laws.rs`: laws across modules (filtering, net stake, withdrawal-only
  totals, lower-cased store keys).
- `src/module_laws.rs`: laws of single modules (transactions and logs that
  cannot contribute, listed filters against "*", order of the stake inputs,
  merging closed allocations).
- `app/`: the substreams handlers around the library (runtime I/O, RPC
  calls, stores, protobuf messages, log decoding).
