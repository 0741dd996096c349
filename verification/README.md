# memory_tiles

A memory substrate for agents, written in Verus: each memory is a typed,
timestamped, importance-weighted tile. Tiles live in a capacity-bounded
store, decay when unused, are reinforced when read, are linked in a weighted
graph, can be queried, and are consolidated into dream tiles. The functions
of the library carry contracts that Verus proves; the only unproved code is
the few calls into `std::time` that read the system clock (`src/clock.rs`),
of whose readings nothing is promised.

## Numbers

Importance scores, decay and reinforcement amounts, connection strengths and
memory pressure are fixed-point integers (`i64`), with `UNIT`
(`1_000_000_000`) standing for 1.0. Products of fixed-point values are
rounded toward zero. Embedding vectors are kept as the IEEE-754 bit patterns
of their components (`u64`).

## Layout

- `src/tile_type.rs`, `src/tile.rs`, `src/metadata.rs`: tiles and their kinds.
- `src/store.rs`, `src/order.rs`: the store, eviction, ranking.
- `src/graph.rs`, `src/search.rs`: the connection graph and the strongest-path search.
- `src/query.rs`: filtered, ranked queries.
- `src/consolidator.rs`: the dream phase.
- `src/fixed.rs`, `src/text.rs`, `src/clock.rs`: arithmetic, strings, the wall clock.
- `src/laws.rs`: properties that span several operations, stated and proved.
- `app/`: serde-enabled copies of the types, for (de)serialisation.
- `tests/`: executable tests.
