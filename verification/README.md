# cold_state

Tracks in which period each account and storage slot was last written, finds the maximal subtrees of
the state tries whose leaves have all been inactive for long enough, and moves the nodes of such
subtrees into an append-only cold file, leaving a small stub behind.

- `src/` is the library. Every function states in its contract what it returns or changes, and Verus
  proves it; the calls into other crates stand in `outside.rs`, with what is taken for granted of them.
- `tests/` runs the library on concrete values.
- `app/` holds the commands: arguments, files, the network, and traits for the node's database.

The modules, by subject:

- nibble paths, keys and nodes: `nibbles`, `nibble_map`, `key_order`, `trie_node`, `primitives`,
  `be_bytes`, `text`
- periods and records of last writes: `periods`, `period_index`, `inject`, `inject_laws`,
  `file_source`, `clickhouse_source`
- finding inactive subtrees: `identifier`, `walk`, `identify`, and the laws in `identify_laws`,
  `run_laws`, `maximal_laws`, `leaf_laws`, `report_laws`, `path_laws`, `scope_laws`,
  `age_laws`
- the cold file: `cold_format`, `cold_file`, `cold_stub`, and the laws in `cold_laws`
- conversion: `capture`, `row_range`, `convert`, and the laws in `subtree_laws`,
  `convert_laws` and `stub_laws`
- what the commands check: `run_config`, `identify_inactive`, `convert_inactive`, `inject_periods`,
  `inspect_periods`
