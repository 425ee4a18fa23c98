# cougr_core

An entity-component-system toolkit for Soroban games, written in Verus.
The library's data structures and rules carry contracts that Verus proves;
the host side (contract storage, events, authorization, signature checks,
running systems) lives in `app/`.

## Layout

- `src/` — the verified library
  - `simple_world`, `archetype_world`, `query`, `commands`,
    `change_tracker`, `observers`, `hooks`, `scheduler`, `plugin`: worlds,
    queries, deferred commands and the pieces a game is assembled from;
  - `incremental`: per-entity persistence — which entries a flush writes,
    the storage layout, and what storage holds after a flush;
  - `debug`: summaries, metrics and snapshot diffs of a world;
  - `accounts`: session keys, batches, devices, passkeys and social
    recovery;
  - `zk`: proof and key types, circuit inputs and Merkle inclusion checks;
  - `symbol`, `ids`, `id_map`, `pair_map`, `bytes`, `seq_util`: values
    and collections the rest is built on;
  - `host`: the few host services the library calls (SHA-256, ledger
    time), with the contracts they are trusted to meet.
- `app/` — host I/O around the library: loading and flushing storage,
  publishing debug events, classic-account authorization, secp256r1
  checks, running systems, and the stored forms of the library's records.
- `tests/` — tests of the library on concrete values.

Laws of the library are public proof functions named `law_*`.
