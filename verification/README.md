# omniscient

The verified core of the Omniscient prediction-market backend, written in Verus.

* `src/` — the library, every function verified against its contract:
  order book and matcher (`book`, `engine`, `rebuild`), fees (`fees`), identifiers and
  hex text (`ids`, `hexcodec`, `text`, `types`), signed orders and EIP-712 hashing
  (`order`, `crypto`), the gateway's order service (`service`, `config`), the indexer's
  event decoding, scan window and finality (`abi`, `words`, `events`, `pipeline`,
  `finality`), settlement batching (`settlement`) and market resolution (`resolution`).
  Calls into `alloy-primitives`, `hex`, `serde_json`, `uuid` and `chrono` go through
  small trusted wrappers whose contracts state what those crates document.
* `tests/` — tests of the library on concrete values.
* `app/` — the four services (`gateway`, `indexer`, `settlement`, `resolution`): HTTP,
  WebSocket, Postgres, Redpanda and chain RPC around the library.
