# swindon chat

The chat part of a websocket server, verified with Verus.

- `src/` is the library. Session pools (`pool`, driven by `processor`)
  keep connections, sessions, topic subscriptions and lattices (CRDT data
  in `lattice`, its JSON form in `lattice_json`). The HTTP routes of the
  backend API are parsed in `handler` and `codec`; websocket requests are
  checked in `message` and `dispatcher`; the requests made to backends and
  their answers are in `authorize` and `backend`; what is sent to clients is
  laid out in `frame`. `replication` covers the messages between servers,
  `pools` the configured session pools, `source_ip` the source-address
  check. `pool_laws` states what the pool operations promise together.
- `app/` holds what Verus does not see: the conversions between `serde_json`
  values and the library's JSON values, the JSON texts of frames and
  requests, and the thread that feeds events and the clock to the
  processor.
- `tests/` runs the library on concrete values.
