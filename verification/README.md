# kv_server

A key/value store served over gRPC.

- `src/` is the verified library:
  - `store/order.rs`: the order of keys (byte-wise, as `String`s compare) and its laws.
  - `store/table.rs`: `SortedTable`, the ordered table of the store, with get,
    insert, remove and range scans proved against a `Map` view.
  - `store/text.rs`: lines and words of text, as the log file is read.
  - `store/engine/log.rs`: the log format (`T K V` per line), `Log`, and the
    laws of replaying a log.
  - `store/engine/mod.rs`: `Kvdb`, the engine, recovery from a log, and the
    law that a reopened store holds what the store held.
  - `store/mod.rs`: the `Engine` interface and the read/write laws.
  - `protos.rs`, `server.rs`, `client.rs`: the service's messages, request
    handlers and response handling.
- `app/` is the gRPC plumbing: wire encoding of the messages, the servers,
  the client, file I/O for the log, and the program's `main`.
- `tests/` runs the library on concrete values.
