# Hiway

Typed event streams with scoped authority, bounded retention, and explicit
backpressure, verified with Verus.

Event contracts are static; membership and links are dynamic. Publication
succeeds at local admission. Receivers get data or gaps: observers may lose
retained data, and required receivers prevent overwriting data they still need
until receipt, detachment, revocation, or stream closure.

## Layout

`src/` is the library. Every function in it is verified; calls into other crates
stand behind small wrappers whose contracts are stated with them.

- `event`, `item`, `error`, `text`: identities, declarations, what receivers
  get, and failures with their wording.
- `grant`, `allowance`, `ledger`: limits, rights, and the tree of grants that
  accounts for every charge. `ledger_model` says what a ledger is, and
  `ledger_laws`, `derive_laws`, `grant_laws`, and `revocation_laws` what always
  holds of it.
- `fabric`, `endpoint`: a scope of retained streams with its senders and
  receivers. `fabric_model` says what a fabric is; `fabric_steps`,
  `fabric_laws`, and `stream_laws` what always holds of it.
- `payload`: how one fabric carries payloads of several types.
- `reserve`: requests for room that the machine may refuse.
- `static_core`, `static_stream`, `static_laws`: a bounded stream in
  caller-owned storage, shared between threads. `guarded` is its lock.
- `port`, `transform`, `link`: traits that applications implement or compose.
- `bytes`, `metadata`, `wire`, `schema`, `schema_laws`: what travels between
  fabrics, and how it may evolve.
- `ipc`, `unix_import`, `unix_export`, `unix_link`: links between authorized
  endpoints, as machines that say which socket to poll next. `import_schedule`
  and `export_schedule` say what holds of them over any order of socket
  readiness, and `link_charge_laws` what they hold of their grants.
- `broker`, `broker_laws`, `daemon`: routing for clients that hold no authority.
  `delivery` records the calls of a callback.

`app/` is ordinary Rust around it: the `hiwayd` daemon, and asynchronous
handles, futures, and Tokio sockets for programs that embed the library.
`tests/` runs the library from outside.

A fabric is changed through `&mut`, by one caller at a time; sharing it between
tasks is what `app/scope.rs` does with a lock. Operations that wait come in
steps: the first attempt says that it waits, and the caller makes the next one
when the fabric signals a change.

## License

MIT.
