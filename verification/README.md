# ethera_sidecar

The sequencer-side coordinator of the Ethera cross-chain protocol, written in
Verus: the public functions of `src/` carry `requires`/`ensures` contracts that
Verus proves (a few private helpers carry none, and the small wrappers around
outside calls are trusted).

A sidecar runs next to a rollup's block builder. It admits cross-chain
transactions (XTs), simulates the local slice of each, exchanges mailbox
messages and votes with its peers, decides commit or abort (or follows the
shared publisher's decision), and hands committed transactions to the builder
in a canonical order.

## Layout

- `src/` — the verified library.
  - `nonce.rs` — reservation of `putInbox` nonces; no two live reservations
    ever share a nonce.
  - `period.rs`, `lifecycle.rs` — publisher periods, votes, decisions,
    confirmation, period rollover and rollback.
  - `admission.rs`, `submission.rs` — submissions, `StartInstance`, forwarded
    XTs, request building and fingerprints.
  - `poll.rs` — the builder's hold/deliver protocol.
  - `simulation.rs` — the local processing loop as a step function (simulate,
    dispatch, wait for dependencies until the CIRC deadline, vote) and the
    state updates of each step.
  - `parser.rs`, `mailbox.rs`, `storage.rs`, `overrides.rs`,
    `abi.rs`, `put_inbox.rs` — local simulation steps, call-trace decoding,
    dependency matching, mailbox storage overrides, `putInbox` calldata, the
    signed `putInbox` transactions and their nonce runs.
  - `decision.rs`, `retention.rs` — standalone vote tallies and the periodic
    cleanup.
  - `config.rs`, `server.rs` — settings and the HTTP request values.
  - `keyed.rs`, `util.rs`, `codec.rs` — tables with distinct keys, sequence
    lemmas, hex/decimal/varint encodings.
- `tests/` — tests run against the compiled library.
- `app/` — the binary: command line, HTTP routes, timers.

Calls into `alloy`, `hex` and `sha2` sit behind small trusted wrappers whose
contracts are stated next to them.
