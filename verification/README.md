# earshot

A subscriber for the Robinhood chain sequencer feed.

The sequencer broadcasts every message it orders over a websocket relay, in
Arbitrum Nitro's feed format, at the moment of ordering. `earshot` reads that
broadcast: it walks the frames down to the signed transactions, merges any
number of relays into one ordered stream without duplicates, and keeps the
connections underneath up.

* `src/` is the library: everything that is decided or computed, written in
  Verus with contracts. It opens no socket and reads no clock.
* `app/` is the client around it: sockets, TLS, timers, JSON and tasks.
* `tests/` runs the library on concrete values.

## Where to look

| What | Where |
|------|-------|
| Transactions decode from their canonical encoding and, authorizations whose parity is written as neither 0 nor 1 aside, from nothing else | `src/canonical.rs` |
| The merged stream is ordered, free of repeats, and accounts for every gap; a gap gets its grace, and nothing taken in is lost | `src/stream.rs` |
| An endpoint is timed once per message, on its first copy | `src/timing.rs` |
| A batch comes out entry by entry, whichever of them fail | `src/feed.rs` |
| How close the reported percentiles are to the samples | `src/histogram.rs`, `src/endpoint.rs` |
| When a lost connection is dialled again | `src/conn.rs` |

What is taken on trust is marked `#[verifier::external_body]` or
`assume_specification`: of other crates hexadecimal (`src/hex.rs`), base64
(`src/b64.rs`), Keccak (`src/keccak.rs`) and secp256k1 key recovery
(`src/recover.rs`), and of the standard library how text is written to a
formatter (`src/output.rs`) and becomes a `String` (`src/endpoint.rs`).
