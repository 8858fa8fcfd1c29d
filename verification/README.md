# clob_api

A central limit order book: traders submit signed limit orders, the engine
matches them by price and time, every change is an event in one log, and the log
is enough to rebuild everything else.

The library under `src/` is written in Verus. What each function does is stated
in its `requires` and `ensures`, and proved.

## Layout

| Path                   | What it holds                                                              |
|------------------------|----------------------------------------------------------------------------|
| `src/ordmap.rs`        | a map kept sorted by key, over which all other state is built              |
| `src/keys.rs`          | the keys of these maps: strings, hashes, prices, pairs                     |
| `src/bytes.rs`, `text.rs` | byte order, big-endian encodings, decimal notation                      |
| `src/crypto.rs`        | digests, signatures, hexadecimal notation, random ids                      |
| `src/clock.rs`         | where the time comes from                                                  |
| `src/domain/`          | markets, orders, fills; the canonical encoding that traders sign           |
| `src/events.rs`        | the events of the log                                                      |
| `src/sequencer.rs`     | the log, its numbers, and the submissions that were accepted               |
| `src/db.rs`            | filled quantities, cancel marks, nonces, balances, and their checksum      |
| `src/engine/orderbook.rs` | the book of one market                                                  |
| `src/engine/matching.rs`  | price-time matching with self-trade prevention                          |
| `src/engine/mod.rs`    | intake, cancels, queries and recovery                                      |
| `src/engine/model.rs`  | what an engine holds, and what each operation makes of it                  |
| `src/replay.rs`        | rebuilding books and state from a log                                      |
| `src/snapshot.rs`      | snapshots of a log with a checksum                                         |
| `src/risk.rs`          | rate limit, size limit and price band                                      |
| `src/ops/admin.rs`     | pausing, resuming, cancelling everything                                   |
| `src/api/`             | answers to requests, and the feed                                          |
| `src/cli.rs`           | key files and signed orders                                                |
| `tests/`               | tests of the library from outside                                          |
| `app/`                 | the `clob` program: HTTP and WebSocket routes, Postgres, files, commands   |

## What is proved beyond single functions

- `src/engine/laws.rs`: a match run conserves quantity, never fills an order with
  one of its own trader, and leaves orders of that trader as they are.
- `src/engine/tidy.rs`: a book stays tidy, fills are at the resting price within
  the taker's limit, priority goes by price and then by time, and a book never
  crosses.
- `src/engine/books.rs`: however a book was built, its queues hold its open orders
  and nothing else, the listed prices are theirs, and the best price heads them.
- `src/engine/intake.rs`: a rejected submission is put into the log and changes
  nothing else, a repeated one gets the result of its intake again, nonces only
  grow, what a trader signed is accepted at most once, closed orders are kept as
  they are, and every change is in the log.
- `src/engine/markets.rs`: every market is listed once, with its latest
  configuration.
- `src/engine/recovery.rs`: replaying the log of an engine gives its state and its
  orders back, open and closed; a restored engine admits, rejects and matches as
  the first one would have, repeats its answers, and finds the same orders to
  cancel.
- `src/engine/runs.rs`: this and that no book is crossed holds of every engine,
  whatever was called on it.
- `src/domain/order.rs`: the canonical encoding is unambiguous.

Quantities, prices and sequence numbers are 64 bits wide. Where a sum could go
beyond that, a function asks for it in `requires`, and a `try_` function beside it
finds out first.

## Trust

Digests, signatures, random ids, the system time and a few functions of the
standard library are called through small wrappers whose contracts are taken on
trust; each says so in its doc comment.
