# Rustilleus

A deterministic, in-memory limit order matching engine whose rules are
proved with Verus, and the HTTP service around it.

- `src/` is the verified library.
  - `domain/` holds orders, trades and the order book. `model.rs` states the
    book as mathematics (price levels best first, orders oldest first) and
    the matching rules over it; `book.rs` implements them and proves every
    operation against that model; `laws.rs` proves the promises the engine
    makes: price-time priority, trades at the maker's price, fill-or-kill,
    immediate-or-cancel, post-only, good-til-cancelled resting,
    cancellation, refusals and best-first snapshots.
  - `application/` runs commands against an engine, publishes an event after
    each success, and proves that an order id is never accepted twice;
    `history.rs` proves what holds of every book reached from a new one.
  - `api.rs` decides what the HTTP API answers: snapshot depth bounds and the
    status, code and message of every refusal.
  - `config.rs` applies defaults to the start-up settings and validates them.
  - The remaining modules are small verified examples (searching, sorting,
    breadth-first search, builders, strategies, error handling) on top of
    `text.rs`, which reads and writes decimal numbers and words.
- `tests/` exercises the library from outside.
- `app/` is the service itself: environment, logging, the Axum router and
  graceful shutdown, plus the lesson examples that need floating point or
  threads.

Every value that the library takes from or hands to the service is a plain
value or a library type; the service only reads, converts and writes.
