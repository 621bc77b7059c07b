# latios-lob

A limit order book with price-time matching, verified with Verus.

## Layout

- `src/types.rs` — orders, sides, trades, results.
- `src/price_level.rs` — one price level: a queue of orders and its running total.
- `src/level_order.rs` — `==` and `<` on price levels, by price.
- `src/model.rs` — the mathematical model: a book as two sequences of levels in
  ascending price order plus the trades, and what adding, cancelling and matching
  do to it (`book_add`, `book_cancel`, `book_match`).
- `src/lemmas.rs` — facts about the model, seen price by price.
- `src/order_index.rs` — the index from order id to price, queue position and side
  (position and side packed into 32 bits), kept in an `ahash::AHashMap`.
- `src/book_invariant.rs` — the invariant tying the index to the book, and its proofs.
- `src/order_book.rs` — the book itself; each operation is proved to do what the model says.
- `src/laws.rs` — properties of the library as a whole: best prices, one level per price,
  duplicate ids refused, cancel undoing add, first-come first-served queues, what matching
  trades and answers, each maker losing exactly what it trades, order counts, the trade log
  over any run of calls, and an uncrossed book staying uncrossed.
- `src/arena.rs` — a bump arena over `bumpalo`.
- `src/stats.rs`, `src/workload.rs` — percentiles, means and the workload of the
  profiling harness.
- `app/main.rs` — the profiling harness (`clap`, `mimalloc`, timing and printing).

## Queues

Each price level is a first-in, first-out queue: a new order joins the back, matching
serves the front, and an order that leaves (filled or cancelled) lets the orders behind
it move up one place, keeping their arrival order; their index entries follow them.

## Limits

The index keeps 31 bits of a queue position, so a level holds fewer than 2^31 orders.
`add_order` answers `Rejected` and leaves the book unchanged when the id already rests in
the book or the level is full; a level's total quantity must fit `u64`. `can_rest` tests
all of this.
