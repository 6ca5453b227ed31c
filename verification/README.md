# cex_engine

A small exchange matching engine whose core is verified with Verus.

* `src/` is the verified library:
  * `types.rs`, `errors.rs` — orders, fills, balances, commands, events and errors.
  * `book_model.rs` — the abstract order book (resting orders by id, a FIFO queue of ids
    per side and price) and the matching model: best price first, front of the queue
    first, each trade at the resting order's price.
  * `order_book.rs` — the order book itself (price levels in `BTreeMap`s, resting orders
    linked by id in a hash map), proved to refine the model: adding, removing, matching
    and depth snapshots.
  * `balance.rs` — the balance book: available and locked funds per user and asset,
    locking for new orders and settling fills and cancellations.
  * `engine_db.rs` — recording fills on maker orders.
  * `symbol_actor.rs` — what the actor of one symbol decides for each command.
  * `routing.rs` — which actor a command goes to, and whether its funds are locked first.
  * `symbol.rs`, `sorted_keys.rs`, `external.rs` — symbol parsing, ordered keys, and the
    ULID and clock readings taken from `ulid` and `chrono`.
  * `laws.rs` — properties that hold across operations.
* `tests/` runs the library on concrete values.
* `app/` is the process around it: the Kafka consumer, the `tokio` actors and channels,
  and the JSON form of commands.
