# open_match_rs

The resting-order side of a limit order book, written in Verus.

- `src/arena_list.rs`: a doubly linked first-in, first-out list whose nodes
  live in an arena of slots; released slots are reused before the arena
  grows.
- `src/order_book/price_level/`: `PriceLevelQueue`, the queue of orders at
  one price, indexed by order id, with insert, removal, head fills, partial
  fills and quantity updates.
- `src/collection.rs`: `OrderNodeLinkedList`, the same arena list over full
  orders.
- `src/order_book/order.rs`: orders and the `OrderBook` that groups them by
  side and price in `dashmap` maps.
- `src/time/`: the `TimeSource` trait and a source backed by `quanta`.
- `src/domain/`: requests, results and errors.

Each operation's contract states its effect on the abstract sequence of
orders; the laws (price-time priority, removal undoing insertion, mirrored
links, node recycling) are proof functions next to the types they concern.
