# rusty_markets

Combines the order books of several cryptocurrency exchanges and prints the
best asks and bids, with the spread, whenever they change.

- `src/` is the library, verified with Verus:
  - `algorithm::k_min_tree`: a tournament tree that keeps the `k` smallest
    values of the union of its leaves, and the merge it is built on;
    `algorithm::order`: total preorders and the "k smallest of a pool" relation.
  - `lsl::slice`: a stable descending sort.
  - `market`: decimals, asks, bids and order books, their order, and the
    numbering of parsed orders; `display`: the book as it is shown.
  - `network`: spans of time, the exponential backoff, the reconnection
    decisions of the websocket, and the expiry of stale books.
- `app/` is the program around it: configuration, JSON decoding and encoding,
  websocket I/O, tasks and timers.
- `tests/` exercise the library.

Run `rusty_markets <config.json>`; `rusty_markets --sample-config` prints a
sample configuration.
