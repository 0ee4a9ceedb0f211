# bookworm

Aggregates the order books of two exchanges (Binance and Bitstamp) into one
book of the best levels, and streams it to gRPC clients.

The library (`src/`) holds the logic, verified with Verus:

- `decimal`: price texts in the standard floating-point grammar, and their
  exact order by value.
- `json`, `book_json`: the JSON reading of order book messages, as `serde_json`
  reads them: the whole record, or only the first levels of `bids` and `asks`.
- `data_handler`: `get_top_n` and `get_top_n_bids_asks_raw`; `reader_laws`
  proves that the two agree where both succeed, and `ladder_tail` that the
  elements of a ladder after the first `n` do not change the partial reading.
- `binance`, `bitstamp`, `feed`: the messages of each exchange, and what a feed
  does with each websocket event.
- `book_worker`, `merge_laws`: the merge of the two books into the best `top_n`
  levels, and what it guarantees.
- `bookworker`: a pool that keeps the highest bids and the lowest asks of both
  books.
- `summary_manager`: the clients that receive the merged book.
- `data_tunnel`, `databus`, `data_types`, `price_level`: channels and types.

The program (`app/`) runs the websocket connections, the merging loop and the
gRPC server around the library. It writes each price it receives as the
shortest text of its `f64` value before handing it to the merge, so that the
library's exact order of price texts is the order of the `f64` values.
