# vertex_engine

The matching engine of a crypto exchange, verified with Verus.

- `src/` — the verified library:
  - `book_model` — the mathematical model of an order book and its matching
    rules: an incoming order walks the opposite side from the best price
    while it crosses, trading with the oldest order of another user at each
    level, and a resting-type order then rests with what remains of it. The
    laws proved of it: no self-trade, fill-or-kill and fill-and-kill
    behaviour, fair prices, price priority, time priority, and a book in
    which no bid and ask of different users cross;
  - `orderbook` — the executable price-time priority book, proved against
    the model;
  - `user`, `engine` — accounts with locked funds, and the engine that
    validates, locks, matches and settles orders (releasing the locks of
    orders that leave the book filled) and replays its log; every lock is
    held for a resting order of its owner, settlement conserves funds, and
    replaying a log reproduces the run that wrote it: exactly for a log
    without modifications, and up to the timestamps of the replacement
    orders (which the log does not record) for one with them;
  - `snowflake_id`, `wal`, `grpc`, `redis` — order ids (waiting for the clock
    rather than running ahead of it), log entries and their checksums, the
    command dispatcher with its status replies, and the fields of published
    fills.
- `tests/` — tests of the library on concrete values.
- `app/` — the server around it: gRPC services, the engine task, the log
  file and the Redis publisher.
