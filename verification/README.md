# matching_engine

A price-time priority order-matching engine with pre-trade risk checks and a
write-ahead log, together with the pieces of an execution node around it: a
transaction decoder with secp256k1 signature recovery, a state journal, a
256-bit stack machine for contract bytecode and a small register machine.

The library in `src/` is written in Verus; every function carries a contract
and is verified.

- `types`, `book`, `engine`, `risk`, `registry`: orders, the book (levels
  kept sorted by price, FIFO queues per level), matching with self-trade
  prevention, order types and time in force, risk limits (ratios in basis
  points), one engine per symbol.
- `wal`, `recovery`, `pipeline`: the 80-byte event slot format and its
  checksum, reading a log back, replaying it onto an engine, planning file
  growth, and a bounded ring buffer.
- `decoder`, `signature`, `journal`: the transaction wire format, sender
  recovery, and the storage/account journal.
- `word`, `opcodes`, `state`, `interpreter`: the stack machine; `evm_run`
  states what a run does and `execute` is proved to do it.
- `svm`: the register machine; `svm_run` states what a run does.
- `properties`: results about all inputs — matching never trades through
  the limit, conserves quantity and keeps price-time priority (asks from the
  lowest up for a bid, bids from the highest down for an ask); a rejected
  order, fill-or-kill and post-only included, leaves no trace; cancelling an
  order just inserted restores the book; expiry removes exactly the day
  orders; a log reads back the events written to it.

Calls into `primitive-types`, `sha2` and `secp256k1` go through small trusted
wrappers whose contracts state what those crates compute.

`app/` holds what the library leaves out: the command-line programs, files
and memory maps, SQLite, threads, and floating-point views of prices and risk
limits.
