# ZeroTick

A store for time-ordered price ticks, written in Rust and verified with Verus.

Ticks arrive in batches over TCP, are compressed into frames of up to a thousand ticks
(changes of the time step, and the bits in which a price differs from the one before it)
and appended to one file per symbol. A write that is cut short is repaired at the next
start. Queries pick the frames they need from an index in memory and compute running
statistics in one pass. A feed, a terminal dashboard and a page for browsers go with it.

Prices are kept as the bit patterns of IEEE 754 doubles. The library compares them as
numbers, but leaves arithmetic on them to the program around it.

## Layout

`src/` is the verified library:

| Module | What it holds |
| --- | --- |
| `bits`, `gorilla`, `le` | bit sequences, the variable-length codes, little-endian numbers |
| `compression` | frames: headers, compression, decompression |
| `storage`, `worker` | partition files: repair, scan, index, appending a batch |
| `durability` | what holds of a partition file as a whole |
| `engine`, `price` | queries, running statistics, the order of prices |
| `query_laws` | what a query reads of what was stored |
| `protocol`, `network`, `web` | records, the server's side of a connection, pages |
| `client_ingest` | the feed |
| `client_tui`, `dashboard`, `charts`, `terminal` | the terminal client |
| `chaos` | the self-test of the repair |
| `text`, `error` | text helpers, errors |

Functions whose names start with `law_` are proved and state what holds of several
functions at once, such as that every stored tick is read back bit by bit.

`app/` is the program: files, sockets, threads, clocks and floating-point arithmetic.
`tests/` runs the library on concrete values.
