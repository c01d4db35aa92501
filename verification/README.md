# binance_futures_collector

Captures the Binance USDT-M perpetual futures tape to CSV: order books, trades,
klines, liquidations and the REST metrics of every collected symbol.

- `src/` is the library: everything that decides or computes, with its contracts,
  verified by Verus. Times, sockets and files are plain values here: a clock reading
  is an integer, a price is the text that came over the wire or the bit pattern of
  its number, and a function says what is to be done next.
  - `collectors/`: order books and how they attach to a stream, the staged start,
    symbol discovery, REST polls.
  - `websocket/`: connections, ring buffers, what becomes of each message.
  - `rest/`: request budgets, retries, proxies.
  - `utils/`: CSV rows and files, gap history, figures of the running process, time.
- `tests/` runs the library on given values.
- `app/` is the program around it: sockets, HTTP, files, the clock, and floating
  point.

The laws of the library (what a ring buffer, a limiter, an order book or a tape
keeps, whatever happens) are public proof functions next to what they speak of.
