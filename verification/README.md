# BIT:E

A key-value database with subscriptions, served over TCP. Clients send
commands (`s key value`, `g key`, `#g key`, ...) in messages of a small binary
protocol (a 6-byte header: client id, message id and size); subscribers of a
key, and of its parent keys, are told each new value.

The library in `src/` is written in Verus, and its contracts are proved:

- `protocol`, `message`, `reader`, `writer`, `connection`: framing, the
  message buffer, what each read or write leads to, and the send queues.
- `parser`, `cursor`, `text`: parsing a command and routing it.
- `data`, `store`, `keys`, `numbers`, `json`, `tree`: the ordered key-value store, what
  each command does to it, and its JSON replies.
- `subs`, `cleaner`, `heartbeat`, `db`: subscriptions, client ids, idle
  connections and saving the data.
- `parse`, `msg`, `frame`, `conn`, `map`: a line-based form of the protocol.
- `server`, `line_server`: a text server and a line server with their own
  parsers, maps and subscriptions.

Each module states its laws as public proof functions (`law_...`).

`app/` holds the programs: the sockets, threads and files around the library.
