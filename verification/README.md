# redis_streams

Redis Streams as a transport, verified with Verus: one entry is one Stream, the
key and id beside it. A Location appends with XADD or reads on from its cursor,
or accepts clients directly. RESP2.

## Layout

- `src/` is the library. It is verified, but for four calls of the standard
  library in `text`, whose contracts are trusted: `String::from_utf8_lossy`, the
  `{:?}` form of a `str` and of a `char`, and `String::push`.
  - `resp` writes and reads RESP values; `framing` proves that what is written is
    what is read, in whatever pieces it arrives.
  - `connection` holds one connection's bytes, both ways, without the socket.
  - `client` and `session` are the two ends of a connection.
  - `location` is a server, a stream, and how far it has been read.
  - `reading` and `exchange` prove what holds of both ends together: a payload
    goes round whole, and a cursor reads every entry once.
  - `arrived`, `decimal`, `error`, `message` and `text` are what these rest on.
- `tests/` runs the library: bytes carried by hand from one end to the other.
- `app/` is the TCP around it.
