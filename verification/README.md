# jsonrpsee_uds

Verified framing of JSON-RPC requests read from a Unix domain socket.

A request is either netstring-framed (`size:data,`) or newline-delimited.

- `src/netstring.rs`: the netstring size prefix (`decode_netstring_size`) and
  the decimal numerals it reads.
- `src/body.rs`: the decisions of a read: the plan after a first peek, the
  check of a netstring body, the check of a line, and `read_body_from_slice`,
  which makes them all on a stream held in memory.
- `src/laws.rs`: what holds of every read (requests read back as framed,
  limits enforced, bodies classified by their first byte).
- `src/error.rs`: `UnixError`.
- `app/lib.rs`: the async `read_body` over a tokio stream, which performs the
  reads and asks the library at each step.
