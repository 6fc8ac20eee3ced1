# ah4c-stream

A stall-tolerant relay for MPEG transport streams: it reads a stream over HTTP,
cuts it into packets and writes them to its output. When the source falls silent
it pads the output with NULL packets and reconnects; when the source stays silent
for 15 seconds it ends.

- `src/` is the library: every decision of the relay, with contracts that Verus
  proves.
  - `packet`, `framing`, `disc`, `ts`: the layout of a packet, how bytes are cut
    into packets, where a discontinuity is announced, and the processor that does
    both.
  - `producer`, `consumer`: the reading and the writing side as state machines.
    Each asks for one thing at a time and is told how it went.
  - `http`, `text`: URLs, the request, and which answers are accepted.
  - `clock`, `summary`: time and the once-a-second report.
- `app/` is the program: sockets, threads, signals, the output pipe and the log.
- `tests/` runs the library.

The one thing believed without proof is what `std::str::from_utf8` does, in
`src/http.rs`.

## Exit codes

| Code | Meaning |
|------|---------|
| `0`  | The source stayed silent, a signal came, or the output was closed |
| `2`  | No URL, or the first connection failed, was not answered with 200, or was answered with a chunked body |
