# quinn_wasm

A UDP-over-WebSocket transport for QUIC endpoints, with its core verified in
Verus.

Datagrams of a QUIC endpoint travel through a relay as WebSocket binary
frames. Each frame holds one message: a socket address and a datagram, in a
compact binary layout (variable-length integers, raw address octets, a
length-prefixed byte string).

- `src/` is the verified library:
  - `varint.rs`: variable-length integers, with the read/write round trip;
  - `addr.rs`: socket addresses in the wire format;
  - `message.rs`: the outbound and inbound messages, their codec and the
    message round trip;
  - `socket.rs`: the state machine that drives a batch of sends on the
    WebSocket sink, and the handling of received frames;
  - `runtime.rs`: carrying timer deadlines from one clock to another.
- `app/` connects the library to the WebSocket stream, the QUIC stack and the
  timers: the UDP socket, the endpoint constructors and the runtime.
- `tests/` runs the library, and holds the codec to the `postcard` crate.
