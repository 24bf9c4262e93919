# framed_echo

A length-prefixed frame codec (4-byte big-endian payload length, then the
payload) with a configurable maximum payload size, verified with Verus, plus an
async echo server and client around it.

- `src/wire.rs`: the wire format over byte sequences (`spec_encode_frame`,
  `spec_decode`, and a reader fed arbitrary reads: `spec_drain`, `spec_feed`)
  and its laws: round trip, partial frames yield nothing, frames come out in
  order, decisions are stable when more bytes arrive, and any cutting of a
  stream into reads yields exactly its payloads.
- `src/codec.rs`: `FrameCodec` (`decode`, `encode`, limits) and `FrameError`
  (with its `message`), each with a contract over `src/wire.rs`.
- `src/buffers.rs`: the `bytes` crate's `BytesMut`/`Bytes` methods the codec
  calls, with the contracts taken from that crate's source.
- `app/`: `tokio_util` `Decoder`/`Encoder` adapters, the displayable error, the
  echo server and the demo client (`framed-echo server|client [ADDR]`).
