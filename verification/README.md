# rredis

A small Redis-protocol (RESP) server. The library parses RESP frames —
simple strings, integers, bulk strings and arrays — from the front of a
`bytes::BytesMut`, and is formally verified: each parsing function is
proved against a specification of the frame format in `src/frame.rs`, and
`src/laws.rs` proves that frames read back what their encodings carry and
that bytes following a frame never change how it parses.

`app/` holds the program around it: the TCP server, reading from the
socket, and logging.
