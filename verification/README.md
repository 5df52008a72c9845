# secure_serial

Reliable framed messaging over a byte-oriented serial link (UART, USB-CDC):
packets are split into chunks of at most 128 bytes, each chunk travels in a frame
with a CRC-32, the peer acknowledges every chunk, and the sender repeats what is
not acknowledged, up to a limit.

What both ends decide and compute is written in Verus and proved against its
contracts; the tasks that own the link, the clock and the queues are ordinary
Rust around it.

## Wire format

Frames start with the magic bytes `0x5E 0x5E`, followed by a length byte, a type
byte (`0xDA` for `DATA`, `0xAC` for `ACK`) and the body. A little-endian CRC-32
follows; it covers the frame up to but not including itself, and the length byte
counts what it covers.

- A `DATA` body is the packet id (2 bytes), the length of the packet (4), the
  index of the chunk (4) and its payload.
- An `ACK` body is a row of records: packet id (2) and chunk index (4).

All numbers are little-endian.

## Layout

- `src/protocol.rs`, `src/bytes.rs`: constants, `Ack`, integers as bytes
- `src/frame.rs`: encoding of frames
- `src/receiver.rs`, `src/reassembly.rs`: `PacketReader`, the reading end
- `src/sender.rs`: `SecureSerialSender` and `PacketTransfer`, the sending end
- `src/resources.rs`: sizes of pools and queues
- `src/bounded.rs`, `src/clock.rs`: what is used of `heapless` and
  `embassy-time`, with contracts that are trusted
- `src/stream.rs`, `src/delivery.rs`, `src/contents.rs`, `src/sending.rs`,
  `src/link.rs`: laws on a whole stream of bytes, on delivery, on what delivered
  packets are made of, on a whole transfer, and on both ends together
- `app/`: `run_read`, `run_write`, the application-facing sender, the resources
  and the transport traits, for Embassy; with its feature `defmt` the receiver
  logs why it passes over a frame
- `tests/`: both ends over a faulty link, and each part on its own

`PacketReader` and `PacketTransfer` perform no I/O. Each call takes in what came
of the last action and says what to do next.
