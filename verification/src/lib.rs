//! Reliable framed messaging over a byte-oriented serial link.
//!
//! Packets travel as chunks of at most 128 payload bytes.  Every chunk is one
//! frame: two magic bytes, a length byte, a type byte, the body and a
//! little-endian CRC-32.  The peer acknowledges each chunk, and the sender
//! repeats what is not acknowledged.
//!
//! The modules here hold what both ends decide and compute.  The link, the
//! clock, the CRC unit and the buffer pools belong to the caller, who performs
//! the actions that the state machines ask for and reports what came of them.

pub mod bounded;
pub mod bytes;
pub mod clock;
pub mod contents;
pub mod delivery;
pub mod frame;
pub mod link;
pub mod protocol;
pub mod reassembly;
pub mod receiver;
pub mod resources;
pub mod sender;
pub mod sending;
pub mod stream;

pub use crate::protocol::{Ack, CHUNK_LEN_MAX};
pub use crate::receiver::PacketReader;
pub use crate::sender::{PacketTransfer, SecureSerialSender};
