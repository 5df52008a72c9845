//! A packet over a scripted link in both directions, with faults on the way.

use std::cell::RefCell;
use std::collections::VecDeque;

use crc::{Crc, CRC_32_ISO_HDLC};
use secure_serial::frame::{append_crc, encode_ack_frame, MORE_ACKS_MAX};
use secure_serial::reassembly::CHUNKS_MAX;
use secure_serial::receiver::{PacketReader, ReadAction};
use secure_serial::sender::{SecureSerialSender, SendAction};
use secure_serial::{Ack, CHUNK_LEN_MAX};

const FRAME_DATA: u8 = 0xDA;
const FRAME_ACK: u8 = 0xAC;
const N_INFLIGHT: usize = 8;
const N_BUF: usize = 4096;
const N_POOL: usize = 4;

type Frame = heapless::Vec<u8, CHUNK_LEN_MAX>;

fn software_crc(data: &[u8]) -> u32 {
    Crc::<u32>::new(&CRC_32_ISO_HDLC).checksum(data)
}

#[derive(Clone)]
enum WriteRule {
    Passthrough,
    DropFirstData { consumed: bool },
    DropFirstNData { remaining: usize },
    DropAllData,
    CorruptByteFirstData { consumed: bool, byte_index: usize, xor: u8 },
    CorruptLengthFirstData { consumed: bool },
    CorruptCrcFirstData { consumed: bool },
    SplitFirstData { consumed: bool, at: usize },
    DuplicateFirstData { consumed: bool },
    PrependGarbageFirstData { consumed: bool, prefix: Vec<u8> },
    PrependFalseMagicFirstData { consumed: bool },
    DropFirstAck { consumed: bool },
}

fn apply_write_rule(rule: &mut WriteRule, data: &[u8]) -> Vec<Vec<u8>> {
    let is_data = data.get(3) == Some(&FRAME_DATA);
    let is_ack = data.get(3) == Some(&FRAME_ACK);
    let plain = vec![data.to_vec()];
    match rule {
        WriteRule::Passthrough => plain,
        WriteRule::DropFirstData { consumed } => {
            if is_data && !*consumed {
                *consumed = true;
                vec![]
            } else {
                plain
            }
        }
        WriteRule::DropFirstNData { remaining } => {
            if is_data && *remaining > 0 {
                *remaining -= 1;
                vec![]
            } else {
                plain
            }
        }
        WriteRule::DropAllData => {
            if is_data {
                vec![]
            } else {
                plain
            }
        }
        WriteRule::CorruptByteFirstData { consumed, byte_index, xor } => {
            if is_data && !*consumed {
                *consumed = true;
                let mut v = data.to_vec();
                if let Some(b) = v.get_mut(*byte_index) {
                    *b ^= *xor;
                }
                vec![v]
            } else {
                plain
            }
        }
        WriteRule::CorruptLengthFirstData { consumed } => {
            if is_data && !*consumed {
                *consumed = true;
                let mut v = data.to_vec();
                if v.len() > 2 {
                    v[2] = 0xFF;
                }
                vec![v]
            } else {
                plain
            }
        }
        WriteRule::CorruptCrcFirstData { consumed } => {
            if is_data && !*consumed {
                *consumed = true;
                let mut v = data.to_vec();
                if let Some(last) = v.last_mut() {
                    *last ^= 0x5A;
                }
                vec![v]
            } else {
                plain
            }
        }
        WriteRule::SplitFirstData { consumed, at } => {
            if is_data && !*consumed {
                *consumed = true;
                let at = (*at).min(data.len());
                vec![data[..at].to_vec(), data[at..].to_vec()]
            } else {
                plain
            }
        }
        WriteRule::DuplicateFirstData { consumed } => {
            if is_data && !*consumed {
                *consumed = true;
                vec![data.to_vec(), data.to_vec()]
            } else {
                plain
            }
        }
        WriteRule::PrependGarbageFirstData { consumed, prefix } => {
            if is_data && !*consumed {
                *consumed = true;
                let mut out = prefix.clone();
                out.extend_from_slice(data);
                vec![out]
            } else {
                plain
            }
        }
        WriteRule::PrependFalseMagicFirstData { consumed } => {
            if is_data && !*consumed {
                *consumed = true;
                let mut out = vec![0x5Eu8, 0x00];
                out.extend_from_slice(data);
                vec![out]
            } else {
                plain
            }
        }
        WriteRule::DropFirstAck { consumed } => {
            if is_ack && !*consumed {
                *consumed = true;
                vec![]
            } else {
                plain
            }
        }
    }
}

/// One direction of the link: what was written and has not been read.
struct Wire {
    bytes: VecDeque<u8>,
    rule: WriteRule,
    max_per_read: Option<usize>,
}

impl Wire {
    fn new(rule: WriteRule, max_per_read: Option<usize>) -> Self {
        Wire { bytes: VecDeque::new(), rule, max_per_read }
    }

    fn write(&mut self, data: &[u8]) {
        for segment in apply_write_rule(&mut self.rule, data) {
            self.bytes.extend(segment);
        }
    }

    fn read(&mut self) -> Vec<u8> {
        let cap = match self.max_per_read {
            None => CHUNK_LEN_MAX,
            Some(m) => CHUNK_LEN_MAX.min(m.max(1)),
        };
        let n = self.bytes.len().min(cap);
        self.bytes.drain(..n).collect()
    }
}

/// A queue that takes at most so many records as may be in flight.
#[derive(Default)]
struct AckQueue {
    acks: RefCell<VecDeque<Ack>>,
}

impl AckQueue {
    fn try_send(&self, ack: Ack) {
        let mut acks = self.acks.borrow_mut();
        if acks.len() < N_INFLIGHT {
            acks.push_back(ack);
        }
    }

    fn try_receive(&self) -> Option<Ack> {
        self.acks.borrow_mut().pop_front()
    }
}

/// The reading end of one side, with its queues and its pool.
struct Side {
    reader: PacketReader,
    buffer: Option<Vec<u8>>,
    free_buffers: usize,
    acks_to_send: AckQueue,
    acks_received: AckQueue,
    delivered: Vec<Vec<u8>>,
}

impl Side {
    fn new() -> Self {
        Side {
            reader: PacketReader::new(N_BUF),
            buffer: None,
            free_buffers: N_POOL,
            acks_to_send: AckQueue::default(),
            acks_received: AckQueue::default(),
            delivered: vec![],
        }
    }

    /// Reads whatever is on the wire.
    fn run_read(&mut self, wire: &mut Wire) {
        loop {
            let data = wire.read();
            if data.is_empty() {
                return;
            }
            let mut action = self.reader.on_read(&data);
            loop {
                action = match action {
                    ReadAction::Read => break,
                    ReadAction::CheckCrc => {
                        let crc = software_crc(self.reader.crc_input());
                        self.reader.on_crc(crc)
                    }
                    ReadAction::TakeBuffer => {
                        if self.buffer.take().is_some() {
                            self.free_buffers += 1;
                        }
                        if self.free_buffers > 0 {
                            self.free_buffers -= 1;
                            self.buffer = Some(vec![0xEE; N_BUF]);
                        }
                        self.reader.on_buffer(self.buffer.is_some())
                    }
                    ReadAction::StoreChunk(ack) => {
                        assert!((ack.chunk_offset as usize) < CHUNKS_MAX);
                        self.acks_to_send.try_send(ack);
                        let buffer = self.buffer.as_mut().unwrap();
                        self.reader.on_store(buffer.as_mut_slice())
                    }
                    ReadAction::SendAck(ack) => {
                        self.acks_to_send.try_send(ack);
                        self.reader.resume()
                    }
                    ReadAction::ForwardAcks(acks) => {
                        for ack in acks.as_slice() {
                            self.acks_received.try_send(*ack);
                        }
                        self.reader.resume()
                    }
                    ReadAction::Deliver(length) => {
                        let buffer = self.buffer.take().unwrap();
                        self.free_buffers += 1;
                        self.delivered.push(buffer[..length].to_vec());
                        self.reader.resume()
                    }
                };
            }
        }
    }

    /// Writes the records that wait for the peer.
    fn run_write(&mut self, wire: &mut Wire) {
        while let Some(first) = self.acks_to_send.try_receive() {
            let mut frame = Frame::new();
            let mut more = vec![];
            while more.len() < MORE_ACKS_MAX {
                match self.acks_to_send.try_receive() {
                    Some(ack) => more.push(ack),
                    None => break,
                }
            }
            assert_eq!(encode_ack_frame(&mut frame, first, &more), more.len());
            let crc = software_crc(&frame);
            append_crc(&mut frame, crc);
            wire.write(&frame);
        }
    }
}

struct HarnessConfig {
    ab_rule: WriteRule,
    ba_rule: WriteRule,
    ab_read_max: Option<usize>,
    ba_read_max: Option<usize>,
    retransmit_delay: u64,
    allowed_retransmits: usize,
}

impl Default for HarnessConfig {
    fn default() -> Self {
        HarnessConfig {
            ab_rule: WriteRule::Passthrough,
            ba_rule: WriteRule::Passthrough,
            ab_read_max: None,
            ba_read_max: None,
            retransmit_delay: 5_000,
            allowed_retransmits: 8,
        }
    }
}

/// A sends one `payload` to B.  Outer `Err`: no end in sight; inner `Err`: the
/// sender gave up.
fn transfer_a_to_b(payload: &[u8], cfg: HarnessConfig) -> Result<Result<Vec<u8>, ()>, ()> {
    let mut ab = Wire::new(cfg.ab_rule, cfg.ab_read_max);
    let mut ba = Wire::new(cfg.ba_rule, cfg.ba_read_max);
    let mut a = Side::new();
    let mut b = Side::new();
    let mut sender =
        SecureSerialSender::new(N_INFLIGHT, cfg.retransmit_delay, cfg.allowed_retransmits);
    let mut transfer = sender.write_packet(payload);
    let mut now: u64 = 0;
    for _ in 0..100_000 {
        let due = match transfer.poll() {
            SendAction::Done => {
                assert_eq!(b.delivered.len(), 1, "B should deliver one packet");
                assert!(a.delivered.is_empty());
                return Ok(Ok(b.delivered.remove(0)));
            }
            SendAction::WaitUntil(due) => due,
            SendAction::DueTimeOverflow => panic!("the clock is far from its end"),
        };
        if now >= due {
            let mut tx_buffer = Frame::new();
            if transfer.on_slot_at(now, &mut tx_buffer).is_err() {
                return Ok(Err(()));
            }
            let crc = software_crc(&tx_buffer);
            append_crc(&mut tx_buffer, crc);
            ab.write(&tx_buffer);
            now += 1;
        } else if let Some(ack) = a.acks_received.try_receive() {
            transfer.on_ack(ack);
        } else {
            now = due;
        }
        b.run_read(&mut ab);
        b.run_write(&mut ba);
        a.run_read(&mut ba);
    }
    Err(())
}

fn local_test(payload: &[u8], cfg: HarnessConfig) -> Result<Result<Vec<u8>, ()>, ()> {
    transfer_a_to_b(payload, cfg)
}

// --- lost or split reads ---

#[test]
fn a1_trailing_split_read_recovers_payload() {
    let p = b"test hello";
    let mut c = HarnessConfig::default();
    c.ab_read_max = Some(7);
    let got = local_test(p, c).expect("timeout");
    assert_eq!(got.expect("send ok"), p.to_vec());
}

#[test]
fn a2_split_on_single_byte_reads() {
    let p = b"xy";
    let mut c = HarnessConfig::default();
    c.ab_read_max = Some(1);
    let got = local_test(p, c).expect("timeout");
    assert_eq!(got.expect("send ok"), p.to_vec());
}

#[test]
fn a3_garbage_prefix_before_frame_recovers_payload() {
    let p = b"ping";
    let mut c = HarnessConfig::default();
    c.ab_rule = WriteRule::PrependGarbageFirstData {
        consumed: false,
        prefix: vec![0x00, 0xAB, 0xCD],
    };
    let got = local_test(p, c).expect("timeout");
    assert_eq!(got.expect("send ok"), p.to_vec());
}

#[test]
fn a4_false_magic_prefix_recovers_payload() {
    let p = b"z";
    let mut c = HarnessConfig::default();
    c.ab_rule = WriteRule::PrependFalseMagicFirstData { consumed: false };
    let got = local_test(p, c).expect("timeout");
    assert_eq!(got.expect("send ok"), p.to_vec());
}

// --- corruption ---

#[test]
fn b1_payload_corruption_then_clean_retransmit_delivers_once() {
    let p = b"payload";
    let mut c = HarnessConfig::default();
    c.ab_rule = WriteRule::CorruptByteFirstData {
        consumed: false,
        byte_index: 20,
        xor: 0xFF,
    };
    let got = local_test(p, c).expect("timeout");
    assert_eq!(got.expect("send ok"), p.to_vec());
}

#[test]
fn b2_corrupt_length_first_data_then_retry() {
    let p = b"ok";
    let mut c = HarnessConfig::default();
    c.ab_rule = WriteRule::CorruptLengthFirstData { consumed: false };
    let got = local_test(p, c).expect("timeout");
    assert_eq!(got.expect("send ok"), p.to_vec());
}

#[test]
fn b3_corrupt_crc_first_data_then_retry() {
    let p = b"crc";
    let mut c = HarnessConfig::default();
    c.ab_rule = WriteRule::CorruptCrcFirstData { consumed: false };
    let got = local_test(p, c).expect("timeout");
    assert_eq!(got.expect("send ok"), p.to_vec());
}

// --- loss of frames and of acknowledgements ---

#[test]
fn c1_drop_first_data_frame_retransmit_delivers_once() {
    let p = b"once";
    let mut c = HarnessConfig::default();
    c.ab_rule = WriteRule::DropFirstData { consumed: false };
    let got = local_test(p, c).expect("timeout");
    assert_eq!(got.expect("send ok"), p.to_vec());
}

#[test]
fn c2_drop_first_ack_forces_data_retransmit_still_one_delivery() {
    let p = b"ackloss";
    let mut c = HarnessConfig::default();
    c.ba_rule = WriteRule::DropFirstAck { consumed: false };
    let got = local_test(p, c).expect("timeout");
    assert_eq!(got.expect("send ok"), p.to_vec());
}

#[test]
fn c3_drop_first_two_data_frames_then_succeeds() {
    let p = b"twice";
    let mut c = HarnessConfig::default();
    c.ab_rule = WriteRule::DropFirstNData { remaining: 2 };
    let got = local_test(p, c).expect("timeout");
    assert_eq!(got.expect("send ok"), p.to_vec());
}

#[test]
fn c4_exhausted_retransmits_returns_error() {
    let p = b"fail";
    let mut c = HarnessConfig::default();
    c.ab_rule = WriteRule::DropAllData;
    c.allowed_retransmits = 2;
    let got = local_test(p, c).expect("timeout");
    assert!(got.is_err(), "sender should fail when all DATA frames are dropped");
}

// --- several chunks ---

#[test]
fn d1_two_chunk_packet_drop_first_data_recovers() {
    let p = [0xABu8; 200];
    let mut c = HarnessConfig::default();
    c.ab_rule = WriteRule::DropFirstData { consumed: false };
    let got = local_test(&p, c).expect("timeout");
    assert_eq!(got.expect("send ok"), p.to_vec());
}

// --- large payloads ---

#[test]
fn f1_large_payload_1536_bytes_passthrough() {
    let p: Vec<u8> = (0..1536).map(|i| i as u8).collect();
    let got = local_test(&p, HarnessConfig::default()).expect("timeout");
    assert_eq!(got.expect("send ok"), p);
}

#[test]
fn f2_large_payload_2048_bytes_split_reads() {
    let p: Vec<u8> = (0..2048)
        .map(|i| ((i as u32).wrapping_mul(17).wrapping_add(3)) as u8)
        .collect();
    let mut c = HarnessConfig::default();
    c.ab_read_max = Some(29);
    let got = local_test(&p, c).expect("timeout");
    assert_eq!(got.expect("send ok"), p);
}

#[test]
fn f3_large_payload_4096_bytes_drop_first_chunk_recovers() {
    let p: Vec<u8> = (0..4096).map(|i| (i ^ (i >> 7)) as u8).collect();
    let mut c = HarnessConfig::default();
    c.ab_rule = WriteRule::DropFirstData { consumed: false };
    let got = local_test(&p, c).expect("timeout");
    assert_eq!(got.expect("send ok"), p);
}

// --- repeated frames ---

#[test]
fn e1_duplicate_first_data_frame_delivers_payload_once() {
    let p = b"dup";
    let mut c = HarnessConfig::default();
    c.ab_rule = WriteRule::DuplicateFirstData { consumed: false };
    let got = local_test(p, c).expect("timeout");
    assert_eq!(got.expect("send ok"), p.to_vec());
}

#[test]
fn a_split_mid_frame_wire() {
    let p = b"splitme";
    let mut c = HarnessConfig::default();
    c.ab_rule = WriteRule::SplitFirstData { consumed: false, at: 11 };
    let got = local_test(p, c).expect("timeout");
    assert_eq!(got.expect("send ok"), p.to_vec());
}
