//! The reading end.

use crc::{Crc, CRC_32_ISO_HDLC};
use secure_serial::frame::{append_crc, encode_ack_frame, encode_data_frame};
use secure_serial::reassembly::{overwrite, RxPacket};
use secure_serial::receiver::{FrameFault, ReadAction};
use secure_serial::{Ack, PacketReader, CHUNK_LEN_MAX};

type Frame = heapless::Vec<u8, CHUNK_LEN_MAX>;

fn crc32(data: &[u8]) -> u32 {
    Crc::<u32>::new(&CRC_32_ISO_HDLC).checksum(data)
}

fn ack(packet_id: u16, chunk_offset: u32) -> Ack {
    Ack { packet_id, chunk_offset }
}

fn sealed(mut frame: Frame) -> Vec<u8> {
    let crc = crc32(&frame);
    append_crc(&mut frame, crc);
    frame.to_vec()
}

fn chunk(packet_id: u16, data: &[u8], chunk_offset: u32) -> Vec<u8> {
    let mut frame = Frame::new();
    encode_data_frame(&mut frame, packet_id, data, chunk_offset);
    sealed(frame)
}

/// A frame with any header and body, and the right CRC.
fn raw(header: [u8; 4], body: &[u8]) -> Vec<u8> {
    let mut bytes = header.to_vec();
    bytes.extend_from_slice(body);
    let crc = crc32(&bytes);
    bytes.extend_from_slice(&crc.to_le_bytes());
    bytes
}

#[derive(Debug, Clone, PartialEq)]
enum Out {
    Acked(Ack),
    Forwarded(Vec<Ack>),
    Delivered(Vec<u8>),
    NoBuffer,
}

/// A reader with a pool of so many buffers.
struct Rig {
    reader: PacketReader,
    n_buf: usize,
    free: usize,
    held: Option<Vec<u8>>,
}

impl Rig {
    fn new(n_buf: usize, free: usize) -> Rig {
        Rig { reader: PacketReader::new(n_buf), n_buf, free, held: None }
    }

    fn read(&mut self, bytes: &[u8]) -> Vec<Out> {
        bytes.chunks(CHUNK_LEN_MAX).flat_map(|part| self.read_once(part)).collect()
    }

    fn read_once(&mut self, bytes: &[u8]) -> Vec<Out> {
        let mut out = vec![];
        let mut action = self.reader.on_read(bytes);
        loop {
            action = match action {
                ReadAction::Read => return out,
                ReadAction::CheckCrc => {
                    let crc = crc32(self.reader.crc_input());
                    self.reader.on_crc(crc)
                }
                ReadAction::TakeBuffer => {
                    if self.held.take().is_some() {
                        self.free += 1;
                    }
                    if self.free > 0 {
                        self.free -= 1;
                        self.held = Some(vec![0xEE; self.n_buf]);
                    } else {
                        out.push(Out::NoBuffer);
                    }
                    self.reader.on_buffer(self.held.is_some())
                }
                ReadAction::StoreChunk(ack) => {
                    out.push(Out::Acked(ack));
                    self.reader.on_store(self.held.as_mut().unwrap())
                }
                ReadAction::SendAck(ack) => {
                    out.push(Out::Acked(ack));
                    self.reader.resume()
                }
                ReadAction::ForwardAcks(acks) => {
                    out.push(Out::Forwarded(acks.as_slice().to_vec()));
                    self.reader.resume()
                }
                ReadAction::Deliver(length) => {
                    out.push(Out::Delivered(self.held.take().unwrap()[..length].to_vec()));
                    self.reader.resume()
                }
            }
        }
    }
}

fn acked(packet_id: u16, chunk_offset: u32) -> Out {
    Out::Acked(ack(packet_id, chunk_offset))
}

#[test]
fn short_packet_is_acknowledged_and_delivered() {
    let mut rig = Rig::new(4096, 1);
    assert_eq!(
        rig.read(&chunk(1, b"hello", 0)),
        vec![acked(1, 0), Out::Delivered(b"hello".to_vec())]
    );
}

#[test]
fn packet_of_the_buffer_size_is_delivered() {
    let data: Vec<u8> = (0..256u32).map(|i| i as u8).collect();
    let mut rig = Rig::new(256, 1);
    assert_eq!(rig.read(&chunk(1, &data, 0)), vec![acked(1, 0)]);
    assert_eq!(rig.read(&chunk(1, &data, 1)), vec![acked(1, 1), Out::Delivered(data.clone())]);
}

#[test]
fn packet_beyond_the_buffer_size_is_passed_over() {
    let data = [7u8; 257];
    let mut rig = Rig::new(256, 1);
    for i in 0..3 {
        assert_eq!(rig.read(&chunk(1, &data, i)), vec![]);
    }
    assert_eq!(rig.free, 1);
}

#[test]
fn chunks_come_in_any_order_and_more_than_once() {
    let data: Vec<u8> = (0..300u32).map(|i| (i * 7) as u8).collect();
    let mut rig = Rig::new(4096, 1);
    assert_eq!(rig.read(&chunk(9, &data, 2)), vec![acked(9, 2)]);
    assert_eq!(rig.read(&chunk(9, &data, 2)), vec![acked(9, 2)]);
    assert_eq!(rig.read(&chunk(9, &data, 0)), vec![acked(9, 0)]);
    assert_eq!(rig.read(&chunk(9, &data, 0)), vec![acked(9, 0)]);
    assert_eq!(rig.read(&chunk(9, &data, 1)), vec![acked(9, 1), Out::Delivered(data.clone())]);
    for i in 0..3 {
        assert_eq!(rig.read(&chunk(9, &data, i)), vec![acked(9, i)]);
    }
}

#[test]
fn packet_with_the_most_chunks_is_delivered() {
    let data: Vec<u8> = (0..16384u32).map(|i| (i / 5) as u8).collect();
    let mut rig = Rig::new(16384, 1);
    for i in 0..127 {
        assert_eq!(rig.read(&chunk(1, &data, i)), vec![acked(1, i)]);
    }
    assert_eq!(rig.read(&chunk(1, &data, 127)), vec![acked(1, 127), Out::Delivered(data.clone())]);
}

#[test]
fn split_of_the_stream_does_not_matter() {
    let data: Vec<u8> = (0..150u32).map(|i| i as u8).collect();
    let mut bytes = vec![0x00, 0x5E];
    bytes.extend(chunk(3, &data, 0));
    bytes.extend(chunk(3, &data, 1));
    let expected = vec![acked(3, 0), acked(3, 1), Out::Delivered(data)];
    for at in 0..bytes.len() {
        let mut rig = Rig::new(4096, 1);
        let mut out = rig.read(&bytes[..at]);
        out.extend(rig.read(&bytes[at..]));
        assert_eq!(out, expected);
    }
    let mut rig = Rig::new(4096, 1);
    let out: Vec<Out> = bytes.iter().flat_map(|b| rig.read(&[*b])).collect();
    assert_eq!(out, expected);
}

#[test]
fn noise_before_a_frame_is_skipped() {
    let mut rig = Rig::new(4096, 1);
    assert_eq!(rig.read(&[0x00; 200]), vec![]);
    let mut bytes = vec![0x00, 0xAB, 0xCD, 0x5E, 0x00, 0x5E];
    bytes.extend(chunk(1, b"x", 0));
    assert_eq!(rig.read(&bytes), vec![acked(1, 0), Out::Delivered(b"x".to_vec())]);
}

#[test]
fn damaged_frame_has_no_effect_on_the_next() {
    let good = chunk(1, b"payload", 0);
    for at in 0..good.len() {
        let mut bytes = good.clone();
        bytes[at] ^= 0xFF;
        bytes.extend(good.clone());
        let mut rig = Rig::new(4096, 1);
        assert_eq!(rig.read(&bytes), vec![acked(1, 0), Out::Delivered(b"payload".to_vec())]);
    }
}

#[test]
fn frame_behind_a_wrong_length_is_found() {
    let mut bytes = chunk(1, b"ok", 0);
    bytes[2] = 50;
    assert_eq!(Rig::new(4096, 1).read(&bytes), vec![]);
    bytes.extend(chunk(1, b"ok", 0));
    bytes.extend(chunk(1, b"ok", 0));
    assert_eq!(
        Rig::new(4096, 1).read(&bytes),
        vec![acked(1, 0), Out::Delivered(b"ok".to_vec()), acked(1, 0)]
    );
}

#[test]
fn unknown_type_is_skipped() {
    let mut bytes = raw([0x5E, 0x5E, 10, 0xAB], &[1, 0, 2, 0, 0, 0]);
    bytes.extend(raw([0x5E, 0x5E, 10, 0xAC], &[1, 0, 2, 0, 0, 0]));
    assert_eq!(Rig::new(4096, 1).read(&bytes), vec![Out::Forwarded(vec![ack(1, 2)])]);
}

#[test]
fn longest_frame_is_read_and_a_longer_one_is_not() {
    let body = [3u8; 142];
    let bytes = raw([0x5E, 0x5E, 146, 0xAC], &body);
    assert_eq!(bytes.len(), 150);
    assert_eq!(
        Rig::new(4096, 1).read(&bytes),
        vec![Out::Forwarded(vec![ack(0x0303, 0x0303_0303); 23])]
    );
    let body = [3u8; 143];
    assert_eq!(Rig::new(4096, 1).read(&raw([0x5E, 0x5E, 147, 0xAC], &body)), vec![]);
}

#[test]
fn frame_without_room_for_its_header_is_passed_over() {
    let mut reader = PacketReader::new(64);
    let bytes = [0x5E, 0x5E, 3, 0xDA, 1, 2, 3, 0x5E];
    assert!(matches!(reader.on_read(&bytes), ReadAction::CheckCrc));
    assert_eq!(reader.crc_input(), &[0x5E, 0x5E, 3]);
    let crc = u32::from_le_bytes([0xDA, 1, 2, 3]);
    assert!(matches!(reader.on_crc(crc), ReadAction::Read));
    // The last byte may start a frame: the rest of one completes it.
    let frame = raw([0x5E, 0x5E, 10, 0xAC], &[1, 0, 2, 0, 0, 0]);
    assert!(matches!(reader.on_read(&frame[1..]), ReadAction::CheckCrc));
    assert_eq!(reader.crc_input(), &frame[..10]);
}

#[test]
fn data_frame_without_room_for_its_fields_is_passed_over() {
    let mut bytes = raw([0x5E, 0x5E, 13, 0xDA], &[1, 0, 0, 0, 0, 0, 0, 0, 0]);
    bytes.extend(chunk(1, b"x", 0));
    assert_eq!(
        Rig::new(4096, 1).read(&bytes),
        vec![acked(1, 0), Out::Delivered(b"x".to_vec())]
    );
}

#[test]
fn chunk_of_the_wrong_length_is_passed_over() {
    // Three bytes are announced.
    let short = raw([0x5E, 0x5E, 16, 0xDA], &[1, 0, 3, 0, 0, 0, 0, 0, 0, 0, 7, 7]);
    let long = raw([0x5E, 0x5E, 18, 0xDA], &[1, 0, 3, 0, 0, 0, 0, 0, 0, 0, 7, 7, 7, 7]);
    let beyond = raw([0x5E, 0x5E, 14, 0xDA], &[1, 0, 3, 0, 0, 0, 1, 0, 0, 0]);
    let far = raw([0x5E, 0x5E, 14, 0xDA], &[1, 0, 3, 0, 0, 0, 255, 255, 255, 255]);
    for bytes in [short, long, beyond, far] {
        assert_eq!(Rig::new(4096, 1).read(&bytes), vec![]);
    }
    let right = raw([0x5E, 0x5E, 17, 0xDA], &[1, 0, 3, 0, 0, 0, 0, 0, 0, 0, 7, 7, 7]);
    assert_eq!(
        Rig::new(4096, 1).read(&right),
        vec![acked(1, 0), Out::Delivered(vec![7, 7, 7])]
    );
}

#[test]
fn chunk_behind_the_last_full_one_does_not_count() {
    let data = [5u8; 256];
    let mut rig = Rig::new(256, 1);
    assert_eq!(rig.read(&chunk(1, &data, 2)), vec![acked(1, 2)]);
    assert_eq!(rig.read(&chunk(1, &data, 0)), vec![acked(1, 0)]);
    assert_eq!(
        rig.read(&chunk(1, &data, 1)),
        vec![acked(1, 1), Out::Delivered(data.to_vec())]
    );
}

#[test]
fn packet_of_which_nothing_has_come_is_not_delivered() {
    let bytes = [
        0x5E, 0x5E, 0x0E, 0xDA, 1, 0, 0x80, 0, 0, 0, 1, 0, 0, 0, 0, 0, 0, 0,
    ];
    let mut reader = PacketReader::new(4096);
    assert!(matches!(reader.on_read(&bytes), ReadAction::CheckCrc));
    assert!(matches!(reader.on_crc(0), ReadAction::TakeBuffer));
    assert_eq!(reader.new_packet(), (1, 128));
    match reader.on_buffer(true) {
        ReadAction::StoreChunk(record) => assert_eq!(record, ack(1, 1)),
        _ => panic!("the chunk is acknowledged"),
    }
    let mut buf = vec![0xEE; 4096];
    assert!(matches!(reader.on_store(&mut buf), ReadAction::Read));
    assert_eq!(buf, vec![0xEE; 4096]);
}

#[test]
fn chunks_of_another_length_complete_nothing() {
    let longer = [6u8; 300];
    let mut rig = Rig::new(512, 1);
    assert_eq!(rig.read(&chunk(1, &longer[..256], 0)), vec![acked(1, 0)]);
    assert_eq!(rig.read(&chunk(1, &longer, 2)), vec![acked(1, 2)]);
    assert_eq!(
        rig.read(&chunk(1, &longer[..256], 1)),
        vec![acked(1, 1), Out::Delivered(vec![6; 256])]
    );
    // Part of a chunk is not the chunk.
    let mut rig = Rig::new(512, 1);
    assert_eq!(rig.read(&chunk(1, &longer[..256], 0)), vec![acked(1, 0)]);
    assert_eq!(rig.read(&chunk(1, &longer[..200], 1)), vec![acked(1, 1)]);
    assert_eq!(
        rig.read(&chunk(1, &longer[..256], 1)),
        vec![acked(1, 1), Out::Delivered(vec![6; 256])]
    );
}

#[test]
fn faults_are_named() {
    let fault_of = |bytes: &[u8], crc: Option<u32>| {
        let mut reader = PacketReader::new(256);
        assert!(matches!(reader.on_read(bytes), ReadAction::CheckCrc));
        let crc = crc.unwrap_or(crc32(reader.crc_input()));
        let fault = reader.frame_fault(crc);
        let passed = matches!(reader.on_crc(crc), ReadAction::Read | ReadAction::CheckCrc);
        assert_eq!(passed, fault.is_some());
        fault
    };
    assert_eq!(fault_of(&chunk(1, b"ok", 0), None), None);
    assert_eq!(fault_of(&raw([0x5E, 0x5E, 4, 0xAC], &[]), None), None);
    let mut damaged = chunk(1, b"ok", 0);
    damaged[14] ^= 1;
    assert_eq!(fault_of(&damaged, None), Some(FrameFault::Crc));
    let short = [0x5E, 0x5E, 3, 0xDA, 1, 2, 3, 0];
    let crc = u32::from_le_bytes([0xDA, 1, 2, 3]);
    assert_eq!(fault_of(&short, Some(crc)), Some(FrameFault::Header));
    let body = [1, 0, 0, 0, 0, 0, 0, 0, 0];
    assert_eq!(fault_of(&raw([0x5E, 0x5E, 13, 0xDA], &body), None), Some(FrameFault::DataHeader));
    assert_eq!(fault_of(&chunk(1, &[0; 257], 0)[..], None), Some(FrameFault::PacketTooLong));
    let long = raw([0x5E, 0x5E, 18, 0xDA], &[1, 0, 3, 0, 0, 0, 0, 0, 0, 0, 7, 7, 7, 7]);
    assert_eq!(fault_of(&long, None), Some(FrameFault::BeyondPacket));
    let far = raw([0x5E, 0x5E, 14, 0xDA], &[1, 0, 3, 0, 0, 0, 255, 255, 255, 255]);
    assert_eq!(fault_of(&far, None), Some(FrameFault::BeyondPacket));
    let short = raw([0x5E, 0x5E, 16, 0xDA], &[1, 0, 3, 0, 0, 0, 0, 0, 0, 0, 7, 7]);
    assert_eq!(
        fault_of(&short, None),
        Some(FrameFault::PayloadLength { payload_length: 2, chunk_offset: 0, packet_length: 3 })
    );
}

#[test]
fn packet_without_bytes_is_never_complete() {
    let mut rig = Rig::new(256, 1);
    assert_eq!(rig.read(&chunk(1, b"", 0)), vec![acked(1, 0)]);
    assert_eq!(rig.read(&chunk(1, b"", 0)), vec![acked(1, 0)]);
}

#[test]
fn chunk_without_a_buffer_is_not_acknowledged() {
    let mut rig = Rig::new(256, 0);
    assert_eq!(rig.read(&chunk(1, b"abc", 0)), vec![Out::NoBuffer]);
    rig.free = 1;
    assert_eq!(
        rig.read(&chunk(1, b"abc", 0)),
        vec![acked(1, 0), Out::Delivered(b"abc".to_vec())]
    );
}

#[test]
fn new_packet_displaces_an_incomplete_one() {
    let old = [1u8; 200];
    let new = [2u8; 200];
    let mut rig = Rig::new(256, 1);
    assert_eq!(rig.read(&chunk(1, &old, 0)), vec![acked(1, 0)]);
    assert_eq!(rig.read(&chunk(2, &new, 0)), vec![acked(2, 0)]);
    assert_eq!(
        rig.read(&chunk(2, &new, 1)),
        vec![acked(2, 1), Out::Delivered(new.to_vec())]
    );
}

#[test]
fn packet_follows_packet() {
    let mut rig = Rig::new(256, 3);
    let mut bytes = chunk(1, b"one", 0);
    bytes.extend(chunk(1, b"one", 0));
    bytes.extend(chunk(2, b"two", 0));
    bytes.extend(chunk(3, b"three", 0));
    assert_eq!(
        rig.read(&bytes),
        vec![
            acked(1, 0),
            Out::Delivered(b"one".to_vec()),
            acked(1, 0),
            acked(2, 0),
            Out::Delivered(b"two".to_vec()),
            acked(3, 0),
            Out::Delivered(b"three".to_vec()),
        ]
    );
}

#[test]
fn length_of_the_first_chunk_counts() {
    let mut rig = Rig::new(512, 1);
    let longer = [4u8; 300];
    assert_eq!(rig.read(&chunk(1, &longer[..256], 0)), vec![acked(1, 0)]);
    assert_eq!(
        rig.read(&chunk(1, &longer, 1)),
        vec![acked(1, 1), Out::Delivered(vec![4; 256])]
    );
}

#[test]
fn acknowledgements_are_handed_on() {
    let mut frame = Frame::new();
    encode_ack_frame(&mut frame, ack(4, 1), &[]);
    let mut bytes = sealed(frame);
    bytes.extend(raw([0x5E, 0x5E, 18, 0xAC], &[1, 0, 2, 0, 0, 0, 3, 0, 4, 0, 0, 0, 9, 9]));
    bytes.extend(raw([0x5E, 0x5E, 4, 0xAC], &[]));
    let mut rig = Rig::new(256, 0);
    assert_eq!(
        rig.read(&bytes),
        vec![
            Out::Forwarded(vec![ack(4, 1)]),
            Out::Forwarded(vec![ack(1, 2), ack(3, 4)]),
            Out::Forwarded(vec![]),
        ]
    );
}

#[test]
fn acknowledgements_between_chunks_do_not_disturb_a_packet() {
    let data = [8u8; 200];
    let mut frame = Frame::new();
    encode_ack_frame(&mut frame, ack(4, 1), &[]);
    let mut bytes = chunk(1, &data, 1);
    bytes.extend(sealed(frame));
    bytes.extend([0x5E, 0x5E, 0x00]);
    bytes.extend(chunk(1, &data, 0));
    assert_eq!(
        Rig::new(256, 1).read(&bytes),
        vec![
            acked(1, 1),
            Out::Forwarded(vec![ack(4, 1)]),
            acked(1, 0),
            Out::Delivered(data.to_vec()),
        ]
    );
}

#[test]
fn marked_chunks_are_counted_once() {
    let mut packet = RxPacket::new(7, 300);
    assert_eq!(packet.packet_id(), 7);
    assert_eq!(packet.packet_length(), 300);
    assert!(!packet.is_complete());
    packet.mark(0, 128);
    packet.mark(2, 44);
    packet.mark(2, 44);
    assert!(!packet.is_complete());
    packet.mark(3, 0);
    packet.mark(1, 127);
    assert!(!packet.is_complete());
    packet.mark(1, 128);
    assert!(packet.is_complete());
    let mut packet = RxPacket::new(7, 16384);
    for i in 0..128 {
        assert!(!packet.is_complete());
        packet.mark(i, 128);
        packet.mark(i, 128);
    }
    assert!(packet.is_complete());
}

#[test]
fn overwriting_keeps_the_rest() {
    let mut buf = [1, 2, 3, 4, 5];
    overwrite(&mut buf, 1, &[8, 9]);
    assert_eq!(buf, [1, 8, 9, 4, 5]);
    overwrite(&mut buf, 5, &[]);
    assert_eq!(buf, [1, 8, 9, 4, 5]);
}
