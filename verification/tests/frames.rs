//! Records and frames, byte by byte.

use crc::{Crc, CRC_32_ISO_HDLC};
use secure_serial::frame::{
    add_ack, append_crc, close_ack_frame, encode_ack_frame, encode_data_frame, has_ack_room,
    start_ack_frame, MORE_ACKS_MAX,
};
use secure_serial::protocol::{CHUNK_PAYLOAD_MAX, MAGIC, PACKET_ACK, PACKET_DATA};
use secure_serial::receiver::decode_acks;
use secure_serial::resources::sizes_supported;
use secure_serial::{Ack, CHUNK_LEN_MAX};

type Frame = heapless::Vec<u8, CHUNK_LEN_MAX>;

fn ack(packet_id: u16, chunk_offset: u32) -> Ack {
    Ack { packet_id, chunk_offset }
}

#[test]
fn constants_of_the_wire_format() {
    assert_eq!(CHUNK_PAYLOAD_MAX, 128);
    assert_eq!(CHUNK_LEN_MAX, 146);
    assert_eq!(MAGIC, [0x5E, 0x5E]);
    assert_eq!(PACKET_DATA, 0xDA);
    assert_eq!(PACKET_ACK, 0xAC);
}

#[test]
fn ack_bytes_are_little_endian() {
    let record = ack(0x1234, 0x89AB_CDEF);
    assert_eq!(record.to_buffer(), [0x34, 0x12, 0xEF, 0xCD, 0xAB, 0x89]);
    assert_eq!(Ack::from_buffer([0x34, 0x12, 0xEF, 0xCD, 0xAB, 0x89]), record);
}

#[test]
fn ack_records_survive_both_ways() {
    for record in [ack(0, 0), ack(1, 255), ack(256, 65536), ack(u16::MAX, u32::MAX)] {
        assert_eq!(Ack::from_buffer(record.to_buffer()), record);
    }
    for bytes in [[0u8; 6], [0xFF; 6], [1, 2, 3, 4, 5, 6]] {
        assert_eq!(Ack::from_buffer(bytes).to_buffer(), bytes);
    }
}

#[test]
fn data_frame_of_a_short_packet() {
    let mut frame = Frame::new();
    encode_data_frame(&mut frame, 0x0201, b"xy", 0);
    assert_eq!(
        &frame[..],
        &[0x5E, 0x5E, 16, 0xDA, 0x01, 0x02, 2, 0, 0, 0, 0, 0, 0, 0, b'x', b'y']
    );
}

#[test]
fn data_frames_split_a_packet() {
    let data: Vec<u8> = (0..200u32).map(|i| i as u8).collect();
    let mut frame = Frame::new();
    encode_data_frame(&mut frame, 7, &data, 0);
    assert_eq!(frame.len(), 142);
    assert_eq!(&frame[..14], &[0x5E, 0x5E, 142, 0xDA, 7, 0, 200, 0, 0, 0, 0, 0, 0, 0]);
    assert_eq!(&frame[14..], &data[..128]);
    encode_data_frame(&mut frame, 7, &data, 1);
    assert_eq!(frame.len(), 86);
    assert_eq!(&frame[..14], &[0x5E, 0x5E, 86, 0xDA, 7, 0, 200, 0, 0, 0, 1, 0, 0, 0]);
    assert_eq!(&frame[14..], &data[128..]);
}

#[test]
fn data_frame_at_the_end_of_a_packet_has_no_payload() {
    let data = [9u8; 128];
    let mut frame = Frame::new();
    encode_data_frame(&mut frame, 1, &data, 1);
    assert_eq!(&frame[..], &[0x5E, 0x5E, 14, 0xDA, 1, 0, 128, 0, 0, 0, 1, 0, 0, 0]);
}

#[test]
fn crc_is_appended_little_endian() {
    assert_eq!(Crc::<u32>::new(&CRC_32_ISO_HDLC).checksum(b"123456789"), 0xCBF4_3926);
    let mut frame = Frame::new();
    encode_data_frame(&mut frame, 1, b"a", 0);
    let body = frame.to_vec();
    append_crc(&mut frame, 0xCBF4_3926);
    assert_eq!(frame.len(), body.len() + 4);
    assert_eq!(&frame[..body.len()], &body[..]);
    assert_eq!(&frame[body.len()..], &[0x26, 0x39, 0xF4, 0xCB]);
}

#[test]
fn crc_without_room_is_left_out() {
    for len in [143, 144, 145, 146] {
        let mut frame = Frame::new();
        frame.resize(len, 0x11).unwrap();
        append_crc(&mut frame, 0xFFFF_FFFF);
        assert_eq!(frame.to_vec(), vec![0x11; len]);
    }
    let mut frame = Frame::new();
    frame.resize(142, 0x11).unwrap();
    append_crc(&mut frame, 0xFFFF_FFFF);
    assert_eq!(frame.len(), 146);
}

#[test]
fn ack_frame_with_one_record() {
    let mut frame = Frame::new();
    frame.resize(30, 0x77).unwrap();
    assert_eq!(encode_ack_frame(&mut frame, ack(1, 2), &[]), 0);
    assert_eq!(&frame[..], &[0x5E, 0x5E, 10, 0xAC, 1, 0, 2, 0, 0, 0]);
}

#[test]
fn ack_frame_gathers_what_is_queued() {
    let mut frame = Frame::new();
    assert_eq!(encode_ack_frame(&mut frame, ack(1, 2), &[ack(1, 3), ack(2, 0)]), 2);
    assert_eq!(
        &frame[..],
        &[0x5E, 0x5E, 22, 0xAC, 1, 0, 2, 0, 0, 0, 1, 0, 3, 0, 0, 0, 2, 0, 0, 0, 0, 0]
    );
}

#[test]
fn ack_frame_takes_no_more_than_fits() {
    let queue: Vec<Ack> = (1..40).map(|i| ack(5, i)).collect();
    let mut frame = Frame::new();
    assert_eq!(encode_ack_frame(&mut frame, ack(5, 0), &queue), 22);
    assert_eq!(frame.len(), 142);
    assert_eq!(frame[2], 142);
    let expected: Vec<Ack> = (0..23).map(|i| ack(5, i)).collect();
    assert_eq!(decode_acks(&frame[4..]).as_slice(), &expected[..]);
    append_crc(&mut frame, 1);
    assert_eq!(frame.len(), CHUNK_LEN_MAX);
}

#[test]
fn no_queued_record_is_lost_repeated_or_reordered() {
    for total in 1..60u32 {
        let queue: Vec<Ack> = (0..total).map(|i| ack(7, i)).collect();
        let mut sent = 0;
        let mut read = vec![];
        while sent < queue.len() {
            let mut frame = Frame::new();
            let taken = encode_ack_frame(&mut frame, queue[sent], &queue[sent + 1..]);
            assert_eq!(taken, MORE_ACKS_MAX.min(queue.len() - sent - 1));
            sent += 1 + taken;
            read.extend_from_slice(decode_acks(&frame[4..]).as_slice());
        }
        assert_eq!(read, queue);
    }
}

#[test]
fn ack_frame_record_by_record() {
    let mut frame = Frame::new();
    start_ack_frame(&mut frame, ack(1, 1));
    assert_eq!(&frame[..], &[0x5E, 0x5E, 0, 0xAC, 1, 0, 1, 0, 0, 0]);
    let mut records = 1;
    while has_ack_room(&frame) {
        add_ack(&mut frame, ack(1, 1));
        records += 1;
    }
    assert_eq!(records, 23);
    close_ack_frame(&mut frame);
    assert_eq!(frame[2], 142);
}

#[test]
fn records_are_decoded_and_a_rest_is_not() {
    assert!(decode_acks(&[]).as_slice().is_empty());
    assert!(decode_acks(&[1, 0, 2, 0, 0]).as_slice().is_empty());
    assert_eq!(
        decode_acks(&[1, 0, 2, 0, 0, 0, 3, 0, 4, 0, 0, 0, 9, 9]).as_slice(),
        &[ack(1, 2), ack(3, 4)]
    );
}

#[test]
fn sizes_are_between_one_and_thirty_two() {
    assert!(sizes_supported(1, 1));
    assert!(sizes_supported(8, 4));
    assert!(sizes_supported(32, 32));
    assert!(!sizes_supported(0, 4));
    assert!(!sizes_supported(8, 0));
    assert!(!sizes_supported(33, 4));
    assert!(!sizes_supported(8, 33));
}
