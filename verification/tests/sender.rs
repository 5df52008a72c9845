//! The sending end.

use std::cmp::Ordering;

use secure_serial::sender::{latest_first, ChunkInfo, SendAction};
use secure_serial::{Ack, PacketTransfer, SecureSerialSender, CHUNK_LEN_MAX};

type Frame = heapless::Vec<u8, CHUNK_LEN_MAX>;

fn chunk_of(frame: &Frame) -> u32 {
    u32::from_le_bytes([frame[10], frame[11], frame[12], frame[13]])
}

/// Sends the chunk that is next.
fn send(transfer: &mut PacketTransfer, now: u64) -> u32 {
    assert!(matches!(transfer.poll(), SendAction::WaitUntil(_)));
    let mut frame = Frame::new();
    transfer.on_slot_at(now, &mut frame).unwrap();
    chunk_of(&frame)
}

#[test]
fn packet_ids_count_up_from_one() {
    let mut sender = SecureSerialSender::new(8, 5, 8);
    assert_eq!(sender.write_packet_id(), 0);
    for id in 1..=3u16 {
        let mut transfer = sender.write_packet(b"x");
        transfer.poll();
        let mut frame = Frame::new();
        transfer.on_slot_at(1, &mut frame).unwrap();
        assert_eq!(&frame[4..6], &id.to_le_bytes());
        assert_eq!(sender.write_packet_id(), id);
    }
}

#[test]
fn empty_packet_is_done_at_once() {
    let mut sender = SecureSerialSender::new(8, 5, 8);
    assert_eq!(sender.write_packet(b"").poll(), SendAction::Done);
}

#[test]
fn chunk_is_encoded_as_a_data_frame() {
    let mut sender = SecureSerialSender::new(8, 5, 8);
    let mut transfer = sender.write_packet(b"ping");
    assert_eq!(transfer.poll(), SendAction::WaitUntil(5));
    let mut frame = Frame::new();
    frame.resize(50, 0x77).unwrap();
    assert_eq!(transfer.on_slot_at(9, &mut frame), Ok(()));
    assert_eq!(
        &frame[..],
        &[0x5E, 0x5E, 18, 0xDA, 1, 0, 4, 0, 0, 0, 0, 0, 0, 0, b'p', b'i', b'n', b'g']
    );
}

#[test]
fn packet_is_done_when_every_chunk_is_acknowledged() {
    let data = [1u8; 300];
    let mut sender = SecureSerialSender::new(8, 5, 8);
    let mut transfer = sender.write_packet(&data);
    for chunk_offset in [1, 0, 2] {
        assert!(transfer.poll() != SendAction::Done);
        transfer.on_ack(Ack { packet_id: 1, chunk_offset });
    }
    assert_eq!(transfer.poll(), SendAction::Done);
}

#[test]
fn foreign_acknowledgements_are_ignored() {
    let mut sender = SecureSerialSender::new(8, 5, 8);
    let mut transfer = sender.write_packet(b"x");
    transfer.poll();
    transfer.on_ack(Ack { packet_id: 2, chunk_offset: 0 });
    transfer.on_ack(Ack { packet_id: 0, chunk_offset: 0 });
    transfer.on_ack(Ack { packet_id: 1, chunk_offset: 1 });
    assert_eq!(transfer.poll(), SendAction::WaitUntil(5));
    transfer.on_ack(Ack { packet_id: 1, chunk_offset: 0 });
    assert_eq!(transfer.poll(), SendAction::Done);
    transfer.on_ack(Ack { packet_id: 1, chunk_offset: 0 });
    assert_eq!(transfer.poll(), SendAction::Done);
}

#[test]
fn acknowledgement_before_the_chunk_is_in_flight_is_ignored() {
    let mut sender = SecureSerialSender::new(8, 5, 8);
    let mut transfer = sender.write_packet(b"x");
    transfer.on_ack(Ack { packet_id: 1, chunk_offset: 0 });
    assert_eq!(transfer.poll(), SendAction::WaitUntil(5));
}

#[test]
fn every_chunk_is_sent_before_any_is_repeated() {
    let data = [1u8; 500];
    let mut sender = SecureSerialSender::new(8, 5, 8);
    let mut transfer = sender.write_packet(&data);
    let mut first: Vec<u32> = (1..=4).map(|now| send(&mut transfer, now)).collect();
    let second: Vec<u32> = (11..=14).map(|now| send(&mut transfer, now)).collect();
    assert_eq!(second, first);
    first.sort();
    assert_eq!(first, vec![0, 1, 2, 3]);
}

#[test]
fn chunk_is_due_when_its_delay_is_over() {
    let mut sender = SecureSerialSender::new(8, 50, 3);
    let mut transfer = sender.write_packet(b"x");
    assert_eq!(send(&mut transfer, 1000), 0);
    assert_eq!(transfer.poll(), SendAction::WaitUntil(1050));
    assert_eq!(send(&mut transfer, 1060), 0);
    assert_eq!(transfer.poll(), SendAction::WaitUntil(1110));
}

#[test]
fn longest_waiting_chunk_is_next() {
    let data = [1u8; 384];
    let mut sender = SecureSerialSender::new(3, 10, 9);
    let mut transfer = sender.write_packet(&data);
    let a = send(&mut transfer, 100);
    let b = send(&mut transfer, 50);
    let c = send(&mut transfer, 70);
    assert_eq!(transfer.poll(), SendAction::WaitUntil(60));
    assert_eq!(send(&mut transfer, 200), b);
    assert_eq!(send(&mut transfer, 200), c);
    assert_eq!(transfer.poll(), SendAction::WaitUntil(110));
    assert_eq!(send(&mut transfer, 200), a);
}

#[test]
fn acknowledged_chunk_is_not_sent_again() {
    let data = [1u8; 500];
    let mut sender = SecureSerialSender::new(3, 5, 3);
    let mut transfer = sender.write_packet(&data);
    transfer.poll();
    transfer.on_ack(Ack { packet_id: 1, chunk_offset: 1 });
    for now in 1..=9 {
        assert!(send(&mut transfer, now) != 1);
    }
    // Those that are left have been sent as often as allowed.
    transfer.poll();
    assert_eq!(transfer.on_slot_at(10, &mut Frame::new()), Err(()));
}

#[test]
fn sent_chunk_is_within_the_window() {
    let data = [1u8; 128 * 10];
    let mut sender = SecureSerialSender::new(4, 0, 100);
    let mut transfer = sender.write_packet(&data);
    let mut open: Vec<u32> = (0..10).collect();
    let mut now = 0;
    while transfer.poll() != SendAction::Done {
        now += 1;
        let chunk_offset = send(&mut transfer, now);
        assert!(open.iter().filter(|c| **c <= chunk_offset).count() <= 4);
        if now % 3 == 0 {
            transfer.on_ack(Ack { packet_id: 1, chunk_offset });
            open.retain(|c| *c != chunk_offset);
        }
    }
    assert!(open.is_empty());
}

#[test]
fn window_is_filled_as_acknowledgements_come() {
    let data = [1u8; 384];
    let mut sender = SecureSerialSender::new(1, 5, 8);
    let mut transfer = sender.write_packet(&data);
    for chunk_offset in 0..3 {
        assert_eq!(send(&mut transfer, 10), chunk_offset);
        assert_eq!(transfer.poll(), SendAction::WaitUntil(15));
        transfer.on_ack(Ack { packet_id: 1, chunk_offset });
    }
    assert_eq!(transfer.poll(), SendAction::Done);
}

#[test]
fn window_holds_thirty_two_chunks() {
    let data = vec![1u8; 128 * 40];
    let mut sender = SecureSerialSender::new(32, 5, 8);
    let mut transfer = sender.write_packet(&data);
    let mut sent: Vec<u32> = (1..=32).map(|now| send(&mut transfer, now)).collect();
    assert_eq!(send(&mut transfer, 33), sent[0]);
    sent.sort();
    assert_eq!(sent, (0..32).collect::<Vec<u32>>());
}

#[test]
fn chunk_is_sent_as_often_as_allowed() {
    let mut sender = SecureSerialSender::new(8, 5, 2);
    let mut transfer = sender.write_packet(b"fail");
    assert_eq!(send(&mut transfer, 10), 0);
    assert_eq!(send(&mut transfer, 20), 0);
    assert_eq!(transfer.poll(), SendAction::WaitUntil(25));
    let mut frame = Frame::new();
    frame.push(0x42).unwrap();
    assert_eq!(transfer.on_slot_at(30, &mut frame), Err(()));
    assert_eq!(&frame[..], &[0x42]);
    assert_eq!(transfer.poll(), SendAction::WaitUntil(25));
}

#[test]
fn nothing_is_sent_where_nothing_is_allowed() {
    let mut sender = SecureSerialSender::new(8, 5, 0);
    let mut transfer = sender.write_packet(b"fail");
    assert_eq!(transfer.poll(), SendAction::WaitUntil(5));
    assert_eq!(transfer.on_slot(&mut Frame::new()), Err(()));
}

#[test]
fn due_time_may_overflow() {
    let mut sender = SecureSerialSender::new(8, 1, 2);
    let mut transfer = sender.write_packet(b"x");
    send(&mut transfer, u64::MAX - 1);
    assert_eq!(transfer.poll(), SendAction::WaitUntil(u64::MAX));
    send(&mut transfer, u64::MAX);
    assert_eq!(transfer.poll(), SendAction::DueTimeOverflow);
}

#[test]
fn clock_gives_the_time_of_sending() {
    let mut sender = SecureSerialSender::new(8, 1_000_000, 2);
    let mut transfer = sender.write_packet(b"x");
    assert_eq!(transfer.poll(), SendAction::WaitUntil(1_000_000));
    let mut frame = Frame::new();
    let before = embassy_time::Instant::now().as_ticks();
    assert_eq!(transfer.on_slot(&mut frame), Ok(()));
    let after = embassy_time::Instant::now().as_ticks();
    assert_eq!(frame.len(), 15);
    match transfer.poll() {
        SendAction::WaitUntil(due) => {
            assert!(before + 1_000_000 <= due && due <= after + 1_000_000);
        }
        _ => panic!("the chunk is due again"),
    }
}

#[test]
fn order_is_latest_first() {
    let at = |last_sent_at| ChunkInfo { chunk_offset: 0, last_sent_at, allowed_retransmits: 1 };
    assert_eq!(latest_first(&at(2), &at(1)), Ordering::Less);
    assert_eq!(latest_first(&at(1), &at(1)), Ordering::Equal);
    assert_eq!(latest_first(&at(1), &at(2)), Ordering::Greater);
}
