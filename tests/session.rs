use aeronet_proto::ack::Acknowledge;
use aeronet_proto::codec::PacketHeader;
use aeronet_proto::error::{RecvError, SendError, SessionFatal};
use aeronet_proto::lane::{LaneConfig, LaneKind, LaneRecv, OrderedRecv, SequencedRecv, DedupRecv};
use aeronet_proto::seq::SeqNo;
use aeronet_proto::session::{ClientConfig, MessageKey, Lanes};
use std::collections::HashMap;

fn config(kind: LaneKind) -> ClientConfig {
    let mut c = ClientConfig::new(vec![kind], vec![LaneConfig::new(kind)]);
    c.bandwidth = 1_000_000;
    c.burst = 1_000_000;
    c.max_packet_len = 1200;
    c
}

fn session(c: ClientConfig) -> Lanes {
    Lanes::new(c).unwrap()
}

fn header_only(seq: u16, last_recv: u16, bits: u32) -> Vec<u8> {
    let mut buf = Vec::new();
    PacketHeader { seq: SeqNo(seq), acks: Acknowledge { last_recv: SeqNo(last_recv), ack_bits: bits } }
        .encode(&mut buf);
    buf
}

#[test]
fn single_small_message_lossless() {
    let mut a = session(config(LaneKind::UnreliableUnordered));
    let mut b = session(config(LaneKind::UnreliableUnordered));
    let key = a.send(b"hello", 0).unwrap();
    assert_eq!(MessageKey { lane: 0, msg_seq: SeqNo(0) }, key);
    let packets = a.flush(0);
    assert_eq!(1, packets.len());
    assert_eq!(8 + 1 + 3 + 1 + 5, packets[0].len());
    let got = b.recv(0, &packets[0]).unwrap();
    assert!(got.acks.is_empty());
    assert_eq!(vec![Ok((b"hello".to_vec(), 0usize))], got.msgs);
    assert!(b.acks.is_acked(SeqNo(0)));
    assert!(a.sent_msgs.is_empty());
    assert!(a.flush(1).is_empty());
}

#[test]
fn fragmented_message_through_sessions() {
    let mut c = config(LaneKind::ReliableOrdered);
    c.max_payload_len = 8;
    c.max_packet_len = 8 + 1 + 3 + 1 + 8;
    let mut a = session(c.clone());
    let mut b = session(c);
    a.send(b"ABCDEFGHIJKLMNO", 0).unwrap();
    let packets = a.flush(0);
    assert_eq!(2, packets.len());
    assert!(b.recv(0, &packets[1]).unwrap().msgs.is_empty());
    let got = b.recv(0, &packets[0]).unwrap();
    assert_eq!(vec![Ok((b"ABCDEFGHIJKLMNO".to_vec(), 0usize))], got.msgs);
}

#[test]
fn reliable_retransmit() {
    let mut c = config(LaneKind::ReliableUnordered);
    c.lanes_out = vec![LaneConfig { kind: LaneKind::ReliableUnordered, resend_after: 100 }];
    let mut a = session(c);
    a.send(b"m", 0).unwrap();
    let first = a.flush(0);
    assert_eq!(1, first.len());
    assert!(a.flush(50).is_empty());
    let resent = a.flush(120);
    assert_eq!(1, resent.len());
    assert_eq!(first[0][8..], resent[0][8..]);
    assert_eq!(vec![0, 1], resent[0][..2].to_vec());
    assert_eq!(1, a.sent_msgs.len());
    let got = a.recv(130, &header_only(0, 1, 1)).unwrap();
    assert_eq!(vec![MessageKey { lane: 0, msg_seq: SeqNo(0) }], got.acks);
    assert!(a.sent_msgs.is_empty());
    assert_eq!(0, a.send_bytes);
}

#[test]
fn bandwidth_throttling() {
    let mut c = config(LaneKind::UnreliableUnordered);
    c.bandwidth = 500;
    c.burst = 500;
    c.max_payload_len = 200;
    c.max_packet_len = 300;
    let mut a = session(c);
    for _ in 0..10 {
        a.send(&[1u8; 186], 0).unwrap();
    }
    let first = a.flush(0);
    assert_eq!(2, first.len());
    assert!(first.iter().all(|p| p.len() == 200));
    assert_eq!(8, a.sent_msgs.len());
    let second = a.flush(1000);
    assert_eq!(2, second.len());
    let third = a.flush(1100);
    assert_eq!(0, third.len());
    let fourth = a.flush(2000);
    assert_eq!(2, fourth.len());
}

#[test]
fn bandwidth_window_is_capped() {
    let mut c = config(LaneKind::UnreliableUnordered);
    c.bandwidth = 1000;
    c.burst = 300;
    c.max_payload_len = 40;
    c.max_packet_len = 120;
    let mut a = session(c);
    for _ in 0..200 {
        a.send(&[3u8; 40], 0).unwrap();
    }
    let mut emitted = 0usize;
    let mut t = 0u64;
    while t <= 2000 {
        emitted += a.flush(t).iter().map(|p| p.len()).sum::<usize>();
        t += 70;
    }
    let elapsed_ms = 1960u64;
    assert!(emitted as u64 * 1000 <= 1000 * elapsed_ms + 300 * 1000);
    assert!(emitted > 0);
}

#[test]
fn ordered_lane_reorder_buffering() {
    let mut lane = LaneRecv::ReliableOrdered(OrderedRecv { next: SeqNo(10), pending: HashMap::new() });
    assert!(lane.recv(SeqNo(12), b"c".to_vec()).is_empty());
    assert!(lane.recv(SeqNo(11), b"b".to_vec()).is_empty());
    let out = lane.recv(SeqNo(10), b"a".to_vec());
    assert_eq!(
        vec![(SeqNo(10), b"a".to_vec()), (SeqNo(11), b"b".to_vec()), (SeqNo(12), b"c".to_vec())],
        out
    );
    assert!(lane.recv(SeqNo(11), b"b".to_vec()).is_empty());
    assert_eq!(vec![(SeqNo(13), b"d".to_vec())], lane.recv(SeqNo(13), b"d".to_vec()));
}

#[test]
fn ordered_lane_sequences_are_contiguous() {
    let mut lane = OrderedRecv { next: SeqNo(65534), pending: HashMap::new() };
    let mut delivered = Vec::new();
    for s in [1u16, 65535, 0, 65534, 3, 2] {
        for (seq, _) in lane.recv(SeqNo(s), vec![s as u8]) {
            delivered.push(seq);
        }
    }
    assert_eq!(vec![SeqNo(65534), SeqNo(65535), SeqNo(0), SeqNo(1), SeqNo(2), SeqNo(3)], delivered);
    assert_eq!(SeqNo(4), lane.next);
}

#[test]
fn sequenced_lane_drops_older() {
    let mut lane = SequencedRecv { last: None };
    assert_eq!(1, lane.recv(SeqNo(5), vec![5]).len());
    assert!(lane.recv(SeqNo(3), vec![3]).is_empty());
    assert!(lane.recv(SeqNo(5), vec![5]).is_empty());
    assert_eq!(1, lane.recv(SeqNo(9), vec![9]).len());
    assert_eq!(Some(SeqNo(9)), lane.last);
}

#[test]
fn reliable_unordered_lane_drops_duplicates() {
    let mut lane = DedupRecv { recent: Vec::new() };
    assert_eq!(1, lane.recv(SeqNo(5), vec![5]).len());
    assert_eq!(1, lane.recv(SeqNo(3), vec![3]).len());
    assert!(lane.recv(SeqNo(5), vec![5]).is_empty());
    assert_eq!(vec![5u16, 3], lane.recent);
}

#[test]
fn send_errors() {
    let mut c = config(LaneKind::ReliableOrdered);
    c.max_payload_len = 1;
    c.max_packet_len = 100;
    c.send_buffer_bytes_cap = 200;
    let mut a = session(c);
    assert_eq!(Err(SendError::InvalidLaneIndex), a.send(b"x", 1));
    assert_eq!(Err(SendError::TooManyFragments), a.send(&[0u8; 129], 0));
    assert!(a.send(&[0u8; 128], 0).is_ok());
    assert_eq!(Err(SendError::OutOfMemoryReliable), a.send(&[0u8; 100], 0));
    assert_eq!(Some(SessionFatal::OutOfMemoryReliable), a.fatal);
    assert_eq!(Err(SendError::Fatal(SessionFatal::OutOfMemoryReliable)), a.send(b"x", 0));
    assert!(a.flush(0).is_empty());
    assert_eq!(Err(SessionFatal::OutOfMemoryReliable), a.update(0));
}

#[test]
fn unreliable_overflow_evicts_oldest() {
    let mut c = ClientConfig::new(
        vec![LaneKind::UnreliableUnordered],
        vec![LaneConfig::new(LaneKind::UnreliableUnordered), LaneConfig::new(LaneKind::ReliableUnordered)],
    );
    c.send_buffer_bytes_cap = 10;
    let mut a = session(c);
    a.send(&[1u8; 4], 0).unwrap();
    a.send(&[2u8; 3], 1).unwrap();
    a.send(&[3u8; 3], 0).unwrap();
    let key = a.send(&[4u8; 4], 0).unwrap();
    assert_eq!(SeqNo(3), key.msg_seq);
    let seqs: Vec<SeqNo> = a.sent_msgs.iter().map(|m| m.msg_seq).collect();
    assert_eq!(vec![SeqNo(1), SeqNo(2), SeqNo(3)], seqs);
    assert_eq!(10, a.send_bytes);
    assert_eq!(Err(SendError::OutOfMemoryUnreliable), a.send(&[5u8; 8], 0));
    assert_eq!(None, a.fatal);
}

#[test]
fn recv_errors() {
    let mut a = session(config(LaneKind::UnreliableUnordered));
    assert!(matches!(a.recv(0, &[1, 2, 3]), Err(RecvError::ShortRead)));
    let mut bad_lane = header_only(0, 0, 0);
    bad_lane.extend_from_slice(&[5, 0, 0, 128, 1, 9]);
    let got = a.recv(0, &bad_lane).unwrap();
    assert_eq!(vec![Err(RecvError::InvalidLaneIndex)], got.msgs);
    let mut short = header_only(1, 0, 0);
    short.extend_from_slice(&[0, 0, 0, 128, 4, 9]);
    assert_eq!(vec![Err(RecvError::ShortRead)], a.recv(0, &short).unwrap().msgs);
    let mut varint = header_only(2, 0, 0);
    varint.extend_from_slice(&[0x80, 0x00, 0, 0, 128, 0]);
    assert_eq!(vec![Err(RecvError::BadVarint)], a.recv(0, &varint).unwrap().msgs);
    let mut big = header_only(3, 0, 0);
    big.extend_from_slice(&[0, 0, 7, 0, 2, 1, 2]);
    assert_eq!(vec![Err(RecvError::InvalidFragSize)], a.recv(0, &big).unwrap().msgs);
}

#[test]
fn set_mtu_checks_minimum() {
    let mut a = session(config(LaneKind::UnreliableUnordered));
    assert_eq!(Ok(()), a.set_mtu(1100));
    assert_eq!(1100, a.max_packet_len);
    assert_eq!(Err(SessionFatal::MtuTooSmall), a.set_mtu(20));
    assert_eq!(Some(SessionFatal::MtuTooSmall), a.fatal);
    assert_eq!(Err(SendError::Fatal(SessionFatal::MtuTooSmall)), a.send(b"x", 0));
}

#[test]
fn new_rejects_small_packets() {
    let mut c = config(LaneKind::UnreliableUnordered);
    c.max_payload_len = 100;
    c.max_packet_len = 8 + 1 + 3 + 1 + 100;
    assert!(Lanes::new(c.clone()).is_ok());
    c.max_packet_len -= 1;
    assert_eq!(Some(SessionFatal::MtuTooSmall), Lanes::new(c).err());
}

#[test]
fn update_forgets_old_packets_and_partial_messages() {
    let mut c = config(LaneKind::ReliableUnordered);
    c.max_payload_len = 4;
    c.max_packet_len = 17;
    c.reassembly_timeout = 3000;
    let mut a = session(c.clone());
    let mut b = session(c);
    for _ in 0..40 {
        a.send(b"abcd", 0).unwrap();
    }
    let packets = a.flush(0);
    assert_eq!(40, packets.len());
    assert_eq!(40, a.flushed_packets.len());
    assert_eq!(Ok(()), a.update(10));
    assert_eq!(33, a.flushed_packets.len());
    a.send(b"abcdefgh", 0).unwrap();
    let more = a.flush(1);
    assert_eq!(2, more.len());
    b.recv(5, &more[0]).unwrap();
    assert_eq!(1, b.frag_recv.msgs.len());
    assert_eq!(Ok(()), b.update(3000));
    assert_eq!(1, b.frag_recv.msgs.len());
    assert_eq!(Ok(()), b.update(3006));
    assert_eq!(0, b.frag_recv.msgs.len());
}

#[test]
fn round_robin_over_lanes() {
    let c = ClientConfig::new(
        vec![LaneKind::UnreliableUnordered, LaneKind::UnreliableUnordered],
        vec![LaneConfig::new(LaneKind::UnreliableUnordered), LaneConfig::new(LaneKind::UnreliableUnordered)],
    );
    let mut a = session(c.clone());
    let mut b = session(c);
    a.send(b"a1", 0).unwrap();
    a.send(b"a2", 0).unwrap();
    a.send(b"b1", 1).unwrap();
    let packets = a.flush(0);
    assert_eq!(1, packets.len());
    let got = b.recv(0, &packets[0]).unwrap();
    assert_eq!(
        vec![Ok((b"a1".to_vec(), 0usize)), Ok((b"b1".to_vec(), 1usize)), Ok((b"a2".to_vec(), 0usize))],
        got.msgs
    );
}

#[test]
fn reliable_delivery_under_loss() {
    let c = ClientConfig::new(
        vec![LaneKind::ReliableOrdered, LaneKind::UnreliableUnordered],
        vec![
            LaneConfig { kind: LaneKind::ReliableOrdered, resend_after: 100 },
            LaneConfig::new(LaneKind::UnreliableUnordered),
        ],
    );
    let mut a = session(c.clone());
    let mut b = session(c);
    for k in 0..5u8 {
        a.send(&[k; 3], 0).unwrap();
    }
    let mut delivered = Vec::new();
    let mut sent_count = 0usize;
    let mut t = 0u64;
    for _ in 0..30 {
        for p in a.flush(t) {
            sent_count += 1;
            if sent_count % 3 != 1 {
                for m in b.recv(t, &p).unwrap().msgs {
                    delivered.push(m.unwrap());
                }
            }
        }
        b.send(b"tick", 1).unwrap();
        for p in b.flush(t) {
            a.recv(t, &p).unwrap();
        }
        t += 60;
    }
    let expected: Vec<(Vec<u8>, usize)> = (0..5u8).map(|k| (vec![k; 3], 0usize)).collect();
    let reliable: Vec<(Vec<u8>, usize)> = delivered.into_iter().filter(|m| m.1 == 0).collect();
    assert_eq!(expected, reliable);
    assert!(a.sent_msgs.is_empty());
}

#[test]
fn malformed_packet_is_discarded() {
    let mut a = session(config(LaneKind::UnreliableUnordered));
    let mut packet = header_only(0, 0, 0);
    packet.extend_from_slice(&[0, 0, 1, 128, 2, b'o', b'k']);
    packet.extend_from_slice(&[7, 0, 2, 128, 1, b'x']);
    let got = a.recv(0, &packet).unwrap();
    assert_eq!(vec![Err(RecvError::InvalidLaneIndex)], got.msgs);
    let mut truncated = header_only(1, 0, 0);
    truncated.extend_from_slice(&[0, 0, 3, 128, 2, b'o', b'k']);
    truncated.extend_from_slice(&[0, 0, 4, 128, 5, b'x']);
    assert_eq!(vec![Err(RecvError::ShortRead)], a.recv(0, &truncated).unwrap().msgs);
    assert!(a.frag_recv.msgs.is_empty());
}

#[test]
fn ack_reports_completed_message_once() {
    let mut c = config(LaneKind::ReliableUnordered);
    c.max_payload_len = 4;
    c.max_packet_len = 17;
    let mut a = session(c);
    a.send(b"abcdefgh", 0).unwrap();
    let packets = a.flush(0);
    assert_eq!(2, packets.len());
    let first = a.recv(1, &header_only(0, 0, 1)).unwrap();
    assert!(first.acks.is_empty());
    assert_eq!(1, a.sent_msgs.len());
    let second = a.recv(2, &header_only(1, 1, 0b11)).unwrap();
    assert_eq!(vec![MessageKey { lane: 0, msg_seq: SeqNo(0) }], second.acks);
    assert!(a.sent_msgs.is_empty());
    let third = a.recv(3, &header_only(2, 1, 0b11)).unwrap();
    assert!(third.acks.is_empty());
}

#[test]
fn update_enforces_receive_budget() {
    let mut c = config(LaneKind::UnreliableUnordered);
    c.max_payload_len = 4;
    c.max_packet_len = 17;
    c.recv_buffer_bytes_cap = 8;
    let mut a = session(c);
    for s in 0..3u8 {
        let mut p = header_only(s as u16, 0, 0);
        p.extend_from_slice(&[0, 0, s, 0, 4, b'a', b'b', b'c', b'd']);
        assert!(a.recv(0, &p).unwrap().msgs.is_empty());
    }
    assert_eq!(3, a.frag_recv.msgs.len());
    assert_eq!(Ok(()), a.update(1));
    assert_eq!(vec![1u16, 2], a.frag_recv.order);
}
