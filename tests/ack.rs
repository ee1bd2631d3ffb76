use aeronet_proto::ack::{shl, Acknowledge};
use aeronet_proto::seq::SeqNo;

#[test]
fn shl_in_range() {
    assert_eq!(0b10, shl(0b01, 1));
    assert_eq!(0b1010, shl(0b101, 1));

    assert_eq!(0b10100, shl(0b101, 2));
    assert_eq!(0b10100000, shl(0b101, 5));
}

#[test]
fn shl_out_of_range() {
    assert_eq!(0b0, shl(0b10101, 32));
    assert_eq!(0b0, shl(0b11111, 32));

    assert_eq!(0b0, shl(0b10101, 40));
    assert_eq!(0b0, shl(0b11111, 40));
}

#[test]
fn encode_decode_header() {
    let v = Acknowledge {
        last_recv: SeqNo(12),
        ack_bits: 0b010101,
    };
    let mut buf: Vec<u8> = Vec::with_capacity(Acknowledge::ENCODE_LEN);

    v.encode(&mut buf);
    assert_eq!(Acknowledge::ENCODE_LEN, buf.len());

    assert_eq!(v, Acknowledge::decode(&buf, 0).unwrap());
}

#[test]
fn ack_then_is_acked() {
    let mut acks = Acknowledge::new();
    acks.ack(SeqNo(0));
    assert!(acks.is_acked(SeqNo(0)));
    assert!(!acks.is_acked(SeqNo(1)));

    acks.ack(SeqNo(1));
    assert!(acks.is_acked(SeqNo(1)));

    acks.ack(SeqNo(2));
    assert!(acks.is_acked(SeqNo(2)));

    acks.ack(SeqNo(5));
    assert!(acks.is_acked(SeqNo(0)));
    assert!(acks.is_acked(SeqNo(1)));
    assert!(acks.is_acked(SeqNo(2)));
    assert!(acks.is_acked(SeqNo(5)));
    assert!(!acks.is_acked(SeqNo(3)));
}

#[test]
fn ack_is_idempotent() {
    let mut acks = Acknowledge::new();
    acks.ack(SeqNo(0));
    acks.ack(SeqNo(1));
    acks.ack(SeqNo(5));
    let before = acks;
    acks.ack(SeqNo(2));
    let once = acks;
    acks.ack(SeqNo(2));
    assert_eq!(once, acks);
    assert_ne!(before, acks);
    acks.ack(SeqNo(9));
    let once = acks;
    acks.ack(SeqNo(9));
    assert_eq!(once, acks);
}

#[test]
fn ack_keeps_newest_last_recv() {
    let mut acks = Acknowledge::new();
    acks.ack(SeqNo(10));
    assert_eq!(SeqNo(10), acks.last_recv);
    acks.ack(SeqNo(4));
    assert_eq!(SeqNo(10), acks.last_recv);
    acks.ack(SeqNo(65530));
    assert_eq!(SeqNo(10), acks.last_recv);
    acks.ack(SeqNo(12));
    assert_eq!(SeqNo(12), acks.last_recv);

    let mut wrap = Acknowledge { last_recv: SeqNo(65535), ack_bits: 1 };
    wrap.ack(SeqNo(1));
    assert_eq!(SeqNo(1), wrap.last_recv);
    assert_eq!(0b101, wrap.ack_bits);
}

#[test]
fn ack_too_old_is_dropped() {
    let mut acks = Acknowledge { last_recv: SeqNo(100), ack_bits: 1 };
    acks.ack(SeqNo(60));
    assert_eq!(Acknowledge { last_recv: SeqNo(100), ack_bits: 1 }, acks);
    assert!(!acks.is_acked(SeqNo(60)));
}

#[test]
fn ack_far_newer_clears_bits() {
    let mut acks = Acknowledge { last_recv: SeqNo(10), ack_bits: 0xffff_ffff };
    acks.ack(SeqNo(50));
    assert_eq!(SeqNo(50), acks.last_recv);
    assert_eq!(1, acks.ack_bits);
}

#[test]
fn ack_bitfield_example() {
    let mut acks = Acknowledge::default();
    acks.ack(SeqNo(40));
    assert_eq!(SeqNo(40), acks.last_recv);
    assert_eq!(0b1, acks.ack_bits);
    acks.ack(SeqNo(37));
    assert_eq!(SeqNo(40), acks.last_recv);
    assert_eq!(0b1001, acks.ack_bits);
    acks.ack(SeqNo(33));
    assert_eq!(0b1000_1001, acks.ack_bits);
    acks.ack(SeqNo(42));
    assert_eq!(SeqNo(42), acks.last_recv);
    assert_eq!((0b1000_1001 << 2) | 1, acks.ack_bits);
}

#[test]
fn is_acked_window() {
    let mut acks = Acknowledge::new();
    acks.ack(SeqNo(1));
    assert!(acks.is_acked(SeqNo(1)));

    acks.ack(SeqNo(2));
    assert!(acks.is_acked(SeqNo(1)));
    assert!(acks.is_acked(SeqNo(2)));
    assert!(!acks.is_acked(SeqNo(3)));

    acks.ack(SeqNo(50));
    assert!(acks.is_acked(SeqNo(50)));
    assert!(!acks.is_acked(SeqNo(10)));
}

#[test]
fn seqs_lists_set_bits() {
    let acks = Acknowledge {
        last_recv: SeqNo(50),
        ack_bits: 0b0010010,
    };
    assert_eq!(vec![SeqNo(49), SeqNo(46)], acks.seqs());
}

#[test]
fn seqs_match_is_acked() {
    let mut acks = Acknowledge::new();
    for s in [3u16, 7, 8, 20, 21, 30, 39] {
        acks.ack(SeqNo(s));
    }
    let listed = acks.seqs();
    for s in &listed {
        assert!(acks.is_acked(*s));
    }
    let mut expected = Vec::new();
    for d in 0..32u16 {
        let s = SeqNo(39u16.wrapping_sub(d));
        if acks.is_acked(s) {
            expected.push(s);
        }
    }
    assert_eq!(expected, listed);
    assert_eq!(vec![SeqNo(39), SeqNo(30), SeqNo(21), SeqNo(20), SeqNo(8)], listed);
}

#[test]
fn seqs_skip_unset_last_recv() {
    let acks = Acknowledge { last_recv: SeqNo(5), ack_bits: 0 };
    assert!(acks.seqs().is_empty());
    let fresh = Acknowledge::default();
    assert!(fresh.seqs().is_empty());
}
