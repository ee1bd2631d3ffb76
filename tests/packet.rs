use aeronet_proto::ack::Acknowledge;
use aeronet_proto::codec::{read_fragment, read_varint, write_fragment, write_varint, PacketHeader};
use aeronet_proto::error::RecvError;
use aeronet_proto::frag::{Fragment, FragmentHeader, FragmentMarker};
use aeronet_proto::seq::SeqNo;

fn hint_round_trip(v: &PacketHeader) {
    let mut buf: Vec<u8> = Vec::with_capacity(PacketHeader::ENCODE_LEN);
    v.encode(&mut buf);
    assert_eq!(PacketHeader::ENCODE_LEN, buf.len());
    assert_eq!(*v, PacketHeader::decode(&buf).unwrap());
}

#[test]
fn encode_decode() {
    hint_round_trip(&PacketHeader {
        seq: SeqNo::new(0),
        acks: Acknowledge {
            last_recv: SeqNo::new(0),
            ack_bits: 0,
        },
    });
    hint_round_trip(&PacketHeader {
        seq: SeqNo(u16::MAX),
        acks: Acknowledge {
            last_recv: SeqNo(u16::MAX),
            ack_bits: u32::MAX,
        },
    });
}

#[test]
fn header_bytes_are_big_endian() {
    let h = PacketHeader {
        seq: SeqNo(0x0102),
        acks: Acknowledge { last_recv: SeqNo(0x0304), ack_bits: 0x0506_0708 },
    };
    let mut buf = Vec::new();
    h.encode(&mut buf);
    assert_eq!(vec![1, 2, 3, 4, 5, 6, 7, 8], buf);
    assert_eq!(Err(RecvError::ShortRead), PacketHeader::decode(&buf[..7]));
}

#[test]
fn varint_encoding() {
    let cases: [(u64, Vec<u8>); 5] = [
        (0, vec![0]),
        (127, vec![127]),
        (128, vec![0x80, 0x01]),
        (300, vec![0xac, 0x02]),
        (u64::MAX, vec![0xff, 0xff, 0xff, 0xff, 0xff, 0xff, 0xff, 0xff, 0xff, 0x01]),
    ];
    for (v, bytes) in cases {
        let mut buf = Vec::new();
        write_varint(&mut buf, v);
        assert_eq!(bytes, buf);
        assert_eq!(Ok((v, bytes.len())), read_varint(&buf, 0));
    }
}

#[test]
fn varint_errors() {
    assert_eq!(Err(RecvError::ShortRead), read_varint(&[], 0));
    assert_eq!(Err(RecvError::ShortRead), read_varint(&[0x80, 0x80], 0));
    assert_eq!(Err(RecvError::BadVarint), read_varint(&[0x80, 0x00], 0));
    assert_eq!(
        Err(RecvError::BadVarint),
        read_varint(&[0xff, 0xff, 0xff, 0xff, 0xff, 0xff, 0xff, 0xff, 0xff, 0x02], 0)
    );
}

#[test]
fn fragment_wire_round_trip() {
    let h = FragmentHeader { msg_seq: SeqNo(0x1234), marker: FragmentMarker(0x81) };
    let mut buf = vec![9u8];
    write_fragment(&mut buf, 2, h, b"hey");
    assert_eq!(vec![9, 2, 0x12, 0x34, 0x81, 3, b'h', b'e', b'y'], buf);
    let (lane, got, payload, end) = read_fragment(&buf, 1).unwrap();
    assert_eq!((2, h, b"hey".to_vec(), 9), (lane, got, payload, end));
    assert_eq!(Err(RecvError::ShortRead), read_fragment(&buf[..8], 1).map(|x| x.3));
}

#[test]
fn fragment_encode_len() {
    let f = Fragment {
        header: FragmentHeader { msg_seq: SeqNo(1), marker: FragmentMarker(128) },
        payload: vec![0u8; 200],
    };
    assert_eq!(3 + 2 + 200, f.encode_len());
    let mut buf = Vec::new();
    f.encode(&mut buf);
    assert_eq!(f.encode_len(), buf.len());
}
