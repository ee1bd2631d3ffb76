use aeronet_proto::error::{RecvError, SendError};
use aeronet_proto::frag::{
    Fragment, FragmentHeader, FragmentMarker, FragmentReceiver, FragmentSender,
};
use aeronet_proto::seq::SeqNo;

const PAYLOAD_LEN: usize = 64;

const MSG1: &[u8] = b"Message 1";
const MSG2: &[u8] = b"Message 2";
const MSG3: &[u8] = b"Message 3";

fn frag() -> (FragmentSender, FragmentReceiver) {
    (
        FragmentSender::new(PAYLOAD_LEN),
        FragmentReceiver::new(PAYLOAD_LEN),
    )
}

fn now() -> u64 {
    0
}

#[test]
fn round_trip_header() {
    let v = FragmentHeader {
        msg_seq: SeqNo::new(12),
        marker: FragmentMarker::from_raw(34),
    };
    let mut buf: Vec<u8> = Vec::with_capacity(FragmentHeader::ENCODE_LEN);

    v.encode(&mut buf);
    assert_eq!(FragmentHeader::ENCODE_LEN, buf.len());

    assert_eq!(v, FragmentHeader::decode(&buf, 0).unwrap());
}

#[test]
fn single_in_order() {
    let (send, mut recv) = frag();
    let f1 = send.fragment(SeqNo::new(0), MSG1).unwrap().remove(0);
    let f2 = send.fragment(SeqNo::new(1), MSG2).unwrap().remove(0);
    let f3 = send.fragment(SeqNo::new(2), MSG3).unwrap().remove(0);
    assert_eq!(MSG1, recv.reassemble_frag(now(), f1).unwrap().unwrap());
    assert_eq!(MSG2, recv.reassemble_frag(now(), f2).unwrap().unwrap());
    assert_eq!(MSG3, recv.reassemble_frag(now(), f3).unwrap().unwrap());
}

#[test]
fn single_out_of_order() {
    let (send, mut recv) = frag();
    let f1 = send.fragment(SeqNo::new(0), MSG1).unwrap().remove(0);
    let f2 = send.fragment(SeqNo::new(1), MSG2).unwrap().remove(0);
    let f3 = send.fragment(SeqNo::new(2), MSG3).unwrap().remove(0);
    assert_eq!(MSG3, recv.reassemble_frag(now(), f3).unwrap().unwrap());
    assert_eq!(MSG1, recv.reassemble_frag(now(), f1).unwrap().unwrap());
    assert_eq!(MSG2, recv.reassemble_frag(now(), f2).unwrap().unwrap());
}

#[test]
fn large1() {
    let (send, mut recv) = frag();
    let msg = b"x".repeat(PAYLOAD_LEN + 10);
    let frags = send.fragment(SeqNo::new(0), &msg).unwrap();
    assert_eq!(2, frags.len());
    let mut it = frags.into_iter();
    let (f1, f2) = (it.next().unwrap(), it.next().unwrap());
    assert!(matches!(recv.reassemble_frag(now(), f1), Ok(None)));
    assert!(matches!(recv.reassemble_frag(now(), f2), Ok(Some(b)) if b == msg));
}

#[test]
fn large2() {
    let (send, mut recv) = frag();
    let msg = b"x".repeat(PAYLOAD_LEN * 2 + 10);
    let frags = send.fragment(SeqNo::new(0), &msg).unwrap();
    assert_eq!(3, frags.len());
    let mut it = frags.into_iter();
    let (f1, f2, f3) = (it.next().unwrap(), it.next().unwrap(), it.next().unwrap());
    assert!(matches!(recv.reassemble_frag(now(), f1), Ok(None)));
    assert!(matches!(recv.reassemble_frag(now(), f2), Ok(None)));
    assert!(matches!(recv.reassemble_frag(now(), f3), Ok(Some(b)) if b == msg));
}

#[test]
fn marker_bits() {
    assert_eq!(Some(FragmentMarker(5)), FragmentMarker::non_last(5));
    assert_eq!(Some(FragmentMarker(133)), FragmentMarker::last(5));
    assert_eq!(None, FragmentMarker::non_last(128));
    assert_eq!(None, FragmentMarker::last(200));
    assert_eq!(Some(FragmentMarker(127)), FragmentMarker::new(127, false));
    assert_eq!(Some(FragmentMarker(255)), FragmentMarker::new(127, true));
    let m = FragmentMarker::from_raw(0b1000_0011);
    assert_eq!(3, m.index());
    assert!(m.is_last());
    assert_eq!(0b1000_0011, m.into_raw());
    let n = FragmentMarker::from_raw(0b0111_1111);
    assert_eq!(127, n.index());
    assert!(!n.is_last());
}

#[test]
fn fragmented_message_out_of_order() {
    let send = FragmentSender::new(8);
    let mut recv = FragmentReceiver::new(8);
    let msg = b"ABCDEFGHIJKLMNO";
    let frags = send.fragment(SeqNo(3), msg).unwrap();
    assert_eq!(2, frags.len());
    assert_eq!(0, frags[0].header.marker.index());
    assert!(!frags[0].header.marker.is_last());
    assert_eq!(b"ABCDEFGH".to_vec(), frags[0].payload);
    assert_eq!(1, frags[1].header.marker.index());
    assert!(frags[1].header.marker.is_last());
    assert_eq!(b"IJKLMNO".to_vec(), frags[1].payload);
    let mut it = frags.into_iter();
    let (f0, f1) = (it.next().unwrap(), it.next().unwrap());
    assert_eq!(Ok(None), recv.reassemble_frag(10, f1));
    assert_eq!(Ok(Some(msg.to_vec())), recv.reassemble_frag(11, f0));
    assert!(recv.msgs.is_empty());
}

#[test]
fn empty_payload_is_one_empty_last_fragment() {
    let send = FragmentSender::new(8);
    let frags = send.fragment(SeqNo(0), b"").unwrap();
    assert_eq!(1, frags.len());
    assert!(frags[0].header.marker.is_last());
    assert_eq!(0, frags[0].header.marker.index());
    assert!(frags[0].payload.is_empty());
    let mut recv = FragmentReceiver::new(8);
    assert_eq!(Ok(Some(Vec::new())), recv.reassemble_frag(0, frags.into_iter().next().unwrap()));
}

#[test]
fn exact_multiple_of_payload_len() {
    let send = FragmentSender::new(4);
    let frags = send.fragment(SeqNo(0), b"abcdefgh").unwrap();
    assert_eq!(2, frags.len());
    assert_eq!(b"efgh".to_vec(), frags[1].payload);
    assert!(frags[1].header.marker.is_last());
}

#[test]
fn too_many_fragments() {
    let send = FragmentSender::new(1);
    assert!(send.fragment(SeqNo(0), &[7u8; 128]).is_ok());
    assert_eq!(Err(SendError::TooManyFragments), send.fragment(SeqNo(0), &[7u8; 129]).map(|v| v.len()));
}

fn permutations(n: usize) -> Vec<Vec<usize>> {
    if n == 0 {
        return vec![Vec::new()];
    }
    let mut out = Vec::new();
    for p in permutations(n - 1) {
        for pos in 0..=p.len() {
            let mut q = p.clone();
            q.insert(pos, n - 1);
            out.push(q);
        }
    }
    out
}

#[test]
fn round_trip_in_any_order() {
    let payload: Vec<u8> = (0..23u8).collect();
    for p in [1usize, 5, 6, 22, 23, 100] {
        let send = FragmentSender::new(p);
        let frags = send.fragment(SeqNo(9), &payload).unwrap();
        let n = frags.len();
        assert_eq!((payload.len() + p - 1) / p, n);
        let orders = if n <= 5 { permutations(n) } else { vec![(0..n).rev().collect(), (0..n).collect()] };
        for order in orders {
            let mut recv = FragmentReceiver::new(p);
            let mut done = Vec::new();
            for (k, &i) in order.iter().enumerate() {
                let r = recv.reassemble_frag(0, frags[i].clone()).unwrap();
                if k + 1 < n {
                    assert_eq!(None, r);
                } else {
                    done.push(r.unwrap());
                }
            }
            assert_eq!(vec![payload.clone()], done);
        }
    }
}

#[test]
fn duplicate_fragment_is_ignored() {
    let send = FragmentSender::new(4);
    let mut recv = FragmentReceiver::new(4);
    let frags = send.fragment(SeqNo(1), b"abcdefg").unwrap();
    assert_eq!(Ok(None), recv.reassemble_frag(0, frags[0].clone()));
    assert_eq!(Ok(None), recv.reassemble_frag(0, frags[0].clone()));
    assert_eq!(Ok(Some(b"abcdefg".to_vec())), recv.reassemble_frag(0, frags[1].clone()));
}

fn frag_of(seq: u16, raw_marker: u8, payload: &[u8]) -> Fragment {
    Fragment {
        header: FragmentHeader { msg_seq: SeqNo(seq), marker: FragmentMarker(raw_marker) },
        payload: payload.to_vec(),
    }
}

#[test]
fn invalid_frag_size() {
    let mut recv = FragmentReceiver::new(4);
    assert_eq!(Err(RecvError::InvalidFragSize), recv.reassemble_frag(0, frag_of(0, 0, b"abc")));
    assert_eq!(Err(RecvError::InvalidFragSize), recv.reassemble_frag(0, frag_of(0, 128, b"abcde")));
    assert!(recv.msgs.is_empty());
}

#[test]
fn invalid_frag_index() {
    let mut recv = FragmentReceiver::new(4);
    assert_eq!(Ok(None), recv.reassemble_frag(0, frag_of(0, 128 + 1, b"ab")));
    assert_eq!(Err(RecvError::InvalidFragIndex), recv.reassemble_frag(0, frag_of(0, 2, b"abcd")));
}

#[test]
fn inconsistent_last_fragment() {
    let mut recv = FragmentReceiver::new(4);
    assert_eq!(Ok(None), recv.reassemble_frag(0, frag_of(0, 128 + 2, b"ab")));
    assert_eq!(Err(RecvError::InconsistentLastFragment), recv.reassemble_frag(0, frag_of(0, 128 + 1, b"ab")));
    let mut other = FragmentReceiver::new(4);
    assert_eq!(Ok(None), other.reassemble_frag(0, frag_of(5, 3, b"abcd")));
    assert_eq!(Err(RecvError::InconsistentLastFragment), other.reassemble_frag(0, frag_of(5, 128 + 1, b"ab")));
}

#[test]
fn clean_up_drops_expired() {
    let mut recv = FragmentReceiver::new(4);
    assert_eq!(Ok(None), recv.reassemble_frag(100, frag_of(1, 0, b"abcd")));
    assert_eq!(Ok(None), recv.reassemble_frag(2000, frag_of(2, 0, b"abcd")));
    recv.clean_up(3050, 3000);
    assert_eq!(2, recv.msgs.len());
    recv.clean_up(3101, 3000);
    assert_eq!(1, recv.msgs.len());
    assert!(recv.msgs.contains_key(&2));
    assert_eq!(vec![2u16], recv.order);
}

#[test]
fn evict_to_drops_oldest_first() {
    let mut recv = FragmentReceiver::new(4);
    assert_eq!(Ok(None), recv.reassemble_frag(0, frag_of(1, 0, b"abcd")));
    assert_eq!(Ok(None), recv.reassemble_frag(1, frag_of(2, 0, b"abcd")));
    assert_eq!(Ok(None), recv.reassemble_frag(2, frag_of(3, 2, b"abcd")));
    assert_eq!(0, recv.evict_to(20));
    assert_eq!(2, recv.evict_to(12));
    assert_eq!(vec![3u16], recv.order);
    assert!(recv.msgs.contains_key(&3));
}
