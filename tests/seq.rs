use aeronet_proto::seq::SeqNo;

#[test]
fn dist_forward_and_back() {
    assert_eq!(5, SeqNo(10).dist_to(SeqNo(15)));
    assert_eq!(-5, SeqNo(15).dist_to(SeqNo(10)));
    assert_eq!(0, SeqNo(7).dist_to(SeqNo(7)));
}

#[test]
fn dist_across_wrap() {
    assert_eq!(2, SeqNo(65535).dist_to(SeqNo(1)));
    assert_eq!(-2, SeqNo(1).dist_to(SeqNo(65535)));
    assert_eq!(-1, SeqNo(0).dist_to(SeqNo(65535)));
}

#[test]
fn dist_is_antisymmetric() {
    let pairs = [(0u16, 1u16), (100, 40000), (65535, 3), (12345, 12345), (0, 32767), (9, 32776)];
    for (a, b) in pairs {
        let d = SeqNo(a).dist_to(SeqNo(b));
        assert_eq!(d, -SeqNo(b).dist_to(SeqNo(a)));
    }
}

#[test]
fn dist_extreme() {
    assert_eq!(32767, SeqNo(0).dist_to(SeqNo(32767)));
    assert_eq!(-32768, SeqNo(0).dist_to(SeqNo(32768)));
    assert_eq!(-32768, SeqNo(32768).dist_to(SeqNo(0)));
}

#[test]
fn wrapping_arithmetic() {
    assert_eq!(SeqNo(0), SeqNo(65535).wrapping_add(1));
    assert_eq!(SeqNo(65535), SeqNo(0).wrapping_sub(1));
    assert_eq!(SeqNo(12), SeqNo::new(10).wrapping_add(2));
}
