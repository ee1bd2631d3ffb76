//! Wrapping 16-bit sequence numbers, compared by signed distance.
use vstd::prelude::*;

verus! {

/// Signed distance from `a` to `b` on the 16-bit ring: `(b - a)` read as an
/// `i16`, so it lies in `[-32768, 32767]`.
pub open spec fn seq_dist(a: u16, b: u16) -> int {
    let d = (b as int - a as int) % 65536;
    if d < 32768 {
        d
    } else {
        d - 65536
    }
}

/// The value `a + n` on the 16-bit ring.
pub open spec fn seq_add(a: u16, n: int) -> u16 {
    ((a as int + n) % 65536) as u16
}

/// The newer of `a` and `b` by signed distance: `a`, unless `b` lies ahead
/// of it.
pub open spec fn seq_newest(a: u16, b: u16) -> u16 {
    if seq_dist(b, a) >= 0 {
        a
    } else {
        b
    }
}

/// A 16-bit wrapping sequence number, used for packets and for messages.
#[derive(Clone, Copy, Debug, PartialEq, Eq, Structural, Hash)]
pub struct SeqNo(pub u16);

/// Sequence number of a packet on the wire.
pub type PacketSeq = SeqNo;

/// Sequence number of an application message.
pub type MessageSeq = SeqNo;

impl SeqNo {
    /// The sequence number with raw value `raw`.
    pub fn new(raw: u16) -> (r: SeqNo)
        ensures
            r.0 == raw,
    {
        SeqNo(raw)
    }

    /// Signed distance from `self` to `rhs`: positive when `rhs` is newer.
    pub fn dist_to(self, rhs: SeqNo) -> (r: i16)
        ensures
            r as int == seq_dist(self.0, rhs.0),
    {
        let d: u16 = rhs.0.wrapping_sub(self.0);
        if d < 32768 {
            d as i16
        } else {
            (d as i32 - 65536) as i16
        }
    }

    /// `self + n`, wrapping.
    pub fn wrapping_add(self, n: u16) -> (r: SeqNo)
        ensures
            r.0 == seq_add(self.0, n as int),
    {
        SeqNo(self.0.wrapping_add(n))
    }

    /// `self - n`, wrapping.
    pub fn wrapping_sub(self, n: u16) -> (r: SeqNo)
        ensures
            r.0 == seq_add(self.0, -(n as int)),
    {
        SeqNo(self.0.wrapping_sub(n))
    }
}

/// Adding `n` then `m` is adding `n + m`.
pub proof fn lemma_seq_add_add(a: u16, n: int, m: int)
    ensures
        seq_add(seq_add(a, n), m) == seq_add(a, n + m),
{
    let x = a as int + n;
    vstd::arithmetic::div_mod::lemma_add_mod_noop(x, m, 65536);
    vstd::arithmetic::div_mod::lemma_add_mod_noop_right(x % 65536, m, 65536);
}

/// Distance is antisymmetric: `a.dist_to(b) == -(b.dist_to(a))`, except for
/// the one distance `-32768`, whose negation is not a distance.
pub proof fn lemma_dist_antisymmetric(a: SeqNo, b: SeqNo)
    requires
        seq_dist(a.0, b.0) != -32768,
    ensures
        seq_dist(a.0, b.0) == -seq_dist(b.0, a.0),
{
}

} // verus!
