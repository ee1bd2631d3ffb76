//! The receiver-side acknowledgement window: the newest packet sequence seen,
//! and a bitfield over the 32 sequences ending at it.
use vstd::prelude::*;

use crate::seq::{seq_add, seq_dist, seq_newest, SeqNo};

verus! {

/// `n << by`, where shifting by 32 or more gives 0.
pub open spec fn shl_spec(n: u32, by: u32) -> u32 {
    if by < 32 {
        n << by
    } else {
        0
    }
}

/// Shifts `n` left by `by` bits; every bit is shifted out when `by >= 32`.
pub fn shl(n: u32, by: u32) -> (r: u32)
    ensures
        r == shl_spec(n, by),
{
    if by < 32 {
        n << by
    } else {
        0
    }
}

/// Which packets have been received: bit `i` of `ack_bits` stands for the
/// sequence `last_recv - i`.
#[derive(Clone, Copy, Debug, PartialEq, Eq, Structural, Hash)]
pub struct Acknowledge {
    /// Newest packet sequence received.
    pub last_recv: SeqNo,
    /// Bit `i` is set iff `last_recv - i` has been received.
    pub ack_bits: u32,
}

impl Acknowledge {
    /// A window with nothing received.
    pub open spec fn default_spec() -> Acknowledge {
        Acknowledge { last_recv: SeqNo(0), ack_bits: 0 }
    }

    /// Whether `s` is recorded: it lies `d` in `[0, 32)` behind `last_recv`
    /// and bit `d` is set.
    pub open spec fn acked(self, s: u16) -> bool {
        let d = seq_dist(s, self.last_recv.0);
        0 <= d < 32 && self.ack_bits & shl_spec(1, d as u32) != 0
    }

    /// The value after recording `s`.
    pub open spec fn ack_spec(self, s: u16) -> Acknowledge {
        let d = seq_dist(s, self.last_recv.0);
        if d >= 0 {
            Acknowledge { last_recv: self.last_recv, ack_bits: self.ack_bits | shl_spec(1, d as u32) }
        } else {
            Acknowledge { last_recv: SeqNo(s), ack_bits: shl_spec(self.ack_bits, (-d) as u32) | 1 }
        }
    }

    /// A window with nothing received.
    pub fn new() -> (r: Acknowledge)
        ensures
            r.last_recv.0 == 0,
            r.ack_bits == 0,
    {
        Acknowledge { last_recv: SeqNo(0), ack_bits: 0 }
    }

    /// Records that packet `seq` was received. An older sequence sets its bit
    /// (or is dropped when 32 or more behind); a newer one becomes
    /// `last_recv`, shifting the bitfield by the distance.
    pub fn ack(&mut self, seq: SeqNo)
        ensures
            *final(self) == old(self).ack_spec(seq.0),
            final(self).last_recv.0 == seq_newest(old(self).last_recv.0, seq.0),
            seq_dist(seq.0, old(self).last_recv.0) < 32 ==> final(self).acked(seq.0),
    {
        let dist = seq.dist_to(self.last_recv);
        if dist >= 0 {
            self.ack_bits = self.ack_bits | shl(1, dist as u32);
            proof {
                let b = old(self).ack_bits;
                let d = dist as u32;
                if d < 32 {
                    assert((b | (1u32 << d)) & (1u32 << d) != 0) by (bit_vector)
                        requires d < 32;
                }
            }
        } else {
            self.last_recv = seq;
            let shift_by: u32 = (-(dist as i32)) as u32;
            self.ack_bits = shl(self.ack_bits, shift_by) | 1;
            proof {
                let x = shl_spec(old(self).ack_bits, shift_by);
                assert(seq_dist(seq.0, seq.0) == 0);
                assert((x | 1u32) & (1u32 << 0u32) != 0) by (bit_vector);
            }
        }
    }

    /// Whether packet `seq` is recorded as received.
    pub fn is_acked(&self, seq: SeqNo) -> (r: bool)
        ensures
            r == self.acked(seq.0),
    {
        let dist = seq.dist_to(self.last_recv);
        if dist >= 0 {
            let r = self.ack_bits & shl(1, dist as u32) != 0;
            proof {
                let b = self.ack_bits;
                if dist >= 32 {
                    assert(b & 0u32 == 0) by (bit_vector);
                }
            }
            r
        } else {
            false
        }
    }

    /// Every recorded sequence, from `last_recv` backwards by bit index.
    /// `last_recv` itself is listed only when bit 0 is set.
    pub fn seqs(&self) -> (r: Vec<SeqNo>)
        ensures
            forall|s: SeqNo| r@.contains(s) <==> self.acked(s.0),
            forall|i: int, j: int|
                0 <= i < j < r@.len() ==> seq_dist(r@[i].0, self.last_recv.0) < seq_dist(
                    r@[j].0,
                    self.last_recv.0,
                ),
    {
        let mut r: Vec<SeqNo> = Vec::new();
        let mut i: u16 = 0;
        while i < 32
            invariant
                i <= 32,
                forall|k: int|
                    0 <= k < r@.len() ==> 0 <= #[trigger] seq_dist(r@[k].0, self.last_recv.0) < i
                        && self.acked(r@[k].0),
                forall|k: int, j: int|
                    0 <= k < j < r@.len() ==> seq_dist(r@[k].0, self.last_recv.0) < seq_dist(
                        r@[j].0,
                        self.last_recv.0,
                    ),
                forall|s: SeqNo|
                    self.acked(s.0) && seq_dist(s.0, self.last_recv.0) < i ==> r@.contains(s),
            decreases 32 - i,
        {
            let s = self.last_recv.wrapping_sub(i);
            proof {
                lemma_dist_back(self.last_recv.0, i as int);
            }
            if self.ack_bits & shl(1, i as u32) != 0 {
                let ghost prev = r@;
                r.push(s);
                proof {
                    assert(r@[r@.len() - 1] == s);
                    assert forall|t: SeqNo|
                        self.acked(t.0) && seq_dist(t.0, self.last_recv.0) < i + 1 implies r@.contains(
                        t,
                    ) by {
                        if seq_dist(t.0, self.last_recv.0) == i {
                            lemma_back_dist(t.0, self.last_recv.0);
                            assert(t == s);
                            assert(r@[r@.len() - 1] == t);
                        } else {
                            assert(prev.contains(t));
                            let w = choose|w: int| 0 <= w < prev.len() && prev[w] == t;
                            assert(r@[w] == t);
                        }
                    }
                }
            } else {
                proof {
                    assert forall|t: SeqNo|
                        self.acked(t.0) && seq_dist(t.0, self.last_recv.0) < i + 1 implies r@.contains(
                        t,
                    ) by {
                        if seq_dist(t.0, self.last_recv.0) == i {
                            lemma_back_dist(t.0, self.last_recv.0);
                            assert(t == s);
                        }
                    }
                }
            }
            i = i + 1;
        }
        r
    }
}

impl Default for Acknowledge {
    /// A window with nothing received.
    fn default() -> (r: Acknowledge)
        ensures
            r.last_recv.0 == 0,
            r.ack_bits == 0,
    {
        Acknowledge::new()
    }
}

/// Stepping `k` back from `b` lands at distance `k` behind it.
proof fn lemma_dist_back(b: u16, k: int)
    requires
        0 <= k < 32768,
    ensures
        seq_dist(seq_add(b, -k), b) == k,
{
}

/// A sequence at distance `d` behind `b` is `b - d`.
proof fn lemma_back_dist(a: u16, b: u16)
    ensures
        seq_add(b, -seq_dist(a, b)) == a,
{
}

/// Recording the same sequence twice leaves the window as recording it once.
pub proof fn lemma_ack_idempotent(a: Acknowledge, s: SeqNo)
    ensures
        a.ack_spec(s.0).ack_spec(s.0) == a.ack_spec(s.0),
{
    let d = seq_dist(s.0, a.last_recv.0);
    let b = a.ack_bits;
    if d >= 0 {
        let x = shl_spec(1, d as u32);
        assert((b | x) | x == b | x) by (bit_vector);
    } else {
        let y = shl_spec(b, (-d) as u32);
        assert(seq_dist(s.0, s.0) == 0);
        assert(shl_spec(1, 0) == 1) by {
            assert(1u32 << 0u32 == 1) by (bit_vector);
        }
        assert((y | 1) | 1 == y | 1) by (bit_vector);
    }
}

/// After recording `s`, the newest sequence is the newer of the old one and
/// `s` by signed distance.
pub proof fn lemma_ack_last_recv(a: Acknowledge, s: SeqNo)
    ensures
        a.ack_spec(s.0).last_recv.0 == seq_newest(a.last_recv.0, s.0),
{
}

} // verus!
