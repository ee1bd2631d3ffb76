//! Lane kinds and the per-lane receive policies.
use std::collections::HashMap;

use vstd::prelude::*;

use crate::seq::{seq_add, seq_dist, MessageSeq, SeqNo};

verus! {

broadcast use vstd::std_specs::hash::group_hash_axioms;

/// How many recently delivered sequences a reliable unordered lane keeps to
/// drop duplicates.
pub const DEDUP_WINDOW: usize = 1024;

/// The delivery guarantees of a lane.
#[derive(Clone, Copy, Debug, PartialEq, Eq, Structural, Hash)]
pub enum LaneKind {
    /// Sent once; every message that arrives is delivered.
    UnreliableUnordered,
    /// Sent once; a message is delivered only if it is newer than the last
    /// one delivered.
    UnreliableSequenced,
    /// Resent until acknowledged; each message is delivered once, in any
    /// order.
    ReliableUnordered,
    /// Resent until acknowledged; each message is delivered once, in
    /// sequence order.
    ReliableOrdered,
}

impl LaneKind {
    /// Whether messages on this lane are resent until acknowledged.
    pub open spec fn reliable(self) -> bool {
        self is ReliableUnordered || self is ReliableOrdered
    }

    /// Whether messages on this lane are resent until acknowledged.
    pub fn is_reliable(self) -> (r: bool)
        ensures
            r == self.reliable(),
    {
        match self {
            LaneKind::ReliableUnordered | LaneKind::ReliableOrdered => true,
            _ => false,
        }
    }
}

/// Configuration of an outgoing lane.
#[derive(Clone, Copy, Debug, PartialEq, Eq, Structural, Hash)]
pub struct LaneConfig {
    /// The lane's delivery guarantees.
    pub kind: LaneKind,
    /// On a reliable lane, how long after its last transmission a fragment
    /// is sent again, in milliseconds.
    pub resend_after: u64,
}

impl LaneConfig {
    /// An outgoing lane of kind `kind`, resending after 100 ms when
    /// reliable.
    pub fn new(kind: LaneKind) -> (r: LaneConfig)
        ensures
            r.kind == kind,
            r.resend_after == 100,
    {
        LaneConfig { kind, resend_after: 100 }
    }
}

/// A delivered message with its sequence.
pub type Delivered = (MessageSeq, Vec<u8>);

/// Receive state of an unreliable sequenced lane.
pub struct SequencedRecv {
    /// Sequence of the last delivered message.
    pub last: Option<MessageSeq>,
}

/// Whether a sequenced lane delivers `s`: nothing delivered yet, or `s` is
/// newer than the last delivered.
pub open spec fn sequenced_accepts(last: Option<MessageSeq>, s: u16) -> bool {
    match last {
        None => true,
        Some(l) => seq_dist(l.0, s) > 0,
    }
}

impl SequencedRecv {
    /// Delivers `msg` if it is newer than the last delivered message.
    pub fn recv(&mut self, msg_seq: MessageSeq, msg: Vec<u8>) -> (r: Vec<Delivered>)
        ensures
            sequenced_accepts(old(self).last, msg_seq.0) ==> r@.len() == 1 && r@[0].0 == msg_seq
                && r@[0].1@ == msg@ && final(self).last == Some(msg_seq),
            !sequenced_accepts(old(self).last, msg_seq.0) ==> r@.len() == 0 && final(self).last
                == old(self).last,
    {
        let accept = match self.last {
            None => true,
            Some(l) => l.dist_to(msg_seq) > 0,
        };
        let mut out: Vec<Delivered> = Vec::new();
        if accept {
            self.last = Some(msg_seq);
            out.push((msg_seq, msg));
        }
        out
    }
}

/// Receive state of a reliable unordered lane: the recently delivered
/// sequences, oldest first.
pub struct DedupRecv {
    pub recent: Vec<u16>,
}

impl DedupRecv {
    /// The window never holds more than `DEDUP_WINDOW` sequences.
    pub open spec fn wf(&self) -> bool {
        self.recent@.len() <= DEDUP_WINDOW
    }

    /// The window after delivering `s`: `s` appended, the oldest dropped
    /// once the window is full.
    pub open spec fn remember(recent: Seq<u16>, s: u16) -> Seq<u16> {
        if recent.len() >= DEDUP_WINDOW {
            recent.push(s).drop_first()
        } else {
            recent.push(s)
        }
    }

    /// Delivers `msg` unless its sequence was delivered recently.
    pub fn recv(&mut self, msg_seq: MessageSeq, msg: Vec<u8>) -> (r: Vec<Delivered>)
        requires
            old(self).wf(),
        ensures
            final(self).wf(),
            old(self).recent@.contains(msg_seq.0) ==> r@.len() == 0 && final(self).recent@ == old(
                self,
            ).recent@,
            !old(self).recent@.contains(msg_seq.0) ==> r@.len() == 1 && r@[0].0 == msg_seq
                && r@[0].1@ == msg@ && final(self).recent@ == DedupRecv::remember(
                old(self).recent@,
                msg_seq.0,
            ),
    {
        let mut out: Vec<Delivered> = Vec::new();
        let mut i: usize = 0;
        while i < self.recent.len()
            invariant
                self.recent@ == old(self).recent@,
                self.recent@.len() <= DEDUP_WINDOW,
                out@.len() == 0,
                i <= self.recent@.len(),
                forall|j: int| 0 <= j < i ==> self.recent@[j] != msg_seq.0,
            decreases self.recent@.len() - i,
        {
            if self.recent[i] == msg_seq.0 {
                assert(self.recent@[i as int] == msg_seq.0);
                return out;
            }
            i = i + 1;
        }
        assert(!self.recent@.contains(msg_seq.0));
        self.recent.push(msg_seq.0);
        if self.recent.len() > DEDUP_WINDOW {
            self.recent.remove(0);
            assert(self.recent@ =~= old(self).recent@.push(msg_seq.0).drop_first());
        }
        out.push((msg_seq, msg));
        out
    }
}

/// Held-back messages with their bytes.
pub open spec fn pending_view(p: Map<u16, Vec<u8>>) -> Map<u16, Seq<u8>> {
    p.map_values(|v: Vec<u8>| v@)
}

/// Delivered messages with their bytes.
pub open spec fn delivered_view(r: Seq<Delivered>) -> Seq<(u16, Seq<u8>)> {
    r.map_values(|d: Delivered| (d.0.0, d.1@))
}

/// Takes out of `pend`, one after another, the messages at `next`,
/// `next + 1`, ... for as long as they are there (at most `fuel` of them):
/// the next sequence after them, what stays held back, and what was taken.
pub open spec fn drain(next: u16, pend: Map<u16, Seq<u8>>, fuel: nat) -> (u16, Map<u16, Seq<u8>>, Seq<(u16, Seq<u8>)>)
    decreases fuel,
{
    if fuel == 0 || !pend.contains_key(next) {
        (next, pend, Seq::empty())
    } else {
        let r = drain(seq_add(next, 1), pend.remove(next), (fuel - 1) as nat);
        (r.0, r.1, seq![(next, pend[next])] + r.2)
    }
}

/// A reliable ordered lane expecting `next` and holding `pend` receives
/// message `s`: an older one is dropped, a newer one held back unless it
/// already is, and the expected one delivered with every held-back message
/// that follows it without a gap. The next expected sequence, what stays
/// held back, and what is delivered.
pub open spec fn ordered_step(next: u16, pend: Map<u16, Seq<u8>>, s: u16, m: Seq<u8>) -> (u16, Map<u16, Seq<u8>>, Seq<(u16, Seq<u8>)>) {
    let d = seq_dist(next, s);
    if d < 0 {
        (next, pend, Seq::empty())
    } else if d > 0 {
        (next, if pend.contains_key(s) {
            pend
        } else {
            pend.insert(s, m)
        }, Seq::empty())
    } else {
        let r = drain(seq_add(next, 1), pend, pend.len());
        (r.0, r.1, seq![(next, m)] + r.2)
    }
}

/// Receive state of a reliable ordered lane.
pub struct OrderedRecv {
    /// Sequence of the next message to deliver.
    pub next: MessageSeq,
    /// Messages that arrived ahead of `next`.
    pub pending: HashMap<u16, Vec<u8>>,
}

impl OrderedRecv {
    /// Delivers messages in strict sequence order. A message older than
    /// `next` is dropped; a newer one is held back; the one at `next` is
    /// delivered together with the held-back messages that follow it
    /// without a gap. The sequences delivered are `next, next + 1, ...`.
    pub fn recv(&mut self, msg_seq: MessageSeq, msg: Vec<u8>) -> (r: Vec<Delivered>)
        ensures
            (final(self).next.0, pending_view(final(self).pending@), delivered_view(r@)) == ordered_step(
                old(self).next.0,
                pending_view(old(self).pending@),
                msg_seq.0,
                msg@,
            ),
            forall|i: int|
                0 <= i < r@.len() ==> (#[trigger] r@[i]).0.0 == seq_add(old(self).next.0, i),
            final(self).next.0 == seq_add(old(self).next.0, r@.len() as int),
            seq_dist(old(self).next.0, msg_seq.0) < 0 ==> r@.len() == 0 && final(self).next
                == old(self).next && final(self).pending@ == old(self).pending@,
            seq_dist(old(self).next.0, msg_seq.0) > 0 ==> r@.len() == 0 && final(self).next
                == old(self).next && final(self).pending@ == (if old(self).pending@.contains_key(
                msg_seq.0,
            ) {
                old(self).pending@
            } else {
                old(self).pending@.insert(msg_seq.0, msg)
            }),
            seq_dist(old(self).next.0, msg_seq.0) == 0 ==> {
                &&& r@.len() >= 1
                &&& r@[0].1@ == msg@
                &&& forall|i: int|
                    1 <= i < r@.len() ==> old(self).pending@.contains_key(#[trigger] r@[i].0.0)
                        && old(self).pending@[r@[i].0.0]@ == r@[i].1@
                &&& !final(self).pending@.contains_key(final(self).next.0)
                &&& forall|k: u16| #[trigger]
                    final(self).pending@.contains_key(k) ==> old(self).pending@.contains_key(k)
                        && final(self).pending@[k] == old(self).pending@[k]
            },
    {
        let mut out: Vec<Delivered> = Vec::new();
        let d = self.next.dist_to(msg_seq);
        if d < 0 {
            assert(delivered_view(out@) =~= Seq::<(u16, Seq<u8>)>::empty());
            return out;
        }
        if d > 0 {
            if !self.pending.contains_key(&msg_seq.0) {
                self.pending.insert(msg_seq.0, msg);
                assert(pending_view(self.pending@) =~= pending_view(old(self).pending@).insert(msg_seq.0, msg@));
            }
            assert(delivered_view(out@) =~= Seq::<(u16, Seq<u8>)>::empty());
            return out;
        }
        let ghost p0 = pending_view(old(self).pending@);
        let ghost whole = drain(seq_add(old(self).next.0, 1), p0, p0.len());
        proof {
            assert(msg_seq.0 == old(self).next.0) by {
                let a = old(self).next.0;
                let b = msg_seq.0;
                assert(seq_dist(a, b) == 0);
            }
            assert(seq_add(old(self).next.0, 0) == old(self).next.0);
        }
        out.push((msg_seq, msg));
        self.next = self.next.wrapping_add(1);
        proof {
            assert(pending_view(self.pending@).dom() =~= self.pending@.dom());
            assert(delivered_view(out@).drop_first() =~= Seq::<(u16, Seq<u8>)>::empty());
            assert(Seq::<(u16, Seq<u8>)>::empty() + whole.2 =~= whole.2);
        }
        loop
            invariant
                out@.len() >= 1,
                out@[0].1@ == msg@,
                forall|i: int|
                    0 <= i < out@.len() ==> (#[trigger] out@[i]).0.0 == seq_add(old(self).next.0, i),
                self.next.0 == seq_add(old(self).next.0, out@.len() as int),
                forall|i: int|
                    1 <= i < out@.len() ==> old(self).pending@.contains_key(#[trigger] out@[i].0.0)
                        && old(self).pending@[out@[i].0.0]@ == out@[i].1@,
                forall|k: u16| #[trigger]
                    self.pending@.contains_key(k) ==> old(self).pending@.contains_key(k)
                        && self.pending@[k] == old(self).pending@[k],
                self.pending@.len() + out@.len() <= old(self).pending@.len() + 1,
                self.pending@.dom().finite(),
                p0 == pending_view(old(self).pending@),
                whole == drain(seq_add(old(self).next.0, 1), p0, p0.len()),
                pending_view(self.pending@).len() == self.pending@.len(),
                ({
                    let cur = drain(self.next.0, pending_view(self.pending@), pending_view(self.pending@).len());
                    &&& whole.0 == cur.0
                    &&& whole.1 == cur.1
                    &&& whole.2 == delivered_view(out@).drop_first() + cur.2
                }),
            ensures
                !self.pending@.contains_key(self.next.0),
                whole.0 == self.next.0,
                whole.1 == pending_view(self.pending@),
                whole.2 == delivered_view(out@).drop_first(),
            decreases self.pending@.len(),
        {
            let k = self.next.0;
            let ghost pv = pending_view(self.pending@);
            let ghost outv = delivered_view(out@);
            let ghost pm = self.pending@;
            match self.pending.remove(&k) {
                Some(m) => {
                    proof {
                        assert(pending_view(self.pending@) =~= pv.remove(k));
                        assert(pv.contains_key(k));
                        assert(pending_view(self.pending@).dom() =~= self.pending@.dom());
                        assert(pv.remove(k).len() == pv.len() - 1);
                    }
                    out.push((self.next, m));
                    self.next = self.next.wrapping_add(1);
                    proof {
                        assert(delivered_view(out@).drop_first() =~= outv.drop_first() + seq![(k, m@)]);
                        let c1 = drain(self.next.0, pending_view(self.pending@), pending_view(self.pending@).len());
                        assert(drain(k, pv, pv.len()).2 =~= seq![(k, pv[k])] + c1.2);
                        assert(outv.drop_first() + (seq![(k, m@)] + c1.2) =~= outv.drop_first() + seq![(k, m@)] + c1.2);
                    }
                },
                None => {
                    proof {
                        assert(self.pending@ =~= pm);
                        assert(!pv.contains_key(k));
                        assert(drain(k, pv, pv.len()).2 =~= Seq::<(u16, Seq<u8>)>::empty());
                        assert(outv.drop_first() + Seq::<(u16, Seq<u8>)>::empty() =~= outv.drop_first());
                    }
                    break ;
                },
            }
        }
        proof {
            assert(delivered_view(out@) =~= seq![(old(self).next.0, msg@)] + delivered_view(out@).drop_first());
        }
        out
    }
}

} // verus!

verus! {

/// What a lane's receive state holds, by kind.
pub enum LaneView {
    UnreliableUnordered,
    UnreliableSequenced(Option<MessageSeq>),
    ReliableUnordered(Seq<u16>),
    ReliableOrdered(u16, Map<u16, Seq<u8>>),
}

/// A lane in state `l` receives message `s` with bytes `m`: its state
/// after, and what it delivers, by the policy of its kind.
pub open spec fn lane_step(l: LaneView, s: MessageSeq, m: Seq<u8>) -> (LaneView, Seq<(u16, Seq<u8>)>) {
    match l {
        LaneView::UnreliableUnordered => (l, seq![(s.0, m)]),
        LaneView::UnreliableSequenced(last) => if sequenced_accepts(last, s.0) {
            (LaneView::UnreliableSequenced(Some(s)), seq![(s.0, m)])
        } else {
            (l, Seq::empty())
        },
        LaneView::ReliableUnordered(recent) => if recent.contains(s.0) {
            (l, Seq::empty())
        } else {
            (LaneView::ReliableUnordered(DedupRecv::remember(recent, s.0)), seq![(s.0, m)])
        },
        LaneView::ReliableOrdered(next, pend) => {
            let r = ordered_step(next, pend, s.0, m);
            (LaneView::ReliableOrdered(r.0, r.1), r.2)
        },
    }
}

/// Receive state of one incoming lane, by kind.
pub enum LaneRecv {
    UnreliableUnordered,
    UnreliableSequenced(SequencedRecv),
    ReliableUnordered(DedupRecv),
    ReliableOrdered(OrderedRecv),
}

impl LaneRecv {
    /// What this lane's state holds.
    pub open spec fn view(&self) -> LaneView {
        match self {
            LaneRecv::UnreliableUnordered => LaneView::UnreliableUnordered,
            LaneRecv::UnreliableSequenced(q) => LaneView::UnreliableSequenced(q.last),
            LaneRecv::ReliableUnordered(d) => LaneView::ReliableUnordered(d.recent@),
            LaneRecv::ReliableOrdered(o) => LaneView::ReliableOrdered(o.next.0, pending_view(o.pending@)),
        }
    }

    /// The lane's own state is well formed.
    pub open spec fn wf(&self) -> bool {
        match self {
            LaneRecv::ReliableUnordered(d) => d.wf(),
            _ => true,
        }
    }

    /// The kind of this lane.
    pub open spec fn kind(&self) -> LaneKind {
        match self {
            LaneRecv::UnreliableUnordered => LaneKind::UnreliableUnordered,
            LaneRecv::UnreliableSequenced(_) => LaneKind::UnreliableSequenced,
            LaneRecv::ReliableUnordered(_) => LaneKind::ReliableUnordered,
            LaneRecv::ReliableOrdered(_) => LaneKind::ReliableOrdered,
        }
    }

    /// A fresh receive state for a lane of kind `kind`.
    pub fn new(kind: LaneKind) -> (r: LaneRecv)
        ensures
            r.wf(),
            r.kind() == kind,
            r matches LaneRecv::UnreliableSequenced(s) ==> s.last is None,
            r matches LaneRecv::ReliableUnordered(d) ==> d.recent@.len() == 0,
            r matches LaneRecv::ReliableOrdered(o) ==> o.next.0 == 0 && o.pending@.is_empty(),
    {
        match kind {
            LaneKind::UnreliableUnordered => LaneRecv::UnreliableUnordered,
            LaneKind::UnreliableSequenced => LaneRecv::UnreliableSequenced(SequencedRecv { last: None }),
            LaneKind::ReliableUnordered => LaneRecv::ReliableUnordered(DedupRecv { recent: Vec::new() }),
            LaneKind::ReliableOrdered => LaneRecv::ReliableOrdered(
                OrderedRecv { next: SeqNo(0), pending: HashMap::new() },
            ),
        }
    }

    /// Hands a reassembled message to the lane, which returns the messages
    /// it delivers in response, by the policy of its kind.
    pub fn recv(&mut self, msg_seq: MessageSeq, msg: Vec<u8>) -> (r: Vec<Delivered>)
        requires
            old(self).wf(),
        ensures
            final(self).wf(),
            final(self).kind() == old(self).kind(),
            (final(self).view(), delivered_view(r@)) == lane_step(old(self).view(), msg_seq, msg@),
            *old(self) is UnreliableUnordered ==> r@.len() == 1 && r@[0].0 == msg_seq && r@[0].1@
                == msg@,
            *old(self) matches LaneRecv::ReliableOrdered(o) ==> *final(self) matches LaneRecv::ReliableOrdered(
                o2,
            ) && o2.next.0 == seq_add(o.next.0, r@.len() as int) && forall|i: int|
                0 <= i < r@.len() ==> (#[trigger] r@[i]).0.0 == seq_add(o.next.0, i),
            *old(self) matches LaneRecv::UnreliableSequenced(q) ==> (if sequenced_accepts(
                q.last,
                msg_seq.0,
            ) {
                r@.len() == 1 && r@[0].0 == msg_seq && r@[0].1@ == msg@
            } else {
                r@.len() == 0
            }),
            *old(self) matches LaneRecv::ReliableUnordered(d) ==> (if d.recent@.contains(msg_seq.0) {
                r@.len() == 0
            } else {
                r@.len() == 1 && r@[0].0 == msg_seq && r@[0].1@ == msg@
            }),
    {
        match self {
            LaneRecv::UnreliableUnordered => {
                let mut out: Vec<Delivered> = Vec::new();
                out.push((msg_seq, msg));
                out
            },
            LaneRecv::UnreliableSequenced(s) => s.recv(msg_seq, msg),
            LaneRecv::ReliableUnordered(d) => d.recv(msg_seq, msg),
            LaneRecv::ReliableOrdered(o) => o.recv(msg_seq, msg),
        }
    }
}

} // verus!
