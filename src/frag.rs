//! Splitting a message into indexed fragments, and joining fragments back
//! into messages.
use std::collections::HashMap;

use vstd::prelude::*;

use crate::error::{RecvError, SendError};
use crate::seq::MessageSeq;

verus! {

broadcast use vstd::std_specs::hash::group_hash_axioms;

/// Bit of a marker that flags the last fragment of a message.
pub const LAST_MASK: u8 = 128;

/// Largest number of fragments that one message can be split into.
pub const MAX_FRAGS: usize = 128;

/// Index of a fragment in its message (low 7 bits) and whether it is the
/// last one (top bit).
#[derive(Clone, Copy, Debug, PartialEq, Eq, Structural, Hash)]
pub struct FragmentMarker(pub u8);

impl FragmentMarker {
    /// The fragment index that this marker carries.
    pub open spec fn index_spec(self) -> u8 {
        (self.0 % 128) as u8
    }

    /// Whether this marker flags the last fragment.
    pub open spec fn is_last_spec(self) -> bool {
        self.0 >= 128
    }

    /// The marker with the raw byte `raw`.
    pub fn from_raw(raw: u8) -> (r: FragmentMarker)
        ensures
            r.0 == raw,
    {
        FragmentMarker(raw)
    }

    /// The raw byte of this marker.
    pub fn into_raw(self) -> (r: u8)
        ensures
            r == self.0,
    {
        self.0
    }

    /// The marker of a fragment at `index` that is not the last one, or
    /// `None` if `index` does not fit in 7 bits.
    pub fn non_last(index: u8) -> (r: Option<FragmentMarker>)
        ensures
            r == (if index < 128 {
                Some(FragmentMarker(index))
            } else {
                None
            }),
    {
        if index & LAST_MASK == 0 {
            proof {
                assert(index & 128u8 == 0 ==> index < 128) by (bit_vector);
            }
            Some(FragmentMarker(index))
        } else {
            proof {
                assert(index & 128u8 != 0 ==> index >= 128) by (bit_vector);
            }
            None
        }
    }

    /// The marker of the last fragment, at `index`, or `None` if `index` does
    /// not fit in 7 bits.
    pub fn last(index: u8) -> (r: Option<FragmentMarker>)
        ensures
            r == (if index < 128 {
                Some(FragmentMarker((index + 128) as u8))
            } else {
                None
            }),
    {
        if index & LAST_MASK == 0 {
            proof {
                assert(index & 128u8 == 0 ==> index < 128 && index | 128u8 == index + 128)
                    by (bit_vector);
            }
            Some(FragmentMarker(index | LAST_MASK))
        } else {
            proof {
                assert(index & 128u8 != 0 ==> index >= 128) by (bit_vector);
            }
            None
        }
    }

    /// The marker of a fragment at `index`, last or not, or `None` if
    /// `index` does not fit in 7 bits.
    pub fn new(index: u8, is_last: bool) -> (r: Option<FragmentMarker>)
        ensures
            r == (if index >= 128 {
                None
            } else if is_last {
                Some(FragmentMarker((index + 128) as u8))
            } else {
                Some(FragmentMarker(index))
            }),
    {
        if is_last {
            FragmentMarker::last(index)
        } else {
            FragmentMarker::non_last(index)
        }
    }

    /// Index of the fragment in its message.
    pub fn index(self) -> (r: u8)
        ensures
            r == self.index_spec(),
            r < 128,
    {
        let x = self.0;
        proof {
            assert(x & 127u8 == x % 128) by (bit_vector);
        }
        x & 127
    }

    /// Whether this is the last fragment of its message.
    pub fn is_last(self) -> (r: bool)
        ensures
            r == self.is_last_spec(),
    {
        let x = self.0;
        proof {
            assert((x & 128u8 != 0) == (x >= 128)) by (bit_vector);
        }
        x & LAST_MASK != 0
    }
}

/// Which message a fragment belongs to, and where in it.
#[derive(Clone, Copy, Debug, PartialEq, Eq, Structural, Hash)]
pub struct FragmentHeader {
    /// Sequence number of the message.
    pub msg_seq: MessageSeq,
    /// Index of the fragment, and whether it is the last.
    pub marker: FragmentMarker,
}

/// A piece of a message as it travels in a packet.
#[derive(Clone, Debug, PartialEq, Eq)]
pub struct Fragment {
    /// Which message, and where in it.
    pub header: FragmentHeader,
    /// The bytes of this piece.
    pub payload: Vec<u8>,
}

/// Number of fragments that a payload of `len` bytes is split into, with at
/// most `p` bytes each: `ceil(len / p)`, and 1 for an empty payload.
pub open spec fn frag_count(len: nat, p: nat) -> nat {
    if len == 0 {
        1
    } else {
        ((len - 1) as nat / p) + 1
    }
}

/// The `i`-th chunk of `payload`: bytes `[i * p, min((i + 1) * p, len))`,
/// empty past the end.
pub open spec fn chunk(payload: Seq<u8>, p: nat, i: nat) -> Seq<u8> {
    let start = if i * p < payload.len() {
        i * p
    } else {
        payload.len()
    };
    let end = if start + p < payload.len() {
        start + p
    } else {
        payload.len()
    };
    payload.subrange(start as int, end as int)
}

/// A chunk is at most `p` bytes long.
pub proof fn lemma_chunk_len(payload: Seq<u8>, p: nat, i: nat)
    ensures
        chunk(payload, p, i).len() <= p,
{
}

/// `f` is fragment `i` of the `n` fragments of `payload` for message
/// `msg_seq`, with `p` bytes per fragment.
pub open spec fn is_fragment_of(
    f: Fragment,
    msg_seq: MessageSeq,
    payload: Seq<u8>,
    p: nat,
    i: nat,
    n: nat,
) -> bool {
    &&& f.header.msg_seq == msg_seq
    &&& f.header.marker.0 == (if i + 1 == n {
        i + 128
    } else {
        i
    })
    &&& f.payload@ == chunk(payload, p, i)
}

/// Bytes `[start, end)` of `b`, copied.
pub fn copy_bytes(b: &[u8], start: usize, end: usize) -> (r: Vec<u8>)
    requires
        start <= end <= b@.len(),
    ensures
        r@ == b@.subrange(start as int, end as int),
{
    let mut r: Vec<u8> = Vec::new();
    let mut i = start;
    while i < end
        invariant
            start <= i <= end <= b@.len(),
            r@ == b@.subrange(start as int, i as int),
        decreases end - i,
    {
        r.push(b[i]);
        i = i + 1;
    }
    r
}

/// Splits messages into fragments of at most `max_payload_len` bytes.
#[derive(Clone, Copy, Debug)]
pub struct FragmentSender {
    /// Largest payload of one fragment.
    pub max_payload_len: usize,
}

impl FragmentSender {
    /// A sender that makes fragments of at most `max_payload_len` bytes.
    pub fn new(max_payload_len: usize) -> (r: FragmentSender)
        requires
            max_payload_len > 0,
        ensures
            r.max_payload_len == max_payload_len,
    {
        FragmentSender { max_payload_len }
    }

    /// Splits `payload` into `ceil(len / max_payload_len)` fragments (one
    /// empty fragment for an empty payload), indexed from 0, the last one
    /// marked as such. Fails when more than 128 fragments would be needed.
    pub fn fragment(&self, msg_seq: MessageSeq, payload: &[u8]) -> (r: Result<
        Vec<Fragment>,
        SendError,
    >)
        requires
            self.max_payload_len > 0,
        ensures
            frag_count(payload@.len(), self.max_payload_len as nat) > 128 <==> r == Err::<
                Vec<Fragment>,
                SendError,
            >(SendError::TooManyFragments),
            r is Err ==> r == Err::<Vec<Fragment>, SendError>(SendError::TooManyFragments),
            r matches Ok(v) ==> {
                let n = frag_count(payload@.len(), self.max_payload_len as nat);
                &&& v@.len() == n
                &&& forall|i: int|
                    0 <= i < n ==> #[trigger] is_fragment_of(
                        v@[i],
                        msg_seq,
                        payload@,
                        self.max_payload_len as nat,
                        i as nat,
                        n,
                    )
            },
    {
        let p = self.max_payload_len;
        let len = payload.len();
        let n: usize = if len == 0 {
            1
        } else {
            (len - 1) / p + 1
        };
        if n > MAX_FRAGS {
            return Err(SendError::TooManyFragments);
        }
        proof {
            if len > 0 {
                let q = (len - 1) as int / p as int;
                vstd::arithmetic::div_mod::lemma_fundamental_div_mod((len - 1) as int, p as int);
                vstd::arithmetic::div_mod::lemma_mod_pos_bound((len - 1) as int, p as int);
                let rem = (len - 1) as int % (p as int);
                assert(p * q <= len - 1);
                assert(len - 1 < p * (q + 1)) by (nonlinear_arith)
                    requires len - 1 == p * q + rem, rem < p;
                assert((n - 1) * p == p * q) by (nonlinear_arith)
                    requires n - 1 == q;
                assert(len <= n * p) by (nonlinear_arith)
                    requires len - 1 < p * (q + 1), n == q + 1;
            }
        }
        let mut out: Vec<Fragment> = Vec::new();
        let mut i: usize = 0;
        let mut start: usize = 0;
        while i < n
            invariant
                n == frag_count(len as nat, p as nat),
                n <= 128,
                p > 0,
                len == payload@.len(),
                i <= n,
                i < n ==> start == i * p,
                len > 0 ==> (n - 1) * p <= len - 1,
                len > 0 ==> len <= n * p,
                len == 0 ==> n == 1,
                out@.len() == i,
                forall|j: int|
                    0 <= j < i ==> #[trigger] is_fragment_of(
                        out@[j],
                        msg_seq,
                        payload@,
                        p as nat,
                        j as nat,
                        n as nat,
                    ),
            decreases n - i,
        {
            proof {
                if len > 0 {
                    assert(i * p <= (n - 1) * p) by (nonlinear_arith)
                        requires i <= n - 1, p > 0;
                } else {
                    assert(i == 0);
                    assert(0 * p == 0);
                }
            }
            let end: usize = if len - start > p {
                start + p
            } else {
                len
            };
            let bytes = copy_bytes(payload, start, end);
            let is_last = i + 1 == n;
            let marker = if is_last {
                FragmentMarker(i as u8 + LAST_MASK)
            } else {
                FragmentMarker(i as u8)
            };
            let f = Fragment { header: FragmentHeader { msg_seq, marker }, payload: bytes };
            proof {
                assert(i * p == i as nat * p as nat);
            }
            out.push(f);
            proof {
                assert(is_fragment_of(out@[i as int], msg_seq, payload@, p as nat, i as nat, n as nat));
                assert((i + 1) * p == i * p + p) by (nonlinear_arith);
            }
            if i + 1 < n {
                proof {
                    assert((i + 1) * p <= (n - 1) * p) by (nonlinear_arith)
                        requires i + 1 <= n - 1, p > 0;
                }
                start = start + p;
            }
            i = i + 1;
        }
        Ok(out)
    }
}

} // verus!

verus! {

/// What the receiver knows of one message that is not complete yet.
pub struct PartialView {
    /// Number of fragments, known once the last one arrived.
    pub num_frags: Option<u8>,
    /// Slot `i` holds fragment `i`'s bytes once it arrived.
    pub slots: Seq<Option<Seq<u8>>>,
    /// When the first fragment arrived, in milliseconds.
    pub first_seen: u64,
}

/// The bytes of a slot, if it is filled.
pub open spec fn slot_view(o: Option<Vec<u8>>) -> Option<Seq<u8>> {
    match o {
        Some(v) => Some(v@),
        None => None,
    }
}

/// A message being reassembled.
pub struct PartialMessage {
    /// Number of fragments, known once the last one arrived.
    pub num_frags: Option<u8>,
    /// Slot `i` holds fragment `i`'s bytes once it arrived; the vector is as
    /// long as the highest index received, plus one.
    pub frags: Vec<Option<Vec<u8>>>,
    /// When the first fragment arrived, in milliseconds.
    pub first_seen: u64,
}

impl PartialMessage {
    /// What the receiver knows of this message.
    pub open spec fn view(&self) -> PartialView {
        PartialView {
            num_frags: self.num_frags,
            slots: self.frags@.map_values(|o: Option<Vec<u8>>| slot_view(o)),
            first_seen: self.first_seen,
        }
    }
}

/// Every slot is filled and the last fragment has been seen.
pub open spec fn is_complete(e: PartialView) -> bool {
    &&& e.num_frags matches Some(n)
    &&& e.slots.len() == n
    &&& forall|i: int| 0 <= i < e.slots.len() ==> #[trigger] e.slots[i] is Some
}

/// The bytes in a slot; none for an empty one.
pub open spec fn slot_bytes(o: Option<Seq<u8>>) -> Seq<u8> {
    match o {
        Some(b) => b,
        None => Seq::empty(),
    }
}

/// The message that the filled slots spell, in index order.
pub open spec fn assembled(e: PartialView) -> Seq<u8> {
    e.slots.map_values(|o: Option<Seq<u8>>| slot_bytes(o)).flatten()
}

/// The slots after putting `p` at `idx`, padding with empty slots.
pub open spec fn place(slots: Seq<Option<Seq<u8>>>, idx: nat, p: Seq<u8>) -> Seq<Option<Seq<u8>>> {
    if idx < slots.len() {
        slots.update(idx as int, Some(p))
    } else {
        slots + Seq::new((idx - slots.len()) as nat, |j: int| None::<Seq<u8>>) + seq![Some(p)]
    }
}

/// The entry of a message once fragment `idx` with bytes `p` is put into it.
pub open spec fn with_fragment(
    e: Option<PartialView>,
    now: u64,
    idx: nat,
    last: bool,
    p: Seq<u8>,
) -> PartialView {
    let base = match e {
        Some(e) => e,
        None => PartialView { num_frags: None, slots: Seq::empty(), first_seen: now },
    };
    PartialView {
        num_frags: if last {
            Some((idx + 1) as u8)
        } else {
            base.num_frags
        },
        slots: place(base.slots, idx, p),
        first_seen: base.first_seen,
    }
}

/// The error that a fragment meets, if any: an index past the known count,
/// a last fragment that disagrees with what was seen, a wrong size.
pub open spec fn reassemble_error(
    e: Option<PartialView>,
    idx: nat,
    last: bool,
    len: nat,
    max_payload_len: nat,
) -> Option<RecvError> {
    let bad_index = match e {
        Some(e) => match e.num_frags {
            Some(n) => idx >= n,
            None => false,
        },
        None => false,
    };
    let bad_last = match e {
        Some(e) => last && (e.slots.len() > idx + 1 || match e.num_frags {
            Some(n) => n != idx + 1,
            None => false,
        }),
        None => false,
    };
    if bad_index {
        Some(RecvError::InvalidFragIndex)
    } else if bad_last {
        Some(RecvError::InconsistentLastFragment)
    } else if (last && len > max_payload_len) || (!last && len != max_payload_len) {
        Some(RecvError::InvalidFragSize)
    } else {
        None
    }
}

/// The fragment's slot is already filled.
pub open spec fn is_duplicate(e: Option<PartialView>, idx: nat) -> bool {
    match e {
        Some(e) => idx < e.slots.len() && e.slots[idx as int] is Some,
        None => false,
    }
}

/// One fragment taken in by a receiver whose messages are `m`, with
/// `p` bytes per full fragment: the messages after, and the outcome (an
/// error, nothing yet, or the completed message).
pub open spec fn reassemble_step(
    m: Map<u16, PartialView>,
    p: nat,
    now: u64,
    h: FragmentHeader,
    payload: Seq<u8>,
) -> (Map<u16, PartialView>, Result<Option<Seq<u8>>, RecvError>) {
    let k = h.msg_seq.0;
    let e = if m.contains_key(k) {
        Some(m[k])
    } else {
        None
    };
    let idx = h.marker.index_spec() as nat;
    let last = h.marker.is_last_spec();
    let ne = with_fragment(e, now, idx, last, payload);
    match reassemble_error(e, idx, last, payload.len(), p) {
        Some(x) => (m, Err(x)),
        None => if is_duplicate(e, idx) {
            (m, Ok(None))
        } else if is_complete(ne) {
            (m.remove(k), Ok(Some(assembled(ne))))
        } else {
            (m.insert(k, ne), Ok(None))
        },
    }
}

/// The outcome of `reassemble` with the message as bytes.
pub open spec fn outcome_view(r: Result<Option<Vec<u8>>, RecvError>) -> Result<Option<Seq<u8>>, RecvError> {
    match r {
        Ok(Some(v)) => Ok(Some(v@)),
        Ok(None) => Ok(None),
        Err(e) => Err(e),
    }
}

/// Joins fragments back into messages, keyed by message sequence.
pub struct FragmentReceiver {
    /// Payload size of every fragment but the last.
    pub max_payload_len: usize,
    /// Messages with some fragments received.
    pub msgs: HashMap<u16, PartialMessage>,
    /// The keys of `msgs`, oldest first.
    pub order: Vec<u16>,
}

/// Well-formed entry: at most 128 slots, exactly the known count of them,
/// and at least one filled.
pub open spec fn entry_wf(e: PartialView) -> bool {
    &&& e.slots.len() <= 128
    &&& e.num_frags matches Some(n) ==> e.slots.len() == n
}

impl FragmentReceiver {
    /// The messages being reassembled, by sequence.
    pub open spec fn view(&self) -> Map<u16, PartialView> {
        self.msgs@.map_values(|e: PartialMessage| e.view())
    }

    /// The entry of message `k`, if some of its fragments are held.
    pub open spec fn entry(&self, k: u16) -> Option<PartialView> {
        if self.msgs@.contains_key(k) {
            Some(self.msgs@[k].view())
        } else {
            None
        }
    }

    /// Every entry is well formed, and `order` lists each key once.
    pub open spec fn wf(&self) -> bool {
        &&& self.max_payload_len > 0
        &&& forall|k: u16| #[trigger] self.msgs@.contains_key(k) ==> entry_wf(self.msgs@[k].view())
        &&& self.order@.no_duplicates()
        &&& forall|k: u16| #[trigger] self.msgs@.contains_key(k) <==> self.order@.contains(k)
    }

    /// A receiver with nothing buffered.
    pub fn new(max_payload_len: usize) -> (r: FragmentReceiver)
        requires
            max_payload_len > 0,
        ensures
            r.wf(),
            r.max_payload_len == max_payload_len,
            r.msgs@.is_empty(),
    {
        FragmentReceiver { max_payload_len, msgs: HashMap::new(), order: Vec::new() }
    }
}

/// Whether every slot is filled.
fn all_filled(frags: &Vec<Option<Vec<u8>>>) -> (r: bool)
    ensures
        r == forall|i: int| 0 <= i < frags@.len() ==> #[trigger] frags@[i] is Some,
{
    let mut i: usize = 0;
    while i < frags.len()
        invariant
            i <= frags@.len(),
            forall|j: int| 0 <= j < i ==> #[trigger] frags@[j] is Some,
        decreases frags@.len() - i,
    {
        if frags[i].is_none() {
            return false;
        }
        i = i + 1;
    }
    true
}

/// The bytes of all slots, one after another.
fn join(frags: &Vec<Option<Vec<u8>>>) -> (r: Vec<u8>)
    ensures
        r@ == frags@.map_values(|o: Option<Vec<u8>>| slot_view(o)).map_values(
            |o: Option<Seq<u8>>| slot_bytes(o),
        ).flatten(),
{
    let ghost parts = frags@.map_values(|o: Option<Vec<u8>>| slot_view(o)).map_values(
        |o: Option<Seq<u8>>| slot_bytes(o),
    );
    let mut out: Vec<u8> = Vec::new();
    let mut i: usize = 0;
    while i < frags.len()
        invariant
            i <= frags@.len(),
            parts.len() == frags@.len(),
            parts == frags@.map_values(|o: Option<Vec<u8>>| slot_view(o)).map_values(
                |o: Option<Seq<u8>>| slot_bytes(o),
            ),
            out@ == parts.subrange(0, i as int).flatten(),
        decreases frags@.len() - i,
    {
        proof {
            parts.subrange(0, i as int).lemma_flatten_push(parts[i as int]);
            assert(parts.subrange(0, i as int).push(parts[i as int]) =~= parts.subrange(
                0,
                i as int + 1,
            ));
        }
        match &frags[i] {
            Some(v) => {
                let mut bytes = copy_bytes(v.as_slice(), 0, v.len());
                assert(bytes@ =~= parts[i as int]);
                out.append(&mut bytes);
            },
            None => {
                assert(parts[i as int] =~= Seq::<u8>::empty());
                assert(out@ + parts[i as int] =~= out@);
            },
        }
        i = i + 1;
    }
    assert(parts.subrange(0, i as int) =~= parts);
    out
}

impl FragmentReceiver {
    /// Takes in one fragment; see `reassemble`.
    pub fn reassemble_frag(&mut self, now: u64, frag: Fragment) -> (r: Result<Option<Vec<u8>>, RecvError>)
        requires
            old(self).wf(),
        ensures
            final(self).wf(),
            final(self).max_payload_len == old(self).max_payload_len,
            ({
                let k = frag.header.msg_seq.0;
                let e = old(self).entry(k);
                let idx = frag.header.marker.index_spec() as nat;
                let last = frag.header.marker.is_last_spec();
                let ne = with_fragment(e, now, idx, last, frag.payload@);
                match reassemble_error(e, idx, last, frag.payload@.len(), old(self).max_payload_len as nat) {
                    Some(x) => r == Err::<Option<Vec<u8>>, RecvError>(x) && final(self).view()
                        == old(self).view(),
                    None => if is_duplicate(e, idx) {
                        r == Ok::<Option<Vec<u8>>, RecvError>(None) && final(self).view() == old(
                            self,
                        ).view()
                    } else if is_complete(ne) {
                        &&& r matches Ok(Some(v))
                        &&& v@ == assembled(ne)
                        &&& final(self).view() == old(self).view().remove(k)
                    } else {
                        r == Ok::<Option<Vec<u8>>, RecvError>(None) && final(self).view() == old(
                            self,
                        ).view().insert(k, ne)
                    },
                }
            }),
    {
        self.reassemble(now, frag.header, frag.payload.as_slice())
    }

    /// Takes in one fragment of message `header.msg_seq`. Returns the whole
    /// message once its last missing fragment arrives, and nothing for a
    /// fragment that leaves it incomplete or that was already received.
    /// Fails, changing nothing, on an index past the known fragment count,
    /// on a last fragment that disagrees with what was seen, and on a
    /// payload that is not `max_payload_len` bytes (at most that for the last
    /// fragment).
    pub fn reassemble(&mut self, now: u64, header: FragmentHeader, payload: &[u8]) -> (r: Result<
        Option<Vec<u8>>,
        RecvError,
    >)
        requires
            old(self).wf(),
        ensures
            final(self).wf(),
            final(self).max_payload_len == old(self).max_payload_len,
            (final(self).view(), outcome_view(r)) == reassemble_step(
                old(self).view(),
                old(self).max_payload_len as nat,
                now,
                header,
                payload@,
            ),
            ({
                let k = header.msg_seq.0;
                let e = old(self).entry(k);
                let idx = header.marker.index_spec() as nat;
                let last = header.marker.is_last_spec();
                let ne = with_fragment(e, now, idx, last, payload@);
                match reassemble_error(e, idx, last, payload@.len(), old(self).max_payload_len as nat) {
                    Some(x) => r == Err::<Option<Vec<u8>>, RecvError>(x) && final(self).view()
                        == old(self).view(),
                    None => if is_duplicate(e, idx) {
                        r == Ok::<Option<Vec<u8>>, RecvError>(None) && final(self).view() == old(
                            self,
                        ).view()
                    } else if is_complete(ne) {
                        &&& r matches Ok(Some(v))
                        &&& v@ == assembled(ne)
                        &&& final(self).view() == old(self).view().remove(k)
                    } else {
                        r == Ok::<Option<Vec<u8>>, RecvError>(None) && final(self).view() == old(
                            self,
                        ).view().insert(k, ne)
                    },
                }
            }),
    {
        let k = header.msg_seq.0;
        let idx = header.marker.index();
        let last = header.marker.is_last();
        let p = self.max_payload_len;
        let ghost e = self.entry(k);
        match self.msgs.get(&k) {
            Some(e) => {
                match e.num_frags {
                    Some(n) => {
                        if idx >= n {
                            return Err(RecvError::InvalidFragIndex);
                        }
                    },
                    None => {},
                }
                if last {
                    let conflict = match e.num_frags {
                        Some(n) => n != idx + 1,
                        None => false,
                    };
                    if e.frags.len() > idx as usize + 1 || conflict {
                        return Err(RecvError::InconsistentLastFragment);
                    }
                }
            },
            None => {},
        }
        if (last && payload.len() > p) || (!last && payload.len() != p) {
            return Err(RecvError::InvalidFragSize);
        }
        match self.msgs.get(&k) {
            Some(e) => {
                if (idx as usize) < e.frags.len() && e.frags[idx as usize].is_some() {
                    return Ok(None);
                }
            },
            None => {},
        }
        let removed = self.msgs.remove(&k);
        let existed = removed.is_some();
        let mut entry = match removed {
            Some(e) => e,
            None => PartialMessage { num_frags: None, frags: Vec::new(), first_seen: now },
        };
        let ghost base = entry.view();
        proof {
            match e {
                Some(ev) => {
                    assert(base == ev);
                },
                None => {
                    assert(base.slots =~= Seq::<Option<Seq<u8>>>::empty());
                },
            }
        }
        let bytes = copy_bytes(payload, 0, payload.len());
        assert(bytes@ =~= payload@);
        if (idx as usize) < entry.frags.len() {
            entry.frags.set(idx as usize, Some(bytes));
        } else {
            while entry.frags.len() < idx as usize
                invariant
                    entry.num_frags == base.num_frags,
                    entry.first_seen == base.first_seen,
                    entry.frags@.len() <= idx,
                    entry.frags@.len() >= base.slots.len(),
                    entry.frags@.map_values(|o: Option<Vec<u8>>| slot_view(o)) =~= base.slots
                        + Seq::new(
                        (entry.frags@.len() - base.slots.len()) as nat,
                        |j: int| None::<Seq<u8>>,
                    ),
                decreases idx - entry.frags@.len(),
            {
                let ghost prev = entry.frags@;
                entry.frags.push(None);
                proof {
                    assert(entry.frags@.map_values(|o: Option<Vec<u8>>| slot_view(o)) =~= prev.map_values(
                        |o: Option<Vec<u8>>| slot_view(o),
                    ).push(None));
                }
            }
            let ghost prev = entry.frags@;
            entry.frags.push(Some(bytes));
            proof {
                assert(entry.frags@.map_values(|o: Option<Vec<u8>>| slot_view(o)) =~= prev.map_values(
                    |o: Option<Vec<u8>>| slot_view(o),
                ).push(Some(payload@)));
            }
        }
        if last {
            entry.num_frags = Some(idx + 1);
        }
        assert(entry.view().slots =~= place(base.slots, idx as nat, payload@));
        assert(entry.view() == with_fragment(e, now, idx as nat, last, payload@));
        let complete = match entry.num_frags {
            Some(n) => entry.frags.len() == n as usize && all_filled(&entry.frags),
            None => false,
        };
        proof {
            let ev = entry.view();
            if is_complete(ev) {
                assert forall|i: int| 0 <= i < entry.frags@.len() implies #[trigger] entry.frags@[i] is Some by {
                    assert(ev.slots[i] is Some);
                }
            }
            if complete {
                assert forall|i: int| 0 <= i < ev.slots.len() implies #[trigger] ev.slots[i] is Some by {
                    assert(entry.frags@[i] is Some);
                }
            }
            assert(complete == is_complete(ev));
        }
        proof {
            assert(e == (if old(self).view().contains_key(k) {
                Some(old(self).view()[k])
            } else {
                None::<PartialView>
            }));
        }
        if complete {
            let msg = join(&entry.frags);
            remove_key(&mut self.order, k);
            assert(self.view() =~= old(self).view().remove(k));
            Ok(Some(msg))
        } else {
            self.msgs.insert(k, entry);
            if !existed {
                let ghost prev = self.order@;
                self.order.push(k);
                proof {
                    assert(!old(self).msgs@.contains_key(k));
                    assert(!prev.contains(k));
                    assert forall|a: int, b: int| 0 <= a < b < self.order@.len() implies self.order@[a] != self.order@[b] by {
                        if b == prev.len() {
                            assert(prev[a] != k);
                        }
                    }
                    assert(self.order@[prev.len() as int] == k);
                    assert forall|q: u16| #[trigger] self.msgs@.contains_key(q) <==> self.order@.contains(q) by {
                        if prev.contains(q) {
                            let w = choose|w: int| 0 <= w < prev.len() && prev[w] == q;
                            assert(self.order@[w] == q);
                        }
                        if self.order@.contains(q) && q != k {
                            let w = choose|w: int| 0 <= w < self.order@.len() && self.order@[w] == q;
                            assert(prev[w] == q);
                        }
                    }
                }
            }
            assert(self.view() =~= old(self).view().insert(k, entry.view()));
            Ok(None)
        }
    }
}

proof fn lemma_push_contains(s: Seq<u16>, x: u16, q: u16)
    ensures
        s.push(x).contains(q) <==> (s.contains(q) || q == x),
{
    if s.push(x).contains(q) && q != x {
        let w = choose|w: int| 0 <= w < s.push(x).len() && s.push(x)[w] == q;
        assert(s[w] == q);
    }
    if s.contains(q) {
        let w = choose|w: int| 0 <= w < s.len() && s[w] == q;
        assert(s.push(x)[w] == q);
    }
    if q == x {
        assert(s.push(x)[s.len() as int] == q);
    }
}

/// Removes `k` from a list of distinct keys.
fn remove_key(order: &mut Vec<u16>, k: u16)
    requires
        old(order)@.no_duplicates(),
    ensures
        final(order)@.no_duplicates(),
        forall|q: u16| #[trigger] final(order)@.contains(q) <==> (old(order)@.contains(q) && q != k),
{
    let mut i: usize = 0;
    while i < order.len()
        invariant
            i <= order@.len(),
            order@ == old(order)@,
            old(order)@.no_duplicates(),
            forall|j: int| 0 <= j < i ==> order@[j] != k,
        decreases order@.len() - i,
    {
        if order[i] == k {
            let ghost prev = order@;
            order.remove(i);
            proof {
                assert(order@ =~= prev.remove(i as int));
                assert forall|w: int| 0 <= w < order@.len() implies #[trigger] order@[w] == prev[if w < i {
                    w
                } else {
                    w + 1
                }] by {}
                assert forall|a: int, b: int| 0 <= a < b < order@.len() implies order@[a] != order@[b] by {
                    let pa = if a < i { a } else { a + 1 };
                    let pb = if b < i { b } else { b + 1 };
                    assert(order@[a] == prev[pa]);
                    assert(order@[b] == prev[pb]);
                    assert(pa < pb);
                    assert(prev.no_duplicates());
                    assert(prev[pa] != prev[pb]);
                }
                assert forall|q: u16| #[trigger] order@.contains(q) <==> (prev.contains(q) && q != k) by {
                    if order@.contains(q) {
                        let w = choose|w: int| 0 <= w < order@.len() && order@[w] == q;
                        if w < i {
                            assert(prev[w] == q);
                        } else {
                            assert(prev[w + 1] == q);
                        }
                        assert(prev[i as int] == k);
                        assert(prev.no_duplicates());
                        assert(q != k);
                    }
                    if prev.contains(q) && q != k {
                        let w = choose|w: int| 0 <= w < prev.len() && prev[w] == q;
                        if w < i {
                            assert(order@[w] == q);
                        } else {
                            assert(w != i);
                            assert(order@[w - 1] == q);
                        }
                    }
                }
            }
            return;
        }
        i = i + 1;
    }
    assert forall|q: u16| #[trigger] order@.contains(q) implies q != k by {
        let w = choose|w: int| 0 <= w < order@.len() && order@[w] == q;
    }
}

/// An entry first seen more than `timeout` milliseconds before `now`.
pub open spec fn is_expired(e: PartialView, now: u64, timeout: u64) -> bool {
    now as int - e.first_seen as int > timeout as int
}

impl FragmentReceiver {
    /// Drops every message whose first fragment arrived more than `timeout`
    /// milliseconds before `now`.
    pub fn clean_up(&mut self, now: u64, timeout: u64)
        requires
            old(self).wf(),
        ensures
            final(self).wf(),
            final(self).max_payload_len == old(self).max_payload_len,
            final(self).view() == old(self).view().restrict(
                old(self).view().dom().filter(|k: u16| !is_expired(old(self).view()[k], now, timeout)),
            ),
    {
        let ghost mid = self.msgs@;
        let mut kept: Vec<u16> = Vec::new();
        let mut i: usize = 0;
        while i < self.order.len()
            invariant
                self.max_payload_len == old(self).max_payload_len,
                self.order@ == old(self).order@,
                old(self).wf(),
                mid == old(self).msgs@,
                i <= self.order@.len(),
                kept@.no_duplicates(),
                forall|q: u16| #[trigger] kept@.contains(q) <==> (self.order@.subrange(0, i as int).contains(q)
                    && !is_expired(mid[q].view(), now, timeout)),
                forall|q: u16| #[trigger] self.msgs@.contains_key(q) <==> (mid.contains_key(q) && !(
                    self.order@.subrange(0, i as int).contains(q) && is_expired(mid[q].view(), now, timeout))),
                forall|q: u16| #[trigger] self.msgs@.contains_key(q) ==> self.msgs@[q] == mid[q],
            decreases self.order@.len() - i,
        {
            let k = self.order[i];
            let ghost done = self.order@.subrange(0, i as int);
            proof {
                assert(self.order@[i as int] == k);
                assert(self.order@.contains(k));
                assert(mid.contains_key(k));
                assert(self.order@.subrange(0, i as int + 1) =~= done.push(k));
                if done.contains(k) {
                    let w = choose|w: int| 0 <= w < done.len() && done[w] == k;
                    assert(self.order@[w] == k);
                }
                assert(!done.contains(k));
                assert forall|q: u16| #[trigger] done.push(k).contains(q) <==> (done.contains(q) || q == k) by {
                    lemma_push_contains(done, k, q);
                }
            }
            let expired = match self.msgs.get(&k) {
                Some(e) => now > e.first_seen && now - e.first_seen > timeout,
                None => false,
            };
            if expired {
                self.msgs.remove(&k);
            } else {
                let ghost prev = kept@;
                kept.push(k);
                proof {
                    assert(!prev.contains(k));
                    assert(kept@ =~= prev.push(k));
                    assert forall|a: int, b: int| 0 <= a < b < kept@.len() implies kept@[a] != kept@[b] by {
                        if b == prev.len() {
                            assert(prev[a] != k);
                        }
                    }
                    assert(kept@[prev.len() as int] == k);
                    assert forall|q: u16| #[trigger] kept@.contains(q) <==> (prev.contains(q) || q == k) by {
                        if prev.contains(q) {
                            let w = choose|w: int| 0 <= w < prev.len() && prev[w] == q;
                            assert(kept@[w] == q);
                        }
                        if kept@.contains(q) && q != k {
                            let w = choose|w: int| 0 <= w < kept@.len() && kept@[w] == q;
                            assert(prev[w] == q);
                        }
                    }
                }
            }
            i = i + 1;
        }
        proof {
            assert(self.order@.subrange(0, i as int) =~= self.order@);
            assert forall|q: u16| #[trigger] self.msgs@.contains_key(q) <==> kept@.contains(q) by {
                if mid.contains_key(q) {
                    assert(self.order@.contains(q));
                }
                if self.order@.contains(q) {
                    assert(mid.contains_key(q));
                }
            }
        }
        self.order = kept;
        assert(self.view() =~= old(self).view().restrict(
            old(self).view().dom().filter(|k: u16| !is_expired(old(self).view()[k], now, timeout)),
        ));
    }
}

/// The messages and outcomes after taking in the fragments `fs` one after
/// another.
pub open spec fn feed(m: Map<u16, PartialView>, p: nat, now: u64, fs: Seq<(FragmentHeader, Seq<u8>)>) -> (Map<
    u16,
    PartialView,
>, Seq<Result<Option<Seq<u8>>, RecvError>>)
    decreases fs.len(),
{
    if fs.len() == 0 {
        (m, Seq::empty())
    } else {
        let before = feed(m, p, now, fs.drop_last());
        let st = reassemble_step(before.0, p, now, fs.last().0, fs.last().1);
        (st.0, before.1.push(st.1))
    }
}

/// One past the largest of the first `k` entries of `order`.
spec fn reach(order: Seq<int>, k: int) -> int
    decreases k,
{
    if k <= 0 {
        0
    } else {
        let r = reach(order, k - 1);
        if order[k - 1] + 1 > r {
            order[k - 1] + 1
        } else {
            r
        }
    }
}

/// The entry of a message of `n` fragments once the fragments at the first
/// `k` positions of `order` were taken in.
spec fn partial_after(order: Seq<int>, k: int, n: nat, payload: Seq<u8>, p: nat, now: u64) -> PartialView {
    let seen = order.subrange(0, k);
    PartialView {
        num_frags: if seen.contains(n - 1) {
            Some(n as u8)
        } else {
            None
        },
        slots: Seq::new(
            reach(order, k) as nat,
            |i: int|
                if seen.contains(i) {
                    Some(chunk(payload, p, i as nat))
                } else {
                    None
                },
        ),
        first_seen: now,
    }
}

proof fn lemma_reach(order: Seq<int>, k: int, n: nat)
    requires
        0 <= k <= order.len(),
        forall|j: int| 0 <= j < order.len() ==> 0 <= #[trigger] order[j] < n,
    ensures
        0 <= reach(order, k) <= n,
        forall|j: int| 0 <= j < k ==> #[trigger] order[j] < reach(order, k),
        k > 0 ==> exists|j: int| 0 <= j < k && order[j] + 1 == reach(order, k),
    decreases k,
{
    if k > 0 {
        lemma_reach(order, k - 1, n);
        if k - 1 > 0 && reach(order, k) == reach(order, k - 1) {
            let j = choose|j: int| 0 <= j < k - 1 && order[j] + 1 == reach(order, k - 1);
            assert(0 <= j < k && order[j] + 1 == reach(order, k));
        }
    }
}

/// The chunks `0 .. k` of a payload, joined, are its first `min(k * p, len)`
/// bytes.
proof fn lemma_chunks_flatten(payload: Seq<u8>, p: nat, k: nat)
    requires
        p > 0,
    ensures
        Seq::new(k, |i: int| chunk(payload, p, i as nat)).flatten() == payload.subrange(
            0,
            if k * p < payload.len() {
                (k * p) as int
            } else {
                payload.len() as int
            },
        ),
    decreases k,
{
    let f = |i: int| chunk(payload, p, i as nat);
    if k == 0 {
        assert(Seq::new(0, f) =~= Seq::<Seq<u8>>::empty());
        assert(payload.subrange(0, 0) =~= Seq::<u8>::empty());
    } else {
        let k1 = (k - 1) as nat;
        lemma_chunks_flatten(payload, p, k1);
        assert(Seq::new(k, f) =~= Seq::new(k1, f).push(f(k1 as int)));
        Seq::new(k1, f).lemma_flatten_push(f(k1 as int));
        assert(k * p == k1 * p + p) by (nonlinear_arith)
            requires k1 == k - 1;
        let a = if k1 * p < payload.len() { k1 * p } else { payload.len() as nat };
        let b = if k * p < payload.len() { k * p } else { payload.len() as nat };
        assert(chunk(payload, p, k1) =~= payload.subrange(a as int, b as int));
        assert(payload.subrange(0, a as int) + payload.subrange(a as int, b as int) =~= payload.subrange(
            0,
            b as int,
        ));
    }
}

/// `order` lists each of `0 .. n` exactly once.
pub open spec fn is_permutation(order: Seq<int>, n: nat) -> bool {
    &&& order.len() == n
    &&& order.no_duplicates()
    &&& forall|j: int| 0 <= j < n ==> 0 <= #[trigger] order[j] < n
    &&& forall|i: int| 0 <= i < n ==> order.contains(i)
}

/// The headers and payloads of `frags` in the order `order` gives.
pub open spec fn reorder(frags: Seq<Fragment>, order: Seq<int>) -> Seq<(FragmentHeader, Seq<u8>)> {
    Seq::new(order.len(), |j: int| (frags[order[j]].header, frags[order[j]].payload@))
}

/// What a receiver holds for the message after the first `k` fragments.
spec fn held_after(
    m: Map<u16, PartialView>,
    key: u16,
    order: Seq<int>,
    k: int,
    n: nat,
    payload: Seq<u8>,
    p: nat,
    now: u64,
) -> Map<u16, PartialView> {
    if k == 0 {
        m
    } else {
        m.insert(key, partial_after(order, k, n, payload, p, now))
    }
}

proof fn lemma_round_trip_step(
    m: Map<u16, PartialView>,
    p: nat,
    now: u64,
    msg_seq: MessageSeq,
    payload: Seq<u8>,
    frags: Seq<Fragment>,
    order: Seq<int>,
    k: int,
)
    requires
        p > 0,
        frag_count(payload.len(), p) <= 128,
        frags.len() == frag_count(payload.len(), p),
        forall|i: int|
            0 <= i < frags.len() ==> #[trigger] is_fragment_of(
                frags[i],
                msg_seq,
                payload,
                p,
                i as nat,
                frags.len(),
            ),
        is_permutation(order, frags.len()),
        !m.contains_key(msg_seq.0),
        0 <= k < frags.len(),
    ensures
        ({
            let n = frags.len();
            let st = reassemble_step(
                held_after(m, msg_seq.0, order, k, n, payload, p, now),
                p,
                now,
                frags[order[k]].header,
                frags[order[k]].payload@,
            );
            &&& k + 1 < n ==> st == (held_after(m, msg_seq.0, order, k + 1, n, payload, p, now), Ok::<
                Option<Seq<u8>>,
                RecvError,
            >(None))
            &&& k + 1 == n ==> st == (m, Ok::<Option<Seq<u8>>, RecvError>(Some(payload)))
        }),
{
    let n = frags.len();
    let key = msg_seq.0;
    let idx = order[k];
    let f = frags[idx];
    assert(0 <= idx < n);
    assert(is_fragment_of(f, msg_seq, payload, p, idx as nat, n));
    let last = idx + 1 == n;
    assert(f.header.marker.index_spec() == idx);
    assert(f.header.marker.is_last_spec() == last);
    let len = payload.len();
    // sizes of the chunks
    if len > 0 {
        let q = ((len - 1) as nat / p) as int;
        vstd::arithmetic::div_mod::lemma_fundamental_div_mod((len - 1) as int, p as int);
        vstd::arithmetic::div_mod::lemma_mod_pos_bound((len - 1) as int, p as int);
        let rem = (len - 1) as int % (p as int);
        assert(n == q + 1);
        assert(p * q <= len - 1);
        assert(len - 1 < p * (q + 1)) by (nonlinear_arith)
            requires len - 1 == p * q + rem, rem < p;
        assert(len <= n * p) by (nonlinear_arith)
            requires len - 1 < p * (q + 1), n == q + 1;
        if idx + 1 < n {
            assert((idx + 1) * p <= q * p) by (nonlinear_arith)
                requires idx + 1 <= q, p > 0;
            assert(idx * p + p == (idx + 1) * p) by (nonlinear_arith);
        } else {
            assert(idx * p == q * p);
            assert(idx * p < len);
        }
    } else {
        assert(n == 1);
        assert(idx == 0);
        assert(0 * p == 0);
    }
    lemma_chunk_len(payload, p, idx as nat);
    assert(!last ==> f.payload@.len() == p);
    assert(last ==> f.payload@.len() <= p);
    let seen = order.subrange(0, k);
    let seen1 = order.subrange(0, k + 1);
    assert(seen1 =~= seen.push(idx));
    assert(!seen.contains(idx)) by {
        if seen.contains(idx) {
            let j = choose|j: int| 0 <= j < seen.len() && seen[j] == idx;
            assert(order[j] == order[k]);
        }
    }
    assert forall|i: int| #[trigger] seen1.contains(i) <==> (seen.contains(i) || i == idx) by {
        if seen1.contains(i) && i != idx {
            let j = choose|j: int| 0 <= j < seen1.len() && seen1[j] == i;
            assert(seen[j] == i);
        }
        if seen.contains(i) {
            let j = choose|j: int| 0 <= j < seen.len() && seen[j] == i;
            assert(seen1[j] == i);
        }
        if i == idx {
            assert(seen1[k] == i);
        }
    }
    lemma_reach(order, k, n);
    lemma_reach(order, k + 1, n);
    let before = held_after(m, key, order, k, n, payload, p, now);
    let e = if before.contains_key(key) {
        Some(before[key])
    } else {
        None
    };
    let base = PartialView { num_frags: None, slots: Seq::empty(), first_seen: now };
    if k == 0 {
        assert(e is None);
        assert(partial_after(order, 0, n, payload, p, now).slots =~= base.slots);
    } else {
        assert(e == Some(partial_after(order, k, n, payload, p, now)));
    }
    let pk = partial_after(order, k, n, payload, p, now);
    let pk1 = partial_after(order, k + 1, n, payload, p, now);
    // no error and no duplicate
    assert(reassemble_error(e, idx as nat, last, f.payload@.len(), p) is None) by {
        if k > 0 {
            assert(pk.slots.len() <= n);
            if pk.num_frags is Some {
                assert(seen.contains(n - 1));
                assert(!last);
            }
        }
    }
    assert(!is_duplicate(e, idx as nat)) by {
        if k > 0 && idx < pk.slots.len() {
            assert(pk.slots[idx] is None);
        }
    }
    // the new entry
    let ne = with_fragment(e, now, idx as nat, last, f.payload@);
    let b = if k == 0 { base } else { pk };
    assert(b.slots =~= pk.slots);
    assert(ne.slots =~= pk1.slots) by {
        if idx < pk.slots.len() {
            assert(reach(order, k + 1) == reach(order, k));
        } else {
            assert(reach(order, k + 1) == idx + 1);
            assert forall|i: int| pk.slots.len() <= i < idx implies !#[trigger] seen1.contains(i) by {
                if seen.contains(i) {
                    let j = choose|j: int| 0 <= j < seen.len() && seen[j] == i;
                    assert(order[j] < reach(order, k));
                }
            }
        }
    }
    assert(ne.num_frags == pk1.num_frags) by {
        if !last {
            assert(seen1.contains(n - 1) == seen.contains(n - 1));
        }
    }
    assert(ne == pk1);
    if k + 1 < n {
        // the fragment at the last position of `order` is still missing
        let miss = order[n - 1];
        assert(!seen1.contains(miss)) by {
            if seen1.contains(miss) {
                let j = choose|j: int| 0 <= j < seen1.len() && seen1[j] == miss;
                assert(order[j] == order[n - 1]);
            }
        }
        if is_complete(ne) {
            assert(ne.slots.len() == n);
            assert(ne.slots[miss] is Some);
        }
        assert(!is_complete(ne));
        assert(reassemble_step(before, p, now, f.header, f.payload@).0 =~= held_after(
            m,
            key,
            order,
            k + 1,
            n,
            payload,
            p,
            now,
        ));
    } else {
        assert(seen1 =~= order);
        assert forall|i: int| 0 <= i < n implies #[trigger] seen1.contains(i) by {
            assert(order.contains(i));
        }
        assert(seen1.contains(n - 1));
        let j = choose|j: int| 0 <= j < k + 1 && order[j] + 1 == reach(order, k + 1);
        assert(reach(order, k + 1) == n);
        assert(is_complete(ne));
        let chunks = Seq::new(n, |i: int| chunk(payload, p, i as nat));
        assert(ne.slots.map_values(|o: Option<Seq<u8>>| slot_bytes(o)) =~= chunks);
        lemma_chunks_flatten(payload, p, n);
        if len > 0 {
            assert(len <= n * p);
        } else {
            assert(n * p >= 0);
        }
        assert(payload.subrange(0, len as int) =~= payload);
        assert(assembled(ne) == payload);
        assert(before.remove(key) =~= m);
    }
}

proof fn lemma_round_trip_prefix(
    m: Map<u16, PartialView>,
    p: nat,
    now: u64,
    msg_seq: MessageSeq,
    payload: Seq<u8>,
    frags: Seq<Fragment>,
    order: Seq<int>,
    k: int,
)
    requires
        p > 0,
        frag_count(payload.len(), p) <= 128,
        frags.len() == frag_count(payload.len(), p),
        forall|i: int|
            0 <= i < frags.len() ==> #[trigger] is_fragment_of(
                frags[i],
                msg_seq,
                payload,
                p,
                i as nat,
                frags.len(),
            ),
        is_permutation(order, frags.len()),
        !m.contains_key(msg_seq.0),
        0 <= k < frags.len(),
    ensures
        feed(m, p, now, reorder(frags, order).subrange(0, k)) == (
            held_after(m, msg_seq.0, order, k, frags.len(), payload, p, now),
            Seq::new(k as nat, |j: int| Ok::<Option<Seq<u8>>, RecvError>(None)),
        ),
    decreases k,
{
    let fed = reorder(frags, order);
    if k == 0 {
        assert(fed.subrange(0, 0) =~= Seq::<(FragmentHeader, Seq<u8>)>::empty());
        assert(Seq::new(0, |j: int| Ok::<Option<Seq<u8>>, RecvError>(None)) =~= Seq::<
            Result<Option<Seq<u8>>, RecvError>,
        >::empty());
    } else {
        lemma_round_trip_prefix(m, p, now, msg_seq, payload, frags, order, k - 1);
        lemma_round_trip_step(m, p, now, msg_seq, payload, frags, order, k - 1);
        let sub = fed.subrange(0, k);
        assert(sub.drop_last() =~= fed.subrange(0, k - 1));
        assert(sub.last() == (frags[order[k - 1]].header, frags[order[k - 1]].payload@));
        assert(Seq::new(k as nat, |j: int| Ok::<Option<Seq<u8>>, RecvError>(None)) =~= Seq::new(
            (k - 1) as nat,
            |j: int| Ok::<Option<Seq<u8>>, RecvError>(None),
        ).push(Ok(None)));
    }
}

/// Taking in every fragment of a payload, in any order, into a receiver
/// that holds nothing of that message gives back the payload exactly once,
/// at the last fragment, and leaves the receiver as it was.
pub proof fn lemma_fragment_round_trip(
    m: Map<u16, PartialView>,
    p: nat,
    now: u64,
    msg_seq: MessageSeq,
    payload: Seq<u8>,
    frags: Seq<Fragment>,
    order: Seq<int>,
)
    requires
        p > 0,
        frag_count(payload.len(), p) <= 128,
        frags.len() == frag_count(payload.len(), p),
        forall|i: int|
            0 <= i < frags.len() ==> #[trigger] is_fragment_of(
                frags[i],
                msg_seq,
                payload,
                p,
                i as nat,
                frags.len(),
            ),
        is_permutation(order, frags.len()),
        !m.contains_key(msg_seq.0),
    ensures
        ({
            let (after, outs) = feed(m, p, now, reorder(frags, order));
            &&& after == m
            &&& outs.len() == frags.len()
            &&& outs.last() == Ok::<Option<Seq<u8>>, RecvError>(Some(payload))
            &&& forall|j: int| 0 <= j < outs.len() - 1 ==> outs[j] == Ok::<Option<Seq<u8>>, RecvError>(None)
        }),
{
    let n = frags.len();
    assert(n >= 1);
    let fed = reorder(frags, order);
    lemma_round_trip_prefix(m, p, now, msg_seq, payload, frags, order, n - 1);
    lemma_round_trip_step(m, p, now, msg_seq, payload, frags, order, n - 1);
    assert(fed.drop_last() =~= fed.subrange(0, n - 1));
    assert(fed.subrange(0, n as int) =~= fed);
}

/// Room a message being reassembled takes: a full fragment for each slot.
pub open spec fn reserved(e: PartialView, p: nat) -> nat {
    e.slots.len() * p
}

/// Room taken by the messages `keys` of `m`.
pub open spec fn reserved_by(keys: Seq<u16>, m: Map<u16, PartialView>, p: nat) -> nat
    decreases keys.len(),
{
    if keys.len() == 0 {
        0
    } else {
        reserved(m[keys[0]], p) + reserved_by(keys.drop_first(), m, p)
    }
}

proof fn lemma_reserved_frame(keys: Seq<u16>, m: Map<u16, PartialView>, p: nat, k: u16)
    requires
        !keys.contains(k),
    ensures
        reserved_by(keys, m.remove(k), p) == reserved_by(keys, m, p),
    decreases keys.len(),
{
    if keys.len() > 0 {
        assert(keys[0] != k);
        assert(!keys.drop_first().contains(k)) by {
            if keys.drop_first().contains(k) {
                let w = choose|w: int| 0 <= w < keys.drop_first().len() && keys.drop_first()[w] == k;
                assert(keys[w + 1] == k);
            }
        }
        lemma_reserved_frame(keys.drop_first(), m, p, k);
    }
}

proof fn lemma_reserved_split(keys: Seq<u16>, m: Map<u16, PartialView>, p: nat, i: int)
    requires
        0 <= i < keys.len(),
    ensures
        reserved_by(keys.take(i + 1), m, p) == reserved_by(keys.take(i), m, p) + reserved(m[keys[i]], p),
    decreases i,
{
    if i > 0 {
        lemma_reserved_split(keys.drop_first(), m, p, i - 1);
        assert(keys.take(i + 1).drop_first() =~= keys.drop_first().take(i));
        assert(keys.take(i).drop_first() =~= keys.drop_first().take(i - 1));
    } else {
        assert(keys.take(1).drop_first() =~= Seq::<u16>::empty());
        assert(keys.take(0) =~= Seq::<u16>::empty());
    }
}

impl FragmentReceiver {
    /// Room taken by the messages being reassembled.
    pub open spec fn held(&self) -> nat {
        reserved_by(self.order@, self.view(), self.max_payload_len as nat)
    }

    /// Whether the messages being reassembled take more than `cap` bytes.
    fn over(&self, cap: usize) -> (r: bool)
        requires
            self.wf(),
        ensures
            r == (self.held() > cap),
    {
        let p = self.max_payload_len;
        let mut acc: u128 = 0;
        let mut i: usize = 0;
        while i < self.order.len()
            invariant
                self.wf(),
                p == self.max_payload_len,
                i <= self.order@.len(),
                acc == reserved_by(self.order@.take(i as int), self.view(), p as nat),
                acc <= cap,
            decreases self.order@.len() - i,
        {
            let k = self.order[i];
            assert(self.order@.contains(k));
            let n = match self.msgs.get(&k) {
                Some(e) => e.frags.len(),
                None => 0,
            };
            proof {
                lemma_reserved_split(self.order@, self.view(), p as nat, i as int);
                assert(entry_wf(self.msgs@[k].view()));
                assert(n <= 128);
                assert((n as int) * (p as int) <= 128 * (usize::MAX as int)) by (nonlinear_arith)
                    requires n <= 128, p <= usize::MAX;
            }
            acc = acc + (n as u128) * (p as u128);
            if acc > cap as u128 {
                proof {
                    assert(self.order@.take(i as int + 1) + self.order@.skip(i as int + 1) =~= self.order@);
                    lemma_reserved_ge_prefix(self.order@, self.view(), p as nat, i as int + 1);
                }
                return true;
            }
            i = i + 1;
        }
        assert(self.order@.take(i as int) =~= self.order@);
        false
    }

    /// Drops the oldest messages being reassembled until they take at most
    /// `cap` bytes; returns how many it dropped.
    pub fn evict_to(&mut self, cap: usize) -> (r: usize)
        requires
            old(self).wf(),
        ensures
            final(self).wf(),
            final(self).max_payload_len == old(self).max_payload_len,
            final(self).held() <= cap,
            r <= old(self).order@.len(),
            final(self).order@ == old(self).order@.skip(r as int),
            forall|k: u16| #[trigger] final(self).view().contains_key(k) ==> old(self).view().contains_key(k)
                && final(self).view()[k] == old(self).view()[k],
            old(self).held() <= cap ==> r == 0,
    {
        let mut r: usize = 0;
        let n0 = self.order.len();
        while self.over(cap)
            invariant
                n0 == old(self).order@.len(),
                self.wf(),
                self.max_payload_len == old(self).max_payload_len,
                r <= old(self).order@.len(),
                self.order@ == old(self).order@.skip(r as int),
                forall|k: u16| #[trigger] self.view().contains_key(k) ==> old(self).view().contains_key(k)
                    && self.view()[k] == old(self).view()[k],
                r > 0 ==> old(self).held() > cap,
                r == 0 ==> self.view() == old(self).view(),
            decreases self.order@.len(),
        {
            assert(self.held() > cap);
            assert(self.order@.len() > 0);
            assert(r < old(self).order@.len());
            let k = self.order[0];
            let ghost prev = self.order@;
            let ghost prev_view = self.view();
            self.order.remove(0);
            self.msgs.remove(&k);
            proof {
                assert(self.view() =~= prev_view.remove(k));
                assert(self.order@ =~= prev.drop_first());
                assert(old(self).order@.skip(r as int + 1) =~= prev.drop_first());
                assert(prev.no_duplicates());
                assert forall|q: u16| #[trigger] self.msgs@.contains_key(q) <==> self.order@.contains(q) by {
                    if self.order@.contains(q) {
                        let w = choose|w: int| 0 <= w < self.order@.len() && self.order@[w] == q;
                        assert(prev[w + 1] == q);
                        assert(q != k);
                        assert(prev.contains(q));
                    }
                    if self.msgs@.contains_key(q) {
                        assert(q != k);
                        assert(prev.contains(q));
                        let w = choose|w: int| 0 <= w < prev.len() && prev[w] == q;
                        assert(w != 0);
                        assert(self.order@[w - 1] == q);
                    }
                }
                assert(self.order@.no_duplicates()) by {
                    assert forall|a: int, b: int| 0 <= a < b < self.order@.len() implies self.order@[a] != self.order@[b] by {
                        assert(prev[a + 1] != prev[b + 1]);
                    }
                }
            }
            r = r + 1;
        }
        r
    }
}

proof fn lemma_reserved_ge_prefix(keys: Seq<u16>, m: Map<u16, PartialView>, p: nat, i: int)
    requires
        0 <= i <= keys.len(),
    ensures
        reserved_by(keys, m, p) >= reserved_by(keys.take(i), m, p),
    decreases i,
{
    if i > 0 {
        lemma_reserved_ge_prefix(keys.drop_first(), m, p, i - 1);
        assert(keys.take(i).drop_first() =~= keys.drop_first().take(i - 1));
    } else {
        assert(keys.take(0) =~= Seq::<u16>::empty());
    }
}

} // verus!
