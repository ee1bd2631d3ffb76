//! The session engine: queues messages on lanes, builds packets under a
//! bandwidth cap, reads packets, turns packet acknowledgements into message
//! acknowledgements and delivers messages by each lane's policy.
use ahash::AHashMap;
use vstd::prelude::*;

use crate::ack::Acknowledge;
use crate::bandwidth::{TokenBucket, MAX_BURST};
use crate::codec::{varint, varint_len, HEADER_LEN};
use crate::error::{RecvError, SendError, SessionFatal};
use crate::frag::{frag_count, FragmentHeader, FragmentMarker, FragmentReceiver, FragmentSender};
use crate::lane::{LaneConfig, LaneKind, LaneRecv, LaneView, lane_step, delivered_view};
use crate::seq::{seq_add, MessageSeq, PacketSeq, SeqNo};

verus! {

/// Default packet size, in bytes.
pub const DEFAULT_MTU: usize = 1200;

/// Default bandwidth, in bytes per second.
pub const DEFAULT_BANDWIDTH: usize = 1_000_000;

/// Default time an incomplete message is kept, in milliseconds.
pub const DEFAULT_REASSEMBLY_TIMEOUT: u64 = 3000;

/// Default budget for bytes held in send buffers and reassembly buffers.
pub const DEFAULT_BUFFER_CAP: usize = 4_194_304;

/// Identifies a sent message: its lane and its sequence.
#[derive(Clone, Copy, Debug, PartialEq, Eq, Structural, Hash)]
pub struct MessageKey {
    /// Index of the outgoing lane.
    pub lane: usize,
    /// Sequence of the message.
    pub msg_seq: MessageSeq,
}

/// Identifies one fragment that a packet carried.
#[derive(Clone, Copy, Debug, PartialEq, Eq, Structural, Hash)]
pub struct FragmentKey {
    /// Sequence of the fragment's message.
    pub msg_seq: MessageSeq,
    /// Index of the fragment in its message.
    pub frag_index: u8,
}

#[verifier::external_type_specification]
#[verifier::external_body]
#[verifier::reject_recursive_types(K)]
#[verifier::reject_recursive_types(V)]
#[verifier::reject_recursive_types(S)]
pub struct ExAHashMap<K, V, S>(AHashMap<K, V, S>);

#[verifier::external_type_specification]
#[verifier::external_body]
pub struct ExRandomState(ahash::RandomState);

/// Sent packets, by sequence, with the fragments each carried.
pub type FlushedTable = AHashMap<u16, Vec<FragmentKey>>;

/// What a table of sent packets holds: for each packet sequence, the
/// fragments that packet carried.
pub uninterp spec fn flushed_contents(m: FlushedTable) -> Map<u16, Seq<FragmentKey>>;

/// Relies on ahash::AHashMap::new: the new map is empty.
#[verifier::external_body]
fn flushed_new() -> (r: FlushedTable)
    ensures
        flushed_contents(r).dom() == Set::<u16>::empty(),
{
    AHashMap::new()
}

/// Relies on ahash::AHashMap::insert: the key now maps to the value, the
/// other keys are untouched.
#[verifier::external_body]
fn flushed_insert(m: &mut FlushedTable, k: u16, v: Vec<FragmentKey>)
    ensures
        flushed_contents(*final(m)) == flushed_contents(*old(m)).insert(k, v@),
{
    m.insert(k, v);
}

/// Relies on ahash::AHashMap::remove: the key is gone, and its value, if
/// any, is returned.
#[verifier::external_body]
fn flushed_remove(m: &mut FlushedTable, k: u16) -> (r: Option<Vec<FragmentKey>>)
    ensures
        flushed_contents(*final(m)) == flushed_contents(*old(m)).remove(k),
        flushed_contents(*old(m)).contains_key(k) <==> r is Some,
        r matches Some(v) ==> v@ == flushed_contents(*old(m))[k],
{
    m.remove(&k)
}

/// Relies on HashMap::retain, reached through ahash::AHashMap's deref: the
/// entries kept are those whose key the predicate accepts.
#[verifier::external_body]
fn flushed_keep_recent(m: &mut FlushedTable, next: u16)
    ensures
        flushed_contents(*final(m)) == flushed_contents(*old(m)).restrict(
            flushed_contents(*old(m)).dom().filter(|k: u16| is_recent_spec(k, next)),
        ),
{
    m.retain(|k, _| is_recent(*k, next));
}

/// How many packets back the peer's acknowledgements reach, counting the
/// newest.
pub const ACK_WINDOW: i16 = 33;

/// Packet `k` was sent at most 33 packets before `next`, the sequence of
/// the next packet to send.
pub open spec fn is_recent_spec(k: u16, next: u16) -> bool {
    0 < crate::seq::seq_dist(k, next) <= ACK_WINDOW
}

/// Whether packet `k` can still be acknowledged before packet `next` is
/// sent.
pub fn is_recent(k: u16, next: u16) -> (r: bool)
    ensures
        r == is_recent_spec(k, next),
{
    let d = SeqNo(k).dist_to(SeqNo(next));
    d > 0 && d <= ACK_WINDOW
}

/// A fragment waiting in the send buffer.
pub struct SentFrag {
    /// Index and last flag of the fragment.
    pub marker: FragmentMarker,
    /// The fragment's bytes.
    pub payload: Vec<u8>,
    /// When it was last put in a packet, in milliseconds.
    pub last_sent: Option<u64>,
}

/// A message in the send buffer.
pub struct SentMessage {
    /// Index of the outgoing lane.
    pub lane: usize,
    /// Sequence of the message.
    pub msg_seq: MessageSeq,
    /// One slot per fragment; emptied once the fragment is acknowledged, or,
    /// on an unreliable lane, once it was sent.
    pub frags: Vec<Option<SentFrag>>,
    /// Number of filled slots.
    pub num_unacked: usize,
    /// Bytes of the message's payload.
    pub bytes: usize,
}

/// Number of filled slots in `frags`.
pub open spec fn filled(frags: Seq<Option<SentFrag>>) -> nat
    decreases frags.len(),
{
    if frags.len() == 0 {
        0
    } else {
        filled(frags.drop_last()) + if frags.last() is Some {
            1nat
        } else {
            0nat
        }
    }
}

impl SentMessage {
    /// `num_unacked` counts the filled slots; at most 128 slots.
    pub open spec fn wf(&self) -> bool {
        &&& self.num_unacked == filled(self.frags@)
        &&& self.frags@.len() <= 128
    }
}

/// Total payload bytes of the messages in a send buffer.
pub open spec fn total_bytes(msgs: Seq<SentMessage>) -> nat
    decreases msgs.len(),
{
    if msgs.len() == 0 {
        0
    } else {
        total_bytes(msgs.drop_last()) + msgs.last().bytes as nat
    }
}

/// Configuration of a session.
#[derive(Clone, Debug, PartialEq, Eq)]
pub struct ClientConfig {
    /// Kinds of the incoming lanes, by index.
    pub lanes_in: Vec<LaneKind>,
    /// The outgoing lanes, by index.
    pub lanes_out: Vec<LaneConfig>,
    /// Bytes per second that `flush` may emit.
    pub bandwidth: usize,
    /// Bytes that `flush` may emit at once after a pause.
    pub burst: usize,
    /// Largest packet, in bytes.
    pub max_packet_len: usize,
    /// Capacity to allocate for a new packet.
    pub default_packet_cap: usize,
    /// Largest payload of one fragment.
    pub max_payload_len: usize,
    /// Budget for payload bytes held in the send buffer.
    pub send_buffer_bytes_cap: usize,
    /// Budget for bytes held by messages being reassembled.
    pub recv_buffer_bytes_cap: usize,
    /// How long an incomplete message is kept, in milliseconds.
    pub reassembly_timeout: u64,
}

/// Smallest packet that holds a header and one full fragment on any of
/// `num_lanes` lanes.
pub open spec fn min_packet_len(num_lanes: nat, max_payload_len: nat) -> nat {
    (HEADER_LEN + varint(num_lanes as u64).len() + 3 + varint(max_payload_len as u64).len()
        + max_payload_len) as nat
}

impl ClientConfig {
    /// A configuration with the given lanes and default limits: packets of
    /// 1200 bytes, fragments of 1024, 1 MB/s with as much burst, a 4 MiB send
    /// budget and a 3 s reassembly timeout.
    pub fn new(lanes_in: Vec<LaneKind>, lanes_out: Vec<LaneConfig>) -> (r: ClientConfig)
        ensures
            r.lanes_in@ == lanes_in@,
            r.lanes_out@ == lanes_out@,
            r.bandwidth == DEFAULT_BANDWIDTH,
            r.burst == DEFAULT_BANDWIDTH,
            r.max_packet_len == DEFAULT_MTU,
            r.default_packet_cap == DEFAULT_MTU,
            r.max_payload_len == 1024,
            r.send_buffer_bytes_cap == DEFAULT_BUFFER_CAP,
            r.recv_buffer_bytes_cap == DEFAULT_BUFFER_CAP,
            r.reassembly_timeout == DEFAULT_REASSEMBLY_TIMEOUT,
    {
        ClientConfig {
            lanes_in,
            lanes_out,
            bandwidth: DEFAULT_BANDWIDTH,
            burst: DEFAULT_BANDWIDTH,
            max_packet_len: DEFAULT_MTU,
            default_packet_cap: DEFAULT_MTU,
            max_payload_len: 1024,
            send_buffer_bytes_cap: DEFAULT_BUFFER_CAP,
            recv_buffer_bytes_cap: DEFAULT_BUFFER_CAP,
            reassembly_timeout: DEFAULT_REASSEMBLY_TIMEOUT,
        }
    }
}

/// Packet size needed for a header and one full fragment on any of
/// `num_lanes` lanes.
pub fn min_packet_len_of(num_lanes: usize, max_payload_len: usize) -> (r: usize)
    requires
        max_payload_len <= usize::MAX / 2,
    ensures
        r == min_packet_len(num_lanes as nat, max_payload_len as nat),
{
    HEADER_LEN + varint_len(num_lanes as u64) + 3 + varint_len(max_payload_len as u64)
        + max_payload_len
}

/// Removing a message from a send buffer takes its bytes off the total.
proof fn lemma_total_bytes_remove(msgs: Seq<SentMessage>, i: int)
    requires
        0 <= i < msgs.len(),
    ensures
        total_bytes(msgs.remove(i)) + msgs[i].bytes == total_bytes(msgs),
    decreases msgs.len(),
{
    if i == msgs.len() - 1 {
        assert(msgs.remove(i) =~= msgs.drop_last());
    } else {
        lemma_total_bytes_remove(msgs.drop_last(), i);
        assert(msgs.remove(i).drop_last() =~= msgs.drop_last().remove(i));
        assert(msgs.remove(i).last() == msgs.last());
    }
}

/// `m` holds message `msg_seq` on `lane`, just queued: its `n` fragments are
/// those of `payload`, none sent yet.
pub open spec fn is_queued_message(
    m: SentMessage,
    lane: usize,
    msg_seq: MessageSeq,
    payload: Seq<u8>,
    p: nat,
) -> bool {
    let n = frag_count(payload.len(), p);
    &&& m.lane == lane
    &&& m.msg_seq == msg_seq
    &&& m.frags@.len() == n
    &&& m.num_unacked == n
    &&& m.bytes == payload.len()
    &&& forall|i: int|
        0 <= i < n ==> unsent_slot(
            #[trigger] m.frags@[i],
            if i + 1 == n {
                i + 128
            } else {
                i
            },
            crate::frag::chunk(payload, p, i as nat),
        )
}

/// A filled slot, never sent, holding a fragment with marker byte `marker`
/// and bytes `payload`.
pub open spec fn unsent_slot(o: Option<SentFrag>, marker: int, payload: Seq<u8>) -> bool {
    match o {
        Some(f) => f.last_sent is None && f.marker.0 == marker && f.payload@ == payload,
        None => false,
    }
}

/// A slot that is empty or holds at most `p` bytes.
pub open spec fn slot_fits(o: Option<SentFrag>, p: nat) -> bool {
    match o {
        Some(f) => f.payload@.len() <= p,
        None => true,
    }
}

/// A well-formed message on one of `num_lanes` lanes whose fragments hold at
/// most `p` bytes.
pub open spec fn msg_fits(m: SentMessage, num_lanes: nat, p: nat) -> bool {
    &&& m.wf()
    &&& m.lane < num_lanes
    &&& forall|j: int| 0 <= j < m.frags@.len() ==> slot_fits(#[trigger] m.frags@[j], p)
}

/// The session engine of one connection: every lane's send and receive
/// state, the acknowledgement bookkeeping, the reassembly table and the
/// bandwidth budget.
pub struct Lanes {
    /// Receive state of each incoming lane.
    pub lanes_in: Vec<LaneRecv>,
    /// The outgoing lanes.
    pub lanes_out: Vec<LaneConfig>,
    /// Largest packet, in bytes.
    pub max_packet_len: usize,
    /// Capacity to allocate for a new packet.
    pub default_packet_cap: usize,
    /// Splits outgoing messages.
    pub frag_send: FragmentSender,
    /// Joins incoming fragments.
    pub frag_recv: FragmentReceiver,
    /// How long an incomplete message is kept, in milliseconds.
    pub reassembly_timeout: u64,
    /// Budget for payload bytes held in the send buffer.
    pub send_buffer_bytes_cap: usize,
    /// Payload bytes held in the send buffer.
    pub send_bytes: usize,
    /// Budget for bytes held by messages being reassembled.
    pub recv_buffer_bytes_cap: usize,
    /// The bandwidth budget.
    pub bucket: TokenBucket,
    /// Sequence of the next packet sent.
    pub next_packet_seq: PacketSeq,
    /// Sequence of the next message queued.
    pub next_msg_seq: MessageSeq,
    /// Which of the peer's packets were received.
    pub acks: Acknowledge,
    /// Messages not yet acknowledged, oldest first.
    pub sent_msgs: Vec<SentMessage>,
    /// Fragments carried by recent packets, oldest packet first.
    pub flushed_packets: FlushedTable,
    /// The error after which the session cannot go on, once one happened.
    pub fatal: Option<SessionFatal>,
}

impl Lanes {
    /// The fragments carried by each remembered packet, by packet sequence.
    pub open spec fn flushed(&self) -> Map<u16, Seq<FragmentKey>> {
        flushed_contents(self.flushed_packets)
    }

    /// The session's parts agree: fragment sizes, packet size, budgets and
    /// the send buffer's accounting.
    pub open spec fn wf(&self) -> bool {
        &&& self.lanes_out@.len() <= usize::MAX
        &&& forall|i: int| 0 <= i < self.lanes_in@.len() ==> (#[trigger] self.lanes_in@[i]).wf()
        &&& self.frag_send.max_payload_len > 0
        &&& self.frag_send.max_payload_len <= usize::MAX / 2
        &&& self.frag_recv.wf()
        &&& self.frag_recv.max_payload_len == self.frag_send.max_payload_len
        &&& self.max_packet_len >= min_packet_len(
            self.lanes_out@.len() as nat,
            self.frag_send.max_payload_len as nat,
        )
        &&& self.bucket.wf()
        &&& self.send_bytes == total_bytes(self.sent_msgs@)
        &&& self.send_bytes <= self.send_buffer_bytes_cap
        &&& forall|i: int|
            0 <= i < self.sent_msgs@.len() && self.lane_reliable(#[trigger] self.sent_msgs@[i].lane as int)
                ==> self.sent_msgs@[i].num_unacked > 0
        &&& forall|i: int|
            0 <= i < self.sent_msgs@.len() ==> msg_fits(
                #[trigger] self.sent_msgs@[i],
                self.lanes_out@.len() as nat,
                self.frag_send.max_payload_len as nat,
            )
    }

    /// A session with the lanes and limits of `config`. Fails when a packet
    /// of `max_packet_len` bytes cannot hold a header and one full fragment.
    pub fn new(config: ClientConfig) -> (r: Result<Lanes, SessionFatal>)
        requires
            0 < config.max_payload_len <= usize::MAX / 2,
            config.burst <= MAX_BURST,
        ensures
            r is Err <==> config.max_packet_len < min_packet_len(
                config.lanes_out@.len() as nat,
                config.max_payload_len as nat,
            ),
            r is Err ==> r == Err::<Lanes, SessionFatal>(SessionFatal::MtuTooSmall),
            r matches Ok(s) ==> {
                &&& s.wf()
                &&& s.lanes_in@.len() == config.lanes_in@.len()
                &&& (forall|i: int| 0 <= i < s.lanes_in@.len() ==> (#[trigger] s.lanes_in@[i]).kind() == config.lanes_in@[i])
                &&& s.lanes_out@ == config.lanes_out@
                &&& s.max_packet_len == config.max_packet_len
                &&& s.frag_send.max_payload_len == config.max_payload_len
                &&& s.bucket.rate == config.bandwidth
                &&& s.bucket.burst == config.burst
                &&& s.bucket.level == config.burst * 1000
                &&& s.next_packet_seq.0 == 0
                &&& s.next_msg_seq.0 == 0
                &&& s.acks == Acknowledge::default_spec()
                &&& s.sent_msgs@.len() == 0
                &&& s.flushed() == Map::<u16, Seq<FragmentKey>>::empty()
                &&& s.frag_recv.msgs@.is_empty()
                &&& s.fatal is None
            },
    {
        let min = min_packet_len_of(config.lanes_out.len(), config.max_payload_len);
        if config.max_packet_len < min {
            return Err(SessionFatal::MtuTooSmall);
        }
        let mut lanes_in: Vec<LaneRecv> = Vec::new();
        let mut i: usize = 0;
        while i < config.lanes_in.len()
            invariant
                i <= config.lanes_in@.len(),
                lanes_in@.len() == i,
                forall|j: int| 0 <= j < i ==> (#[trigger] lanes_in@[j]).wf() && lanes_in@[j].kind() == config.lanes_in@[j],
            decreases config.lanes_in@.len() - i,
        {
            lanes_in.push(LaneRecv::new(config.lanes_in[i]));
            i = i + 1;
        }
        Ok(Lanes {
            lanes_in,
            lanes_out: config.lanes_out,
            max_packet_len: config.max_packet_len,
            default_packet_cap: config.default_packet_cap,
            frag_send: FragmentSender::new(config.max_payload_len),
            frag_recv: FragmentReceiver::new(config.max_payload_len),
            reassembly_timeout: config.reassembly_timeout,
            send_buffer_bytes_cap: config.send_buffer_bytes_cap,
            send_bytes: 0,
            recv_buffer_bytes_cap: config.recv_buffer_bytes_cap,
            bucket: TokenBucket::new(config.bandwidth as u64, config.burst as u64),
            next_packet_seq: SeqNo(0),
            next_msg_seq: SeqNo(0),
            acks: Acknowledge::new(),
            sent_msgs: Vec::new(),
            flushed_packets: flushed_new(),
            fatal: None,
        })
    }
}

/// Every message of `a` is one of `b`.
pub open spec fn kept_from(a: Seq<SentMessage>, b: Seq<SentMessage>) -> bool {
    forall|i: int| 0 <= i < a.len() ==> b.contains(#[trigger] a[i])
}

impl Lanes {
    /// Whether outgoing lane `lane` is reliable.
    pub open spec fn lane_reliable(&self, lane: int) -> bool {
        self.lanes_out@[lane].kind.reliable()
    }

    /// Index of the oldest message on an unreliable lane, if any.
    fn oldest_unreliable(&self) -> (r: Option<usize>)
        requires
            self.wf(),
        ensures
            r matches Some(i) ==> i < self.sent_msgs@.len() && !self.lane_reliable(
                self.sent_msgs@[i as int].lane as int,
            ),
            r is None ==> forall|i: int|
                0 <= i < self.sent_msgs@.len() ==> self.lane_reliable(
                    #[trigger] self.sent_msgs@[i].lane as int,
                ),
    {
        let mut i: usize = 0;
        while i < self.sent_msgs.len()
            invariant
                self.wf(),
                i <= self.sent_msgs@.len(),
                forall|j: int|
                    0 <= j < i ==> self.lane_reliable(#[trigger] self.sent_msgs@[j].lane as int),
            decreases self.sent_msgs@.len() - i,
        {
            let lane = self.sent_msgs[i].lane;
            assert(self.sent_msgs@[i as int].wf());
            if !self.lanes_out[lane].kind.is_reliable() {
                return Some(i);
            }
            i = i + 1;
        }
        None
    }

    /// Queues `msg` on outgoing lane `lane`, split into fragments, under the
    /// next message sequence, which the returned key carries. Nothing is
    /// sent until `flush`. When the send buffer budget would be exceeded,
    /// the oldest messages of unreliable lanes are evicted; on a reliable
    /// lane that is fatal instead.
    pub fn send(&mut self, msg: &[u8], lane: usize) -> (r: Result<MessageKey, SendError>)
        requires
            old(self).wf(),
        ensures
            final(self).wf(),
            final(self).lanes_out@ == old(self).lanes_out@,
            final(self).frag_send == old(self).frag_send,
            final(self).flushed() == old(self).flushed(),
            final(self).next_packet_seq == old(self).next_packet_seq,
            old(self).fatal matches Some(f) ==> r == Err::<MessageKey, SendError>(SendError::Fatal(f)),
            old(self).fatal is None && lane >= old(self).lanes_out@.len() ==> r == Err::<
                MessageKey,
                SendError,
            >(SendError::InvalidLaneIndex),
            old(self).fatal is None && lane < old(self).lanes_out@.len() && frag_count(
                msg@.len(),
                old(self).frag_send.max_payload_len as nat,
            ) > 128 ==> r == Err::<MessageKey, SendError>(SendError::TooManyFragments),
            r is Err ==> final(self).next_msg_seq == old(self).next_msg_seq,
            r is Err && r != Err::<MessageKey, SendError>(SendError::OutOfMemoryUnreliable)
                ==> final(self).sent_msgs@ == old(self).sent_msgs@,
            r == Err::<MessageKey, SendError>(SendError::OutOfMemoryReliable) <==> (old(
                self,
            ).fatal is None && lane < old(self).lanes_out@.len() && frag_count(
                msg@.len(),
                old(self).frag_send.max_payload_len as nat,
            ) <= 128 && old(self).lane_reliable(lane as int) && old(self).send_bytes + msg@.len()
                > old(self).send_buffer_bytes_cap),
            r == Err::<MessageKey, SendError>(SendError::OutOfMemoryReliable) ==> final(self).fatal
                == Some(SessionFatal::OutOfMemoryReliable),
            r != Err::<MessageKey, SendError>(SendError::OutOfMemoryReliable) ==> final(self).fatal
                == old(self).fatal,
            old(self).fatal is None && lane < old(self).lanes_out@.len() && frag_count(
                msg@.len(),
                old(self).frag_send.max_payload_len as nat,
            ) <= 128 && old(self).send_bytes + msg@.len() <= old(self).send_buffer_bytes_cap
                ==> r is Ok,
            r matches Ok(k) ==> {
                &&& k == MessageKey { lane, msg_seq: old(self).next_msg_seq }
                &&& final(self).next_msg_seq.0 == seq_add(old(self).next_msg_seq.0, 1)
                &&& final(self).sent_msgs@.len() >= 1
                &&& is_queued_message(
                    final(self).sent_msgs@.last(),
                    lane,
                    old(self).next_msg_seq,
                    msg@,
                    old(self).frag_send.max_payload_len as nat,
                )
                &&& kept_from(final(self).sent_msgs@.drop_last(), old(self).sent_msgs@)
                &&& (old(self).send_bytes + msg@.len() <= old(self).send_buffer_bytes_cap
                    ==> final(self).sent_msgs@.drop_last() == old(self).sent_msgs@)
            },
    {
        if let Some(f) = self.fatal {
            return Err(SendError::Fatal(f));
        }
        if lane >= self.lanes_out.len() {
            return Err(SendError::InvalidLaneIndex);
        }
        let msg_seq = self.next_msg_seq;
        let mut frags = match self.frag_send.fragment(msg_seq, msg) {
            Ok(f) => f,
            Err(e) => {
                return Err(e);
            },
        };
        let cap = self.send_buffer_bytes_cap;
        let len = msg.len();
        if self.send_bytes > cap || len > cap - self.send_bytes {
            if self.lanes_out[lane].kind.is_reliable() {
                self.fatal = Some(SessionFatal::OutOfMemoryReliable);
                return Err(SendError::OutOfMemoryReliable);
            }
            while len > cap - self.send_bytes
                invariant
                    self.wf(),
                    self.lanes_out@ == old(self).lanes_out@,
                    self.frag_send == old(self).frag_send,
                    self.flushed() == old(self).flushed(),
                    self.next_packet_seq == old(self).next_packet_seq,
                    self.next_msg_seq == old(self).next_msg_seq,
                    self.fatal == old(self).fatal,
                    self.send_buffer_bytes_cap == cap,
                    old(self).fatal is None,
                    lane < self.lanes_out@.len(),
                    frag_count(msg@.len(), old(self).frag_send.max_payload_len as nat) <= 128,
                    !old(self).lane_reliable(lane as int),
                    old(self).send_bytes + msg@.len() > old(self).send_buffer_bytes_cap,
                    kept_from(self.sent_msgs@, old(self).sent_msgs@),
                decreases self.sent_msgs@.len(),
            {
                match self.oldest_unreliable() {
                    Some(i) => {
                        let ghost prev = self.sent_msgs@;
                        let m = self.sent_msgs.remove(i);
                        proof {
                            lemma_total_bytes_remove(prev, i as int);
                            assert(self.sent_msgs@ =~= prev.remove(i as int));
                            assert forall|j: int| 0 <= j < self.sent_msgs@.len() implies old(
                                self,
                            ).sent_msgs@.contains(#[trigger] self.sent_msgs@[j]) by {
                                let pj = if j < i { j } else { j + 1 };
                                assert(self.sent_msgs@[j] == prev[pj]);
                                assert(old(self).sent_msgs@.contains(prev[pj]));
                            }
                            assert forall|j: int| 0 <= j < self.sent_msgs@.len() implies msg_fits(
                                #[trigger] self.sent_msgs@[j],
                                self.lanes_out@.len() as nat,
                                self.frag_send.max_payload_len as nat,
                            ) by {
                                let pj = if j < i { j } else { j + 1 };
                                assert(self.sent_msgs@[j] == prev[pj]);
                            }
                        }
                        self.send_bytes = self.send_bytes - m.bytes;
                    },
                    None => {
                        return Err(SendError::OutOfMemoryUnreliable);
                    },
                }
            }
        }
        let n = frags.len();
        let ghost all = frags@;
        let ghost p = self.frag_send.max_payload_len as nat;
        let mut slots: Vec<Option<SentFrag>> = Vec::new();
        let mut i: usize = 0;
        while i < n
            invariant
                n == all.len(),
                n <= 128,
                n == frag_count(msg@.len(), p),
                i <= n,
                frags@ == all.subrange(i as int, n as int),
                slots@.len() == i,
                filled(slots@) == i,
                forall|j: int|
                    0 <= j < n ==> #[trigger] crate::frag::is_fragment_of(all[j], msg_seq, msg@, p, j as nat, n as nat),
                forall|j: int|
                    0 <= j < i ==> unsent_slot(
                        #[trigger] slots@[j],
                        all[j].header.marker.0 as int,
                        all[j].payload@,
                    ),
            decreases n - i,
        {
            let f = frags.remove(0);
            assert(f == all[i as int]);
            let ghost prev = slots@;
            slots.push(Some(SentFrag { marker: f.header.marker, payload: f.payload, last_sent: None }));
            assert(slots@.drop_last() =~= prev);
            i = i + 1;
        }
        let m = SentMessage { lane, msg_seq, frags: slots, num_unacked: n, bytes: len };
        proof {
            assert forall|j: int| 0 <= j < m.frags@.len() implies slot_fits(
                #[trigger] m.frags@[j],
                self.frag_send.max_payload_len as nat,
            ) by {
                assert(crate::frag::is_fragment_of(all[j], msg_seq, msg@, p, j as nat, n as nat));
                crate::frag::lemma_chunk_len(msg@, p, j as nat);
            }
        }
        proof {
            assert forall|j: int| 0 <= j < n implies unsent_slot(
                #[trigger] m.frags@[j],
                if j + 1 == n {
                    j + 128
                } else {
                    j
                },
                crate::frag::chunk(msg@, p, j as nat),
            ) by {
                assert(crate::frag::is_fragment_of(all[j], msg_seq, msg@, p, j as nat, n as nat));
            }
            assert(is_queued_message(m, lane, msg_seq, msg@, p));
        }
        let ghost before = self.sent_msgs@;
        self.sent_msgs.push(m);
        proof {
            assert(self.sent_msgs@.drop_last() =~= before);
            assert forall|j: int| 0 <= j < self.sent_msgs@.len() implies msg_fits(
                #[trigger] self.sent_msgs@[j],
                self.lanes_out@.len() as nat,
                self.frag_send.max_payload_len as nat,
            ) by {
                if j < before.len() {
                    assert(self.sent_msgs@[j] == before[j]);
                }
            }
        }
        self.send_bytes = self.send_bytes + len;
        self.next_msg_seq = self.next_msg_seq.wrapping_add(1);
        Ok(MessageKey { lane, msg_seq })
    }
}

/// Emptying a filled slot leaves one fewer filled.
proof fn lemma_filled_clear(frags: Seq<Option<SentFrag>>, j: int)
    requires
        0 <= j < frags.len(),
        frags[j] is Some,
    ensures
        filled(frags.update(j, None)) + 1 == filled(frags),
    decreases frags.len(),
{
    if j == frags.len() - 1 {
        assert(frags.update(j, None).drop_last() =~= frags.drop_last());
    } else {
        lemma_filled_clear(frags.drop_last(), j);
        assert(frags.update(j, None).drop_last() =~= frags.drop_last().update(j, None));
    }
}

/// Refilling a slot with another fragment keeps the count.
proof fn lemma_filled_replace(frags: Seq<Option<SentFrag>>, j: int, f: SentFrag)
    requires
        0 <= j < frags.len(),
        frags[j] is Some,
    ensures
        filled(frags.update(j, Some(f))) == filled(frags),
    decreases frags.len(),
{
    if j == frags.len() - 1 {
        assert(frags.update(j, Some(f)).drop_last() =~= frags.drop_last());
    } else {
        lemma_filled_replace(frags.drop_last(), j, f);
        assert(frags.update(j, Some(f)).drop_last() =~= frags.drop_last().update(j, Some(f)));
    }
}

/// Replacing a message by one of the same size keeps the total.
proof fn lemma_total_bytes_update(msgs: Seq<SentMessage>, i: int, m: SentMessage)
    requires
        0 <= i < msgs.len(),
        m.bytes == msgs[i].bytes,
    ensures
        total_bytes(msgs.update(i, m)) == total_bytes(msgs),
    decreases msgs.len(),
{
    if i == msgs.len() - 1 {
        assert(msgs.update(i, m).drop_last() =~= msgs.drop_last());
    } else {
        lemma_total_bytes_update(msgs.drop_last(), i, m);
        assert(msgs.update(i, m).drop_last() =~= msgs.drop_last().update(i, m));
    }
}

/// Total length of a list of packets.
pub open spec fn total_len(ps: Seq<Vec<u8>>) -> nat
    decreases ps.len(),
{
    if ps.len() == 0 {
        0
    } else {
        total_len(ps.drop_last()) + ps.last()@.len()
    }
}

/// A packet of at most `mtu` bytes that starts with the header for `seq`
/// and `acks` and carries at least one fragment.
pub open spec fn packet_ok(p: Seq<u8>, seq: u16, acks: Acknowledge, mtu: nat) -> bool {
    &&& HEADER_LEN < p.len() <= mtu
    &&& p.subrange(0, HEADER_LEN as int) == crate::codec::header_bytes(
        crate::codec::PacketHeader { seq: SeqNo(seq), acks },
    )
}

/// What sending a fragment does to its slot: on a reliable lane the
/// fragment stays, stamped with the time it went out; on an unreliable lane
/// the slot is emptied.
pub open spec fn sent_slot(before: Option<SentFrag>, after: Option<SentFrag>, reliable: bool, now: u64) -> bool {
    match (before, after) {
        (Some(b), Some(a)) => reliable && a.marker == b.marker && a.payload@ == b.payload@ && a.last_sent == Some(now),
        (Some(b), None) => !reliable,
        _ => false,
    }
}

/// The wire bytes of fragment `e.1` of message `e.0` in the send buffer of
/// `v`, on the message's lane; none for an empty slot.
pub open spec fn wire_of(v: Lanes, e: (usize, usize)) -> Seq<u8> {
    let m = v.sent_msgs@[e.0 as int];
    match m.frags@[e.1 as int] {
        Some(f) => crate::codec::fragment_bytes(
            m.lane as u64,
            FragmentHeader { msg_seq: m.msg_seq, marker: f.marker },
            f.payload@,
        ),
        None => Seq::empty(),
    }
}

/// The wire bytes of the fragments `sched`, in order.
pub open spec fn wires_of(v: Lanes, sched: Seq<(usize, usize)>) -> Seq<Seq<u8>> {
    Seq::new(sched.len(), |k: int| wire_of(v, sched[k]))
}

/// Packets with their bytes.
pub open spec fn outs_view(out: Seq<Vec<u8>>) -> Seq<Seq<u8>> {
    out.map_values(|p: Vec<u8>| p@)
}

/// Where packing stands: the packets closed, the one being filled, the
/// budget left in thousandths of a byte, and whether it ran out.
pub struct PackState {
    pub out: Seq<Seq<u8>>,
    pub cur: Seq<u8>,
    pub level: int,
    pub stopped: bool,
}

/// Packing one more fragment `w`: the packet being filled is closed first
/// when `w` would take it past `mtu`; a new packet opens with the header
/// for the next sequence; the bytes added are paid for, and packing stops,
/// adding nothing, when the budget cannot pay.
pub open spec fn pack_step(st: PackState, w: Seq<u8>, mtu: nat, first: u16, acks: Acknowledge) -> PackState {
    if st.stopped {
        st
    } else {
        let closes = st.cur.len() > 0 && st.cur.len() + w.len() > mtu;
        let out1 = if closes {
            st.out.push(st.cur)
        } else {
            st.out
        };
        let cur1 = if closes {
            Seq::<u8>::empty()
        } else {
            st.cur
        };
        let cost = if cur1.len() == 0 {
            HEADER_LEN + w.len()
        } else {
            w.len() as int
        };
        if cost * 1000 > st.level {
            PackState { out: out1, cur: cur1, level: st.level, stopped: true }
        } else {
            let opened = if cur1.len() == 0 {
                crate::codec::header_bytes(
                    crate::codec::PacketHeader { seq: SeqNo(seq_add(first, out1.len() as int)), acks },
                )
            } else {
                cur1
            };
            PackState { out: out1, cur: opened + w, level: st.level - cost * 1000, stopped: false }
        }
    }
}

/// Packing the fragments `ws` one after another.
pub open spec fn pack_run(st: PackState, ws: Seq<Seq<u8>>, mtu: nat, first: u16, acks: Acknowledge) -> PackState
    decreases ws.len(),
{
    if ws.len() == 0 {
        st
    } else {
        pack_step(pack_run(st, ws.drop_last(), mtu, first, acks), ws.last(), mtu, first, acks)
    }
}

/// A packing state.
pub open spec fn pack_state(out: Seq<Seq<u8>>, cur: Seq<u8>, level: int, stopped: bool) -> PackState {
    PackState { out, cur, level, stopped }
}

/// The packets that packing produced, the last one closed.
pub open spec fn packed(st: PackState) -> Seq<Seq<u8>> {
    if st.cur.len() > 0 {
        st.out.push(st.cur)
    } else {
        st.out
    }
}

/// Once packing has stopped, further fragments change nothing.
proof fn lemma_pack_stopped(st: PackState, ws: Seq<Seq<u8>>, t: int, mtu: nat, first: u16, acks: Acknowledge)
    requires
        0 <= t <= ws.len(),
        pack_run(st, ws.take(t), mtu, first, acks).stopped,
    ensures
        pack_run(st, ws, mtu, first, acks) == pack_run(st, ws.take(t), mtu, first, acks),
    decreases ws.len() - t,
{
    if t < ws.len() {
        assert(ws.drop_last().take(t) =~= ws.take(t));
        lemma_pack_stopped(st, ws.drop_last(), t, mtu, first, acks);
        if t == ws.len() - 1 {
            assert(ws.drop_last() =~= ws.take(t));
        }
    } else {
        assert(ws.take(t) =~= ws);
    }
}

/// The outgoing lane of fragment `e` of the send buffer of `v`.
pub open spec fn lane_of(v: Lanes, e: (usize, usize)) -> usize {
    v.sent_msgs@[e.0 as int].lane
}

/// How many fragments of `s` are on lane `l`.
pub open spec fn count_lane(v: Lanes, s: Seq<(usize, usize)>, l: usize) -> nat
    decreases s.len(),
{
    if s.len() == 0 {
        0
    } else {
        count_lane(v, s.drop_last(), l) + if lane_of(v, s.last()) == l {
            1nat
        } else {
            0nat
        }
    }
}

/// How many fragments before position `x` of `s` are on its lane: its
/// turn within the lane.
pub open spec fn turn(v: Lanes, s: Seq<(usize, usize)>, x: int) -> nat {
    count_lane(v, s.take(x), lane_of(v, s[x]))
}

/// `s` takes the lanes in turn: by turn within the lane, then by lane.
pub open spec fn round_robin(v: Lanes, s: Seq<(usize, usize)>) -> bool {
    forall|x: int, y: int|
        0 <= x < y < s.len() ==> turn(v, s, x) < turn(v, s, y) || (turn(v, s, x) == turn(v, s, y)
            && lane_of(v, s[x]) < lane_of(v, s[y]))
}

/// Fragment `a` is older than fragment `b`: an earlier message, or an
/// earlier fragment of the same message.
pub open spec fn older(a: (usize, usize), b: (usize, usize)) -> bool {
    a.0 < b.0 || (a.0 == b.0 && a.1 < b.1)
}

/// `e` is entry `k` of lane `q`'s queue, for a round `k` before `round`, or
/// round `round` and a lane before `lane`.
pub open spec fn came_from(e: (usize, usize), queues: Seq<Vec<(usize, usize)>>, num_lanes: int, round: int, lane: int) -> bool {
    exists|q: int, k: int|
        0 <= q < num_lanes && 0 <= k < queues[q]@.len() && (k < round || (k == round && q < lane)) && e
            == #[trigger] queues[q]@[k]
}

proof fn lemma_came_from_later(
    e: (usize, usize),
    queues: Seq<Vec<(usize, usize)>>,
    n: int,
    r1: int,
    l1: int,
    r2: int,
    l2: int,
)
    requires
        came_from(e, queues, n, r1, l1),
        (r1 < r2) || (r1 == r2 && l1 <= l2) || (l1 >= n && r2 == r1 + 1),
    ensures
        came_from(e, queues, n, r2, l2),
{
    let (q, k) = choose|q: int, k: int|
        0 <= q < n && 0 <= k < queues[q]@.len() && (k < r1 || (k == r1 && q < l1)) && e == #[trigger] queues[q]@[k];
    assert(k < r2 || (k == r2 && q < l2));
}

/// Message `m` of a reliable lane is still in `msgs` after a flush at
/// `now`: same lane, sequence and slots, each slot as it was or stamped
/// with `now`.
pub open spec fn kept_after_flush(m: SentMessage, msgs: Seq<SentMessage>, now: u64) -> bool {
    exists|w: int|
        0 <= w < msgs.len() && (#[trigger] msgs[w]).lane == m.lane && msgs[w].msg_seq == m.msg_seq
            && msgs[w].frags@.len() == m.frags@.len() && forall|k: int|
            0 <= k < m.frags@.len() ==> slot_after_flush(m.frags@[k], #[trigger] msgs[w].frags@[k], true, now)
}

/// A slot after a flush: as it was, or sent.
pub open spec fn slot_after_flush(before: Option<SentFrag>, after: Option<SentFrag>, reliable: bool, now: u64) -> bool {
    after == before || sent_slot(before, after, reliable, now)
}

/// Whether a fragment slot of a message on a lane configured by `c` may go
/// out at `now`: never sent, or on a reliable lane, last sent at least
/// `resend_after` milliseconds ago.
pub open spec fn eligible(o: Option<SentFrag>, c: LaneConfig, now: u64) -> bool {
    match o {
        Some(f) => match f.last_sent {
            None => true,
            Some(t) => c.kind.reliable() && now >= t && now - t >= c.resend_after,
        },
        None => false,
    }
}

/// On a reliable lane, a fragment not yet acknowledged goes out again once
/// `resend_after` milliseconds have passed since it last went out.
pub proof fn lemma_reliable_fragment_resent(f: SentFrag, c: LaneConfig, now: u64)
    requires
        c.kind.reliable(),
        f.last_sent matches Some(t) && t + c.resend_after <= now,
    ensures
        eligible(Some(f), c, now),
{
}

impl Lanes {
    /// Fragment `e.1` of message `e.0` may go out at `now`.
    pub open spec fn is_eligible(&self, e: (usize, usize), now: u64) -> bool {
        &&& e.0 < self.sent_msgs@.len()
        &&& e.1 < self.sent_msgs@[e.0 as int].frags@.len()
        &&& eligible(
            self.sent_msgs@[e.0 as int].frags@[e.1 as int],
            self.lanes_out@[self.sent_msgs@[e.0 as int].lane as int],
            now,
        )
    }

    /// Whether a fragment may go out at `now`.
    fn check_eligible(&self, i: usize, j: usize, now: u64) -> (r: bool)
        requires
            self.wf(),
            i < self.sent_msgs@.len(),
            j < self.sent_msgs@[i as int].frags@.len(),
        ensures
            r == self.is_eligible((i, j), now),
    {
        let m = &self.sent_msgs[i];
        assert(msg_fits(self.sent_msgs@[i as int], self.lanes_out@.len() as nat, self.frag_send.max_payload_len as nat));
        let c = self.lanes_out[m.lane];
        match &m.frags[j] {
            Some(f) => match f.last_sent {
                None => true,
                Some(t) => c.kind.is_reliable() && now >= t && now - t >= c.resend_after,
            },
            None => false,
        }
    }

    /// The fragments that may go out at `now`, taking lanes in turn and
    /// each lane's fragments oldest first.
    fn schedule(&self, now: u64) -> (r: Vec<(usize, usize)>)
        requires
            self.wf(),
        ensures
            forall|k: int| 0 <= k < r@.len() ==> self.is_eligible(#[trigger] r@[k], now),
            forall|e: (usize, usize)| #[trigger] self.is_eligible(e, now) ==> r@.contains(e),
            r@.no_duplicates(),
            forall|x: int, y: int|
                0 <= x < y < r@.len() && self.sent_msgs@[r@[x].0 as int].lane == self.sent_msgs@[r@[y].0 as int].lane
                    ==> older(#[trigger] r@[x], #[trigger] r@[y]),
            round_robin(*self, r@),
    {
        let num_lanes = self.lanes_out.len();
        let mut queues: Vec<Vec<(usize, usize)>> = Vec::new();
        let mut l: usize = 0;
        while l < num_lanes
            invariant
                l <= num_lanes,
                queues@.len() == l,
                forall|q: int| 0 <= q < l ==> (#[trigger] queues@[q])@.len() == 0,
            decreases num_lanes - l,
        {
            queues.push(Vec::new());
            l = l + 1;
        }
        let mut i: usize = 0;
        while i < self.sent_msgs.len()
            invariant
                self.wf(),
                num_lanes == self.lanes_out@.len(),
                i <= self.sent_msgs@.len(),
                queues@.len() == num_lanes,
                forall|q: int, k: int|
                    0 <= q < queues@.len() && 0 <= k < queues@[q]@.len() ==> self.is_eligible(
                        #[trigger] queues@[q]@[k],
                        now,
                    ),
                forall|e: (usize, usize)|
                    #[trigger] self.is_eligible(e, now) && e.0 < i ==> queues@[self.sent_msgs@[e.0 as int].lane as int]@.contains(e),
                forall|q: int, k: int|
                    0 <= q < queues@.len() && 0 <= k < queues@[q]@.len() ==> (#[trigger] queues@[q]@[k]).0 < i
                        && self.sent_msgs@[queues@[q]@[k].0 as int].lane == q,
                forall|q: int| 0 <= q < queues@.len() ==> (#[trigger] queues@[q])@.no_duplicates(),
                forall|q: int, a: int, b: int|
                    0 <= q < queues@.len() && 0 <= a < b < queues@[q]@.len() ==> older(
                        #[trigger] queues@[q]@[a],
                        #[trigger] queues@[q]@[b],
                    ),
            decreases self.sent_msgs@.len() - i,
        {
            let lane = self.sent_msgs[i].lane;
            assert(msg_fits(self.sent_msgs@[i as int], self.lanes_out@.len() as nat, self.frag_send.max_payload_len as nat));
            let nf = self.sent_msgs[i].frags.len();
            let ghost before = queues@;
            let mut q: Vec<(usize, usize)> = Vec::new();
            queues.set_and_swap(lane, &mut q);
            let ghost q0 = q@;
            proof {
                assert(q0 == before[lane as int]@);
            }
            let mut j: usize = 0;
            while j < nf
                invariant
                    self.wf(),
                    i < self.sent_msgs@.len(),
                    nf == self.sent_msgs@[i as int].frags@.len(),
                    j <= nf,
                    forall|k: int| 0 <= k < q@.len() ==> self.is_eligible(#[trigger] q@[k], now),
                    forall|x: (usize, usize)| #[trigger] q0.contains(x) ==> q@.contains(x),
                    forall|b: usize| b < j && #[trigger] self.is_eligible((i, b), now) ==> q@.contains((i, b)),
                    forall|k: int|
                        0 <= k < q@.len() ==> (#[trigger] q@[k]).0 < i || (q@[k].0 == i && q@[k].1 < j),
                    forall|k: int|
                        0 <= k < q@.len() ==> self.sent_msgs@[(#[trigger] q@[k]).0 as int].lane == lane,
                    lane == self.sent_msgs@[i as int].lane,
                    q@.no_duplicates(),
                    forall|a: int, b: int| 0 <= a < b < q@.len() ==> older(#[trigger] q@[a], #[trigger] q@[b]),
                decreases nf - j,
            {
                if self.check_eligible(i, j, now) {
                    let ghost qp = q@;
                    q.push((i, j));
                    proof {
                        assert(q@[qp.len() as int] == (i, j));
                        assert forall|a: int, b: int| 0 <= a < b < q@.len() implies q@[a] != q@[b] by {
                            if b == qp.len() {
                                assert(qp[a].0 < i || qp[a].1 < j);
                            } else {
                                assert(qp[a] != qp[b]);
                            }
                        }
                        assert forall|x: (usize, usize)| #[trigger] qp.contains(x) implies q@.contains(x) by {
                            let w = choose|w: int| 0 <= w < qp.len() && qp[w] == x;
                            assert(q@[w] == x);
                        }
                    }
                }
                j = j + 1;
            }
            queues.set_and_swap(lane, &mut q);
            proof {
                assert forall|qq: int, k: int|
                    0 <= qq < queues@.len() && 0 <= k < queues@[qq]@.len() implies (#[trigger] queues@[qq]@[k]).0 < i + 1
                        && self.sent_msgs@[queues@[qq]@[k].0 as int].lane == qq by {
                    if qq != lane {
                        assert(queues@[qq] == before[qq]);
                    }
                }
                assert forall|qq: int| 0 <= qq < queues@.len() implies (#[trigger] queues@[qq])@.no_duplicates() by {
                    if qq != lane {
                        assert(queues@[qq] == before[qq]);
                    }
                }
                assert forall|qq: int, a: int, b: int|
                    0 <= qq < queues@.len() && 0 <= a < b < queues@[qq]@.len() implies older(
                        #[trigger] queues@[qq]@[a],
                        #[trigger] queues@[qq]@[b],
                    ) by {
                    if qq != lane {
                        assert(queues@[qq] == before[qq]);
                    }
                }
                assert forall|e: (usize, usize)|
                    #[trigger] self.is_eligible(e, now) && e.0 < i + 1 implies queues@[self.sent_msgs@[e.0 as int].lane as int]@.contains(e) by {
                    let el = self.sent_msgs@[e.0 as int].lane as int;
                    if e.0 < i {
                        if el == lane {
                            assert(q0.contains(e));
                        } else {
                            assert(queues@[el] == before[el]);
                        }
                    } else {
                        assert(e.0 == i);
                        assert(e == (i, e.1));
                    }
                }
            }
            i = i + 1;
        }
        let mut longest: usize = 0;
        let mut l: usize = 0;
        while l < num_lanes
            invariant
                l <= num_lanes,
                queues@.len() == num_lanes,
                forall|q: int| 0 <= q < l ==> (#[trigger] queues@[q])@.len() <= longest,
            decreases num_lanes - l,
        {
            if queues[l].len() > longest {
                longest = queues[l].len();
            }
            l = l + 1;
        }
        let mut out: Vec<(usize, usize)> = Vec::new();
        let ghost mut org: Seq<(int, int)> = Seq::empty();
        let mut round: usize = 0;
        while round < longest
            invariant
                round <= longest,
                queues@.len() == num_lanes,
                forall|q: int| 0 <= q < num_lanes ==> (#[trigger] queues@[q])@.len() <= longest,
                forall|q: int, k: int|
                    0 <= q < queues@.len() && 0 <= k < queues@[q]@.len() ==> self.is_eligible(
                        #[trigger] queues@[q]@[k],
                        now,
                    ),
                forall|k: int| 0 <= k < out@.len() ==> self.is_eligible(#[trigger] out@[k], now),
                forall|q: int, k: int|
                    0 <= q < num_lanes && 0 <= k < round && k < queues@[q]@.len() ==> out@.contains(
                        #[trigger] queues@[q]@[k],
                    ),
                forall|q: int, k: int|
                    0 <= q < queues@.len() && 0 <= k < queues@[q]@.len() ==> self.sent_msgs@[(#[trigger] queues@[q]@[k]).0 as int].lane == q,
                forall|q: int| 0 <= q < queues@.len() ==> (#[trigger] queues@[q])@.no_duplicates(),
                out@.no_duplicates(),
                forall|q: int, a: int, b: int|
                    0 <= q < queues@.len() && 0 <= a < b < queues@[q]@.len() ==> older(
                        #[trigger] queues@[q]@[a],
                        #[trigger] queues@[q]@[b],
                    ),
                forall|x: int, y: int|
                    0 <= x < y < out@.len() && self.sent_msgs@[out@[x].0 as int].lane == self.sent_msgs@[out@[y].0 as int].lane
                        ==> older(#[trigger] out@[x], #[trigger] out@[y]),
                forall|x: int| 0 <= x < out@.len() ==> #[trigger] came_from(out@[x], queues@, num_lanes as int, round as int, 0),
                org.len() == out@.len(),
                forall|x: int| 0 <= x < out@.len() ==> 0 <= (#[trigger] org[x]).1 < num_lanes && 0 <= org[x].0
                    < queues@[org[x].1]@.len() && out@[x] == queues@[org[x].1]@[org[x].0]
                    && turn(*self, out@, x) == org[x].0,
                forall|x: int, y: int|
                    0 <= x < y < out@.len() ==> (#[trigger] org[x]).0 < (#[trigger] org[y]).0 || (org[x].0 == org[y].0
                        && org[x].1 < org[y].1),
                forall|q: int| 0 <= q < num_lanes ==> count_lane(*self, out@, q as usize) == if round < (#[trigger] queues@[q])@.len() {
                    round as int
                } else {
                    queues@[q]@.len() as int
                },
                forall|x: int| 0 <= x < out@.len() ==> (#[trigger] org[x]).0 < round,
            decreases longest - round,
        {
            let mut l: usize = 0;
            while l < num_lanes
                invariant
                    l <= num_lanes,
                    round < longest,
                    queues@.len() == num_lanes,
                    forall|q: int, k: int|
                        0 <= q < queues@.len() && 0 <= k < queues@[q]@.len() ==> self.is_eligible(
                            #[trigger] queues@[q]@[k],
                            now,
                        ),
                    forall|k: int| 0 <= k < out@.len() ==> self.is_eligible(#[trigger] out@[k], now),
                    forall|q: int, k: int|
                        0 <= q < num_lanes && 0 <= k < round && k < queues@[q]@.len() ==> out@.contains(
                            #[trigger] queues@[q]@[k],
                        ),
                    forall|q: int|
                        0 <= q < l && round < (#[trigger] queues@[q])@.len() ==> out@.contains(
                            queues@[q]@[round as int],
                        ),
                    forall|q: int, k: int|
                        0 <= q < queues@.len() && 0 <= k < queues@[q]@.len() ==> self.sent_msgs@[(#[trigger] queues@[q]@[k]).0 as int].lane == q,
                    forall|q: int| 0 <= q < queues@.len() ==> (#[trigger] queues@[q])@.no_duplicates(),
                    out@.no_duplicates(),
                    forall|q: int, a: int, b: int|
                        0 <= q < queues@.len() && 0 <= a < b < queues@[q]@.len() ==> older(
                            #[trigger] queues@[q]@[a],
                            #[trigger] queues@[q]@[b],
                        ),
                    forall|x: int, y: int|
                        0 <= x < y < out@.len() && self.sent_msgs@[out@[x].0 as int].lane == self.sent_msgs@[out@[y].0 as int].lane
                            ==> older(#[trigger] out@[x], #[trigger] out@[y]),
                    forall|x: int| 0 <= x < out@.len() ==> #[trigger] came_from(out@[x], queues@, num_lanes as int, round as int, l as int),
                    org.len() == out@.len(),
                    forall|x: int| 0 <= x < out@.len() ==> 0 <= (#[trigger] org[x]).1 < num_lanes && 0 <= org[x].0
                        < queues@[org[x].1]@.len() && out@[x] == queues@[org[x].1]@[org[x].0]
                        && turn(*self, out@, x) == org[x].0,
                    forall|x: int, y: int|
                        0 <= x < y < out@.len() ==> (#[trigger] org[x]).0 < (#[trigger] org[y]).0 || (org[x].0 == org[y].0
                            && org[x].1 < org[y].1),
                    forall|q: int| 0 <= q < num_lanes ==> count_lane(*self, out@, q as usize) == if round < (#[trigger] queues@[q])@.len() {
                        round as int + if q < l { 1int } else { 0int }
                    } else {
                        queues@[q]@.len() as int
                    },
                    forall|x: int| 0 <= x < out@.len() ==> (#[trigger] org[x]).0 < round || (org[x].0 == round && org[x].1 < l),
                decreases num_lanes - l,
            {
                if round < queues[l].len() {
                    let e = queues[l][round];
                    assert(self.is_eligible(queues@[l as int]@[round as int], now));
                    let ghost op = out@;
                    proof {
                        if op.contains(e) {
                            let x = choose|x: int| 0 <= x < op.len() && op[x] == e;
                            assert(came_from(op[x], queues@, num_lanes as int, round as int, l as int));
                            let (q2, k2) = choose|q: int, k: int|
                                0 <= q < num_lanes && 0 <= k < queues@[q]@.len() && (k < round || (k == round && q < l))
                                    && op[x] == #[trigger] queues@[q]@[k];
                            assert(self.sent_msgs@[queues@[q2]@[k2].0 as int].lane == q2);
                            assert(self.sent_msgs@[queues@[l as int]@[round as int].0 as int].lane == l);
                            assert(q2 == l);
                            assert(queues@[l as int]@.no_duplicates());
                            assert(false);
                        }
                    }
                    out.push(e);
                    proof {
                        let og = org;
                        org = org.push((round as int, l as int));
                        assert(out@.drop_last() =~= op);
                        assert(out@[op.len() as int] == e);
                        assert(lane_of(*self, e) == l);
                        assert forall|q: int| 0 <= q < num_lanes implies count_lane(*self, out@, q as usize) == if round < (#[trigger] queues@[q])@.len() {
                            round as int + if q < l + 1 { 1int } else { 0int }
                        } else {
                            queues@[q]@.len() as int
                        } by {
                            if q == l {
                            }
                        }
                        assert forall|x: int| 0 <= x < out@.len() implies 0 <= (#[trigger] org[x]).1 < num_lanes && 0 <= org[x].0
                            < queues@[org[x].1]@.len() && out@[x] == queues@[org[x].1]@[org[x].0]
                            && turn(*self, out@, x) == org[x].0 by {
                            if x < op.len() {
                                assert(out@.take(x) =~= op.take(x));
                                assert(org[x] == og[x]);
                            } else {
                                assert(out@.take(x) =~= op);
                                assert(count_lane(*self, op, l) == round);
                            }
                        }
                        assert forall|x: int, y: int|
                            0 <= x < y < out@.len() && self.sent_msgs@[out@[x].0 as int].lane == self.sent_msgs@[out@[y].0 as int].lane
                                implies older(#[trigger] out@[x], #[trigger] out@[y]) by {
                            if y == op.len() {
                                assert(came_from(op[x], queues@, num_lanes as int, round as int, l as int));
                                let (q2, k2) = choose|q: int, k: int|
                                    0 <= q < num_lanes && 0 <= k < queues@[q]@.len() && (k < round || (k == round && q < l))
                                        && op[x] == #[trigger] queues@[q]@[k];
                                assert(self.sent_msgs@[queues@[q2]@[k2].0 as int].lane == q2);
                                assert(self.sent_msgs@[queues@[l as int]@[round as int].0 as int].lane == l);
                                assert(q2 == l);
                                assert(k2 < round);
                                assert(older(queues@[l as int]@[k2], queues@[l as int]@[round as int]));
                            } else {
                                assert(out@[x] == op[x] && out@[y] == op[y]);
                            }
                        }
                        assert forall|a: int, b: int| 0 <= a < b < out@.len() implies out@[a] != out@[b] by {
                            if b == op.len() {
                                assert(op[a] != e) by {
                                    if op[a] == e {
                                        assert(op.contains(e));
                                    }
                                }
                            } else {
                                assert(op[a] != op[b]);
                            }
                        }
                        assert forall|x: int| 0 <= x < out@.len() implies #[trigger] came_from(
                            out@[x],
                            queues@,
                            num_lanes as int,
                            round as int,
                            l as int + 1,
                        ) by {
                            if x == op.len() {
                                assert(out@[x] == queues@[l as int]@[round as int]);
                            } else {
                                assert(came_from(op[x], queues@, num_lanes as int, round as int, l as int));
                                let (q2, k2) = choose|q: int, k: int|
                                    0 <= q < num_lanes && 0 <= k < queues@[q]@.len() && (k < round || (k == round && q < l))
                                        && op[x] == #[trigger] queues@[q]@[k];
                                assert(out@[x] == queues@[q2]@[k2]);
                            }
                        }
                        assert forall|x: (usize, usize)| op.contains(x) implies #[trigger] out@.contains(x) by {
                            let w = choose|w: int| 0 <= w < op.len() && op[w] == x;
                            assert(out@[w] == x);
                        }
                    }
                }
                proof {
                    assert forall|x: int| 0 <= x < out@.len() implies #[trigger] came_from(
                        out@[x],
                        queues@,
                        num_lanes as int,
                        round as int,
                        l as int + 1,
                    ) by {
                        if !came_from(out@[x], queues@, num_lanes as int, round as int, l as int + 1) {
                            lemma_came_from_later(out@[x], queues@, num_lanes as int, round as int, l as int, round as int, l as int + 1);
                        }
                    }
                }
                l = l + 1;
            }
            proof {
                assert forall|x: int| 0 <= x < out@.len() implies #[trigger] came_from(
                    out@[x],
                    queues@,
                    num_lanes as int,
                    round as int + 1,
                    0,
                ) by {
                    lemma_came_from_later(out@[x], queues@, num_lanes as int, round as int, l as int, round as int + 1, 0);
                }
            }
            round = round + 1;
        }
        proof {
            assert forall|x: int, y: int| 0 <= x < y < out@.len() implies turn(*self, out@, x) < turn(*self, out@, y)
                || (turn(*self, out@, x) == turn(*self, out@, y) && lane_of(*self, out@[x]) < lane_of(*self, out@[y])) by {
                assert(0 <= org[x].1 < num_lanes && out@[x] == queues@[org[x].1]@[org[x].0]);
                assert(0 <= org[y].1 < num_lanes && out@[y] == queues@[org[y].1]@[org[y].0]);
                assert(lane_of(*self, out@[x]) == org[x].1);
                assert(lane_of(*self, out@[y]) == org[y].1);
                assert(org[x].0 < org[y].0 || (org[x].0 == org[y].0 && org[x].1 < org[y].1));
            }
            assert forall|e: (usize, usize)| #[trigger] self.is_eligible(e, now) implies out@.contains(e) by {
                let el = self.sent_msgs@[e.0 as int].lane as int;
                assert(msg_fits(self.sent_msgs@[e.0 as int], self.lanes_out@.len() as nat, self.frag_send.max_payload_len as nat));
                assert(queues@[el]@.contains(e));
                let w = choose|w: int| 0 <= w < queues@[el]@.len() && queues@[el]@[w] == e;
                assert(out@.contains(queues@[el]@[w]));
            }
        }
        out
    }
}

impl Lanes {
    /// Everything but the send buffer is as in `o`, and the buffer holds
    /// as many messages, each with as many slots.
    pub open spec fn same_but_slots(&self, o: &Lanes) -> bool {
        &&& self.lanes_in == o.lanes_in
        &&& self.lanes_out == o.lanes_out
        &&& self.max_packet_len == o.max_packet_len
        &&& self.frag_send == o.frag_send
        &&& self.frag_recv == o.frag_recv
        &&& self.send_buffer_bytes_cap == o.send_buffer_bytes_cap
        &&& self.send_bytes == o.send_bytes
        &&& self.next_msg_seq == o.next_msg_seq
        &&& self.acks == o.acks
        &&& self.fatal == o.fatal
        &&& self.reassembly_timeout == o.reassembly_timeout
        &&& self.sent_msgs@.len() == o.sent_msgs@.len()
        &&& forall|i: int|
            0 <= i < self.sent_msgs@.len() ==> (#[trigger] self.sent_msgs@[i]).frags@.len()
                == o.sent_msgs@[i].frags@.len() && self.sent_msgs@[i].lane == o.sent_msgs@[i].lane
                && self.sent_msgs@[i].msg_seq == o.sent_msgs@[i].msg_seq
    }

    /// Records that fragment `j` of message `i` went out at `now`: on a
    /// reliable lane it waits for its acknowledgement, on an unreliable one
    /// it is dropped.
    fn mark_sent(&mut self, i: usize, j: usize, now: u64)
        requires
            old(self).wf(),
            i < old(self).sent_msgs@.len(),
            j < old(self).sent_msgs@[i as int].frags@.len(),
            old(self).sent_msgs@[i as int].frags@[j as int] is Some,
        ensures
            final(self).wf(),
            final(self).same_but_slots(old(self)),
            final(self).bucket == old(self).bucket,
            final(self).next_packet_seq == old(self).next_packet_seq,
            final(self).flushed_packets == old(self).flushed_packets,
            sent_slot(
                old(self).sent_msgs@[i as int].frags@[j as int],
                final(self).sent_msgs@[i as int].frags@[j as int],
                old(self).lane_reliable(old(self).sent_msgs@[i as int].lane as int),
                now,
            ),
            forall|q: int, k: int|
                0 <= q < old(self).sent_msgs@.len() && 0 <= k < old(self).sent_msgs@[q].frags@.len()
                    && (q != i || k != j) ==> #[trigger] final(self).sent_msgs@[q].frags@[k]
                    == old(self).sent_msgs@[q].frags@[k],
    {
        assert(msg_fits(old(self).sent_msgs@[i as int], old(self).lanes_out@.len() as nat, old(self).frag_send.max_payload_len as nat));
        let reliable = self.lanes_out[self.sent_msgs[i].lane].kind.is_reliable();
        let mut m = SentMessage { lane: 0, msg_seq: SeqNo(0), frags: Vec::new(), num_unacked: 0, bytes: 0 };
        self.sent_msgs.set_and_swap(i, &mut m);
        let ghost om = m;
        let mut slot: Option<SentFrag> = None;
        m.frags.set_and_swap(j, &mut slot);
        match slot {
            Some(f) => {
                if reliable {
                    let nf = SentFrag { marker: f.marker, payload: f.payload, last_sent: Some(now) };
                    proof {
                        lemma_filled_replace(om.frags@, j as int, nf);
                    }
                    m.frags.set(j, Some(nf));
                    assert(m.frags@ =~= om.frags@.update(j as int, Some(nf)));
                } else {
                    proof {
                        lemma_filled_clear(om.frags@, j as int);
                        assert(m.frags@ =~= om.frags@.update(j as int, None));
                    }
                    m.num_unacked = m.num_unacked - 1;
                }
            },
            None => {},
        }
        let ghost prev = self.sent_msgs@;
        self.sent_msgs.set_and_swap(i, &mut m);
        proof {
            assert(self.sent_msgs@ =~= old(self).sent_msgs@.update(i as int, self.sent_msgs@[i as int]));
            lemma_total_bytes_update(old(self).sent_msgs@, i as int, self.sent_msgs@[i as int]);
            assert forall|q: int| 0 <= q < self.sent_msgs@[i as int].frags@.len() implies slot_fits(
                #[trigger] self.sent_msgs@[i as int].frags@[q],
                self.frag_send.max_payload_len as nat,
            ) by {
                assert(slot_fits(om.frags@[q], self.frag_send.max_payload_len as nat));
            }
            assert forall|k: int| 0 <= k < self.sent_msgs@.len() implies msg_fits(
                #[trigger] self.sent_msgs@[k],
                self.lanes_out@.len() as nat,
                self.frag_send.max_payload_len as nat,
            ) by {
                if k != i {
                    assert(self.sent_msgs@[k] == old(self).sent_msgs@[k]);
                }
            }
        }
    }

    /// Closes the packet being built: it goes out under the next packet
    /// sequence, and the fragments it carries are remembered under it.
    fn finish_packet(&mut self, out: &mut Vec<Vec<u8>>, cur: Vec<u8>, keys: Vec<FragmentKey>)
        ensures
            final(out)@ == old(out)@.push(cur),
            final(self).next_packet_seq.0 == seq_add(old(self).next_packet_seq.0, 1),
            final(self).flushed() == old(self).flushed().insert(old(self).next_packet_seq.0, keys@),
            final(self).lanes_in == old(self).lanes_in,
            final(self).lanes_out == old(self).lanes_out,
            final(self).max_packet_len == old(self).max_packet_len,
            final(self).default_packet_cap == old(self).default_packet_cap,
            final(self).frag_send == old(self).frag_send,
            final(self).frag_recv == old(self).frag_recv,
            final(self).reassembly_timeout == old(self).reassembly_timeout,
            final(self).send_buffer_bytes_cap == old(self).send_buffer_bytes_cap,
            final(self).send_bytes == old(self).send_bytes,
            final(self).bucket == old(self).bucket,
            final(self).next_msg_seq == old(self).next_msg_seq,
            final(self).acks == old(self).acks,
            final(self).sent_msgs == old(self).sent_msgs,
            final(self).fatal == old(self).fatal,
    {
        flushed_insert(&mut self.flushed_packets, self.next_packet_seq.0, keys);
        out.push(cur);
        self.next_packet_seq = self.next_packet_seq.wrapping_add(1);
    }
}

/// Number of packets built so far, counting the one being built.
pub open spec fn built(out: Seq<Vec<u8>>, cur: Seq<u8>) -> nat {
    out.len() + if cur.len() > 0 {
        1nat
    } else {
        0nat
    }
}

/// Packets built so far and the one being built are well formed: each at
/// most `mtu` bytes, opening with the header for its sequence.
pub open spec fn building_ok(
    out: Seq<Vec<u8>>,
    cur: Seq<u8>,
    next_seq: u16,
    first_seq: u16,
    acks: Acknowledge,
    mtu: nat,
) -> bool {
    &&& cur.len() <= mtu
    &&& cur.len() > 0 ==> packet_ok(cur, next_seq, acks, mtu)
    &&& forall|k: int| 0 <= k < out.len() ==> packet_ok(#[trigger] out[k]@, seq_add(first_seq, k), acks, mtu)
    &&& next_seq == seq_add(first_seq, out.len() as int)
}

/// The state while packing a flush that started from `start` at `now`:
/// the session is well formed and differs from `start` only in its slots,
/// its bandwidth budget and the packets it sent; the packets are well
/// formed; and every byte put in them was paid for.
#[verifier::opaque]
pub open spec fn packing(
    s: Lanes,
    start: Lanes,
    out: Seq<Vec<u8>>,
    cur: Seq<u8>,
    first_seq: u16,
    now: u64,
) -> bool {
    &&& s.wf()
    &&& s.same_but_slots(&start)
    &&& s.bucket.rate == start.bucket.rate
    &&& s.bucket.burst == start.bucket.burst
    &&& s.bucket.last == Some(now)
    &&& building_ok(out, cur, s.next_packet_seq.0, first_seq, start.acks, start.max_packet_len as nat)
    &&& (total_len(out) + cur.len()) * 1000 + s.bucket.level == start.bucket.level
}

impl Lanes {
    /// Puts fragment `j` of message `i` into the packet being built,
    /// closing that packet first when the fragment does not fit, and pays
    /// for the bytes. Returns false, adding nothing, when the budget is
    /// short.
    #[verifier::rlimit(80)]
    fn emit_fragment(
        &mut self,
        out: &mut Vec<Vec<u8>>,
        cur: &mut Vec<u8>,
        keys: &mut Vec<FragmentKey>,
        i: usize,
        j: usize,
        now: u64,
        first_seq: Ghost<u16>,
    ) -> (r: bool)
        requires
            old(self).wf(),
            i < old(self).sent_msgs@.len(),
            j < old(self).sent_msgs@[i as int].frags@.len(),
            old(self).sent_msgs@[i as int].frags@[j as int] is Some,
            building_ok(
                old(out)@,
                old(cur)@,
                old(self).next_packet_seq.0,
                first_seq@,
                old(self).acks,
                old(self).max_packet_len as nat,
            ),
        ensures
            final(self).wf(),
            final(self).same_but_slots(old(self)),
            final(self).bucket.rate == old(self).bucket.rate,
            final(self).bucket.burst == old(self).bucket.burst,
            final(self).bucket.last == old(self).bucket.last,
            building_ok(
                final(out)@,
                final(cur)@,
                final(self).next_packet_seq.0,
                first_seq@,
                final(self).acks,
                final(self).max_packet_len as nat,
            ),
            (total_len(final(out)@) + final(cur)@.len()) * 1000 + final(self).bucket.level == (
            total_len(old(out)@) + old(cur)@.len()) * 1000 + old(self).bucket.level,
            final(out)@.len() >= old(out)@.len(),
            built(final(out)@, final(cur)@) >= built(old(out)@, old(cur)@),
            old(cur)@.len() == 0 && old(self).bucket.level >= old(self).max_packet_len * 1000 ==> r
                && final(cur)@.len() > 0,
            pack_step(
                pack_state(outs_view(old(out)@), old(cur)@, old(self).bucket.level as int, false),
                wire_of(*old(self), (i, j)),
                old(self).max_packet_len as nat,
                first_seq@,
                old(self).acks,
            ) == pack_state(outs_view(final(out)@), final(cur)@, final(self).bucket.level as int, !r),
            slot_after_flush(
                old(self).sent_msgs@[i as int].frags@[j as int],
                final(self).sent_msgs@[i as int].frags@[j as int],
                old(self).lane_reliable(old(self).sent_msgs@[i as int].lane as int),
                now,
            ),
            forall|q: int, k: int|
                0 <= q < old(self).sent_msgs@.len() && 0 <= k < old(self).sent_msgs@[q].frags@.len()
                    && (q != i || k != j) ==> #[trigger] final(self).sent_msgs@[q].frags@[k]
                    == old(self).sent_msgs@[q].frags@[k],
    {
        let mtu = self.max_packet_len;
        let ghost p = self.frag_send.max_payload_len;
        assert(msg_fits(self.sent_msgs@[i as int], self.lanes_out@.len() as nat, p as nat));
        let lane = self.sent_msgs[i].lane;
        let msg_seq = self.sent_msgs[i].msg_seq;
        let plen = match &self.sent_msgs[i].frags[j] {
            Some(f) => f.payload.len(),
            None => 0,
        };
        assert(slot_fits(self.sent_msgs@[i as int].frags@[j as int], p as nat));
        proof {
            crate::codec::lemma_varint_len_monotonic(lane as u64, self.lanes_out@.len() as u64);
            crate::codec::lemma_varint_len_monotonic(plen as u64, p as u64);
        }
        let size = varint_len(lane as u64) + 3 + varint_len(plen as u64) + plen;
        if cur.len() > 0 && size > mtu - cur.len() {
            let mut done: Vec<u8> = Vec::new();
            std::mem::swap(cur, &mut done);
            let mut k: Vec<FragmentKey> = Vec::new();
            std::mem::swap(keys, &mut k);
            let ghost before = out@;
            self.finish_packet(out, done, k);
            assert(out@.drop_last() =~= before);
            assert(outs_view(out@) =~= outs_view(before).push(old(cur)@));
            proof {
                crate::seq::lemma_seq_add_add(first_seq@, before.len() as int, 1);
                assert forall|q: int| 0 <= q < out@.len() implies packet_ok(
                    #[trigger] out@[q]@,
                    seq_add(first_seq@, q),
                    self.acks,
                    mtu as nat,
                ) by {
                    if q < before.len() {
                        assert(out@[q] == before[q]);
                    }
                }
            }
        }
        let cost = if cur.len() == 0 {
            HEADER_LEN + size
        } else {
            size
        };
        if !self.bucket.try_take(cost) {
            return false;
        }
        if cur.len() == 0 {
            crate::codec::write_header(
                cur,
                crate::codec::PacketHeader { seq: self.next_packet_seq, acks: self.acks },
            );
        }
        let ghost with_header = cur@;
        match &self.sent_msgs[i].frags[j] {
            None => {},
            Some(f) => {
                crate::codec::write_fragment(
                    cur,
                    lane as u64,
                    crate::frag::FragmentHeader { msg_seq, marker: f.marker },
                    f.payload.as_slice(),
                );
            },
        }
        proof {
            assert(cur@.subrange(0, HEADER_LEN as int) =~= with_header.subrange(0, HEADER_LEN as int));
            assert(with_header.len() >= HEADER_LEN);
            assert(with_header.subrange(0, HEADER_LEN as int) =~= crate::codec::header_bytes(
                crate::codec::PacketHeader { seq: self.next_packet_seq, acks: self.acks },
            ));
        }
        keys.push(FragmentKey { msg_seq, frag_index: j as u8 });
        self.mark_sent(i, j, now);
        true
    }

    /// Puts fragment `j` of message `i` into the packet being built if its
    /// slot is still filled; see `emit_fragment`. Returns false when the
    /// budget is short.
    fn pack_one(
        &mut self,
        out: &mut Vec<Vec<u8>>,
        cur: &mut Vec<u8>,
        keys: &mut Vec<FragmentKey>,
        i: usize,
        j: usize,
        now: u64,
        start: Ghost<Lanes>,
        first_seq: Ghost<u16>,
    ) -> (r: bool)
        requires
            packing(*old(self), start@, old(out)@, old(cur)@, first_seq@, now),
            i < start@.sent_msgs@.len(),
            j < start@.sent_msgs@[i as int].frags@.len(),
            start@.sent_msgs@[i as int].frags@[j as int] is Some,
            old(self).sent_msgs@[i as int].frags@[j as int] == start@.sent_msgs@[i as int].frags@[j as int],
        ensures
            packing(*final(self), start@, final(out)@, final(cur)@, first_seq@, now),
            pack_step(
                pack_state(outs_view(old(out)@), old(cur)@, old(self).bucket.level as int, false),
                wire_of(start@, (i, j)),
                start@.max_packet_len as nat,
                first_seq@,
                start@.acks,
            ) == pack_state(outs_view(final(out)@), final(cur)@, final(self).bucket.level as int, !r),
            slot_after_flush(
                old(self).sent_msgs@[i as int].frags@[j as int],
                final(self).sent_msgs@[i as int].frags@[j as int],
                old(self).lane_reliable(old(self).sent_msgs@[i as int].lane as int),
                now,
            ),
            final(self).sent_msgs@.len() == old(self).sent_msgs@.len(),
            forall|q: int, k: int|
                0 <= q < old(self).sent_msgs@.len() && 0 <= k < old(self).sent_msgs@[q].frags@.len()
                    && (q != i || k != j) ==> #[trigger] final(self).sent_msgs@[q].frags@[k]
                    == old(self).sent_msgs@[q].frags@[k],

            built(final(out)@, final(cur)@) >= built(old(out)@, old(cur)@),
            old(cur)@.len() == 0 && old(self).bucket.level >= start@.max_packet_len * 1000
                && old(self).sent_msgs@ == start@.sent_msgs@ && start@.sent_msgs@[i as int].frags@[j as int] is Some
                ==> r && final(cur)@.len() > 0,
    {
        proof {
            reveal(packing);
        }
        let filled_slot = match &self.sent_msgs[i].frags[j] {
            Some(_) => true,
            None => false,
        };
        if !filled_slot {
            return true;
        }
        let ghost mid = *self;
        assert(wire_of(mid, (i, j)) == wire_of(start@, (i, j)));
        let ok = self.emit_fragment(out, cur, keys, i, j, now, first_seq);
        proof {
            assert(self.same_but_slots(&start@)) by {
                assert forall|q: int| 0 <= q < self.sent_msgs@.len() implies (#[trigger] self.sent_msgs@[q]).frags@.len()
                    == start@.sent_msgs@[q].frags@.len() && self.sent_msgs@[q].lane == start@.sent_msgs@[q].lane
                    && self.sent_msgs@[q].msg_seq == start@.sent_msgs@[q].msg_seq by {
                    assert(mid.sent_msgs@[q].frags@.len() == start@.sent_msgs@[q].frags@.len());
                }
            }
        }
        ok
    }

    /// Packs the fragments of `sched`, in order, into packets, paying for
    /// every byte from the bandwidth budget and stopping when it runs short.
    fn build_packets(&mut self, sched: &Vec<(usize, usize)>, now: u64) -> (r: Vec<Vec<u8>>)
        requires
            old(self).wf(),
            old(self).fatal is None,
            old(self).bucket.last == Some(now),
            forall|k: int| 0 <= k < sched@.len() ==> old(self).is_eligible(#[trigger] sched@[k], now),
            sched@.no_duplicates(),
        ensures
            forall|q: int, k: int|
                0 <= q < old(self).sent_msgs@.len() && 0 <= k < old(self).sent_msgs@[q].frags@.len()
                    ==> slot_after_flush(
                    old(self).sent_msgs@[q].frags@[k],
                    #[trigger] final(self).sent_msgs@[q].frags@[k],
                    old(self).lane_reliable(old(self).sent_msgs@[q].lane as int),
                    now,
                ),
            outs_view(r@) == packed(
                pack_run(
                    pack_state(Seq::empty(), Seq::empty(), old(self).bucket.level as int, false),
                    wires_of(*old(self), sched@),
                    old(self).max_packet_len as nat,
                    old(self).next_packet_seq.0,
                    old(self).acks,
                ),
            ),
            final(self).wf(),
            forall|k: int|
                0 <= k < r@.len() ==> packet_ok(
                    #[trigger] r@[k]@,
                    seq_add(old(self).next_packet_seq.0, k),
                    old(self).acks,
                    old(self).max_packet_len as nat,
                ),
            final(self).next_packet_seq.0 == seq_add(old(self).next_packet_seq.0, r@.len() as int),
            total_len(r@) * 1000 + final(self).bucket.level == old(self).bucket.level,
            final(self).bucket.last == Some(now),
            final(self).bucket.rate == old(self).bucket.rate,
            final(self).bucket.burst == old(self).bucket.burst,
            final(self).same_but_slots(old(self)),
            sched@.len() > 0 && old(self).bucket.level >= old(self).max_packet_len * 1000 ==> r@.len()
                >= 1,
            sched@.len() == 0 ==> r@.len() == 0,
    {
        let mut out: Vec<Vec<u8>> = Vec::new();
        let ghost start = *self;
        let ghost first_seq = self.next_packet_seq.0;
        let mut cur: Vec<u8> = Vec::new();
        let mut keys: Vec<FragmentKey> = Vec::new();
        proof {
            reveal(packing);
            assert(self.same_but_slots(&start));
            assert(self.next_packet_seq.0 == seq_add(first_seq, 0));
        }
        let ghost ws = wires_of(start, sched@);
        let ghost init = pack_state(Seq::empty(), Seq::empty(), start.bucket.level as int, false);
        proof {
            assert(ws.take(0) =~= Seq::<Seq<u8>>::empty());
            assert(outs_view(out@) =~= Seq::<Seq<u8>>::empty());
        }
        let mut stopped = false;
        let mut t: usize = 0;
        while t < sched.len()
            invariant_except_break
                !stopped,
            invariant
                ws == wires_of(start, sched@),
                init == pack_state(Seq::empty(), Seq::empty(), start.bucket.level as int, false),
                sched@.no_duplicates(),
                pack_run(init, ws.take(t as int), start.max_packet_len as nat, first_seq, start.acks)
                    == pack_state(outs_view(out@), cur@, self.bucket.level as int, stopped),
                forall|k: int|
                    t <= k < sched@.len() ==> self.sent_msgs@[sched@[k].0 as int].frags@[sched@[k].1 as int]
                        == start.sent_msgs@[sched@[k].0 as int].frags@[sched@[k].1 as int],
                packing(*self, start, out@, cur@, first_seq, now),
                forall|q: int, k: int|
                    0 <= q < start.sent_msgs@.len() && 0 <= k < start.sent_msgs@[q].frags@.len()
                        ==> slot_after_flush(
                        start.sent_msgs@[q].frags@[k],
                        #[trigger] self.sent_msgs@[q].frags@[k],
                        start.lane_reliable(start.sent_msgs@[q].lane as int),
                        now,
                    ),
                t <= sched@.len(),
                forall|k: int| 0 <= k < sched@.len() ==> start.is_eligible(#[trigger] sched@[k], now),
                t == 0 ==> out@.len() == 0 && cur@.len() == 0 && self.sent_msgs@ == start.sent_msgs@
                    && self.bucket.level == start.bucket.level,
                t > 0 && start.bucket.level >= start.max_packet_len * 1000 ==> built(out@, cur@) >= 1,
            ensures
                sched@.len() > 0 ==> t > 0,
                t == 0 ==> out@.len() == 0 && cur@.len() == 0,
                !stopped ==> t == sched@.len(),
                t > 0 && start.bucket.level >= start.max_packet_len * 1000 ==> built(out@, cur@) >= 1,
            decreases sched@.len() - t,
        {
            let (i, j) = sched[t];
            assert(start.is_eligible(sched@[t as int], now));
            proof {
                reveal(packing);
                assert(ws.take(t as int + 1).drop_last() =~= ws.take(t as int));
                assert(ws.take(t as int + 1).last() == wire_of(start, (i, j)));
            }
            let ghost before_slots = self.sent_msgs@;
            let ok = self.pack_one(&mut out, &mut cur, &mut keys, i, j, now, Ghost(start), Ghost(first_seq));
            proof {
                reveal(packing);
                assert forall|q: int, k: int|
                    0 <= q < start.sent_msgs@.len() && 0 <= k < start.sent_msgs@[q].frags@.len()
                        implies slot_after_flush(
                        start.sent_msgs@[q].frags@[k],
                        #[trigger] self.sent_msgs@[q].frags@[k],
                        start.lane_reliable(start.sent_msgs@[q].lane as int),
                        now,
                    ) by {
                    if q == i && k == j {
                    } else {
                        assert(self.sent_msgs@[q].frags@[k] == before_slots[q].frags@[k]);
                    }
                }
                assert forall|k: int| t + 1 <= k < sched@.len() implies self.sent_msgs@[sched@[k].0 as int].frags@[sched@[k].1 as int]
                    == start.sent_msgs@[sched@[k].0 as int].frags@[sched@[k].1 as int] by {
                    assert(sched@[k] != sched@[t as int]);
                    assert(start.is_eligible(sched@[k], now));
                }
            }
            t = t + 1;
            if !ok {
                stopped = true;
                break;
            }
        }
        proof {
            if stopped {
                lemma_pack_stopped(init, ws, t as int, start.max_packet_len as nat, first_seq, start.acks);
            } else {
                assert(ws.take(t as int) =~= ws);
            }
        }
        proof {
            reveal(packing);
        }
        if cur.len() > 0 {
            let ghost before = out@;
            self.finish_packet(&mut out, cur, keys);
            assert(out@.drop_last() =~= before);
            proof {
                crate::seq::lemma_seq_add_add(first_seq, before.len() as int, 1);
            }
        }
        assert(sched@.len() > 0 ==> t > 0);
        out
    }

    /// Builds the packets to send at `now`. Eligible fragments are taken
    /// lane by lane in turn, each lane's oldest first, and packed into
    /// packets of at most `max_packet_len` bytes, each opening with the
    /// header for the next packet sequence and the current
    /// acknowledgements. Every byte emitted is paid from the bandwidth
    /// budget, refilled for the time since the last flush; when the budget
    /// runs short the flush stops. Fragments of unreliable lanes are
    /// dropped once sent; those of reliable lanes wait for their
    /// acknowledgement and go out again after `resend_after`. Emits nothing
    /// once the session has stopped on a fatal error.
    pub fn flush(&mut self, now: u64) -> (r: Vec<Vec<u8>>)
        requires
            old(self).wf(),
        ensures
            final(self).wf(),
            old(self).fatal is Some ==> r@.len() == 0 && *final(self) == *old(self),
            forall|k: int|
                0 <= k < r@.len() ==> packet_ok(
                    #[trigger] r@[k]@,
                    seq_add(old(self).next_packet_seq.0, k),
                    old(self).acks,
                    old(self).max_packet_len as nat,
                ),
            final(self).next_packet_seq.0 == seq_add(old(self).next_packet_seq.0, r@.len() as int),
            old(self).fatal is None ==> total_len(r@) * 1000 + final(self).bucket.level == old(
                self,
            ).bucket.refilled(now).level,
            old(self).fatal is None ==> final(self).bucket.last == Some(now),
            old(self).fatal is None ==> final(self).bucket == crate::bandwidth::bucket_step(
                old(self).bucket,
                now,
                total_len(r@),
            ),
            final(self).bucket.rate == old(self).bucket.rate,
            final(self).bucket.burst == old(self).bucket.burst,
            final(self).acks == old(self).acks,
            final(self).lanes_out == old(self).lanes_out,
            final(self).max_packet_len == old(self).max_packet_len,
            final(self).frag_send == old(self).frag_send,
            final(self).next_msg_seq == old(self).next_msg_seq,
            final(self).fatal == old(self).fatal,
            forall|i: int|
                0 <= i < old(self).sent_msgs@.len() && old(self).lane_reliable(
                    (#[trigger] old(self).sent_msgs@[i]).lane as int,
                ) ==> has_key(
                    final(self).sent_msgs@,
                    MessageKey { lane: old(self).sent_msgs@[i].lane, msg_seq: old(self).sent_msgs@[i].msg_seq },
                ),
            old(self).fatal is None && !(exists|e: (usize, usize)| old(self).is_eligible(e, now)) ==> r@.len()
                == 0,
            forall|i: int|
                0 <= i < old(self).sent_msgs@.len() && old(self).lane_reliable(
                    (#[trigger] old(self).sent_msgs@[i]).lane as int,
                ) ==> kept_after_flush(old(self).sent_msgs@[i], final(self).sent_msgs@, now),
            old(self).fatal is None ==> exists|sched: Seq<(usize, usize)>|
                sched.no_duplicates() && (forall|e: (usize, usize)| sched.contains(e) <==> old(self).is_eligible(e, now))
                    && (forall|x: int, y: int|
                    0 <= x < y < sched.len() && old(self).sent_msgs@[sched[x].0 as int].lane
                        == old(self).sent_msgs@[sched[y].0 as int].lane ==> older(sched[x], sched[y]))
                    && round_robin(*old(self), sched)
                    && outs_view(r@) == packed(
                    pack_run(
                        pack_state(Seq::empty(), Seq::empty(), old(self).bucket.refilled(now).level as int, false),
                        #[trigger] wires_of(*old(self), sched),
                        old(self).max_packet_len as nat,
                        old(self).next_packet_seq.0,
                        old(self).acks,
                    ),
                ),
            old(self).fatal is None && (exists|e: (usize, usize)| old(self).is_eligible(e, now))
                && old(self).bucket.refilled(now).level >= old(self).max_packet_len * 1000 ==> r@.len()
                >= 1,
    {
        if self.fatal.is_some() {
            return Vec::new();
        }
        let sched = self.schedule(now);
        proof {
            if sched@.len() > 0 {
                assert(old(self).is_eligible(sched@[0], now));
            }
            if exists|e: (usize, usize)| old(self).is_eligible(e, now) {
                let e = choose|e: (usize, usize)| old(self).is_eligible(e, now);
                assert(sched@.contains(e));
            }
        }
        self.bucket.refill(now);
        assert(wires_of(*self, sched@) =~= wires_of(*old(self), sched@));
        let out = self.build_packets(&sched, now);
        assert(forall|e: (usize, usize)| sched@.contains(e) <==> old(self).is_eligible(e, now));
        let ghost built_msgs = self.sent_msgs@;
        self.drop_finished();
        proof {
            assert forall|i: int|
                0 <= i < old(self).sent_msgs@.len() && old(self).lane_reliable(
                    (#[trigger] old(self).sent_msgs@[i]).lane as int,
                ) implies has_key(
                self.sent_msgs@,
                MessageKey { lane: old(self).sent_msgs@[i].lane, msg_seq: old(self).sent_msgs@[i].msg_seq },
            ) by {
                let m = built_msgs[i];
                assert(m.lane == old(self).sent_msgs@[i].lane);
                assert(m.num_unacked > 0);
                assert(self.sent_msgs@.contains(m));
                let w = choose|w: int| 0 <= w < self.sent_msgs@.len() && self.sent_msgs@[w] == m;
                assert(self.sent_msgs@[w].lane == m.lane);
            }
            assert forall|i: int|
                0 <= i < old(self).sent_msgs@.len() && old(self).lane_reliable(
                    (#[trigger] old(self).sent_msgs@[i]).lane as int,
                ) implies kept_after_flush(old(self).sent_msgs@[i], self.sent_msgs@, now) by {
                let m = built_msgs[i];
                assert(m.num_unacked > 0);
                assert(self.sent_msgs@.contains(m));
                let w = choose|w: int| 0 <= w < self.sent_msgs@.len() && self.sent_msgs@[w] == m;
                assert(self.sent_msgs@[w] == built_msgs[i]);
                assert forall|k: int| 0 <= k < old(self).sent_msgs@[i].frags@.len() implies slot_after_flush(
                    old(self).sent_msgs@[i].frags@[k],
                    #[trigger] self.sent_msgs@[w].frags@[k],
                    true,
                    now,
                ) by {
                    assert(slot_after_flush(old(self).sent_msgs@[i].frags@[k], built_msgs[i].frags@[k], true, now));
                }
            }
        }
        out
    }
}

/// What the acknowledgement bookkeeping sees of a message in the send
/// buffer: its lane, sequence, which slots are still filled, and its counts.
pub struct SentView {
    pub lane: usize,
    pub msg_seq: MessageSeq,
    pub filled: Seq<bool>,
    pub num_unacked: usize,
    pub bytes: usize,
}

/// The bookkeeping view of one message.
pub open spec fn sent_view(m: SentMessage) -> SentView {
    SentView {
        lane: m.lane,
        msg_seq: m.msg_seq,
        filled: m.frags@.map_values(|o: Option<SentFrag>| o is Some),
        num_unacked: m.num_unacked,
        bytes: m.bytes,
    }
}

/// The bookkeeping view of a send buffer.
pub open spec fn sent_views(ms: Seq<SentMessage>) -> Seq<SentView> {
    ms.map_values(|m: SentMessage| sent_view(m))
}

/// Index of the first message with sequence `s`; the length if none.
pub open spec fn first_with_seq(v: Seq<SentView>, s: MessageSeq) -> int
    decreases v.len(),
{
    if v.len() == 0 {
        0
    } else if v[0].msg_seq == s {
        0
    } else {
        1 + first_with_seq(v.drop_first(), s)
    }
}

proof fn lemma_first_with_seq(v: Seq<SentView>, s: MessageSeq, i: int)
    requires
        0 <= i <= v.len(),
        forall|q: int| 0 <= q < i ==> (#[trigger] v[q]).msg_seq != s,
        i == v.len() || v[i].msg_seq == s,
    ensures
        first_with_seq(v, s) == i,
    decreases i,
{
    if i > 0 {
        assert(v[0].msg_seq != s);
        lemma_first_with_seq(v.drop_first(), s, i - 1);
    }
}

/// The send buffer after the peer acknowledged fragment `key`, and the
/// message this completes: the first message with that sequence loses the
/// fragment if it still holds it, and leaves the buffer, reported, once it
/// holds no more. Anything else changes nothing.
pub open spec fn ack_step(v: Seq<SentView>, key: FragmentKey) -> (Seq<SentView>, Option<MessageKey>) {
    let i = first_with_seq(v, key.msg_seq);
    let j = key.frag_index as int;
    if i < v.len() && j < v[i].filled.len() && v[i].filled[j] {
        let m = v[i];
        let nm = SentView { filled: m.filled.update(j, false), num_unacked: (m.num_unacked - 1) as usize, ..m };
        if nm.num_unacked == 0 {
            (v.remove(i), Some(MessageKey { lane: m.lane, msg_seq: m.msg_seq }))
        } else {
            (v.update(i, nm), None)
        }
    } else {
        (v, None)
    }
}

/// Acknowledging the fragments `keys` one after another: the buffer after,
/// and the messages completed, in order.
pub open spec fn ack_keys(v: Seq<SentView>, keys: Seq<FragmentKey>) -> (Seq<SentView>, Seq<MessageKey>)
    decreases keys.len(),
{
    if keys.len() == 0 {
        (v, Seq::empty())
    } else {
        let before = ack_keys(v, keys.drop_last());
        let st = ack_step(before.0, keys.last());
        (st.0, match st.1 {
            Some(k) => before.1.push(k),
            None => before.1,
        })
    }
}

/// The peer acknowledged the packets `seqs`, in order: each one still
/// remembered leaves the table, and its fragments are acknowledged. The
/// buffer, the table and the completed messages after.
pub open spec fn ack_packets(
    v: Seq<SentView>,
    table: Map<u16, Seq<FragmentKey>>,
    seqs: Seq<SeqNo>,
) -> (Seq<SentView>, Map<u16, Seq<FragmentKey>>, Seq<MessageKey>)
    decreases seqs.len(),
{
    if seqs.len() == 0 {
        (v, table, Seq::empty())
    } else {
        let before = ack_packets(v, table, seqs.drop_last());
        let s = seqs.last().0;
        if before.1.contains_key(s) {
            let st = ack_keys(before.0, before.1[s]);
            (st.0, before.1.remove(s), before.2 + st.1)
        } else {
            before
        }
    }
}

/// What one incoming packet produced.
pub struct Received {
    /// Messages of ours that the peer has now received in full.
    pub acks: Vec<MessageKey>,
    /// Messages delivered, with their incoming lane, and the errors met on
    /// the way, in packet order.
    pub msgs: Vec<Result<(Vec<u8>, usize), RecvError>>,
}

/// Some message of `msgs` is message `k`.
pub open spec fn has_key(msgs: Seq<SentMessage>, k: MessageKey) -> bool {
    exists|i: int| 0 <= i < msgs.len() && msgs[i].lane == k.lane && msgs[i].msg_seq == k.msg_seq
}

/// Every message of `a` is, by lane and sequence, one of `b`.
pub open spec fn keys_from(a: Seq<SentMessage>, b: Seq<SentMessage>) -> bool {
    forall|i: int|
        0 <= i < a.len() ==> has_key(
            b,
            MessageKey { lane: (#[trigger] a[i]).lane, msg_seq: a[i].msg_seq },
        )
}

/// The headers and payloads of `ds`.
pub open spec fn known_pairs(ds: Seq<(u64, FragmentHeader, Seq<u8>)>) -> Seq<(FragmentHeader, Seq<u8>)> {
    ds.map_values(|d: (u64, FragmentHeader, Seq<u8>)| (d.1, d.2))
}

/// Every fragment of `ds` names one of the `n` incoming lanes.
pub open spec fn all_known(ds: Seq<(u64, FragmentHeader, Seq<u8>)>, n: nat) -> bool {
    forall|k: int| 0 <= k < ds.len() ==> (#[trigger] ds[k]).0 < n
}

/// What the incoming lanes hold.
pub open spec fn lane_views(ls: Seq<LaneRecv>) -> Seq<LaneView> {
    ls.map_values(|l: LaneRecv| l.view())
}

/// Received items with their bytes.
pub open spec fn items_view(ms: Seq<Result<(Vec<u8>, usize), RecvError>>) -> Seq<Result<(Seq<u8>, usize), RecvError>> {
    ms.map_values(
        |x: Result<(Vec<u8>, usize), RecvError>|
            match x {
                Ok(d) => Ok((d.0@, d.1)),
                Err(e) => Err(e),
            },
    )
}

/// Messages delivered on `lane`, as received items.
pub open spec fn as_items(ds: Seq<(u16, Seq<u8>)>, lane: usize) -> Seq<Result<(Seq<u8>, usize), RecvError>> {
    ds.map_values(|d: (u16, Seq<u8>)| Ok::<(Seq<u8>, usize), RecvError>((d.1, lane)))
}

/// The lanes in states `lanes` take the outcomes `outs` of reassembling
/// the fragments `ds`, in order: a reassembly error becomes an error item,
/// and a completed message goes through its lane's policy, whose deliveries
/// become items. The lanes after, and the items.
pub open spec fn deliver(
    lanes: Seq<LaneView>,
    ds: Seq<(u64, FragmentHeader, Seq<u8>)>,
    outs: Seq<Result<Option<Seq<u8>>, RecvError>>,
) -> (Seq<LaneView>, Seq<Result<(Seq<u8>, usize), RecvError>>)
    decreases ds.len(),
{
    if ds.len() == 0 {
        (lanes, Seq::empty())
    } else {
        let b = deliver(lanes, ds.drop_last(), outs.drop_last());
        let lane = ds.last().0 as int;
        match outs.last() {
            Err(e) => (b.0, b.1.push(Err(e))),
            Ok(None) => b,
            Ok(Some(m)) => {
                let st = lane_step(b.0[lane], ds.last().1.msg_seq, m);
                (b.0.update(lane, st.0), b.1 + as_items(st.1, lane as usize))
            },
        }
    }
}

proof fn lemma_feed_len(m: Map<u16, crate::frag::PartialView>, p: nat, now: u64, fs: Seq<(FragmentHeader, Seq<u8>)>)
    ensures
        crate::frag::feed(m, p, now, fs).1.len() == fs.len(),
    decreases fs.len(),
{
    if fs.len() > 0 {
        lemma_feed_len(m, p, now, fs.drop_last());
    }
}

/// The packet sequence in the first two bytes of `p`.
pub open spec fn packet_seq_of(p: Seq<u8>) -> u16 {
    (p[0] * 256 + p[1]) as u16
}

impl Lanes {
    /// Marks one fragment of ours as received by the peer. Returns the key
    /// of its message when that was the message's last unacknowledged
    /// fragment; the message then leaves the send buffer.
    fn ack_fragment(&mut self, key: FragmentKey) -> (r: Option<MessageKey>)
        requires
            old(self).wf(),
        ensures
            final(self).wf(),
            keys_from(final(self).sent_msgs@, old(self).sent_msgs@),
            r matches Some(k) ==> has_key(old(self).sent_msgs@, k),
            (sent_views(final(self).sent_msgs@), r) == ack_step(sent_views(old(self).sent_msgs@), key),
            final(self).lanes_in == old(self).lanes_in,
            final(self).lanes_out == old(self).lanes_out,
            final(self).frag_send == old(self).frag_send,
            final(self).frag_recv == old(self).frag_recv,
            final(self).max_packet_len == old(self).max_packet_len,
            final(self).bucket == old(self).bucket,
            final(self).next_packet_seq == old(self).next_packet_seq,
            final(self).next_msg_seq == old(self).next_msg_seq,
            final(self).acks == old(self).acks,
            final(self).flushed_packets == old(self).flushed_packets,
            final(self).fatal == old(self).fatal,
            final(self).reassembly_timeout == old(self).reassembly_timeout,
    {
        let mut i: usize = 0;
        while i < self.sent_msgs.len()
            invariant
                i <= self.sent_msgs@.len(),
                forall|q: int| 0 <= q < i ==> self.sent_msgs@[q].msg_seq != key.msg_seq,
            ensures
                i <= self.sent_msgs@.len(),
                forall|q: int| 0 <= q < i ==> self.sent_msgs@[q].msg_seq != key.msg_seq,
                i == self.sent_msgs@.len() || self.sent_msgs@[i as int].msg_seq == key.msg_seq,
            decreases self.sent_msgs@.len() - i,
        {
            if self.sent_msgs[i].msg_seq == key.msg_seq {
                break;
            }
            i = i + 1;
        }
        proof {
            assert forall|q: int| 0 <= q < self.sent_msgs@.len() implies has_key(
                old(self).sent_msgs@,
                MessageKey { lane: (#[trigger] self.sent_msgs@[q]).lane, msg_seq: self.sent_msgs@[q].msg_seq },
            ) by {}
            let v = sent_views(old(self).sent_msgs@);
            assert forall|q: int| 0 <= q < i implies (#[trigger] v[q]).msg_seq != key.msg_seq by {}
            lemma_first_with_seq(v, key.msg_seq, i as int);
        }
        if i >= self.sent_msgs.len() {
            return None;
        }
        let j = key.frag_index as usize;
        if j >= self.sent_msgs[i].frags.len() {
            return None;
        }
        let is_filled = match &self.sent_msgs[i].frags[j] {
            Some(_) => true,
            None => false,
        };
        assert(sent_views(old(self).sent_msgs@)[i as int].filled[j as int] == is_filled);
        if !is_filled {
            return None;
        }
        assert(msg_fits(self.sent_msgs@[i as int], self.lanes_out@.len() as nat, self.frag_send.max_payload_len as nat));
        let mut m = SentMessage { lane: 0, msg_seq: SeqNo(0), frags: Vec::new(), num_unacked: 0, bytes: 0 };
        self.sent_msgs.set_and_swap(i, &mut m);
        let ghost om = m;
        let mut slot: Option<SentFrag> = None;
        m.frags.set_and_swap(j, &mut slot);
        proof {
            lemma_filled_clear(om.frags@, j as int);
            assert(m.frags@ =~= om.frags@.update(j as int, None));
        }
        m.num_unacked = m.num_unacked - 1;
        let lane = m.lane;
        let msg_seq = m.msg_seq;
        let done = m.num_unacked == 0;
        self.sent_msgs.set_and_swap(i, &mut m);
        proof {
            assert(self.sent_msgs@ =~= old(self).sent_msgs@.update(i as int, self.sent_msgs@[i as int]));
            lemma_total_bytes_update(old(self).sent_msgs@, i as int, self.sent_msgs@[i as int]);
            assert forall|q: int| 0 <= q < self.sent_msgs@[i as int].frags@.len() implies slot_fits(
                #[trigger] self.sent_msgs@[i as int].frags@[q],
                self.frag_send.max_payload_len as nat,
            ) by {
                assert(slot_fits(om.frags@[q], self.frag_send.max_payload_len as nat));
            }
            assert forall|k: int| 0 <= k < self.sent_msgs@.len() implies msg_fits(
                #[trigger] self.sent_msgs@[k],
                self.lanes_out@.len() as nat,
                self.frag_send.max_payload_len as nat,
            ) by {
                if k != i {
                    assert(self.sent_msgs@[k] == old(self).sent_msgs@[k]);
                }
            }
            assert forall|q: int| 0 <= q < self.sent_msgs@.len() implies has_key(
                old(self).sent_msgs@,
                MessageKey { lane: (#[trigger] self.sent_msgs@[q]).lane, msg_seq: self.sent_msgs@[q].msg_seq },
            ) by {
                assert(old(self).sent_msgs@[q].lane == self.sent_msgs@[q].lane);
            }
            assert(has_key(old(self).sent_msgs@, MessageKey { lane, msg_seq }));
            assert(sent_view(self.sent_msgs@[i as int]).filled =~= sent_view(om).filled.update(j as int, false));
            assert(sent_views(self.sent_msgs@) =~= sent_views(old(self).sent_msgs@).update(
                i as int,
                sent_view(self.sent_msgs@[i as int]),
            ));
        }
        if done {
            let ghost prev = self.sent_msgs@;
            let gone = self.sent_msgs.remove(i);
            proof {
                lemma_total_bytes_remove(prev, i as int);
                assert(self.sent_msgs@ =~= prev.remove(i as int));
                assert(sent_views(self.sent_msgs@) =~= sent_views(old(self).sent_msgs@).remove(i as int));
                assert forall|k: int| 0 <= k < self.sent_msgs@.len() implies msg_fits(
                    #[trigger] self.sent_msgs@[k],
                    self.lanes_out@.len() as nat,
                    self.frag_send.max_payload_len as nat,
                ) && has_key(
                    old(self).sent_msgs@,
                    MessageKey { lane: self.sent_msgs@[k].lane, msg_seq: self.sent_msgs@[k].msg_seq },
                ) by {
                    let pk = if k < i { k } else { k + 1 };
                    assert(self.sent_msgs@[k] == prev[pk]);
                    assert(old(self).sent_msgs@[pk].lane == prev[pk].lane);
                }
            }
            self.send_bytes = self.send_bytes - gone.bytes;
            Some(MessageKey { lane, msg_seq })
        } else {
            None
        }
    }
}

impl Lanes {
    /// Takes out the fragments that packet `seq` carried, if it is still
    /// remembered.
    fn take_flushed(&mut self, seq: u16) -> (r: Option<Vec<FragmentKey>>)
        requires
            old(self).wf(),
        ensures
            final(self).wf(),
            final(self).lanes_in == old(self).lanes_in,
            final(self).lanes_out == old(self).lanes_out,
            final(self).frag_send == old(self).frag_send,
            final(self).frag_recv == old(self).frag_recv,
            final(self).sent_msgs == old(self).sent_msgs,
            final(self).send_bytes == old(self).send_bytes,
            final(self).acks == old(self).acks,
            final(self).fatal == old(self).fatal,
            final(self).bucket == old(self).bucket,
            final(self).max_packet_len == old(self).max_packet_len,
            final(self).next_packet_seq == old(self).next_packet_seq,
            final(self).next_msg_seq == old(self).next_msg_seq,
            final(self).reassembly_timeout == old(self).reassembly_timeout,
            final(self).flushed() == old(self).flushed().remove(seq),
            old(self).flushed().contains_key(seq) <==> r is Some,
            r matches Some(v) ==> v@ == old(self).flushed()[seq],
    {
        flushed_remove(&mut self.flushed_packets, seq)
    }

    /// Reads one incoming packet received at `now`. Its sequence is
    /// recorded for our acknowledgements; the peer's acknowledgements in its
    /// header release our fragments, and the messages whose every fragment
    /// is acknowledged are returned. Then each fragment is reassembled and
    /// each completed message handed to its incoming lane, whose policy
    /// decides what is delivered; a fragment the reassembler rejects becomes
    /// an error item. Fails only when the packet is too short for a header.
    /// When the fragments cannot all be read, or one names an unknown lane,
    /// no fragment of the packet is used: the only item is that error.
    pub fn recv(&mut self, now: u64, packet: &[u8]) -> (r: Result<Received, RecvError>)
        requires
            old(self).wf(),
        ensures
            final(self).wf(),
            packet@.len() < HEADER_LEN <==> r is Err,
            r is Err ==> r == Err::<Received, RecvError>(RecvError::ShortRead) && *final(self)
                == *old(self),
            r is Ok ==> final(self).acks == old(self).acks.ack_spec(packet_seq_of(packet@)),
            r matches Ok(got) ==> forall|k: int|
                0 <= k < got.acks@.len() ==> has_key(old(self).sent_msgs@, #[trigger] got.acks@[k]),
            r matches Ok(got) ==> exists|h: crate::codec::PacketHeader, ps: Seq<SeqNo>|
                #![trigger crate::codec::header_bytes(h), ack_packets(sent_views(old(self).sent_msgs@), old(self).flushed(), ps)]
                crate::codec::header_bytes(h) == packet@.subrange(0, HEADER_LEN as int)
                    && (forall|q: SeqNo| ps.contains(q) <==> h.acks.acked(q.0))
                    && (forall|i: int, j: int|
                    0 <= i < j < ps.len() ==> crate::seq::seq_dist(ps[i].0, h.acks.last_recv.0)
                        < crate::seq::seq_dist(ps[j].0, h.acks.last_recv.0))
                    && (sent_views(final(self).sent_msgs@), final(self).flushed(), got.acks@) == ack_packets(
                    sent_views(old(self).sent_msgs@),
                    old(self).flushed(),
                    ps,
                ),
            r matches Ok(got) ==> exists|ds: Seq<(u64, FragmentHeader, Seq<u8>)>, whole: bool|
                #[trigger] crate::codec::reads_as(packet@.subrange(HEADER_LEN as int, packet@.len() as int), ds, whole)
                    && (if whole && all_known(ds, old(self).lanes_in@.len()) {
                    let fd = crate::frag::feed(
                        old(self).frag_recv.view(),
                        old(self).frag_recv.max_payload_len as nat,
                        now,
                        known_pairs(ds),
                    );
                    &&& final(self).frag_recv.view() == fd.0
                    &&& (lane_views(final(self).lanes_in@), items_view(got.msgs@)) == deliver(
                        lane_views(old(self).lanes_in@),
                        ds,
                        fd.1,
                    )
                } else {
                    &&& final(self).frag_recv.view() == old(self).frag_recv.view()
                    &&& lane_views(final(self).lanes_in@) == lane_views(old(self).lanes_in@)
                    &&& got.msgs@.len() == 1
                    &&& (!all_known(ds, old(self).lanes_in@.len()) ==> got.msgs@[0] == Err::<
                        (Vec<u8>, usize),
                        RecvError,
                    >(RecvError::InvalidLaneIndex))
                    &&& (all_known(ds, old(self).lanes_in@.len()) ==> got.msgs@[0] == Err::<
                        (Vec<u8>, usize),
                        RecvError,
                    >(RecvError::ShortRead) || got.msgs@[0] == Err::<(Vec<u8>, usize), RecvError>(
                        RecvError::BadVarint,
                    ))
                }),
            keys_from(final(self).sent_msgs@, old(self).sent_msgs@),
            final(self).lanes_out == old(self).lanes_out,
            final(self).next_packet_seq == old(self).next_packet_seq,
            final(self).next_msg_seq == old(self).next_msg_seq,
            final(self).fatal == old(self).fatal,
    {
        let header = match crate::codec::read_header(packet) {
            Ok(h) => h,
            Err(e) => {
                return Err(e);
            },
        };
        proof {
            assert(packet@.subrange(0, 8)[0] == packet@[0]);
            assert(packet@.subrange(0, 8)[1] == packet@[1]);
            assert(header.seq.0 == packet_seq_of(packet@)) by (nonlinear_arith)
                requires packet@[0] == (header.seq.0 / 256) as u8, packet@[1] == (header.seq.0 % 256) as u8;
        }
        self.acks.ack(header.seq);
        let mut acked: Vec<MessageKey> = Vec::new();
        let peer_seqs = header.acks.seqs();
        let ghost v0 = sent_views(self.sent_msgs@);
        let ghost t0 = self.flushed();
        let mut a: usize = 0;
        while a < peer_seqs.len()
            invariant
                v0 == sent_views(old(self).sent_msgs@),
                t0 == old(self).flushed(),
                a <= peer_seqs@.len(),
                (sent_views(self.sent_msgs@), self.flushed(), acked@) == ack_packets(
                    v0,
                    t0,
                    peer_seqs@.subrange(0, a as int),
                ),
                self.wf(),
                self.acks == old(self).acks.ack_spec(packet_seq_of(packet@)),
                keys_from(self.sent_msgs@, old(self).sent_msgs@),
                forall|k: int| 0 <= k < acked@.len() ==> has_key(old(self).sent_msgs@, #[trigger] acked@[k]),
                self.lanes_in == old(self).lanes_in,
                self.lanes_out == old(self).lanes_out,
                self.next_packet_seq == old(self).next_packet_seq,
                self.next_msg_seq == old(self).next_msg_seq,
                self.fatal == old(self).fatal,
                self.frag_recv == old(self).frag_recv,
            decreases peer_seqs@.len() - a,
        {
            let ghost va = sent_views(self.sent_msgs@);
            let ghost aa = acked@;
            proof {
                assert(peer_seqs@.subrange(0, a as int + 1).drop_last() =~= peer_seqs@.subrange(0, a as int));
            }
            if let Some(keys) = self.take_flushed(peer_seqs[a].0) {
                let mut b: usize = 0;
                while b < keys.len()
                    invariant
                        b <= keys@.len(),
                        (sent_views(self.sent_msgs@), acked@) == (
                            ack_keys(va, keys@.subrange(0, b as int)).0,
                            aa + ack_keys(va, keys@.subrange(0, b as int)).1,
                        ),
                        self.flushed() == ack_packets(v0, t0, peer_seqs@.subrange(0, a as int)).1.remove(
                            peer_seqs@[a as int].0,
                        ),
                        self.wf(),
                        self.acks == old(self).acks.ack_spec(packet_seq_of(packet@)),
                        keys_from(self.sent_msgs@, old(self).sent_msgs@),
                        forall|k: int| 0 <= k < acked@.len() ==> has_key(old(self).sent_msgs@, #[trigger] acked@[k]),
                        self.lanes_in == old(self).lanes_in,
                        self.lanes_out == old(self).lanes_out,
                        self.next_packet_seq == old(self).next_packet_seq,
                        self.next_msg_seq == old(self).next_msg_seq,
                        self.fatal == old(self).fatal,
                        self.frag_recv == old(self).frag_recv,
                    decreases keys@.len() - b,
                {
                    let ghost before = self.sent_msgs@;
                    let ghost acked_before = acked@;
                    proof {
                        assert(keys@.subrange(0, b as int + 1).drop_last() =~= keys@.subrange(0, b as int));
                    }
                    if let Some(k) = self.ack_fragment(keys[b]) {
                        proof {
                            let w = choose|w: int| 0 <= w < before.len() && before[w].lane == k.lane && before[w].msg_seq == k.msg_seq;
                            assert(has_key(old(self).sent_msgs@, MessageKey { lane: before[w].lane, msg_seq: before[w].msg_seq }));
                        }
                        acked.push(k);
                    }
                    proof {
                        assert forall|q: int| 0 <= q < self.sent_msgs@.len() implies has_key(
                            old(self).sent_msgs@,
                            MessageKey { lane: (#[trigger] self.sent_msgs@[q]).lane, msg_seq: self.sent_msgs@[q].msg_seq },
                        ) by {
                            let w = choose|w: int| 0 <= w < before.len() && before[w].lane == self.sent_msgs@[q].lane && before[w].msg_seq == self.sent_msgs@[q].msg_seq;
                            assert(has_key(old(self).sent_msgs@, MessageKey { lane: before[w].lane, msg_seq: before[w].msg_seq }));
                        }
                    }
                    proof {
                        let st = ack_keys(va, keys@.subrange(0, b as int + 1));
                        assert(acked@ =~= aa + st.1);
                    }
                    b = b + 1;
                }
                proof {
                    assert(keys@.subrange(0, b as int) =~= keys@);
                }
            }
            a = a + 1;
        }
        let ghost v_after = sent_views(self.sent_msgs@);
        let ghost t_after = self.flushed();
        proof {
            assert(peer_seqs@.subrange(0, peer_seqs@.len() as int) =~= peer_seqs@);
        }
        let mut msgs: Vec<Result<(Vec<u8>, usize), RecvError>> = Vec::new();
        let (ds, err) = crate::codec::read_fragments(packet, HEADER_LEN);
        let ghost wv = crate::codec::wire_view(ds@);
        let ghost m0 = self.frag_recv.view();
        let ghost l0 = lane_views(self.lanes_in@);
        let ghost p = self.frag_recv.max_payload_len as nat;
        let nlanes = self.lanes_in.len();
        proof {
            assert(crate::codec::rest(packet@, HEADER_LEN as int) =~= packet@.subrange(
                HEADER_LEN as int,
                packet@.len() as int,
            ));
        }
        let mut known = true;
        let mut c: usize = 0;
        while c < ds.len()
            invariant
                c <= ds@.len(),
                wv == crate::codec::wire_view(ds@),
                known == (forall|k: int| 0 <= k < c ==> (#[trigger] wv[k]).0 < nlanes),
            decreases ds@.len() - c,
        {
            if ds[c].0 >= nlanes as u64 {
                known = false;
            }
            proof {
                if !known {
                    assert(wv[c as int].0 >= nlanes || !(forall|k: int| 0 <= k < c ==> (#[trigger] wv[k]).0 < nlanes));
                }
            }
            c = c + 1;
        }
        if !known {
            msgs.push(Err(RecvError::InvalidLaneIndex));
            assert(!all_known(wv, nlanes as nat));
            return Ok(Received { acks: acked, msgs });
        }
        assert(all_known(wv, nlanes as nat));
        if let Some(e) = err {
            msgs.push(Err(e));
            return Ok(Received { acks: acked, msgs });
        }
        proof {
            assert(wv.take(0) =~= Seq::<(u64, FragmentHeader, Seq<u8>)>::empty());
            assert(known_pairs(wv.take(0)) =~= Seq::<(FragmentHeader, Seq<u8>)>::empty());
            assert(items_view(msgs@) =~= Seq::<Result<(Seq<u8>, usize), RecvError>>::empty());
        }
        let mut i: usize = 0;
        while i < ds.len()
            invariant
                self.wf(),
                self.acks == old(self).acks.ack_spec(packet_seq_of(packet@)),
                keys_from(self.sent_msgs@, old(self).sent_msgs@),
                sent_views(self.sent_msgs@) == v_after,
                self.flushed() == t_after,
                self.lanes_in@.len() == old(self).lanes_in@.len(),
                nlanes == old(self).lanes_in@.len(),
                self.lanes_out == old(self).lanes_out,
                self.next_packet_seq == old(self).next_packet_seq,
                self.next_msg_seq == old(self).next_msg_seq,
                self.fatal == old(self).fatal,
                self.frag_recv.max_payload_len == p,
                wv == crate::codec::wire_view(ds@),
                all_known(wv, nlanes as nat),
                i <= ds@.len(),
                m0 == old(self).frag_recv.view(),
                l0 == lane_views(old(self).lanes_in@),
                p == old(self).frag_recv.max_payload_len as nat,
                self.frag_recv.view() == crate::frag::feed(m0, p, now, known_pairs(wv.take(i as int))).0,
                (lane_views(self.lanes_in@), items_view(msgs@)) == deliver(
                    l0,
                    wv.take(i as int),
                    crate::frag::feed(m0, p, now, known_pairs(wv.take(i as int))).1,
                ),
            decreases ds@.len() - i,
        {
            let lane = ds[i].0 as usize;
            let h = ds[i].1;
            let ghost fv = self.frag_recv.view();
            let ghost lv = lane_views(self.lanes_in@);
            let ghost iv = items_view(msgs@);
            let res = self.frag_recv.reassemble(now, h, ds[i].2.as_slice());
            proof {
                assert(wv.take(i as int + 1) =~= wv.take(i as int).push(wv[i as int]));
                assert(wv.take(i as int + 1).drop_last() =~= wv.take(i as int));
                assert(known_pairs(wv.take(i as int + 1)).drop_last() =~= known_pairs(wv.take(i as int)));
                assert(known_pairs(wv.take(i as int + 1)).last() == (h, ds@[i as int].2@));
                lemma_feed_len(m0, p, now, known_pairs(wv.take(i as int)));
                let outs1 = crate::frag::feed(m0, p, now, known_pairs(wv.take(i as int + 1))).1;
                assert(outs1.drop_last() =~= crate::frag::feed(m0, p, now, known_pairs(wv.take(i as int))).1);
                assert(outs1.last() == crate::frag::outcome_view(res));
                assert(wv[i as int].0 < nlanes);
            }
            match res {
                Err(e) => {
                    msgs.push(Err(e));
                    assert(items_view(msgs@) =~= iv.push(Err(e)));
                },
                Ok(None) => {},
                Ok(Some(msg)) => {
                    let ghost lanes_before = self.lanes_in@;
                    let mut l = LaneRecv::UnreliableUnordered;
                    self.lanes_in.set_and_swap(lane, &mut l);
                    assert(lanes_before[lane as int].wf());
                    let delivered = l.recv(h.msg_seq, msg);
                    self.lanes_in.set_and_swap(lane, &mut l);
                    proof {
                        assert forall|q: int| 0 <= q < self.lanes_in@.len() implies (#[trigger] self.lanes_in@[q]).wf() by {
                            if q != lane {
                                assert(self.lanes_in@[q] == lanes_before[q]);
                            }
                        }
                        assert(lane_views(self.lanes_in@) =~= lv.update(lane as int, self.lanes_in@[lane as int].view()));
                    }
                    let ghost all_items = as_items(delivered_view(delivered@), lane);
                    let mut dv = delivered;
                    proof {
                        assert(all_items =~= as_items(delivered_view(dv@), lane));
                        assert(iv + all_items =~= items_view(msgs@) + as_items(delivered_view(dv@), lane));
                    }
                    while dv.len() > 0
                        invariant
                            iv + all_items == items_view(msgs@) + as_items(delivered_view(dv@), lane),
                        decreases dv@.len(),
                    {
                        let ghost before_dv = dv@;
                        let ghost before_items = items_view(msgs@);
                        let (_, m) = dv.remove(0);
                        msgs.push(Ok((m, lane)));
                        proof {
                            assert(dv@ =~= before_dv.drop_first());
                            assert(items_view(msgs@) =~= before_items.push(Ok((m@, lane))));
                            assert(as_items(delivered_view(before_dv), lane) =~= seq![Ok::<(Seq<u8>, usize), RecvError>((m@, lane))]
                                + as_items(delivered_view(dv@), lane));
                            assert(before_items + as_items(delivered_view(before_dv), lane) =~= items_view(msgs@)
                                + as_items(delivered_view(dv@), lane));
                        }
                    }
                    proof {
                        assert(as_items(delivered_view(dv@), lane) =~= Seq::<Result<(Seq<u8>, usize), RecvError>>::empty());
                        assert(items_view(msgs@) =~= iv + all_items);
                    }
                },
            }
            i = i + 1;
        }
        proof {
            assert(wv.take(i as int) =~= wv);
        }
        Ok(Received { acks: acked, msgs })
    }
}

impl Lanes {
    /// Drops the messages whose every fragment is gone: those of unreliable
    /// lanes once sent.
    fn drop_finished(&mut self)
        requires
            old(self).wf(),
        ensures
            final(self).wf(),
            keys_from(final(self).sent_msgs@, old(self).sent_msgs@),
            forall|i: int| 0 <= i < final(self).sent_msgs@.len() ==> (#[trigger] final(self).sent_msgs@[i]).num_unacked > 0,
            forall|j: int|
                0 <= j < old(self).sent_msgs@.len() && (#[trigger] old(self).sent_msgs@[j]).num_unacked > 0
                    ==> final(self).sent_msgs@.contains(old(self).sent_msgs@[j]),
            final(self).lanes_in == old(self).lanes_in,
            final(self).lanes_out == old(self).lanes_out,
            final(self).frag_send == old(self).frag_send,
            final(self).frag_recv == old(self).frag_recv,
            final(self).max_packet_len == old(self).max_packet_len,
            final(self).bucket == old(self).bucket,
            final(self).next_packet_seq == old(self).next_packet_seq,
            final(self).next_msg_seq == old(self).next_msg_seq,
            final(self).acks == old(self).acks,
            final(self).flushed_packets == old(self).flushed_packets,
            final(self).fatal == old(self).fatal,
    {
        let mut i: usize = 0;
        while i < self.sent_msgs.len()
            invariant
                self.wf(),
                i <= self.sent_msgs@.len(),
                forall|q: int| 0 <= q < i ==> (#[trigger] self.sent_msgs@[q]).num_unacked > 0,
                keys_from(self.sent_msgs@, old(self).sent_msgs@),
                forall|j: int|
                    0 <= j < old(self).sent_msgs@.len() && (#[trigger] old(self).sent_msgs@[j]).num_unacked > 0
                        ==> self.sent_msgs@.contains(old(self).sent_msgs@[j]),
                self.lanes_in == old(self).lanes_in,
                self.lanes_out == old(self).lanes_out,
                self.frag_send == old(self).frag_send,
                self.frag_recv == old(self).frag_recv,
                self.max_packet_len == old(self).max_packet_len,
                self.bucket == old(self).bucket,
                self.next_packet_seq == old(self).next_packet_seq,
                self.next_msg_seq == old(self).next_msg_seq,
                self.acks == old(self).acks,
                self.flushed_packets == old(self).flushed_packets,
                self.fatal == old(self).fatal,
            decreases self.sent_msgs@.len() - i,
        {
            if self.sent_msgs[i].num_unacked == 0 {
                let ghost prev = self.sent_msgs@;
                let gone = self.sent_msgs.remove(i);
                proof {
                    lemma_total_bytes_remove(prev, i as int);
                    assert(self.sent_msgs@ =~= prev.remove(i as int));
                    assert forall|k: int| 0 <= k < self.sent_msgs@.len() implies msg_fits(
                        #[trigger] self.sent_msgs@[k],
                        self.lanes_out@.len() as nat,
                        self.frag_send.max_payload_len as nat,
                    ) && has_key(
                        old(self).sent_msgs@,
                        MessageKey { lane: self.sent_msgs@[k].lane, msg_seq: self.sent_msgs@[k].msg_seq },
                    ) by {
                        let pk = if k < i { k } else { k + 1 };
                        assert(self.sent_msgs@[k] == prev[pk]);
                    }
                    assert forall|q: int| 0 <= q < i implies (#[trigger] self.sent_msgs@[q]).num_unacked > 0 by {
                        assert(self.sent_msgs@[q] == prev[q]);
                    }
                    assert forall|j: int|
                        0 <= j < old(self).sent_msgs@.len() && (#[trigger] old(self).sent_msgs@[j]).num_unacked > 0
                            implies self.sent_msgs@.contains(old(self).sent_msgs@[j]) by {
                        let x = old(self).sent_msgs@[j];
                        let w = choose|w: int| 0 <= w < prev.len() && prev[w] == x;
                        assert(w != i);
                        if w < i {
                            assert(self.sent_msgs@[w] == x);
                        } else {
                            assert(self.sent_msgs@[w - 1] == x);
                        }
                    }
                }
                self.send_bytes = self.send_bytes - gone.bytes;
            } else {
                i = i + 1;
            }
        }
    }

    /// Periodic upkeep at `now`: drops incomplete messages older than the
    /// reassembly timeout and forgets packets that the peer's
    /// acknowledgements can no longer reach. Returns the fatal error once
    /// one happened.
    pub fn update(&mut self, now: u64) -> (r: Result<(), SessionFatal>)
        requires
            old(self).wf(),
        ensures
            final(self).wf(),
            r == (match old(self).fatal {
                Some(f) => Err(f),
                None => Ok::<(), SessionFatal>(()),
            }),
            final(self).frag_recv.held() <= old(self).recv_buffer_bytes_cap,
            forall|k: u16| #[trigger] final(self).frag_recv.view().contains_key(k) ==> {
                &&& old(self).frag_recv.view().contains_key(k)
                &&& final(self).frag_recv.view()[k] == old(self).frag_recv.view()[k]
                &&& !crate::frag::is_expired(old(self).frag_recv.view()[k], now, old(self).reassembly_timeout)
            },
            forall|k: u16|
                #[trigger] old(self).frag_recv.view().contains_key(k) && crate::frag::is_expired(
                    old(self).frag_recv.view()[k],
                    now,
                    old(self).reassembly_timeout,
                ) ==> !final(self).frag_recv.view().contains_key(k),
            final(self).flushed() == old(self).flushed().restrict(
                old(self).flushed().dom().filter(|k: u16| is_recent_spec(k, old(self).next_packet_seq.0)),
            ),
            final(self).sent_msgs == old(self).sent_msgs,
            final(self).acks == old(self).acks,
            final(self).next_packet_seq == old(self).next_packet_seq,
            final(self).next_msg_seq == old(self).next_msg_seq,
            final(self).fatal == old(self).fatal,
    {
        self.frag_recv.clean_up(now, self.reassembly_timeout);
        self.frag_recv.evict_to(self.recv_buffer_bytes_cap);
        flushed_keep_recent(&mut self.flushed_packets, self.next_packet_seq.0);
        match self.fatal {
            Some(f) => Err(f),
            None => Ok(()),
        }
    }

    /// Sets the largest packet size. Fails, and stops the session, when a
    /// packet of `mtu` bytes cannot hold a header and one full fragment.
    pub fn set_mtu(&mut self, mtu: usize) -> (r: Result<(), SessionFatal>)
        requires
            old(self).wf(),
        ensures
            final(self).wf(),
            r is Err <==> mtu < min_packet_len(
                old(self).lanes_out@.len() as nat,
                old(self).frag_send.max_payload_len as nat,
            ),
            r is Err ==> r == Err::<(), SessionFatal>(SessionFatal::MtuTooSmall) && final(self).fatal
                == Some(SessionFatal::MtuTooSmall) && final(self).max_packet_len == old(
                self,
            ).max_packet_len,
            r is Ok ==> final(self).max_packet_len == mtu && final(self).fatal == old(self).fatal,
            final(self).sent_msgs == old(self).sent_msgs,
    {
        let min = min_packet_len_of(self.lanes_out.len(), self.frag_send.max_payload_len);
        if mtu < min {
            self.fatal = Some(SessionFatal::MtuTooSmall);
            return Err(SessionFatal::MtuTooSmall);
        }
        self.max_packet_len = mtu;
        Ok(())
    }
}

} // verus!
