//! The wire format: big-endian integers, LEB128 variable-length integers,
//! packet headers and fragments.
use vstd::prelude::*;

use crate::ack::Acknowledge;
use crate::error::RecvError;
use crate::frag::{copy_bytes, FragmentHeader, FragmentMarker};
use crate::seq::{PacketSeq, SeqNo};

verus! {

/// Bytes of a packet header: `packet_seq`, `ack_last_recv`, `ack_bits`.
pub const HEADER_LEN: usize = 8;

/// Header that starts every packet.
#[derive(Clone, Copy, Debug, PartialEq, Eq, Structural)]
pub struct PacketHeader {
    /// Sequence number of this packet.
    pub seq: PacketSeq,
    /// Which of the peer's packets the sender has received.
    pub acks: Acknowledge,
}

/// `v` as two big-endian bytes.
pub open spec fn be16(v: u16) -> Seq<u8> {
    seq![(v / 256) as u8, (v % 256) as u8]
}

/// `v` as four big-endian bytes.
pub open spec fn be32(v: u32) -> Seq<u8> {
    seq![(v / 16777216) as u8, ((v / 65536) % 256) as u8, ((v / 256) % 256) as u8, (v % 256) as u8]
}

/// LEB128: seven bits per byte, least significant group first, the top bit
/// set on every byte but the last.
pub open spec fn varint(v: u64) -> Seq<u8>
    decreases v,
{
    if v < 128 {
        seq![v as u8]
    } else {
        seq![((v % 128) + 128) as u8] + varint(v / 128)
    }
}

/// The bytes of a packet header.
pub open spec fn header_bytes(h: PacketHeader) -> Seq<u8> {
    be16(h.seq.0) + be16(h.acks.last_recv.0) + be32(h.acks.ack_bits)
}

/// The bytes of one fragment on lane `lane`.
pub open spec fn fragment_bytes(lane: u64, h: FragmentHeader, payload: Seq<u8>) -> Seq<u8> {
    varint(lane) + be16(h.msg_seq.0) + seq![h.marker.0] + varint(payload.len() as u64) + payload
}

/// `p` is a prefix of `s`.
pub open spec fn is_prefix_of(p: Seq<u8>, s: Seq<u8>) -> bool {
    p.len() <= s.len() && s.subrange(0, p.len() as int) == p
}

/// Appends `v` as two big-endian bytes.
pub fn write_u16(out: &mut Vec<u8>, v: u16)
    ensures
        final(out)@ == old(out)@ + be16(v),
{
    out.push((v / 256) as u8);
    out.push((v % 256) as u8);
    assert(out@ =~= old(out)@ + be16(v));
}

/// Appends `v` as four big-endian bytes.
pub fn write_u32(out: &mut Vec<u8>, v: u32)
    ensures
        final(out)@ == old(out)@ + be32(v),
{
    out.push((v / 16777216) as u8);
    out.push(((v / 65536) % 256) as u8);
    out.push(((v / 256) % 256) as u8);
    out.push((v % 256) as u8);
    assert(out@ =~= old(out)@ + be32(v));
}

/// Number of bytes of `varint(v)`.
pub fn varint_len(v: u64) -> (r: usize)
    ensures
        r == varint(v).len(),
        1 <= r <= 10,
    decreases v,
{
    if v < 128 {
        1
    } else {
        proof {
            lemma_varint_len(v);
        }
        1 + varint_len(v / 128)
    }
}

/// A varint takes between 1 and 10 bytes; one below 128, at most two below
/// 16384.
pub proof fn lemma_varint_len(v: u64)
    ensures
        1 <= varint(v).len() <= 10,
        v < 128 ==> varint(v).len() == 1,
        v < 16384 ==> varint(v).len() <= 2,
{
    reveal_with_fuel(pow128, 11);
    assert(pow128(10) == 1180591620717411303424);
    lemma_varint_len_steps(v, 10);
    if v < 16384 {
        assert(pow128(2) == 16384);
        lemma_varint_len_steps(v, 2);
    }
    lemma_varint_nonempty(v);
}

/// A larger value never has a shorter varint.
pub proof fn lemma_varint_len_monotonic(a: u64, b: u64)
    requires
        a <= b,
    ensures
        varint(a).len() <= varint(b).len(),
    decreases b,
{
    lemma_varint_nonempty(a);
    lemma_varint_nonempty(b);
    if a >= 128 {
        lemma_varint_len_monotonic(a / 128, b / 128);
    }
}

proof fn lemma_varint_nonempty(v: u64)
    ensures
        varint(v).len() >= 1,
        v < 128 ==> varint(v).len() == 1,
    decreases v,
{
    if v >= 128 {
        lemma_varint_nonempty(v / 128);
    }
}

proof fn lemma_varint_len_steps(v: u64, k: nat)
    requires
        k >= 1,
        (v as int) < pow128(k),
    ensures
        varint(v).len() <= k,
    decreases k,
{
    if v >= 128 {
        if k == 1 {
            assert(pow128(1) == 128) by {
                reveal_with_fuel(pow128, 2);
            }
        }
        assert(k >= 2);
        assert(pow128(k) == 128 * pow128((k - 1) as nat));
        assert(((v / 128) as int) < pow128((k - 1) as nat));
        lemma_varint_len_steps(v / 128, (k - 1) as nat);
    }
}

spec fn pow128(k: nat) -> int
    decreases k,
{
    if k == 0 {
        1
    } else {
        128 * pow128((k - 1) as nat)
    }
}

/// Appends `varint(v)`.
pub fn write_varint(out: &mut Vec<u8>, v: u64)
    ensures
        final(out)@ == old(out)@ + varint(v),
    decreases v,
{
    if v < 128 {
        out.push(v as u8);
        assert(out@ =~= old(out)@ + varint(v));
    } else {
        out.push(((v % 128) + 128) as u8);
        write_varint(out, v / 128);
        assert(out@ =~= old(out)@ + varint(v));
    }
}

/// Appends the bytes of a packet header.
pub fn write_header(out: &mut Vec<u8>, h: PacketHeader)
    ensures
        final(out)@ == old(out)@ + header_bytes(h),
{
    write_u16(out, h.seq.0);
    write_u16(out, h.acks.last_recv.0);
    write_u32(out, h.acks.ack_bits);
    assert(out@ =~= old(out)@ + header_bytes(h));
}

/// Appends the bytes of a fragment on lane `lane`.
pub fn write_fragment(out: &mut Vec<u8>, lane: u64, h: FragmentHeader, payload: &[u8])
    ensures
        final(out)@ == old(out)@ + fragment_bytes(lane, h, payload@),
{
    write_varint(out, lane);
    write_u16(out, h.msg_seq.0);
    out.push(h.marker.0);
    write_varint(out, payload.len() as u64);
    let mut i: usize = 0;
    let ghost before = out@;
    while i < payload.len()
        invariant
            i <= payload@.len(),
            out@ == before + payload@.subrange(0, i as int),
        decreases payload@.len() - i,
    {
        out.push(payload[i]);
        i = i + 1;
        assert(out@ =~= before + payload@.subrange(0, i as int));
    }
    assert(payload@.subrange(0, i as int) =~= payload@);
    assert(out@ =~= old(out)@ + fragment_bytes(lane, h, payload@));
}

/// Reads two big-endian bytes at `pos`; fails only when fewer remain.
pub fn read_u16(buf: &[u8], pos: usize) -> (r: Result<u16, RecvError>)
    requires
        pos <= buf@.len(),
    ensures
        pos + 2 <= buf@.len() <==> r is Ok,
        r is Err ==> r == Err::<u16, RecvError>(RecvError::ShortRead),
        r matches Ok(v) ==> buf@.subrange(pos as int, pos + 2) == be16(v),
{
    if buf.len() - pos < 2 {
        return Err(RecvError::ShortRead);
    }
    let hi = buf[pos] as u16;
    let lo = buf[pos + 1] as u16;
    let v: u16 = hi * 256 + lo;
    assert(buf@.subrange(pos as int, pos + 2) =~= be16(v));
    Ok(v)
}

/// Reads four big-endian bytes at `pos`; fails only when fewer remain.
pub fn read_u32(buf: &[u8], pos: usize) -> (r: Result<u32, RecvError>)
    requires
        pos <= buf@.len(),
    ensures
        pos + 4 <= buf@.len() <==> r is Ok,
        r is Err ==> r == Err::<u32, RecvError>(RecvError::ShortRead),
        r matches Ok(v) ==> buf@.subrange(pos as int, pos + 4) == be32(v),
{
    if buf.len() - pos < 4 {
        return Err(RecvError::ShortRead);
    }
    let b0 = buf[pos] as u32;
    let b1 = buf[pos + 1] as u32;
    let b2 = buf[pos + 2] as u32;
    let b3 = buf[pos + 3] as u32;
    let v: u32 = b0 * 16777216 + b1 * 65536 + b2 * 256 + b3;
    assert(v / 16777216 == b0 && (v / 65536) % 256 == b1 && (v / 256) % 256 == b2 && v % 256 == b3)
        by (bit_vector)
        requires
            b0 < 256 && b1 < 256 && b2 < 256 && b3 < 256,
            v == b0 * 16777216 + b1 * 65536 + b2 * 256 + b3,
    ;
    assert(buf@.subrange(pos as int, pos + 4) =~= be32(v));
    Ok(v)
}

/// Two varints that are both prefixes of one byte string are equal.
pub proof fn lemma_varint_unique(a: u64, b: u64, s: Seq<u8>)
    requires
        is_prefix_of(varint(a), s),
        is_prefix_of(varint(b), s),
    ensures
        a == b,
    decreases a,
{
    lemma_varint_nonempty(a);
    lemma_varint_nonempty(b);
    assert(s[0] == varint(a)[0]);
    assert(s[0] == varint(b)[0]);
    if a >= 128 && b >= 128 {
        let t = s.subrange(1, s.len() as int);
        lemma_varint_nonempty(a / 128);
        assert(varint(a).subrange(1, varint(a).len() as int) =~= varint(a / 128));
        assert(varint(b).subrange(1, varint(b).len() as int) =~= varint(b / 128));
        assert(t.subrange(0, varint(a / 128).len() as int) =~= varint(a / 128));
        assert(t.subrange(0, varint(b / 128).len() as int) =~= varint(b / 128));
        lemma_varint_unique(a / 128, b / 128, t);
    }
}

/// Reads a varint at `pos`: succeeds exactly when the bytes there start
/// with the encoding of some `u64`, which is then returned with the position
/// after it. A varint that runs past the end is a short read; one that is
/// too large, or padded with a zero group, is bad.
pub fn read_varint(buf: &[u8], pos: usize) -> (r: Result<(u64, usize), RecvError>)
    requires
        pos <= buf@.len(),
    ensures
        r matches Ok((v, end)) ==> end == pos + varint(v).len() && end <= buf@.len()
            && buf@.subrange(pos as int, end as int) == varint(v),
        (exists|w: u64| is_prefix_of(varint(w), buf@.subrange(pos as int, buf@.len() as int)))
            ==> r is Ok,
        r is Err ==> (r == Err::<(u64, usize), RecvError>(RecvError::ShortRead) || r == Err::<
            (u64, usize),
            RecvError,
        >(RecvError::BadVarint)),
    decreases buf@.len() - pos,
{
    let ghost rest_bytes = buf@.subrange(pos as int, buf@.len() as int);
    if pos >= buf.len() {
        proof {
            if exists|w: u64| is_prefix_of(varint(w), rest_bytes) {
                let w = choose|w: u64| is_prefix_of(varint(w), rest_bytes);
                lemma_varint_nonempty(w);
            }
        }
        return Err(RecvError::ShortRead);
    }
    let b = buf[pos];
    if b < 128 {
        assert(buf@.subrange(pos as int, pos + 1) =~= varint(b as u64));
        return Ok((b as u64, pos + 1));
    }
    let low = (b - 128) as u64;
    let inner = read_varint(buf, pos + 1);
    proof {
        if exists|w: u64| is_prefix_of(varint(w), rest_bytes) {
            let w = choose|w: u64| is_prefix_of(varint(w), rest_bytes);
            lemma_varint_nonempty(w);
            assert(rest_bytes[0] == b);
            assert(rest_bytes.subrange(0, varint(w).len() as int)[0] == rest_bytes[0]);
            assert(varint(w)[0] == b);
            if w < 128 {
                assert(varint(w)[0] == w as u8);
            }
            assert(w >= 128);
            lemma_varint_nonempty(w / 128);
            let t = buf@.subrange(pos + 1, buf@.len() as int);
            assert(varint(w).subrange(1, varint(w).len() as int) =~= varint(w / 128));
            assert(t.subrange(0, varint(w / 128).len() as int) =~= varint(w / 128));
            assert(is_prefix_of(varint(w / 128), t));
        }
    }
    match inner {
        Err(e) => Err(e),
        Ok((rest, end)) => {
            if rest == 0 || rest > (u64::MAX - low) / 128 {
                proof {
                    if exists|w: u64| is_prefix_of(varint(w), rest_bytes) {
                        let w = choose|w: u64| is_prefix_of(varint(w), rest_bytes);
                        lemma_varint_nonempty(w);
                        lemma_varint_nonempty(w / 128);
                        let t = buf@.subrange(pos + 1, buf@.len() as int);
                        assert(varint(w).subrange(1, varint(w).len() as int) =~= varint(w / 128));
                        assert(t.subrange(0, varint(w / 128).len() as int) =~= varint(w / 128));
                        assert(t.subrange(0, varint(rest).len() as int) =~= varint(rest));
                        lemma_varint_unique(rest, w / 128, t);
                        assert(w % 128 == low);
                        assert(rest * 128 + low == w);
                        assert(rest <= (u64::MAX - low) / 128) by (nonlinear_arith)
                            requires rest * 128 + low == w, w <= u64::MAX, low < 128;
                    }
                }
                Err(RecvError::BadVarint)
            } else {
                proof {
                    assert(rest * 128 + low <= u64::MAX) by (nonlinear_arith)
                        requires rest <= (u64::MAX - low) / 128, low < 128;
                }
                let v = rest * 128 + low;
                assert(v % 128 == low && v / 128 == rest) by (nonlinear_arith)
                    requires v == rest * 128 + low, low < 128;
                assert(buf@.subrange(pos as int, end as int) =~= seq![b] + buf@.subrange(
                    pos + 1,
                    end as int,
                ));
                assert(buf@.subrange(pos as int, end as int) =~= varint(v));
                Ok((v, end))
            }
        },
    }
}

/// Reads the packet header at the start of `buf`: fails only when fewer
/// than 8 bytes are there.
pub fn read_header(buf: &[u8]) -> (r: Result<PacketHeader, RecvError>)
    ensures
        buf@.len() >= 8 <==> r is Ok,
        r is Err ==> r == Err::<PacketHeader, RecvError>(RecvError::ShortRead),
        r matches Ok(h) ==> buf@.subrange(0, 8) == header_bytes(h),
{
    if buf.len() < 8 {
        return Err(RecvError::ShortRead);
    }
    let seq = read_u16(buf, 0).unwrap();
    let last_recv = read_u16(buf, 2).unwrap();
    let ack_bits = read_u32(buf, 4).unwrap();
    let h = PacketHeader { seq: SeqNo(seq), acks: Acknowledge { last_recv: SeqNo(last_recv), ack_bits } };
    assert(buf@.subrange(0, 8) =~= buf@.subrange(0, 2) + buf@.subrange(2, 4) + buf@.subrange(4, 8));
    Ok(h)
}

/// Where the parts of an encoded fragment lie in `buf`, when one starts at
/// `pos`.
proof fn lemma_fragment_layout(l: u64, h: FragmentHeader, p: Seq<u8>, buf: Seq<u8>, pos: int)
    requires
        0 <= pos <= buf.len(),
        is_prefix_of(fragment_bytes(l, h, p), rest(buf, pos)),
    ensures
        is_prefix_of(varint(l), rest(buf, pos)),
        pos + varint(l).len() + 3 + varint(p.len() as u64).len() + p.len() <= buf.len(),
        is_prefix_of(varint(p.len() as u64), rest(buf, pos + varint(l).len() + 3)),
{
    let f = fragment_bytes(l, h, p);
    let a = varint(l).len() as int;
    let c = varint(p.len() as u64).len() as int;
    let s = rest(buf, pos);
    assert(s.subrange(0, f.len() as int) == f);
    assert(f.subrange(0, a) =~= varint(l));
    assert(s.subrange(0, a) =~= f.subrange(0, a));
    assert(f.subrange(a + 3, a + 3 + c) =~= varint(p.len() as u64));
    assert(rest(buf, pos + a + 3).subrange(0, c) =~= f.subrange(a + 3, a + 3 + c));
}

/// The bytes of `s` from `pos`.
pub open spec fn rest(s: Seq<u8>, pos: int) -> Seq<u8> {
    s.subrange(pos, s.len() as int)
}

/// Reads a fragment at `pos`: its lane, header and payload, and the
/// position after it. Succeeds exactly when the bytes there start with the
/// encoding of some fragment.
pub fn read_fragment(buf: &[u8], pos: usize) -> (r: Result<(u64, FragmentHeader, Vec<u8>, usize), RecvError>)
    requires
        pos <= buf@.len(),
    ensures
        r matches Ok((lane, h, p, end)) ==> pos < end <= buf@.len() && buf@.subrange(pos as int, end as int)
            == fragment_bytes(lane, h, p@),
        (exists|lane: u64, h: FragmentHeader, p: Seq<u8>|
            is_prefix_of(#[trigger] fragment_bytes(lane, h, p), rest(buf@, pos as int))) ==> r is Ok,
        r is Err ==> (r == Err::<(u64, FragmentHeader, Vec<u8>, usize), RecvError>(RecvError::ShortRead)
            || r == Err::<(u64, FragmentHeader, Vec<u8>, usize), RecvError>(RecvError::BadVarint)),
{
    let ghost owed = exists|lane: u64, h: FragmentHeader, p: Seq<u8>|
        is_prefix_of(#[trigger] fragment_bytes(lane, h, p), rest(buf@, pos as int));
    let ghost mut wl: u64 = 0;
    let ghost mut wp: Seq<u8> = Seq::empty();
    proof {
        if owed {
            let (lane0, head0, bytes0) = choose|lane: u64, h: FragmentHeader, p: Seq<u8>|
                is_prefix_of(#[trigger] fragment_bytes(lane, h, p), rest(buf@, pos as int));
            wl = lane0;
            wp = bytes0;
            lemma_fragment_layout(lane0, head0, bytes0, buf@, pos as int);
        }
    }
    let (lane, at_seq) = match read_varint(buf, pos) {
        Ok(x) => x,
        Err(e) => {
            return Err(e);
        },
    };
    proof {
        if owed {
            let s = rest(buf@, pos as int);
            assert(s.subrange(0, varint(lane).len() as int) =~= varint(lane));
            lemma_varint_unique(lane, wl, s);
        }
    }
    if buf.len() - at_seq < 3 {
        return Err(RecvError::ShortRead);
    }
    let msg_seq = read_u16(buf, at_seq).unwrap();
    let m = buf[at_seq + 2];
    let at_len = at_seq + 3;
    let (len, at_payload) = match read_varint(buf, at_len) {
        Ok(x) => x,
        Err(e) => {
            return Err(e);
        },
    };
    proof {
        if owed {
            let s = rest(buf@, at_len as int);
            assert(s.subrange(0, varint(len).len() as int) =~= varint(len));
            lemma_varint_unique(len, wp.len() as u64, s);
        }
    }
    if len > (buf.len() - at_payload) as u64 {
        return Err(RecvError::ShortRead);
    }
    let end = at_payload + len as usize;
    let payload = copy_bytes(buf, at_payload, end);
    let h = FragmentHeader { msg_seq: SeqNo(msg_seq), marker: FragmentMarker(m) };
    proof {
        assert(buf@.subrange(pos as int, end as int) =~= buf@.subrange(pos as int, at_seq as int)
            + buf@.subrange(at_seq as int, at_seq + 2) + seq![m] + buf@.subrange(at_len as int, at_payload as int)
            + buf@.subrange(at_payload as int, end as int));
        assert(payload@.len() == len);
    }
    Ok((lane, h, payload, end))
}

impl Acknowledge {
    /// Bytes of an encoded acknowledgement window.
    pub const ENCODE_LEN: usize = 6;

    /// Appends `last_recv` and `ack_bits`, big-endian.
    pub fn encode(&self, out: &mut Vec<u8>)
        ensures
            final(out)@ == old(out)@ + be16(self.last_recv.0) + be32(self.ack_bits),
    {
        write_u16(out, self.last_recv.0);
        write_u32(out, self.ack_bits);
    }

    /// Reads an acknowledgement window at `pos`; fails only when fewer than
    /// 6 bytes remain.
    pub fn decode(buf: &[u8], pos: usize) -> (r: Result<Acknowledge, RecvError>)
        requires
            pos <= buf@.len(),
        ensures
            pos + 6 <= buf@.len() <==> r is Ok,
            r is Err ==> r == Err::<Acknowledge, RecvError>(RecvError::ShortRead),
            r matches Ok(a) ==> buf@.subrange(pos as int, pos + 6) == be16(a.last_recv.0) + be32(
                a.ack_bits,
            ),
    {
        if buf.len() - pos < 6 {
            return Err(RecvError::ShortRead);
        }
        let last_recv = read_u16(buf, pos).unwrap();
        let ack_bits = read_u32(buf, pos + 2).unwrap();
        assert(buf@.subrange(pos as int, pos + 6) =~= buf@.subrange(pos as int, pos + 2) + buf@.subrange(
            pos + 2,
            pos + 6,
        ));
        Ok(Acknowledge { last_recv: SeqNo(last_recv), ack_bits })
    }
}

impl FragmentHeader {
    /// Bytes of an encoded fragment header.
    pub const ENCODE_LEN: usize = 3;

    /// Appends the message sequence, big-endian, and the marker byte.
    pub fn encode(&self, out: &mut Vec<u8>)
        ensures
            final(out)@ == old(out)@ + be16(self.msg_seq.0) + seq![self.marker.0],
    {
        write_u16(out, self.msg_seq.0);
        out.push(self.marker.0);
    }

    /// Reads a fragment header at `pos`; fails only when fewer than 3 bytes
    /// remain.
    pub fn decode(buf: &[u8], pos: usize) -> (r: Result<FragmentHeader, RecvError>)
        requires
            pos <= buf@.len(),
        ensures
            pos + 3 <= buf@.len() <==> r is Ok,
            r is Err ==> r == Err::<FragmentHeader, RecvError>(RecvError::ShortRead),
            r matches Ok(h) ==> buf@.subrange(pos as int, pos + 3) == be16(h.msg_seq.0) + seq![
                h.marker.0,
            ],
    {
        if buf.len() - pos < 3 {
            return Err(RecvError::ShortRead);
        }
        let msg_seq = read_u16(buf, pos).unwrap();
        let marker = buf[pos + 2];
        assert(buf@.subrange(pos as int, pos + 3) =~= buf@.subrange(pos as int, pos + 2) + seq![marker]);
        Ok(FragmentHeader { msg_seq: SeqNo(msg_seq), marker: FragmentMarker(marker) })
    }
}

impl PacketHeader {
    /// Bytes of an encoded packet header.
    pub const ENCODE_LEN: usize = 8;

    /// Appends the bytes of this header.
    pub fn encode(&self, out: &mut Vec<u8>)
        ensures
            final(out)@ == old(out)@ + header_bytes(*self),
    {
        write_header(out, *self);
    }

    /// Reads a packet header from the start of `buf`.
    pub fn decode(buf: &[u8]) -> (r: Result<PacketHeader, RecvError>)
        ensures
            buf@.len() >= 8 <==> r is Ok,
            r is Err ==> r == Err::<PacketHeader, RecvError>(RecvError::ShortRead),
            r matches Ok(h) ==> buf@.subrange(0, 8) == header_bytes(h),
    {
        read_header(buf)
    }
}

impl crate::frag::Fragment {
    /// Bytes of this fragment encoded without its lane: header, payload
    /// length and payload.
    pub fn encode_len(&self) -> (r: usize)
        requires
            self.payload@.len() <= usize::MAX - 16,
        ensures
            r == 3 + varint(self.payload@.len() as u64).len() + self.payload@.len(),
    {
        3 + varint_len(self.payload.len() as u64) + self.payload.len()
    }

    /// Appends this fragment without its lane: header, payload length and
    /// payload.
    pub fn encode(&self, out: &mut Vec<u8>)
        ensures
            final(out)@ == old(out)@ + be16(self.header.msg_seq.0) + seq![self.header.marker.0]
                + varint(self.payload@.len() as u64) + self.payload@,
    {
        self.header.encode(out);
        write_varint(out, self.payload.len() as u64);
        let ghost before = out@;
        let mut i: usize = 0;
        while i < self.payload.len()
            invariant
                i <= self.payload@.len(),
                out@ == before + self.payload@.subrange(0, i as int),
            decreases self.payload@.len() - i,
        {
            out.push(self.payload[i]);
            i = i + 1;
            assert(out@ =~= before + self.payload@.subrange(0, i as int));
        }
        assert(self.payload@.subrange(0, i as int) =~= self.payload@);
        assert(out@ =~= old(out)@ + be16(self.header.msg_seq.0) + seq![self.header.marker.0] + varint(
            self.payload@.len() as u64,
        ) + self.payload@);
    }
}

/// The bytes of the fragments `ds`, each a lane, a header and a payload,
/// one after another.
pub open spec fn wire_bytes(ds: Seq<(u64, FragmentHeader, Seq<u8>)>) -> Seq<u8>
    decreases ds.len(),
{
    if ds.len() == 0 {
        Seq::empty()
    } else {
        wire_bytes(ds.drop_last()) + fragment_bytes(ds.last().0, ds.last().1, ds.last().2)
    }
}

/// The fragments of `v`, with payloads as bytes.
pub open spec fn wire_view(v: Seq<(u64, FragmentHeader, Vec<u8>)>) -> Seq<(u64, FragmentHeader, Seq<u8>)> {
    v.map_values(|x: (u64, FragmentHeader, Vec<u8>)| (x.0, x.1, x.2@))
}

/// `ds` is how `body` reads as a run of fragments: their encodings start
/// it; when `whole`, they fill it, and otherwise the bytes after them start
/// with no fragment.
pub open spec fn reads_as(body: Seq<u8>, ds: Seq<(u64, FragmentHeader, Seq<u8>)>, whole: bool) -> bool {
    let n = wire_bytes(ds).len();
    &&& is_prefix_of(wire_bytes(ds), body)
    &&& whole ==> n == body.len()
    &&& !whole ==> n < body.len() && !(exists|lane: u64, h: FragmentHeader, p: Seq<u8>|
        is_prefix_of(#[trigger] fragment_bytes(lane, h, p), rest(body, n as int)))
}

/// Reads fragments from `start` to the end of `buf`, stopping at the first
/// bytes that do not start with a fragment, with the error met there.
pub fn read_fragments(buf: &[u8], start: usize) -> (r: (Vec<(u64, FragmentHeader, Vec<u8>)>, Option<RecvError>))
    requires
        start <= buf@.len(),
    ensures
        reads_as(rest(buf@, start as int), wire_view(r.0@), r.1 is None),
        r.1 matches Some(e) ==> e == RecvError::ShortRead || e == RecvError::BadVarint,
{
    let mut out: Vec<(u64, FragmentHeader, Vec<u8>)> = Vec::new();
    let mut pos = start;
    while pos < buf.len()
        invariant
            start <= pos <= buf@.len(),
            wire_bytes(wire_view(out@)) == buf@.subrange(start as int, pos as int),
        decreases buf@.len() - pos,
    {
        match read_fragment(buf, pos) {
            Ok((lane, h, payload, end)) => {
                let ghost prev = out@;
                out.push((lane, h, payload));
                proof {
                    assert(wire_view(out@).drop_last() =~= wire_view(prev));
                    assert(buf@.subrange(start as int, end as int) =~= buf@.subrange(start as int, pos as int)
                        + buf@.subrange(pos as int, end as int));
                }
                pos = end;
            },
            Err(e) => {
                proof {
                    let body = rest(buf@, start as int);
                    assert(body.subrange(0, (pos - start) as int) =~= buf@.subrange(start as int, pos as int));
                    assert(rest(body, (pos - start) as int) =~= rest(buf@, pos as int));
                }
                return (out, Some(e));
            },
        }
    }
    proof {
        let body = rest(buf@, start as int);
        assert(body.subrange(0, (pos - start) as int) =~= buf@.subrange(start as int, pos as int));
    }
    (out, None)
}

} // verus!
