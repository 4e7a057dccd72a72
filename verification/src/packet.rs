//! Wire codec for the five datagram kinds.
//!
//! Every packet is a one-byte type tag followed by big-endian fields.
//! `serialize` and `deserialize` are exact inverses on well-formed
//! packets; `deserialize` returns `None` on any length or tag error.

use vstd::prelude::*;

verus! {

/// Tag byte that opens a Ping datagram.
pub const TAG_PING: u8 = 0x01;

/// Tag byte that opens a Pong datagram.
pub const TAG_PONG: u8 = 0x02;

/// Tag byte that opens a forward-error-correction parity datagram.
pub const TAG_FEC: u8 = 0x03;

/// Tag byte that opens a negative-acknowledgement datagram.
pub const TAG_NACK: u8 = 0x04;

/// Tag byte that opens a media fragment datagram.
pub const TAG_RTP: u8 = 0x11;

/// Big-endian bytes of a `u64`, most significant first.
pub open spec fn be64(x: u64) -> Seq<u8> {
    seq![
        (x >> 56) as u8,
        (x >> 48) as u8,
        (x >> 40) as u8,
        (x >> 32) as u8,
        (x >> 24) as u8,
        (x >> 16) as u8,
        (x >> 8) as u8,
        x as u8,
    ]
}

/// Big-endian bytes of a `u16`, most significant first.
pub open spec fn be16(x: u16) -> Seq<u8> {
    seq![(x >> 8) as u8, x as u8]
}

/// The `u64` read back from eight big-endian bytes.
pub open spec fn combine64(s: Seq<u8>) -> u64
    recommends
        s.len() == 8,
{
    (((s[0] as u64) << 56) | ((s[1] as u64) << 48) | ((s[2] as u64) << 40) | ((s[3] as u64) << 32)
        | ((s[4] as u64) << 24) | ((s[5] as u64) << 16) | ((s[6] as u64) << 8) | (s[7] as u64))
}

/// The `u16` read back from two big-endian bytes.
pub open spec fn combine16(s: Seq<u8>) -> u16
    recommends
        s.len() == 2,
{
    (((s[0] as u16) << 8) | (s[1] as u16))
}

/// Reading the eight big-endian bytes of a `u64` gives the value back.
pub proof fn lemma_be64_combine(x: u64)
    ensures
        combine64(be64(x)) == x,
{
    let s = be64(x);
    assert(((((x >> 56) as u8) as u64) << 56) | ((((x >> 48) as u8) as u64) << 48) | ((((x
        >> 40) as u8) as u64) << 40) | ((((x >> 32) as u8) as u64) << 32) | ((((x
        >> 24) as u8) as u64) << 24) | ((((x >> 16) as u8) as u64) << 16) | ((((x
        >> 8) as u8) as u64) << 8) | ((x as u8) as u64) == x) by (bit_vector);
}

/// Reading the two big-endian bytes of a `u16` gives the value back.
pub proof fn lemma_be16_combine(x: u16)
    ensures
        combine16(be16(x)) == x,
{
    assert(((((x >> 8) as u8) as u16) << 8) | ((x as u8) as u16) == x) by (bit_vector);
}

/// Append the eight big-endian bytes of `x` to `buf`.
fn push_u64_be(buf: &mut Vec<u8>, x: u64)
    ensures
        final(buf)@ == old(buf)@ + be64(x),
{
    buf.push((x >> 56) as u8);
    buf.push((x >> 48) as u8);
    buf.push((x >> 40) as u8);
    buf.push((x >> 32) as u8);
    buf.push((x >> 24) as u8);
    buf.push((x >> 16) as u8);
    buf.push((x >> 8) as u8);
    buf.push(x as u8);
    assert(buf@ =~= old(buf)@ + be64(x));
}

/// Append the two big-endian bytes of `x` to `buf`.
fn push_u16_be(buf: &mut Vec<u8>, x: u16)
    ensures
        final(buf)@ == old(buf)@ + be16(x),
{
    buf.push((x >> 8) as u8);
    buf.push(x as u8);
    assert(buf@ =~= old(buf)@ + be16(x));
}

/// Read the big-endian `u64` that starts at `i`.
fn read_u64_be(buf: &[u8], i: usize) -> (r: u64)
    requires
        i + 8 <= buf@.len(),
    ensures
        r == combine64(buf@.subrange(i as int, i + 8)),
{
    let r = (((buf[i] as u64) << 56) | ((buf[i + 1] as u64) << 48) | ((buf[i + 2] as u64) << 40)
        | ((buf[i + 3] as u64) << 32) | ((buf[i + 4] as u64) << 24) | ((buf[i + 5] as u64) << 16)
        | ((buf[i + 6] as u64) << 8) | (buf[i + 7] as u64));
    assert(buf@.subrange(i as int, i + 8)[0] == buf@[i as int]);
    r
}

/// Read the big-endian `u16` that starts at `i`.
fn read_u16_be(buf: &[u8], i: usize) -> (r: u16)
    requires
        i + 2 <= buf@.len(),
    ensures
        r == combine16(buf@.subrange(i as int, i + 2)),
{
    let r = (((buf[i] as u16) << 8) | (buf[i + 1] as u16));
    assert(buf@.subrange(i as int, i + 2)[0] == buf@[i as int]);
    r
}

/// Liveness probe carrying the sender's wall-clock milliseconds.
#[derive(Debug, Clone)]
pub struct PingBody {
    pub timestamp: u64,
    pub data: Vec<u8>,
}

/// Echo of a received Ping's timestamp, verbatim.
#[derive(Debug, Clone)]
pub struct PongBody {
    pub timestamp: u64,
    pub data: Vec<u8>,
}

/// Receiver-to-sender gap report.
#[derive(Debug, Clone)]
pub struct NackBody {
    pub missing_sequences: Vec<u64>,
}

/// Description of one packet covered by a parity packet; `data_length`
/// is the original payload length, so truncation on recovery is exact.
#[derive(Debug, Clone, Copy, PartialEq, Eq, Structural)]
pub struct ProtectedPacketMeta {
    pub sequence_number: u64,
    pub timestamp: u64,
    pub frame_id: u64,
    pub fragment_number: u16,
    pub total_fragments: u16,
    pub data_length: u16,
}

/// One XOR parity packet over a group of media fragments.
#[derive(Debug, Clone)]
pub struct FecBody {
    pub timestamp: u64,
    pub protected_packets: Vec<ProtectedPacketMeta>,
    pub fec_data: Vec<u8>,
}

/// One fragment of one application message.
#[derive(Debug, Clone)]
pub struct RtpBody {
    pub timestamp: u64,
    pub sequence_number: u64,
    pub frame_id: u64,
    pub fragment_number: u16,
    pub total_fragments: u16,
    pub data: Vec<u8>,
}

/// Tagged union of the five datagram kinds.
#[derive(Debug, Clone)]
pub enum Packet {
    Ping(PingBody),
    Pong(PongBody),
    Nack(NackBody),
    Fec(FecBody),
    Rtp(RtpBody),
}

/// Mathematical image of a Ping or Pong body.
pub struct ProbeView {
    pub timestamp: u64,
    pub data: Seq<u8>,
}

/// Mathematical image of a gap report.
pub struct NackView {
    pub missing_sequences: Seq<u64>,
}

/// Mathematical image of a parity packet.
pub struct FecView {
    pub timestamp: u64,
    pub protected_packets: Seq<ProtectedPacketMeta>,
    pub fec_data: Seq<u8>,
}

/// Mathematical image of a media fragment.
pub struct RtpView {
    pub timestamp: u64,
    pub sequence_number: u64,
    pub frame_id: u64,
    pub fragment_number: u16,
    pub total_fragments: u16,
    pub data: Seq<u8>,
}

/// Mathematical image of a packet.
pub enum PacketView {
    Ping(ProbeView),
    Pong(ProbeView),
    Nack(NackView),
    Fec(FecView),
    Rtp(RtpView),
}

impl View for PingBody {
    type V = ProbeView;

    open spec fn view(&self) -> ProbeView {
        ProbeView { timestamp: self.timestamp, data: self.data@ }
    }
}

impl View for PongBody {
    type V = ProbeView;

    open spec fn view(&self) -> ProbeView {
        ProbeView { timestamp: self.timestamp, data: self.data@ }
    }
}

impl View for NackBody {
    type V = NackView;

    open spec fn view(&self) -> NackView {
        NackView { missing_sequences: self.missing_sequences@ }
    }
}

impl View for FecBody {
    type V = FecView;

    open spec fn view(&self) -> FecView {
        FecView {
            timestamp: self.timestamp,
            protected_packets: self.protected_packets@,
            fec_data: self.fec_data@,
        }
    }
}

impl View for RtpBody {
    type V = RtpView;

    open spec fn view(&self) -> RtpView {
        RtpView {
            timestamp: self.timestamp,
            sequence_number: self.sequence_number,
            frame_id: self.frame_id,
            fragment_number: self.fragment_number,
            total_fragments: self.total_fragments,
            data: self.data@,
        }
    }
}

impl View for Packet {
    type V = PacketView;

    open spec fn view(&self) -> PacketView {
        match self {
            Packet::Ping(b) => PacketView::Ping(b@),
            Packet::Pong(b) => PacketView::Pong(b@),
            Packet::Nack(b) => PacketView::Nack(b@),
            Packet::Fec(b) => PacketView::Fec(b@),
            Packet::Rtp(b) => PacketView::Rtp(b@),
        }
    }
}

/// The thirty wire bytes of one protected-packet description.
pub open spec fn meta_bytes(m: ProtectedPacketMeta) -> Seq<u8> {
    be64(m.sequence_number) + be64(m.timestamp) + be64(m.frame_id) + be16(m.fragment_number)
        + be16(m.total_fragments) + be16(m.data_length)
}

/// The wire bytes of a list of protected-packet descriptions.
pub open spec fn metas_bytes(ms: Seq<ProtectedPacketMeta>) -> Seq<u8>
    decreases ms.len(),
{
    if ms.len() == 0 {
        Seq::empty()
    } else {
        metas_bytes(ms.drop_last()) + meta_bytes(ms.last())
    }
}

/// The wire bytes of a list of sequence numbers.
pub open spec fn seqs_bytes(ss: Seq<u64>) -> Seq<u8>
    decreases ss.len(),
{
    if ss.len() == 0 {
        Seq::empty()
    } else {
        seqs_bytes(ss.drop_last()) + be64(ss.last())
    }
}

/// A packet whose length fields fit their one-byte wire counters.
pub open spec fn wf_packet(p: PacketView) -> bool {
    match p {
        PacketView::Fec(f) => f.protected_packets.len() <= 255,
        PacketView::Nack(n) => n.missing_sequences.len() <= 255,
        _ => true,
    }
}

/// The exact wire bytes of a packet.
pub open spec fn spec_serialize(p: PacketView) -> Seq<u8> {
    match p {
        PacketView::Rtp(r) => seq![TAG_RTP] + be64(r.sequence_number) + be64(r.timestamp) + be64(
            r.frame_id,
        ) + be16(r.total_fragments) + be16(r.fragment_number) + r.data,
        PacketView::Fec(f) => seq![TAG_FEC] + be64(f.timestamp) + seq![
            f.protected_packets.len() as u8,
        ] + metas_bytes(f.protected_packets) + f.fec_data,
        PacketView::Nack(n) => seq![TAG_NACK] + seq![n.missing_sequences.len() as u8] + seqs_bytes(
            n.missing_sequences,
        ),
        PacketView::Ping(b) => seq![TAG_PING] + be64(b.timestamp) + b.data,
        PacketView::Pong(b) => seq![TAG_PONG] + be64(b.timestamp) + b.data,
    }
}

/// The protected-packet description read back from thirty wire bytes.
pub open spec fn parse_meta(t: Seq<u8>) -> ProtectedPacketMeta
    recommends
        t.len() == 30,
{
    ProtectedPacketMeta {
        sequence_number: combine64(t.subrange(0, 8)),
        timestamp: combine64(t.subrange(8, 16)),
        frame_id: combine64(t.subrange(16, 24)),
        fragment_number: combine16(t.subrange(24, 26)),
        total_fragments: combine16(t.subrange(26, 28)),
        data_length: combine16(t.subrange(28, 30)),
    }
}

/// The `n` protected-packet descriptions that start at byte 10.
pub open spec fn parse_metas(s: Seq<u8>, n: int) -> Seq<ProtectedPacketMeta>
    recommends
        10 + n * 30 <= s.len(),
{
    Seq::new(n as nat, |i: int| parse_meta(s.subrange(10 + i * 30, 10 + (i + 1) * 30)))
}

/// The `n` sequence numbers that start at byte 2.
pub open spec fn parse_seqs(s: Seq<u8>, n: int) -> Seq<u64>
    recommends
        2 + n * 8 <= s.len(),
{
    Seq::new(n as nat, |i: int| combine64(s.subrange(2 + i * 8, 2 + (i + 1) * 8)))
}

/// The packet read back from a datagram, or nothing on a length or
/// tag error.
pub open spec fn spec_deserialize(s: Seq<u8>) -> Option<PacketView> {
    if s.len() == 0 {
        None
    } else if s[0] == TAG_RTP {
        if s.len() < 29 {
            None
        } else {
            Some(
                PacketView::Rtp(
                    RtpView {
                        sequence_number: combine64(s.subrange(1, 9)),
                        timestamp: combine64(s.subrange(9, 17)),
                        frame_id: combine64(s.subrange(17, 25)),
                        total_fragments: combine16(s.subrange(25, 27)),
                        fragment_number: combine16(s.subrange(27, 29)),
                        data: s.skip(29),
                    },
                ),
            )
        }
    } else if s[0] == TAG_FEC {
        if s.len() < 10 {
            None
        } else {
            let n = s[9] as int;
            if s.len() < 10 + n * 30 {
                None
            } else {
                Some(
                    PacketView::Fec(
                        FecView {
                            timestamp: combine64(s.subrange(1, 9)),
                            protected_packets: parse_metas(s, n),
                            fec_data: s.skip(10 + n * 30),
                        },
                    ),
                )
            }
        }
    } else if s[0] == TAG_NACK {
        if s.len() < 2 {
            None
        } else {
            let n = s[1] as int;
            if s.len() < 2 + n * 8 {
                None
            } else {
                Some(PacketView::Nack(NackView { missing_sequences: parse_seqs(s, n) }))
            }
        }
    } else if s[0] == TAG_PING || s[0] == TAG_PONG {
        if s.len() < 9 {
            None
        } else {
            let probe = ProbeView { timestamp: combine64(s.subrange(1, 9)), data: s.skip(9) };
            if s[0] == TAG_PING {
                Some(PacketView::Ping(probe))
            } else {
                Some(PacketView::Pong(probe))
            }
        }
    } else {
        None
    }
}

/// Append every byte of `src` to `buf`.
fn append_bytes(buf: &mut Vec<u8>, src: &Vec<u8>)
    ensures
        final(buf)@ == old(buf)@ + src@,
{
    let mut i: usize = 0;
    while i < src.len()
        invariant
            i <= src@.len(),
            buf@ == old(buf)@ + src@.take(i as int),
        decreases src@.len() - i,
    {
        buf.push(src[i]);
        assert(buf@ =~= old(buf)@ + src@.take(i + 1));
        i = i + 1;
    }
    assert(buf@ =~= old(buf)@ + src@);
}

/// The bytes of `src` from `from` (inclusive) to `to` (exclusive),
/// as a fresh vector.
pub(crate) fn copy_range(src: &[u8], from: usize, to: usize) -> (r: Vec<u8>)
    requires
        from <= to <= src@.len(),
    ensures
        r@ == src@.subrange(from as int, to as int),
{
    let mut r: Vec<u8> = Vec::new();
    let mut i: usize = from;
    while i < to
        invariant
            from <= i <= to <= src@.len(),
            r@ == src@.subrange(from as int, i as int),
        decreases to - i,
    {
        r.push(src[i]);
        assert(r@ =~= src@.subrange(from as int, i + 1));
        i = i + 1;
    }
    r
}

/// Extending a meta list by one element extends its wire bytes by
/// that element's thirty bytes.
proof fn lemma_metas_bytes_step(ms: Seq<ProtectedPacketMeta>, i: int)
    requires
        0 <= i < ms.len(),
    ensures
        metas_bytes(ms.take(i + 1)) == metas_bytes(ms.take(i)) + meta_bytes(ms[i]),
{
    assert(ms.take(i + 1).drop_last() =~= ms.take(i));
    assert(ms.take(i + 1).last() == ms[i]);
}

/// Extending a sequence-number list by one element extends its wire
/// bytes by that number's eight bytes.
proof fn lemma_seqs_bytes_step(ss: Seq<u64>, i: int)
    requires
        0 <= i < ss.len(),
    ensures
        seqs_bytes(ss.take(i + 1)) == seqs_bytes(ss.take(i)) + be64(ss[i]),
{
    assert(ss.take(i + 1).drop_last() =~= ss.take(i));
    assert(ss.take(i + 1).last() == ss[i]);
}

/// Stateless serializer for the wire format.
pub struct PacketSerializer;

impl PacketSerializer {
    /// The exact wire bytes of `packet`.
    pub fn serialize(packet: &Packet) -> (r: Vec<u8>)
        requires
            wf_packet(packet@),
        ensures
            r@ == spec_serialize(packet@),
    {
        let mut buffer: Vec<u8> = Vec::new();
        match packet {
            Packet::Rtp(body) => {
                buffer.push(TAG_RTP);
                push_u64_be(&mut buffer, body.sequence_number);
                push_u64_be(&mut buffer, body.timestamp);
                push_u64_be(&mut buffer, body.frame_id);
                push_u16_be(&mut buffer, body.total_fragments);
                push_u16_be(&mut buffer, body.fragment_number);
                append_bytes(&mut buffer, &body.data);
                assert(buffer@ =~= spec_serialize(packet@));
            },
            Packet::Fec(body) => {
                buffer.push(TAG_FEC);
                push_u64_be(&mut buffer, body.timestamp);
                buffer.push(body.protected_packets.len() as u8);
                let ghost prefix = buffer@;
                let mut i: usize = 0;
                while i < body.protected_packets.len()
                    invariant
                        i <= body.protected_packets@.len(),
                        buffer@ == prefix + metas_bytes(body.protected_packets@.take(i as int)),
                    decreases body.protected_packets@.len() - i,
                {
                    let meta = &body.protected_packets[i];
                    push_u64_be(&mut buffer, meta.sequence_number);
                    push_u64_be(&mut buffer, meta.timestamp);
                    push_u64_be(&mut buffer, meta.frame_id);
                    push_u16_be(&mut buffer, meta.fragment_number);
                    push_u16_be(&mut buffer, meta.total_fragments);
                    push_u16_be(&mut buffer, meta.data_length);
                    proof {
                        lemma_metas_bytes_step(body.protected_packets@, i as int);
                        assert(buffer@ =~= prefix + metas_bytes(
                            body.protected_packets@.take(i + 1),
                        ));
                    }
                    i = i + 1;
                }
                assert(body.protected_packets@.take(body.protected_packets@.len() as int)
                    =~= body.protected_packets@);
                append_bytes(&mut buffer, &body.fec_data);
                assert(buffer@ =~= spec_serialize(packet@));
            },
            Packet::Nack(body) => {
                buffer.push(TAG_NACK);
                buffer.push(body.missing_sequences.len() as u8);
                let ghost prefix = buffer@;
                let mut i: usize = 0;
                while i < body.missing_sequences.len()
                    invariant
                        i <= body.missing_sequences@.len(),
                        buffer@ == prefix + seqs_bytes(body.missing_sequences@.take(i as int)),
                    decreases body.missing_sequences@.len() - i,
                {
                    push_u64_be(&mut buffer, body.missing_sequences[i]);
                    proof {
                        lemma_seqs_bytes_step(body.missing_sequences@, i as int);
                        assert(buffer@ =~= prefix + seqs_bytes(
                            body.missing_sequences@.take(i + 1),
                        ));
                    }
                    i = i + 1;
                }
                assert(body.missing_sequences@.take(body.missing_sequences@.len() as int)
                    =~= body.missing_sequences@);
                assert(buffer@ =~= spec_serialize(packet@));
            },
            Packet::Ping(body) => {
                buffer.push(TAG_PING);
                push_u64_be(&mut buffer, body.timestamp);
                append_bytes(&mut buffer, &body.data);
                assert(buffer@ =~= spec_serialize(packet@));
            },
            Packet::Pong(body) => {
                buffer.push(TAG_PONG);
                push_u64_be(&mut buffer, body.timestamp);
                append_bytes(&mut buffer, &body.data);
                assert(buffer@ =~= spec_serialize(packet@));
            },
        }
        buffer
    }
}

impl PacketSerializer {
    /// The packet a datagram holds, or nothing on a length or tag
    /// error; a dropped datagram, to the caller.
    pub fn deserialize(buffer: &[u8]) -> (r: Option<Packet>)
        ensures
            match r {
                Some(p) => spec_deserialize(buffer@) == Some(p@),
                None => spec_deserialize(buffer@) is None,
            },
    {
        if buffer.len() == 0 {
            return None;
        }
        let tag = buffer[0];
        if tag == TAG_RTP {
            if buffer.len() < 29 {
                return None;
            }
            let sequence_number = read_u64_be(buffer, 1);
            let timestamp = read_u64_be(buffer, 9);
            let frame_id = read_u64_be(buffer, 17);
            let total_fragments = read_u16_be(buffer, 25);
            let fragment_number = read_u16_be(buffer, 27);
            let data = copy_range(buffer, 29, buffer.len());
            assert(data@ =~= buffer@.skip(29));
            Some(
                Packet::Rtp(
                    RtpBody {
                        timestamp,
                        sequence_number,
                        frame_id,
                        fragment_number,
                        total_fragments,
                        data,
                    },
                ),
            )
        } else if tag == TAG_FEC {
            if buffer.len() < 10 {
                return None;
            }
            let timestamp = read_u64_be(buffer, 1);
            let protected_count = buffer[9] as usize;
            let metadata_end = 10 + protected_count * 30;
            if buffer.len() < metadata_end {
                return None;
            }
            let mut protected_packets: Vec<ProtectedPacketMeta> = Vec::new();
            let mut i: usize = 0;
            while i < protected_count
                invariant
                    i <= protected_count <= 255,
                    10 + protected_count * 30 <= buffer@.len(),
                    protected_packets@.len() == i,
                    forall|j: int|
                        0 <= j < i ==> protected_packets@[j] == parse_metas(
                            buffer@,
                            protected_count as int,
                        )[j],
                decreases protected_count - i,
            {
                let base = 10 + i * 30;
                let meta = ProtectedPacketMeta {
                    sequence_number: read_u64_be(buffer, base),
                    timestamp: read_u64_be(buffer, base + 8),
                    frame_id: read_u64_be(buffer, base + 16),
                    fragment_number: read_u16_be(buffer, base + 24),
                    total_fragments: read_u16_be(buffer, base + 26),
                    data_length: read_u16_be(buffer, base + 28),
                };
                proof {
                    let t = buffer@.subrange(10 + i * 30, 10 + (i + 1) * 30);
                    assert(t.subrange(0, 8) =~= buffer@.subrange(base as int, base + 8));
                    assert(t.subrange(8, 16) =~= buffer@.subrange(base + 8, base + 16));
                    assert(t.subrange(16, 24) =~= buffer@.subrange(base + 16, base + 24));
                    assert(t.subrange(24, 26) =~= buffer@.subrange(base + 24, base + 26));
                    assert(t.subrange(26, 28) =~= buffer@.subrange(base + 26, base + 28));
                    assert(t.subrange(28, 30) =~= buffer@.subrange(base + 28, base + 30));
                }
                protected_packets.push(meta);
                i = i + 1;
            }
            let fec_data = copy_range(buffer, metadata_end, buffer.len());
            proof {
                assert(protected_packets@ =~= parse_metas(buffer@, protected_count as int));
                assert(fec_data@ =~= buffer@.skip(10 + (protected_count as int) * 30));
            }
            Some(Packet::Fec(FecBody { timestamp, protected_packets, fec_data }))
        } else if tag == TAG_NACK {
            if buffer.len() < 2 {
                return None;
            }
            let count = buffer[1] as usize;
            if buffer.len() < 2 + count * 8 {
                return None;
            }
            let mut missing_sequences: Vec<u64> = Vec::new();
            let mut i: usize = 0;
            while i < count
                invariant
                    i <= count <= 255,
                    2 + count * 8 <= buffer@.len(),
                    missing_sequences@.len() == i,
                    forall|j: int|
                        0 <= j < i ==> missing_sequences@[j] == parse_seqs(
                            buffer@,
                            count as int,
                        )[j],
                decreases count - i,
            {
                let seq = read_u64_be(buffer, 2 + i * 8);
                proof {
                    assert(buffer@.subrange(2 + (i as int) * 8, 2 + (i as int) * 8 + 8)
                        =~= buffer@.subrange(2 + (i as int) * 8, 2 + ((i as int) + 1) * 8));
                }
                missing_sequences.push(seq);
                i = i + 1;
            }
            assert(missing_sequences@ =~= parse_seqs(buffer@, count as int));
            Some(Packet::Nack(NackBody { missing_sequences }))
        } else if tag == TAG_PING || tag == TAG_PONG {
            if buffer.len() < 9 {
                return None;
            }
            let timestamp = read_u64_be(buffer, 1);
            let data = copy_range(buffer, 9, buffer.len());
            assert(data@ =~= buffer@.skip(9));
            if tag == TAG_PING {
                Some(Packet::Ping(PingBody { timestamp, data }))
            } else {
                Some(Packet::Pong(PongBody { timestamp, data }))
            }
        } else {
            None
        }
    }
}

/// A meta list's wire bytes are thirty per element.
proof fn lemma_metas_bytes_len(ms: Seq<ProtectedPacketMeta>)
    ensures
        metas_bytes(ms).len() == 30 * ms.len(),
    decreases ms.len(),
{
    if ms.len() > 0 {
        lemma_metas_bytes_len(ms.drop_last());
    }
}

/// Element `i` of a meta list owns bytes `30 * i` to `30 * i + 30` of
/// the list's wire bytes.
proof fn lemma_metas_bytes_index(ms: Seq<ProtectedPacketMeta>, i: int)
    requires
        0 <= i < ms.len(),
    ensures
        metas_bytes(ms).subrange(30 * i, 30 * i + 30) == meta_bytes(ms[i]),
    decreases ms.len(),
{
    lemma_metas_bytes_len(ms);
    lemma_metas_bytes_len(ms.drop_last());
    if i == ms.len() - 1 {
        assert(metas_bytes(ms).subrange(30 * i, 30 * i + 30) =~= meta_bytes(ms.last()));
    } else {
        lemma_metas_bytes_index(ms.drop_last(), i);
        assert(metas_bytes(ms).subrange(30 * i, 30 * i + 30) =~= metas_bytes(
            ms.drop_last(),
        ).subrange(30 * i, 30 * i + 30));
    }
}

/// Parsing the thirty wire bytes of a meta gives the meta back.
proof fn lemma_meta_round_trip(m: ProtectedPacketMeta)
    ensures
        parse_meta(meta_bytes(m)) == m,
{
    let t = meta_bytes(m);
    assert(t.subrange(0, 8) =~= be64(m.sequence_number));
    assert(t.subrange(8, 16) =~= be64(m.timestamp));
    assert(t.subrange(16, 24) =~= be64(m.frame_id));
    assert(t.subrange(24, 26) =~= be16(m.fragment_number));
    assert(t.subrange(26, 28) =~= be16(m.total_fragments));
    assert(t.subrange(28, 30) =~= be16(m.data_length));
    lemma_be64_combine(m.sequence_number);
    lemma_be64_combine(m.timestamp);
    lemma_be64_combine(m.frame_id);
    lemma_be16_combine(m.fragment_number);
    lemma_be16_combine(m.total_fragments);
    lemma_be16_combine(m.data_length);
}

/// A sequence-number list's wire bytes are eight per element.
proof fn lemma_seqs_bytes_len(ss: Seq<u64>)
    ensures
        seqs_bytes(ss).len() == 8 * ss.len(),
    decreases ss.len(),
{
    if ss.len() > 0 {
        lemma_seqs_bytes_len(ss.drop_last());
    }
}

/// Element `i` of a sequence-number list owns bytes `8 * i` to
/// `8 * i + 8` of the list's wire bytes.
proof fn lemma_seqs_bytes_index(ss: Seq<u64>, i: int)
    requires
        0 <= i < ss.len(),
    ensures
        seqs_bytes(ss).subrange(8 * i, 8 * i + 8) == be64(ss[i]),
    decreases ss.len(),
{
    lemma_seqs_bytes_len(ss);
    lemma_seqs_bytes_len(ss.drop_last());
    if i == ss.len() - 1 {
        assert(seqs_bytes(ss).subrange(8 * i, 8 * i + 8) =~= be64(ss.last()));
    } else {
        lemma_seqs_bytes_index(ss.drop_last(), i);
        assert(seqs_bytes(ss).subrange(8 * i, 8 * i + 8) =~= seqs_bytes(ss.drop_last()).subrange(
            8 * i,
            8 * i + 8,
        ));
    }
}

/// Codec round trip: parsing the wire bytes of any well-formed packet
/// gives the packet back.
pub proof fn lemma_codec_round_trip(p: PacketView)
    requires
        wf_packet(p),
    ensures
        spec_deserialize(spec_serialize(p)) == Some(p),
{
    let s = spec_serialize(p);
    match p {
        PacketView::Rtp(r) => {
            assert(s.len() == 29 + r.data.len());
            assert(s[0] == TAG_RTP);
            assert(s.subrange(1, 9) =~= be64(r.sequence_number));
            assert(s.subrange(9, 17) =~= be64(r.timestamp));
            assert(s.subrange(17, 25) =~= be64(r.frame_id));
            assert(s.subrange(25, 27) =~= be16(r.total_fragments));
            assert(s.subrange(27, 29) =~= be16(r.fragment_number));
            assert(s.skip(29) =~= r.data);
            lemma_be64_combine(r.sequence_number);
            lemma_be64_combine(r.timestamp);
            lemma_be64_combine(r.frame_id);
            lemma_be16_combine(r.total_fragments);
            lemma_be16_combine(r.fragment_number);
        },
        PacketView::Fec(f) => {
            let ms = f.protected_packets;
            let n = ms.len() as int;
            lemma_metas_bytes_len(ms);
            assert(s.len() == 10 + 30 * n + f.fec_data.len());
            assert(s[0] == TAG_FEC);
            assert(s[9] == n as u8);
            assert((n as u8) as int == n);
            assert(s.subrange(1, 9) =~= be64(f.timestamp));
            lemma_be64_combine(f.timestamp);
            assert forall|i: int| 0 <= i < n implies parse_metas(s, n)[i] == ms[i] by {
                assert(s.subrange(10 + i * 30, 10 + (i + 1) * 30) =~= metas_bytes(ms).subrange(
                    30 * i,
                    30 * i + 30,
                ));
                lemma_metas_bytes_index(ms, i);
                lemma_meta_round_trip(ms[i]);
            }
            assert(parse_metas(s, n) =~= ms);
            assert(s.skip(10 + n * 30) =~= f.fec_data);
        },
        PacketView::Nack(nk) => {
            let ss = nk.missing_sequences;
            let n = ss.len() as int;
            lemma_seqs_bytes_len(ss);
            assert(s.len() == 2 + 8 * n);
            assert(s[0] == TAG_NACK);
            assert(s[1] == n as u8);
            assert((n as u8) as int == n);
            assert forall|i: int| 0 <= i < n implies parse_seqs(s, n)[i] == ss[i] by {
                assert(s.subrange(2 + i * 8, 2 + (i + 1) * 8) =~= seqs_bytes(ss).subrange(
                    8 * i,
                    8 * i + 8,
                ));
                lemma_seqs_bytes_index(ss, i);
                lemma_be64_combine(ss[i]);
            }
            assert(parse_seqs(s, n) =~= ss);
        },
        PacketView::Ping(b) => {
            assert(s[0] == TAG_PING);
            assert(s.subrange(1, 9) =~= be64(b.timestamp));
            assert(s.skip(9) =~= b.data);
            lemma_be64_combine(b.timestamp);
        },
        PacketView::Pong(b) => {
            assert(s[0] == TAG_PONG);
            assert(s.subrange(1, 9) =~= be64(b.timestamp));
            assert(s.skip(9) =~= b.data);
            lemma_be64_combine(b.timestamp);
        },
    }
}

/// Largest payload of one media fragment, in bytes.
pub const MAX_FRAGMENT_SIZE: usize = 1000;

/// Why a fragment was refused by a frame buffer.
#[derive(Debug, Clone, Copy, PartialEq, Eq, Structural)]
pub enum FrameError {
    /// The fragment names another frame.
    WrongFrame,
    /// The fragment claims a different fragment total than the frame.
    InconsistentFragmentCount,
}

/// Mathematical image of a frame buffer: the arrived fragments,
/// keyed and ordered by fragment number.
pub struct FrameBufferView {
    pub frame_id: u64,
    pub expected_fragments: u16,
    pub packets: Seq<(u16, RtpView)>,
    pub created_at: u64,
}

impl FrameBufferView {
    /// Fragment numbers strictly ascending: each arrived number held
    /// once, in order.
    pub open spec fn wf(self) -> bool {
        forall|i: int, j: int|
            0 <= i < j < self.packets.len() ==> (#[trigger] self.packets[i]).0 < (
            #[trigger] self.packets[j]).0
    }

    /// As many distinct fragment numbers have arrived as expected.
    pub open spec fn complete(self) -> bool {
        self.packets.len() == self.expected_fragments
    }
}

/// The arrived payloads, concatenated in fragment-number order.
pub open spec fn concat_frags(ps: Seq<(u16, RtpView)>) -> Seq<u8>
    decreases ps.len(),
{
    if ps.len() == 0 {
        Seq::empty()
    } else {
        concat_frags(ps.drop_last()) + ps.last().1.data
    }
}

/// `ps` with `v` filed under number `k`: a duplicate number is
/// overwritten in place, a new one takes its ordered position.
pub open spec fn slot_insert(ps: Seq<(u16, RtpView)>, k: u16, v: RtpView) -> Seq<(u16, RtpView)>
    decreases ps.len(),
{
    if ps.len() == 0 {
        seq![(k, v)]
    } else if k < ps[0].0 {
        seq![(k, v)] + ps
    } else if k == ps[0].0 {
        ps.update(0, (k, v))
    } else {
        seq![ps[0]] + slot_insert(ps.drop_first(), k, v)
    }
}

/// Filing splits at any prefix of smaller numbers.
proof fn lemma_slot_insert_split(ps: Seq<(u16, RtpView)>, k: u16, v: RtpView, i: int)
    requires
        0 <= i <= ps.len(),
        forall|j: int| 0 <= j < i ==> (#[trigger] ps[j]).0 < k,
    ensures
        slot_insert(ps, k, v) == ps.take(i) + slot_insert(ps.skip(i), k, v),
    decreases i,
{
    if i == 0 {
        assert(ps.skip(0) =~= ps);
        assert(ps.take(0) + slot_insert(ps, k, v) =~= slot_insert(ps, k, v));
    } else {
        assert(ps[0].0 < k);
        assert(slot_insert(ps, k, v) == seq![ps[0]] + slot_insert(ps.drop_first(), k, v));
        assert(forall|j: int|
            0 <= j < i - 1 ==> (#[trigger] ps.drop_first()[j]).0 < k);
        lemma_slot_insert_split(ps.drop_first(), k, v, i - 1);
        assert(ps.drop_first().take(i - 1) =~= ps.take(i).drop_first());
        assert(ps.drop_first().skip(i - 1) =~= ps.skip(i));
        assert(seq![ps[0]] + (ps.take(i).drop_first() + slot_insert(ps.skip(i), k, v)) =~= ps.take(
            i,
        ) + slot_insert(ps.skip(i), k, v));
    }
}

/// Reassembles one application message from its fragments, stored
/// in fragment-number order.
pub struct FrameBuffer {
    /// The frame every accepted fragment must name.
    pub frame_id: u64,
    expected_fragments: u16,
    packets: Vec<(u16, RtpBody)>,
    /// Wall-clock milliseconds of creation; the janitor discards old
    /// frames by it.
    pub created_at: u64,
}

impl View for FrameBuffer {
    type V = FrameBufferView;

    closed spec fn view(&self) -> FrameBufferView {
        FrameBufferView {
            frame_id: self.frame_id,
            expected_fragments: self.expected_fragments,
            packets: self.packets@.map_values(|e: (u16, RtpBody)| (e.0, e.1@)),
            created_at: self.created_at,
        }
    }
}

impl FrameBuffer {
    /// An empty buffer expecting `expected_fragments` fragments,
    /// stamped with the caller's clock.
    pub fn new(frame_id: u64, expected_fragments: u16, now_ms: u64) -> (r: FrameBuffer)
        ensures
            r@.wf(),
            r@.frame_id == frame_id,
            r@.expected_fragments == expected_fragments,
            r@.created_at == now_ms,
            r@.packets == Seq::<(u16, RtpView)>::empty(),
    {
        let r = FrameBuffer {
            frame_id,
            expected_fragments,
            packets: Vec::new(),
            created_at: now_ms,
        };
        proof {
            assert(r@.packets =~= Seq::<(u16, RtpView)>::empty());
        }
        r
    }

    /// How many fragments the frame expects.
    pub fn expected_fragments(&self) -> (r: u16)
        ensures
            r == self@.expected_fragments,
    {
        self.expected_fragments
    }

    /// File `packet` under its fragment number, overwriting a
    /// duplicate; refuse it only if it names another frame or claims
    /// a different total — the packet is dropped, the frame
    /// preserved.
    pub fn add_packet(&mut self, packet: RtpBody) -> (r: Result<(), FrameError>)
        requires
            old(self)@.wf(),
        ensures
            final(self)@.wf(),
            final(self)@.frame_id == old(self)@.frame_id,
            final(self)@.expected_fragments == old(self)@.expected_fragments,
            final(self)@.created_at == old(self)@.created_at,
            match r {
                Ok(()) => {
                    &&& packet@.frame_id == old(self)@.frame_id
                    &&& packet@.total_fragments == old(self)@.expected_fragments
                    &&& final(self)@.packets == slot_insert(
                        old(self)@.packets,
                        packet@.fragment_number,
                        packet@,
                    )
                },
                Err(FrameError::WrongFrame) => {
                    &&& packet@.frame_id != old(self)@.frame_id
                    &&& final(self)@ == old(self)@
                },
                Err(FrameError::InconsistentFragmentCount) => {
                    &&& packet@.frame_id == old(self)@.frame_id
                    &&& packet@.total_fragments != old(self)@.expected_fragments
                    &&& final(self)@ == old(self)@
                },
            },
    {
        if packet.frame_id != self.frame_id {
            return Err(FrameError::WrongFrame);
        }
        if packet.total_fragments != self.expected_fragments {
            return Err(FrameError::InconsistentFragmentCount);
        }
        let number = packet.fragment_number;
        let ghost ps = self@.packets;
        let mut i: usize = 0;
        while i < self.packets.len() && self.packets[i].0 < number
            invariant
                i <= self.packets@.len(),
                ps == self@.packets,
                *self == *old(self),
                forall|j: int| 0 <= j < i ==> (#[trigger] ps[j]).0 < number,
            decreases self.packets@.len() - i,
        {
            proof {
                assert(ps[i as int].0 == self.packets@[i as int].0);
            }
            i = i + 1;
        }
        proof {
            lemma_slot_insert_split(ps, number, packet@, i as int);
        }
        if i < self.packets.len() && self.packets[i].0 == number {
            self.packets.set(i, (number, packet));
            proof {
                assert(ps.skip(i as int)[0].0 == number);
                assert(slot_insert(ps.skip(i as int), number, self.packets@[i as int].1@)
                    =~= ps.skip(i as int).update(0, (number, self.packets@[i as int].1@)));
                assert(self@.packets =~= ps.take(i as int) + ps.skip(i as int).update(
                    0,
                    (number, self.packets@[i as int].1@),
                ));
                assert forall|a: int, b: int|
                    0 <= a < b < self@.packets.len() implies (#[trigger] self@.packets[a]).0 < (
                #[trigger] self@.packets[b]).0 by {
                    assert(ps[a].0 == self@.packets[a].0);
                    assert(ps[b].0 == self@.packets[b].0);
                }
            }
        } else {
            proof {
                if i < self.packets@.len() {
                    assert(ps[i as int].0 != number);
                    assert(number < ps[i as int].0);
                    assert(slot_insert(ps.skip(i as int), number, packet@) =~= seq![
                        (number, packet@),
                    ] + ps.skip(i as int));
                } else {
                    assert(ps.skip(i as int) =~= Seq::<(u16, RtpView)>::empty());
                }
            }
            self.packets.insert(i, (number, packet));
            proof {
                assert(self@.packets =~= ps.take(i as int) + slot_insert(
                    ps.skip(i as int),
                    number,
                    self.packets@[i as int].1@,
                ));
                assert forall|a: int, b: int|
                    0 <= a < b < self@.packets.len() implies (#[trigger] self@.packets[a]).0 < (
                #[trigger] self@.packets[b]).0 by {
                    if a < i && b > i {
                        assert(self@.packets[a].0 == ps[a].0);
                        assert(self@.packets[b].0 == ps[b - 1].0);
                        assert(ps[a].0 < number);
                        if b - 1 >= i {
                            if b - 1 == i {
                                assert(number < ps[i as int].0);
                            } else {
                                assert(ps[i as int].0 <= ps[b - 1].0);
                            }
                        }
                    } else if a == i {
                        assert(self@.packets[a].0 == number);
                        assert(self@.packets[b].0 == ps[b - 1].0);
                        assert(number < ps[i as int].0);
                        if b - 1 > i {
                            assert(ps[i as int].0 < ps[b - 1].0);
                        }
                    } else if b == i {
                        assert(self@.packets[a].0 == ps[a].0);
                        assert(self@.packets[b].0 == number);
                    } else if b < i {
                        assert(self@.packets[a].0 == ps[a].0);
                        assert(self@.packets[b].0 == ps[b].0);
                    } else {
                        assert(self@.packets[a].0 == ps[a - 1].0);
                        assert(self@.packets[b].0 == ps[b - 1].0);
                    }
                }
            }
        }
        Ok(())
    }

    /// Whether as many distinct fragment numbers have arrived as the
    /// frame expects.
    pub fn is_complete(&self) -> (r: bool)
        ensures
            r == self@.complete(),
    {
        self.packets.len() == self.expected_fragments as usize
    }

    /// The reassembled message — the arrived payloads concatenated
    /// in fragment-number order — or nothing while the arrived count
    /// is short of the expected total.
    pub fn reconstruct_data(&self) -> (r: Option<Vec<u8>>)
        ensures
            match r {
                Some(data) => self@.complete() && data@ == concat_frags(self@.packets),
                None => !self@.complete(),
            },
    {
        if !self.is_complete() {
            return None;
        }
        let mut result: Vec<u8> = Vec::new();
        let mut i: usize = 0;
        while i < self.packets.len()
            invariant
                i <= self.packets@.len(),
                result@ == concat_frags(self@.packets.take(i as int)),
            decreases self.packets@.len() - i,
        {
            append_bytes(&mut result, &self.packets[i].1.data);
            proof {
                let ps = self@.packets;
                assert(ps[i as int].1 == self.packets@[i as int].1@);
                assert(ps.take(i + 1).drop_last() =~= ps.take(i as int));
                assert(ps.take(i + 1).last() == ps[i as int]);
            }
            i = i + 1;
        }
        assert(self@.packets.take(self@.packets.len() as int) =~= self@.packets);
        Some(result)
    }
}

/// How many fragments an `n`-byte message is split into.
pub open spec fn fragment_count(n: int) -> int {
    (n + MAX_FRAGMENT_SIZE - 1) / (MAX_FRAGMENT_SIZE as int)
}

/// The payload of fragment `i` of message `m`.
pub open spec fn fragment_data(m: Seq<u8>, i: int) -> Seq<u8>
    recommends
        0 <= i < fragment_count(m.len() as int),
{
    m.subrange(
        i * (MAX_FRAGMENT_SIZE as int),
        if (i + 1) * (MAX_FRAGMENT_SIZE as int) <= m.len() {
            (i + 1) * (MAX_FRAGMENT_SIZE as int)
        } else {
            m.len() as int
        },
    )
}

/// Frame reassembly: once a frame holds, for each fragment number
/// of `m`, exactly the fragment of `m` with that number, the
/// reassembled payload is exactly `m`, whatever order the fragments
/// arrived in.
pub proof fn lemma_frame_reassembly(m: Seq<u8>, ps: Seq<(u16, RtpView)>)
    requires
        m.len() >= 1,
        ps.len() == fragment_count(m.len() as int),
        forall|i: int|
            0 <= i < ps.len() ==> (#[trigger] ps[i]).0 == i as u16 && ps[i].1.data
                == fragment_data(m, i),
    ensures
        concat_frags(ps) == m,
    decreases ps.len(),
{
    let sz = MAX_FRAGMENT_SIZE as int;
    let n = ps.len() as int;
    assert(n == (m.len() + sz - 1) / sz);
    if n == 1 {
        assert(m.len() <= sz) by {
            if m.len() > sz {
                assert((m.len() + sz - 1) / sz >= 2) by (nonlinear_arith)
                    requires
                        m.len() > sz,
                        sz == 1000,
                ;
            }
        }
        assert(ps[0].1.data == fragment_data(m, 0));
        assert(concat_frags(ps.drop_last()) =~= Seq::<u8>::empty());
        assert(concat_frags(ps) =~= fragment_data(m, 0));
        assert(fragment_data(m, 0) =~= m);
    } else {
        let head = m.subrange(0, (n - 1) * sz);
        assert(head.len() == (n - 1) * sz);
        assert(fragment_count(head.len() as int) == n - 1);
        assert forall|i: int| 0 <= i < n - 1 implies (#[trigger] ps.drop_last()[i]).0
            == i as u16 && ps.drop_last()[i].1.data == fragment_data(head, i) by {
            assert(ps[i].0 == i as u16);
            assert(ps[i].1.data == fragment_data(m, i));
            assert(fragment_data(head, i) =~= fragment_data(m, i));
        }
        lemma_frame_reassembly(head, ps.drop_last());
        assert(ps.last().1.data == fragment_data(m, n - 1));
        assert(concat_frags(ps) == concat_frags(ps.drop_last()) + ps.last().1.data);
        assert(head + fragment_data(m, n - 1) =~= m);
    }
}

/// Frames age by their creation moment.
impl crate::cache::Stamped for FrameBuffer {
    open spec fn stamp_spec(&self) -> u64 {
        self@.created_at
    }

    fn stamp(&self) -> (r: u64)
        ensures
            r == self.stamp_spec(),
    {
        self.created_at
    }
}

/// Cached fragments age by their wire timestamp.
impl crate::cache::Stamped for RtpBody {
    open spec fn stamp_spec(&self) -> u64 {
        self.timestamp
    }

    fn stamp(&self) -> (r: u64)
        ensures
            r == self.stamp_spec(),
    {
        self.timestamp
    }
}

/// Outstanding probes age by the moment they were sent.
impl crate::cache::Stamped for PingBody {
    open spec fn stamp_spec(&self) -> u64 {
        self.timestamp
    }

    fn stamp(&self) -> (r: u64)
        ensures
            r == self.stamp_spec(),
    {
        self.timestamp
    }
}


/// A fresh copy of a fragment, field for field.
pub fn clone_rtp(r: &RtpBody) -> (c: RtpBody)
    ensures
        c@ == r@,
{
    let data = copy_range(r.data.as_slice(), 0, r.data.len());
    assert(data@ =~= r.data@);
    RtpBody {
        timestamp: r.timestamp,
        sequence_number: r.sequence_number,
        frame_id: r.frame_id,
        fragment_number: r.fragment_number,
        total_fragments: r.total_fragments,
        data,
    }
}


/// A fresh copy of a gap report, field for field.
pub fn clone_nack(n: &NackBody) -> (c: NackBody)
    ensures
        c@ == n@,
{
    let mut missing: Vec<u64> = Vec::new();
    let mut i: usize = 0;
    while i < n.missing_sequences.len()
        invariant
            i <= n.missing_sequences@.len(),
            missing@ == n.missing_sequences@.take(i as int),
        decreases n.missing_sequences@.len() - i,
    {
        missing.push(n.missing_sequences[i]);
        assert(missing@ =~= n.missing_sequences@.take(i + 1));
        i = i + 1;
    }
    assert(missing@ =~= n.missing_sequences@);
    NackBody { missing_sequences: missing }
}

} // verus!
