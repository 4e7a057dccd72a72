//! Per-connection transport state: fragmentation, sequence and
//! frame bookkeeping, send and receive caches, liveness pings, RTT
//! estimation, loss, forward error correction, NACKs and pacing —
//! everything a connection decides, with time an explicit argument
//! and every datagram handed back to the caller to send.
//!
//! The caller owns the event loop: it feeds inbound datagrams and
//! tick moments in, sends the returned datagrams, and delivers the
//! returned messages upward.

use vstd::prelude::*;
use crate::cache::{CacheMap, Stamped};
use crate::fec::{
    chosen_group_size, fec_views, pushed_slots, rtp_views, swept_parities, swept_slots,
    FecEncoderView,
    AdaptiveFecEncoder,
};
use crate::loss::{pruned, smoothed_after, with_nacks, with_sent, LossEstimator, LossView};
use crate::nack::{
    nack_body_views, nack_list_views, sweep_emitted, sweep_kept, missing_in_range, scrubbed_nacks,
    NackController, PendingNack, PendingNackView,
};
use crate::pacing::PacketPacer;
use crate::packet::{
    concat_frags, fragment_count, fragment_data, slot_insert, spec_deserialize, spec_serialize,
    FecView,
    FrameBuffer, FrameBufferView, Packet, PacketSerializer, PacketView, PingBody, PongBody,
    ProbeView, RtpBody, RtpView, MAX_FRAGMENT_SIZE,
};

verus! {

/// Missed pongs before the connection is declared dead.
pub const MAX_MISSED_PONGS: usize = 15;

/// Most frames under reassembly at once.
pub const MAX_FRAMES: usize = 16384;

/// Most packets kept in the send and receive caches.
pub const MAX_PACKETS: usize = 262144;

/// Per-sequence cooldown between NACK answers, in milliseconds.
pub const NACK_COOLDOWN_MS: u64 = 30;

/// How long an unanswered ping stays on the books, in milliseconds.
pub const PONG_TIMEOUT_MS: u64 = 2000;

/// How long caches, frames, pings and pending NACKs live before the
/// janitor reclaims them, in milliseconds.
pub const REAP_AGE_MS: u64 = 5000;

/// Smallest retransmission timeout, in milliseconds.
pub const MIN_RTO_MS: u64 = 10;

/// Largest retransmission timeout, in milliseconds.
pub const MAX_RTO_MS: u64 = 2000;

/// Why the substrate could not be brought up or spoken to.
#[derive(Debug, Clone)]
pub enum WebTransportError {
    /// The substrate refused the connection, with its words.
    Connection(String),
    /// Reading certificate material or the socket failed.
    Io(String),
}

/// One application message handed upward.
#[derive(Debug, Clone)]
pub enum Message {
    /// Read from a reliable stream, in stream order.
    Ordered(Vec<u8>),
    /// Reassembled from datagrams; one per completed frame.
    Unordered(Vec<u8>),
}

/// The smoothed round-trip time after one measurement: the first
/// sample is adopted whole, later samples blend in one eighth.
pub open spec fn next_srtt(srtt: u64, rtt: u64) -> int {
    if srtt == 0 {
        rtt as int
    } else {
        (7 * srtt + rtt) / 8
    }
}

/// The round-trip deviation after one measurement: half the first
/// sample, later samples blend a quarter of the new deviation in.
pub open spec fn next_rttvar(srtt: u64, rttvar: u64, rtt: u64) -> int {
    if srtt == 0 {
        (rtt / 2) as int
    } else {
        let diff = if rtt >= srtt {
            rtt - srtt
        } else {
            srtt - rtt
        };
        (3 * rttvar + diff) / 4
    }
}

/// The retransmission timeout for a smoothed time and deviation:
/// the time plus four deviations — at least ten milliseconds of
/// slack — clamped to `[MIN_RTO_MS, MAX_RTO_MS]`.
pub open spec fn rto_of(srtt: int, rttvar: int) -> int {
    let slack = if 4 * rttvar > 10 {
        4 * rttvar
    } else {
        10
    };
    let raw = srtt + slack;
    if raw < MIN_RTO_MS {
        MIN_RTO_MS as int
    } else if raw > MAX_RTO_MS {
        MAX_RTO_MS as int
    } else {
        raw
    }
}

/// Fragment `i` of message `m`, as the wire sees it.
pub open spec fn fragment_rtp(
    m: Seq<u8>,
    i: int,
    frame_id: u64,
    base_seq: u64,
    now_ms: u64,
) -> RtpView {
    RtpView {
        timestamp: now_ms,
        sequence_number: base_seq.wrapping_add(i as u64),
        frame_id,
        fragment_number: i as u16,
        total_fragments: fragment_count(m.len() as int) as u16,
        data: fragment_data(m, i),
    }
}

/// The media fragments a datagram queue carries, in queue order:
/// every datagram that parses as a fragment, as parsed.
pub open spec fn parsed_rtps(q: Seq<Seq<u8>>) -> Seq<RtpView>
    decreases q.len(),
{
    if q.len() == 0 {
        Seq::empty()
    } else {
        parsed_rtps(q.drop_last()) + (match spec_deserialize(q.last()) {
            Some(PacketView::Rtp(r)) => seq![r],
            _ => Seq::empty(),
        })
    }
}

/// All the state one connection owns.
pub struct ConnectionRunner {
    /// Frames under reassembly, by frame id.
    pub streams: CacheMap<FrameBuffer>,
    /// What this side sent, kept to answer NACKs, by sequence.
    pub send_packets: CacheMap<RtpBody>,
    /// What this side received, kept for recovery and gap checks.
    pub received_packets: CacheMap<RtpBody>,
    /// The next inbound sequence this side expects.
    pub in_seq: u64,
    /// The next outbound sequence this side will use.
    pub out_seq: u64,
    /// Gap reports scheduled for sending.
    pub nacks: Vec<PendingNack>,
    /// When each sequence was last re-sent in answer to a NACK.
    pub nack_responses: CacheMap<u64>,
    /// The next frame id an outbound message will take.
    pub next_frame_id: u64,
    /// Liveness probes awaiting their echo, by timestamp.
    pub send_pings: CacheMap<PingBody>,
    /// Probes that expired unanswered since the last good echo.
    pub failed_pings: usize,
    /// Smoothed round-trip time, in milliseconds.
    pub srtt: u64,
    /// Round-trip deviation, in milliseconds.
    pub rttvar: u64,
    /// Retransmission timeout, in milliseconds.
    pub rto: u64,
    /// The loss estimate feeding protection and pacing.
    pub loss_estimator: LossEstimator,
    /// The interleaved XOR protection encoder.
    pub adaptive_fec_encoder: AdaptiveFecEncoder,
    /// The outbound datagram queue and its budget logic.
    pub pacer: PacketPacer,
}

impl ConnectionRunner {
    /// Every part well-formed: caches keyed once, frames sized to
    /// their fragment totals, pending gap reports within the gap
    /// cap, the timeout inside its clamp.
    pub open spec fn wf(&self) -> bool {
        &&& self.streams.wf()
        &&& self.send_packets.wf()
        &&& self.received_packets.wf()
        &&& self.nack_responses.wf()
        &&& self.send_pings.wf()
        &&& self.loss_estimator@.wf()
        &&& self.adaptive_fec_encoder@.wf()
        &&& self.pacer.wf()
        &&& MIN_RTO_MS <= self.rto <= MAX_RTO_MS
        &&& forall|k: u64|
            self.streams@.dom().contains(k) ==> (#[trigger] self.streams@[k])@.wf() && self
                .streams@[k]@.frame_id == k
        &&& forall|i: int|
            0 <= i < self.nacks@.len() ==> (#[trigger] self.nacks@[i])@.missing_sequences.len()
                <= crate::nack::MAX_SEQUENCE_GAP
    }

    /// A fresh connection: empty caches, zeroed counters, the
    /// timeout at one second until measurements speak.
    pub fn new() -> (r: ConnectionRunner)
        ensures
            r.wf(),
            r.streams@ == Map::<u64, FrameBuffer>::empty(),
            r.send_packets@ == Map::<u64, RtpBody>::empty(),
            r.received_packets@ == Map::<u64, RtpBody>::empty(),
            r.in_seq == 0,
            r.out_seq == 0,
            r.nacks@.len() == 0,
            r.nack_responses@ == Map::<u64, u64>::empty(),
            r.next_frame_id == 0,
            r.send_pings@ == Map::<u64, PingBody>::empty(),
            r.failed_pings == 0,
            r.srtt == 0,
            r.rttvar == 0,
            r.rto == 1000,
            r.loss_estimator@.smoothed == 0,
            r.pacer@.queue == Seq::<Seq<u8>>::empty(),
    {
        ConnectionRunner {
            streams: CacheMap::new(),
            send_packets: CacheMap::new(),
            received_packets: CacheMap::new(),
            in_seq: 0,
            out_seq: 0,
            nacks: Vec::new(),
            nack_responses: CacheMap::new(),
            next_frame_id: 0,
            send_pings: CacheMap::new(),
            failed_pings: 0,
            srtt: 0,
            rttvar: 0,
            rto: 1000,
            loss_estimator: LossEstimator::new(),
            adaptive_fec_encoder: AdaptiveFecEncoder::new(),
            pacer: PacketPacer::new(),
        }
    }

    /// Fold one round-trip measurement into the smoothed time, the
    /// deviation, and the retransmission timeout.
    pub fn update_rto(&mut self, measured_rtt_ms: u64)
        requires
            old(self).wf(),
        ensures
            final(self).wf(),
            final(self).srtt == next_srtt(old(self).srtt, measured_rtt_ms),
            final(self).rttvar == next_rttvar(old(self).srtt, old(self).rttvar, measured_rtt_ms),
            final(self).rto == rto_of(final(self).srtt as int, final(self).rttvar as int),
            final(self).streams == old(self).streams,
            final(self).send_packets == old(self).send_packets,
            final(self).received_packets == old(self).received_packets,
            final(self).in_seq == old(self).in_seq,
            final(self).out_seq == old(self).out_seq,
            final(self).nacks == old(self).nacks,
            final(self).nack_responses == old(self).nack_responses,
            final(self).next_frame_id == old(self).next_frame_id,
            final(self).send_pings == old(self).send_pings,
            final(self).failed_pings == old(self).failed_pings,
            final(self).loss_estimator == old(self).loss_estimator,
            final(self).adaptive_fec_encoder == old(self).adaptive_fec_encoder,
            final(self).pacer == old(self).pacer,
    {
        if self.srtt == 0 {
            self.srtt = measured_rtt_ms;
            self.rttvar = measured_rtt_ms / 2;
        } else {
            let srtt_now = self.srtt;
            let rttvar_now = self.rttvar;
            let diff: u64 = if measured_rtt_ms >= srtt_now {
                measured_rtt_ms - srtt_now
            } else {
                srtt_now - measured_rtt_ms
            };
            let var_wide: u128 = (3u128 * (rttvar_now as u128) + (diff as u128)) / 4;
            assert(var_wide <= 0xFFFF_FFFF_FFFF_FFFFu128) by (nonlinear_arith)
                requires
                    var_wide == (3 * (rttvar_now as int) + diff) / 4,
                    rttvar_now <= 0xFFFF_FFFF_FFFF_FFFFu64,
                    diff <= 0xFFFF_FFFF_FFFF_FFFFu64,
            ;
            let srtt_wide: u128 = (7u128 * (srtt_now as u128) + (measured_rtt_ms as u128)) / 8;
            assert(srtt_wide <= 0xFFFF_FFFF_FFFF_FFFFu128) by (nonlinear_arith)
                requires
                    srtt_wide == (7 * (srtt_now as int) + measured_rtt_ms) / 8,
                    srtt_now <= 0xFFFF_FFFF_FFFF_FFFFu64,
                    measured_rtt_ms <= 0xFFFF_FFFF_FFFF_FFFFu64,
            ;
            self.rttvar = var_wide as u64;
            self.srtt = srtt_wide as u64;
        }
        let slack: u128 = if 4u128 * (self.rttvar as u128) > 10 {
            4u128 * (self.rttvar as u128)
        } else {
            10
        };
        let raw: u128 = (self.srtt as u128) + slack;
        self.rto = if raw < (MIN_RTO_MS as u128) {
            MIN_RTO_MS
        } else if raw > (MAX_RTO_MS as u128) {
            MAX_RTO_MS
        } else {
            raw as u64
        };
    }

    /// Keep-alive tick: mint a liveness probe stamped `now_ms`,
    /// remember it, and hand back the datagram to send.
    pub fn on_keep_alive_tick(&mut self, now_ms: u64) -> (r: Vec<u8>)
        requires
            old(self).wf(),
        ensures
            final(self).wf(),
            r@ == spec_serialize(
                PacketView::Ping(ProbeView { timestamp: now_ms, data: Seq::empty() }),
            ),
            final(self).send_pings@.dom() == old(self).send_pings@.dom().insert(now_ms),
            forall|k: u64|
                final(self).send_pings@.dom().contains(k) && k != now_ms
                    ==> final(self).send_pings@[k] == old(self).send_pings@[k],
            final(self).send_pings@[now_ms]@ == (ProbeView {
                timestamp: now_ms,
                data: Seq::empty(),
            }),
            final(self).send_pings@[now_ms].timestamp == now_ms,
            final(self).streams == old(self).streams,
            final(self).send_packets == old(self).send_packets,
            final(self).received_packets == old(self).received_packets,
            final(self).in_seq == old(self).in_seq,
            final(self).out_seq == old(self).out_seq,
            final(self).nacks == old(self).nacks,
            final(self).nack_responses == old(self).nack_responses,
            final(self).next_frame_id == old(self).next_frame_id,
            final(self).failed_pings == old(self).failed_pings,
            final(self).srtt == old(self).srtt,
            final(self).rttvar == old(self).rttvar,
            final(self).rto == old(self).rto,
            final(self).loss_estimator == old(self).loss_estimator,
            final(self).adaptive_fec_encoder == old(self).adaptive_fec_encoder,
            final(self).pacer == old(self).pacer,
    {
        let ping = PingBody { timestamp: now_ms, data: Vec::new() };
        let encoded = PacketSerializer::serialize(&Packet::Ping(ping));
        proof {
            assert(ping@.data =~= Seq::<u8>::empty());
        }
        self.send_pings.insert(now_ms, PingBody { timestamp: now_ms, data: Vec::new() });
        proof {
            assert(self.send_pings@.dom() =~= old(self).send_pings@.dom().insert(now_ms));
            assert(self.send_pings@[now_ms]@.data =~= Seq::<u8>::empty());
        }
        encoded
    }

    /// Ping-check tick: expire probes older than
    /// [`PONG_TIMEOUT_MS`], count them against liveness, and say
    /// whether the connection should be closed.
    pub fn on_check_pings_tick(&mut self, now_ms: u64) -> (close: bool)
        requires
            old(self).wf(),
        ensures
            final(self).wf(),
            forall|k: u64|
                final(self).send_pings@.dom().contains(k)
                    <==> old(self).send_pings@.dom().contains(k)
                    && old(self).send_pings@[k].stamp_spec() >= ping_cutoff(now_ms),
            forall|k: u64|
                final(self).send_pings@.dom().contains(k)
                    ==> final(self).send_pings@[k] == old(self).send_pings@[k],
            ({
                let expired = old(self).send_pings@.dom().len()
                    - final(self).send_pings@.dom().len();
                if old(self).failed_pings + expired <= usize::MAX {
                    final(self).failed_pings == old(self).failed_pings + expired
                } else {
                    final(self).failed_pings == usize::MAX
                }
            }),
            close == (final(self).failed_pings > MAX_MISSED_PONGS),
            final(self).streams == old(self).streams,
            final(self).send_packets == old(self).send_packets,
            final(self).received_packets == old(self).received_packets,
            final(self).in_seq == old(self).in_seq,
            final(self).out_seq == old(self).out_seq,
            final(self).nacks == old(self).nacks,
            final(self).nack_responses == old(self).nack_responses,
            final(self).next_frame_id == old(self).next_frame_id,
            final(self).srtt == old(self).srtt,
            final(self).rttvar == old(self).rttvar,
            final(self).rto == old(self).rto,
            final(self).loss_estimator == old(self).loss_estimator,
            final(self).adaptive_fec_encoder == old(self).adaptive_fec_encoder,
            final(self).pacer == old(self).pacer,
    {
        let initial_count = self.send_pings.len();
        let cutoff = ping_cutoff_exec(now_ms);
        self.send_pings.prune_older(cutoff);
        let remaining = self.send_pings.len();
        let timeouts = initial_count - remaining;
        self.failed_pings = self.failed_pings.saturating_add(timeouts);
        self.failed_pings > MAX_MISSED_PONGS
    }

    /// Pacing tick: drain this tick's byte budget from the queue
    /// and hand the datagrams back to send.
    pub fn on_pacing_tick(&mut self) -> (r: Vec<Vec<u8>>)
        requires
            old(self).wf(),
        ensures
            final(self).wf(),
            r@.len() <= old(self).pacer@.queue.len(),
            r@.map_values(|d: Vec<u8>| d@) == old(self).pacer@.queue.take(r@.len() as int),
            final(self).pacer@.queue == old(self).pacer@.queue.skip(r@.len() as int),
            crate::pacing::total_bytes(old(self).pacer@.queue.take(r@.len() as int))
                <= crate::pacing::spec_budget(
                crate::pacing::total_bytes(old(self).pacer@.queue),
                old(self).loss_estimator@.smoothed,
            ),
            final(self).streams == old(self).streams,
            final(self).send_packets == old(self).send_packets,
            final(self).received_packets == old(self).received_packets,
            final(self).in_seq == old(self).in_seq,
            final(self).out_seq == old(self).out_seq,
            final(self).nacks == old(self).nacks,
            final(self).nack_responses == old(self).nack_responses,
            final(self).next_frame_id == old(self).next_frame_id,
            final(self).send_pings == old(self).send_pings,
            final(self).failed_pings == old(self).failed_pings,
            final(self).srtt == old(self).srtt,
            final(self).rttvar == old(self).rttvar,
            final(self).rto == old(self).rto,
            final(self).loss_estimator == old(self).loss_estimator,
            final(self).adaptive_fec_encoder == old(self).adaptive_fec_encoder,
    {
        self.pacer.drain(&self.loss_estimator)
    }
}

/// The loss window after the fragments `base .. base + n` are all
/// recorded as sent at `now_ms`, in order.
pub open spec fn loss_after_sends(l: LossView, base: u64, n: int, now_ms: u64) -> LossView
    decreases n,
{
    if n <= 0 {
        l
    } else {
        smoothed_after(
            pruned(
                with_sent(
                    loss_after_sends(l, base, n - 1, now_ms),
                    base.wrapping_add((n - 1) as u64),
                    now_ms,
                ),
                now_ms,
            ),
        )
    }
}

/// The parity packets a datagram queue carries, in queue order:
/// every datagram that parses as a parity packet, as parsed.
pub open spec fn parsed_fecs(q: Seq<Seq<u8>>) -> Seq<FecView>
    decreases q.len(),
{
    if q.len() == 0 {
        Seq::empty()
    } else {
        parsed_fecs(q.drop_last()) + (match spec_deserialize(q.last()) {
            Some(PacketView::Fec(f)) => seq![f],
            _ => Seq::empty(),
        })
    }
}

/// The protection encoder after the fragments `base .. base + n` of
/// `m` have been fed to it, each under the group size the loss
/// window of that moment calls for.
pub open spec fn enc_after_sends(
    enc0: FecEncoderView,
    m: Seq<u8>,
    frame_id: u64,
    base: u64,
    now_ms: u64,
    srtt: u64,
    loss0: LossView,
    n: int,
) -> FecEncoderView
    decreases n,
{
    if n <= 0 {
        enc0
    } else {
        let prev = enc_after_sends(enc0, m, frame_id, base, now_ms, srtt, loss0, n - 1);
        let gs = chosen_group_size(srtt, loss_after_sends(loss0, base, n, now_ms).smoothed);
        let pushed = pushed_slots(prev, fragment_rtp(m, n - 1, frame_id, base, now_ms));
        FecEncoderView {
            slots: swept_slots(pushed, gs),
            current_slot: (prev.current_slot + 1) % prev.interleave_depth,
            group_size: gs,
            interleave_depth: prev.interleave_depth,
        }
    }
}

/// The parity packets the encoder emits while the fragments
/// `base .. base + n` of `m` are fed to it, in order.
pub open spec fn parities_after_sends(
    enc0: FecEncoderView,
    m: Seq<u8>,
    frame_id: u64,
    base: u64,
    now_ms: u64,
    srtt: u64,
    loss0: LossView,
    n: int,
) -> Seq<FecView>
    decreases n,
{
    if n <= 0 {
        Seq::empty()
    } else {
        let prev = enc_after_sends(enc0, m, frame_id, base, now_ms, srtt, loss0, n - 1);
        let gs = chosen_group_size(srtt, loss_after_sends(loss0, base, n, now_ms).smoothed);
        let pushed = pushed_slots(prev, fragment_rtp(m, n - 1, frame_id, base, now_ms));
        parities_after_sends(enc0, m, frame_id, base, now_ms, srtt, loss0, n - 1)
            + swept_parities(pushed, gs)
    }
}

/// Feeding fragments never changes the encoder's lane count.
proof fn lemma_enc_after_depth(
    enc0: FecEncoderView,
    m: Seq<u8>,
    frame_id: u64,
    base: u64,
    now_ms: u64,
    srtt: u64,
    loss0: LossView,
    n: int,
)
    ensures
        enc_after_sends(enc0, m, frame_id, base, now_ms, srtt, loss0, n).interleave_depth
            == enc0.interleave_depth,
    decreases n,
{
    if n > 0 {
        lemma_enc_after_depth(enc0, m, frame_id, base, now_ms, srtt, loss0, n - 1);
    }
}

/// Queuing a datagram that parses as a parity packet appends exactly
/// that packet to the queue's parity reading.
proof fn lemma_parsed_fecs_push_fec(q: Seq<Seq<u8>>, d: Seq<u8>, f: FecView)
    requires
        spec_deserialize(d) == Some(PacketView::Fec(f)),
    ensures
        parsed_fecs(q.push(d)) == parsed_fecs(q).push(f),
{
    assert(q.push(d).drop_last() =~= q);
    assert(parsed_fecs(q.push(d)) =~= parsed_fecs(q).push(f));
}

/// Queuing a datagram that does not parse as a parity packet leaves
/// the queue's parity reading alone.
proof fn lemma_parsed_fecs_push_other(q: Seq<Seq<u8>>, d: Seq<u8>)
    requires
        match spec_deserialize(d) {
            Some(PacketView::Fec(_)) => false,
            _ => true,
        },
    ensures
        parsed_fecs(q.push(d)) == parsed_fecs(q),
{
    assert(q.push(d).drop_last() =~= q);
    assert(parsed_fecs(q.push(d)) =~= parsed_fecs(q));
}

impl ConnectionRunner {
    /// Fragment one application message: mint a frame id, split the
    /// bytes into [`MAX_FRAGMENT_SIZE`] chunks under contiguous
    /// sequence numbers, cache each fragment for retransmission,
    /// record it as sent, queue it for pacing, and queue whatever
    /// parity packets the protection encoder produces — flushing the
    /// encoder after the last fragment so short messages are
    /// protected too.
    ///
    /// Sequence monotonicity: the fragment datagrams joining the
    /// pacer queue carry exactly the sequence numbers
    /// `out_seq .. out_seq + fragment_count`, contiguous and in
    /// increasing order, and `out_seq` advances by exactly that
    /// count.
    #[verifier::rlimit(100)]
    pub fn fragment_and_send_data(&mut self, data: &Vec<u8>, now_ms: u64)
        requires
            old(self).wf(),
            fragment_count(data@.len() as int) <= u16::MAX,
        ensures
            final(self).wf(),
            final(self).next_frame_id == old(self).next_frame_id.wrapping_add(1),
            final(self).out_seq == old(self).out_seq.wrapping_add(
                fragment_count(data@.len() as int) as u64,
            ),
            final(self).pacer@.queue.len() >= old(self).pacer@.queue.len(),
            final(self).pacer@.queue.take(old(self).pacer@.queue.len() as int) == old(
                self,
            ).pacer@.queue,
            parsed_rtps(final(self).pacer@.queue.skip(old(self).pacer@.queue.len() as int))
                == Seq::new(
                fragment_count(data@.len() as int) as nat,
                |i: int|
                    fragment_rtp(data@, i, old(self).next_frame_id, old(self).out_seq, now_ms),
            ),
            forall|j: int|
                old(self).pacer@.queue.len() <= j < final(self).pacer@.queue.len()
                    ==> (match #[trigger] spec_deserialize(final(self).pacer@.queue[j]) {
                    Some(PacketView::Rtp(_)) => true,
                    Some(PacketView::Fec(_)) => true,
                    _ => false,
                }),
            parsed_fecs(final(self).pacer@.queue.skip(old(self).pacer@.queue.len() as int))
                == parities_after_sends(
                old(self).adaptive_fec_encoder@,
                data@,
                old(self).next_frame_id,
                old(self).out_seq,
                now_ms,
                old(self).srtt,
                old(self).loss_estimator@,
                fragment_count(data@.len() as int),
            ) + crate::fec::flushed_parities(
                enc_after_sends(
                    old(self).adaptive_fec_encoder@,
                    data@,
                    old(self).next_frame_id,
                    old(self).out_seq,
                    now_ms,
                    old(self).srtt,
                    old(self).loss_estimator@,
                    fragment_count(data@.len() as int),
                ).slots,
            ),
            final(self).adaptive_fec_encoder@.interleave_depth == old(
                self,
            ).adaptive_fec_encoder@.interleave_depth,
            final(self).adaptive_fec_encoder@.current_slot == 0,
            final(self).adaptive_fec_encoder@.group_size == enc_after_sends(
                old(self).adaptive_fec_encoder@,
                data@,
                old(self).next_frame_id,
                old(self).out_seq,
                now_ms,
                old(self).srtt,
                old(self).loss_estimator@,
                fragment_count(data@.len() as int),
            ).group_size,
            forall|t: int|
                0 <= t < final(self).adaptive_fec_encoder@.slots.len()
                    ==> (#[trigger] final(self).adaptive_fec_encoder@.slots[t]).len() == 0,
            final(self).loss_estimator@ == loss_after_sends(
                old(self).loss_estimator@,
                old(self).out_seq,
                fragment_count(data@.len() as int),
                now_ms,
            ),
            old(self).send_packets@.dom().len() + fragment_count(data@.len() as int)
                <= MAX_PACKETS ==> forall|i: int|
                0 <= i < fragment_count(data@.len() as int)
                    ==> final(self).send_packets@.dom().contains(
                    #[trigger] old(self).out_seq.wrapping_add(i as u64),
                ) && final(self).send_packets@[old(self).out_seq.wrapping_add(i as u64)]@
                    == fragment_rtp(data@, i, old(self).next_frame_id, old(self).out_seq, now_ms),
            final(self).streams == old(self).streams,
            final(self).received_packets == old(self).received_packets,
            final(self).in_seq == old(self).in_seq,
            final(self).nacks == old(self).nacks,
            final(self).nack_responses == old(self).nack_responses,
            final(self).send_pings == old(self).send_pings,
            final(self).failed_pings == old(self).failed_pings,
            final(self).srtt == old(self).srtt,
            final(self).rttvar == old(self).rttvar,
            final(self).rto == old(self).rto,
    {
        let len = data.len();
        let count: usize = if len == 0 {
            0
        } else {
            (len - 1) / MAX_FRAGMENT_SIZE + 1
        };
        assert(count == fragment_count(data@.len() as int));
        let frame_id = self.next_frame_id;
        self.next_frame_id = self.next_frame_id.wrapping_add(1);
        let ghost base = self.out_seq;
        let ghost q0 = self.pacer@.queue;
        let ghost cache0 = self.send_packets@;
        let ghost loss0 = self.loss_estimator@;
        let ghost enc0 = self.adaptive_fec_encoder@;
        let ghost srtt0 = self.srtt;
        let total_fragments = count as u16;
        let mut i: usize = 0;
        while i < count
            invariant
                i <= count,
                len == data@.len(),
                count == fragment_count(data@.len() as int),
                count <= u16::MAX,
                total_fragments == count as u16,
                self.wf(),
                self.out_seq == base.wrapping_add(i as u64),
                self.next_frame_id == old(self).next_frame_id.wrapping_add(1),
                frame_id == old(self).next_frame_id,
                base == old(self).out_seq,
                q0 == old(self).pacer@.queue,
                cache0 == old(self).send_packets@,
                loss0 == old(self).loss_estimator@,
                self.pacer@.queue.len() >= q0.len(),
                self.pacer@.queue.take(q0.len() as int) == q0,
                parsed_rtps(self.pacer@.queue.skip(q0.len() as int)) == Seq::new(
                    i as nat,
                    |t: int| fragment_rtp(data@, t, frame_id, base, now_ms),
                ),
                forall|j: int|
                    q0.len() <= j < self.pacer@.queue.len()
                        ==> (match #[trigger] spec_deserialize(self.pacer@.queue[j]) {
                        Some(PacketView::Rtp(_)) => true,
                        Some(PacketView::Fec(_)) => true,
                        _ => false,
                    }),
                enc0 == old(self).adaptive_fec_encoder@,
                srtt0 == old(self).srtt,
                self.adaptive_fec_encoder@ == enc_after_sends(
                    enc0,
                    data@,
                    frame_id,
                    base,
                    now_ms,
                    srtt0,
                    loss0,
                    i as int,
                ),
                parsed_fecs(self.pacer@.queue.skip(q0.len() as int)) == parities_after_sends(
                    enc0,
                    data@,
                    frame_id,
                    base,
                    now_ms,
                    srtt0,
                    loss0,
                    i as int,
                ),
                self.loss_estimator@ == loss_after_sends(loss0, base, i as int, now_ms),
                cache0.dom().len() + count <= MAX_PACKETS ==> {
                    &&& self.send_packets@.dom().len() <= cache0.dom().len() + i
                    &&& forall|t: int|
                        0 <= t < i ==> self.send_packets@.dom().contains(
                            #[trigger] base.wrapping_add(t as u64),
                        ) && self.send_packets@[base.wrapping_add(t as u64)]@ == fragment_rtp(
                            data@,
                            t,
                            frame_id,
                            base,
                            now_ms,
                        )
                },
                self.streams == old(self).streams,
                self.received_packets == old(self).received_packets,
                self.in_seq == old(self).in_seq,
                self.nacks == old(self).nacks,
                self.nack_responses == old(self).nack_responses,
                self.send_pings == old(self).send_pings,
                self.failed_pings == old(self).failed_pings,
                self.srtt == old(self).srtt,
                self.rttvar == old(self).rttvar,
                self.rto == old(self).rto,
            decreases count - i,
        {
            proof {
                assert(data@.len() >= 1) by {
                    if data@.len() == 0 {
                        assert(fragment_count(0) == 0);
                    }
                }
                lemma_fragment_bounds(data@.len() as int, i as int);
            }
            let from = i * MAX_FRAGMENT_SIZE;
            let to = if from + MAX_FRAGMENT_SIZE <= len {
                from + MAX_FRAGMENT_SIZE
            } else {
                len
            };
            let chunk = crate::packet::copy_range(data.as_slice(), from, to);
            proof {
                assert(chunk@ =~= fragment_data(data@, i as int));
            }
            let sequence_number = self.out_seq;
            self.out_seq = self.out_seq.wrapping_add(1);
            let rtp_packet = RtpBody {
                timestamp: now_ms,
                sequence_number,
                frame_id,
                fragment_number: i as u16,
                total_fragments,
                data: chunk,
            };
            assert(rtp_packet@ == fragment_rtp(data@, i as int, frame_id, base, now_ms));
            let encoded = PacketSerializer::serialize(&Packet::Rtp(crate::packet::clone_rtp(
                &rtp_packet,
            )));
            let ghost cache_pre = self.send_packets@;
            if self.send_packets.len() < MAX_PACKETS {
                proof {
                    self.send_packets.finite_dom();
                }
                self.send_packets.insert(
                    sequence_number,
                    crate::packet::clone_rtp(&rtp_packet),
                );
            }
            proof {
                if cache0.dom().len() + count <= MAX_PACKETS {
                    assert(cache_pre.dom().len() <= cache0.dom().len() + i);
                    assert(self.send_packets@ == cache_pre.insert(
                        sequence_number,
                        self.send_packets@[sequence_number],
                    ));
                    assert(self.send_packets@.dom() =~= cache_pre.dom().insert(
                        sequence_number,
                    ));
                    assert(self.send_packets@.dom().len() <= cache_pre.dom().len() + 1);
                    assert forall|t: int|
                        0 <= t < i + 1 implies self.send_packets@.dom().contains(
                        #[trigger] base.wrapping_add(t as u64),
                    ) && self.send_packets@[base.wrapping_add(t as u64)]@ == fragment_rtp(
                        data@,
                        t,
                        frame_id,
                        base,
                        now_ms,
                    ) by {
                        if t < i {
                            lemma_wrap_distinct(base, t, i as int);
                        }
                    }
                }
            }
            self.loss_estimator.record_packet_sent(sequence_number, now_ms);
            let ghost q_before = self.pacer@.queue;
            self.pacer.enqueue(encoded);
            proof {
                crate::packet::lemma_codec_round_trip(
                    PacketView::Rtp(fragment_rtp(data@, i as int, frame_id, base, now_ms)),
                );
                lemma_parsed_rtps_push_rtp(
                    q_before.skip(q0.len() as int),
                    encoded@,
                    fragment_rtp(data@, i as int, frame_id, base, now_ms),
                );
                lemma_parsed_fecs_push_other(q_before.skip(q0.len() as int), encoded@);
                assert(self.pacer@.queue.take(q0.len() as int) =~= q0);
                assert(self.pacer@.queue.skip(q0.len() as int) =~= q_before.skip(
                    q0.len() as int,
                ).push(encoded@));
                assert(parsed_rtps(self.pacer@.queue.skip(q0.len() as int)) =~= Seq::new(
                    (i + 1) as nat,
                    |t: int| fragment_rtp(data@, t, frame_id, base, now_ms),
                ));
            }
            let ghost rv = rtp_packet@;
            let ghost enc_before = self.adaptive_fec_encoder@;
            let fecs = self.adaptive_fec_encoder.process_packet(
                rtp_packet,
                &self.loss_estimator,
                self.srtt,
            );
            proof {
                let pushed = pushed_slots(enc_before, rv);
                let gs = self.adaptive_fec_encoder@.group_size;
                assert(forall|t: int|
                    0 <= t < pushed.len() ==> (#[trigger] pushed[t]).len() <= 4);
                crate::fec::lemma_swept_parities_wf(pushed, gs, 4);
                assert forall|t: int| 0 <= t < fecs@.len() implies (
                #[trigger] fecs@[t])@.protected_packets.len() <= 255 by {
                    assert(fec_views(fecs@)[t] == fecs@[t]@);
                    assert(fec_views(fecs@)[t].protected_packets.len() <= 4);
                }
            }
            proof {
                let stepped = enc_after_sends(
                    enc0,
                    data@,
                    frame_id,
                    base,
                    now_ms,
                    srtt0,
                    loss0,
                    i + 1,
                );
                let gs = chosen_group_size(
                    srtt0,
                    loss_after_sends(loss0, base, i + 1, now_ms).smoothed,
                );
                assert(self.adaptive_fec_encoder@.slots == stepped.slots);
                assert(self.adaptive_fec_encoder@.current_slot == stepped.current_slot);
                assert(self.adaptive_fec_encoder@.group_size == stepped.group_size);
                assert(self.adaptive_fec_encoder@.interleave_depth == stepped.interleave_depth);
                assert(self.adaptive_fec_encoder@ == stepped);
                assert(fec_views(fecs@) == swept_parities(pushed_slots(enc_before, rv), gs));
            }
            self.enqueue_fec_packets(fecs, Ghost(q0.len() as int));
            proof {
                assert(parsed_fecs(self.pacer@.queue.skip(q0.len() as int))
                    == parities_after_sends(
                    enc0,
                    data@,
                    frame_id,
                    base,
                    now_ms,
                    srtt0,
                    loss0,
                    i + 1,
                ));
                lemma_wrap_chain(base, i as int);
            }
            i = i + 1;
        }
        let ghost slots_before = self.adaptive_fec_encoder@.slots;
        let ghost enc_done = enc_after_sends(
            enc0,
            data@,
            frame_id,
            base,
            now_ms,
            srtt0,
            loss0,
            count as int,
        );
        let fecs = self.adaptive_fec_encoder.flush();
        proof {
            lemma_enc_after_depth(
                enc0,
                data@,
                frame_id,
                base,
                now_ms,
                srtt0,
                loss0,
                count as int,
            );
            assert(slots_before == enc_done.slots);
            assert(forall|t: int|
                0 <= t < slots_before.len() ==> (#[trigger] slots_before[t]).len() <= 4);
            crate::fec::lemma_flushed_parities_wf(slots_before, 4);
            assert forall|t: int| 0 <= t < fecs@.len() implies (
            #[trigger] fecs@[t])@.protected_packets.len() <= 255 by {
                assert(fec_views(fecs@)[t] == fecs@[t]@);
                assert(fec_views(fecs@)[t].protected_packets.len() <= 4);
            }
        }
        self.enqueue_fec_packets(fecs, Ghost(q0.len() as int));
    }

    /// Serialize and queue a batch of parity packets; fragments
    /// already queued stay as they are and no new fragment datagrams
    /// appear.
    fn enqueue_fec_packets(&mut self, fecs: Vec<crate::packet::FecBody>, base_len: Ghost<int>)
        requires
            old(self).wf(),
            forall|j: int|
                0 <= j < fecs@.len() ==> (#[trigger] fecs@[j])@.protected_packets.len() <= 255,
            0 <= base_len@ <= old(self).pacer@.queue.len(),
        ensures
            final(self).wf(),
            final(self).pacer@.queue.len() >= old(self).pacer@.queue.len(),
            final(self).pacer@.queue.take(old(self).pacer@.queue.len() as int) == old(
                self,
            ).pacer@.queue,
            forall|j: int|
                0 <= j < old(self).pacer@.queue.len() ==> #[trigger] final(self).pacer@.queue[j]
                    == old(self).pacer@.queue[j],
            final(self).pacer@.queue.take(base_len@) == old(self).pacer@.queue.take(base_len@),
            parsed_rtps(final(self).pacer@.queue.skip(base_len@)) == parsed_rtps(
                old(self).pacer@.queue.skip(base_len@),
            ),
            parsed_fecs(final(self).pacer@.queue.skip(base_len@)) == parsed_fecs(
                old(self).pacer@.queue.skip(base_len@),
            ) + fec_views(fecs@),
            forall|j: int|
                old(self).pacer@.queue.len() <= j < final(self).pacer@.queue.len()
                    ==> (match #[trigger] spec_deserialize(final(self).pacer@.queue[j]) {
                    Some(PacketView::Rtp(_)) => true,
                    Some(PacketView::Fec(_)) => true,
                    _ => false,
                }),
            final(self).streams == old(self).streams,
            final(self).send_packets == old(self).send_packets,
            final(self).received_packets == old(self).received_packets,
            final(self).in_seq == old(self).in_seq,
            final(self).out_seq == old(self).out_seq,
            final(self).nacks == old(self).nacks,
            final(self).nack_responses == old(self).nack_responses,
            final(self).next_frame_id == old(self).next_frame_id,
            final(self).send_pings == old(self).send_pings,
            final(self).failed_pings == old(self).failed_pings,
            final(self).srtt == old(self).srtt,
            final(self).rttvar == old(self).rttvar,
            final(self).rto == old(self).rto,
            final(self).loss_estimator == old(self).loss_estimator,
            final(self).adaptive_fec_encoder == old(self).adaptive_fec_encoder,
    {
        let mut rest = fecs;
        proof {
            assert(rest@ =~= fecs@.skip(0));
            assert(fec_views(fecs@).take(0) =~= Seq::<FecView>::empty());
            assert(parsed_fecs(self.pacer@.queue.skip(base_len@)) + Seq::<FecView>::empty()
                =~= parsed_fecs(self.pacer@.queue.skip(base_len@)));
        }
        while rest.len() > 0
            invariant
                self.wf(),
                0 <= base_len@ <= old(self).pacer@.queue.len(),
                forall|t: int|
                    0 <= t < rest@.len() ==> (#[trigger] rest@[t])@.protected_packets.len()
                        <= 255,
                self.pacer@.queue.len() >= old(self).pacer@.queue.len(),
                self.pacer@.queue.take(old(self).pacer@.queue.len() as int) == old(
                    self,
                ).pacer@.queue,
                forall|t: int|
                    0 <= t < old(self).pacer@.queue.len() ==> #[trigger] self.pacer@.queue[t]
                        == old(self).pacer@.queue[t],
                parsed_rtps(self.pacer@.queue.skip(base_len@)) == parsed_rtps(
                    old(self).pacer@.queue.skip(base_len@),
                ),
                rest@.len() <= fecs@.len(),
                rest@ == fecs@.skip(fecs@.len() - rest@.len()),
                parsed_fecs(self.pacer@.queue.skip(base_len@)) == parsed_fecs(
                    old(self).pacer@.queue.skip(base_len@),
                ) + fec_views(fecs@).take(fecs@.len() - rest@.len()),
                forall|t: int|
                    old(self).pacer@.queue.len() <= t < self.pacer@.queue.len()
                        ==> (match #[trigger] spec_deserialize(self.pacer@.queue[t]) {
                        Some(PacketView::Rtp(_)) => true,
                        Some(PacketView::Fec(_)) => true,
                        _ => false,
                    }),
                self.streams == old(self).streams,
                self.send_packets == old(self).send_packets,
                self.received_packets == old(self).received_packets,
                self.in_seq == old(self).in_seq,
                self.out_seq == old(self).out_seq,
                self.nacks == old(self).nacks,
                self.nack_responses == old(self).nack_responses,
                self.next_frame_id == old(self).next_frame_id,
                self.send_pings == old(self).send_pings,
                self.failed_pings == old(self).failed_pings,
                self.srtt == old(self).srtt,
                self.rttvar == old(self).rttvar,
                self.rto == old(self).rto,
                self.loss_estimator == old(self).loss_estimator,
                self.adaptive_fec_encoder == old(self).adaptive_fec_encoder,
            decreases rest@.len(),
        {
            let ghost done = fecs@.len() - rest@.len();
            let ghost rest_before = rest@;
            let fec = rest.remove(0);
            proof {
                assert(fec == fecs@[done]);
                assert(rest@ =~= fecs@.skip(done + 1));
            }
            assert(fec@.protected_packets.len() <= 255);
            let packet = Packet::Fec(fec);
            let ghost pv = packet@;
            let encoded = PacketSerializer::serialize(&packet);
            let ghost q_before = self.pacer@.queue;
            self.pacer.enqueue(encoded);
            proof {
                crate::packet::lemma_codec_round_trip(pv);
                lemma_parsed_rtps_push_other(q_before.skip(base_len@), encoded@);
                lemma_parsed_fecs_push_fec(
                    q_before.skip(base_len@),
                    encoded@,
                    fecs@[done]@,
                );
                assert(self.pacer@.queue.take(old(self).pacer@.queue.len() as int) =~= old(
                    self,
                ).pacer@.queue);
                assert(self.pacer@.queue.take(base_len@) =~= old(self).pacer@.queue.take(
                    base_len@,
                ));
                assert(self.pacer@.queue.skip(base_len@) =~= q_before.skip(base_len@).push(
                    encoded@,
                ));
                assert(fec_views(fecs@)[done] == fecs@[done]@);
                assert(fec_views(fecs@).take(done + 1) =~= fec_views(fecs@).take(done).push(
                    fecs@[done]@,
                ));
            }
        }
        proof {
            assert forall|j: int| 0 <= j < old(self).pacer@.queue.len() implies #[trigger] self
                .pacer@.queue[j] == old(self).pacer@.queue[j] by {
                assert(self.pacer@.queue.take(old(self).pacer@.queue.len() as int)[j]
                    == self.pacer@.queue[j]);
            }
            assert(fec_views(fecs@).take(fecs@.len() as int) =~= fec_views(fecs@));
        }
    }
}

/// Where fragment `i` of an `n`-byte message starts and ends.
proof fn lemma_fragment_bounds(n: int, i: int)
    requires
        1 <= n,
        0 <= i < fragment_count(n),
    ensures
        (i + 1) * (MAX_FRAGMENT_SIZE as int) == i * (MAX_FRAGMENT_SIZE as int)
            + MAX_FRAGMENT_SIZE,
        0 <= i * (MAX_FRAGMENT_SIZE as int),
        i * (MAX_FRAGMENT_SIZE as int) < n,
        fragment_count(n) * (MAX_FRAGMENT_SIZE as int) >= n,
        fragment_count(n) <= u16::MAX ==> i * (MAX_FRAGMENT_SIZE as int) + MAX_FRAGMENT_SIZE
            <= 66_000_000,
{
    let d = MAX_FRAGMENT_SIZE as int;
    let m = n + d - 1;
    let count = fragment_count(n);
    vstd::arithmetic::div_mod::lemma_fundamental_div_mod(m, d);
    vstd::arithmetic::div_mod::lemma_mod_bound(m, d);
    assert(d * count == m - m % d);
    assert(d * count >= n);
    assert(d * count <= m);
    vstd::arithmetic::mul::lemma_mul_inequality(i, count - 1, d);
    assert(i * d <= (count - 1) * d);
    assert((count - 1) * d == count * d - d) by (nonlinear_arith);
    assert(count * d == d * count) by (nonlinear_arith);
    assert(i * d < n);
    vstd::arithmetic::mul::lemma_mul_inequality(0, i, d);
    assert((i + 1) * d == i * d + d) by (nonlinear_arith);
    if count <= u16::MAX {
        vstd::arithmetic::mul::lemma_mul_inequality(i, 0xFFFF, d);
    }
}

/// Queuing a datagram that parses as a fragment appends exactly
/// that fragment to the queue's fragment reading.
proof fn lemma_parsed_rtps_push_rtp(q: Seq<Seq<u8>>, d: Seq<u8>, r: RtpView)
    requires
        spec_deserialize(d) == Some(PacketView::Rtp(r)),
    ensures
        parsed_rtps(q.push(d)) == parsed_rtps(q).push(r),
{
    assert(q.push(d).drop_last() =~= q);
    assert(parsed_rtps(q.push(d)) =~= parsed_rtps(q).push(r));
}

/// Queuing a datagram that does not parse as a fragment leaves the
/// queue's fragment reading alone.
proof fn lemma_parsed_rtps_push_other(q: Seq<Seq<u8>>, d: Seq<u8>)
    requires
        match spec_deserialize(d) {
            Some(PacketView::Rtp(_)) => false,
            _ => true,
        },
    ensures
        parsed_rtps(q.push(d)) == parsed_rtps(q),
{
    assert(q.push(d).drop_last() =~= q);
    assert(parsed_rtps(q.push(d)) =~= parsed_rtps(q));
}

/// Wrapping offsets below the modulus stay distinct.
proof fn lemma_wrap_distinct(base: u64, t: int, i: int)
    requires
        0 <= t < i < 0x10000,
    ensures
        base.wrapping_add(t as u64) != base.wrapping_add(i as u64),
{
}

/// Wrapping one more step equals wrapping the whole distance.
proof fn lemma_wrap_chain(base: u64, i: int)
    requires
        0 <= i < 0xFFFF_FFFF,
    ensures
        base.wrapping_add(i as u64).wrapping_add(1u64) == base.wrapping_add((i + 1) as u64),
{
}

/// The cooldown gate: a sequence may be answered again once no
/// answer in the last [`NACK_COOLDOWN_MS`] milliseconds stands.
pub open spec fn cooled(responses: Map<u64, u64>, sequence: u64, now_ms: u64) -> bool {
    !responses.dom().contains(sequence) || responses[sequence] + NACK_COOLDOWN_MS <= now_ms
}

/// The answer-cooldown map after answering, in order, every listed
/// sequence that is cached, cooled down, and not already answered
/// this instant.
pub open spec fn answered_cooldowns(
    responses: Map<u64, u64>,
    cache: Map<u64, RtpBody>,
    seqs: Seq<u64>,
    now_ms: u64,
) -> Map<u64, u64>
    decreases seqs.len(),
{
    if seqs.len() == 0 {
        responses
    } else {
        let prev = answered_cooldowns(responses, cache, seqs.drop_last(), now_ms);
        let s = seqs.last();
        if cooled(prev, s, now_ms) && cache.dom().contains(s) {
            prev.insert(s, now_ms)
        } else {
            prev
        }
    }
}

/// The retransmission datagrams a NACK provokes: the cached copy of
/// every listed sequence that is cached and cooled down, serialized,
/// in list order.
pub open spec fn answered_datagrams(
    responses: Map<u64, u64>,
    cache: Map<u64, RtpBody>,
    seqs: Seq<u64>,
    now_ms: u64,
) -> Seq<Seq<u8>>
    decreases seqs.len(),
{
    if seqs.len() == 0 {
        Seq::empty()
    } else {
        let prev = answered_cooldowns(responses, cache, seqs.drop_last(), now_ms);
        let before = answered_datagrams(responses, cache, seqs.drop_last(), now_ms);
        let s = seqs.last();
        if cooled(prev, s, now_ms) && cache.dom().contains(s) {
            before.push(spec_serialize(PacketView::Rtp(cache[s]@)))
        } else {
            before
        }
    }
}

/// The fragments already received out of those a parity packet
/// protects, in protection order.
pub open spec fn available_of(
    cache: Map<u64, RtpBody>,
    metas: Seq<crate::packet::ProtectedPacketMeta>,
) -> Seq<RtpView>
    decreases metas.len(),
{
    if metas.len() == 0 {
        Seq::empty()
    } else {
        available_of(cache, metas.drop_last()) + (if cache.dom().contains(
            metas.last().sequence_number,
        ) {
            seq![cache[metas.last().sequence_number]@]
        } else {
            Seq::empty()
        })
    }
}

/// What taking one pong does to a connection: a probe's echo folds
/// the measured round trip into the estimator, clears the liveness
/// debt and retires the probe; an unmatched pong changes nothing.
pub open spec fn pong_step(
    pre: ConnectionRunner,
    post: ConnectionRunner,
    probe: ProbeView,
    now_ms: u64,
) -> bool {
    let known = pre.send_pings@.dom().contains(probe.timestamp);
    let rtt = if now_ms >= probe.timestamp {
        (now_ms - probe.timestamp) as u64
    } else {
        0u64
    };
    &&& (if known {
        &&& post.srtt == next_srtt(pre.srtt, rtt)
        &&& post.rttvar == next_rttvar(pre.srtt, pre.rttvar, rtt)
        &&& post.rto == rto_of(post.srtt as int, post.rttvar as int)
        &&& post.failed_pings == 0
        &&& post.send_pings@ == pre.send_pings@.remove(probe.timestamp)
    } else {
        &&& post.srtt == pre.srtt
        &&& post.rttvar == pre.rttvar
        &&& post.rto == pre.rto
        &&& post.failed_pings == pre.failed_pings
        &&& post.send_pings@ == pre.send_pings@
    })
    &&& post.streams == pre.streams
    &&& post.send_packets == pre.send_packets
    &&& post.received_packets == pre.received_packets
    &&& post.in_seq == pre.in_seq
    &&& post.out_seq == pre.out_seq
    &&& post.nacks == pre.nacks
    &&& post.nack_responses == pre.nack_responses
    &&& post.next_frame_id == pre.next_frame_id
    &&& post.loss_estimator == pre.loss_estimator
    &&& post.adaptive_fec_encoder == pre.adaptive_fec_encoder
    &&& post.pacer == pre.pacer
}

/// What taking one gap report does to a connection: the listed
/// sequences are marked lost for the estimator, and each cached,
/// cooled-down one is queued again with its cooldown restarted.
pub open spec fn nack_step(
    pre: ConnectionRunner,
    post: ConnectionRunner,
    missing: Seq<u64>,
    now_ms: u64,
) -> bool {
    &&& post.loss_estimator@ == smoothed_after(
        with_nacks(pruned(pre.loss_estimator@, now_ms), missing),
    )
    &&& post.nack_responses@ == answered_cooldowns(
        pre.nack_responses@,
        pre.send_packets@,
        missing,
        now_ms,
    )
    &&& post.pacer@.queue == pre.pacer@.queue + answered_datagrams(
        pre.nack_responses@,
        pre.send_packets@,
        missing,
        now_ms,
    )
    &&& post.streams == pre.streams
    &&& post.send_packets == pre.send_packets
    &&& post.received_packets == pre.received_packets
    &&& post.in_seq == pre.in_seq
    &&& post.out_seq == pre.out_seq
    &&& post.nacks == pre.nacks
    &&& post.next_frame_id == pre.next_frame_id
    &&& post.send_pings == pre.send_pings
    &&& post.failed_pings == pre.failed_pings
    &&& post.srtt == pre.srtt
    &&& post.rttvar == pre.rttvar
    &&& post.rto == pre.rto
    &&& post.adaptive_fec_encoder == pre.adaptive_fec_encoder
}

/// What taking one media fragment does to a connection: refused
/// outright only on a full table or cache; otherwise filed in its
/// frame — delivering exactly when it completes a previously
/// incomplete frame — scrubbed from pending gap reports, cached,
/// and a leap past the expected sequence schedules a NACK and moves
/// the expectation.  A fragment its frame refuses for an
/// inconsistent total is still scrubbed, cached and gap-checked:
/// only the frame filing fails, since every inbound fragment drives
/// the gap machinery.
pub open spec fn rtp_step(
    pre: ConnectionRunner,
    post: ConnectionRunner,
    r: RtpView,
    delivered: Option<Vec<u8>>,
    now_ms: u64,
) -> bool {
    let refused = (pre.streams@.dom().len() >= MAX_FRAMES && !pre.streams@.dom().contains(
        r.frame_id,
    )) || pre.received_packets@.dom().len() >= MAX_PACKETS;
    let fb0 = if pre.streams@.dom().contains(r.frame_id) {
        pre.streams@[r.frame_id]@
    } else {
        fresh_frame(r.frame_id, r.total_fragments, now_ms)
    };
    let fits = r.total_fragments == fb0.expected_fragments;
    &&& (if refused {
        &&& post == pre
        &&& delivered is None
    } else {
        &&& post.streams@.dom() == pre.streams@.dom().insert(r.frame_id)
        &&& forall|k: u64|
            post.streams@.dom().contains(k) && k != r.frame_id ==> post.streams@[k]
                == pre.streams@[k]
        &&& (fits ==> post.streams@[r.frame_id]@.packets == slot_insert(
            fb0.packets,
            r.fragment_number,
            r,
        ))
        &&& (!fits ==> post.streams@[r.frame_id]@ == fb0)
        &&& post.streams@[r.frame_id]@.frame_id == fb0.frame_id
        &&& post.streams@[r.frame_id]@.expected_fragments == fb0.expected_fragments
        &&& post.streams@[r.frame_id]@.created_at == fb0.created_at
        &&& (match delivered {
            Some(m) => {
                &&& fits
                &&& !fb0.complete()
                &&& post.streams@[r.frame_id]@.complete()
                &&& m@ == concat_frags(post.streams@[r.frame_id]@.packets)
            },
            None => !(fits && !fb0.complete() && post.streams@[r.frame_id]@.complete()),
        })
        &&& post.received_packets@.dom() == pre.received_packets@.dom().insert(
            r.sequence_number,
        )
        &&& forall|k: u64|
            post.received_packets@.dom().contains(k) && k != r.sequence_number
                ==> post.received_packets@[k] == pre.received_packets@[k]
        &&& post.received_packets@[r.sequence_number]@ == r
        &&& (r.sequence_number > pre.in_seq ==> post.in_seq
            == r.sequence_number.wrapping_add(1))
        &&& (r.sequence_number == pre.in_seq ==> post.in_seq == pre.in_seq.wrapping_add(1))
        &&& (r.sequence_number < pre.in_seq ==> post.in_seq == pre.in_seq)
        &&& ({
            let scrubbed = scrubbed_nacks(nack_list_views(pre.nacks@), r.sequence_number);
            if r.sequence_number > pre.in_seq {
                let width = r.sequence_number - pre.in_seq;
                let missing = missing_in_range(
                    post.received_packets@,
                    pre.in_seq,
                    r.sequence_number,
                );
                if width > crate::nack::MAX_SEQUENCE_GAP || missing.len() == 0 {
                    nack_list_views(post.nacks@) == scrubbed
                } else {
                    &&& nack_list_views(post.nacks@).drop_last() == scrubbed
                    &&& nack_list_views(post.nacks@).len() == scrubbed.len() + 1
                    &&& nack_list_views(post.nacks@).last() == (PendingNackView {
                        missing_sequences: missing,
                        sent_at: now_ms,
                        created_at: now_ms,
                        retransmissions: 0,
                    })
                }
            } else {
                nack_list_views(post.nacks@) == scrubbed
            }
        })
    })
    &&& post.send_packets == pre.send_packets
    &&& post.out_seq == pre.out_seq
    &&& post.nack_responses == pre.nack_responses
    &&& post.next_frame_id == pre.next_frame_id
    &&& post.send_pings == pre.send_pings
    &&& post.failed_pings == pre.failed_pings
    &&& post.srtt == pre.srtt
    &&& post.rttvar == pre.rttvar
    &&& post.rto == pre.rto
    &&& post.loss_estimator == pre.loss_estimator
    &&& post.adaptive_fec_encoder == pre.adaptive_fec_encoder
    &&& post.pacer == pre.pacer
}

/// What taking one parity packet does to a connection: if exactly
/// one protected fragment is missing from the receive cache, the
/// recovered fragment is treated like an inbound one — filed,
/// delivering exactly when it completes a previously incomplete
/// frame, scrubbed and cached — but never triggers gap detection;
/// otherwise nothing changes.
pub open spec fn fec_step(
    pre: ConnectionRunner,
    post: ConnectionRunner,
    f: FecView,
    delivered: Option<Vec<u8>>,
    now_ms: u64,
) -> bool {
    let avail = available_of(pre.received_packets@, f.protected_packets);
    let rec = crate::fec::spec_recover(f, avail);
    &&& (match rec {
        None => post == pre && delivered is None,
        Some(p) => {
            &&& post.streams@.dom() == pre.streams@.dom().insert(p.frame_id)
            &&& forall|k: u64|
                post.streams@.dom().contains(k) && k != p.frame_id ==> post.streams@[k]
                    == pre.streams@[k]
            &&& post.received_packets@.dom() == pre.received_packets@.dom().insert(
                p.sequence_number,
            )
            &&& post.received_packets@[p.sequence_number]@ == p
            &&& forall|k: u64|
                post.received_packets@.dom().contains(k) && k != p.sequence_number
                    ==> post.received_packets@[k] == pre.received_packets@[k]
            &&& (match delivered {
                Some(m) => post.streams@[p.frame_id]@.complete() && m@ == concat_frags(
                    post.streams@[p.frame_id]@.packets,
                ),
                None => true,
            })
            &&& (delivered is Some ==> (pre.streams@.dom().contains(p.frame_id)
                ==> !pre.streams@[p.frame_id]@.complete()))
            &&& nack_list_views(post.nacks@) == scrubbed_nacks(
                nack_list_views(pre.nacks@),
                p.sequence_number,
            )
        },
    })
    &&& post.send_packets == pre.send_packets
    &&& post.in_seq == pre.in_seq
    &&& post.out_seq == pre.out_seq
    &&& post.nack_responses == pre.nack_responses
    &&& post.next_frame_id == pre.next_frame_id
    &&& post.send_pings == pre.send_pings
    &&& post.failed_pings == pre.failed_pings
    &&& post.srtt == pre.srtt
    &&& post.rttvar == pre.rttvar
    &&& post.rto == pre.rto
    &&& post.loss_estimator == pre.loss_estimator
    &&& post.adaptive_fec_encoder == pre.adaptive_fec_encoder
    &&& post.pacer == pre.pacer
}

impl ConnectionRunner {
    /// Answer a liveness probe: echo its timestamp in a pong
    /// datagram, changing nothing.
    pub fn handle_ping(&self, body: &PingBody) -> (r: Vec<u8>)
        ensures
            r@ == spec_serialize(
                PacketView::Pong(ProbeView { timestamp: body.timestamp, data: Seq::empty() }),
            ),
    {
        let pong = PongBody { timestamp: body.timestamp, data: Vec::new() };
        proof {
            assert(pong@.data =~= Seq::<u8>::empty());
        }
        PacketSerializer::serialize(&Packet::Pong(pong))
    }

    /// Take a pong: if it answers an outstanding probe, fold the
    /// measured round trip into the estimator, clear the liveness
    /// debt, and retire the probe; otherwise ignore it.
    pub fn handle_pong(&mut self, body: &PongBody, now_ms: u64)
        requires
            old(self).wf(),
        ensures
            final(self).wf(),
            pong_step(*old(self), *final(self), body@, now_ms),
    {
        if self.send_pings.contains_key(body.timestamp) {
            let rtt = if now_ms >= body.timestamp {
                now_ms - body.timestamp
            } else {
                0
            };
            self.update_rto(rtt);
            self.failed_pings = 0;
            let _ = self.send_pings.take(body.timestamp);
        }
    }

    /// Answer a gap report: mark the listed sequences lost for the
    /// estimator, then queue the cached copy of each listed sequence
    /// for retransmission — unless it was answered within the
    /// cooldown — and remember when each answer left.
    pub fn handle_nack(&mut self, body: &crate::packet::NackBody, now_ms: u64)
        requires
            old(self).wf(),
        ensures
            final(self).wf(),
            nack_step(*old(self), *final(self), body.missing_sequences@, now_ms),
    {
        self.loss_estimator.record_nack_received(&body.missing_sequences, now_ms);
        let ghost resp0 = self.nack_responses@;
        let ghost cache = self.send_packets@;
        let ghost q0 = self.pacer@.queue;
        let mut i: usize = 0;
        while i < body.missing_sequences.len()
            invariant
                i <= body.missing_sequences@.len(),
                self.wf(),
                cache == self.send_packets@,
                self.nack_responses@ == answered_cooldowns(
                    resp0,
                    cache,
                    body.missing_sequences@.take(i as int),
                    now_ms,
                ),
                self.pacer@.queue == q0 + answered_datagrams(
                    resp0,
                    cache,
                    body.missing_sequences@.take(i as int),
                    now_ms,
                ),
                self.streams == old(self).streams,
                self.send_packets == old(self).send_packets,
                self.received_packets == old(self).received_packets,
                self.in_seq == old(self).in_seq,
                self.out_seq == old(self).out_seq,
                self.nacks == old(self).nacks,
                self.next_frame_id == old(self).next_frame_id,
                self.send_pings == old(self).send_pings,
                self.failed_pings == old(self).failed_pings,
                self.srtt == old(self).srtt,
                self.rttvar == old(self).rttvar,
                self.rto == old(self).rto,
                self.loss_estimator@ == smoothed_after(
                    with_nacks(
                        pruned(old(self).loss_estimator@, now_ms),
                        body.missing_sequences@,
                    ),
                ),
                self.adaptive_fec_encoder == old(self).adaptive_fec_encoder,
            decreases body.missing_sequences@.len() - i,
        {
            assert(body.missing_sequences@.take(i + 1).drop_last()
                =~= body.missing_sequences@.take(i as int));
            let seq = body.missing_sequences[i];
            let mut due = true;
            match self.nack_responses.get(seq) {
                Some(last) => {
                    if now_ms < *last || now_ms - *last < NACK_COOLDOWN_MS {
                        due = false;
                    }
                },
                None => {},
            }
            assert(due == cooled(self.nack_responses@, seq, now_ms));
            if due {
                match self.send_packets.get(seq) {
                    Some(p) => {
                        let copy = crate::packet::clone_rtp(p);
                        let encoded = PacketSerializer::serialize(&Packet::Rtp(copy));
                        self.pacer.enqueue(encoded);
                        self.nack_responses.insert(seq, now_ms);
                    },
                    None => {},
                }
            }
            i = i + 1;
        }
        assert(body.missing_sequences@.take(body.missing_sequences@.len() as int)
            =~= body.missing_sequences@);
    }

    /// Retransmit tick: scrub and resend whatever gap reports are
    /// due, serialized and ready to send.
    pub fn on_retransmit_tick(&mut self, now_ms: u64) -> (r: Vec<Vec<u8>>)
        requires
            old(self).wf(),
        ensures
            final(self).wf(),
            nack_list_views(final(self).nacks@) == sweep_kept(
                nack_list_views(old(self).nacks@),
                old(self).received_packets@,
                old(self).srtt,
                old(self).rto,
                now_ms,
            ),
            r@.map_values(|d: Vec<u8>| d@) == sweep_emitted(
                nack_list_views(old(self).nacks@),
                old(self).received_packets@,
                old(self).srtt,
                old(self).rto,
                now_ms,
            ).map_values(|n: crate::packet::NackView| spec_serialize(PacketView::Nack(n))),
            final(self).streams == old(self).streams,
            final(self).send_packets == old(self).send_packets,
            final(self).received_packets == old(self).received_packets,
            final(self).in_seq == old(self).in_seq,
            final(self).out_seq == old(self).out_seq,
            final(self).nack_responses == old(self).nack_responses,
            final(self).next_frame_id == old(self).next_frame_id,
            final(self).send_pings == old(self).send_pings,
            final(self).failed_pings == old(self).failed_pings,
            final(self).srtt == old(self).srtt,
            final(self).rttvar == old(self).rttvar,
            final(self).rto == old(self).rto,
            final(self).loss_estimator == old(self).loss_estimator,
            final(self).adaptive_fec_encoder == old(self).adaptive_fec_encoder,
            final(self).pacer == old(self).pacer,
    {
        let ghost nacks0 = nack_list_views(self.nacks@);
        let bodies = NackController::check_pending_nacks(
            &mut self.nacks,
            &self.received_packets,
            self.srtt,
            self.rto,
            now_ms,
        );
        proof {
            crate::nack::lemma_sweep_bounds(
                nacks0,
                self.received_packets@,
                self.srtt,
                self.rto,
                now_ms,
                crate::nack::MAX_SEQUENCE_GAP as int,
            );
            assert forall|t: int| 0 <= t < bodies@.len() implies (
            #[trigger] bodies@[t])@.missing_sequences.len() <= 255 by {
                assert(bodies@[t]@ == nack_body_views(bodies@)[t]);
            }
            assert forall|t: int| 0 <= t < self.nacks@.len() implies (
            #[trigger] self.nacks@[t])@.missing_sequences.len()
                <= crate::nack::MAX_SEQUENCE_GAP by {
                assert(self.nacks@[t]@ == nack_list_views(self.nacks@)[t]);
            }
        }
        let mut out: Vec<Vec<u8>> = Vec::new();
        let mut i: usize = 0;
        while i < bodies.len()
            invariant
                i <= bodies@.len(),
                forall|t: int|
                    0 <= t < bodies@.len() ==> (#[trigger] bodies@[t])@.missing_sequences.len()
                        <= 255,
                out@.len() == i,
                forall|t: int|
                    0 <= t < i ==> (#[trigger] out@[t])@ == spec_serialize(
                        PacketView::Nack(bodies@[t]@),
                    ),
            decreases bodies@.len() - i,
        {
            let encoded = PacketSerializer::serialize(&Packet::Nack(crate::packet::clone_nack(
                &bodies[i],
            )));
            out.push(encoded);
            i = i + 1;
        }
        proof {
            let emitted = sweep_emitted(
                nacks0,
                old(self).received_packets@,
                old(self).srtt,
                old(self).rto,
                now_ms,
            );
            assert(nack_body_views(bodies@) == emitted);
            assert forall|t: int| 0 <= t < out@.len() implies out@.map_values(|d: Vec<u8>| d@)[t]
                == emitted.map_values(
                |n: crate::packet::NackView| spec_serialize(PacketView::Nack(n)),
            )[#[trigger] trig_int(t)] by {
                assert(bodies@[t]@ == nack_body_views(bodies@)[t]);
            }
            assert(out@.map_values(|d: Vec<u8>| d@) =~= emitted.map_values(
                |n: crate::packet::NackView| spec_serialize(PacketView::Nack(n)),
            ));
        }
        out
    }

    /// Janitor tick: age out frames, cached packets, probes,
    /// pending gap reports and answer cooldowns older than
    /// [`REAP_AGE_MS`].
    pub fn on_cleanup_tick(&mut self, now_ms: u64)
        requires
            old(self).wf(),
        ensures
            final(self).wf(),
            forall|k: u64|
                final(self).streams@.dom().contains(k) <==> old(self).streams@.dom().contains(k)
                    && old(self).streams@[k]@.created_at >= reap_cutoff(now_ms),
            forall|k: u64|
                final(self).streams@.dom().contains(k) ==> final(self).streams@[k] == old(
                    self,
                ).streams@[k],
            forall|k: u64|
                final(self).send_packets@.dom().contains(k) <==> old(
                    self,
                ).send_packets@.dom().contains(k) && old(self).send_packets@[k].timestamp
                    >= reap_cutoff(now_ms),
            forall|k: u64|
                final(self).send_packets@.dom().contains(k) ==> final(self).send_packets@[k]
                    == old(self).send_packets@[k],
            forall|k: u64|
                final(self).received_packets@.dom().contains(k) <==> old(
                    self,
                ).received_packets@.dom().contains(k) && old(self).received_packets@[k].timestamp
                    >= reap_cutoff(now_ms),
            forall|k: u64|
                final(self).received_packets@.dom().contains(k)
                    ==> final(self).received_packets@[k] == old(self).received_packets@[k],
            forall|k: u64|
                final(self).send_pings@.dom().contains(k) <==> old(
                    self,
                ).send_pings@.dom().contains(k) && old(self).send_pings@[k].timestamp
                    >= reap_cutoff(now_ms),
            forall|k: u64|
                final(self).nack_responses@.dom().contains(k) <==> old(
                    self,
                ).nack_responses@.dom().contains(k) && old(self).nack_responses@[k]
                    >= reap_cutoff(now_ms),
            nack_list_views(final(self).nacks@) == crate::nack::fresh_nacks(
                nack_list_views(old(self).nacks@),
                REAP_AGE_MS,
                now_ms,
            ),
            final(self).in_seq == old(self).in_seq,
            final(self).out_seq == old(self).out_seq,
            final(self).next_frame_id == old(self).next_frame_id,
            final(self).failed_pings == old(self).failed_pings,
            final(self).srtt == old(self).srtt,
            final(self).rttvar == old(self).rttvar,
            final(self).rto == old(self).rto,
            final(self).loss_estimator == old(self).loss_estimator,
            final(self).adaptive_fec_encoder == old(self).adaptive_fec_encoder,
            final(self).pacer == old(self).pacer,
    {
        let cutoff = reap_cutoff_exec(now_ms);
        self.streams.prune_older(cutoff);
        self.send_pings.prune_older(cutoff);
        self.send_packets.prune_older(cutoff);
        self.received_packets.prune_older(cutoff);
        let ghost nacks0 = nack_list_views(self.nacks@);
        NackController::cleanup(&mut self.nacks, REAP_AGE_MS, now_ms);
        proof {
            crate::nack::lemma_fresh_bounds(
                nacks0,
                REAP_AGE_MS,
                now_ms,
                crate::nack::MAX_SEQUENCE_GAP as int,
            );
            assert forall|t: int| 0 <= t < self.nacks@.len() implies (
            #[trigger] self.nacks@[t])@.missing_sequences.len()
                <= crate::nack::MAX_SEQUENCE_GAP by {
                assert(self.nacks@[t]@ == nack_list_views(self.nacks@)[t]);
            }
        }
        self.nack_responses.prune_older(cutoff);
        proof {
            assert forall|k: u64| self.streams@.dom().contains(k) implies (
            #[trigger] self.streams@[k])@.wf() && self.streams@[k]@.frame_id == k by {
                assert(old(self).streams@.dom().contains(k));
                assert(self.streams@[k] == old(self).streams@[k]);
            }
        }
    }
}

/// Identity on indexes, used only to steer quantifier triggers.
pub open spec fn trig_int(t: int) -> int {
    t
}

impl ConnectionRunner {
    /// Take one media fragment: refuse it only when the frame table
    /// or the receive cache is full; otherwise file it in its frame
    /// — handing back the reassembled message exactly when this
    /// fragment took a previously incomplete frame to completion,
    /// so a late duplicate never repeats an emission — scrub it from pending gap reports, cache it, and if
    /// it leapt ahead of the expected sequence, schedule a NACK for
    /// the gap and move the expectation past it.
    pub fn handle_rtp(&mut self, body: RtpBody, now_ms: u64) -> (delivered: Option<Vec<u8>>)
        requires
            old(self).wf(),
        ensures
            final(self).wf(),
            rtp_step(*old(self), *final(self), body@, delivered, now_ms),
    {
        if self.streams.len() >= MAX_FRAMES && !self.streams.contains_key(body.frame_id) {
            return None;
        }
        if self.received_packets.len() >= MAX_PACKETS {
            return None;
        }
        let sequence = body.sequence_number;
        let frame_key = body.frame_id;
        let mut frame = match self.streams.take(frame_key) {
            Some(f) => f,
            None => {
                let fresh = FrameBuffer::new(frame_key, body.total_fragments, now_ms);
                proof {
                    assert(fresh@.packets =~= fresh_frame(
                        frame_key,
                        body.total_fragments,
                        now_ms,
                    ).packets);
                    assert(fresh@ == fresh_frame(frame_key, body.total_fragments, now_ms));
                }
                fresh
            },
        };
        let copy = crate::packet::clone_rtp(&body);
        let was_complete = frame.is_complete();
        let added = frame.add_packet(body);
        let mut delivered: Option<Vec<u8>> = None;
        if added.is_ok() && !was_complete {
            if frame.is_complete() {
                delivered = frame.reconstruct_data();
            }
        }
        self.streams.insert(frame_key, frame);
        proof {
            assert(self.streams@.dom() =~= old(self).streams@.dom().insert(frame_key));
            assert forall|k: u64| self.streams@.dom().contains(k) implies (
            #[trigger] self.streams@[k])@.wf() && self.streams@[k]@.frame_id == k by {
                if k != frame_key {
                    assert(self.streams@[k] == old(self).streams@[k]);
                }
            }
        }
        NackController::on_rtp_received(&mut self.nacks, sequence);
        proof {
            crate::nack::lemma_scrubbed_bounds(
                nack_list_views(old(self).nacks@),
                sequence,
                crate::nack::MAX_SEQUENCE_GAP as int,
            );
            assert forall|t: int| 0 <= t < self.nacks@.len() implies (
            #[trigger] self.nacks@[t])@.missing_sequences.len()
                <= crate::nack::MAX_SEQUENCE_GAP by {
                assert(self.nacks@[t]@ == nack_list_views(self.nacks@)[t]);
            }
        }
        self.received_packets.insert(sequence, copy);
        proof {
            assert(self.received_packets@.dom() =~= old(
                self,
            ).received_packets@.dom().insert(sequence));
        }
        if sequence > self.in_seq {
            let ghost nacks1 = nack_list_views(self.nacks@);
            NackController::on_gap_detected(
                &mut self.nacks,
                &self.received_packets,
                self.in_seq,
                sequence,
                now_ms,
            );
            proof {
                crate::nack::lemma_missing_in_range_len(
                    self.received_packets@,
                    old(self).in_seq,
                    sequence,
                );
                assert forall|t: int| 0 <= t < self.nacks@.len() implies (
                #[trigger] self.nacks@[t])@.missing_sequences.len()
                    <= crate::nack::MAX_SEQUENCE_GAP by {
                    let width = sequence - old(self).in_seq;
                    let missing = missing_in_range(
                        self.received_packets@,
                        old(self).in_seq,
                        sequence,
                    );
                    if width > crate::nack::MAX_SEQUENCE_GAP || missing.len() == 0 {
                    } else {
                        if t < self.nacks@.len() - 1 {
                            assert(self.nacks@.drop_last()[t] == self.nacks@[t]);
                        } else {
                            assert(self.nacks@.last()@.missing_sequences == missing);
                        }
                    }
                }
            }
            proof {
                let scrubbed = scrubbed_nacks(nack_list_views(old(self).nacks@), sequence);
                let width = sequence - old(self).in_seq;
                let missing = missing_in_range(
                    self.received_packets@,
                    old(self).in_seq,
                    sequence,
                );
                if !(width > crate::nack::MAX_SEQUENCE_GAP || missing.len() == 0) {
                    assert(nack_list_views(self.nacks@).drop_last() =~= nack_list_views(
                        self.nacks@.drop_last(),
                    ));
                    assert(nack_list_views(self.nacks@).last() == self.nacks@.last()@);
                }
            }
            self.in_seq = sequence.wrapping_add(1);
        } else if sequence == self.in_seq {
            self.in_seq = self.in_seq.wrapping_add(1);
        }
        delivered
    }

    /// Take one parity packet: gather the protected fragments that
    /// already arrived, attempt recovery, and treat a recovered
    /// fragment like an inbound one — filed, scrubbed and cached —
    /// except that it never triggers gap detection, its sequence
    /// being old by construction.
    pub fn handle_fec(&mut self, body: &crate::packet::FecBody, now_ms: u64) -> (delivered:
        Option<Vec<u8>>)
        requires
            old(self).wf(),
        ensures
            final(self).wf(),
            fec_step(*old(self), *final(self), body@, delivered, now_ms),
    {
        let mut available: Vec<RtpBody> = Vec::new();
        let mut i: usize = 0;
        while i < body.protected_packets.len()
            invariant
                i <= body.protected_packets@.len(),
                self == old(self),
                self.wf(),
                rtp_views(available@) == available_of(
                    self.received_packets@,
                    body@.protected_packets.take(i as int),
                ),
            decreases body.protected_packets@.len() - i,
        {
            assert(body@.protected_packets.take(i + 1).drop_last()
                =~= body@.protected_packets.take(i as int));
            match self.received_packets.get(body.protected_packets[i].sequence_number) {
                Some(p) => {
                    available.push(crate::packet::clone_rtp(p));
                },
                None => {},
            }
            assert(rtp_views(available@) =~= available_of(
                self.received_packets@,
                body@.protected_packets.take(i + 1),
            ));
            i = i + 1;
        }
        assert(body@.protected_packets.take(body@.protected_packets.len() as int)
            =~= body@.protected_packets);
        let recovered = crate::fec::recover_packet(body, &available);
        match recovered {
            None => None,
            Some(p) => {
                let sequence = p.sequence_number;
                let frame_key = p.frame_id;
                let mut frame = match self.streams.take(frame_key) {
                    Some(f) => f,
                    None => FrameBuffer::new(frame_key, p.total_fragments, now_ms),
                };
                let copy = crate::packet::clone_rtp(&p);
                let was_complete = frame.is_complete();
                let added = frame.add_packet(p);
                let mut delivered: Option<Vec<u8>> = None;
                if added.is_ok() && !was_complete {
                    if frame.is_complete() {
                        delivered = frame.reconstruct_data();
                    }
                }
                self.streams.insert(frame_key, frame);
                proof {
                    assert(self.streams@.dom() =~= old(self).streams@.dom().insert(frame_key));
                    assert forall|k: u64| self.streams@.dom().contains(k) implies (
                    #[trigger] self.streams@[k])@.wf() && self.streams@[k]@.frame_id == k by {
                        if k != frame_key {
                            assert(self.streams@[k] == old(self).streams@[k]);
                        }
                    }
                }
                NackController::on_rtp_received(&mut self.nacks, sequence);
                proof {
                    crate::nack::lemma_scrubbed_bounds(
                        nack_list_views(old(self).nacks@),
                        sequence,
                        crate::nack::MAX_SEQUENCE_GAP as int,
                    );
                    assert forall|t: int| 0 <= t < self.nacks@.len() implies (
                    #[trigger] self.nacks@[t])@.missing_sequences.len()
                        <= crate::nack::MAX_SEQUENCE_GAP by {
                        assert(self.nacks@[t]@ == nack_list_views(self.nacks@)[t]);
                    }
                }
                self.received_packets.insert(sequence, copy);
                proof {
                    assert(self.received_packets@.dom() =~= old(
                        self,
                    ).received_packets@.dom().insert(sequence));
                }
                delivered
            },
        }
    }

    /// One inbound datagram, start to finish: decode it and let its
    /// kind decide — a malformed datagram is dropped silently, a
    /// probe is answered at once, everything else updates the state
    /// exactly as the kind's own handler describes.
    pub fn handle_datagram(&mut self, datagram: &Vec<u8>, now_ms: u64) -> (r: (
        Vec<Vec<u8>>,
        Option<Vec<u8>>,
    ))
        requires
            old(self).wf(),
        ensures
            final(self).wf(),
            (match spec_deserialize(datagram@) {
                None => *final(self) == *old(self) && r.0@.len() == 0 && r.1 is None,
                Some(PacketView::Ping(b)) => {
                    &&& r.0@.len() == 1
                    &&& r.0@[0]@ == spec_serialize(
                        PacketView::Pong(
                            ProbeView { timestamp: b.timestamp, data: Seq::empty() },
                        ),
                    )
                    &&& *final(self) == *old(self)
                    &&& r.1 is None
                },
                Some(PacketView::Pong(b)) => pong_step(*old(self), *final(self), b, now_ms)
                    && r.0@.len() == 0 && r.1 is None,
                Some(PacketView::Rtp(rv)) => rtp_step(*old(self), *final(self), rv, r.1, now_ms)
                    && r.0@.len() == 0,
                Some(PacketView::Nack(nv)) => nack_step(
                    *old(self),
                    *final(self),
                    nv.missing_sequences,
                    now_ms,
                ) && r.0@.len() == 0 && r.1 is None,
                Some(PacketView::Fec(fv)) => fec_step(*old(self), *final(self), fv, r.1, now_ms)
                    && r.0@.len() == 0,
            }),
    {
        match PacketSerializer::deserialize(datagram.as_slice()) {
            None => (Vec::new(), None),
            Some(packet) => match packet {
                Packet::Ping(ping_body) => {
                    let pong = self.handle_ping(&ping_body);
                    let mut replies: Vec<Vec<u8>> = Vec::new();
                    replies.push(pong);
                    (replies, None)
                },
                Packet::Pong(pong_body) => {
                    self.handle_pong(&pong_body, now_ms);
                    (Vec::new(), None)
                },
                Packet::Rtp(rtp_body) => {
                    let delivered = self.handle_rtp(rtp_body, now_ms);
                    (Vec::new(), delivered)
                },
                Packet::Nack(nack_body) => {
                    self.handle_nack(&nack_body, now_ms);
                    (Vec::new(), None)
                },
                Packet::Fec(fec_body) => {
                    let delivered = self.handle_fec(&fec_body, now_ms);
                    (Vec::new(), delivered)
                },
            },
        }
    }
}

/// A frame table slot as it is first created for a fragment.
pub open spec fn fresh_frame(frame_id: u64, expected_fragments: u16, now_ms: u64) -> FrameBufferView {
    FrameBufferView {
        frame_id,
        expected_fragments,
        packets: Seq::empty(),
        created_at: now_ms,
    }
}

/// The moment before which the janitor reclaims state.
pub open spec fn reap_cutoff(now_ms: u64) -> u64 {
    if now_ms >= REAP_AGE_MS {
        ((now_ms - REAP_AGE_MS) + 1) as u64
    } else {
        0
    }
}

/// The janitor cutoff, as executable code.
fn reap_cutoff_exec(now_ms: u64) -> (r: u64)
    ensures
        r == reap_cutoff(now_ms),
{
    if now_ms >= REAP_AGE_MS {
        (now_ms - REAP_AGE_MS) + 1
    } else {
        0
    }
}

/// The moment before which an unanswered probe counts as missed.
pub open spec fn ping_cutoff(now_ms: u64) -> u64 {
    if now_ms >= PONG_TIMEOUT_MS {
        ((now_ms - PONG_TIMEOUT_MS) + 1) as u64
    } else {
        0
    }
}

/// The probe cutoff, as executable code.
fn ping_cutoff_exec(now_ms: u64) -> (r: u64)
    ensures
        r == ping_cutoff(now_ms),
{
    if now_ms >= PONG_TIMEOUT_MS {
        (now_ms - PONG_TIMEOUT_MS) + 1
    } else {
        0
    }
}

} // verus!
