//! Negative-acknowledgement scheduling with retransmission backoff.
//!
//! A detected sequence gap becomes a pending NACK listing the
//! missing sequences.  Each retransmit tick scrubs sequences that
//! have since arrived, drops exhausted or satisfied entries, and
//! resends whatever is due: the first send waits a short reordering
//! timer, retransmissions wait the current retransmission timeout.

use vstd::prelude::*;
use crate::cache::CacheMap;
use crate::packet::{NackBody, NackView, RtpBody};

verus! {

/// Widest sequence gap taken as loss rather than state drift.
pub const MAX_SEQUENCE_GAP: u64 = 100;

/// How many times one NACK is resent before the gap is given up.
pub const MAX_RETRANSMISSIONS: u32 = 5;

/// One scheduled gap report, waiting to be sent or resent.
#[derive(Debug, Clone)]
pub struct PendingNack {
    /// The gap report itself.
    pub packet: NackBody,
    /// When it was last sent, in wall-clock milliseconds.
    pub sent_at: u64,
    /// When the gap was detected, in wall-clock milliseconds.
    pub created_at: u64,
    /// How many times it has been sent.
    pub retransmissions: u32,
}

/// Mathematical image of a pending NACK.
pub struct PendingNackView {
    pub missing_sequences: Seq<u64>,
    pub sent_at: u64,
    pub created_at: u64,
    pub retransmissions: u32,
}

impl View for PendingNack {
    type V = PendingNackView;

    open spec fn view(&self) -> PendingNackView {
        PendingNackView {
            missing_sequences: self.packet.missing_sequences@,
            sent_at: self.sent_at,
            created_at: self.created_at,
            retransmissions: self.retransmissions,
        }
    }
}

/// The views of a list of pending NACKs.
pub open spec fn nack_list_views(v: Seq<PendingNack>) -> Seq<PendingNackView> {
    v.map_values(|n: PendingNack| n@)
}

/// How long a NACK waits before its next send: the first send waits
/// a short reordering timer — longer on a slow path — and every
/// retransmission waits the current retransmission timeout.
pub open spec fn nack_delay(srtt_ms: u64, rto: u64, retransmissions: u32) -> u64 {
    if retransmissions == 0 {
        if srtt_ms > 150 {
            60
        } else {
            20
        }
    } else {
        rto
    }
}

/// The sequences of `[start, end)` that the receive cache does not
/// hold, in ascending order.
pub open spec fn missing_in_range(received: Map<u64, RtpBody>, start: u64, end: u64) -> Seq<u64>
    decreases end - start,
{
    if end <= start {
        Seq::empty()
    } else {
        missing_in_range(received, start, (end - 1) as u64) + (if received.dom().contains(
            (end - 1) as u64,
        ) {
            Seq::empty()
        } else {
            seq![(end - 1) as u64]
        })
    }
}

/// `s` with every occurrence of `x` removed, order kept.
pub open spec fn without_seq(s: Seq<u64>, x: u64) -> Seq<u64>
    decreases s.len(),
{
    if s.len() == 0 {
        s
    } else {
        without_seq(s.drop_last(), x) + (if s.last() == x {
            Seq::empty()
        } else {
            seq![s.last()]
        })
    }
}

/// `s` cut down to the sequences the receive cache still misses.
pub open spec fn still_missing(s: Seq<u64>, received: Map<u64, RtpBody>) -> Seq<u64>
    decreases s.len(),
{
    if s.len() == 0 {
        s
    } else {
        still_missing(s.drop_last(), received) + (if received.dom().contains(s.last()) {
            Seq::empty()
        } else {
            seq![s.last()]
        })
    }
}

/// What one retransmit tick does to one pending NACK.
pub struct NackStep {
    /// The entry as it stays scheduled, or nothing if it is dropped.
    pub kept: Option<PendingNackView>,
    /// The gap report to send now, if one is due.
    pub emitted: Option<NackView>,
}

/// One pending NACK under one retransmit tick at `now_ms`: scrub
/// what has arrived; drop the entry once nothing is missing or its
/// sends are exhausted; send when the delay has passed, counting the
/// send and restarting the clock.
pub open spec fn sweep_one(
    n: PendingNackView,
    received: Map<u64, RtpBody>,
    srtt_ms: u64,
    rto: u64,
    now_ms: u64,
) -> NackStep {
    let missing = still_missing(n.missing_sequences, received);
    if missing.len() == 0 {
        NackStep { kept: None, emitted: None }
    } else if n.retransmissions >= MAX_RETRANSMISSIONS {
        NackStep { kept: None, emitted: None }
    } else if now_ms >= n.sent_at + nack_delay(srtt_ms, rto, n.retransmissions) {
        NackStep {
            kept: Some(
                PendingNackView {
                    missing_sequences: missing,
                    sent_at: now_ms,
                    created_at: n.created_at,
                    retransmissions: (n.retransmissions + 1) as u32,
                },
            ),
            emitted: Some(NackView { missing_sequences: missing }),
        }
    } else {
        NackStep {
            kept: Some(
                PendingNackView {
                    missing_sequences: missing,
                    sent_at: n.sent_at,
                    created_at: n.created_at,
                    retransmissions: n.retransmissions,
                },
            ),
            emitted: None,
        }
    }
}

/// The pending list a retransmit tick leaves behind, in order.
pub open spec fn sweep_kept(
    nacks: Seq<PendingNackView>,
    received: Map<u64, RtpBody>,
    srtt_ms: u64,
    rto: u64,
    now_ms: u64,
) -> Seq<PendingNackView>
    decreases nacks.len(),
{
    if nacks.len() == 0 {
        Seq::empty()
    } else {
        sweep_kept(nacks.drop_last(), received, srtt_ms, rto, now_ms) + (match sweep_one(
            nacks.last(),
            received,
            srtt_ms,
            rto,
            now_ms,
        ).kept {
            Some(n) => seq![n],
            None => Seq::empty(),
        })
    }
}

/// The gap reports a retransmit tick sends, in order.
pub open spec fn sweep_emitted(
    nacks: Seq<PendingNackView>,
    received: Map<u64, RtpBody>,
    srtt_ms: u64,
    rto: u64,
    now_ms: u64,
) -> Seq<NackView>
    decreases nacks.len(),
{
    if nacks.len() == 0 {
        Seq::empty()
    } else {
        sweep_emitted(nacks.drop_last(), received, srtt_ms, rto, now_ms) + (match sweep_one(
            nacks.last(),
            received,
            srtt_ms,
            rto,
            now_ms,
        ).emitted {
            Some(n) => seq![n],
            None => Seq::empty(),
        })
    }
}

/// NACK eventuality, one tick at a time.  While a gap's sequences
/// stay missing: an exhausted entry — one already sent
/// [`MAX_RETRANSMISSIONS`] times — is garbage-collected by the next
/// tick and never sent again; an entry whose delay has passed (the
/// retransmission timeout, for every send after the first) is sent
/// by the next tick, its counter stepping up each time, so no gap is
/// ever reported more than [`MAX_RETRANSMISSIONS`] times; an entry
/// whose delay has not passed is left exactly as it was.
pub proof fn lemma_nack_eventuality(
    n: PendingNackView,
    received: Map<u64, RtpBody>,
    srtt_ms: u64,
    rto: u64,
    now_ms: u64,
)
    requires
        still_missing(n.missing_sequences, received) == n.missing_sequences,
        n.missing_sequences.len() > 0,
    ensures
        n.retransmissions >= MAX_RETRANSMISSIONS ==> sweep_one(
            n,
            received,
            srtt_ms,
            rto,
            now_ms,
        ) == (NackStep { kept: None, emitted: None }),
        n.retransmissions < MAX_RETRANSMISSIONS && now_ms >= n.sent_at + nack_delay(
            srtt_ms,
            rto,
            n.retransmissions,
        ) ==> {
            let step = sweep_one(n, received, srtt_ms, rto, now_ms);
            &&& step.emitted == Some(NackView { missing_sequences: n.missing_sequences })
            &&& step.kept is Some
            &&& step.kept.unwrap().retransmissions == n.retransmissions + 1
            &&& step.kept.unwrap().sent_at == now_ms
        },
        n.retransmissions < MAX_RETRANSMISSIONS && now_ms < n.sent_at + nack_delay(
            srtt_ms,
            rto,
            n.retransmissions,
        ) ==> sweep_one(n, received, srtt_ms, rto, now_ms) == (NackStep {
            kept: Some(n),
            emitted: None,
        }),
{
}

/// A placeholder entry used to move real entries out of the list.
fn blank_nack() -> (r: PendingNack)
    ensures
        r@.missing_sequences.len() == 0,
{
    PendingNack {
        packet: NackBody { missing_sequences: Vec::new() },
        sent_at: 0,
        created_at: 0,
        retransmissions: 0,
    }
}

/// `s` with the arrived sequences removed, as executable code.
fn retain_missing(s: &Vec<u64>, received: &CacheMap<RtpBody>) -> (r: Vec<u64>)
    requires
        received.wf(),
    ensures
        r@ == still_missing(s@, received@),
{
    let mut out: Vec<u64> = Vec::new();
    let mut i: usize = 0;
    while i < s.len()
        invariant
            i <= s@.len(),
            received.wf(),
            out@ == still_missing(s@.take(i as int), received@),
        decreases s@.len() - i,
    {
        assert(s@.take(i + 1).drop_last() =~= s@.take(i as int));
        if !received.contains_key(s[i]) {
            out.push(s[i]);
        }
        assert(out@ =~= still_missing(s@.take(i + 1), received@));
        i = i + 1;
    }
    assert(s@.take(s@.len() as int) =~= s@);
    out
}

/// Schedules, scrubs and resends gap reports.
pub struct NackController;

impl NackController {
    /// How long a NACK waits before its next send.
    pub fn get_delay(srtt_ms: u64, rto: u64, retransmissions: u32) -> (r: u64)
        ensures
            r == nack_delay(srtt_ms, rto, retransmissions),
    {
        if retransmissions == 0 {
            if srtt_ms > 150 {
                60
            } else {
                20
            }
        } else {
            rto
        }
    }

    /// A gap `[start, end)` was observed: schedule a NACK for the
    /// sequences of it that have not arrived, unless there are none.
    /// A gap wider than [`MAX_SEQUENCE_GAP`] is taken for state
    /// drift and silently dropped.
    pub fn on_gap_detected(
        pending_nacks: &mut Vec<PendingNack>,
        received_packets: &CacheMap<RtpBody>,
        start: u64,
        end: u64,
        now_ms: u64,
    )
        requires
            received_packets.wf(),
        ensures
            ({
                let width = if end >= start {
                    end - start
                } else {
                    0
                };
                let missing = missing_in_range(received_packets@, start, end);
                if width > MAX_SEQUENCE_GAP || missing.len() == 0 {
                    final(pending_nacks)@ == old(pending_nacks)@
                } else {
                    &&& final(pending_nacks)@.len() == old(pending_nacks)@.len() + 1
                    &&& final(pending_nacks)@.drop_last() == old(pending_nacks)@
                    &&& final(pending_nacks)@.last()@ == (PendingNackView {
                        missing_sequences: missing,
                        sent_at: now_ms,
                        created_at: now_ms,
                        retransmissions: 0,
                    })
                }
            }),
    {
        let width = if end >= start {
            end - start
        } else {
            0
        };
        if width > MAX_SEQUENCE_GAP {
            return ;
        }
        let mut missing: Vec<u64> = Vec::new();
        let mut s = start;
        while s < end
            invariant
                start <= s,
                s <= end || s == start,
                received_packets.wf(),
                missing@ == missing_in_range(received_packets@, start, s),
            decreases end - s,
        {
            if !received_packets.contains_key(s) {
                missing.push(s);
            }
            assert(missing@ =~= missing_in_range(received_packets@, start, (s + 1) as u64));
            s = s + 1;
        }
        if missing.len() == 0 {
            return ;
        }
        pending_nacks.push(
            PendingNack {
                packet: NackBody { missing_sequences: missing },
                sent_at: now_ms,
                created_at: now_ms,
                retransmissions: 0,
            },
        );
        assert(final(pending_nacks)@.drop_last() =~= old(pending_nacks)@);
    }

    /// Sequence `sequence_number` arrived: scrub it from every
    /// pending NACK and drop the entries that are now satisfied.
    pub fn on_rtp_received(pending_nacks: &mut Vec<PendingNack>, sequence_number: u64)
        ensures
            nack_list_views(final(pending_nacks)@) == scrubbed_nacks(
                nack_list_views(old(pending_nacks)@),
                sequence_number,
            ),
    {
        let ghost orig = nack_list_views(pending_nacks@);
        let mut out: Vec<PendingNack> = Vec::new();
        let mut i: usize = 0;
        while i < pending_nacks.len()
            invariant
                i <= pending_nacks@.len(),
                nack_list_views(pending_nacks@).len() == orig.len(),
                forall|j: int|
                    i <= j < orig.len() ==> nack_list_views(pending_nacks@)[j] == orig[j],
                nack_list_views(out@) == scrubbed_nacks(orig.take(i as int), sequence_number),
            decreases pending_nacks@.len() - i,
        {
            assert(orig.take(i + 1).drop_last() =~= orig.take(i as int));
            assert(orig.take(i + 1).last() == orig[i as int]);
            let mut entry = blank_nack();
            pending_nacks.set_and_swap(i, &mut entry);
            assert(entry@ == orig[i as int]);
            let mut kept: Vec<u64> = Vec::new();
            let mut j: usize = 0;
            while j < entry.packet.missing_sequences.len()
                invariant
                    j <= entry.packet.missing_sequences@.len(),
                    kept@ == without_seq(
                        entry.packet.missing_sequences@.take(j as int),
                        sequence_number,
                    ),
                decreases entry.packet.missing_sequences@.len() - j,
            {
                assert(entry.packet.missing_sequences@.take(j + 1).drop_last()
                    =~= entry.packet.missing_sequences@.take(j as int));
                let v = entry.packet.missing_sequences[j];
                if v != sequence_number {
                    kept.push(v);
                }
                assert(kept@ =~= without_seq(
                    entry.packet.missing_sequences@.take(j + 1),
                    sequence_number,
                ));
                j = j + 1;
            }
            assert(entry.packet.missing_sequences@.take(entry.packet.missing_sequences@.len() as int)
                =~= entry.packet.missing_sequences@);
            if kept.len() > 0 {
                out.push(
                    PendingNack {
                        packet: NackBody { missing_sequences: kept },
                        sent_at: entry.sent_at,
                        created_at: entry.created_at,
                        retransmissions: entry.retransmissions,
                    },
                );
            }
            assert(nack_list_views(out@) =~= scrubbed_nacks(orig.take(i + 1), sequence_number));
            i = i + 1;
        }
        assert(orig.take(orig.len() as int) =~= orig);
        *pending_nacks = out;
    }

    /// One retransmit tick: scrub, drop the satisfied and the
    /// exhausted, and return the gap reports now due — each one's
    /// send counted and its clock restarted.
    pub fn check_pending_nacks(
        pending_nacks: &mut Vec<PendingNack>,
        received_packets: &CacheMap<RtpBody>,
        srtt_ms: u64,
        rto: u64,
        now_ms: u64,
    ) -> (r: Vec<NackBody>)
        requires
            received_packets.wf(),
        ensures
            nack_list_views(final(pending_nacks)@) == sweep_kept(
                nack_list_views(old(pending_nacks)@),
                received_packets@,
                srtt_ms,
                rto,
                now_ms,
            ),
            nack_body_views(r@) == sweep_emitted(
                nack_list_views(old(pending_nacks)@),
                received_packets@,
                srtt_ms,
                rto,
                now_ms,
            ),
    {
        let ghost orig = nack_list_views(pending_nacks@);
        let mut out: Vec<PendingNack> = Vec::new();
        let mut emitted: Vec<NackBody> = Vec::new();
        let mut i: usize = 0;
        while i < pending_nacks.len()
            invariant
                i <= pending_nacks@.len(),
                received_packets.wf(),
                nack_list_views(pending_nacks@).len() == orig.len(),
                forall|j: int|
                    i <= j < orig.len() ==> nack_list_views(pending_nacks@)[j] == orig[j],
                nack_list_views(out@) == sweep_kept(
                    orig.take(i as int),
                    received_packets@,
                    srtt_ms,
                    rto,
                    now_ms,
                ),
                nack_body_views(emitted@) == sweep_emitted(
                    orig.take(i as int),
                    received_packets@,
                    srtt_ms,
                    rto,
                    now_ms,
                ),
            decreases pending_nacks@.len() - i,
        {
            assert(orig.take(i + 1).drop_last() =~= orig.take(i as int));
            assert(orig.take(i + 1).last() == orig[i as int]);
            let mut entry = blank_nack();
            pending_nacks.set_and_swap(i, &mut entry);
            assert(entry@ == orig[i as int]);
            let missing = retain_missing(&entry.packet.missing_sequences, received_packets);
            if missing.len() == 0 {
            } else if entry.retransmissions >= MAX_RETRANSMISSIONS {
            } else if now_ms >= entry.sent_at && now_ms - entry.sent_at >= NackController::get_delay(
                srtt_ms,
                rto,
                entry.retransmissions,
            ) {
                let resend = NackBody { missing_sequences: missing };
                emitted.push(
                    NackBody {
                        missing_sequences: copy_seq_list(&resend.missing_sequences),
                    },
                );
                out.push(
                    PendingNack {
                        packet: resend,
                        sent_at: now_ms,
                        created_at: entry.created_at,
                        retransmissions: entry.retransmissions + 1,
                    },
                );
            } else {
                out.push(
                    PendingNack {
                        packet: NackBody { missing_sequences: missing },
                        sent_at: entry.sent_at,
                        created_at: entry.created_at,
                        retransmissions: entry.retransmissions,
                    },
                );
            }
            assert(nack_list_views(out@) =~= sweep_kept(
                orig.take(i + 1),
                received_packets@,
                srtt_ms,
                rto,
                now_ms,
            ));
            assert(nack_body_views(emitted@) =~= sweep_emitted(
                orig.take(i + 1),
                received_packets@,
                srtt_ms,
                rto,
                now_ms,
            ));
            i = i + 1;
        }
        assert(orig.take(orig.len() as int) =~= orig);
        *pending_nacks = out;
        emitted
    }

    /// Janitor: drop every pending NACK older than `max_age_ms`.
    pub fn cleanup(pending_nacks: &mut Vec<PendingNack>, max_age_ms: u64, now_ms: u64)
        ensures
            nack_list_views(final(pending_nacks)@) == fresh_nacks(
                nack_list_views(old(pending_nacks)@),
                max_age_ms,
                now_ms,
            ),
    {
        let ghost orig = nack_list_views(pending_nacks@);
        let mut out: Vec<PendingNack> = Vec::new();
        let mut i: usize = 0;
        while i < pending_nacks.len()
            invariant
                i <= pending_nacks@.len(),
                nack_list_views(pending_nacks@).len() == orig.len(),
                forall|j: int|
                    i <= j < orig.len() ==> nack_list_views(pending_nacks@)[j] == orig[j],
                nack_list_views(out@) == fresh_nacks(orig.take(i as int), max_age_ms, now_ms),
            decreases pending_nacks@.len() - i,
        {
            assert(orig.take(i + 1).drop_last() =~= orig.take(i as int));
            assert(orig.take(i + 1).last() == orig[i as int]);
            let mut entry = blank_nack();
            pending_nacks.set_and_swap(i, &mut entry);
            assert(entry@ == orig[i as int]);
            let age = if now_ms >= entry.created_at {
                now_ms - entry.created_at
            } else {
                0
            };
            if age < max_age_ms {
                out.push(entry);
            }
            assert(nack_list_views(out@) =~= fresh_nacks(orig.take(i + 1), max_age_ms, now_ms));
            i = i + 1;
        }
        assert(orig.take(orig.len() as int) =~= orig);
        *pending_nacks = out;
    }
}

/// The views of a list of gap reports.
pub open spec fn nack_body_views(v: Seq<NackBody>) -> Seq<NackView> {
    v.map_values(|n: NackBody| n@)
}

/// Every pending NACK scrubbed of `x`, the satisfied ones dropped.
pub open spec fn scrubbed_nacks(nacks: Seq<PendingNackView>, x: u64) -> Seq<PendingNackView>
    decreases nacks.len(),
{
    if nacks.len() == 0 {
        Seq::empty()
    } else {
        let rest = scrubbed_nacks(nacks.drop_last(), x);
        let kept = without_seq(nacks.last().missing_sequences, x);
        if kept.len() > 0 {
            rest.push(
                PendingNackView {
                    missing_sequences: kept,
                    sent_at: nacks.last().sent_at,
                    created_at: nacks.last().created_at,
                    retransmissions: nacks.last().retransmissions,
                },
            )
        } else {
            rest
        }
    }
}

/// The pending NACKs younger than `max_age_ms`, in order; an entry
/// stamped in the future counts as brand new.
pub open spec fn fresh_nacks(
    nacks: Seq<PendingNackView>,
    max_age_ms: u64,
    now_ms: u64,
) -> Seq<PendingNackView>
    decreases nacks.len(),
{
    if nacks.len() == 0 {
        Seq::empty()
    } else {
        let rest = fresh_nacks(nacks.drop_last(), max_age_ms, now_ms);
        let age = if now_ms >= nacks.last().created_at {
            now_ms - nacks.last().created_at
        } else {
            0
        };
        if age < max_age_ms {
            rest.push(nacks.last())
        } else {
            rest
        }
    }
}

/// A gap report never lists more sequences than the gap is wide.
pub proof fn lemma_missing_in_range_len(received: Map<u64, RtpBody>, start: u64, end: u64)
    ensures
        missing_in_range(received, start, end).len() <= (if end >= start {
            end - start
        } else {
            0
        }),
    decreases end - start,
{
    if end > start {
        lemma_missing_in_range_len(received, start, (end - 1) as u64);
    }
}

/// Scrubbing never lengthens a sequence list.
pub proof fn lemma_still_missing_len(s: Seq<u64>, received: Map<u64, RtpBody>)
    ensures
        still_missing(s, received).len() <= s.len(),
    decreases s.len(),
{
    if s.len() > 0 {
        lemma_still_missing_len(s.drop_last(), received);
    }
}

/// Removing one value never lengthens a sequence list.
pub proof fn lemma_without_seq_len(s: Seq<u64>, x: u64)
    ensures
        without_seq(s, x).len() <= s.len(),
    decreases s.len(),
{
    if s.len() > 0 {
        lemma_without_seq_len(s.drop_last(), x);
    }
}

/// A retransmit tick keeps every entry within the bound its gap
/// report already obeyed.
pub proof fn lemma_sweep_bounds(
    nacks: Seq<PendingNackView>,
    received: Map<u64, RtpBody>,
    srtt_ms: u64,
    rto: u64,
    now_ms: u64,
    bound: int,
)
    requires
        forall|i: int|
            0 <= i < nacks.len() ==> (#[trigger] nacks[i]).missing_sequences.len() <= bound,
    ensures
        forall|i: int|
            0 <= i < sweep_kept(nacks, received, srtt_ms, rto, now_ms).len() ==> (
            #[trigger] sweep_kept(nacks, received, srtt_ms, rto, now_ms)[i]).missing_sequences.len()
                <= bound,
        forall|i: int|
            0 <= i < sweep_emitted(nacks, received, srtt_ms, rto, now_ms).len() ==> (
            #[trigger] sweep_emitted(
                nacks,
                received,
                srtt_ms,
                rto,
                now_ms,
            )[i]).missing_sequences.len() <= bound,
    decreases nacks.len(),
{
    if nacks.len() > 0 {
        assert forall|i: int| 0 <= i < nacks.len() - 1 implies (
        #[trigger] nacks.drop_last()[i]).missing_sequences.len() <= bound by {
            assert(nacks.drop_last()[i] == nacks[i]);
        }
        lemma_sweep_bounds(nacks.drop_last(), received, srtt_ms, rto, now_ms, bound);
        lemma_still_missing_len(nacks.last().missing_sequences, received);
        let kept = sweep_kept(nacks, received, srtt_ms, rto, now_ms);
        let kept_rest = sweep_kept(nacks.drop_last(), received, srtt_ms, rto, now_ms);
        assert forall|i: int| 0 <= i < kept.len() implies (
        #[trigger] kept[i]).missing_sequences.len() <= bound by {
            if i < kept_rest.len() {
                assert(kept[i] == kept_rest[i]);
            }
        }
        let em = sweep_emitted(nacks, received, srtt_ms, rto, now_ms);
        let em_rest = sweep_emitted(nacks.drop_last(), received, srtt_ms, rto, now_ms);
        assert forall|i: int| 0 <= i < em.len() implies (
        #[trigger] em[i]).missing_sequences.len() <= bound by {
            if i < em_rest.len() {
                assert(em[i] == em_rest[i]);
            }
        }
    }
}

/// Scrubbing on arrival keeps every entry within the bound its gap
/// report already obeyed.
pub proof fn lemma_scrubbed_bounds(nacks: Seq<PendingNackView>, x: u64, bound: int)
    requires
        forall|i: int|
            0 <= i < nacks.len() ==> (#[trigger] nacks[i]).missing_sequences.len() <= bound,
    ensures
        forall|i: int|
            0 <= i < scrubbed_nacks(nacks, x).len() ==> (
            #[trigger] scrubbed_nacks(nacks, x)[i]).missing_sequences.len() <= bound,
    decreases nacks.len(),
{
    if nacks.len() > 0 {
        assert forall|i: int| 0 <= i < nacks.len() - 1 implies (
        #[trigger] nacks.drop_last()[i]).missing_sequences.len() <= bound by {
            assert(nacks.drop_last()[i] == nacks[i]);
        }
        lemma_scrubbed_bounds(nacks.drop_last(), x, bound);
        lemma_without_seq_len(nacks.last().missing_sequences, x);
        let out = scrubbed_nacks(nacks, x);
        let rest = scrubbed_nacks(nacks.drop_last(), x);
        assert forall|i: int| 0 <= i < out.len() implies (
        #[trigger] out[i]).missing_sequences.len() <= bound by {
            if i < rest.len() {
                assert(out[i] == rest[i]);
            }
        }
    }
}

/// The janitor keeps only entries that were already on the list.
pub proof fn lemma_fresh_bounds(
    nacks: Seq<PendingNackView>,
    max_age_ms: u64,
    now_ms: u64,
    bound: int,
)
    requires
        forall|i: int|
            0 <= i < nacks.len() ==> (#[trigger] nacks[i]).missing_sequences.len() <= bound,
    ensures
        forall|i: int|
            0 <= i < fresh_nacks(nacks, max_age_ms, now_ms).len() ==> (
            #[trigger] fresh_nacks(nacks, max_age_ms, now_ms)[i]).missing_sequences.len()
                <= bound,
    decreases nacks.len(),
{
    if nacks.len() > 0 {
        assert forall|i: int| 0 <= i < nacks.len() - 1 implies (
        #[trigger] nacks.drop_last()[i]).missing_sequences.len() <= bound by {
            assert(nacks.drop_last()[i] == nacks[i]);
        }
        lemma_fresh_bounds(nacks.drop_last(), max_age_ms, now_ms, bound);
        let out = fresh_nacks(nacks, max_age_ms, now_ms);
        let rest = fresh_nacks(nacks.drop_last(), max_age_ms, now_ms);
        assert forall|i: int| 0 <= i < out.len() implies (
        #[trigger] out[i]).missing_sequences.len() <= bound by {
            if i < rest.len() {
                assert(out[i] == rest[i]);
            }
        }
    }
}

/// A fresh copy of a sequence list.
fn copy_seq_list(s: &Vec<u64>) -> (r: Vec<u64>)
    ensures
        r@ == s@,
{
    let mut out: Vec<u64> = Vec::new();
    let mut i: usize = 0;
    while i < s.len()
        invariant
            i <= s@.len(),
            out@ == s@.take(i as int),
        decreases s@.len() - i,
    {
        out.push(s[i]);
        assert(out@ =~= s@.take(i + 1));
        i = i + 1;
    }
    assert(s@.take(s@.len() as int) =~= s@);
    out
}

} // verus!
