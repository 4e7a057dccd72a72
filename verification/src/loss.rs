//! Sliding-window NACK-based loss estimation.
//!
//! Sent sequence numbers are remembered for a two-second window; a
//! NACK marks a windowed sequence lost.  The raw ratio of lost to
//! sent is smoothed asymmetrically: fast on the way up, slow on the
//! way down, so forward error correction reacts quickly to
//! deterioration and is not cut prematurely.  Rates are carried as
//! integers in parts per ten thousand.

use vstd::prelude::*;
use vstd::seq_lib::*;

verus! {

/// How long a sent packet stays in the loss window, in milliseconds.
pub const LOSS_WINDOW_MS: u64 = 2000;

/// Rates are parts of this scale: 10000 is a loss rate of one.
pub const LOSS_SCALE: u64 = 10000;

/// One remembered send: a sequence number and when it left.
#[derive(Debug, Clone, Copy, PartialEq, Eq, Structural)]
pub struct SentRecord {
    pub sequence: u64,
    pub timestamp: u64,
}

/// A smoothed loss rate in parts of [`LOSS_SCALE`], with the window
/// size it was computed from.
#[derive(Debug, Clone, Copy, PartialEq, Eq, Structural)]
pub struct LossStats {
    pub loss_rate: u64,
    pub sample_size: usize,
}

/// Mathematical image of the estimator.
pub struct LossView {
    pub sent: Seq<SentRecord>,
    pub nacked: Seq<u64>,
    pub smoothed: u64,
}

impl LossView {
    /// The sequence numbers currently in the window.
    pub open spec fn window_seqs(self) -> Set<u64> {
        self.sent.map_values(|r: SentRecord| r.sequence).to_set()
    }

    /// Every marked-lost sequence is windowed and counted once, and
    /// the smoothed rate stays on the scale.
    pub open spec fn wf(self) -> bool {
        &&& self.smoothed <= LOSS_SCALE
        &&& self.nacked.no_duplicates()
        &&& forall|i: int|
            0 <= i < self.nacked.len() ==> self.window_seqs().contains(#[trigger] self.nacked[i])
    }
}

/// One smoothing update: the first sample is taken as is; a rise
/// blends one fifth of the new ratio in, rounding up; a fall blends
/// one twentieth in, rounding down.
pub open spec fn smooth_step(smoothed: int, raw: int) -> int {
    if smoothed == 0 {
        raw
    } else if raw > smoothed {
        (8 * smoothed + 2 * raw + 9) / 10
    } else {
        (19 * smoothed + raw) / 20
    }
}

/// Loss smoothing monotonicity: while the raw rate sits above the
/// smoothed rate, every update strictly raises the smoothed rate and
/// never past the raw rate; while it sits below, every update
/// strictly lowers it and never below the raw rate.
pub proof fn lemma_smoothing_monotone(smoothed: int, raw: int)
    requires
        0 <= smoothed <= LOSS_SCALE,
        0 <= raw <= LOSS_SCALE,
    ensures
        raw > smoothed && smoothed > 0 ==> smoothed < smooth_step(smoothed, raw) <= raw,
        raw < smoothed ==> raw <= smooth_step(smoothed, raw) < smoothed,
        raw == smoothed ==> smooth_step(smoothed, raw) == smoothed,
        0 <= smooth_step(smoothed, raw) <= LOSS_SCALE,
{
    if smoothed == 0 {
    } else if raw > smoothed {
        assert(smoothed < (8 * smoothed + 2 * raw + 9) / 10 <= raw) by (nonlinear_arith)
            requires
                0 < smoothed < raw,
        ;
    } else {
        assert(raw <= (19 * smoothed + raw) / 20 <= smoothed) by (nonlinear_arith)
            requires
                0 <= raw <= smoothed,
        ;
        if raw < smoothed {
            assert((19 * smoothed + raw) / 20 < smoothed) by (nonlinear_arith)
                requires
                    0 <= raw < smoothed,
            ;
        }
    }
}

/// The raw lost-to-sent ratio of a window, in parts of
/// [`LOSS_SCALE`].
pub open spec fn raw_rate(v: LossView) -> int {
    if v.sent.len() == 0 {
        0
    } else {
        (v.nacked.len() as int) * (LOSS_SCALE as int) / (v.sent.len() as int)
    }
}

/// The smoothed rate after one update; an empty window leaves it
/// untouched.
pub open spec fn next_smoothed(v: LossView) -> int {
    if v.sent.len() == 0 {
        v.smoothed as int
    } else {
        smooth_step(v.smoothed as int, raw_rate(v))
    }
}

/// The estimator with its smoothed rate refreshed.
pub open spec fn smoothed_after(v: LossView) -> LossView {
    LossView { sent: v.sent, nacked: v.nacked, smoothed: next_smoothed(v) as u64 }
}

/// The estimator with one more send on record.
pub open spec fn with_sent(v: LossView, sequence: u64, now_ms: u64) -> LossView {
    LossView {
        sent: v.sent.push(SentRecord { sequence, timestamp: now_ms }),
        nacked: v.nacked,
        smoothed: v.smoothed,
    }
}

/// The moment the window opens: everything sent earlier is stale.
pub open spec fn loss_cutoff(now_ms: u64) -> u64 {
    if now_ms >= LOSS_WINDOW_MS {
        (now_ms - LOSS_WINDOW_MS) as u64
    } else {
        0
    }
}

/// Whether a send is still inside the window.
pub open spec fn keeps_record(r: SentRecord, now_ms: u64) -> bool {
    r.timestamp >= loss_cutoff(now_ms)
}

/// The window records still inside the window, in order.
pub open spec fn kept_records(s: Seq<SentRecord>, now_ms: u64) -> Seq<SentRecord>
    decreases s.len(),
{
    if s.len() == 0 {
        s
    } else {
        let sub = kept_records(s.drop_last(), now_ms);
        if keeps_record(s.last(), now_ms) {
            sub.push(s.last())
        } else {
            sub
        }
    }
}

/// The lost-marks whose sequence is in `keep`, in order.
pub open spec fn kept_marks(marks: Seq<u64>, keep: Set<u64>) -> Seq<u64>
    decreases marks.len(),
{
    if marks.len() == 0 {
        marks
    } else {
        let sub = kept_marks(marks.drop_last(), keep);
        if keep.contains(marks.last()) {
            sub.push(marks.last())
        } else {
            sub
        }
    }
}

/// The estimator with everything older than the window dropped, and
/// the lost-marks cut down to the sequences that remain.
pub open spec fn pruned(v: LossView, now_ms: u64) -> LossView {
    let sent = kept_records(v.sent, now_ms);
    let keep = sent.map_values(|r: SentRecord| r.sequence).to_set();
    LossView { sent, nacked: kept_marks(v.nacked, keep), smoothed: v.smoothed }
}

/// What survives a mark pruning: exactly the old marks whose
/// sequence is kept, distinct if they were distinct.
proof fn lemma_kept_marks(marks: Seq<u64>, keep: Set<u64>)
    ensures
        forall|x: u64|
            kept_marks(marks, keep).contains(x) <==> marks.contains(x) && keep.contains(x),
        marks.no_duplicates() ==> kept_marks(marks, keep).no_duplicates(),
        kept_marks(marks, keep).len() <= marks.len(),
    decreases marks.len(),
{
    if marks.len() > 0 {
        lemma_kept_marks(marks.drop_last(), keep);
        let sub = kept_marks(marks.drop_last(), keep);
        assert forall|x: u64|
            kept_marks(marks, keep).contains(x) <==> marks.contains(x) && keep.contains(x) by {
            assert(marks.contains(x) <==> marks.drop_last().contains(x) || x == marks.last()) by {
                if marks.contains(x) {
                    let i = choose|i: int| 0 <= i < marks.len() && marks[i] == x;
                    if i < marks.len() - 1 {
                        assert(marks.drop_last()[i] == x);
                    }
                }
                if marks.drop_last().contains(x) {
                    let i = choose|i: int|
                        0 <= i < marks.drop_last().len() && marks.drop_last()[i] == x;
                    assert(marks[i] == x);
                }
            }
            if keep.contains(marks.last()) {
                assert(kept_marks(marks, keep) == sub.push(marks.last()));
                assert(kept_marks(marks, keep).contains(x) <==> sub.contains(x) || x
                    == marks.last()) by {
                    if kept_marks(marks, keep).contains(x) {
                        let i = choose|i: int|
                            0 <= i < sub.push(marks.last()).len() && sub.push(marks.last())[i]
                                == x;
                        if i < sub.len() {
                            assert(sub[i] == x);
                        }
                    }
                    if sub.contains(x) {
                        let i = choose|i: int| 0 <= i < sub.len() && sub[i] == x;
                        assert(sub.push(marks.last())[i] == x);
                    }
                    if x == marks.last() {
                        assert(sub.push(marks.last())[sub.len() as int] == x);
                    }
                }
            }
        }
        if marks.no_duplicates() {
            assert(marks.drop_last().no_duplicates()) by {
                assert(forall|i: int, j: int|
                    0 <= i < j < marks.drop_last().len() ==> marks.drop_last()[i] == marks[i]
                        && marks.drop_last()[j] == marks[j]);
            }
            if keep.contains(marks.last()) {
                assert(!marks.drop_last().contains(marks.last())) by {
                    if marks.drop_last().contains(marks.last()) {
                        let i = choose|i: int|
                            0 <= i < marks.len() - 1 && marks.drop_last()[i] == marks.last();
                        assert(marks[i] == marks[marks.len() - 1]);
                    }
                }
                assert(kept_marks(marks, keep).no_duplicates()) by {
                    let out = sub.push(marks.last());
                    assert forall|i: int, j: int| 0 <= i < j < out.len() implies out[i] != out[j] by {
                        if j < sub.len() {
                        } else {
                            assert(out[j] == marks.last());
                            assert(sub.contains(out[i]) ==> marks.drop_last().contains(out[i]));
                            assert(sub[i] == out[i]);
                            assert(sub.contains(sub[i]));
                        }
                    }
                }
            }
        }
    }
}

/// The estimator after marking, in order, every windowed and not yet
/// marked sequence of `seqs` lost.
pub open spec fn with_nacks(v: LossView, seqs: Seq<u64>) -> LossView
    decreases seqs.len(),
{
    if seqs.len() == 0 {
        v
    } else {
        let prev = with_nacks(v, seqs.drop_last());
        let s = seqs.last();
        if prev.window_seqs().contains(s) && !prev.nacked.contains(s) {
            LossView { sent: prev.sent, nacked: prev.nacked.push(s), smoothed: prev.smoothed }
        } else {
            prev
        }
    }
}

/// Whether some window record carries `sequence`.
fn window_contains(sent: &Vec<SentRecord>, sequence: u64) -> (r: bool)
    ensures
        r == sent@.map_values(|rec: SentRecord| rec.sequence).to_set().contains(sequence),
{
    let ghost seqs = sent@.map_values(|rec: SentRecord| rec.sequence);
    let mut i: usize = 0;
    while i < sent.len()
        invariant
            i <= sent@.len(),
            seqs == sent@.map_values(|rec: SentRecord| rec.sequence),
            forall|j: int| 0 <= j < i ==> sent@[j].sequence != sequence,
        decreases sent@.len() - i,
    {
        if sent[i].sequence == sequence {
            assert(seqs[i as int] == sequence);
            assert(seqs.contains(sequence));
            return true;
        }
        i = i + 1;
    }
    assert(!seqs.contains(sequence)) by {
        if seqs.contains(sequence) {
            let j = choose|j: int| 0 <= j < seqs.len() && seqs[j] == sequence;
            assert(sent@[j].sequence == sequence);
        }
    }
    false
}

/// Whether `sequence` stands in the list.
fn seq_list_contains(list: &Vec<u64>, sequence: u64) -> (r: bool)
    ensures
        r == list@.contains(sequence),
{
    let mut i: usize = 0;
    while i < list.len()
        invariant
            i <= list@.len(),
            forall|j: int| 0 <= j < i ==> list@[j] != sequence,
        decreases list@.len() - i,
    {
        if list[i] == sequence {
            return true;
        }
        i = i + 1;
    }
    false
}

/// A well-formed estimator never counts more losses than sends: the
/// lost-marks are distinct sequences out of the window.
proof fn lemma_nacked_at_most_sent(v: LossView)
    requires
        v.wf(),
    ensures
        v.nacked.len() <= v.sent.len(),
{
    let seqs = v.sent.map_values(|r: SentRecord| r.sequence);
    v.nacked.unique_seq_to_set();
    assert(v.nacked.to_set().subset_of(v.window_seqs())) by {
        assert forall|x: u64| v.nacked.to_set().contains(x) implies v.window_seqs().contains(
            x,
        ) by {
            let i = choose|i: int| 0 <= i < v.nacked.len() && v.nacked[i] == x;
            assert(v.window_seqs().contains(v.nacked[i]));
        }
    }
    seqs.lemma_cardinality_of_set();
    vstd::set_lib::lemma_len_subset(v.nacked.to_set(), v.window_seqs());
}

/// Estimates the loss rate a connection is suffering, from its own
/// sends and the peer's NACKs.
pub struct LossEstimator {
    sent_packets: Vec<SentRecord>,
    nacked: Vec<u64>,
    smoothed_loss_rate: u64,
}

impl View for LossEstimator {
    type V = LossView;

    closed spec fn view(&self) -> LossView {
        LossView {
            sent: self.sent_packets@,
            nacked: self.nacked@,
            smoothed: self.smoothed_loss_rate,
        }
    }
}

impl LossEstimator {
    /// An empty window with a smoothed rate of zero.
    pub fn new() -> (r: LossEstimator)
        ensures
            r@.wf(),
            r@.sent == Seq::<SentRecord>::empty(),
            r@.nacked == Seq::<u64>::empty(),
            r@.smoothed == 0,
    {
        LossEstimator { sent_packets: Vec::new(), nacked: Vec::new(), smoothed_loss_rate: 0 }
    }

    /// The smoothed rate and the window size behind it.
    pub fn get_stats(&self) -> (r: LossStats)
        ensures
            r.loss_rate == self@.smoothed,
            r.sample_size == self@.sent.len(),
    {
        LossStats { loss_rate: self.smoothed_loss_rate, sample_size: self.sent_packets.len() }
    }

    /// Remember that `sequence` left now, drop what fell out of the
    /// window, and refresh the smoothed rate.
    pub fn record_packet_sent(&mut self, sequence: u64, now_ms: u64)
        requires
            old(self)@.wf(),
        ensures
            final(self)@.wf(),
            final(self)@ == smoothed_after(pruned(with_sent(old(self)@, sequence, now_ms), now_ms)),
    {
        self.sent_packets.push(SentRecord { sequence, timestamp: now_ms });
        assert(self@ =~~= with_sent(old(self)@, sequence, now_ms));
        proof {
            let s0 = old(self)@.sent.map_values(|r: SentRecord| r.sequence);
            let s1 = self@.sent.map_values(|r: SentRecord| r.sequence);
            assert forall|x: u64| s0.to_set().contains(x) implies s1.to_set().contains(x) by {
                let k = choose|k: int| 0 <= k < s0.len() && s0[k] == x;
                assert(s1[k] == x);
            }
        }
        self.prune(now_ms);
        self.update_smoothed_rate();
    }

    /// Mark every windowed sequence of `sequences` lost, drop what
    /// fell out of the window, and refresh the smoothed rate.
    pub fn record_nack_received(&mut self, sequences: &Vec<u64>, now_ms: u64)
        requires
            old(self)@.wf(),
        ensures
            final(self)@.wf(),
            final(self)@ == smoothed_after(with_nacks(pruned(old(self)@, now_ms), sequences@)),
    {
        self.prune(now_ms);
        let ghost base = self@;
        let mut i: usize = 0;
        while i < sequences.len()
            invariant
                i <= sequences@.len(),
                self@.wf(),
                self@ == with_nacks(base, sequences@.take(i as int)),
            decreases sequences@.len() - i,
        {
            let seq = sequences[i];
            assert(sequences@.take(i + 1).drop_last() =~= sequences@.take(i as int));
            if window_contains(&self.sent_packets, seq) && !seq_list_contains(&self.nacked, seq) {
                self.nacked.push(seq);
            }
            assert(self@ =~~= with_nacks(base, sequences@.take(i + 1)));
            i = i + 1;
        }
        assert(sequences@.take(sequences@.len() as int) =~= sequences@);
        self.update_smoothed_rate();
    }

    /// Drop window entries older than [`LOSS_WINDOW_MS`] and the
    /// lost-marks whose sequence left the window with them.
    fn prune(&mut self, now_ms: u64)
        requires
            old(self)@.wf(),
        ensures
            final(self)@.wf(),
            final(self)@ == pruned(old(self)@, now_ms),
    {
        let cutoff: u64 = if now_ms >= LOSS_WINDOW_MS {
            now_ms - LOSS_WINDOW_MS
        } else {
            0
        };
        let mut kept_sent: Vec<SentRecord> = Vec::new();
        let mut i: usize = 0;
        while i < self.sent_packets.len()
            invariant
                i <= self.sent_packets@.len(),
                cutoff == loss_cutoff(now_ms),
                kept_sent@ == kept_records(self.sent_packets@.take(i as int), now_ms),
            decreases self.sent_packets@.len() - i,
        {
            let r = self.sent_packets[i];
            assert(self.sent_packets@.take(i + 1).drop_last() =~= self.sent_packets@.take(
                i as int,
            ));
            if r.timestamp >= cutoff {
                kept_sent.push(r);
            }
            i = i + 1;
        }
        assert(self.sent_packets@.take(self.sent_packets@.len() as int) =~= self.sent_packets@);
        let ghost keep_seqs = kept_sent@.map_values(|r: SentRecord| r.sequence).to_set();
        let mut kept_nacked: Vec<u64> = Vec::new();
        let mut j: usize = 0;
        while j < self.nacked.len()
            invariant
                j <= self.nacked@.len(),
                keep_seqs == kept_sent@.map_values(|r: SentRecord| r.sequence).to_set(),
                kept_nacked@ == kept_marks(self.nacked@.take(j as int), keep_seqs),
            decreases self.nacked@.len() - j,
        {
            let s = self.nacked[j];
            assert(self.nacked@.take(j + 1).drop_last() =~= self.nacked@.take(j as int));
            if window_contains(&kept_sent, s) {
                kept_nacked.push(s);
            }
            j = j + 1;
        }
        assert(self.nacked@.take(self.nacked@.len() as int) =~= self.nacked@);
        proof {
            lemma_kept_marks(self.nacked@, keep_seqs);
        }
        self.sent_packets = kept_sent;
        self.nacked = kept_nacked;
        assert(self@ =~~= pruned(old(self)@, now_ms));
        assert forall|k: int| 0 <= k < self@.nacked.len() implies self@.window_seqs().contains(
            #[trigger] self@.nacked[k],
        ) by {
            assert(self@.nacked.contains(self@.nacked[k]));
        }
    }

    /// Recompute the smoothed rate from the current window; an empty
    /// window leaves it untouched.
    fn update_smoothed_rate(&mut self)
        requires
            old(self)@.wf(),
        ensures
            final(self)@.wf(),
            final(self)@ == smoothed_after(old(self)@),
    {
        if self.sent_packets.len() == 0 {
            assert(self@ =~~= smoothed_after(old(self)@));
            return ;
        }
        proof {
            lemma_nacked_at_most_sent(self@);
            assert((self@.nacked.len() as int) * (LOSS_SCALE as int) / (self@.sent.len() as int)
                <= LOSS_SCALE) by (nonlinear_arith)
                requires
                    self@.nacked.len() <= self@.sent.len(),
                    0 < self@.sent.len(),
            ;
        }
        let raw_wide = (self.nacked.len() as u128) * (LOSS_SCALE as u128) / (
        self.sent_packets.len() as u128);
        assert(raw_wide == raw_rate(self@));
        let raw = raw_wide as u64;
        proof {
            lemma_smoothing_monotone(self.smoothed_loss_rate as int, raw as int);
        }
        if self.smoothed_loss_rate == 0 {
            self.smoothed_loss_rate = raw;
        } else if raw > self.smoothed_loss_rate {
            self.smoothed_loss_rate = (8 * self.smoothed_loss_rate + 2 * raw + 9) / 10;
        } else {
            self.smoothed_loss_rate = (19 * self.smoothed_loss_rate + raw) / 20;
        }
        assert(self@ =~~= smoothed_after(old(self)@));
    }

    /// Forget the window and the smoothed rate.
    pub fn reset(&mut self)
        ensures
            final(self)@.wf(),
            final(self)@.sent == Seq::<SentRecord>::empty(),
            final(self)@.nacked == Seq::<u64>::empty(),
            final(self)@.smoothed == 0,
    {
        self.sent_packets.clear();
        self.nacked.clear();
        self.smoothed_loss_rate = 0;
    }
}

} // verus!
