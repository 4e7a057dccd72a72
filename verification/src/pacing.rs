//! Packet pacing: a FIFO of serialized datagrams drained in bounded
//! byte budgets per tick.
//!
//! The budget aims to empty the queue in three tick intervals on a
//! healthy channel and in six at the loss threshold, never below a
//! fixed floor, so bursts are spread exactly when loss says the path
//! cannot take them.

use vstd::prelude::*;
use crate::loss::{LossEstimator, LOSS_SCALE};

verus! {

/// The loss rate, in parts of [`LOSS_SCALE`], at which pacing is at
/// its most cautious.
pub const LOSS_THRESHOLD: u64 = 1000;

/// The smallest byte budget a tick is ever given.
pub const MIN_BUDGET_BYTES: usize = 10000;

/// The bytes a queue holds in all.
pub open spec fn total_bytes(q: Seq<Seq<u8>>) -> int
    decreases q.len(),
{
    if q.len() == 0 {
        0
    } else {
        total_bytes(q.drop_last()) + q.last().len()
    }
}

/// Whether every queued datagram fits the address space — true of
/// anything a vector can actually hold.
pub open spec fn bounded_datagrams(q: Seq<Seq<u8>>) -> bool {
    forall|i: int| 0 <= i < q.len() ==> (#[trigger] q[i]).len() <= usize::MAX
}

/// A queue never holds more than one maximal datagram per entry.
proof fn lemma_total_bytes_bound(q: Seq<Seq<u8>>)
    requires
        bounded_datagrams(q),
    ensures
        0 <= total_bytes(q) <= q.len() * (usize::MAX as int),
    decreases q.len(),
{
    if q.len() > 0 {
        assert(bounded_datagrams(q.drop_last())) by {
            assert(forall|i: int|
                0 <= i < q.len() - 1 ==> q.drop_last()[i] == (#[trigger] q[i]));
        }
        lemma_total_bytes_bound(q.drop_last());
        assert(q.last().len() <= usize::MAX);
        assert((q.len() - 1) * (usize::MAX as int) + (usize::MAX as int) == q.len() * (
        usize::MAX as int)) by (nonlinear_arith);
    }
}

/// How many thousandths of a tick interval the drain may spread
/// over: three intervals when healthy, rising linearly to six at the
/// loss threshold.
pub open spec fn target_intervals_x1000(loss_rate: u64) -> int {
    let t = if loss_rate > LOSS_THRESHOLD {
        LOSS_THRESHOLD as int
    } else {
        loss_rate as int
    };
    3000 + 3 * t
}

/// The byte budget of one tick: the queue spread over the target
/// intervals, never below the floor.  A queue beyond the address
/// space is budgeted as if it just filled it.
pub open spec fn spec_budget(queue_bytes: int, loss_rate: u64) -> int {
    let capped = if queue_bytes > usize::MAX {
        usize::MAX as int
    } else {
        queue_bytes
    };
    let spread = capped * 1000 / target_intervals_x1000(loss_rate);
    if spread > MIN_BUDGET_BYTES {
        spread
    } else {
        MIN_BUDGET_BYTES as int
    }
}

/// Pacer budget bounds: the spread always sits between three and six
/// intervals, and the budget is exactly the queue over the spread,
/// floored at [`MIN_BUDGET_BYTES`].
pub proof fn lemma_pacer_budget_bounds(queue_bytes: int, loss_rate: u64)
    requires
        0 <= queue_bytes <= usize::MAX,
    ensures
        3000 <= target_intervals_x1000(loss_rate) <= 6000,
        spec_budget(queue_bytes, loss_rate) == if queue_bytes * 1000 / target_intervals_x1000(
            loss_rate,
        ) > MIN_BUDGET_BYTES {
            queue_bytes * 1000 / target_intervals_x1000(loss_rate)
        } else {
            MIN_BUDGET_BYTES as int
        },
        spec_budget(queue_bytes, loss_rate) >= MIN_BUDGET_BYTES,
{
}

/// FIFO of serialized datagrams with a tracked byte total.
pub struct PacketPacer {
    queue: Vec<Vec<u8>>,
    queue_bytes: u128,
}

/// Mathematical image of the pacer.
pub struct PacerView {
    pub queue: Seq<Seq<u8>>,
}

impl View for PacketPacer {
    type V = PacerView;

    closed spec fn view(&self) -> PacerView {
        PacerView { queue: self.queue@.map_values(|d: Vec<u8>| d@) }
    }
}

impl PacketPacer {
    /// The byte count matches the queue, whose datagrams all fit the
    /// address space.
    pub closed spec fn wf(&self) -> bool {
        &&& self.queue_bytes == total_bytes(self@.queue)
        &&& bounded_datagrams(self@.queue)
    }

    /// An empty pacer.
    pub fn new() -> (r: PacketPacer)
        ensures
            r.wf(),
            r@.queue == Seq::<Seq<u8>>::empty(),
    {
        let r = PacketPacer { queue: Vec::new(), queue_bytes: 0 };
        proof {
            assert(r@.queue =~= Seq::<Seq<u8>>::empty());
        }
        r
    }

    /// Queue one serialized datagram behind the others.
    pub fn enqueue(&mut self, data: Vec<u8>)
        requires
            old(self).wf(),
        ensures
            final(self).wf(),
            final(self)@.queue == old(self)@.queue.push(data@),
    {
        let queue_len = self.queue.len();
        let data_len = data.len();
        proof {
            lemma_total_bytes_bound(self@.queue);
            assert(self@.queue.len() == queue_len);
            assert(data@.len() == data_len);
            assert(self.queue_bytes + data@.len() < u128::MAX) by (nonlinear_arith)
                requires
                    0 <= self.queue_bytes <= self@.queue.len() * (usize::MAX as int),
                    self@.queue.len() <= usize::MAX,
                    data@.len() <= usize::MAX,
                    usize::MAX <= 0xFFFF_FFFF_FFFF_FFFFu64,
            ;
        }
        self.queue_bytes = self.queue_bytes + (data_len as u128);
        self.queue.push(data);
        proof {
            assert(self@.queue =~= old(self)@.queue.push(data@));
            assert(self@.queue.drop_last() =~= old(self)@.queue);
            assert(bounded_datagrams(self@.queue)) by {
                assert(forall|i: int|
                    0 <= i < old(self)@.queue.len() ==> self@.queue[i] == (#[trigger] old(
                        self,
                    )@.queue[i]));
                assert(self@.queue.last().len() == data_len);
            }
        }
    }

    /// How many datagrams wait in the queue.
    pub fn pending(&self) -> (r: usize)
        ensures
            r == self@.queue.len(),
    {
        self.queue.len()
    }

    /// Empty the queue.
    pub fn reset(&mut self)
        ensures
            final(self).wf(),
            final(self)@.queue == Seq::<Seq<u8>>::empty(),
    {
        self.queue.clear();
        self.queue_bytes = 0;
        proof {
            assert(self@.queue =~= Seq::<Seq<u8>>::empty());
        }
    }

    /// This tick's byte budget, from the queue and the loss rate.
    fn get_budget(&self, loss_estimator: &LossEstimator) -> (r: usize)
        requires
            self.wf(),
        ensures
            r == spec_budget(total_bytes(self@.queue), loss_estimator@.smoothed),
    {
        let stats = loss_estimator.get_stats();
        let t: u64 = if stats.loss_rate > LOSS_THRESHOLD {
            LOSS_THRESHOLD
        } else {
            stats.loss_rate
        };
        let intervals: u128 = 3000 + 3 * (t as u128);
        let capped: u128 = if self.queue_bytes > (usize::MAX as u128) {
            usize::MAX as u128
        } else {
            self.queue_bytes
        };
        proof {
            assert(capped * 1000 <= 0xFFFF_FFFF_FFFF_FFFFu128 * 1000) by (nonlinear_arith)
                requires
                    capped <= 0xFFFF_FFFF_FFFF_FFFFu128,
            ;
        }
        let spread_wide: u128 = capped * 1000 / intervals;
        assert(spread_wide <= capped) by (nonlinear_arith)
            requires
                spread_wide as int == (capped as int) * 1000 / (intervals as int),
                3000 <= intervals as int <= 6000,
        ;
        let spread: usize = spread_wide as usize;
        if spread > MIN_BUDGET_BYTES {
            spread
        } else {
            MIN_BUDGET_BYTES
        }
    }

    /// Drain the head of the queue up to this tick's budget: what
    /// comes out fits the budget, in order, and what stays starts
    /// with a datagram that did not fit — unless the queue emptied.
    pub fn drain(&mut self, loss_estimator: &LossEstimator) -> (r: Vec<Vec<u8>>)
        requires
            old(self).wf(),
        ensures
            final(self).wf(),
            ({
                let budget = spec_budget(total_bytes(old(self)@.queue), loss_estimator@.smoothed);
                let count = r@.len() as int;
                &&& count <= old(self)@.queue.len()
                &&& r@.map_values(|d: Vec<u8>| d@) == old(self)@.queue.take(count)
                &&& final(self)@.queue == old(self)@.queue.skip(count)
                &&& total_bytes(old(self)@.queue.take(count)) <= budget
                &&& (old(self)@.queue.len() == 0 ==> count == 0)
                &&& (final(self)@.queue.len() > 0 && old(self)@.queue.len() > 0 ==> total_bytes(
                    old(self)@.queue.take(count),
                ) + final(self)@.queue[0].len() > budget)
            }),
    {
        if self.queue.len() == 0 {
            let r: Vec<Vec<u8>> = Vec::new();
            proof {
                assert(r@.map_values(|d: Vec<u8>| d@) =~= old(self)@.queue.take(0));
                assert(self@.queue =~= old(self)@.queue.skip(0));
            }
            return r;
        }
        let budget = self.get_budget(loss_estimator);
        let mut sent: usize = 0;
        let mut packets: Vec<Vec<u8>> = Vec::new();
        while self.queue.len() > 0 && self.queue[0].len() <= budget - sent
            invariant
                self.wf(),
                packets@.len() <= old(self)@.queue.len(),
                self@.queue == old(self)@.queue.skip(packets@.len() as int),
                packets@.map_values(|d: Vec<u8>| d@) == old(self)@.queue.take(
                    packets@.len() as int,
                ),
                sent == total_bytes(old(self)@.queue.take(packets@.len() as int)),
                sent <= budget,
            decreases self@.queue.len(),
        {
            let ghost n = packets@.len() as int;
            let ghost qpre = self@.queue;
            let packet = self.queue.remove(0);
            proof {
                assert(packet@ == qpre[0]);
                assert(self@.queue =~= qpre.drop_first());
                assert(qpre.drop_first() =~= old(self)@.queue.skip(n + 1));
                lemma_total_bytes_first(qpre);
                lemma_total_bytes_bound(self@.queue);
                assert(bounded_datagrams(self@.queue)) by {
                    assert(forall|i: int|
                        0 <= i < self@.queue.len() ==> (#[trigger] self@.queue[i]) == qpre[i
                            + 1]);
                }
            }
            self.queue_bytes = self.queue_bytes - (packet.len() as u128);
            sent = sent + packet.len();
            packets.push(packet);
            proof {
                assert(old(self)@.queue.take(n + 1).drop_last() =~= old(self)@.queue.take(n));
                assert(packets@.map_values(|d: Vec<u8>| d@) =~= old(self)@.queue.take(n + 1));
            }
        }
        proof {
            if self@.queue.len() > 0 {
                assert(self@.queue[0] == old(self)@.queue[packets@.len() as int]);
                assert(old(self)@.queue.take(packets@.len() as int + 1).drop_last() =~= old(
                    self,
                )@.queue.take(packets@.len() as int));
            }
        }
        packets
    }
}

/// The bytes of a queue are its first datagram plus the rest.
proof fn lemma_total_bytes_first(q: Seq<Seq<u8>>)
    requires
        q.len() > 0,
    ensures
        total_bytes(q) == q[0].len() + total_bytes(q.drop_first()),
    decreases q.len(),
{
    if q.len() == 1 {
        assert(q.drop_first() =~= Seq::<Seq<u8>>::empty());
        assert(q.drop_last() =~= Seq::<Seq<u8>>::empty());
    } else {
        lemma_total_bytes_first(q.drop_last());
        assert(q.drop_last()[0] == q[0]);
        assert(q.drop_first().drop_last() =~= q.drop_last().drop_first());
        assert(q.drop_first().last() == q.last());
    }
}

} // verus!
