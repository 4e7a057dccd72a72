//! Adaptive interleaved XOR forward error correction.
//!
//! Outbound fragments round-robin across interleave slots; a slot
//! that reaches the current group size is XOR-folded into one parity
//! packet and cleared.  Interleaving converts bursty losses into
//! isolated losses within each XOR group, and a single erasure per
//! group is recovered exactly.  The group size follows the loss rate
//! and round-trip time: the worse the channel, the smaller the group.

use vstd::prelude::*;
use crate::loss::{LossEstimator, LOSS_SCALE};
use crate::packet::{copy_range, FecBody, FecView, ProtectedPacketMeta, RtpBody, RtpView};

verus! {

/// How many interleave slots an encoder keeps by default.
pub const DEFAULT_INTERLEAVE_DEPTH: usize = 3;

/// The XOR group size used until the channel says otherwise.
pub const DEFAULT_FEC_RATIO: u8 = 4;

/// `acc` with `d` XOR-folded in: positions past the end of either
/// side stay as they were.
pub open spec fn xor_into(acc: Seq<u8>, d: Seq<u8>) -> Seq<u8> {
    Seq::new(
        acc.len(),
        |i: int|
            if i < d.len() {
                acc[i] ^ d[i]
            } else {
                acc[i]
            },
    )
}

/// A run of zero bytes.
pub open spec fn zero_bytes(l: int) -> Seq<u8>
    recommends
        l >= 0,
{
    Seq::new(l as nat, |i: int| 0u8)
}

/// All of `ds` XOR-folded into `acc`, in order.
pub open spec fn xor_fold(acc: Seq<u8>, ds: Seq<Seq<u8>>) -> Seq<u8>
    decreases ds.len(),
{
    if ds.len() == 0 {
        acc
    } else {
        xor_into(xor_fold(acc, ds.drop_last()), ds.last())
    }
}

/// Folding in a list of payloads keeps the accumulator's length.
pub proof fn lemma_xor_fold_len(acc: Seq<u8>, ds: Seq<Seq<u8>>)
    ensures
        xor_fold(acc, ds).len() == acc.len(),
    decreases ds.len(),
{
    if ds.len() > 0 {
        lemma_xor_fold_len(acc, ds.drop_last());
    }
}

/// Two payloads may be folded in either order.
proof fn lemma_xor_into_comm(acc: Seq<u8>, a: Seq<u8>, b: Seq<u8>)
    ensures
        xor_into(xor_into(acc, a), b) == xor_into(xor_into(acc, b), a),
{
    let left = xor_into(xor_into(acc, a), b);
    let right = xor_into(xor_into(acc, b), a);
    assert forall|i: int| 0 <= i < left.len() implies left[i] == right[i] by {
        let x = acc[i];
        if i < a.len() && i < b.len() {
            let p = a[i];
            let q = b[i];
            assert((x ^ p) ^ q == (x ^ q) ^ p) by (bit_vector);
        }
    }
    assert(left =~= right);
}

/// Folding the same payload in twice undoes it.
proof fn lemma_xor_into_cancel(acc: Seq<u8>, d: Seq<u8>)
    ensures
        xor_into(xor_into(acc, d), d) == acc,
{
    let out = xor_into(xor_into(acc, d), d);
    assert forall|i: int| 0 <= i < out.len() implies out[i] == acc[i] by {
        if i < d.len() {
            let x = acc[i];
            let p = d[i];
            assert((x ^ p) ^ p == x) by (bit_vector);
        }
    }
    assert(out =~= acc);
}

/// A single payload moves freely through a fold of others.
proof fn lemma_xor_fold_pull(acc: Seq<u8>, ds: Seq<Seq<u8>>, d: Seq<u8>)
    ensures
        xor_fold(xor_into(acc, d), ds) == xor_into(xor_fold(acc, ds), d),
    decreases ds.len(),
{
    if ds.len() > 0 {
        lemma_xor_fold_pull(acc, ds.drop_last(), d);
        lemma_xor_into_comm(xor_fold(acc, ds.drop_last()), d, ds.last());
    }
}

/// Folding a list into the parity built from the same list leaves
/// the starting accumulator.
proof fn lemma_xor_fold_cancel(acc: Seq<u8>, ds: Seq<Seq<u8>>)
    ensures
        xor_fold(xor_fold(acc, ds), ds) == acc,
    decreases ds.len(),
{
    if ds.len() > 0 {
        let ds2 = ds.drop_last();
        let d = ds.last();
        lemma_xor_fold_pull(xor_fold(acc, ds), ds2, d);
        assert(xor_fold(xor_fold(acc, ds), ds) == xor_into(
            xor_fold(xor_fold(acc, ds), ds2),
            d,
        ));
        assert(xor_fold(acc, ds) == xor_into(xor_fold(acc, ds2), d));
        lemma_xor_fold_pull(xor_fold(acc, ds2), ds2, d);
        lemma_xor_fold_cancel(acc, ds2);
        lemma_xor_into_cancel(acc, d);
    }
}

/// Folding all payloads but entry `k` into the group parity leaves
/// exactly entry `k`, padded with zeroes to the parity length.
pub proof fn lemma_xor_single_erasure(ds: Seq<Seq<u8>>, k: int, l: int)
    requires
        0 <= k < ds.len(),
        l >= 0,
    ensures
        xor_fold(xor_fold(zero_bytes(l), ds), ds.remove(k)) == xor_into(zero_bytes(l), ds[k]),
    decreases ds.len(),
{
    let z = zero_bytes(l);
    let ds2 = ds.drop_last();
    let d = ds.last();
    if k == ds.len() - 1 {
        assert(ds.remove(k) =~= ds2);
        assert(xor_fold(z, ds) == xor_into(xor_fold(z, ds2), d));
        lemma_xor_fold_pull(xor_fold(z, ds2), ds2, d);
        lemma_xor_fold_cancel(z, ds2);
    } else {
        assert(ds.remove(k).drop_last() =~= ds2.remove(k));
        assert(ds.remove(k).last() == d);
        assert(xor_fold(xor_fold(z, ds), ds.remove(k)) == xor_into(
            xor_fold(xor_fold(z, ds), ds2.remove(k)),
            d,
        ));
        assert(xor_fold(z, ds) == xor_into(xor_fold(z, ds2), d));
        lemma_xor_fold_pull(xor_fold(z, ds2), ds2.remove(k), d);
        lemma_xor_single_erasure(ds2, k, l);
        lemma_xor_into_cancel(xor_fold(xor_fold(z, ds2), ds2.remove(k)), d);
    }
}

/// The payloads of a group, in order.
pub open spec fn group_datas(ps: Seq<RtpView>) -> Seq<Seq<u8>> {
    ps.map_values(|p: RtpView| p.data)
}

/// The longest payload length in a group.
pub open spec fn max_data_len(ps: Seq<RtpView>) -> int
    decreases ps.len(),
{
    if ps.len() == 0 {
        0
    } else {
        let rest = max_data_len(ps.drop_last());
        if ps.last().data.len() > rest {
            ps.last().data.len() as int
        } else {
            rest
        }
    }
}

/// The description a parity packet carries of one protected
/// fragment.
pub open spec fn rtp_meta(p: RtpView) -> ProtectedPacketMeta {
    ProtectedPacketMeta {
        sequence_number: p.sequence_number,
        timestamp: p.timestamp,
        frame_id: p.frame_id,
        fragment_number: p.fragment_number,
        total_fragments: p.total_fragments,
        data_length: p.data.len() as u16,
    }
}

/// The parity packet of a group: nothing for an empty group or one
/// of empty payloads, else the XOR of the payloads padded to the
/// longest, stamped with the last fragment's timestamp.
pub open spec fn spec_generate_fec(ps: Seq<RtpView>) -> Option<FecView> {
    if ps.len() == 0 || max_data_len(ps) == 0 {
        None
    } else {
        Some(
            FecView {
                timestamp: ps.last().timestamp,
                protected_packets: ps.map_values(|p: RtpView| rtp_meta(p)),
                fec_data: xor_fold(zero_bytes(max_data_len(ps)), group_datas(ps)),
            },
        )
    }
}

/// Whether some available fragment carries the sequence number the
/// description names.
pub open spec fn meta_covered(m: ProtectedPacketMeta, available: Seq<RtpView>) -> bool {
    exists|i: int| 0 <= i < available.len() && available[i].sequence_number == m.sequence_number
}

/// The first protected description no available fragment covers,
/// searching from `i` on.
pub open spec fn first_uncovered(
    metas: Seq<ProtectedPacketMeta>,
    available: Seq<RtpView>,
    i: int,
) -> Option<int>
    decreases metas.len() - i,
{
    if i < 0 || i >= metas.len() {
        None
    } else if !meta_covered(metas[i], available) {
        Some(i)
    } else {
        first_uncovered(metas, available, i + 1)
    }
}

/// What recovery returns: the missing fragment, rebuilt by folding
/// every available payload into the parity bytes and truncating to
/// the recorded length — or nothing unless exactly one fragment of
/// the group is missing.
/// Whether every available fragment's sequence number appears among
/// the protected descriptions: nothing foreign to the group.
pub open spec fn avail_in_group(available: Seq<RtpView>, metas: Seq<ProtectedPacketMeta>) -> bool {
    forall|i: int|
        0 <= i < available.len() ==> exists|j: int|
            0 <= j < metas.len() && metas[j].sequence_number == (
            #[trigger] available[i]).sequence_number
}

pub open spec fn spec_recover(f: FecView, available: Seq<RtpView>) -> Option<RtpView> {
    if available.len() + 1 != f.protected_packets.len() || !avail_in_group(
        available,
        f.protected_packets,
    ) {
        None
    } else {
        match first_uncovered(f.protected_packets, available, 0) {
            None => None,
            Some(k) => {
                let m = f.protected_packets[k];
                let folded = xor_fold(f.fec_data, group_datas(available));
                let cut = if m.data_length <= folded.len() {
                    m.data_length as int
                } else {
                    folded.len() as int
                };
                Some(
                    RtpView {
                        timestamp: m.timestamp,
                        sequence_number: m.sequence_number,
                        frame_id: m.frame_id,
                        fragment_number: m.fragment_number,
                        total_fragments: m.total_fragments,
                        data: folded.take(cut),
                    },
                )
            },
        }
    }
}

/// XOR `d` into `acc`, stopping at whichever runs out first.
fn xor_into_vec(acc: &mut Vec<u8>, d: &Vec<u8>)
    ensures
        final(acc)@ == xor_into(old(acc)@, d@),
{
    let mut i: usize = 0;
    while i < acc.len() && i < d.len()
        invariant
            i <= acc@.len(),
            acc@.len() == old(acc)@.len(),
            forall|j: int|
                0 <= j < acc@.len() ==> acc@[j] == (if j < i && j < d@.len() {
                    old(acc)@[j] ^ d@[j]
                } else {
                    old(acc)@[j]
                }),
        decreases acc@.len() - i,
    {
        let b = acc[i] ^ d[i];
        acc.set(i, b);
        i = i + 1;
    }
    assert(acc@ =~= xor_into(old(acc)@, d@));
}

/// The views of a list of fragments.
pub open spec fn rtp_views(v: Seq<RtpBody>) -> Seq<RtpView> {
    v.map_values(|b: RtpBody| b@)
}

/// The views of a list of parity packets.
pub open spec fn fec_views(v: Seq<FecBody>) -> Seq<FecView> {
    v.map_values(|b: FecBody| b@)
}

/// Whether some listed fragment carries `sequence`.
fn rtp_list_covers(available: &Vec<RtpBody>, sequence: u64) -> (r: bool)
    ensures
        r == exists|i: int|
            0 <= i < available@.len() && rtp_views(available@)[i].sequence_number == sequence,
{
    let mut i: usize = 0;
    while i < available.len()
        invariant
            i <= available@.len(),
            forall|j: int| 0 <= j < i ==> rtp_views(available@)[j].sequence_number != sequence,
        decreases available@.len() - i,
    {
        if available[i].sequence_number == sequence {
            assert(rtp_views(available@)[i as int].sequence_number == sequence);
            return true;
        }
        i = i + 1;
    }
    false
}

/// One parity packet XOR-protecting the whole group, or nothing for
/// an empty group or empty payloads.
pub fn generate_fec_packet(packets: &Vec<RtpBody>) -> (r: Option<FecBody>)
    requires
        packets@.len() <= 255,
        forall|i: int| 0 <= i < packets@.len() ==> (#[trigger] packets@[i])@.data.len() <= 0xFFFF,
    ensures
        match r {
            Some(f) => spec_generate_fec(rtp_views(packets@)) == Some(f@),
            None => spec_generate_fec(rtp_views(packets@)) is None,
        },
{
    let ghost views = rtp_views(packets@);
    if packets.len() == 0 {
        return None;
    }
    let mut max_len: usize = 0;
    let mut i: usize = 0;
    while i < packets.len()
        invariant
            i <= packets@.len(),
            views == rtp_views(packets@),
            max_len == max_data_len(views.take(i as int)),
        decreases packets@.len() - i,
    {
        assert(views.take(i + 1).drop_last() =~= views.take(i as int));
        if packets[i].data.len() > max_len {
            max_len = packets[i].data.len();
        }
        i = i + 1;
    }
    assert(views.take(views.len() as int) =~= views);
    if max_len == 0 {
        return None;
    }
    let mut fec_data: Vec<u8> = Vec::new();
    let mut z: usize = 0;
    while z < max_len
        invariant
            z <= max_len,
            fec_data@ == zero_bytes(z as int),
        decreases max_len - z,
    {
        fec_data.push(0u8);
        assert(fec_data@ =~= zero_bytes(z + 1));
        z = z + 1;
    }
    let mut protected_packets: Vec<ProtectedPacketMeta> = Vec::new();
    let mut j: usize = 0;
    while j < packets.len()
        invariant
            j <= packets@.len(),
            views == rtp_views(packets@),
            max_len == max_data_len(views),
            protected_packets@.len() == j,
            forall|k: int| 0 <= k < j ==> protected_packets@[k] == rtp_meta(views[k]),
            fec_data@ == xor_fold(zero_bytes(max_len as int), group_datas(views.take(j as int))),
        decreases packets@.len() - j,
    {
        let packet = &packets[j];
        protected_packets.push(
            ProtectedPacketMeta {
                sequence_number: packet.sequence_number,
                timestamp: packet.timestamp,
                frame_id: packet.frame_id,
                fragment_number: packet.fragment_number,
                total_fragments: packet.total_fragments,
                data_length: packet.data.len() as u16,
            },
        );
        xor_into_vec(&mut fec_data, &packet.data);
        proof {
            let ds = group_datas(views);
            assert(group_datas(views.take(j + 1)).drop_last() =~= group_datas(
                views.take(j as int),
            ));
            assert(group_datas(views.take(j + 1)).last() == views[j as int].data);
        }
        j = j + 1;
    }
    let timestamp = packets[packets.len() - 1].timestamp;
    proof {
        assert(views.take(views.len() as int) =~= views);
        assert(protected_packets@ =~= views.map_values(|p: RtpView| rtp_meta(p)));
    }
    Some(FecBody { timestamp, protected_packets, fec_data })
}

/// Rebuild the one missing fragment of a parity packet's group from
/// the fragments that did arrive: a packet comes back only when
/// exactly one protected fragment is absent and every supplied
/// fragment belongs to the group.
pub fn recover_packet(fec_packet: &FecBody, available_packets: &Vec<RtpBody>) -> (r: Option<
    RtpBody,
>)
    ensures
        match r {
            Some(p) => spec_recover(fec_packet@, rtp_views(available_packets@)) == Some(p@),
            None => spec_recover(fec_packet@, rtp_views(available_packets@)) is None,
        },
{
    let ghost avail = rtp_views(available_packets@);
    let ghost metas = fec_packet@.protected_packets;
    if fec_packet.protected_packets.len() == 0 || available_packets.len()
        != fec_packet.protected_packets.len() - 1 {
        return None;
    }
    let mut a: usize = 0;
    while a < available_packets.len()
        invariant
            a <= available_packets@.len(),
            avail == rtp_views(available_packets@),
            metas == fec_packet@.protected_packets,
            forall|i: int|
                0 <= i < a ==> exists|j: int|
                    0 <= j < metas.len() && metas[j].sequence_number == (
                    #[trigger] avail[i]).sequence_number,
        decreases available_packets@.len() - a,
    {
        let mut covered = false;
        let mut j: usize = 0;
        while j < fec_packet.protected_packets.len()
            invariant
                j <= metas.len(),
                metas == fec_packet@.protected_packets,
                avail == rtp_views(available_packets@),
                a < avail.len(),
                covered ==> exists|t: int|
                    0 <= t < metas.len() && metas[t].sequence_number
                        == avail[a as int].sequence_number,
                !covered ==> forall|t: int|
                    0 <= t < j ==> (#[trigger] metas[t]).sequence_number
                        != avail[a as int].sequence_number,
            decreases metas.len() - j,
        {
            if fec_packet.protected_packets[j].sequence_number
                == available_packets[a].sequence_number {
                proof {
                    assert(metas[j as int].sequence_number == avail[a as int].sequence_number);
                }
                covered = true;
            }
            j = j + 1;
        }
        if !covered {
            assert(!avail_in_group(avail, metas));
            return None;
        }
        a = a + 1;
    }
    assert(avail_in_group(avail, metas));
    let mut k: usize = 0;
    let mut found: bool = false;
    while k < fec_packet.protected_packets.len() && !found
        invariant
            k <= metas.len(),
            metas == fec_packet@.protected_packets,
            avail == rtp_views(available_packets@),
            first_uncovered(metas, avail, 0) == first_uncovered(metas, avail, k as int),
            found ==> k < metas.len() && first_uncovered(metas, avail, k as int) == Some(
                k as int,
            ),
        decreases metas.len() - k, (if found { 0int } else { 1int }),
    {
        if !rtp_list_covers(available_packets, fec_packet.protected_packets[k].sequence_number) {
            assert(!meta_covered(metas[k as int], avail));
            found = true;
        } else {
            assert(meta_covered(metas[k as int], avail));
            k = k + 1;
        }
    }
    if !found {
        assert(first_uncovered(metas, avail, 0) is None);
        return None;
    }
    let missing_meta = &fec_packet.protected_packets[k];
    let mut recovered_data = copy_range(
        fec_packet.fec_data.as_slice(),
        0,
        fec_packet.fec_data.len(),
    );
    assert(recovered_data@ =~= fec_packet@.fec_data);
    let mut i: usize = 0;
    while i < available_packets.len()
        invariant
            i <= available_packets@.len(),
            avail == rtp_views(available_packets@),
            recovered_data@ == xor_fold(fec_packet@.fec_data, group_datas(avail.take(i as int))),
        decreases available_packets@.len() - i,
    {
        xor_into_vec(&mut recovered_data, &available_packets[i].data);
        proof {
            assert(group_datas(avail.take(i + 1)).drop_last() =~= group_datas(
                avail.take(i as int),
            ));
            assert(group_datas(avail.take(i + 1)).last() == avail[i as int].data);
        }
        i = i + 1;
    }
    assert(avail.take(avail.len() as int) =~= avail);
    let ghost folded = recovered_data@;
    recovered_data.truncate(missing_meta.data_length as usize);
    proof {
        if missing_meta.data_length as int > folded.len() {
            assert(folded.take(folded.len() as int) =~= folded);
        }
    }
    Some(
        RtpBody {
            timestamp: missing_meta.timestamp,
            sequence_number: missing_meta.sequence_number,
            frame_id: missing_meta.frame_id,
            fragment_number: missing_meta.fragment_number,
            total_fragments: missing_meta.total_fragments,
            data: recovered_data,
        },
    )
}

/// The protection table: a round trip over 200 ms or a loss rate of
/// ten percent and up takes a group of two; over 100 ms or five
/// percent and up, three; a healthy channel, four.  Loss rates are
/// in parts of [`LOSS_SCALE`]; ties go to the more protective
/// (smaller) group.
pub open spec fn ratio_table(rtt_ms: u64, loss_rate: u64) -> u8 {
    if rtt_ms > 200 || loss_rate >= LOSS_SCALE / 10 {
        2
    } else if rtt_ms > 100 || loss_rate >= LOSS_SCALE / 20 {
        3
    } else {
        4
    }
}

/// Ratio bounds: the table always picks a group of two, three or
/// four, and the group size the encoder adopts is the table's pick
/// exactly — never larger.
pub proof fn lemma_fec_ratio_bounds(rtt_ms: u64, loss_rate: u64)
    ensures
        2 <= ratio_table(rtt_ms, loss_rate) <= 4,
        chosen_group_size(rtt_ms, loss_rate) == ratio_table(rtt_ms, loss_rate),
        chosen_group_size(rtt_ms, loss_rate) <= ratio_table(rtt_ms, loss_rate),
{
}

/// The group size adopted for a channel: the table's ratio, floored
/// at two.
pub open spec fn chosen_group_size(rtt_ms: u64, loss_rate: u64) -> int {
    let ratio = ratio_table(rtt_ms, loss_rate) as int;
    if ratio < 2 {
        2
    } else {
        ratio
    }
}

/// Mathematical image of the encoder.
pub struct FecEncoderView {
    pub slots: Seq<Seq<RtpView>>,
    pub current_slot: int,
    pub group_size: int,
    pub interleave_depth: int,
}

impl FecEncoderView {
    /// One slot list per interleave lane, every slot short of the
    /// group size, every stored payload within the wire length field.
    pub open spec fn wf(self) -> bool {
        &&& 1 <= self.interleave_depth
        &&& self.slots.len() == self.interleave_depth
        &&& 0 <= self.current_slot < self.interleave_depth
        &&& 2 <= self.group_size <= 4
        &&& forall|i: int|
            0 <= i < self.slots.len() ==> (#[trigger] self.slots[i]).len() < self.group_size
        &&& forall|i: int, j: int|
            0 <= i < self.slots.len() && 0 <= j < self.slots[i].len() ==> (
            #[trigger] self.slots[i][j]).data.len() <= 0xFFFF
    }
}

/// Every slot that reached the group size, emptied; the others kept.
pub open spec fn swept_slots(slots: Seq<Seq<RtpView>>, group_size: int) -> Seq<Seq<RtpView>> {
    Seq::new(
        slots.len(),
        |i: int|
            if slots[i].len() >= group_size {
                Seq::empty()
            } else {
                slots[i]
            },
    )
}

/// The parity packets of every slot that reached the group size, in
/// slot order.
pub open spec fn swept_parities(slots: Seq<Seq<RtpView>>, group_size: int) -> Seq<FecView>
    decreases slots.len(),
{
    if slots.len() == 0 {
        Seq::empty()
    } else {
        swept_parities(slots.drop_last(), group_size) + (if slots.last().len() >= group_size {
            match spec_generate_fec(slots.last()) {
                Some(f) => seq![f],
                None => Seq::empty(),
            }
        } else {
            Seq::empty()
        })
    }
}

/// The parity packets a flush emits: one per slot holding at least
/// two fragments, in slot order.
pub open spec fn flushed_parities(slots: Seq<Seq<RtpView>>) -> Seq<FecView>
    decreases slots.len(),
{
    if slots.len() == 0 {
        Seq::empty()
    } else {
        flushed_parities(slots.drop_last()) + (if slots.last().len() > 1 {
            match spec_generate_fec(slots.last()) {
                Some(f) => seq![f],
                None => Seq::empty(),
            }
        } else {
            Seq::empty()
        })
    }
}

/// Interleaved XOR encoder whose group size follows the channel.
pub struct AdaptiveFecEncoder {
    slots: Vec<Vec<RtpBody>>,
    current_slot: usize,
    group_size: usize,
    interleave_depth: usize,
}

impl View for AdaptiveFecEncoder {
    type V = FecEncoderView;

    closed spec fn view(&self) -> FecEncoderView {
        FecEncoderView {
            slots: Seq::new(self.slots@.len(), |i: int| rtp_views(self.slots@[i]@)),
            current_slot: self.current_slot as int,
            group_size: self.group_size as int,
            interleave_depth: self.interleave_depth as int,
        }
    }
}

impl AdaptiveFecEncoder {
    /// An encoder with the default interleave depth.
    pub fn new() -> (r: AdaptiveFecEncoder)
        ensures
            r@.wf(),
            r@.interleave_depth == DEFAULT_INTERLEAVE_DEPTH,
            r@.current_slot == 0,
            r@.group_size == DEFAULT_FEC_RATIO,
            forall|i: int| 0 <= i < r@.slots.len() ==> (#[trigger] r@.slots[i]).len() == 0,
    {
        AdaptiveFecEncoder::with_depth(DEFAULT_INTERLEAVE_DEPTH)
    }

    /// An encoder with `depth` interleave lanes, at least one.
    pub fn with_depth(depth: usize) -> (r: AdaptiveFecEncoder)
        ensures
            r@.wf(),
            r@.interleave_depth == (if depth < 1 {
                1int
            } else {
                depth as int
            }),
            r@.current_slot == 0,
            r@.group_size == DEFAULT_FEC_RATIO,
            forall|i: int| 0 <= i < r@.slots.len() ==> (#[trigger] r@.slots[i]).len() == 0,
    {
        let depth = if depth < 1 {
            1
        } else {
            depth
        };
        let mut slots: Vec<Vec<RtpBody>> = Vec::new();
        let mut i: usize = 0;
        while i < depth
            invariant
                i <= depth,
                slots@.len() == i,
                forall|j: int| 0 <= j < i ==> rtp_views((#[trigger] slots@[j])@).len() == 0,
            decreases depth - i,
        {
            slots.push(Vec::new());
            i = i + 1;
        }
        AdaptiveFecEncoder {
            slots,
            current_slot: 0,
            group_size: DEFAULT_FEC_RATIO as usize,
            interleave_depth: depth,
        }
    }

    /// How many fragments wait in the lanes, not yet protected.
    /// The total must fit the machine word it is returned in.
    pub fn get_pending_count(&self) -> (r: usize)
        requires
            self@.wf(),
            total_pending(self@.slots) <= usize::MAX,
        ensures
            r == total_pending(self@.slots),
    {
        let mut total: usize = 0;
        let mut i: usize = 0;
        while i < self.slots.len()
            invariant
                i <= self@.slots.len(),
                self@.wf(),
                total_pending(self@.slots) <= usize::MAX,
                total == total_pending(self@.slots.take(i as int)),
            decreases self@.slots.len() - i,
        {
            assert(self@.slots.take(i + 1).drop_last() =~= self@.slots.take(i as int));
            proof {
                lemma_total_pending_prefix(self@.slots, i + 1);
                lemma_total_pending_nonneg(self@.slots.take(i as int));
            }
            total = total + self.slots[i].len();
            i = i + 1;
        }
        assert(self@.slots.take(self@.slots.len() as int) =~= self@.slots);
        total
    }

    /// Empty every lane and re-arm the defaults.
    pub fn reset(&mut self)
        requires
            old(self)@.wf(),
        ensures
            final(self)@.wf(),
            final(self)@.interleave_depth == old(self)@.interleave_depth,
            final(self)@.current_slot == 0,
            final(self)@.group_size == DEFAULT_FEC_RATIO,
            forall|i: int|
                0 <= i < final(self)@.slots.len() ==> (#[trigger] final(self)@.slots[i]).len()
                    == 0,
    {
        let mut i: usize = 0;
        while i < self.slots.len()
            invariant
                i <= self@.slots.len(),
                self@.slots.len() == old(self)@.slots.len(),
                self@.interleave_depth == old(self)@.interleave_depth,
                self@.group_size == old(self)@.group_size,
                self@.current_slot == old(self)@.current_slot,
                forall|j: int| 0 <= j < i ==> (#[trigger] self@.slots[j]).len() == 0,
                forall|j: int, k: int|
                    0 <= j < self@.slots.len() && 0 <= k < self@.slots[j].len() ==> (
                    #[trigger] self@.slots[j][k]).data.len() <= 0xFFFF,
                forall|j: int|
                    0 <= j < self@.slots.len() ==> (#[trigger] self@.slots[j]).len() < 4
                        || self@.slots[j].len() == old(self)@.slots[j].len(),
            decreases self@.slots.len() - i,
        {
            let mut empty: Vec<RtpBody> = Vec::new();
            let ghost prev = self@.slots;
            self.slots.set_and_swap(i, &mut empty);
            assert(self@.slots =~~= prev.update(i as int, Seq::empty()));
            i = i + 1;
        }
        self.current_slot = 0;
        self.group_size = DEFAULT_FEC_RATIO as usize;
    }
}

/// How many fragments a lane list holds in all.
pub open spec fn total_pending(slots: Seq<Seq<RtpView>>) -> int
    decreases slots.len(),
{
    if slots.len() == 0 {
        0
    } else {
        total_pending(slots.drop_last()) + slots.last().len()
    }
}

/// Every parity packet a sweep emits protects one lane: at most
/// `bound` fragments, each payload within the wire length field.
pub proof fn lemma_swept_parities_wf(slots: Seq<Seq<RtpView>>, group_size: int, bound: int)
    requires
        forall|i: int| 0 <= i < slots.len() ==> (#[trigger] slots[i]).len() <= bound,
    ensures
        forall|j: int|
            0 <= j < swept_parities(slots, group_size).len() ==> (#[trigger] swept_parities(
                slots,
                group_size,
            )[j]).protected_packets.len() <= bound,
    decreases slots.len(),
{
    if slots.len() > 0 {
        assert forall|i: int| 0 <= i < slots.len() - 1 implies (
        #[trigger] slots.drop_last()[i]).len() <= bound by {
            assert(slots.drop_last()[i] == slots[i]);
        }
        lemma_swept_parities_wf(slots.drop_last(), group_size, bound);
        let out = swept_parities(slots, group_size);
        let rest = swept_parities(slots.drop_last(), group_size);
        assert forall|j: int| 0 <= j < out.len() implies (
        #[trigger] out[j]).protected_packets.len() <= bound by {
            if j < rest.len() {
                assert(out[j] == rest[j]);
            }
        }
    }
}

/// Every parity packet a flush emits protects one lane: at most
/// `bound` fragments.
pub proof fn lemma_flushed_parities_wf(slots: Seq<Seq<RtpView>>, bound: int)
    requires
        forall|i: int| 0 <= i < slots.len() ==> (#[trigger] slots[i]).len() <= bound,
    ensures
        forall|j: int|
            0 <= j < flushed_parities(slots).len() ==> (#[trigger] flushed_parities(
                slots,
            )[j]).protected_packets.len() <= bound,
    decreases slots.len(),
{
    if slots.len() > 0 {
        assert forall|i: int| 0 <= i < slots.len() - 1 implies (
        #[trigger] slots.drop_last()[i]).len() <= bound by {
            assert(slots.drop_last()[i] == slots[i]);
        }
        lemma_flushed_parities_wf(slots.drop_last(), bound);
        let out = flushed_parities(slots);
        let rest = flushed_parities(slots.drop_last());
        assert forall|j: int| 0 <= j < out.len() implies (
        #[trigger] out[j]).protected_packets.len() <= bound by {
            if j < rest.len() {
                assert(out[j] == rest[j]);
            }
        }
    }
}

/// A lane list never holds a negative number of fragments.
proof fn lemma_total_pending_nonneg(slots: Seq<Seq<RtpView>>)
    ensures
        total_pending(slots) >= 0,
    decreases slots.len(),
{
    if slots.len() > 0 {
        lemma_total_pending_nonneg(slots.drop_last());
    }
}

/// A prefix of the lanes holds no more fragments than all of them.
proof fn lemma_total_pending_prefix(slots: Seq<Seq<RtpView>>, i: int)
    requires
        0 <= i <= slots.len(),
    ensures
        total_pending(slots.take(i)) <= total_pending(slots),
    decreases slots.len() - i,
{
    if i < slots.len() {
        lemma_total_pending_prefix(slots, i + 1);
        assert(slots.take(i + 1).drop_last() =~= slots.take(i));
        assert(slots.take(i + 1).last() == slots[i]);
    } else {
        assert(slots.take(i) =~= slots);
    }
}

/// The lanes after the incoming fragment joins the current one.
pub open spec fn pushed_slots(v: FecEncoderView, p: RtpView) -> Seq<Seq<RtpView>> {
    v.slots.update(v.current_slot, v.slots[v.current_slot].push(p))
}

/// The protection table as executable code.
fn decide_ratio(loss_rate: u64, rtt_ms: u64) -> (r: u8)
    ensures
        r == ratio_table(rtt_ms, loss_rate),
{
    if rtt_ms > 200 || loss_rate >= LOSS_SCALE / 10 {
        2
    } else if rtt_ms > 100 || loss_rate >= LOSS_SCALE / 20 {
        3
    } else {
        4
    }
}

impl AdaptiveFecEncoder {
    /// Adopt the group size the channel calls for, lane the fragment,
    /// and return one parity packet for every lane that reached the
    /// group size — those lanes start over empty.
    pub fn process_packet(
        &mut self,
        packet: RtpBody,
        loss_estimator: &LossEstimator,
        rtt_ms: u64,
    ) -> (r: Vec<FecBody>)
        requires
            old(self)@.wf(),
            packet@.data.len() <= 0xFFFF,
        ensures
            final(self)@.wf(),
            final(self)@.interleave_depth == old(self)@.interleave_depth,
            final(self)@.group_size == chosen_group_size(rtt_ms, loss_estimator@.smoothed),
            final(self)@.current_slot == (old(self)@.current_slot + 1)
                % old(self)@.interleave_depth,
            final(self)@.slots == swept_slots(
                pushed_slots(old(self)@, packet@),
                final(self)@.group_size,
            ),
            fec_views(r@) == swept_parities(
                pushed_slots(old(self)@, packet@),
                final(self)@.group_size,
            ),
    {
        let stats = loss_estimator.get_stats();
        let ratio = decide_ratio(stats.loss_rate, rtt_ms);
        self.group_size = if (ratio as usize) < 2 {
            2
        } else {
            ratio as usize
        };
        let mut slot: Vec<RtpBody> = Vec::new();
        let cur = self.current_slot;
        self.slots.set_and_swap(cur, &mut slot);
        slot.push(packet);
        self.slots.set_and_swap(cur, &mut slot);
        assert(self@.slots =~~= pushed_slots(old(self)@, packet@));
        self.current_slot = (self.current_slot + 1) % self.interleave_depth;
        let ghost pushed = self@.slots;
        let ghost gs = self@.group_size;
        let mut fec_packets: Vec<FecBody> = Vec::new();
        let mut i: usize = 0;
        while i < self.slots.len()
            invariant
                i <= self@.slots.len(),
                self@.slots.len() == pushed.len(),
                self@.interleave_depth == pushed.len(),
                self@.interleave_depth == old(self)@.interleave_depth,
                self@.current_slot == (old(self)@.current_slot + 1)
                    % old(self)@.interleave_depth,
                0 <= self@.current_slot < self@.interleave_depth,
                2 <= gs <= 4,
                self@.group_size == gs,
                gs == chosen_group_size(rtt_ms, loss_estimator@.smoothed),
                pushed == pushed_slots(old(self)@, packet@),
                forall|j: int| 0 <= j < pushed.len() ==> (#[trigger] pushed[j]).len() <= 4,
                forall|j: int, k: int|
                    0 <= j < pushed.len() && 0 <= k < pushed[j].len() ==> (
                    #[trigger] pushed[j][k]).data.len() <= 0xFFFF,
                forall|j: int| i <= j < pushed.len() ==> self@.slots[j] == pushed[j],
                forall|j: int|
                    0 <= j < i ==> self@.slots[j] == (if pushed[j].len() >= gs {
                        Seq::<RtpView>::empty()
                    } else {
                        pushed[j]
                    }),
                fec_views(fec_packets@) == swept_parities(pushed.take(i as int), gs),
            decreases self@.slots.len() - i,
        {
            assert(pushed.take(i + 1).drop_last() =~= pushed.take(i as int));
            assert(pushed.take(i + 1).last() == pushed[i as int]);
            proof {
                assert(rtp_views(self.slots@[i as int]@) == pushed[i as int]);
                assert forall|k: int| 0 <= k < self.slots@[i as int]@.len() implies (
                #[trigger] self.slots@[i as int]@[k])@.data.len() <= 0xFFFF by {
                    assert(pushed[i as int][k] == self.slots@[i as int]@[k]@);
                }
            }
            if self.slots[i].len() >= self.group_size {
                match generate_fec_packet(&self.slots[i]) {
                    Some(fec) => {
                        fec_packets.push(fec);
                        assert(fec_views(fec_packets@) =~= swept_parities(
                            pushed.take(i + 1),
                            gs,
                        ));
                    },
                    None => {
                        assert(fec_views(fec_packets@) =~= swept_parities(
                            pushed.take(i + 1),
                            gs,
                        ));
                    },
                }
                let mut empty: Vec<RtpBody> = Vec::new();
                let ghost prev = self@.slots;
                self.slots.set_and_swap(i, &mut empty);
                assert(self@.slots =~~= prev.update(i as int, Seq::empty()));
            } else {
                assert(fec_views(fec_packets@) =~= swept_parities(pushed.take(i + 1), gs));
            }
            i = i + 1;
        }
        assert(pushed.take(pushed.len() as int) =~= pushed);
        assert(self@.slots =~~= swept_slots(pushed, gs));
        fec_packets
    }

    /// Protect what is still waiting: one parity packet per lane
    /// holding at least two fragments, then every lane starts over
    /// empty and the round-robin is rewound.
    pub fn flush(&mut self) -> (r: Vec<FecBody>)
        requires
            old(self)@.wf(),
        ensures
            final(self)@.wf(),
            final(self)@.interleave_depth == old(self)@.interleave_depth,
            final(self)@.group_size == old(self)@.group_size,
            final(self)@.current_slot == 0,
            forall|i: int|
                0 <= i < final(self)@.slots.len() ==> (#[trigger] final(self)@.slots[i]).len()
                    == 0,
            fec_views(r@) == flushed_parities(old(self)@.slots),
    {
        let ghost orig = self@.slots;
        let mut fec_packets: Vec<FecBody> = Vec::new();
        let mut i: usize = 0;
        while i < self.slots.len()
            invariant
                i <= self@.slots.len(),
                orig == old(self)@.slots,
                self@.slots.len() == orig.len(),
                self@.interleave_depth == orig.len(),
                self@.interleave_depth == old(self)@.interleave_depth,
                0 <= self@.current_slot < self@.interleave_depth,
                self@.group_size == old(self)@.group_size,
                2 <= self@.group_size <= 4,
                forall|j: int| 0 <= j < orig.len() ==> (#[trigger] orig[j]).len() <= 4,
                forall|j: int, k: int|
                    0 <= j < orig.len() && 0 <= k < orig[j].len() ==> (
                    #[trigger] orig[j][k]).data.len() <= 0xFFFF,
                forall|j: int| i <= j < orig.len() ==> self@.slots[j] == orig[j],
                forall|j: int| 0 <= j < i ==> (#[trigger] self@.slots[j]).len() == 0,
                fec_views(fec_packets@) == flushed_parities(orig.take(i as int)),
            decreases self@.slots.len() - i,
        {
            assert(orig.take(i + 1).drop_last() =~= orig.take(i as int));
            assert(orig.take(i + 1).last() == orig[i as int]);
            proof {
                assert(rtp_views(self.slots@[i as int]@) == orig[i as int]);
                assert forall|k: int| 0 <= k < self.slots@[i as int]@.len() implies (
                #[trigger] self.slots@[i as int]@[k])@.data.len() <= 0xFFFF by {
                    assert(orig[i as int][k] == self.slots@[i as int]@[k]@);
                }
            }
            if self.slots[i].len() > 1 {
                match generate_fec_packet(&self.slots[i]) {
                    Some(fec) => {
                        fec_packets.push(fec);
                        assert(fec_views(fec_packets@) =~= flushed_parities(orig.take(i + 1)));
                    },
                    None => {
                        assert(fec_views(fec_packets@) =~= flushed_parities(orig.take(i + 1)));
                    },
                }
            } else {
                assert(fec_views(fec_packets@) =~= flushed_parities(orig.take(i + 1)));
            }
            let mut empty: Vec<RtpBody> = Vec::new();
            let ghost prev = self@.slots;
            self.slots.set_and_swap(i, &mut empty);
            assert(self@.slots =~~= prev.update(i as int, Seq::empty()));
            i = i + 1;
        }
        assert(orig.take(orig.len() as int) =~= orig);
        self.current_slot = 0;
        fec_packets
    }
}

/// No payload outgrows the longest payload of its group.
proof fn lemma_max_data_len_bound(ps: Seq<RtpView>, i: int)
    requires
        0 <= i < ps.len(),
    ensures
        ps[i].data.len() <= max_data_len(ps),
    decreases ps.len(),
{
    if i < ps.len() - 1 {
        lemma_max_data_len_bound(ps.drop_last(), i);
    }
}

/// The search finds `k` when everything before `k` is covered and
/// `k` is not.
proof fn lemma_first_uncovered_exact(
    metas: Seq<ProtectedPacketMeta>,
    available: Seq<RtpView>,
    i: int,
    k: int,
)
    requires
        0 <= i <= k < metas.len(),
        forall|j: int| i <= j < k ==> meta_covered(#[trigger] metas[j], available),
        !meta_covered(metas[k], available),
    ensures
        first_uncovered(metas, available, i) == Some(k),
    decreases k - i,
{
    if i < k {
        lemma_first_uncovered_exact(metas, available, i + 1, k);
    }
}

/// FEC single erasure: for a group of fragments with distinct
/// sequence numbers, recovery from the group's parity packet and all
/// fragments but one returns the missing fragment exactly; with two
/// or more missing, recovery returns nothing.
pub proof fn lemma_fec_single_erasure(g: Seq<RtpView>, k: int)
    requires
        1 <= g.len() <= 255,
        0 <= k < g.len(),
        forall|i: int, j: int|
            0 <= i < j < g.len() ==> (#[trigger] g[i]).sequence_number != (
            #[trigger] g[j]).sequence_number,
        forall|i: int| 0 <= i < g.len() ==> (#[trigger] g[i]).data.len() <= 0xFFFF,
        max_data_len(g) >= 1,
    ensures
        spec_generate_fec(g) is Some,
        spec_recover(spec_generate_fec(g).unwrap(), g.remove(k)) == Some(g[k]),
        forall|available: Seq<RtpView>|
            available.len() + 1 != g.len() ==> spec_recover(
                spec_generate_fec(g).unwrap(),
                available,
            ) is None,
{
    let l = max_data_len(g);
    let f = spec_generate_fec(g).unwrap();
    let avail = g.remove(k);
    let metas = f.protected_packets;
    lemma_xor_fold_len(zero_bytes(l), group_datas(g));
    assert forall|j: int| 0 <= j < k implies meta_covered(#[trigger] metas[j], avail) by {
        assert(avail[j] == g[j]);
    }
    assert(!meta_covered(metas[k], avail)) by {
        if meta_covered(metas[k], avail) {
            let i = choose|i: int|
                0 <= i < avail.len() && avail[i].sequence_number == metas[k].sequence_number;
            if i < k {
                assert(avail[i] == g[i]);
            } else {
                assert(avail[i] == g[i + 1]);
            }
        }
    }
    lemma_first_uncovered_exact(metas, avail, 0, k);
    assert(avail_in_group(avail, metas)) by {
        assert forall|i: int| 0 <= i < avail.len() implies exists|j: int|
            0 <= j < metas.len() && metas[j].sequence_number == (
            #[trigger] avail[i]).sequence_number by {
            if i < k {
                assert(avail[i] == g[i]);
                assert(metas[i].sequence_number == avail[i].sequence_number);
            } else {
                assert(avail[i] == g[i + 1]);
                assert(metas[i + 1].sequence_number == avail[i].sequence_number);
            }
        }
    }
    assert(group_datas(avail) =~= group_datas(g).remove(k));
    lemma_xor_single_erasure(group_datas(g), k, l);
    let folded = xor_fold(f.fec_data, group_datas(avail));
    assert(folded == xor_into(zero_bytes(l), g[k].data));
    lemma_max_data_len_bound(g, k);
    let recovered = spec_recover(f, avail).unwrap();
    assert(recovered.data =~= g[k].data) by {
        assert(metas[k].data_length == g[k].data.len());
        assert forall|t: int| 0 <= t < g[k].data.len() implies folded[t] == g[k].data[t] by {
            let b = g[k].data[t];
            assert(0u8 ^ b == b) by (bit_vector);
        }
    }
    assert(spec_recover(f, avail) == Some(g[k]));
}

} // verus!
