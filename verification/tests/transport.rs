use opencord::fec::{generate_fec_packet, recover_packet, AdaptiveFecEncoder};
use opencord::loss::LossEstimator;
use opencord::nack::{NackController, PendingNack};
use opencord::packet::{
    FecBody, FrameBuffer, NackBody, Packet, PacketSerializer, PingBody, PongBody, RtpBody,
};
use opencord::runner::ConnectionRunner;

fn rtp(seq: u64, frame_id: u64, frag: u16, total: u16, data: Vec<u8>) -> RtpBody {
    RtpBody {
        timestamp: 7,
        sequence_number: seq,
        frame_id,
        fragment_number: frag,
        total_fragments: total,
        data,
    }
}

fn assert_rtp_eq(a: &RtpBody, b: &RtpBody) {
    assert_eq!(a.timestamp, b.timestamp);
    assert_eq!(a.sequence_number, b.sequence_number);
    assert_eq!(a.frame_id, b.frame_id);
    assert_eq!(a.fragment_number, b.fragment_number);
    assert_eq!(a.total_fragments, b.total_fragments);
    assert_eq!(a.data, b.data);
}

#[test]
fn codec_round_trip_rtp() {
    let p = rtp(3, 9, 1, 4, vec![1, 2, 3, 4, 5]);
    let bytes = PacketSerializer::serialize(&Packet::Rtp(rtp(3, 9, 1, 4, vec![1, 2, 3, 4, 5])));
    match PacketSerializer::deserialize(&bytes) {
        Some(Packet::Rtp(q)) => assert_rtp_eq(&p, &q),
        _ => panic!("wrong kind"),
    }
}

#[test]
fn codec_round_trip_ping_pong() {
    let bytes = PacketSerializer::serialize(&Packet::Ping(PingBody {
        timestamp: 77,
        data: vec![9, 8],
    }));
    assert_eq!(bytes[0], 0x01);
    match PacketSerializer::deserialize(&bytes) {
        Some(Packet::Ping(b)) => {
            assert_eq!(b.timestamp, 77);
            assert_eq!(b.data, vec![9, 8]);
        }
        _ => panic!("wrong kind"),
    }
    let bytes = PacketSerializer::serialize(&Packet::Pong(PongBody {
        timestamp: 5,
        data: vec![],
    }));
    assert_eq!(bytes[0], 0x02);
    match PacketSerializer::deserialize(&bytes) {
        Some(Packet::Pong(b)) => {
            assert_eq!(b.timestamp, 5);
            assert!(b.data.is_empty());
        }
        _ => panic!("wrong kind"),
    }
}

#[test]
fn codec_round_trip_nack_and_fec() {
    let bytes = PacketSerializer::serialize(&Packet::Nack(NackBody {
        missing_sequences: vec![4, 5, 6],
    }));
    assert_eq!(bytes[0], 0x04);
    match PacketSerializer::deserialize(&bytes) {
        Some(Packet::Nack(b)) => assert_eq!(b.missing_sequences, vec![4, 5, 6]),
        _ => panic!("wrong kind"),
    }

    let group = vec![
        rtp(0, 1, 0, 2, vec![1, 2, 3]),
        rtp(1, 1, 1, 2, vec![4, 5]),
    ];
    let fec = generate_fec_packet(&group).expect("parity");
    let bytes = PacketSerializer::serialize(&Packet::Fec(FecBody {
        timestamp: fec.timestamp,
        protected_packets: fec.protected_packets.clone(),
        fec_data: fec.fec_data.clone(),
    }));
    assert_eq!(bytes[0], 0x03);
    match PacketSerializer::deserialize(&bytes) {
        Some(Packet::Fec(b)) => {
            assert_eq!(b.timestamp, fec.timestamp);
            assert_eq!(b.fec_data, fec.fec_data);
            assert_eq!(b.protected_packets.len(), 2);
            assert_eq!(b.protected_packets[0].sequence_number, 0);
            assert_eq!(b.protected_packets[1].data_length, 2);
        }
        _ => panic!("wrong kind"),
    }
}

#[test]
fn codec_rejects_malformed() {
    assert!(PacketSerializer::deserialize(&[]).is_none());
    assert!(PacketSerializer::deserialize(&[0x99, 1, 2, 3]).is_none());
    // an Rtp datagram needs its full header
    assert!(PacketSerializer::deserialize(&[0x11, 0, 0, 0]).is_none());
    // a Ping needs its timestamp
    assert!(PacketSerializer::deserialize(&[0x01, 1, 2]).is_none());
    // a Nack whose count outruns the bytes
    assert!(PacketSerializer::deserialize(&[0x04, 2, 0, 0, 0, 0, 0, 0, 0, 1]).is_none());
}

#[test]
fn fec_single_erasure_recovers_each_member() {
    let group = vec![
        rtp(0, 1, 0, 4, vec![1, 2, 3, 4]),
        rtp(1, 1, 1, 4, vec![5, 6]),
        rtp(2, 1, 2, 4, vec![7, 8, 9]),
        rtp(3, 1, 3, 4, vec![10]),
    ];
    let fec = generate_fec_packet(&group).expect("parity");
    for missing in 0..4usize {
        let available: Vec<RtpBody> = group
            .iter()
            .enumerate()
            .filter(|(i, _)| *i != missing)
            .map(|(_, p)| rtp(
                p.sequence_number,
                p.frame_id,
                p.fragment_number,
                p.total_fragments,
                p.data.clone(),
            ))
            .collect();
        let recovered = recover_packet(&fec, &available).expect("recovered");
        assert_rtp_eq(&recovered, &group[missing]);
    }
}

#[test]
fn fec_two_erasures_recover_nothing() {
    let group = vec![
        rtp(0, 1, 0, 3, vec![1, 2]),
        rtp(1, 1, 1, 3, vec![3]),
        rtp(2, 1, 2, 3, vec![4, 5, 6]),
    ];
    let fec = generate_fec_packet(&group).expect("parity");
    let available = vec![rtp(0, 1, 0, 3, vec![1, 2])];
    assert!(recover_packet(&fec, &available).is_none());
}

#[test]
fn frame_reassembly_any_permutation() {
    let message: Vec<u8> = (0..2500u32).map(|i| (i % 251) as u8).collect();
    let orders: [[u16; 3]; 3] = [[0, 1, 2], [2, 0, 1], [1, 2, 0]];
    for order in orders.iter() {
        let mut frame = FrameBuffer::new(11, 3, 0);
        let mut emissions = 0;
        for &f in order.iter() {
            let lo = f as usize * 1000;
            let hi = (lo + 1000).min(2500);
            let body = rtp(f as u64, 11, f, 3, message[lo..hi].to_vec());
            frame.add_packet(body).expect("accepted");
            if frame.is_complete() {
                emissions += 1;
            }
        }
        assert_eq!(emissions, 1, "completes exactly once");
        assert_eq!(frame.reconstruct_data().expect("complete"), message);
    }
}

#[test]
fn frame_rejects_out_of_contract_packets() {
    let mut frame = FrameBuffer::new(11, 3, 0);
    assert!(frame.add_packet(rtp(0, 12, 0, 3, vec![1])).is_err()); // wrong frame
    assert!(frame.add_packet(rtp(0, 11, 0, 4, vec![1])).is_err()); // wrong total
    assert!(frame.add_packet(rtp(0, 11, 0, 3, vec![1])).is_ok());
    assert!(!frame.is_complete());
    assert!(frame.reconstruct_data().is_none());
    // a fragment number past the total is still inserted: only the
    // frame id and the fragment total are contract checks
    assert!(frame.add_packet(rtp(0, 11, 7, 3, vec![9])).is_ok());
    assert!(!frame.is_complete());
}

#[test]
fn duplicate_fragment_overwrites_without_growing() {
    let mut frame = FrameBuffer::new(11, 2, 0);
    assert!(frame.add_packet(rtp(0, 11, 0, 2, vec![1, 2])).is_ok());
    assert!(frame.add_packet(rtp(0, 11, 0, 2, vec![3, 4])).is_ok());
    assert!(!frame.is_complete(), "a duplicate does not raise the count");
    assert!(frame.add_packet(rtp(1, 11, 1, 2, vec![5])).is_ok());
    assert_eq!(frame.reconstruct_data().expect("complete"), vec![3, 4, 5]);
}

#[test]
fn loss_smoothing_rises_fast_falls_slow() {
    let mut est = LossEstimator::new();
    for seq in 0..10u64 {
        est.record_packet_sent(seq, 1000);
    }
    assert_eq!(est.get_stats().loss_rate, 0);
    // half the window is reported lost: the raw rate is 5000 of 10000
    est.record_nack_received(&vec![0, 1, 2, 3, 4], 1000);
    let first = est.get_stats().loss_rate;
    assert_eq!(first, 5000, "first sample adopted whole");
    // the same report again: raw stays, smoothed stays
    est.record_nack_received(&vec![0, 1, 2, 3, 4], 1000);
    assert_eq!(est.get_stats().loss_rate, 5000);
    // losses stop: every later update falls, but slowly
    let mut last = est.get_stats().loss_rate;
    for seq in 10..14u64 {
        est.record_packet_sent(seq, 1001);
        let now = est.get_stats().loss_rate;
        assert!(now < last, "falls every update");
        assert!(now >= last - last / 10, "falls slowly");
        last = now;
    }
}

#[test]
fn loss_window_forgets_old_samples() {
    let mut est = LossEstimator::new();
    est.record_packet_sent(1, 0);
    est.record_nack_received(&vec![1], 0);
    assert_eq!(est.get_stats().sample_size, 1);
    // two seconds later the window is empty again
    est.record_packet_sent(2, 2500);
    assert_eq!(est.get_stats().sample_size, 1);
    est.reset();
    assert_eq!(est.get_stats().sample_size, 0);
    assert_eq!(est.get_stats().loss_rate, 0);
}

#[test]
fn fec_ratio_shrinks_groups_under_loss() {
    // healthy channel: groups of four; the fourth packet closes the
    // first lane (round robin over three lanes)
    let mut enc = AdaptiveFecEncoder::new();
    let healthy = LossEstimator::new();
    let mut emitted = 0;
    for seq in 0..12u64 {
        let out = enc.process_packet(rtp(seq, 1, seq as u16, 12, vec![seq as u8 + 1]), &healthy, 50);
        emitted += out.len();
        for f in out {
            assert_eq!(f.protected_packets.len(), 4, "healthy channel groups four");
        }
    }
    assert_eq!(emitted, 3);

    // a lossy channel shrinks the group to two
    let mut enc = AdaptiveFecEncoder::new();
    let mut lossy = LossEstimator::new();
    for seq in 0..10u64 {
        lossy.record_packet_sent(seq, 0);
    }
    lossy.record_nack_received(&vec![0, 1], 0); // 20% loss
    let mut groups = Vec::new();
    for seq in 0..4u64 {
        for f in enc.process_packet(rtp(seq, 1, seq as u16, 4, vec![1]), &lossy, 50) {
            groups.push(f.protected_packets.len());
        }
    }
    assert!(groups.iter().all(|&g| g == 2), "lossy channel groups two");
}

#[test]
fn fec_flush_protects_short_messages() {
    let mut enc = AdaptiveFecEncoder::new();
    let healthy = LossEstimator::new();
    // two fragments land in two different lanes: no group fills
    assert!(enc
        .process_packet(rtp(0, 1, 0, 2, vec![1]), &healthy, 50)
        .is_empty());
    assert!(enc
        .process_packet(rtp(1, 1, 1, 2, vec![2]), &healthy, 50)
        .is_empty());
    // single-fragment lanes are skipped, two-fragment lanes flush
    assert_eq!(enc.get_pending_count(), 2);
    let flushed = enc.flush();
    assert_eq!(flushed.len(), 0, "lanes of one are pointless to protect");
    assert_eq!(enc.get_pending_count(), 0);

    let mut enc = AdaptiveFecEncoder::with_depth(1);
    assert!(enc
        .process_packet(rtp(0, 1, 0, 2, vec![1]), &healthy, 50)
        .is_empty());
    assert!(enc
        .process_packet(rtp(1, 1, 1, 2, vec![2]), &healthy, 50)
        .is_empty());
    let flushed = enc.flush();
    assert_eq!(flushed.len(), 1, "a lane of two is flushed");
    assert_eq!(flushed[0].protected_packets.len(), 2);
}

#[test]
fn nack_delay_follows_path_and_backoff() {
    assert_eq!(NackController::get_delay(100, 500, 0), 20);
    assert_eq!(NackController::get_delay(151, 500, 0), 60);
    assert_eq!(NackController::get_delay(100, 500, 1), 500);
    assert_eq!(NackController::get_delay(151, 777, 3), 777);
}

#[test]
fn nack_lifecycle_resend_then_give_up() {
    let mut runner = ConnectionRunner::new();
    // sequences 0..3 arrive in order, then 5: a gap 3..5 is noticed
    for seq in 0..3u64 {
        let d = PacketSerializer::serialize(&Packet::Rtp(rtp(seq, 1, seq as u16, 100, vec![1])));
        runner.handle_datagram(&d, 0);
    }
    let d1 = PacketSerializer::serialize(&Packet::Rtp(rtp(5, 1, 5, 100, vec![1])));
    runner.handle_datagram(&d1, 0);
    assert_eq!(runner.nacks.len(), 1);
    assert_eq!(runner.nacks[0].packet.missing_sequences, vec![3, 4]);

    // nothing is due before the reordering timer
    assert!(runner.on_retransmit_tick(10).is_empty());
    // at twenty milliseconds the report is sent
    let sent = runner.on_retransmit_tick(20);
    assert_eq!(sent.len(), 1);
    match PacketSerializer::deserialize(&sent[0]) {
        Some(Packet::Nack(b)) => assert_eq!(b.missing_sequences, vec![3, 4]),
        _ => panic!("wrong kind"),
    }
    // each retransmission timeout passes: resent up to five times in all
    let mut times_sent = 1;
    let mut now = 20;
    for _ in 0..10 {
        now += runner.rto + 1;
        times_sent += runner.on_retransmit_tick(now).len();
    }
    assert_eq!(times_sent, 5, "give up after five sends");
    assert!(runner.nacks.is_empty(), "exhausted entry is collected");
}

#[test]
fn pacer_budget_floor_and_spread() {
    let mut runner = ConnectionRunner::new();
    // fifty datagrams of 800 bytes: 40000 queued bytes
    for i in 0..50u64 {
        let mut data = vec![0u8; 771];
        data[0] = i as u8;
        let d = PacketSerializer::serialize(&Packet::Rtp(rtp(i, 1, 0, 1, data)));
        assert_eq!(d.len(), 800);
        runner.pacer.enqueue(d);
    }
    // healthy: the budget is max(40000 / 3, 10000) = 13333 bytes
    let sent = runner.on_pacing_tick();
    assert_eq!(sent.len(), 16, "16 * 800 = 12800 fits, 17 would not");
    // the floor: a small queue always drains
    let mut runner = ConnectionRunner::new();
    for i in 0..12u64 {
        runner
            .pacer
            .enqueue(PacketSerializer::serialize(&Packet::Rtp(rtp(i, 1, 0, 1, vec![0u8; 771]))));
    }
    let sent = runner.on_pacing_tick();
    assert_eq!(sent.len(), 12, "9600 bytes sit under the 10000-byte floor");
}

/// Pace everything out of a runner, decoding as we go.
fn drain_all(runner: &mut ConnectionRunner) -> Vec<Vec<u8>> {
    let mut out = Vec::new();
    loop {
        let batch = runner.on_pacing_tick();
        if batch.is_empty() {
            return out;
        }
        out.extend(batch);
    }
}

#[test]
fn clean_path_delivers_one_unordered_message() {
    let mut sender = ConnectionRunner::new();
    let message: Vec<u8> = (0..2500u32).map(|i| (i * 7 % 256) as u8).collect();
    sender.fragment_and_send_data(&message, 5);
    let datagrams = drain_all(&mut sender);

    // three fragments of 1000 + 1000 + 500 bytes with sequences 0, 1, 2
    let mut sequences = Vec::new();
    let mut lens = Vec::new();
    for d in &datagrams {
        match PacketSerializer::deserialize(d) {
            Some(Packet::Rtp(b)) => {
                sequences.push(b.sequence_number);
                lens.push(b.data.len());
            }
            Some(Packet::Fec(_)) => {}
            _ => panic!("unexpected kind on the wire"),
        }
    }
    assert_eq!(sequences, vec![0, 1, 2]);
    assert_eq!(lens, vec![1000, 1000, 500]);
    let fecs = datagrams.len() - sequences.len();
    assert!(fecs <= 1, "zero or one parity datagram on a clean short send");

    let mut receiver = ConnectionRunner::new();
    let mut delivered = Vec::new();
    for d in &datagrams {
        let (replies, message) = receiver.handle_datagram(d, 6);
        assert!(replies.is_empty());
        if let Some(m) = message {
            delivered.push(m);
        }
    }
    assert_eq!(delivered.len(), 1, "exactly one emission");
    assert_eq!(delivered[0], message);
    assert!(receiver.nacks.is_empty(), "no gap on a clean path");
}

#[test]
fn single_loss_recovered_by_parity_without_nack() {
    let mut sender = ConnectionRunner::new();
    sender.srtt = 50;
    // four full fragments: the first interleave lane closes its group
    // wait: with depth three, twelve fragments close all three lanes;
    // here four fragments close lane one (sequences 0 and 3)
    let message: Vec<u8> = (0..4000u32).map(|i| (i % 256) as u8).collect();
    sender.fragment_and_send_data(&message, 5);
    let datagrams = drain_all(&mut sender);

    let mut receiver = ConnectionRunner::new();
    let mut delivered = Vec::new();
    for d in &datagrams {
        let drop_it = match PacketSerializer::deserialize(d) {
            Some(Packet::Rtp(b)) => b.sequence_number == 3,
            _ => false,
        };
        if drop_it {
            continue;
        }
        let (_, message) = receiver.handle_datagram(d, 6);
        if let Some(m) = message {
            delivered.push(m);
        }
    }
    assert_eq!(delivered.len(), 1, "parity recovered the lost fragment");
    assert_eq!(delivered[0], message);
}

#[test]
fn burst_loss_defeated_by_interleave() {
    let mut sender = ConnectionRunner::new();
    let message: Vec<u8> = (0..12000u32).map(|i| (i % 256) as u8).collect();
    sender.fragment_and_send_data(&message, 5);
    let datagrams = drain_all(&mut sender);

    let mut receiver = ConnectionRunner::new();
    let mut delivered = Vec::new();
    for d in &datagrams {
        let drop_it = match PacketSerializer::deserialize(d) {
            Some(Packet::Rtp(b)) => b.sequence_number == 4 || b.sequence_number == 5,
            _ => false,
        };
        if drop_it {
            continue;
        }
        let (_, message) = receiver.handle_datagram(d, 6);
        if let Some(m) = message {
            delivered.push(m);
        }
    }
    assert_eq!(delivered.len(), 1, "a burst of two sits in two lanes");
    assert_eq!(delivered[0], message);
}

#[test]
fn nack_path_retransmits_from_cache() {
    let mut sender = ConnectionRunner::new();
    let message: Vec<u8> = (0..7000u32).map(|i| (i % 256) as u8).collect();
    sender.fragment_and_send_data(&message, 5);
    let datagrams = drain_all(&mut sender);

    // deliver everything but fragment 3; withhold parity too, so only
    // the NACK path can heal the gap
    let mut receiver = ConnectionRunner::new();
    let mut delivered = Vec::new();
    for d in &datagrams {
        let drop_it = match PacketSerializer::deserialize(d) {
            Some(Packet::Rtp(b)) => b.sequence_number == 3,
            Some(Packet::Fec(_)) => true,
            _ => false,
        };
        if drop_it {
            continue;
        }
        let (_, message) = receiver.handle_datagram(d, 6);
        if let Some(m) = message {
            delivered.push(m);
        }
    }
    assert!(delivered.is_empty(), "a fragment is missing");
    assert_eq!(receiver.nacks.len(), 1);

    // twenty milliseconds on, the receiver reports the gap
    let reports = receiver.on_retransmit_tick(26);
    assert_eq!(reports.len(), 1);

    // the sender answers from its cache
    let (replies, _) = sender.handle_datagram(&reports[0], 30);
    assert!(replies.is_empty());
    let resent = drain_all(&mut sender);
    assert_eq!(resent.len(), 1);

    let (_, message_out) = receiver.handle_datagram(&resent[0], 40);
    assert_eq!(message_out.expect("frame completes"), message);
}

#[test]
fn pong_timeout_counts_and_closes() {
    let mut runner = ConnectionRunner::new();
    let mut now = 0;
    let mut closed = false;
    for _ in 0..16 {
        let ping = runner.on_keep_alive_tick(now);
        assert_eq!(ping[0], 0x01);
        now += 2001; // the probe expires unanswered
        closed = runner.on_check_pings_tick(now);
    }
    assert_eq!(runner.failed_pings, 16);
    assert!(closed, "sixteen misses pass the fifteen-miss budget");
}

#[test]
fn pong_updates_rtt_and_clears_liveness_debt() {
    let mut runner = ConnectionRunner::new();
    let ping = runner.on_keep_alive_tick(1000);
    // the peer answers our ping: the pong echoes the timestamp
    match PacketSerializer::deserialize(&ping) {
        Some(Packet::Ping(b)) => assert_eq!(b.timestamp, 1000),
        _ => panic!("wrong kind"),
    }
    runner.failed_pings = 3;
    let pong = PacketSerializer::serialize(&Packet::Pong(PongBody {
        timestamp: 1000,
        data: vec![],
    }));
    runner.handle_datagram(&pong, 1080);
    assert_eq!(runner.srtt, 80, "first sample adopted whole");
    assert_eq!(runner.rttvar, 40);
    assert_eq!(runner.rto, 80 + 160);
    assert_eq!(runner.failed_pings, 0);
    // a second sample blends in an eighth
    let ping = runner.on_keep_alive_tick(2000);
    assert_eq!(ping[0], 0x01);
    let pong = PacketSerializer::serialize(&Packet::Pong(PongBody {
        timestamp: 2000,
        data: vec![],
    }));
    runner.handle_datagram(&pong, 2160);
    assert_eq!(runner.srtt, (7 * 80 + 160) / 8);
}

#[test]
fn ping_is_answered_with_matching_pong() {
    let mut runner = ConnectionRunner::new();
    let ping = PacketSerializer::serialize(&Packet::Ping(PingBody {
        timestamp: 424242,
        data: vec![],
    }));
    let (replies, delivered) = runner.handle_datagram(&ping, 1);
    assert!(delivered.is_none());
    assert_eq!(replies.len(), 1);
    match PacketSerializer::deserialize(&replies[0]) {
        Some(Packet::Pong(b)) => assert_eq!(b.timestamp, 424242),
        _ => panic!("wrong kind"),
    }
}

#[test]
fn janitor_reclaims_old_state() {
    let mut runner = ConnectionRunner::new();
    let d = PacketSerializer::serialize(&Packet::Rtp(rtp(0, 1, 0, 2, vec![1])));
    runner.handle_datagram(&d, 1000);
    assert_eq!(runner.received_packets.len(), 1);
    assert_eq!(runner.streams.len(), 1);
    runner.on_cleanup_tick(2000);
    assert_eq!(runner.received_packets.len(), 1, "young state survives");
    runner.on_cleanup_tick(6001);
    assert_eq!(runner.received_packets.len(), 0, "old state is reclaimed");
    assert_eq!(runner.streams.len(), 0);
}

#[test]
fn nack_cooldown_suppresses_duplicate_answers() {
    let mut sender = ConnectionRunner::new();
    let message: Vec<u8> = vec![1u8; 1500];
    sender.fragment_and_send_data(&message, 5);
    drain_all(&mut sender);
    let nack = PacketSerializer::serialize(&Packet::Nack(NackBody {
        missing_sequences: vec![0],
    }));
    sender.handle_datagram(&nack, 100);
    assert_eq!(drain_all(&mut sender).len(), 1, "first answer goes out");
    sender.handle_datagram(&nack, 110);
    assert_eq!(drain_all(&mut sender).len(), 0, "cooldown holds the second");
    sender.handle_datagram(&nack, 140);
    assert_eq!(drain_all(&mut sender).len(), 1, "cooldown over");
}

#[test]
fn sequences_continue_across_messages() {
    let mut sender = ConnectionRunner::new();
    sender.fragment_and_send_data(&vec![1u8; 2500], 5);
    sender.fragment_and_send_data(&vec![2u8; 1500], 6);
    assert_eq!(sender.out_seq, 5);
    assert_eq!(sender.next_frame_id, 2);
    let mut sequences = Vec::new();
    for d in drain_all(&mut sender) {
        if let Some(Packet::Rtp(b)) = PacketSerializer::deserialize(&d) {
            sequences.push(b.sequence_number);
        }
    }
    assert_eq!(sequences, vec![0, 1, 2, 3, 4], "contiguous and increasing");
}

#[test]
fn pending_nack_ages_out() {
    let mut nacks = vec![PendingNack {
        packet: NackBody { missing_sequences: vec![9] },
        sent_at: 0,
        created_at: 0,
        retransmissions: 0,
    }];
    NackController::cleanup(&mut nacks, 5000, 4999);
    assert_eq!(nacks.len(), 1);
    NackController::cleanup(&mut nacks, 5000, 5000);
    assert!(nacks.is_empty());
}

#[test]
fn arrival_scrubs_pending_nacks() {
    let mut nacks = vec![PendingNack {
        packet: NackBody { missing_sequences: vec![3, 4] },
        sent_at: 0,
        created_at: 0,
        retransmissions: 0,
    }];
    NackController::on_rtp_received(&mut nacks, 3);
    assert_eq!(nacks[0].packet.missing_sequences, vec![4]);
    NackController::on_rtp_received(&mut nacks, 4);
    assert!(nacks.is_empty(), "a satisfied report is dropped");
}

#[test]
fn late_duplicate_never_repeats_an_emission() {
    let mut sender = ConnectionRunner::new();
    let message: Vec<u8> = (0..2500u32).map(|i| (i % 256) as u8).collect();
    sender.fragment_and_send_data(&message, 5);
    let datagrams = drain_all(&mut sender);

    let mut receiver = ConnectionRunner::new();
    let mut emissions = 0;
    for d in &datagrams {
        if receiver.handle_datagram(d, 6).1.is_some() {
            emissions += 1;
        }
    }
    assert_eq!(emissions, 1);
    // the last fragment arrives again: the frame stays complete and
    // nothing is emitted a second time
    for d in &datagrams {
        if receiver.handle_datagram(d, 7).1.is_some() {
            emissions += 1;
        }
    }
    assert_eq!(emissions, 1, "one emission per completed frame");
}
