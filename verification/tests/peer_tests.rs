use file_storage_system::common::bitfield::Bitfield;
use file_storage_system::common::error::PeerError;
use file_storage_system::common::error::TorrentError;
use file_storage_system::common::types::FileInfo;
use file_storage_system::common::types::TorrentInfo;
use file_storage_system::peer::choking::ChokeCommand;
use file_storage_system::peer::manager::PeerManager;
use file_storage_system::peer::peer::ChokingState;
use file_storage_system::peer::peer::InterestState;
use file_storage_system::peer::peer::Peer;
use file_storage_system::peer::peer::PeerAddress;
use file_storage_system::peer::peer::PeerState;
use file_storage_system::peer::ranking::id_less;
use file_storage_system::peer::ranking::rank;
use file_storage_system::peer::ranking::RankEntry;
use file_storage_system::peer::scheduler::BlockOutcome;
use file_storage_system::peer::scheduler::BlockRequest;
use file_storage_system::peer::scheduler::PieceScheduler;
use file_storage_system::peer::scheduler::SchedulerConfig;

fn id(n: u8) -> [u8; 20] {
    [n; 20]
}

fn addr(n: u8) -> PeerAddress {
    PeerAddress::V4(0x7f00_0000 + n as u32, 6881)
}

fn bits(pattern: &str) -> Bitfield {
    let mut b = Bitfield::new(pattern.len());
    for (i, c) in pattern.chars().enumerate() {
        if c == '1' {
            b.set_piece(i as u32);
        }
    }
    b
}

/// A registry whose peers are ready, do not choke us and have announced the
/// given pieces.
fn swarm(patterns: &[&str]) -> PeerManager {
    let n = patterns[0].len();
    let mut m = PeerManager::new(n, 50, 0);
    for (i, p) in patterns.iter().enumerate() {
        let pid = id(i as u8 + 1);
        assert_eq!(m.add_peer(pid, addr(i as u8 + 1), 0).unwrap(), None);
        assert!(m.set_peer_state(&pid, PeerState::Ready));
        assert!(m.remote_bitfield(&pid, bits(p)));
        m.remote_unchoked(&pid);
    }
    m
}

fn torrent(pieces: usize, piece_length: u32, total: u64) -> TorrentInfo {
    TorrentInfo::new(
        "t".to_string(),
        piece_length,
        vec![[0u8; 20]; pieces],
        vec![FileInfo::new(vec!["f".to_string()], total)],
    )
}

fn no_random_no_endgame() -> SchedulerConfig {
    SchedulerConfig { endgame_threshold: 0, random_first: 0, block_size: 16384, request_timeout: 60_000 }
}

#[test]
fn new_peer_is_choked_and_not_interested() {
    let p = Peer::new(id(1), addr(1), 8, 42);
    assert_eq!(p.state, PeerState::Disconnected);
    assert_eq!(p.am_choking, ChokingState::Choked);
    assert_eq!(p.peer_choking, ChokingState::Choked);
    assert_eq!(p.am_interested, InterestState::NotInterested);
    assert_eq!(p.peer_interested, InterestState::NotInterested);
    assert_eq!(p.max_requests, 5);
    assert_eq!(p.last_seen, 42);
    assert_eq!(p.bitfield.total_pieces(), 8);
    assert!(!p.can_request());
    assert!(!p.can_upload());
    assert_eq!(p.pending_request_count(), 0);
    assert_eq!(p.reputation_permille(), 1000);
}

#[test]
fn peer_flow_bits_gate_requests_and_uploads() {
    let mut p = Peer::new(id(1), addr(1), 8, 0);
    p.state = PeerState::Ready;
    p.peer_choking = ChokingState::Unchoked;
    assert!(!p.can_request());
    p.am_interested = InterestState::Interested;
    assert!(p.can_request());
    p.peer_choking = ChokingState::Choked;
    assert!(!p.can_request());
    p.am_choking = ChokingState::Unchoked;
    assert!(!p.can_upload());
    p.peer_interested = InterestState::Interested;
    assert!(p.can_upload());
    p.state = PeerState::Closing;
    assert!(!p.can_upload());
}

#[test]
fn peer_never_owes_more_requests_than_it_may() {
    let mut p = Peer::new(id(1), addr(1), 16, 0);
    for piece in 0..5 {
        assert!(p.add_request(piece, 0, 16384, 10));
    }
    assert_eq!(p.pending_request_count(), 5);
    assert!(!p.add_request(5, 0, 16384, 10));
    assert_eq!(p.pending_request_count(), 5);
    assert!(!p.has_request(5));
    assert!(p.add_request(3, 16384, 100, 20));
    assert_eq!(p.pending_request_count(), 5);
    let r = p.request_for(3).unwrap();
    assert_eq!((r.offset, r.length, r.requested_at), (16384, 100, 20));
    p.remove_request(0);
    p.remove_request(9);
    assert_eq!(p.pending_request_count(), 4);
    assert!(!p.has_request(0));
    assert!(p.add_request(5, 0, 1, 30));
}

#[test]
fn peer_requests_expire_and_clear() {
    let mut p = Peer::new(id(1), addr(1), 16, 0);
    p.add_request(1, 0, 10, 1_000);
    p.add_request(2, 0, 10, 50_000);
    p.add_request(3, 0, 10, 2_000);
    let late = p.expire_requests(62_000, 60_000);
    assert_eq!(late.iter().map(|r| r.piece_index).collect::<Vec<_>>(), vec![1]);
    assert_eq!(p.pending_request_count(), 2);
    assert!(p.expire_requests(62_000, 60_000).is_empty());
    let all = p.clear_requests();
    assert_eq!(all.iter().map(|r| r.piece_index).collect::<Vec<_>>(), vec![2, 3]);
    assert_eq!(p.pending_request_count(), 0);
}

#[test]
fn peer_interest_follows_pieces() {
    let mut p = Peer::new(id(1), addr(1), 4, 0);
    let ours = bits("1000");
    p.update_interest(&ours);
    assert_eq!(p.am_interested, InterestState::NotInterested);
    p.has_piece(0);
    p.update_interest(&ours);
    assert_eq!(p.am_interested, InterestState::NotInterested);
    p.has_piece(2);
    p.has_piece(9);
    assert!(p.peer_has_piece(2));
    assert!(!p.peer_has_piece(9));
    assert_eq!(p.interesting_pieces(&ours), vec![2]);
    p.update_interest(&ours);
    assert_eq!(p.am_interested, InterestState::Interested);
    assert!(!p.is_seeder());
    p.set_bitfield(bits("1111"));
    assert!(p.is_seeder());
    assert_eq!(p.interesting_pieces(&ours), vec![1, 2, 3]);
}

#[test]
fn peer_counters_rates_and_reputation() {
    let mut p = Peer::new(id(1), addr(1), 4, 0);
    p.update_download_stats(1000, 5);
    p.update_upload_stats(500, 7);
    assert_eq!((p.downloaded, p.last_seen, p.uploaded, p.last_sent), (1000, 5, 500, 7));
    assert_eq!(p.reputation_permille(), 500);
    p.update_upload_stats(2500, 8);
    assert_eq!(p.reputation_permille(), 2000);
    p.update_rates(1000, 100);
    assert_eq!((p.download_rate, p.upload_rate), (300, 30));
    p.update_rates(1000, 0);
    assert_eq!((p.download_rate, p.upload_rate), (510, 21));
    assert!(!p.is_stale(30_005, 30_000));
    assert!(p.is_stale(30_006, 30_000));
    assert!(!p.is_stale(0, 30_000));
}

#[test]
fn peers_are_equal_by_id() {
    let a = Peer::new(id(1), addr(1), 4, 0);
    let mut b = Peer::new(id(1), addr(2), 8, 9);
    b.downloaded = 5;
    let c = Peer::new(id(2), addr(1), 4, 0);
    assert!(a == b);
    assert!(a != c);
}

#[test]
fn registry_adds_finds_and_removes() {
    let mut m = PeerManager::new(4, 2, 0);
    assert_eq!(m.add_peer(id(1), addr(1), 10).unwrap(), None);
    assert_eq!(m.add_peer(id(2), addr(2), 20).unwrap(), None);
    assert_eq!(m.add_peer(id(1), addr(9), 30).unwrap(), None);
    assert_eq!(m.peers().len(), 2);
    assert_eq!(m.get_peer(&id(1)).unwrap().address, addr(1));
    assert_eq!(m.find_by_addr(&addr(2)).unwrap().id, id(2));
    assert!(m.find_by_addr(&addr(3)).is_none());
    assert!(m.get_peer(&id(3)).is_none());
    assert_eq!(m.peer_ids(), vec![id(1), id(2)]);
    assert_eq!(m.max_peers(), 2);
    let gone = m.remove_peer(&id(1)).unwrap();
    assert_eq!(gone.id, id(1));
    assert!(m.remove_peer(&id(1)).is_none());
    assert_eq!(m.peer_ids(), vec![id(2)]);
}

#[test]
fn full_registry_rejects_or_evicts_the_worst() {
    let mut m = PeerManager::new(4, 2, 0);
    m.add_peer(id(1), addr(1), 10).unwrap();
    m.add_peer(id(2), addr(2), 20).unwrap();
    assert_eq!(
        m.add_peer(id(3), addr(3), 30).unwrap_err(),
        TorrentError::Peer(PeerError::RegistryFull)
    );
    m.record_download(&id(2), 1000, 40);
    m.record_upload(&id(2), 100, 40);
    m.record_download(&id(1), 1000, 40);
    m.record_upload(&id(1), 100, 40);
    assert_eq!(m.add_peer(id(3), addr(3), 50).unwrap(), Some(id(1)));
    assert_eq!(m.peer_ids(), vec![id(2), id(3)]);
    let mut empty = PeerManager::new(4, 0, 0);
    assert_eq!(
        empty.add_peer(id(1), addr(1), 0).unwrap_err(),
        TorrentError::Peer(PeerError::RegistryFull)
    );
}

#[test]
fn registry_counts_and_lists() {
    let mut m = swarm(&["1111", "1000", "1000", "1100"]);
    m.add_peer(id(9), addr(9), 0).unwrap();
    assert_eq!(m.connected_peer_count(), 4);
    assert_eq!(m.seeder_count(), 1);
    assert_eq!(m.leecher_count(), 3);
    assert_eq!(m.peers_in_state(PeerState::Disconnected), vec![id(9)]);
    assert_eq!(m.peers_with_piece(1), vec![id(1), id(4)]);
    assert_eq!(m.peers_with_piece(7), Vec::<[u8; 20]>::new());
    assert_eq!(m.availability_of(0), 4);
    assert_eq!(m.availability_of(3), 1);
    assert_eq!(m.missing_pieces_available(), vec![0, 1, 2, 3]);
    assert!(!m.is_complete());
    m.completed_piece(0);
    assert_eq!(m.missing_pieces_available(), vec![1, 2, 3]);
    assert_eq!(m.get_peer(&id(2)).unwrap().am_interested, InterestState::NotInterested);
    assert_eq!(m.get_peer(&id(4)).unwrap().am_interested, InterestState::Interested);
}

#[test]
fn rarest_order_sorts_by_availability_then_index() {
    let m = swarm(&["1111", "1000", "1000", "1100"]);
    assert_eq!(m.rarest_order(), vec![2, 3, 1, 0]);
    let mut m = swarm(&["1111", "1000", "1010", "1100"]);
    assert_eq!(m.rarest_order(), vec![3, 1, 2, 0]);
    m.completed_piece(3);
    assert_eq!(m.rarest_order(), vec![1, 2, 0]);
    let mut quiet = swarm(&["0110"]);
    assert_eq!(quiet.rarest_order(), vec![0, 3, 1, 2]);
    quiet.set_peer_state(&id(1), PeerState::Closing);
    assert_eq!(quiet.rarest_order(), vec![0, 1, 2, 3]);
}

#[test]
fn rarest_pieces_lists_missing_pieces_rarest_first() {
    let mut m = swarm(&["0110", "0100"]);
    assert_eq!(m.rarest_pieces(), vec![(0, 0), (3, 0), (2, 1), (1, 2)]);
    assert_eq!(m.rarest_order(), vec![0, 3, 2, 1]);
    m.completed_piece(2);
    assert_eq!(m.rarest_pieces(), vec![(0, 0), (3, 0), (1, 2)]);
    m.lost_piece(2);
    assert!(!m.our_bitfield().has_piece(2));
    m.set_peer_state(&id(1), PeerState::Closing);
    assert_eq!(m.rarest_pieces(), vec![(0, 0), (2, 0), (3, 0), (1, 1)]);
    let pairs = m.rarest_pieces();
    let order = m.rarest_order();
    assert_eq!(pairs.len(), order.len());
    for (pair, piece) in pairs.iter().zip(order.iter()) {
        assert_eq!(pair.0, *piece);
        assert_eq!(pair.1, m.availability_of(*piece));
    }
    assert_eq!(
        PeerManager::new(4, 4, 0).rarest_pieces(),
        vec![(0, 0), (1, 0), (2, 0), (3, 0)]
    );
    let mut full = swarm(&["11"]);
    full.completed_piece(0);
    full.completed_piece(1);
    assert!(full.rarest_pieces().is_empty());
}

#[test]
fn scheduler_first_pick_is_a_rarest_piece() {
    let info = torrent(4, 16384, 4 * 16384);
    let mut m = swarm(&["1111", "1000", "1000", "1100"]);
    let mut s = PieceScheduler::new(&info, no_random_no_endgame());
    let c = s.next_request(&mut m, 0, 0).unwrap();
    assert_eq!(m.availability_of(c.block.piece_index), 1);
    assert_ne!(c.block.piece_index, 0);
    assert_eq!(c.block, BlockRequest { piece_index: 2, offset: 0, length: 16384 });
    assert_eq!(c.peer_id, id(1));

    let mut m = swarm(&["1111", "1000", "1010", "1100"]);
    let mut s = PieceScheduler::new(&info, no_random_no_endgame());
    let c = s.next_request(&mut m, 0, 0).unwrap();
    assert_eq!(c.block.piece_index, 3);
    assert_eq!(c.peer_id, id(1));
}

#[test]
fn scheduler_respects_flow_bits_and_pipeline() {
    let info = torrent(8, 16384, 8 * 16384);
    let mut m = swarm(&["11111111"]);
    let mut s = PieceScheduler::new(&info, no_random_no_endgame());
    let mut asked = Vec::new();
    while let Some(c) = s.next_request(&mut m, 0, 0) {
        asked.push(c.block.piece_index);
    }
    assert_eq!(asked, vec![0, 1, 2, 3, 4]);
    assert_eq!(m.get_peer(&id(1)).unwrap().pending_request_count(), 5);

    let mut choked = swarm(&["11111111"]);
    choked.remote_choked(&id(1));
    let mut s = PieceScheduler::new(&info, no_random_no_endgame());
    assert!(s.next_request(&mut choked, 0, 0).is_none());

    let mut bored = PeerManager::new(8, 50, 0);
    bored.add_peer(id(1), addr(1), 0).unwrap();
    bored.set_peer_state(&id(1), PeerState::Ready);
    bored.remote_unchoked(&id(1));
    let mut s = PieceScheduler::new(&info, no_random_no_endgame());
    assert!(s.next_request(&mut bored, 0, 0).is_none());
}

#[test]
fn scheduler_asks_no_block_twice_outside_endgame() {
    let info = torrent(2, 16384, 2 * 16384);
    let mut m = swarm(&["11", "11"]);
    let mut s = PieceScheduler::new(&info, no_random_no_endgame());
    let mut asked = Vec::new();
    while let Some(c) = s.next_request(&mut m, 0, 0) {
        asked.push((c.peer_id, c.block.piece_index, c.block.offset));
    }
    assert_eq!(asked, vec![(id(1), 0, 0), (id(1), 1, 0)]);

    let mut m = swarm(&["11", "11"]);
    let endgame = SchedulerConfig { endgame_threshold: 5, ..no_random_no_endgame() };
    let mut s = PieceScheduler::new(&info, endgame);
    let mut asked = Vec::new();
    while let Some(c) = s.next_request(&mut m, 0, 0) {
        asked.push((c.peer_id, c.block.piece_index, c.block.offset));
    }
    assert_eq!(asked, vec![(id(1), 0, 0), (id(2), 0, 0), (id(1), 1, 0), (id(2), 1, 0)]);
}

#[test]
fn scheduler_picks_at_random_before_the_first_piece() {
    let info = torrent(4, 16384, 4 * 16384);
    let config = SchedulerConfig { random_first: 2, endgame_threshold: 0, ..SchedulerConfig::default() };
    let mut m = swarm(&["1111", "0001"]);
    let mut s = PieceScheduler::new(&info, config);
    assert!(s.in_random_phase());
    let c = s.next_request(&mut m, 0, 6).unwrap();
    assert_eq!(c.block.piece_index, 2);
    let c = s.next_request(&mut m, 0, 7).unwrap();
    assert_eq!(c.block.piece_index, 1);
    assert!(!s.in_random_phase());
    let c = s.next_request(&mut m, 0, 7).unwrap();
    assert_eq!(c.block.piece_index, 0);
}

#[test]
fn choke_cancels_outstanding_requests_and_requeues_their_blocks() {
    let info = torrent(4, 16384, 4 * 16384);
    let mut m = swarm(&["1111"]);
    let mut s = PieceScheduler::new(&info, no_random_no_endgame());
    let a = s.next_request(&mut m, 0, 0).unwrap();
    let b = s.next_request(&mut m, 0, 0).unwrap();
    assert_eq!(m.get_peer(&id(1)).unwrap().pending_request_count(), 2);
    assert_eq!(s.peer_choked(&mut m, &id(1)), 2);
    assert_eq!(m.get_peer(&id(1)).unwrap().pending_request_count(), 0);
    assert_eq!(m.get_peer(&id(1)).unwrap().peer_choking, ChokingState::Choked);
    assert_eq!(s.requeued(), &vec![a.block, b.block]);
    assert!(s.next_request(&mut m, 0, 0).is_none());
    m.remote_unchoked(&id(1));
    let again = s.next_request(&mut m, 0, 0).unwrap();
    assert_eq!(again.block, a.block);
    assert_eq!(s.requeued(), &vec![b.block]);
    assert_eq!(s.peer_choked(&mut m, &id(7)), 0);
}

#[test]
fn blocks_are_assembled_into_pieces() {
    let info = torrent(2, 40, 70);
    let config = SchedulerConfig { block_size: 16, ..no_random_no_endgame() };
    let mut m = swarm(&["11"]);
    let mut s = PieceScheduler::new(&info, config);
    assert_eq!(s.piece_size_of(0), 40);
    assert_eq!(s.piece_size_of(1), 30);
    assert_eq!(s.block_count(0), 3);
    assert_eq!(s.block_count(1), 2);

    let c = s.next_request(&mut m, 0, 0).unwrap();
    assert_eq!(c.block, BlockRequest { piece_index: 0, offset: 0, length: 16 });
    let r = s.block_received(&mut m, &id(1), 0, 0, &[1; 15], 5);
    assert!(matches!(r.outcome, BlockOutcome::Ignored));
    let r = s.block_received(&mut m, &id(1), 0, 16, &[1; 16], 5);
    assert!(matches!(r.outcome, BlockOutcome::Ignored));
    let r = s.block_received(&mut m, &id(2), 0, 0, &[1; 16], 5);
    assert!(matches!(r.outcome, BlockOutcome::Ignored));
    assert_eq!(m.get_peer(&id(1)).unwrap().pending_request_count(), 1);

    let r = s.block_received(&mut m, &id(1), 0, 0, &[1; 16], 5);
    assert!(matches!(r.outcome, BlockOutcome::Stored));
    assert!(r.cancels.is_empty());
    assert!(s.block_arrived(0, 0));
    assert_eq!(m.get_peer(&id(1)).unwrap().pending_request_count(), 0);
    assert_eq!(m.get_peer(&id(1)).unwrap().downloaded, 16);
    assert_eq!(m.get_peer(&id(1)).unwrap().last_seen, 5);

    let c = s.next_request(&mut m, 0, 0).unwrap();
    assert_eq!(c.block, BlockRequest { piece_index: 0, offset: 16, length: 16 });
    s.block_received(&mut m, &id(1), 0, 16, &[2; 16], 6);
    let c = s.next_request(&mut m, 0, 0).unwrap();
    assert_eq!(c.block, BlockRequest { piece_index: 0, offset: 32, length: 8 });
    let r = s.block_received(&mut m, &id(1), 0, 32, &[3; 8], 7);
    let mut expected = vec![1u8; 16];
    expected.extend_from_slice(&[2; 16]);
    expected.extend_from_slice(&[3; 8]);
    match r.outcome {
        BlockOutcome::PieceReady { piece_index, data } => {
            assert_eq!(piece_index, 0);
            assert_eq!(data, expected);
        }
        other => panic!("{:?}", other),
    }
    assert!(!s.block_arrived(0, 0));
    s.piece_completed(&mut m, 0);
    assert_eq!(s.completed(), 1);
    assert!(m.our_bitfield().has_piece(0));
    let c = s.next_request(&mut m, 0, 0).unwrap();
    assert_eq!(c.block, BlockRequest { piece_index: 1, offset: 0, length: 16 });
}

#[test]
fn endgame_block_arrival_calls_off_the_other_requests() {
    let info = torrent(1, 16, 16);
    let config = SchedulerConfig { block_size: 16, endgame_threshold: 5, random_first: 0, request_timeout: 60_000 };
    let mut m = swarm(&["1", "1", "1"]);
    let mut s = PieceScheduler::new(&info, config);
    assert!(s.in_endgame(&m));
    for _ in 0..3 {
        s.next_request(&mut m, 0, 0).unwrap();
    }
    assert!(s.next_request(&mut m, 0, 0).is_none());
    let r = s.block_received(&mut m, &id(2), 0, 0, &[7; 16], 9);
    assert!(matches!(r.outcome, BlockOutcome::PieceReady { .. }));
    let told: Vec<[u8; 20]> = r.cancels.iter().map(|c| c.peer_id).collect();
    assert_eq!(told, vec![id(1), id(3)]);
    assert_eq!(r.cancels[0].block, BlockRequest { piece_index: 0, offset: 0, length: 16 });
    for p in m.peers() {
        assert_eq!(p.pending_request_count(), 0);
    }
}

#[test]
fn overdue_requests_are_given_up_and_requeued() {
    let info = torrent(4, 16384, 4 * 16384);
    let mut m = swarm(&["1111", "1111"]);
    let mut s = PieceScheduler::new(&info, no_random_no_endgame());
    let a = s.next_request(&mut m, 1_000, 0).unwrap();
    let b = s.next_request(&mut m, 30_000, 0).unwrap();
    let expired = s.expire(&mut m, 61_001);
    assert_eq!(expired.len(), 1);
    assert_eq!(expired[0].0, a.peer_id);
    assert_eq!(expired[0].1.piece_index, a.block.piece_index);
    assert_eq!(s.requeued(), &vec![a.block]);
    assert!(m.get_peer(&b.peer_id).unwrap().has_request(b.block.piece_index));
    assert!(!m.get_peer(&a.peer_id).unwrap().has_request(a.block.piece_index));
}

#[test]
fn leaving_peer_requeues_its_blocks() {
    let info = torrent(4, 16384, 4 * 16384);
    let mut m = swarm(&["1111"]);
    let mut s = PieceScheduler::new(&info, no_random_no_endgame());
    let a = s.next_request(&mut m, 0, 0).unwrap();
    let gone = s.peer_left(&mut m, &id(1)).unwrap();
    assert_eq!(gone.id, id(1));
    assert_eq!(s.requeued(), &vec![a.block]);
    assert!(m.peers().is_empty());
    assert!(s.peer_left(&mut m, &id(1)).is_none());
}

#[test]
fn best_peers_are_ranked_by_score_rate_and_id() {
    let mut m = swarm(&["1", "1", "1", "0"]);
    m.record_rates(&id(2), 10_000, 0);
    assert_eq!(m.best_peers_for_piece(0), vec![id(2), id(1), id(3)]);
    m.record_download(&id(3), 100, 0);
    m.record_upload(&id(3), 200, 0);
    assert_eq!(m.best_peers_for_piece(0), vec![id(2), id(3), id(1)]);
    assert_eq!(PieceScheduler::best_peer(&m, 0), Some(1));
    m.remote_choked(&id(2));
    assert_eq!(m.best_peers_for_piece(0), vec![id(3), id(1)]);
}

#[test]
fn ids_are_ordered_bytewise() {
    let mut a = [0u8; 20];
    let mut b = [0u8; 20];
    assert!(!id_less(&a, &b));
    b[19] = 1;
    assert!(id_less(&a, &b));
    assert!(!id_less(&b, &a));
    a[0] = 1;
    assert!(id_less(&b, &a));
}

#[test]
fn rank_orders_entries() {
    let e = |eligible, primary, secondary, n| RankEntry { eligible, primary, secondary, id: id(n) };
    let entries = vec![
        e(true, 5, 0, 9),
        e(false, 99, 0, 8),
        e(true, 7, 1, 7),
        e(true, 7, 2, 6),
        e(true, 5, 0, 3),
    ];
    assert_eq!(rank(&entries), vec![3, 2, 4, 0]);
    assert!(rank(&Vec::new()).is_empty());
}

fn interested(m: &mut PeerManager, ids: &[u8]) {
    for n in ids {
        m.remote_interest(&id(*n), InterestState::Interested);
    }
}

fn unchoked(m: &PeerManager) -> Vec<[u8; 20]> {
    m.peers().iter().filter(|p| p.am_choking == ChokingState::Unchoked).map(|p| p.id).collect()
}

fn told(commands: &[ChokeCommand]) -> Vec<([u8; 20], ChokingState)> {
    commands.iter().map(|c| (c.peer_id, c.choking)).collect()
}

#[test]
fn choking_round_serves_the_fastest_and_one_more() {
    let mut m = swarm(&["0000", "0000", "0000", "0000", "0000", "0000"]);
    interested(&mut m, &[1, 2, 3, 4, 5]);
    for (n, rate) in [(1u8, 100u64), (2, 500), (3, 300), (4, 400), (5, 200)] {
        m.record_rates(&id(n), rate, 0);
    }
    let commands = m.choking_round(10_000, 0);
    assert_eq!(unchoked(&m), vec![id(1), id(2), id(3), id(4)]);
    assert_eq!(m.optimistic_unchoke(), Some(id(1)));
    assert_eq!(
        told(&commands),
        vec![
            (id(1), ChokingState::Unchoked),
            (id(2), ChokingState::Unchoked),
            (id(3), ChokingState::Unchoked),
            (id(4), ChokingState::Unchoked),
        ]
    );
    assert_eq!(m.choke_rounds(), 1);

    let commands = m.choking_round(20_000, 1);
    assert_eq!(unchoked(&m), vec![id(1), id(2), id(3), id(4)]);
    assert!(commands.is_empty());
    m.choking_round(30_000, 1);
    assert_eq!(m.optimistic_unchoke(), Some(id(1)));

    let commands = m.choking_round(40_000, 1);
    assert_eq!(m.optimistic_unchoke(), Some(id(5)));
    assert_eq!(unchoked(&m), vec![id(2), id(3), id(4), id(5)]);
    assert_eq!(told(&commands), vec![(id(1), ChokingState::Choked), (id(5), ChokingState::Unchoked)]);
}

#[test]
fn choking_prefers_fresh_peers_for_the_optimistic_slot() {
    let mut m = swarm(&["0000", "0000", "0000", "0000", "0000", "0000"]);
    interested(&mut m, &[1, 2, 3, 4, 5, 6]);
    for (n, rate) in [(1u8, 100u64), (2, 500), (3, 300), (4, 400), (5, 50)] {
        m.record_rates(&id(n), rate, 0);
    }
    m.choking_round(10_000, 12345);
    assert_eq!(m.optimistic_unchoke(), Some(id(6)));
    assert_eq!(unchoked(&m), vec![id(2), id(3), id(4), id(6)]);
}

#[test]
fn choking_keeps_quota_and_serves_someone_interested() {
    let mut m = swarm(&["0", "0", "0"]);
    m.configure(1, 10_000, 30_000);
    interested(&mut m, &[2, 3]);
    for round in 0..7u64 {
        m.choking_round(round * 10_000, round * 7919);
        let served = unchoked(&m);
        assert_eq!(served.len(), 1);
        assert!(served[0] == id(2) || served[0] == id(3));
    }
    m.configure(0, 10_000, 30_000);
    m.choking_round(100_000, 3);
    assert!(unchoked(&m).is_empty());
    assert_eq!(m.optimistic_unchoke(), None);
    assert_eq!(m.max_unchoked(), 0);
}

#[test]
fn choking_ranks_by_upload_rate_when_seeding() {
    let mut m = swarm(&["0", "0", "0"]);
    m.configure(2, 10_000, 30_000);
    interested(&mut m, &[1, 2, 3]);
    m.record_rates(&id(1), 900, 10);
    m.record_rates(&id(2), 10, 900);
    m.record_rates(&id(3), 500, 500);
    m.completed_piece(0);
    assert!(m.is_complete());
    m.choking_round(10_000, 0);
    assert!(unchoked(&m).contains(&id(2)));
}

#[test]
fn update_choking_waits_for_the_interval() {
    let mut m = swarm(&["0", "0"]);
    interested(&mut m, &[1, 2]);
    assert!(!m.choking_due(9_999));
    assert!(m.update_choking(9_999).is_empty());
    assert!(unchoked(&m).is_empty());
    assert!(m.choking_due(10_000));
    let commands = m.update_choking(10_000);
    assert_eq!(commands.len(), 2);
    assert_eq!(unchoked(&m).len(), 2);
    assert!(m.update_choking(15_000).is_empty());
    assert_eq!(m.choke_rounds(), 1);
}

#[test]
fn stale_peers_are_dropped() {
    let mut m = swarm(&["0", "0", "0"]);
    interested(&mut m, &[2]);
    m.choking_round(10_000, 0);
    assert_eq!(m.optimistic_unchoke(), None);
    m.configure(1, 10_000, 30_000);
    m.choking_round(20_000, 0);
    assert_eq!(m.optimistic_unchoke(), Some(id(2)));
    m.record_download(&id(1), 1, 25_000);
    assert_eq!(m.cleanup_stale_peers(30_001), vec![id(2), id(3)]);
    assert_eq!(m.peer_ids(), vec![id(1)]);
    assert_eq!(m.optimistic_unchoke(), None);
    assert!(m.cleanup_stale_peers(30_001).is_empty());
}

#[test]
fn registry_statistics() {
    let mut m = swarm(&["0", "0"]);
    assert_eq!(PeerManager::new(1, 1, 0).download_stats(), (0, 0, 0, 0));
    m.record_download(&id(1), 100, 0);
    m.record_download(&id(2), u64::MAX, 0);
    m.record_upload(&id(1), 7, 0);
    m.record_rates(&id(1), 1000, 100);
    m.record_rates(&id(2), 0, 10);
    assert_eq!(m.download_stats(), (u64::MAX, 7, 150, 16));
}

#[test]
fn registry_records_requests_only_where_allowed() {
    let mut m = swarm(&["10"]);
    assert!(m.record_request(&id(1), 0, 0, 16384, 5));
    assert!(!m.record_request(&id(1), 1, 0, 16384, 5));
    assert!(!m.record_request(&id(2), 0, 0, 16384, 5));
    m.finish_request(&id(1), 0);
    assert_eq!(m.get_peer(&id(1)).unwrap().pending_request_count(), 0);
    m.remote_choked(&id(1));
    assert!(!m.record_request(&id(1), 0, 0, 16384, 5));
    assert!(!m.remote_bitfield(&id(1), Bitfield::new(3)));
    m.remote_has(&id(1), 1);
    assert!(m.get_peer(&id(1)).unwrap().peer_has_piece(1));
    assert!(!m.set_peer_state(&id(4), PeerState::Ready));
}
