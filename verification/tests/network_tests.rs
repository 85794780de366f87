use file_storage_system::common::error::FileError;
use file_storage_system::common::error::NetworkError;
use file_storage_system::common::error::PeerError;
use file_storage_system::common::error::ProtocolError;
use file_storage_system::common::error::TorrentError;
use file_storage_system::common::error::ValidationError;
use file_storage_system::common::types::FileInfo;
use file_storage_system::common::types::Statistics;
use file_storage_system::common::types::TorrentInfo;
use file_storage_system::file::torrent_parser::RawFileInfo;
use file_storage_system::file::torrent_parser::RawTorrent;
use file_storage_system::file::torrent_parser::RawTorrentInfo;
use file_storage_system::file::torrent_parser::TorrentParser;
use file_storage_system::network::connection::ConnectionInfo;
use file_storage_system::network::connection::ConnectionState;
use file_storage_system::network::engine::Outgoing;
use file_storage_system::network::engine::Swarm;
use file_storage_system::network::engine::UploadQueue;
use file_storage_system::network::engine::UploadStep;
use file_storage_system::network::session::Direction;
use file_storage_system::network::session::IdleAction;
use file_storage_system::network::session::PeerSession;
use file_storage_system::network::session::SessionEvent;
use file_storage_system::network::session::SessionState;
use file_storage_system::network::tracker::announce_request;
use file_storage_system::network::tracker::find_from;
use file_storage_system::network::tracker::parse_bencoded_response;
use file_storage_system::network::tracker::parse_digits;
use file_storage_system::network::tracker::scrape_key;
use file_storage_system::network::tracker::PeerInfo;
use file_storage_system::network::tracker::TrackerEvent;
use file_storage_system::network::tracker::TrackerManager;
use file_storage_system::network::tracker::TrackerRequest;
use file_storage_system::network::tracker::TrackerResponse;
use file_storage_system::peer::peer::ChokingState;
use file_storage_system::peer::peer::InterestState;
use file_storage_system::peer::peer::PeerAddress;
use file_storage_system::peer::peer::PeerState;
use file_storage_system::peer::scheduler::BlockRequest;
use file_storage_system::peer::scheduler::SchedulerConfig;
use file_storage_system::protocol::handshake::Handshake;
use file_storage_system::protocol::messages::MessageBuilder;
use file_storage_system::protocol::messages::MessageParser;
use file_storage_system::protocol::Message;
use file_storage_system::protocol::MessageType;
use sha1::Digest;
use sha1::Sha1;

fn sha1(data: &[u8]) -> [u8; 20] {
    Sha1::digest(data).into()
}

fn id(n: u8) -> [u8; 20] {
    [n; 20]
}

#[test]
fn test_tracker_event_conversion() {
    assert_eq!(TrackerEvent::from("started"), TrackerEvent::Started);
    assert_eq!(TrackerEvent::from("stopped"), TrackerEvent::Stopped);
    assert_eq!(TrackerEvent::from("completed"), TrackerEvent::Completed);
    assert_eq!(TrackerEvent::from("unknown"), TrackerEvent::NoEvent);

    assert_eq!(<&str>::from(TrackerEvent::Started), "started");
    assert_eq!(<&str>::from(TrackerEvent::Stopped), "stopped");
    assert_eq!(<&str>::from(TrackerEvent::Completed), "completed");
    assert_eq!(<&str>::from(TrackerEvent::NoEvent), "");
}

#[test]
fn test_tracker_request_creation() {
    let info_hash = [1u8; 20];
    let peer_id = [2u8; 20];
    let request = TrackerRequest::new(info_hash, peer_id, 6881, 1000, 2000, 3000, TrackerEvent::Started);

    assert_eq!(request.info_hash, info_hash);
    assert_eq!(request.peer_id, peer_id);
    assert_eq!(request.port, 6881);
    assert_eq!(request.uploaded, 1000);
    assert_eq!(request.downloaded, 2000);
    assert_eq!(request.left, 3000);
    assert_eq!(request.event, TrackerEvent::Started);
}

#[test]
fn test_tracker_request_query_params() {
    let info_hash = [1u8; 20];
    let peer_id = [2u8; 20];
    let request = TrackerRequest::new(info_hash, peer_id, 6881, 1000, 2000, 3000, TrackerEvent::Started);

    let params = request.to_query_params();
    assert!(params.contains("info_hash="));
    assert!(params.contains("peer_id="));
    assert!(params.contains("port=6881"));
    assert!(params.contains("uploaded=1000"));
    assert!(params.contains("downloaded=2000"));
    assert!(params.contains("left=3000"));
    assert!(params.contains("event=started"));
}

#[test]
fn query_params_are_exact() {
    let mut info_hash = [0x41u8; 20];
    info_hash[0] = 0x00;
    info_hash[1] = 0xFF;
    info_hash[2] = b'~';
    info_hash[3] = b' ';
    let mut request = TrackerRequest::new(info_hash, [b'z'; 20], 1, 0, 18446744073709551615, 10, TrackerEvent::NoEvent);
    assert_eq!(
        request.to_query_params(),
        format!(
            "info_hash=%00%FF~%20{}&peer_id={}&port=1&uploaded=0&downloaded=18446744073709551615&left=10&compact=1&numwant=50",
            "A".repeat(16),
            "z".repeat(20)
        )
    );
    request.compact = false;
    request.numwant = None;
    request.event = TrackerEvent::Completed;
    request.key = Some("k1".to_string());
    request.tracker_id = Some("t9".to_string());
    assert!(request.to_query_params().ends_with("&left=10&event=completed&key=k1&trackerid=t9"));
}

#[test]
fn announce_request_takes_the_counters() {
    let mut stats = Statistics::new(500);
    stats.update_downloaded(200);
    stats.update_uploaded(30);
    let r = announce_request(id(1), id(2), 6881, &stats, TrackerEvent::Stopped);
    assert_eq!((r.uploaded, r.downloaded, r.left), (30, 200, 300));
    assert_eq!(r.event, TrackerEvent::Stopped);
    assert!(r.compact);
    assert_eq!(r.numwant, Some(50));
}

#[test]
fn bencoded_response_gives_interval() {
    let r = parse_bencoded_response("d8:intervali900e5:peers0:e").unwrap();
    assert_eq!(r.interval, Some(900));
    assert_eq!(r.peers.unwrap().len(), 0);
    assert!(r.peers6.is_none());
    assert!(r.failure_reason.is_none());
    assert_eq!(parse_bencoded_response("de").unwrap().interval, Some(1800));
    assert_eq!(parse_bencoded_response("d8:intervalixe").unwrap().interval, Some(1800));
    assert_eq!(parse_bencoded_response("d8:intervalie").unwrap().interval, Some(1800));
    assert_eq!(
        parse_bencoded_response("d8:intervali4294967296ee").unwrap().interval,
        Some(1800)
    );
    assert_eq!(
        parse_bencoded_response("d8:intervali4294967295ee").unwrap().interval,
        Some(4294967295)
    );
    for bad in ["", "d", "e", "le", "d8:intervali900e "] {
        assert_eq!(
            parse_bencoded_response(bad).unwrap_err(),
            TorrentError::Network(NetworkError::InvalidMessage)
        );
    }
}

#[test]
fn text_search_and_digits() {
    assert_eq!(find_from(b"abcabc", b"bc", 0), 1);
    assert_eq!(find_from(b"abcabc", b"bc", 2), 4);
    assert_eq!(find_from(b"abcabc", b"bc", 5), 6);
    assert_eq!(find_from(b"abcabc", b"x", 0), 6);
    assert_eq!(find_from(b"ab", b"abc", 0), 2);
    assert_eq!(find_from(b"ab", b"a", 9), 2);
    assert_eq!(parse_digits(b"0"), Some(0));
    assert_eq!(parse_digits(b"0042"), Some(42));
    assert_eq!(parse_digits(b""), None);
    assert_eq!(parse_digits(b"+5"), None);
    assert_eq!(parse_digits(b"12a"), None);
}

#[test]
fn scrape_keys_are_hex_info_hashes() {
    let key = "000102030405060708090a0B0c0D0e0F10111213";
    let mut expected = [0u8; 20];
    for (i, b) in expected.iter_mut().enumerate() {
        *b = i as u8;
    }
    assert_eq!(scrape_key(key), Some(expected));
    assert_eq!(scrape_key(&key[..38]), None);
    assert_eq!(scrape_key(&format!("{}00", key)), None);
    assert_eq!(scrape_key("zz0102030405060708090a0b0c0d0e0f10111213"), None);
    assert_eq!(scrape_key("0"), None);
}

fn response(interval: Option<u32>, failure: Option<&str>) -> TrackerResponse {
    TrackerResponse {
        failure_reason: failure.map(|s| s.to_string()),
        warning_message: None,
        interval,
        min_interval: None,
        tracker_id: None,
        complete: None,
        incomplete: None,
        peers: Some(vec![PeerInfo { peer_id: None, ip: "10.0.0.1".to_string(), port: 1 }]),
        peers6: Some(vec![PeerInfo { peer_id: None, ip: "::1".to_string(), port: 2 }]),
    }
}

#[test]
fn tracker_manager_keeps_trackers_and_intervals() {
    let mut m = TrackerManager::new(vec!["http://a/announce".to_string()]);
    assert_eq!(m.trackers().len(), 1);
    m.add_tracker("http://a/announce".to_string());
    m.add_tracker("http://b/announce".to_string());
    assert_eq!(m.trackers(), &vec!["http://a/announce".to_string(), "http://b/announce".to_string()]);

    assert!(m.announce_due("http://a/announce", 0));
    let peers = m.record_response("http://a/announce", 1_000, response(Some(60), None)).unwrap();
    assert_eq!(peers.iter().map(|p| p.port).collect::<Vec<_>>(), vec![1, 2]);
    assert!(!m.announce_due("http://a/announce", 1_000));
    assert!(!m.announce_due("http://a/announce", 60_999));
    assert!(m.announce_due("http://a/announce", 61_000));
    assert!(m.announce_due("http://b/announce", 1_000));

    let err = m.record_response("http://a/announce", 70_000, response(Some(1), Some("banned"))).unwrap_err();
    assert_eq!(err, TorrentError::Io("banned".to_string()));
    assert!(!m.announce_due("http://a/announce", 60_999));

    m.record_response("http://a/announce", 70_000, response(None, None)).unwrap();
    assert!(!m.announce_due("http://a/announce", 129_999));
    assert!(m.announce_due("http://a/announce", 130_000));

    m.record_response("http://b/announce", 5, response(None, None)).unwrap();
    assert!(m.announce_due("http://b/announce", 6));

    m.remove_tracker("http://a/announce");
    assert_eq!(m.trackers(), &vec!["http://b/announce".to_string()]);
    assert!(m.announce_due("http://a/announce", 70_001));
}

#[test]
fn connection_info_tracks_activity() {
    let addr = PeerAddress::V4(0x7f00_0001, 6881);
    let mut info = ConnectionInfo::new(addr, id(1), id(2), 100);
    assert_eq!(info.addr, addr);
    assert_eq!(info.peer_id, id(1));
    assert_eq!(info.info_hash, id(2));
    assert_eq!(info.state, ConnectionState::Connecting);
    assert_eq!(info.last_activity, 100);
    assert!(!info.is_active(100, 30_000));
    info.state = ConnectionState::Connected;
    assert!(info.is_active(30_100, 30_000));
    assert!(info.is_stale(30_101, 30_000));
    assert!(!info.is_active(30_101, 30_000));
    info.update_activity(30_101);
    assert!(info.last_activity > 100);
    assert!(!info.is_stale(30_101, 30_000));
}

#[test]
fn pieces_are_parsed_and_generated() {
    let mut bytes = vec![1u8; 20];
    bytes.extend_from_slice(&[2u8; 20]);
    assert_eq!(TorrentParser::parse_pieces(&bytes).unwrap(), vec![[1u8; 20], [2u8; 20]]);
    assert!(TorrentParser::parse_pieces(&[]).unwrap().is_empty());
    assert_eq!(
        TorrentParser::parse_pieces(&bytes[..39]).unwrap_err(),
        TorrentError::Validation(ValidationError::InvalidHash)
    );
    let data: Vec<u8> = (0u8..25).collect();
    assert_eq!(
        TorrentParser::generate_pieces(&data, 10).unwrap(),
        vec![sha1(&data[0..10]), sha1(&data[10..20]), sha1(&data[20..25])]
    );
    assert_eq!(TorrentParser::generate_pieces(&data[..20], 10).unwrap().len(), 2);
    assert!(TorrentParser::generate_pieces(&[], 10).unwrap().is_empty());
    assert_eq!(
        TorrentParser::generate_pieces(&data, 0).unwrap_err(),
        TorrentError::Validation(ValidationError::InvalidPieceSize)
    );
    assert_eq!(
        TorrentParser::calculate_info_hash(b"abc"),
        [
            0xa9, 0x99, 0x3e, 0x36, 0x47, 0x06, 0x81, 0x6a, 0xba, 0x3e, 0x25, 0x71, 0x78, 0x50,
            0xc2, 0x6c, 0x9c, 0xd0, 0xd8, 0x9d
        ]
    );
}

fn raw(piece_length: u32, pieces: Vec<u8>, length: Option<u64>, files: Option<Vec<RawFileInfo>>) -> RawTorrent {
    RawTorrent {
        info: RawTorrentInfo {
            name: "n".to_string(),
            piece_length,
            pieces,
            private: 1,
            length,
            files,
            md5sum: Some("m".to_string()),
        },
        announce: Some("http://t".to_string()),
        announce_list: None,
        comment: Some("c".to_string()),
        created_by: None,
        creation_date: Some(7),
    }
}

#[test]
fn raw_torrent_converts_both_ways() {
    let single = TorrentParser::convert_raw_torrent(raw(4, vec![9; 40], Some(8), None)).unwrap();
    assert_eq!(single.name, "n");
    assert!(single.private);
    assert_eq!(single.pieces, vec![[9u8; 20]; 2]);
    assert_eq!(single.files.len(), 1);
    assert_eq!(single.files[0].path, vec!["n".to_string()]);
    assert_eq!(single.files[0].length, 8);
    assert_eq!(single.files[0].md5sum, Some("m".to_string()));
    assert_eq!(single.comment, Some("c".to_string()));
    assert_eq!(single.creation_date, Some(7));
    assert!(single.validate().is_ok());

    let files = vec![
        RawFileInfo { length: 3, path: vec!["d".to_string(), "a".to_string()], md5sum: None },
        RawFileInfo { length: 5, path: vec!["b".to_string()], md5sum: Some("x".to_string()) },
    ];
    let multi = TorrentParser::convert_raw_torrent(raw(4, vec![9; 40], Some(99), Some(files))).unwrap();
    assert_eq!(multi.files.len(), 2);
    assert_eq!(multi.files[0].path, vec!["d".to_string(), "a".to_string()]);
    assert_eq!(multi.files[1].md5sum, Some("x".to_string()));
    assert_eq!(multi.total_size(), 8);

    let back = TorrentParser::to_raw_torrent(&multi);
    assert_eq!(back.info.pieces, vec![9u8; 40]);
    assert_eq!(back.info.private, 1);
    assert_eq!(back.info.length, None);
    assert_eq!(back.info.files.as_ref().unwrap().len(), 2);
    assert_eq!(back.info.files.as_ref().unwrap()[0].path, vec!["d".to_string(), "a".to_string()]);
    assert!(back.announce.is_none());
    let back = TorrentParser::to_raw_torrent(&single);
    assert_eq!(back.info.length, Some(8));
    assert!(back.info.files.is_none());
    assert_eq!(back.info.md5sum, Some("m".to_string()));

    assert_eq!(
        TorrentParser::convert_raw_torrent(raw(0, vec![], Some(1), None)).unwrap_err(),
        TorrentError::Validation(ValidationError::InvalidPieceSize)
    );
    assert_eq!(
        TorrentParser::convert_raw_torrent(raw(4, vec![1; 21], Some(1), None)).unwrap_err(),
        TorrentError::Validation(ValidationError::InvalidHash)
    );
    assert_eq!(
        TorrentParser::convert_raw_torrent(raw(4, vec![1; 20], None, None)).unwrap_err(),
        TorrentError::Validation(ValidationError::MissingField { field: "files or length".to_string() })
    );
}

#[test]
fn torrent_is_assembled_from_file_contents() {
    let contents = vec![vec![1u8; 7], vec![], vec![2u8; 6]];
    let names = vec!["a".to_string(), "e".to_string(), "b".to_string()];
    let info = TorrentParser::assemble_torrent(names, &contents, 5, "t".to_string(), None, 99).unwrap();
    let mut all = vec![1u8; 7];
    all.extend_from_slice(&[2u8; 6]);
    assert_eq!(info.pieces, vec![sha1(&all[0..5]), sha1(&all[5..10]), sha1(&all[10..13])]);
    assert_eq!(info.files.iter().map(|f| f.length).collect::<Vec<_>>(), vec![7, 0, 6]);
    assert_eq!(info.files[2].path, vec!["b".to_string()]);
    assert_eq!(info.creation_date, Some(99));
    assert_eq!(info.created_by, Some("file-storage-system".to_string()));
    assert!(info.validate().is_ok());
    assert_eq!(
        TorrentParser::assemble_torrent(vec![], &vec![], 0, "t".to_string(), None, 0).unwrap_err(),
        TorrentError::Validation(ValidationError::InvalidPieceSize)
    );
}

#[test]
fn errors_have_words_and_convert() {
    assert_eq!(NetworkError::Timeout.message(), "Connection timeout");
    assert_eq!(FileError::NotFound { path: "p".to_string() }.message(), "File not found: p");
    assert_eq!(ProtocolError::MessageTooLarge { size: 131073 }.message(), "Message too large: 131073 bytes");
    assert_eq!(ProtocolError::InvalidMessageType { message_type: 0 }.message(), "Invalid message type: 0");
    assert_eq!(ProtocolError::InvalidPieceIndex { index: 4294967295 }.message(), "Invalid piece index: 4294967295");
    assert_eq!(PeerError::Choked.message(), "Peer is choked");
    assert_eq!(
        ValidationError::MissingField { field: "files or length".to_string() }.message(),
        "Missing required field: files or length"
    );
    assert_eq!(
        TorrentError::from(ProtocolError::InvalidHandshake).message(),
        "Protocol error: Invalid handshake"
    );
    assert_eq!(TorrentError::from(NetworkError::BindFailed), TorrentError::Network(NetworkError::BindFailed));
    assert_eq!(TorrentError::from(FileError::Corruption), TorrentError::File(FileError::Corruption));
    assert_eq!(TorrentError::from(PeerError::Timeout), TorrentError::Peer(PeerError::Timeout));
    assert_eq!(
        TorrentError::from(ValidationError::InvalidHash).message(),
        "Validation error: Invalid hash"
    );
    assert_eq!(TorrentError::Io("x".to_string()).message(), "IO error: x");
}

#[test]
fn session_follows_its_states() {
    let mut s = PeerSession::outbound(id(1), id(9), 5);
    assert_eq!(s.state, SessionState::Dialing);
    assert_eq!(s.direction, Direction::Outbound);
    assert_eq!(s.apply(SessionEvent::HandshakeAccepted).unwrap_err(), TorrentError::Peer(PeerError::InvalidStateTransition));
    assert_eq!(s.apply(SessionEvent::Connected).unwrap(), SessionState::Handshaking);
    assert_eq!(s.apply(SessionEvent::HandshakeAccepted).unwrap(), SessionState::Ready);
    assert_eq!(s.apply(SessionEvent::CloseRequested).unwrap(), SessionState::Closing);
    assert!(!s.is_terminal());
    assert_eq!(s.apply(SessionEvent::Drained).unwrap(), SessionState::Closed);
    assert!(s.is_terminal());
    for e in [SessionEvent::Connected, SessionEvent::Failure, SessionEvent::Drained, SessionEvent::CloseRequested] {
        assert!(s.apply(e).is_err());
        assert_eq!(s.state, SessionState::Closed);
    }
    let mut f = PeerSession::outbound(id(1), id(9), 5);
    assert_eq!(f.apply(SessionEvent::ConnectFailed).unwrap(), SessionState::Failed);
    assert!(f.is_terminal());
    let mut r = PeerSession::inbound(id(9), 5);
    assert_eq!(r.state, SessionState::Handshaking);
    assert_eq!(r.apply(SessionEvent::HandshakeRejected).unwrap(), SessionState::Failed);
}

#[test]
fn session_checks_the_handshake() {
    let known = vec![id(1), id(2)];
    let mut out = PeerSession::outbound(id(1), id(9), 0);
    assert_eq!(out.our_handshake().info_hash, id(1));
    assert_eq!(out.our_handshake().peer_id, id(9));
    assert_eq!(
        out.remote_handshake(&Handshake::new(id(1), id(5)), &known, 1).unwrap_err(),
        TorrentError::Peer(PeerError::InvalidStateTransition)
    );
    out.apply(SessionEvent::Connected).unwrap();
    out.remote_handshake(&Handshake::new(id(1), id(5)), &known, 7).unwrap();
    assert_eq!(out.state, SessionState::Ready);
    assert_eq!(out.remote_id, Some(id(5)));
    assert_eq!(out.last_received, 7);

    let mut wrong = PeerSession::outbound(id(1), id(9), 0);
    wrong.apply(SessionEvent::Connected).unwrap();
    assert_eq!(
        wrong.remote_handshake(&Handshake::new(id(2), id(5)), &known, 1).unwrap_err(),
        TorrentError::Peer(PeerError::HandshakeFailed)
    );
    assert_eq!(wrong.state, SessionState::Failed);

    let mut own = PeerSession::outbound(id(1), id(9), 0);
    own.apply(SessionEvent::Connected).unwrap();
    assert!(own.remote_handshake(&Handshake::new(id(1), id(9)), &known, 1).is_err());
    assert_eq!(own.state, SessionState::Failed);

    let mut inb = PeerSession::inbound(id(9), 0);
    inb.remote_handshake(&Handshake::new(id(2), id(5)), &known, 1).unwrap();
    assert_eq!(inb.state, SessionState::Ready);
    assert_eq!(inb.info_hash, id(2));
    let mut unknown = PeerSession::inbound(id(9), 0);
    assert!(unknown.remote_handshake(&Handshake::new(id(3), id(5)), &known, 1).is_err());
    assert_eq!(unknown.state, SessionState::Failed);
    let mut odd = PeerSession::inbound(id(9), 0);
    let mut h = Handshake::new(id(2), id(5));
    h.protocol_identifier[0] = b'b';
    assert!(odd.remote_handshake(&h, &known, 1).is_err());
}

#[test]
fn session_timers() {
    let mut s = PeerSession::inbound(id(9), 0);
    assert_eq!(s.idle_check(10_000_000), IdleAction::Nothing);
    s.remote_handshake(&Handshake::new(id(2), id(5)), &vec![id(2)], 0).unwrap();
    assert_eq!(s.idle_check(119_999), IdleAction::Nothing);
    assert_eq!(s.idle_check(120_000), IdleAction::SendKeepAlive);
    assert_eq!(s.last_sent, 120_000);
    assert_eq!(s.idle_check(120_001), IdleAction::Nothing);
    assert!(s.note_received(130_000));
    assert!(!s.note_received(130_000));
    s.note_sent(700_000);
    assert_eq!(s.idle_check(730_000), IdleAction::Nothing);
    assert_eq!(s.idle_check(730_001), IdleAction::Fail);
    assert_eq!(s.state, SessionState::Failed);
}

#[test]
fn upload_queue_is_first_in_first_out() {
    let b = |p| BlockRequest { piece_index: p, offset: 0, length: 4 };
    let mut q = UploadQueue::new();
    q.push(id(1), b(1));
    q.push(id(2), b(2));
    q.push(id(1), b(3));
    q.push(id(1), b(1));
    assert_eq!(q.len(), 4);
    q.cancel(&id(1), b(1));
    q.cancel(&id(2), b(9));
    assert_eq!(q.len(), 3);
    assert_eq!(q.pop().unwrap().block, b(2));
    q.push(id(2), b(5));
    q.drop_peer(&id(1));
    assert_eq!(q.len(), 1);
    assert_eq!(q.pop().unwrap().block, b(5));
    assert!(q.pop().is_none());
}

fn swarm() -> (Swarm, Vec<u8>) {
    swarm_with_cache(4)
}

fn sending(step: UploadStep) -> Option<Outgoing> {
    match step {
        UploadStep::Send(out) => Some(out),
        UploadStep::Idle => None,
        UploadStep::Fetch(piece) => panic!("piece {} is not in memory", piece),
    }
}

fn swarm_with_cache(cache_size: usize) -> (Swarm, Vec<u8>) {
    let data: Vec<u8> = (0u8..40).collect();
    let pieces: Vec<[u8; 20]> = data.chunks(16).map(sha1).collect();
    let info = TorrentInfo::new("t".to_string(), 16, pieces, vec![FileInfo::new(vec!["f".to_string()], 40)]);
    let config = SchedulerConfig { endgame_threshold: 0, random_first: 0, block_size: 8, request_timeout: 60_000 };
    let mut swarm = Swarm::new(info, "d".to_string(), cache_size, 10, config, 0);
    for n in 1..=2u8 {
        swarm.registry.add_peer(id(n), PeerAddress::V4(n as u32, 1), 0).unwrap();
        swarm.registry.set_peer_state(&id(n), PeerState::Ready);
    }
    (swarm, data)
}

fn ready() -> PeerSession {
    let mut s = PeerSession::inbound(id(9), 0);
    s.state = SessionState::Ready;
    s
}

fn kinds(out: &[Outgoing]) -> Vec<([u8; 20], MessageType)> {
    out.iter().map(|o| (o.peer_id, o.message.message_type)).collect()
}

#[test]
fn swarm_takes_messages_only_in_ready_sessions() {
    let (mut swarm, _) = swarm();
    let mut s = PeerSession::inbound(id(9), 0);
    assert_eq!(
        swarm.handle_message(&mut s, &id(1), &Message::unchoke(), 5).unwrap_err(),
        TorrentError::Peer(PeerError::InvalidStateTransition)
    );
    assert_eq!(s.messages_received, 0);
    assert_eq!(swarm.registry.get_peer(&id(1)).unwrap().peer_choking, ChokingState::Choked);
}

#[test]
fn swarm_follows_flow_messages() {
    let (mut swarm, _) = swarm();
    let mut s = ready();
    assert!(swarm.handle_message(&mut s, &id(1), &Message::unchoke(), 5).unwrap().is_empty());
    assert!(swarm.handle_message(&mut s, &id(1), &Message::interested(), 6).unwrap().is_empty());
    let p = swarm.registry.get_peer(&id(1)).unwrap();
    assert_eq!(p.peer_choking, ChokingState::Unchoked);
    assert_eq!(p.peer_interested, InterestState::Interested);
    assert_eq!(p.last_seen, 6);
    assert_eq!(s.messages_received, 2);
    assert_eq!(s.last_received, 6);
    swarm.handle_message(&mut s, &id(1), &Message::not_interested(), 7).unwrap();
    swarm.handle_message(&mut s, &id(1), &Message::keep_alive(), 8).unwrap();
    swarm.handle_message(&mut s, &id(1), &Message::build_port(6881), 9).unwrap();
    let p = swarm.registry.get_peer(&id(1)).unwrap();
    assert_eq!(p.peer_interested, InterestState::NotInterested);
    assert_eq!(p.last_seen, 9);
    assert_eq!(
        swarm.handle_message(&mut s, &id(1), &Message::new(MessageType::Port, vec![1]), 10).unwrap_err(),
        TorrentError::Network(NetworkError::InvalidMessage)
    );
    assert_eq!(swarm.registry.get_peer(&id(1)).unwrap().last_seen, 9);
}

#[test]
fn swarm_learns_pieces_and_shows_interest() {
    let (mut swarm, _) = swarm();
    let mut s = ready();
    let out = swarm.handle_message(&mut s, &id(1), &Message::bitfield(&[0b0100_0000]), 1).unwrap();
    assert_eq!(kinds(&out), vec![(id(1), MessageType::Interested)]);
    assert!(swarm.registry.get_peer(&id(1)).unwrap().peer_has_piece(1));
    let out = swarm.handle_message(&mut s, &id(1), &Message::bitfield(&[0b1110_0000]), 2).unwrap();
    assert!(out.is_empty());
    assert!(!swarm.registry.get_peer(&id(1)).unwrap().peer_has_piece(0));
    let out = swarm.handle_message(&mut s, &id(1), &Message::have(0), 3).unwrap();
    assert!(out.is_empty());
    assert!(swarm.registry.get_peer(&id(1)).unwrap().peer_has_piece(0));

    let mut s2 = ready();
    let out = swarm.handle_message(&mut s2, &id(2), &Message::have(2), 4).unwrap();
    assert_eq!(kinds(&out), vec![(id(2), MessageType::Interested)]);
    assert_eq!(
        swarm.handle_message(&mut s2, &id(2), &Message::have(3), 5).unwrap_err(),
        TorrentError::Protocol(ProtocolError::InvalidPieceIndex { index: 3 })
    );
    let mut s3 = ready();
    assert_eq!(
        swarm.handle_message(&mut s3, &id(2), &Message::bitfield(&[0b0001_0000]), 6).unwrap_err(),
        TorrentError::Protocol(ProtocolError::InvalidBitfield)
    );
    assert!(!swarm.registry.get_peer(&id(2)).unwrap().peer_has_piece(0));
}

#[test]
fn swarm_downloads_verifies_and_announces() {
    let (mut swarm, data) = swarm();
    let mut s = ready();
    swarm.handle_message(&mut s, &id(1), &Message::bitfield(&[0b1110_0000]), 1).unwrap();
    swarm.handle_message(&mut s, &id(1), &Message::unchoke(), 2).unwrap();
    let c = swarm.scheduler.next_request(&mut swarm.registry, 3, 0).unwrap();
    assert_eq!(c.block, BlockRequest { piece_index: 0, offset: 0, length: 8 });
    let out = swarm.handle_message(&mut s, &id(1), &Message::piece(0, 0, data[0..8].to_vec()), 4).unwrap();
    assert!(out.is_empty());
    assert!(!swarm.files.piece_manager().has_piece(0));
    let c = swarm.scheduler.next_request(&mut swarm.registry, 5, 0).unwrap();
    assert_eq!(c.block, BlockRequest { piece_index: 0, offset: 8, length: 8 });
    let out = swarm.handle_message(&mut s, &id(1), &Message::piece(0, 8, data[8..16].to_vec()), 6).unwrap();
    assert_eq!(kinds(&out), vec![(id(1), MessageType::Have), (id(2), MessageType::Have)]);
    assert_eq!(out[0].message.parse_have().unwrap(), 0);
    assert!(swarm.files.piece_manager().has_piece(0));
    assert!(swarm.registry.our_bitfield().has_piece(0));
    assert_eq!(swarm.scheduler.completed(), 1);
    assert_eq!(swarm.registry.get_peer(&id(1)).unwrap().downloaded, 16);

    let c = swarm.scheduler.next_request(&mut swarm.registry, 7, 0).unwrap();
    assert_eq!(c.block.piece_index, 1);
    swarm.handle_message(&mut s, &id(1), &Message::piece(1, 0, vec![0xEE; 8]), 8).unwrap();
    let c = swarm.scheduler.next_request(&mut swarm.registry, 9, 0).unwrap();
    assert_eq!(c.block, BlockRequest { piece_index: 1, offset: 8, length: 8 });
    let out = swarm.handle_message(&mut s, &id(1), &Message::piece(1, 8, data[24..32].to_vec()), 10).unwrap();
    assert!(out.is_empty());
    assert!(!swarm.files.piece_manager().has_piece(1));
    assert!(!swarm.registry.our_bitfield().has_piece(1));
    let c = swarm.scheduler.next_request(&mut swarm.registry, 11, 0).unwrap();
    assert_eq!(c.block, BlockRequest { piece_index: 1, offset: 0, length: 8 });
}

#[test]
fn swarm_choke_requeues_outstanding_blocks() {
    let (mut swarm, _) = swarm();
    let mut s = ready();
    swarm.handle_message(&mut s, &id(1), &Message::bitfield(&[0b1110_0000]), 1).unwrap();
    swarm.handle_message(&mut s, &id(1), &Message::unchoke(), 2).unwrap();
    let a = swarm.scheduler.next_request(&mut swarm.registry, 3, 0).unwrap();
    let b = swarm.scheduler.next_request(&mut swarm.registry, 3, 0).unwrap();
    assert_eq!(swarm.registry.get_peer(&id(1)).unwrap().pending_request_count(), 2);
    swarm.handle_message(&mut s, &id(1), &Message::choke(), 4).unwrap();
    assert_eq!(swarm.registry.get_peer(&id(1)).unwrap().pending_request_count(), 0);
    assert_eq!(swarm.scheduler.requeued(), &vec![a.block, b.block]);
}

#[test]
fn swarm_serves_requests_only_to_unchoked_interested_peers() {
    let (mut swarm, data) = swarm();
    assert!(swarm.files.submit_piece(0, data[0..16].to_vec()).is_ok());
    swarm.registry.completed_piece(0);
    let mut s = ready();
    swarm.handle_message(&mut s, &id(1), &Message::request(0, 4, 8), 1).unwrap();
    assert_eq!(swarm.uploads.len(), 0);
    swarm.handle_message(&mut s, &id(1), &Message::interested(), 2).unwrap();
    swarm.registry.configure(4, 0, 30_000);
    swarm.registry.choking_round(3, 0);
    assert_eq!(swarm.registry.get_peer(&id(1)).unwrap().am_choking, ChokingState::Unchoked);
    swarm.handle_message(&mut s, &id(1), &Message::request(0, 4, 8), 4).unwrap();
    swarm.handle_message(&mut s, &id(1), &Message::request(0, 12, 8), 4).unwrap();
    swarm.handle_message(&mut s, &id(1), &Message::request(1, 0, 8), 4).unwrap();
    swarm.handle_message(&mut s, &id(1), &Message::request(0, 0, 0), 4).unwrap();
    swarm.handle_message(&mut s, &id(1), &Message::request(0, 0, 16385), 4).unwrap();
    swarm.handle_message(&mut s, &id(1), &Message::request(0, 8, 8), 4).unwrap();
    swarm.handle_message(&mut s, &id(1), &Message::request(0, 0, 2), 4).unwrap();
    assert_eq!(swarm.uploads.len(), 3);
    swarm.handle_message(&mut s, &id(1), &Message::cancel(0, 8, 8), 5).unwrap();
    assert_eq!(swarm.uploads.len(), 2);

    let out = sending(swarm.next_upload(6)).unwrap();
    assert_eq!(out.peer_id, id(1));
    assert_eq!(out.message.parse_piece().unwrap(), (0, 4, data[4..12].to_vec()));
    assert_eq!(swarm.registry.get_peer(&id(1)).unwrap().uploaded, 8);
    assert_eq!(swarm.registry.get_peer(&id(1)).unwrap().last_sent, 6);

    swarm.handle_message(&mut s, &id(1), &Message::not_interested(), 7).unwrap();
    swarm.registry.choking_round(8, 0);
    assert_eq!(swarm.registry.get_peer(&id(1)).unwrap().am_choking, ChokingState::Choked);
    assert!(sending(swarm.next_upload(9)).is_none());
    assert_eq!(swarm.uploads.len(), 0);
    assert_eq!(swarm.registry.get_peer(&id(1)).unwrap().uploaded, 8);
}

#[test]
fn swarm_names_the_piece_to_read_back_before_it_uploads() {
    let (mut swarm, data) = swarm_with_cache(1);
    assert!(swarm.piece_read_back(0, data[0..16].to_vec()));
    assert!(swarm.piece_read_back(1, data[16..32].to_vec()));
    assert_eq!(swarm.files.piece_manager().cache_usage(), (1, 1));
    assert!(swarm.files.piece_manager().has_piece(0));
    let mut s = ready();
    swarm.handle_message(&mut s, &id(1), &Message::interested(), 1).unwrap();
    swarm.registry.configure(4, 0, 30_000);
    swarm.choking_round(2, 0);
    swarm.handle_message(&mut s, &id(1), &Message::request(0, 8, 8), 3).unwrap();
    swarm.handle_message(&mut s, &id(1), &Message::request(1, 0, 4), 3).unwrap();
    assert_eq!(swarm.uploads.len(), 2);

    assert!(matches!(swarm.next_upload(4), UploadStep::Fetch(0)));
    assert_eq!(swarm.uploads.len(), 2);
    assert!(matches!(swarm.next_upload(5), UploadStep::Fetch(0)));
    assert_eq!(swarm.uploads.len(), 2);
    assert_eq!(swarm.registry.get_peer(&id(1)).unwrap().uploaded, 0);

    assert!(swarm.piece_read_back(0, data[0..16].to_vec()));
    let out = sending(swarm.next_upload(6)).unwrap();
    assert_eq!(out.peer_id, id(1));
    assert_eq!(out.message.parse_piece().unwrap(), (0, 8, data[8..16].to_vec()));
    assert_eq!(swarm.uploads.len(), 1);

    assert!(matches!(swarm.next_upload(7), UploadStep::Fetch(1)));
    assert!(!swarm.piece_read_back(1, vec![0; 16]));
    assert!(!swarm.files.piece_manager().has_piece(1));
    assert!(matches!(swarm.next_upload(8), UploadStep::Idle));
    assert_eq!(swarm.uploads.len(), 0);
    assert_eq!(swarm.registry.get_peer(&id(1)).unwrap().uploaded, 8);
}

fn ask_and_give(swarm: &mut Swarm, s: &mut PeerSession, data: &[u8], piece: u32, offset: u32) -> Vec<Outgoing> {
    let c = swarm.scheduler.next_request(&mut swarm.registry, 3, 0).unwrap();
    assert_eq!(c.block, BlockRequest { piece_index: piece, offset, length: 8 });
    let from = (piece * 16 + offset) as usize;
    let block = Message::piece(piece, offset, data[from..from + 8].to_vec());
    swarm.handle_message(s, &id(1), &block, 4).unwrap()
}

#[test]
fn swarm_forgets_a_piece_for_which_no_room_can_be_made() {
    let (mut swarm, data) = swarm_with_cache(1);
    let mut s = ready();
    swarm.handle_message(&mut s, &id(1), &Message::bitfield(&[0b1110_0000]), 1).unwrap();
    swarm.handle_message(&mut s, &id(1), &Message::unchoke(), 2).unwrap();
    assert!(ask_and_give(&mut swarm, &mut s, &data, 0, 0).is_empty());
    let out = ask_and_give(&mut swarm, &mut s, &data, 0, 8);
    assert_eq!(kinds(&out), vec![(id(1), MessageType::Have), (id(2), MessageType::Have)]);
    assert_eq!(swarm.files.piece_manager().cache_usage(), (1, 1));

    assert!(ask_and_give(&mut swarm, &mut s, &data, 1, 0).is_empty());
    assert!(ask_and_give(&mut swarm, &mut s, &data, 1, 8).is_empty());
    assert!(!swarm.files.piece_manager().has_piece(1));
    assert!(!swarm.registry.our_bitfield().has_piece(1));
    assert_eq!(swarm.files.piece_manager().cache_usage(), (1, 1));
    assert_eq!(swarm.files.piece_data(0), Some(data[0..16].to_vec()));
    assert_eq!(swarm.scheduler.completed(), 1);

    swarm.files.mark_persisted(0);
    assert!(ask_and_give(&mut swarm, &mut s, &data, 1, 0).is_empty());
    let out = ask_and_give(&mut swarm, &mut s, &data, 1, 8);
    assert_eq!(kinds(&out), vec![(id(1), MessageType::Have), (id(2), MessageType::Have)]);
    assert_eq!(out[0].message.parse_have().unwrap(), 1);
    assert!(swarm.files.piece_manager().has_piece(1));
    assert!(swarm.registry.our_bitfield().has_piece(1));
    assert!(swarm.files.piece_manager().has_piece(0));
    assert_eq!(swarm.files.piece_manager().cache_usage(), (1, 1));
    assert_eq!(swarm.files.piece_data(0), None);
    assert_eq!(swarm.scheduler.completed(), 2);
}

#[test]
fn swarm_opens_with_its_bitfield_once_it_has_pieces() {
    let (mut swarm, data) = swarm();
    assert!(swarm.opening_bitfield().is_none());
    assert!(swarm.piece_read_back(1, data[16..32].to_vec()));
    let m = swarm.opening_bitfield().unwrap();
    assert_eq!(m.message_type, MessageType::Bitfield);
    assert_eq!(m.payload, vec![0b0100_0000]);
}

#[test]
fn bad_bytes_on_disk_take_the_piece_back() {
    let (mut swarm, data) = swarm();
    let mut s = ready();
    swarm.handle_message(&mut s, &id(1), &Message::bitfield(&[0b0100_0000]), 1).unwrap();
    assert_eq!(swarm.registry.get_peer(&id(1)).unwrap().am_interested, InterestState::Interested);
    assert!(swarm.piece_read_back(1, data[16..32].to_vec()));
    assert!(swarm.registry.our_bitfield().has_piece(1));
    assert!(swarm.files.piece_manager().has_piece(1));
    assert_eq!(swarm.registry.get_peer(&id(1)).unwrap().am_interested, InterestState::NotInterested);
    swarm.files.mark_persisted(1);
    assert!(!swarm.piece_read_back(1, vec![0; 16]));
    assert!(!swarm.registry.our_bitfield().has_piece(1));
    assert!(!swarm.files.piece_manager().has_piece(1));
    assert_eq!(swarm.registry.get_peer(&id(1)).unwrap().am_interested, InterestState::Interested);
    assert!(!swarm.piece_read_back(9, vec![0; 16]));
}

/// Moves messages between a seed and a leecher held in memory until
/// neither has anything more to say.
#[test]
fn a_leecher_with_a_seed_in_reach_completes() {
    let (mut seed, data) = swarm();
    let (mut leech, _) = swarm();
    for (i, chunk) in data.chunks(16).enumerate() {
        assert!(seed.piece_read_back(i as u32, chunk.to_vec()));
    }
    assert!(seed.registry.is_complete());
    seed.registry.configure(4, 0, 30_000);

    let seed_id = id(1);
    let leech_id = id(2);
    let mut at_seed = ready();
    let mut at_leech = ready();
    let mut to_seed: Vec<Message> = Vec::new();
    let mut to_leech: Vec<Message> = vec![seed.opening_bitfield().unwrap()];
    let mut now = 0u64;
    for _ in 0..200 {
        now += 1;
        for m in std::mem::take(&mut to_leech) {
            for out in leech.handle_message(&mut at_leech, &seed_id, &m, now).unwrap() {
                if out.peer_id == seed_id {
                    to_seed.push(out.message);
                }
            }
        }
        while let Some(c) = leech.scheduler.next_request(&mut leech.registry, now, now) {
            assert_eq!(c.peer_id, seed_id);
            to_seed.push(Message::request(c.block.piece_index, c.block.offset, c.block.length));
        }
        for m in std::mem::take(&mut to_seed) {
            for out in seed.handle_message(&mut at_seed, &leech_id, &m, now).unwrap() {
                if out.peer_id == leech_id {
                    to_leech.push(out.message);
                }
            }
        }
        for c in seed.registry.choking_round(now, now) {
            if c.peer_id == leech_id && c.choking == ChokingState::Unchoked {
                to_leech.push(Message::unchoke());
            }
        }
        while let Some(out) = sending(seed.next_upload(now)) {
            assert_eq!(out.peer_id, leech_id);
            assert_eq!(seed.registry.get_peer(&leech_id).unwrap().am_choking, ChokingState::Unchoked);
            to_leech.push(out.message);
        }
        if leech.registry.is_complete() && to_leech.is_empty() && to_seed.is_empty() {
            break;
        }
    }
    assert!(leech.registry.is_complete());
    assert!(leech.files.is_complete());
    assert_eq!(leech.registry.our_bitfield().to_bytes(), vec![0b1110_0000]);
    assert_eq!(leech.scheduler.completed(), 3);
    for i in 0..3u32 {
        let from = i as usize * 16;
        let to = (from + 16).min(data.len());
        assert_eq!(leech.files.piece_data(i), Some(data[from..to].to_vec()));
    }
    assert_eq!(leech.registry.get_peer(&seed_id).unwrap().downloaded, 40);
    assert_eq!(seed.registry.get_peer(&leech_id).unwrap().uploaded, 40);
    for p in leech.registry.peers() {
        assert!(p.pending_request_count() <= p.max_requests);
    }
}

#[test]
fn swarm_makes_request_messages() {
    let (mut swarm, _) = swarm();
    let mut s = ready();
    assert!(swarm.next_request(1, 0).is_none());
    swarm.handle_message(&mut s, &id(1), &Message::bitfield(&[0b1110_0000]), 1).unwrap();
    swarm.handle_message(&mut s, &id(1), &Message::unchoke(), 2).unwrap();
    let out = swarm.next_request(3, 0).unwrap();
    assert_eq!(out.peer_id, id(1));
    assert_eq!(out.message.message_type, MessageType::Request);
    assert_eq!(out.message.parse_request().unwrap(), (0, 0, 8));
    assert!(swarm.registry.get_peer(&id(1)).unwrap().has_request(0));
}

#[test]
fn swarm_calls_off_overdue_requests() {
    let (mut swarm, _) = swarm();
    let mut s = ready();
    swarm.handle_message(&mut s, &id(1), &Message::bitfield(&[0b1110_0000]), 1).unwrap();
    swarm.handle_message(&mut s, &id(1), &Message::unchoke(), 2).unwrap();
    swarm.next_request(1_000, 0).unwrap();
    swarm.next_request(40_000, 0).unwrap();
    assert!(swarm.expire_requests(61_000).is_empty());
    let out = swarm.expire_requests(61_001);
    assert_eq!(kinds(&out), vec![(id(1), MessageType::Cancel)]);
    assert_eq!(out[0].message.parse_cancel().unwrap(), (0, 0, 8));
    assert_eq!(swarm.scheduler.requeued(), &vec![BlockRequest { piece_index: 0, offset: 0, length: 8 }]);
    assert_eq!(swarm.registry.get_peer(&id(1)).unwrap().pending_request_count(), 1);
}

#[test]
fn choking_a_peer_drops_what_it_asked_for() {
    let (mut swarm, data) = swarm();
    assert!(swarm.piece_read_back(0, data[0..16].to_vec()));
    let mut s1 = ready();
    let mut s2 = ready();
    swarm.handle_message(&mut s1, &id(1), &Message::interested(), 1).unwrap();
    swarm.handle_message(&mut s2, &id(2), &Message::interested(), 1).unwrap();
    swarm.registry.record_rates(&id(2), 1000, 0);
    let out = swarm.choking_round(2, 0);
    assert_eq!(kinds(&out), vec![(id(1), MessageType::Unchoke), (id(2), MessageType::Unchoke)]);
    swarm.handle_message(&mut s1, &id(1), &Message::request(0, 0, 8), 3).unwrap();
    swarm.handle_message(&mut s2, &id(2), &Message::request(0, 8, 8), 3).unwrap();
    swarm.handle_message(&mut s1, &id(1), &Message::request(0, 4, 8), 3).unwrap();
    assert_eq!(swarm.uploads.len(), 3);
    swarm.registry.configure(1, 10_000, 30_000);
    let out = swarm.choking_round(4, 0);
    assert_eq!(kinds(&out), vec![(id(2), MessageType::Choke)]);
    assert_eq!(swarm.registry.optimistic_unchoke(), Some(id(1)));
    assert_eq!(swarm.uploads.len(), 2);
    let sent = sending(swarm.next_upload(5)).unwrap();
    assert_eq!(sent.peer_id, id(1));
    assert_eq!(sent.message.parse_piece().unwrap(), (0, 0, data[0..8].to_vec()));
    let sent = sending(swarm.next_upload(6)).unwrap();
    assert_eq!(sent.message.parse_piece().unwrap(), (0, 4, data[4..12].to_vec()));
    assert!(sending(swarm.next_upload(7)).is_none());
}

#[test]
fn test_connection_info_creation() {
    let addr = PeerAddress::V4(0x7f00_0001, 6881);
    let peer_id = [1u8; 20];
    let info_hash = [2u8; 20];

    let info = ConnectionInfo::new(addr, peer_id, info_hash, 0);

    assert_eq!(info.addr, addr);
    assert_eq!(info.peer_id, peer_id);
    assert_eq!(info.info_hash, info_hash);
    assert_eq!(info.state, ConnectionState::Connecting);
}

#[test]
fn test_connection_info_activity() {
    let addr = PeerAddress::V4(0x7f00_0001, 6881);
    let peer_id = [1u8; 20];
    let info_hash = [2u8; 20];

    let mut info = ConnectionInfo::new(addr, peer_id, info_hash, 1_000);
    let original_activity = info.last_activity;

    info.update_activity(1_010);

    assert!(info.last_activity > original_activity);
}

#[test]
fn test_tracker_manager_creation() {
    let trackers = vec!["http://tracker.example.com/announce".to_string()];
    let manager = TrackerManager::new(trackers);

    assert_eq!(manager.trackers().len(), 1);
}
