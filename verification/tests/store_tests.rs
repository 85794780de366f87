use file_storage_system::common::bitfield::Bitfield;
use file_storage_system::common::error::FileError;
use file_storage_system::common::error::ProtocolError;
use file_storage_system::common::error::TorrentError;
use file_storage_system::common::error::ValidationError;
use file_storage_system::common::types::same_bytes;
use file_storage_system::common::types::Config;
use file_storage_system::common::types::FileInfo;
use file_storage_system::common::types::Piece;
use file_storage_system::common::types::Statistics;
use file_storage_system::common::types::TorrentInfo;
use file_storage_system::file::layout::file_spans;
use file_storage_system::file::layout::gather;
use file_storage_system::file::layout::scatter;
use file_storage_system::file::layout::FileSpan;
use file_storage_system::file::manager::FileManager;
use file_storage_system::file::piece_manager::PieceManager;
use file_storage_system::file::piece_manager::SubmitOutcome;
use sha1::Digest;
use sha1::Sha1;

fn sha1(data: &[u8]) -> [u8; 20] {
    Sha1::digest(data).into()
}

const ABC_SHA1: [u8; 20] = [
    0xa9, 0x99, 0x3e, 0x36, 0x47, 0x06, 0x81, 0x6a, 0xba, 0x3e, 0x25, 0x71, 0x78, 0x50, 0xc2,
    0x6c, 0x9c, 0xd0, 0xd8, 0x9d,
];

#[test]
fn bitfield_starts_clear() {
    let b = Bitfield::new(10);
    assert_eq!(b.total_pieces(), 10);
    assert_eq!(b.count_pieces(), 0);
    assert!(!b.is_complete());
    assert_eq!(b.missing_pieces(), (0..10).collect::<Vec<u32>>());
    assert!(b.available_pieces().is_empty());
    assert_eq!(b.to_bytes(), vec![0, 0]);
}

#[test]
fn bitfield_of_no_pieces_is_complete() {
    let b = Bitfield::new(0);
    assert!(b.is_complete());
    assert!(b.to_bytes().is_empty());
    assert!(b.missing_pieces().is_empty());
}

#[test]
fn bitfield_set_and_clear() {
    let mut b = Bitfield::new(10);
    b.set_piece(0);
    b.set_piece(9);
    b.set_piece(10);
    b.set_piece(u32::MAX);
    assert!(b.has_piece(0));
    assert!(b.has_piece(9));
    assert!(!b.has_piece(1));
    assert!(!b.has_piece(10));
    assert_eq!(b.count_pieces(), 2);
    assert_eq!(b.available_pieces(), vec![0, 9]);
    assert_eq!(b.missing_pieces(), vec![1, 2, 3, 4, 5, 6, 7, 8]);
    assert_eq!(b.to_bytes(), vec![0b1000_0000, 0b0100_0000]);
    b.unset_piece(0);
    b.unset_piece(77);
    assert!(!b.has_piece(0));
    assert_eq!(b.to_bytes(), vec![0, 0b0100_0000]);
    let copy = b.clone();
    assert_eq!(copy.available_pieces(), vec![9]);
}

#[test]
fn bitfield_bit_zero_is_the_high_bit_of_byte_zero() {
    let b = Bitfield::from_bytes(&[0b1010_0000], 4).unwrap();
    assert!(b.has_piece(0));
    assert!(!b.has_piece(1));
    assert!(b.has_piece(2));
    assert!(!b.has_piece(3));
    assert_eq!(b.to_bytes(), vec![0b1010_0000]);
}

#[test]
fn bitfield_from_bytes_rejects_stray_bits() {
    let err = Bitfield::from_bytes(&[0b1010_1000], 4).unwrap_err();
    assert_eq!(err, TorrentError::Protocol(ProtocolError::InvalidBitfield));
    let err = Bitfield::from_bytes(&[0xF0, 0x01], 4).unwrap_err();
    assert_eq!(err, TorrentError::Protocol(ProtocolError::InvalidBitfield));
}

#[test]
fn bitfield_from_bytes_truncates_and_extends() {
    let b = Bitfield::from_bytes(&[0xF0, 0x00, 0x00], 4).unwrap();
    assert_eq!(b.total_pieces(), 4);
    assert!(b.is_complete());
    let b = Bitfield::from_bytes(&[0xFF], 12).unwrap();
    assert_eq!(b.total_pieces(), 12);
    assert_eq!(b.count_pieces(), 8);
    assert_eq!(b.missing_pieces(), vec![8, 9, 10, 11]);
    let b = Bitfield::from_bytes(&[], 3).unwrap();
    assert_eq!(b.count_pieces(), 0);
}

#[test]
fn bitfield_round_trips_through_bytes() {
    let mut b = Bitfield::new(19);
    for i in [0u32, 3, 7, 8, 15, 16, 18] {
        b.set_piece(i);
    }
    let bytes = b.to_bytes();
    assert_eq!(bytes, vec![0b1001_0001, 0b1000_0001, 0b1010_0000]);
    let back = Bitfield::from_bytes(&bytes, 19).unwrap();
    assert_eq!(back.available_pieces(), b.available_pieces());
    assert_eq!(back.to_bytes(), bytes);
}

#[test]
fn same_bytes_compares_contents() {
    assert!(same_bytes(&[1, 2, 3], &[1, 2, 3]));
    assert!(!same_bytes(&[1, 2, 3], &[1, 2, 4]));
    assert!(!same_bytes(&[1, 2, 3], &[1, 2]));
    assert!(same_bytes(&[], &[]));
}

#[test]
fn piece_verifies_against_sha1() {
    let mut piece = Piece::new(3, ABC_SHA1);
    assert!(!piece.is_complete());
    assert!(!piece.verify());
    assert!(piece.set_data(b"abc".to_vec()));
    assert!(piece.verified);
    assert!(piece.is_complete());
    assert!(!piece.set_data(b"abd".to_vec()));
    assert!(!piece.verified);
    assert!(!piece.is_complete());
    let mut named = Piece::new(0, *b"abcdefghijklmnopqrst");
    assert!(!named.set_data(b"abcdefghijklmnopqrst".to_vec()));
}

#[test]
fn piece_store_accepts_matching_bytes_only() {
    let payload: Vec<u8> = (0u8..16).collect();
    let mut store = PieceManager::new(vec![sha1(&payload), sha1(b"other")], 16, 4);
    assert_eq!(store.num_pieces(), 2);
    assert_eq!(store.piece_length(), 16);
    assert!(!store.has_piece(0));

    let mut flipped = payload.clone();
    flipped[5] ^= 0x01;
    assert_eq!(store.submit(0, flipped).unwrap(), SubmitOutcome::RejectedBadHash);
    assert!(!store.has_piece(0));
    assert_eq!(store.bitfield().count_pieces(), 0);
    assert_eq!(store.get_piece_data(0), None);

    assert_eq!(store.submit(0, payload.clone()).unwrap(), SubmitOutcome::Accepted);
    assert!(store.has_piece(0));
    assert!(store.bitfield().has_piece(0));
    assert_eq!(store.get_piece_data(0), Some(payload.clone()));
    assert_eq!(store.completed_pieces(), vec![0]);
    assert_eq!(store.missing_pieces(), vec![1]);
    assert!(!store.is_complete());

    let mut flipped = payload.clone();
    flipped[0] ^= 0x80;
    assert_eq!(store.submit(0, flipped).unwrap(), SubmitOutcome::RejectedBadHash);
    assert!(store.has_piece(0));
    assert_eq!(store.get_piece_data(0), Some(payload));

    assert_eq!(
        store.submit(2, vec![1]).unwrap_err(),
        TorrentError::Validation(ValidationError::InvalidHash)
    );
    assert_eq!(store.add_piece_data(1, b"other".to_vec()).unwrap(), true);
    assert_eq!(store.add_piece_data(1, b"wrong".to_vec()).unwrap(), false);
    assert!(store.is_complete());
    let piece = store.get_piece(1).unwrap();
    assert!(piece.verified);
    assert_eq!(piece.index, 1);
    assert!(store.get_piece(2).is_none());
    assert_eq!(store.body(1), Some(&b"other".to_vec()));
    assert_eq!(store.body(2), None);
    assert!(store.is_valid_piece(1));
    assert!(!store.is_valid_piece(2));
}

fn store_of(n: u8, cache_size: usize) -> PieceManager {
    let hashes: Vec<[u8; 20]> = (0..n).map(|i| sha1(&[i; 4])).collect();
    PieceManager::new(hashes, 4, cache_size)
}

#[test]
fn cache_evicts_least_recently_used_persisted_body() {
    let mut store = store_of(4, 2);
    assert_eq!(store.load_piece(0, vec![0; 4]).unwrap(), SubmitOutcome::Accepted);
    assert_eq!(store.load_piece(1, vec![1; 4]).unwrap(), SubmitOutcome::Accepted);
    assert_eq!(store.cache_usage(), (2, 2));
    assert_eq!(store.get_piece_data(0), Some(vec![0; 4]));
    assert_eq!(store.load_piece(2, vec![2; 4]).unwrap(), SubmitOutcome::Accepted);
    assert_eq!(store.cache_usage(), (2, 2));
    assert_eq!(store.get_piece_data(1), None);
    assert!(store.has_piece(1));
    assert_eq!(store.get_piece_data(0), Some(vec![0; 4]));
    assert_eq!(store.get_piece_data(2), Some(vec![2; 4]));
}

#[test]
fn cache_never_evicts_bodies_that_are_not_on_disk() {
    let mut store = store_of(4, 2);
    assert_eq!(store.submit(0, vec![0; 4]).unwrap(), SubmitOutcome::Accepted);
    assert_eq!(store.submit(1, vec![1; 4]).unwrap(), SubmitOutcome::Accepted);
    assert_eq!(store.cache_usage(), (2, 2));
    assert_eq!(
        store.submit(2, vec![2; 4]).unwrap_err(),
        TorrentError::File(FileError::CacheFull)
    );
    assert_eq!(
        store.add_piece_data(2, vec![2; 4]).unwrap_err(),
        TorrentError::File(FileError::CacheFull)
    );
    assert!(!store.has_piece(2));
    assert_eq!(store.missing_pieces(), vec![2, 3]);
    assert_eq!(store.cache_usage(), (2, 2));
    assert_eq!(store.get_piece_data(0), Some(vec![0; 4]));
    assert_eq!(store.get_piece_data(1), Some(vec![1; 4]));
    assert_eq!(store.submit(2, vec![9; 4]).unwrap(), SubmitOutcome::RejectedBadHash);

    assert_eq!(store.submit(0, vec![0; 4]).unwrap(), SubmitOutcome::Accepted);
    assert_eq!(store.cache_usage(), (2, 2));
    assert_eq!(store.load_piece(3, vec![3; 4]).unwrap(), SubmitOutcome::Accepted);
    assert!(store.has_piece(3));
    assert_eq!(store.get_piece_data(3), None);
    assert_eq!(store.cache_usage(), (2, 2));

    store.mark_persisted(1);
    assert_eq!(store.submit(2, vec![2; 4]).unwrap(), SubmitOutcome::Accepted);
    assert!(store.has_piece(1));
    assert_eq!(store.get_piece_data(1), None);
    assert_eq!(store.get_piece_data(0), Some(vec![0; 4]));
    assert_eq!(store.get_piece_data(2), Some(vec![2; 4]));
    assert_eq!(store.cache_usage(), (2, 2));
    assert!(store.is_complete());

    store.evict_from_cache(0);
    assert_eq!(store.get_piece_data(0), Some(vec![0; 4]));
    store.mark_persisted(0);
    store.evict_from_cache(0);
    assert_eq!(store.get_piece_data(0), None);
    assert!(store.has_piece(0));
    assert_eq!(store.cache_usage(), (1, 2));
    store.clear_cache();
    assert_eq!(store.cache_usage(), (1, 2));
    assert_eq!(store.get_piece_data(2), Some(vec![2; 4]));
    store.mark_persisted(2);
    store.clear_cache();
    assert_eq!(store.cache_usage(), (0, 2));
    assert!(store.is_complete());
}

#[test]
fn bodies_to_write_are_listed_least_recently_used_first() {
    let mut store = store_of(4, 3);
    assert!(store.unpersisted_pieces().is_empty());
    store.submit(0, vec![0; 4]).unwrap();
    store.load_piece(1, vec![1; 4]).unwrap();
    store.submit(2, vec![2; 4]).unwrap();
    assert_eq!(store.unpersisted_pieces(), vec![0, 2]);
    assert_eq!(store.get_piece_data(0), Some(vec![0; 4]));
    assert_eq!(store.unpersisted_pieces(), vec![2, 0]);
    assert_eq!(store.body(2), Some(&vec![2; 4]));
    assert_eq!(store.body(3), None);
    assert_eq!(store.unpersisted_pieces(), vec![2, 0]);
    store.mark_persisted(2);
    assert_eq!(store.unpersisted_pieces(), vec![0]);
    store.submit(3, vec![3; 4]).unwrap();
    assert_eq!(store.body(1), None);
    assert_eq!(store.body(2), Some(&vec![2; 4]));
    assert_eq!(store.unpersisted_pieces(), vec![0, 3]);
    assert_eq!(store.cache_usage(), (3, 3));
}

#[test]
fn cache_of_size_zero_keeps_no_body() {
    let mut store = store_of(2, 0);
    store.load_piece(0, vec![0; 4]).unwrap();
    assert!(store.has_piece(0));
    assert_eq!(store.get_piece_data(0), None);
    assert_eq!(
        store.submit(1, vec![1; 4]).unwrap_err(),
        TorrentError::File(FileError::CacheFull)
    );
    assert!(!store.has_piece(1));
    assert_eq!(store.get_piece_data(1), None);
    assert_eq!(store.cache_usage(), (0, 0));
}

#[test]
fn cache_stays_within_its_bound() {
    for capacity in 0..4usize {
        let mut store = store_of(8, capacity);
        for round in 0..3u8 {
            for i in 0..8u8 {
                let piece = u32::from((i * 3 + round) % 8);
                let body = vec![piece as u8; 4];
                let before = store.cache_usage().0;
                let had = store.has_piece(piece);
                match (i + round) % 3 {
                    0 => match store.submit(piece, body) {
                        Ok(outcome) => assert_eq!(outcome, SubmitOutcome::Accepted),
                        Err(e) => {
                            assert_eq!(e, TorrentError::File(FileError::CacheFull));
                            assert_eq!(store.cache_usage().0, before);
                            assert_eq!(store.has_piece(piece), had);
                        }
                    },
                    1 => {
                        assert_eq!(store.load_piece(piece, body).unwrap(), SubmitOutcome::Accepted);
                    }
                    _ => {
                        assert!(store.read_back(piece, body));
                    }
                }
                let (used, limit) = store.cache_usage();
                assert_eq!(limit, capacity);
                assert!(used <= limit);
            }
        }
    }
}

#[test]
fn corrupt_piece_is_taken_back() {
    let mut store = store_of(2, 2);
    store.submit(0, vec![0; 4]).unwrap();
    store.mark_corrupt(0);
    assert!(!store.has_piece(0));
    assert_eq!(store.get_piece_data(0), None);
    assert_eq!(store.cache_usage(), (0, 2));
    store.mark_corrupt(9);
    assert_eq!(store.missing_pieces(), vec![0, 1]);
}

#[test]
fn bytes_read_back_are_kept_or_take_the_piece_back() {
    let mut store = store_of(2, 2);
    assert!(store.read_back(0, vec![0; 4]));
    assert!(store.has_piece(0));
    assert_eq!(store.get_piece_data(0), Some(vec![0; 4]));
    assert!(!store.read_back(0, vec![9; 4]));
    assert!(!store.has_piece(0));
    assert_eq!(store.get_piece_data(0), None);
    assert!(!store.read_back(1, vec![9; 4]));
    assert!(!store.read_back(2, vec![0; 4]));
    assert_eq!(store.missing_pieces(), vec![0, 1]);
}

#[test]
fn verify_all_keeps_what_holds_in_memory_or_on_disk() {
    let mut store = store_of(3, 2);
    store.submit(0, vec![0; 4]).unwrap();
    store.load_piece(2, vec![2; 4]).unwrap();
    let disk = vec![None, None, Some(vec![2u8; 4])];
    assert_eq!(store.verify_all_pieces(&disk).unwrap(), Vec::<u32>::new());
    assert_eq!(store.completed_pieces(), vec![0, 2]);
    assert_eq!(store.verify_all_pieces(&Vec::new()).unwrap(), Vec::<u32>::new());
    assert_eq!(store.completed_pieces(), vec![0, 2]);
    assert_eq!(store.get_piece_data(0), Some(vec![0; 4]));
}

#[test]
fn verify_all_takes_back_pieces_that_are_bad_on_disk() {
    let mut store = store_of(5, 1);
    for i in 0..5u8 {
        assert_eq!(store.load_piece(i as u32, vec![i; 4]).unwrap(), SubmitOutcome::Accepted);
    }
    assert_eq!(store.cache_usage(), (1, 1));
    assert_eq!(store.completed_pieces(), vec![0, 1, 2, 3, 4]);
    let disk = vec![
        Some(vec![0u8; 4]),
        Some(vec![9u8; 4]),
        None,
        Some(vec![3u8; 5]),
        Some(vec![7u8; 4]),
    ];
    assert_eq!(store.verify_all_pieces(&disk).unwrap(), vec![1, 2, 3]);
    assert_eq!(store.completed_pieces(), vec![0, 4]);
    assert!(!store.has_piece(1));
    assert_eq!(store.get_piece_data(4), Some(vec![4; 4]));
    assert_eq!(store.cache_usage(), (1, 1));
    assert_eq!(store.verify_all_pieces(&disk).unwrap(), Vec::<u32>::new());
    assert_eq!(store.completed_pieces(), vec![0, 4]);
    assert_eq!(store.verify_all_pieces(&vec![Some(vec![0u8; 4])]).unwrap(), Vec::<u32>::new());
    store.mark_persisted(4);
    store.evict_from_cache(4);
    assert_eq!(store.verify_all_pieces(&vec![Some(vec![0u8; 4])]).unwrap(), vec![4]);
    assert_eq!(store.verify_all_pieces(&Vec::new()).unwrap(), vec![0]);
    assert!(store.completed_pieces().is_empty());
    assert_eq!(store.missing_pieces(), vec![0, 1, 2, 3, 4]);
}

fn two_file_torrent() -> TorrentInfo {
    let data: Vec<u8> = (0u8..25).collect();
    let pieces: Vec<[u8; 20]> = data.chunks(10).map(sha1).collect();
    TorrentInfo::new(
        "t".to_string(),
        10,
        pieces,
        vec![
            FileInfo::new(vec!["a".to_string()], 7),
            FileInfo::new(vec!["d".to_string(), "empty".to_string()], 0),
            FileInfo::new(vec!["d".to_string(), "b".to_string()], 18),
        ],
    )
}

#[test]
fn torrent_info_sizes() {
    let info = two_file_torrent();
    assert!(info.validate().is_ok());
    assert_eq!(info.num_pieces(), 3);
    assert_eq!(info.total_size(), 25);
    assert_eq!(info.checked_total_size(), Some(25));
    assert_eq!(info.piece_size(0), 10);
    assert_eq!(info.piece_size(1), 10);
    assert_eq!(info.piece_size(2), 5);
    assert!(info.is_valid_piece_index(2));
    assert!(!info.is_valid_piece_index(3));
    assert!(!info.private);
    assert_eq!(info.files[2].filename(), Some(&"b".to_string()));
    assert_eq!(FileInfo::new(vec![], 1).filename(), None);
}

#[test]
fn torrent_info_validation_errors() {
    let mut info = two_file_torrent();
    info.piece_length = 0;
    assert_eq!(
        info.validate().unwrap_err(),
        TorrentError::Validation(ValidationError::InvalidPieceSize)
    );
    let mut info = two_file_torrent();
    info.pieces.pop();
    assert_eq!(
        info.validate().unwrap_err(),
        TorrentError::Validation(ValidationError::InvalidTorrentInfo)
    );
    let mut info = two_file_torrent();
    info.files.push(FileInfo::new(vec!["huge".to_string()], u64::MAX));
    assert_eq!(info.checked_total_size(), None);
    assert_eq!(
        info.validate().unwrap_err(),
        TorrentError::Validation(ValidationError::InvalidTorrentInfo)
    );
    let exact = TorrentInfo::new("e".to_string(), 5, vec![[0; 20], [1; 20]], vec![FileInfo::new(vec![], 10)]);
    assert!(exact.validate().is_ok());
    assert_eq!(exact.piece_size(1), 5);
    let empty = TorrentInfo::new("e".to_string(), 5, vec![], vec![]);
    assert!(empty.validate().is_ok());
}

#[test]
fn spans_cross_files_and_skip_empty_ones() {
    let info = two_file_torrent();
    assert_eq!(
        file_spans(&info.files, 0, 10),
        vec![
            FileSpan { file_index: 0, file_offset: 0, length: 7 },
            FileSpan { file_index: 2, file_offset: 0, length: 3 },
        ]
    );
    assert_eq!(
        file_spans(&info.files, 20, 5),
        vec![FileSpan { file_index: 2, file_offset: 13, length: 5 }]
    );
    assert_eq!(
        file_spans(&info.files, 6, 2),
        vec![
            FileSpan { file_index: 0, file_offset: 6, length: 1 },
            FileSpan { file_index: 2, file_offset: 0, length: 1 },
        ]
    );
    assert!(file_spans(&info.files, 7, 0).is_empty());
    assert!(file_spans(&info.files, 25, 0).is_empty());
}

#[test]
fn written_bytes_are_read_back() {
    let info = two_file_torrent();
    let mut files = vec![vec![0xEEu8; 7], vec![], vec![0xEEu8; 18]];
    let data: Vec<u8> = (100u8..110).collect();
    let spans = file_spans(&info.files, 3, 10);
    scatter(&mut files, &spans, &data);
    assert_eq!(gather(&files, &spans), data);
    assert_eq!(files[0], vec![0xEE, 0xEE, 0xEE, 100, 101, 102, 103]);
    assert_eq!(&files[2][..7], &[104, 105, 106, 107, 108, 109, 0xEE]);
    assert_eq!(files[2].len(), 18);
    let all = file_spans(&info.files, 0, 25);
    let whole = gather(&files, &all);
    assert_eq!(&whole[3..13], &data[..]);
}

#[test]
fn pieces_written_in_turn_are_read_back() {
    let info = two_file_torrent();
    let mut files = vec![vec![0u8; 7], vec![], vec![0u8; 18]];
    let bodies: Vec<Vec<u8>> = vec![vec![1; 10], vec![2; 10], vec![3; 5]];
    let spans: Vec<Vec<FileSpan>> =
        (0..3u32).map(|i| file_spans(&info.files, u64::from(i) * 10, u64::from(info.piece_size(i)))).collect();
    for i in [2usize, 0, 1] {
        scatter(&mut files, &spans[i], &bodies[i]);
    }
    for i in 0..3 {
        assert_eq!(gather(&files, &spans[i]), bodies[i]);
    }
    let again = vec![9u8; 10];
    scatter(&mut files, &spans[0], &again);
    assert_eq!(gather(&files, &spans[0]), again);
    assert_eq!(gather(&files, &spans[1]), bodies[1]);
    assert_eq!(gather(&files, &spans[2]), bodies[2]);
    let whole = gather(&files, &file_spans(&info.files, 0, 25));
    assert_eq!(whole, [vec![9u8; 10], vec![2; 10], vec![3; 5]].concat());
    assert_eq!(files[0], vec![9u8; 7]);
    assert!(files[1].is_empty());
}

#[test]
fn what_one_store_wrote_another_loads() {
    let info = two_file_torrent();
    let data: Vec<u8> = (0u8..25).collect();
    let mut a = FileManager::new(info.clone(), String::new(), 3);
    assert_eq!(a.submit_piece(2, data[20..25].to_vec()).unwrap(), SubmitOutcome::Accepted);
    assert_eq!(a.submit_piece(0, data[0..10].to_vec()).unwrap(), SubmitOutcome::Accepted);

    let mut files = vec![vec![0xAAu8; 7], vec![], vec![0xAAu8; 18]];
    for piece in a.piece_manager().unpersisted_pieces() {
        let body = a.piece_manager().body(piece).unwrap().clone();
        let spans = a.piece_spans(piece, 0, body.len() as u32).unwrap();
        scatter(&mut files, &spans, &body);
        a.mark_persisted(piece);
    }
    assert!(a.piece_manager().unpersisted_pieces().is_empty());

    let mut b = FileManager::new(info.clone(), String::new(), 3);
    for piece in 0..3u32 {
        let spans = b.piece_spans(piece, 0, info.piece_size(piece)).unwrap();
        let outcome = b.load_piece(piece, gather(&files, &spans)).unwrap();
        let expected =
            if piece == 1 { SubmitOutcome::RejectedBadHash } else { SubmitOutcome::Accepted };
        assert_eq!(outcome, expected);
    }
    assert_eq!(b.piece_manager().completed_pieces(), a.piece_manager().completed_pieces());
    for piece in [0u32, 2] {
        assert!(b.piece_manager().has_piece(piece));
        assert_eq!(b.piece_manager().body(piece), a.piece_manager().body(piece));
    }
    assert_eq!(b.piece_data(0), Some(data[0..10].to_vec()));
    assert_eq!(b.piece_data(2), Some(data[20..25].to_vec()));
    assert!(b.piece_manager().unpersisted_pieces().is_empty());
}

#[test]
fn file_manager_maps_pieces_to_files() {
    let info = two_file_torrent();
    let mut manager = FileManager::new(info, "/tmp/x".to_string(), 2);
    assert_eq!(manager.total_size(), 25);
    assert_eq!(manager.downloaded_size(), 0);
    assert!(!manager.files_allocated());
    manager.mark_allocated();
    assert!(manager.files_allocated());
    assert_eq!(manager.download_path(), "/tmp/x");
    assert_eq!(manager.torrent_info().name, "t");
    assert_eq!(
        manager.piece_spans(1, 2, 8).unwrap(),
        vec![FileSpan { file_index: 2, file_offset: 5, length: 8 }]
    );
    assert_eq!(
        manager.piece_spans(0, 0, 10).unwrap(),
        vec![
            FileSpan { file_index: 0, file_offset: 0, length: 7 },
            FileSpan { file_index: 2, file_offset: 0, length: 3 },
        ]
    );
    assert_eq!(
        manager.piece_spans(3, 0, 1).unwrap_err(),
        TorrentError::Protocol(ProtocolError::InvalidPieceIndex { index: 3 })
    );
    assert_eq!(
        manager.piece_spans(2, 0, 6).unwrap_err(),
        TorrentError::Protocol(ProtocolError::InvalidBlockRequest)
    );
    assert_eq!(manager.file_downloaded_bytes(), vec![0, 0, 0]);

    let data: Vec<u8> = (0u8..25).collect();
    assert_eq!(manager.submit_piece(0, data[0..10].to_vec()).unwrap(), SubmitOutcome::Accepted);
    assert_eq!(manager.file_downloaded_bytes(), vec![7, 0, 3]);
    assert_eq!(manager.downloaded_size(), 10);
    assert_eq!(manager.load_piece(2, data[20..25].to_vec()).unwrap(), SubmitOutcome::Accepted);
    assert_eq!(manager.file_downloaded_bytes(), vec![7, 0, 8]);
    assert_eq!(manager.downloaded_size(), 15);
    assert_eq!(manager.storage_stats().unwrap(), (25, 15, 0));
    assert_eq!(
        manager.submit_piece(1, data[0..10].to_vec()).unwrap(),
        SubmitOutcome::RejectedBadHash
    );
    assert!(!manager.is_complete());
    manager.mark_persisted(0);
    assert_eq!(manager.verify_integrity(&Vec::new()).unwrap(), Vec::<u32>::new());
    assert!(manager.piece_manager().has_piece(0));
    manager.submit_piece(1, data[10..20].to_vec()).unwrap();
    assert!(manager.is_complete());
}

#[test]
fn file_manager_takes_only_bytes_of_the_size_of_the_piece() {
    let short: Vec<u8> = vec![7, 7, 7];
    let last: Vec<u8> = vec![1, 2, 3, 4, 5];
    let info = TorrentInfo::new(
        "t".to_string(),
        10,
        vec![sha1(&short), sha1(&last)],
        vec![FileInfo::new(vec!["a".to_string()], 15)],
    );
    let wrong_size = TorrentError::Validation(ValidationError::InvalidPieceSize);
    let mut manager = FileManager::new(info, String::new(), 2);
    assert_eq!(manager.submit_piece(0, short.clone()).unwrap_err(), wrong_size);
    assert_eq!(manager.load_piece(0, short.clone()).unwrap_err(), wrong_size);
    assert!(!manager.read_back(0, short.clone()));
    assert!(!manager.piece_manager().has_piece(0));
    assert_eq!(manager.piece_data(0), None);
    assert_eq!(manager.submit_piece(1, vec![1, 2, 3, 4]).unwrap_err(), wrong_size);
    assert_eq!(manager.submit_piece(1, last.clone()).unwrap(), SubmitOutcome::Accepted);
    assert_eq!(manager.piece_data(1), Some(last.clone()));
    assert!(!manager.read_back(1, vec![1, 2, 3, 4, 5, 6]));
    assert!(!manager.piece_manager().has_piece(1));
    assert_eq!(
        manager.submit_piece(2, last).unwrap_err(),
        TorrentError::Validation(ValidationError::InvalidHash)
    );
    assert_eq!(manager.submit_piece(0, vec![0; 10]).unwrap(), SubmitOutcome::RejectedBadHash);
    assert_eq!(manager.downloaded_size(), 0);
}

#[test]
fn file_manager_reports_a_full_cache() {
    let info = two_file_torrent();
    let data: Vec<u8> = (0u8..25).collect();
    let mut manager = FileManager::new(info, String::new(), 1);
    assert_eq!(manager.submit_piece(0, data[0..10].to_vec()).unwrap(), SubmitOutcome::Accepted);
    assert_eq!(
        manager.submit_piece(1, data[10..20].to_vec()).unwrap_err(),
        TorrentError::File(FileError::CacheFull)
    );
    assert!(!manager.piece_manager().has_piece(1));
    assert_eq!(manager.piece_manager().cache_usage(), (1, 1));
    manager.mark_persisted(0);
    assert_eq!(manager.submit_piece(1, data[10..20].to_vec()).unwrap(), SubmitOutcome::Accepted);
    assert_eq!(manager.piece_manager().cache_usage(), (1, 1));
    assert_eq!(manager.piece_data(0), None);
    assert_eq!(manager.piece_data(1), Some(data[10..20].to_vec()));
    assert_eq!(manager.piece_manager().completed_pieces(), vec![0, 1]);
}

#[test]
fn scan_then_verify_gives_the_same_pieces_as_either_alone() {
    let info = two_file_torrent();
    let data: Vec<u8> = (0u8..25).collect();
    let mut on_disk = data.clone();
    on_disk[12] ^= 0xFF;
    let stored: Vec<Option<Vec<u8>>> = on_disk.chunks(10).map(|c| Some(c.to_vec())).collect();

    let mut scanned = FileManager::new(info.clone(), String::new(), 0);
    let mut both = FileManager::new(info.clone(), String::new(), 0);
    for (i, chunk) in on_disk.chunks(10).enumerate() {
        let a = scanned.load_piece(i as u32, chunk.to_vec()).unwrap();
        let b = both.load_piece(i as u32, chunk.to_vec()).unwrap();
        assert_eq!(a, b);
    }
    assert_eq!(both.verify_integrity(&stored).unwrap(), Vec::<u32>::new());
    assert_eq!(scanned.piece_manager().completed_pieces(), vec![0, 2]);
    assert_eq!(both.piece_manager().completed_pieces(), vec![0, 2]);
    assert_eq!(both.verify_integrity(&stored).unwrap(), Vec::<u32>::new());
    assert_eq!(both.piece_manager().completed_pieces(), vec![0, 2]);

    let mut verified = FileManager::new(info, String::new(), 0);
    for (i, chunk) in data.chunks(10).enumerate() {
        assert_eq!(verified.load_piece(i as u32, chunk.to_vec()).unwrap(), SubmitOutcome::Accepted);
    }
    assert_eq!(verified.verify_integrity(&stored).unwrap(), vec![1]);
    assert_eq!(verified.piece_manager().completed_pieces(), vec![0, 2]);
}

#[test]
fn statistics_count_bytes() {
    let mut s = Statistics::new(1000);
    assert_eq!(s.left, 1000);
    assert_eq!(s.completion_permille(), 0);
    s.update_downloaded(250);
    assert_eq!((s.downloaded, s.left), (250, 750));
    assert_eq!(s.completion_permille(), 250);
    s.update_downloaded(900);
    assert_eq!((s.downloaded, s.left), (1150, 0));
    assert_eq!(s.completion_permille(), 1000);
    s.update_uploaded(5);
    assert_eq!(s.uploaded, 5);
    assert_eq!(Statistics::new(0).completion_permille(), 1000);
    assert_eq!(Statistics::default(), Statistics::new(0));
}

#[test]
fn config_defaults() {
    let c = Config::default();
    assert_eq!(c.listen_port, 6881);
    assert_eq!(c.max_connections, 50);
    assert_eq!(c.connection_timeout, 30_000);
    assert_eq!(c.download_path, "./downloads");
    assert_eq!(c.piece_cache_size, 100);
    assert_eq!(c.upload_limit, None);
    assert_eq!(c.download_limit, None);
    assert_eq!(c.unchoke_interval, 10_000);
    assert_eq!(c.tracker_timeout, 30_000);
    assert_eq!(c.announce_interval, 1_800_000);
}
