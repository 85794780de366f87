use file_storage_system::common::error::NetworkError;
use file_storage_system::common::error::ProtocolError;
use file_storage_system::common::error::TorrentError;
use file_storage_system::protocol::handshake::Handshake;
use file_storage_system::protocol::messages::MessageBuilder;
use file_storage_system::protocol::messages::MessageParser;
use file_storage_system::protocol::messages::MessageValidator;
use file_storage_system::protocol::stream::MessageBuffer;
use file_storage_system::protocol::Message;
use file_storage_system::protocol::MessageType;

#[test]
fn test_message_serialization() {
    let message = Message::have(123);
    let serialized = message.serialize();
    let deserialized = Message::deserialize(&serialized).unwrap();

    assert_eq!(message.message_type, deserialized.message_type);
    assert_eq!(message.payload, deserialized.payload);
}

#[test]
fn test_keep_alive_message() {
    let message = Message::keep_alive();
    let serialized = Message::serialize_keep_alive();
    assert_eq!(serialized, vec![0, 0, 0, 0]);

    assert_eq!(message.message_type, MessageType::KeepAlive);
    assert_eq!(message.payload, vec![] as Vec<u8>);
}

#[test]
fn test_request_message() {
    let message = Message::request(1, 1024, 16384);
    let serialized = message.serialize();
    let deserialized = Message::deserialize(&serialized).unwrap();

    assert_eq!(message.message_type, deserialized.message_type);
    assert_eq!(message.payload, deserialized.payload);
}

#[test]
fn test_have_message_parsing() {
    let message = Message::have(123);
    let piece_index = message.parse_have().unwrap();
    assert_eq!(piece_index, 123);
}

#[test]
fn test_request_message_parsing() {
    let message = Message::request(1, 1024, 16384);
    let (piece_index, offset, length) = message.parse_request().unwrap();
    assert_eq!(piece_index, 1);
    assert_eq!(offset, 1024);
    assert_eq!(length, 16384);
}

#[test]
fn test_piece_message_parsing() {
    let data = vec![1, 2, 3, 4, 5];
    let message = Message::piece(1, 1024, data.clone());
    let (piece_index, offset, received_data) = message.parse_piece().unwrap();
    assert_eq!(piece_index, 1);
    assert_eq!(offset, 1024);
    assert_eq!(received_data, data);
}

#[test]
fn test_message_validation() {
    let valid_message = Message::have(123);
    assert!(valid_message.is_valid());

    let invalid_message = Message::new(MessageType::Have, vec![1, 2, 3]);
    assert!(!invalid_message.is_valid());
}

#[test]
fn test_request_validation() {
    let valid_request = Message::request(1, 0, 16384);
    assert!(valid_request.validate_request(65536));

    let invalid_request = Message::request(1, 0, 0);
    assert!(!invalid_request.validate_request(65536));
}

#[test]
fn test_handshake_serialization() {
    let info_hash = [1u8; 20];
    let peer_id = [2u8; 20];
    let handshake = Handshake::new(info_hash, peer_id);

    let serialized = handshake.serialize();
    let deserialized = Handshake::deserialize(&serialized).unwrap();

    assert_eq!(
        handshake.protocol_identifier,
        deserialized.protocol_identifier
    );
    assert_eq!(handshake.info_hash, deserialized.info_hash);
    assert_eq!(handshake.peer_id, deserialized.peer_id);
}

#[test]
fn test_handshake_length() {
    let info_hash = [1u8; 20];
    let peer_id = [2u8; 20];
    let handshake = Handshake::new(info_hash, peer_id);

    let serialized = handshake.serialize();
    assert_eq!(serialized.len(), 68);
}

#[test]
fn handshake_bytes_are_exact() {
    let handshake = Handshake::new([1u8; 20], [2u8; 20]);
    let mut expected = vec![0x13u8];
    expected.extend_from_slice(b"BitTorrent protocol");
    expected.extend_from_slice(&[0u8; 8]);
    expected.extend_from_slice(&[1u8; 20]);
    expected.extend_from_slice(&[2u8; 20]);
    assert_eq!(handshake.serialize(), expected);
}

#[test]
fn handshake_rejects_wrong_length() {
    let mut bytes = Handshake::new([1u8; 20], [2u8; 20]).serialize();
    bytes.push(0);
    assert_eq!(
        Handshake::deserialize(&bytes).unwrap_err(),
        TorrentError::Protocol(ProtocolError::InvalidHandshake)
    );
    assert_eq!(
        Handshake::deserialize(&bytes[..67]).unwrap_err(),
        TorrentError::Protocol(ProtocolError::InvalidHandshake)
    );
}

#[test]
fn handshake_rejects_wrong_identifier_length() {
    let mut bytes = Handshake::new([1u8; 20], [2u8; 20]).serialize();
    bytes[0] = 18;
    assert_eq!(
        Handshake::deserialize(&bytes).unwrap_err(),
        TorrentError::Protocol(ProtocolError::InvalidHandshake)
    );
}

#[test]
fn handshake_rejects_other_protocol() {
    let mut bytes = Handshake::new([1u8; 20], [2u8; 20]).serialize();
    bytes[5] = b'X';
    assert_eq!(
        Handshake::deserialize(&bytes).unwrap_err(),
        TorrentError::Protocol(ProtocolError::UnsupportedVersion)
    );
}

#[test]
fn handshake_keeps_reserved_bytes() {
    let mut bytes = Handshake::new([7u8; 20], [9u8; 20]).serialize();
    bytes[25] = 0x10;
    let read = Handshake::deserialize(&bytes).unwrap();
    assert_eq!(read.reserved, [0, 0, 0, 0, 0, 0x10, 0, 0]);
    assert_eq!(read.info_hash, [7u8; 20]);
    assert_eq!(read.peer_id, [9u8; 20]);
    assert_eq!(read.serialize(), bytes);
}

#[test]
fn have_frame_is_exact() {
    let bytes = Message::have(123).serialize();
    assert_eq!(bytes, vec![0x00, 0x00, 0x00, 0x05, 0x04, 0x00, 0x00, 0x00, 0x7B]);
}

#[test]
fn request_frame_is_exact() {
    let bytes = Message::request(1, 1024, 16384).serialize();
    assert_eq!(
        bytes,
        vec![
            0x00, 0x00, 0x00, 0x0D, 0x06, 0x00, 0x00, 0x00, 0x01, 0x00, 0x00, 0x04, 0x00, 0x00,
            0x00, 0x40, 0x00
        ]
    );
}

#[test]
fn piece_and_cancel_and_port_frames_are_exact() {
    assert_eq!(
        Message::piece(2, 3, vec![9, 8]).serialize(),
        vec![0, 0, 0, 11, 7, 0, 0, 0, 2, 0, 0, 0, 3, 9, 8]
    );
    assert_eq!(
        Message::cancel(0x01020304, 5, 6).serialize(),
        vec![0, 0, 0, 13, 8, 1, 2, 3, 4, 0, 0, 0, 5, 0, 0, 0, 6]
    );
    assert_eq!(Message::build_port(6881).serialize(), vec![0, 0, 0, 3, 9, 0x1A, 0xE1]);
    assert_eq!(Message::build_port(6881).parse_port().unwrap(), 6881);
}

#[test]
fn flag_messages_are_one_byte() {
    assert_eq!(Message::choke().serialize(), vec![0, 0, 0, 1, 0]);
    assert_eq!(Message::unchoke().serialize(), vec![0, 0, 0, 1, 1]);
    assert_eq!(Message::interested().serialize(), vec![0, 0, 0, 1, 2]);
    assert_eq!(Message::not_interested().serialize(), vec![0, 0, 0, 1, 3]);
    assert_eq!(Message::bitfield(&[0xF0]).serialize(), vec![0, 0, 0, 2, 5, 0xF0]);
}

#[test]
fn keep_alive_round_trips_as_four_zero_bytes() {
    assert_eq!(Message::keep_alive().serialize(), vec![0, 0, 0, 0]);
    let read = Message::deserialize(&[0, 0, 0, 0]).unwrap();
    assert_eq!(read.message_type, MessageType::KeepAlive);
    assert!(read.payload.is_empty());
}

#[test]
fn every_kind_round_trips() {
    let messages = vec![
        Message::keep_alive(),
        Message::choke(),
        Message::unchoke(),
        Message::interested(),
        Message::not_interested(),
        Message::have(7),
        Message::bitfield(&[0b1010_0000, 0x01]),
        Message::request(3, 16384, 16384),
        Message::piece(3, 16384, vec![1, 2, 3, 4]),
        Message::cancel(3, 16384, 16384),
        Message::build_port(51413),
    ];
    for message in messages {
        let read = Message::deserialize(&message.serialize()).unwrap();
        assert_eq!(read.message_type, message.message_type);
        assert_eq!(read.payload, message.payload);
    }
}

#[test]
fn deserialize_reports_each_error() {
    assert_eq!(
        Message::deserialize(&[0, 0, 0]).unwrap_err(),
        TorrentError::Network(NetworkError::InvalidMessage)
    );
    assert_eq!(
        Message::deserialize(&[0, 0, 0, 5, 4, 0, 0]).unwrap_err(),
        TorrentError::Network(NetworkError::InvalidMessage)
    );
    assert_eq!(
        Message::deserialize(&[0, 0, 0, 1, 10]).unwrap_err(),
        TorrentError::Protocol(ProtocolError::InvalidMessageType { message_type: 10 })
    );
    assert_eq!(
        Message::deserialize(&[0, 2, 0, 1, 7]).unwrap_err(),
        TorrentError::Protocol(ProtocolError::MessageTooLarge { size: 131073 })
    );
    assert_eq!(
        Message::deserialize_with_limit(&[0, 0, 0, 5, 4, 0, 0, 0, 1], 4).unwrap_err(),
        TorrentError::Protocol(ProtocolError::MessageTooLarge { size: 5 })
    );
    assert!(Message::deserialize_with_limit(&[0, 0, 0, 5, 4, 0, 0, 0, 1], 5).is_ok());
}

#[test]
fn deserialize_ignores_what_follows_the_frame() {
    let read = Message::deserialize(&[0, 0, 0, 1, 2, 9, 9, 9]).unwrap();
    assert_eq!(read.message_type, MessageType::Interested);
    assert!(read.payload.is_empty());
}

#[test]
fn parsers_reject_other_kinds_and_lengths() {
    let wrong = TorrentError::Network(NetworkError::InvalidMessage);
    assert_eq!(Message::choke().parse_have().unwrap_err(), wrong);
    assert_eq!(Message::new(MessageType::Have, vec![1]).parse_have().unwrap_err(), wrong);
    assert_eq!(Message::have(1).parse_bitfield().unwrap_err(), wrong);
    assert_eq!(Message::cancel(1, 2, 3).parse_request().unwrap_err(), wrong);
    assert_eq!(Message::request(1, 2, 3).parse_cancel().unwrap_err(), wrong);
    assert_eq!(Message::new(MessageType::Piece, vec![0; 7]).parse_piece().unwrap_err(), wrong);
    assert_eq!(Message::new(MessageType::Port, vec![0; 3]).parse_port().unwrap_err(), wrong);
    assert_eq!(Message::cancel(1, 2, 3).parse_cancel().unwrap(), (1, 2, 3));
    assert_eq!(Message::bitfield(&[1, 2]).parse_bitfield().unwrap(), vec![1, 2]);
    assert_eq!(Message::build_have(9).parse_have().unwrap(), 9);
}

#[test]
fn validation_checks_bounds() {
    assert!(Message::request(0, 49152, 16384).validate_request(65536));
    assert!(!Message::request(0, 49153, 16384).validate_request(65536));
    assert!(!Message::request(0, 0, 16385).validate_request(65536));
    assert!(!Message::request(0, u32::MAX, 16384).validate_request(u32::MAX));
    assert!(!Message::cancel(0, 0, 16384).validate_request(65536));
    assert!(Message::piece(0, 10, vec![0; 6]).validate_piece(16));
    assert!(!Message::piece(0, 11, vec![0; 6]).validate_piece(16));
    assert!(!Message::have(0).validate_piece(16));
    assert!(Message::keep_alive().is_valid());
    assert!(!Message::bitfield(&[]).is_valid());
    assert!(Message::build_request(1, 2, 3).is_valid());
    assert!(Message::build_piece(1, 2, vec![]).is_valid());
    assert!(Message::build_cancel(1, 2, 3).is_valid());
    assert!(Message::build_bitfield(&[1]).is_valid());
}

#[test]
fn message_type_ids() {
    assert_eq!(u8::from(MessageType::Choke), 0);
    assert_eq!(u8::from(MessageType::Port), 9);
    assert_eq!(u8::from(MessageType::KeepAlive), 255);
    assert_eq!(MessageType::from(4), MessageType::Have);
    assert_eq!(MessageType::from(9), MessageType::Port);
    assert_eq!(MessageType::from(10), MessageType::KeepAlive);
}

fn drain(buffer: &mut MessageBuffer) -> Vec<(MessageType, Vec<u8>)> {
    let mut out = Vec::new();
    loop {
        match buffer.try_parse_message() {
            Ok(Some(m)) => out.push((m.message_type, m.payload)),
            Ok(None) => return out,
            Err(_) => {}
        }
    }
}

#[test]
fn stream_gives_the_same_messages_however_it_is_cut() {
    let messages = vec![
        Message::have(1),
        Message::keep_alive(),
        Message::piece(2, 0, vec![5; 40]),
        Message::request(9, 16384, 16384),
        Message::choke(),
    ];
    let mut stream = Vec::new();
    for m in &messages {
        stream.extend_from_slice(&m.serialize());
    }
    let expected: Vec<(MessageType, Vec<u8>)> =
        messages.iter().map(|m| (m.message_type, m.payload.clone())).collect();

    for chunk in 1..stream.len() + 1 {
        let mut buffer = MessageBuffer::new();
        let mut seen = Vec::new();
        for part in stream.chunks(chunk) {
            buffer.extend_from_slice(part);
            seen.extend(drain(&mut buffer));
        }
        assert_eq!(seen, expected);
        assert_eq!(buffer.len(), 0);
    }
}

#[test]
fn stream_waits_for_a_whole_frame() {
    let mut buffer = MessageBuffer::new();
    buffer.extend_from_slice(&[0, 0, 0]);
    assert!(buffer.try_parse_message().unwrap().is_none());
    buffer.extend_from_slice(&[5, 4, 0, 0]);
    assert!(buffer.try_parse_message().unwrap().is_none());
    assert_eq!(buffer.len(), 7);
    buffer.extend_from_slice(&[0, 42, 0]);
    let m = buffer.try_parse_message().unwrap().unwrap();
    assert_eq!(m.parse_have().unwrap(), 42);
    assert_eq!(buffer.len(), 1);
}

#[test]
fn stream_rejects_oversized_prefix_and_keeps_its_bytes() {
    let mut buffer = MessageBuffer::with_limit(16);
    buffer.extend_from_slice(&[0, 0, 0, 17, 7]);
    assert_eq!(
        buffer.try_parse_message().unwrap_err(),
        TorrentError::Protocol(ProtocolError::MessageTooLarge { size: 17 })
    );
    assert_eq!(buffer.len(), 5);
}

#[test]
fn stream_skips_a_frame_of_unknown_kind() {
    let mut buffer = MessageBuffer::new();
    buffer.extend_from_slice(&[0, 0, 0, 2, 20, 1, 0, 0, 0, 1, 1]);
    assert_eq!(
        buffer.try_parse_message().unwrap_err(),
        TorrentError::Protocol(ProtocolError::InvalidMessageType { message_type: 20 })
    );
    let m = buffer.try_parse_message().unwrap().unwrap();
    assert_eq!(m.message_type, MessageType::Unchoke);
    assert_eq!(buffer.len(), 0);
}
