//! The peer wire protocol: handshake and length-prefixed messages.

pub mod handshake;
pub mod messages;
pub mod stream;
pub mod wire;

use crate::common::error::NetworkError;
use crate::common::error::ProtocolError;
use crate::common::error::TorrentError;
use crate::common::types::BlockLength;
use crate::common::types::BlockOffset;
use crate::common::types::PieceIndex;
use crate::protocol::wire::be_u32;
use crate::protocol::wire::buffer_from;
use crate::protocol::wire::buffer_prefix;
use crate::protocol::wire::get_u32;
use crate::protocol::wire::get_u8;
use crate::protocol::wire::put_u32;
use crate::protocol::wire::put_u8;
use crate::protocol::wire::u32_be;
use crate::protocol::wire::unread;
use vstd::prelude::*;

verus! {

/// The protocol identifier that opens every handshake.
pub const PROTOCOL_IDENTIFIER: [u8; 19] = [
    66, 105, 116, 84, 111, 114, 114, 101, 110, 116, 32, 112, 114, 111, 116, 111, 99, 111, 108,
];

/// The version of the protocol that this library speaks.
pub const PROTOCOL_VERSION: u8 = 1;

/// The largest length prefix that the decoder accepts unless told otherwise.
pub const MAX_MESSAGE_LENGTH: usize = 131072;

/// The largest block that a request may ask for.
pub const MAX_BLOCK_LENGTH: u32 = 16384;

/// The kinds of message. `KeepAlive` has no id on the wire: it is the frame
/// whose length prefix is zero.
#[derive(Debug, Clone, Copy, PartialEq, Eq, Structural)]
pub enum MessageType {
    Choke,
    Unchoke,
    Interested,
    NotInterested,
    Have,
    Bitfield,
    Request,
    Piece,
    Cancel,
    Port,
    KeepAlive,
}

impl MessageType {
    /// The id byte of a kind; 255 stands for `KeepAlive`.
    pub open spec fn id(self) -> u8 {
        match self {
            MessageType::Choke => 0,
            MessageType::Unchoke => 1,
            MessageType::Interested => 2,
            MessageType::NotInterested => 3,
            MessageType::Have => 4,
            MessageType::Bitfield => 5,
            MessageType::Request => 6,
            MessageType::Piece => 7,
            MessageType::Cancel => 8,
            MessageType::Port => 9,
            MessageType::KeepAlive => 255,
        }
    }

    /// The kind that an id byte stands for; every byte above 9 stands for
    /// `KeepAlive`.
    pub open spec fn of_id(value: u8) -> MessageType {
        match value {
            0 => MessageType::Choke,
            1 => MessageType::Unchoke,
            2 => MessageType::Interested,
            3 => MessageType::NotInterested,
            4 => MessageType::Have,
            5 => MessageType::Bitfield,
            6 => MessageType::Request,
            7 => MessageType::Piece,
            8 => MessageType::Cancel,
            9 => MessageType::Port,
            _ => MessageType::KeepAlive,
        }
    }

    /// A kind is found again from its id.
    pub proof fn lemma_id_round_trip(self)
        ensures
            MessageType::of_id(self.id()) == self,
            self != MessageType::KeepAlive ==> self.id() <= 9,
    {
    }
}

impl From<u8> for MessageType {
    fn from(value: u8) -> (kind: MessageType) {
        match value {
            0 => MessageType::Choke,
            1 => MessageType::Unchoke,
            2 => MessageType::Interested,
            3 => MessageType::NotInterested,
            4 => MessageType::Have,
            5 => MessageType::Bitfield,
            6 => MessageType::Request,
            7 => MessageType::Piece,
            8 => MessageType::Cancel,
            9 => MessageType::Port,
            _ => MessageType::KeepAlive,
        }
    }
}

impl vstd::std_specs::convert::FromSpecImpl<u8> for MessageType {
    open spec fn obeys_from_spec() -> bool {
        true
    }

    open spec fn from_spec(v: u8) -> MessageType {
        MessageType::of_id(v)
    }
}

impl From<MessageType> for u8 {
    fn from(msg_type: MessageType) -> (id: u8) {
        match msg_type {
            MessageType::Choke => 0,
            MessageType::Unchoke => 1,
            MessageType::Interested => 2,
            MessageType::NotInterested => 3,
            MessageType::Have => 4,
            MessageType::Bitfield => 5,
            MessageType::Request => 6,
            MessageType::Piece => 7,
            MessageType::Cancel => 8,
            MessageType::Port => 9,
            MessageType::KeepAlive => 255,
        }
    }
}

impl vstd::std_specs::convert::FromSpecImpl<MessageType> for u8 {
    open spec fn obeys_from_spec() -> bool {
        true
    }

    open spec fn from_spec(v: MessageType) -> u8 {
        v.id()
    }
}

/// What a message is: its kind and the bytes of its payload.
pub struct Frame {
    pub kind: MessageType,
    pub payload: Seq<u8>,
}

/// A message of the peer wire protocol.
#[derive(Debug)]
pub struct Message {
    pub message_type: MessageType,
    pub payload: Vec<u8>,
}

impl View for Message {
    type V = Frame;

    open spec fn view(&self) -> Frame {
        Frame { kind: self.message_type, payload: self.payload@ }
    }
}

impl Clone for Message {
    fn clone(&self) -> (copy: Message)
        ensures
            copy@ == self@,
    {
        Message { message_type: self.message_type, payload: self.payload.clone() }
    }
}

/// A frame that has a place on the wire: a keep-alive carries nothing, and
/// id and payload together fit the length prefix.
pub open spec fn well_formed(f: Frame) -> bool {
    &&& f.kind == MessageType::KeepAlive ==> f.payload.len() == 0
    &&& f.payload.len() < u32::MAX
}

/// The bytes of a frame on the wire: the length prefix, then id and payload.
/// A keep-alive is the prefix alone.
pub open spec fn encode_frame(f: Frame) -> Seq<u8> {
    if f.kind == MessageType::KeepAlive {
        u32_be(0)
    } else {
        u32_be((1 + f.payload.len()) as u32) + seq![f.kind.id()] + f.payload
    }
}

/// The frame that `data` begins with, where `limit` is the largest length
/// prefix accepted. Bytes behind the frame are ignored.
pub open spec fn decode_frame(data: Seq<u8>, limit: nat) -> Result<Frame, TorrentError> {
    if data.len() < 4 {
        Err(TorrentError::Network(NetworkError::InvalidMessage))
    } else if be_u32(data) == 0 {
        Ok(Frame { kind: MessageType::KeepAlive, payload: Seq::empty() })
    } else if be_u32(data) > limit {
        Err(TorrentError::Protocol(ProtocolError::MessageTooLarge { size: be_u32(data) as usize }))
    } else if data.len() - 4 < be_u32(data) {
        Err(TorrentError::Network(NetworkError::InvalidMessage))
    } else if data[4] > 9 {
        Err(TorrentError::Protocol(ProtocolError::InvalidMessageType { message_type: data[4] }))
    } else {
        Ok(Frame { kind: MessageType::of_id(data[4]), payload: data.subrange(5, 4 + be_u32(data)) })
    }
}

/// A decoding result with the message replaced by what it is.
pub open spec fn decoded(r: Result<Message, TorrentError>) -> Result<Frame, TorrentError> {
    match r {
        Ok(m) => Ok(m@),
        Err(e) => Err(e),
    }
}

/// Decoding what was encoded gives the frame back, whatever follows it in
/// the buffer.
pub proof fn lemma_frame_round_trip(f: Frame, tail: Seq<u8>, limit: nat)
    requires
        well_formed(f),
        f.kind != MessageType::KeepAlive ==> 1 + f.payload.len() <= limit,
    ensures
        decode_frame(encode_frame(f) + tail, limit) == Ok::<Frame, TorrentError>(f),
        decode_frame(encode_frame(f), limit) == Ok::<Frame, TorrentError>(f),
{
    let data = encode_frame(f) + tail;
    if f.kind == MessageType::KeepAlive {
        assert(be_u32(data) == 0);
        assert(be_u32(encode_frame(f)) == 0);
        assert(f.payload =~= Seq::empty());
    } else {
        let n = (1 + f.payload.len()) as u32;
        crate::protocol::wire::lemma_u32_be_round_trip(n);
        assert(be_u32(data) == n);
        assert(be_u32(encode_frame(f)) == n);
        f.kind.lemma_id_round_trip();
        assert(data[4] == f.kind.id());
        assert(data.subrange(5, 4 + n) =~= f.payload);
        assert(encode_frame(f).subrange(5, 4 + n) =~= f.payload);
    }
}

impl Message {
    pub fn new(message_type: MessageType, payload: Vec<u8>) -> (m: Message)
        ensures
            m.message_type == message_type,
            m.payload == payload,
    {
        Message { message_type, payload }
    }

    pub fn keep_alive() -> (m: Message)
        ensures
            m@ == (Frame { kind: MessageType::KeepAlive, payload: Seq::empty() }),
    {
        Message { message_type: MessageType::KeepAlive, payload: Vec::new() }
    }

    /// The four zero bytes that stand for a keep-alive on the wire.
    pub fn serialize_keep_alive() -> (bytes: Vec<u8>)
        ensures
            bytes@ == seq![0u8, 0u8, 0u8, 0u8],
            bytes@ == encode_frame(Frame { kind: MessageType::KeepAlive, payload: Seq::empty() }),
    {
        let mut bytes: Vec<u8> = Vec::new();
        bytes.push(0);
        bytes.push(0);
        bytes.push(0);
        bytes.push(0);
        assert(bytes@ =~= seq![0u8, 0u8, 0u8, 0u8]);
        assert(u32_be(0) =~= seq![0u8, 0u8, 0u8, 0u8]);
        bytes
    }

    pub fn choke() -> (m: Message)
        ensures
            m@ == (Frame { kind: MessageType::Choke, payload: Seq::empty() }),
    {
        Message { message_type: MessageType::Choke, payload: Vec::new() }
    }

    pub fn unchoke() -> (m: Message)
        ensures
            m@ == (Frame { kind: MessageType::Unchoke, payload: Seq::empty() }),
    {
        Message { message_type: MessageType::Unchoke, payload: Vec::new() }
    }

    pub fn interested() -> (m: Message)
        ensures
            m@ == (Frame { kind: MessageType::Interested, payload: Seq::empty() }),
    {
        Message { message_type: MessageType::Interested, payload: Vec::new() }
    }

    pub fn not_interested() -> (m: Message)
        ensures
            m@ == (Frame { kind: MessageType::NotInterested, payload: Seq::empty() }),
    {
        Message { message_type: MessageType::NotInterested, payload: Vec::new() }
    }

    pub fn have(piece_index: PieceIndex) -> (m: Message)
        ensures
            m@ == (Frame { kind: MessageType::Have, payload: u32_be(piece_index) }),
    {
        let mut payload: Vec<u8> = Vec::new();
        put_u32(&mut payload, piece_index);
        assert(payload@ =~= u32_be(piece_index));
        Message { message_type: MessageType::Have, payload }
    }

    pub fn bitfield(bitfield: &[u8]) -> (m: Message)
        ensures
            m@ == (Frame { kind: MessageType::Bitfield, payload: bitfield@ }),
    {
        let mut payload: Vec<u8> = Vec::new();
        payload.extend_from_slice(bitfield);
        assert(payload@ =~= bitfield@);
        Message { message_type: MessageType::Bitfield, payload }
    }

    pub fn request(piece_index: PieceIndex, offset: BlockOffset, length: BlockLength) -> (m:
        Message)
        ensures
            m@ == (Frame {
                kind: MessageType::Request,
                payload: u32_be(piece_index) + u32_be(offset) + u32_be(length),
            }),
    {
        let mut payload: Vec<u8> = Vec::new();
        put_u32(&mut payload, piece_index);
        put_u32(&mut payload, offset);
        put_u32(&mut payload, length);
        assert(payload@ =~= u32_be(piece_index) + u32_be(offset) + u32_be(length));
        Message { message_type: MessageType::Request, payload }
    }

    pub fn piece(piece_index: PieceIndex, offset: BlockOffset, data: Vec<u8>) -> (m: Message)
        ensures
            m@ == (Frame {
                kind: MessageType::Piece,
                payload: u32_be(piece_index) + u32_be(offset) + data@,
            }),
    {
        let mut payload: Vec<u8> = Vec::new();
        put_u32(&mut payload, piece_index);
        put_u32(&mut payload, offset);
        payload.extend_from_slice(data.as_slice());
        assert(payload@ =~= u32_be(piece_index) + u32_be(offset) + data@);
        Message { message_type: MessageType::Piece, payload }
    }

    pub fn cancel(piece_index: PieceIndex, offset: BlockOffset, length: BlockLength) -> (m:
        Message)
        ensures
            m@ == (Frame {
                kind: MessageType::Cancel,
                payload: u32_be(piece_index) + u32_be(offset) + u32_be(length),
            }),
    {
        let mut payload: Vec<u8> = Vec::new();
        put_u32(&mut payload, piece_index);
        put_u32(&mut payload, offset);
        put_u32(&mut payload, length);
        assert(payload@ =~= u32_be(piece_index) + u32_be(offset) + u32_be(length));
        Message { message_type: MessageType::Cancel, payload }
    }

    /// The message as it goes on the wire.
    pub fn serialize(&self) -> (bytes: Vec<u8>)
        requires
            self.payload@.len() < u32::MAX,
        ensures
            bytes@ == encode_frame(self@),
    {
        let mut buffer: Vec<u8> = Vec::new();
        match self.message_type {
            MessageType::KeepAlive => {
                put_u32(&mut buffer, 0);
                assert(buffer@ =~= u32_be(0));
            },
            _ => {
                let total_length: usize = 1 + self.payload.len();
                put_u32(&mut buffer, total_length as u32);
                put_u8(&mut buffer, self.message_type.into());
                buffer.extend_from_slice(self.payload.as_slice());
                assert(buffer@ =~= encode_frame(self@));
            },
        }
        buffer
    }

    /// Reads the message that `data` begins with, accepting a length prefix
    /// of up to `MAX_MESSAGE_LENGTH`.
    pub fn deserialize(data: &[u8]) -> (r: Result<Message, TorrentError>)
        ensures
            decoded(r) == decode_frame(data@, MAX_MESSAGE_LENGTH as nat),
    {
        Message::deserialize_with_limit(data, MAX_MESSAGE_LENGTH)
    }

    /// Reads the message that `data` begins with, accepting a length prefix
    /// of up to `limit`.
    pub fn deserialize_with_limit(data: &[u8], limit: usize) -> (r: Result<Message, TorrentError>)
        ensures
            decoded(r) == decode_frame(data@, limit as nat),
    {
        if data.len() < 4 {
            return Err(TorrentError::Network(NetworkError::InvalidMessage));
        }
        let mut buffer = buffer_from(data);
        let message_length = get_u32(&mut buffer) as usize;
        if message_length == 0 {
            return Ok(Message::keep_alive());
        }
        if message_length > limit {
            return Err(
                TorrentError::Protocol(ProtocolError::MessageTooLarge { size: message_length }),
            );
        }
        if data.len() - 4 < message_length {
            return Err(TorrentError::Network(NetworkError::InvalidMessage));
        }
        let id = get_u8(&mut buffer);
        if id > 9 {
            return Err(
                TorrentError::Protocol(ProtocolError::InvalidMessageType { message_type: id }),
            );
        }
        let message_type = MessageType::from(id);
        let payload = buffer_prefix(&buffer, message_length - 1);
        assert(payload@ =~= data@.subrange(5, 4 + message_length));
        Ok(Message { message_type, payload })
    }
}

} // verus!
