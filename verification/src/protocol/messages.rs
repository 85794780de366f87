//! Reading, building and checking the payloads of messages.

use crate::common::error::NetworkError;
use crate::common::error::TorrentError;
use crate::common::types::BlockLength;
use crate::common::types::BlockOffset;
use crate::common::types::PieceIndex;
use crate::protocol::wire::be_u16;
use crate::protocol::wire::be_u32;
use crate::protocol::wire::buffer_from;
use crate::protocol::wire::buffer_len;
use crate::protocol::wire::buffer_prefix;
use crate::protocol::wire::get_u16;
use crate::protocol::wire::get_u32;
use crate::protocol::wire::put_u16;
use crate::protocol::wire::u16_be;
use crate::protocol::wire::u32_be;
use crate::protocol::Frame;
use crate::protocol::Message;
use crate::protocol::MessageType;
use crate::protocol::MAX_BLOCK_LENGTH;
use vstd::prelude::*;

verus! {

/// The error of every payload that cannot be read as asked.
pub open spec fn unreadable<T>() -> Result<T, TorrentError> {
    Err(TorrentError::Network(NetworkError::InvalidMessage))
}

/// What a Have message announces: the piece index of its four bytes.
pub open spec fn have_of(f: Frame) -> Result<PieceIndex, TorrentError> {
    if f.kind == MessageType::Have && f.payload.len() == 4 {
        Ok(be_u32(f.payload))
    } else {
        unreadable()
    }
}

/// The packed bits of a Bitfield message.
pub open spec fn bitfield_of(f: Frame) -> Result<Seq<u8>, TorrentError> {
    if f.kind == MessageType::Bitfield {
        Ok(f.payload)
    } else {
        unreadable()
    }
}

/// Piece, offset and length of a twelve-byte payload of the given kind.
pub open spec fn block_of(f: Frame, kind: MessageType) -> Result<
    (PieceIndex, BlockOffset, BlockLength),
    TorrentError,
> {
    if f.kind == kind && f.payload.len() == 12 {
        Ok((be_u32(f.payload), be_u32(f.payload.skip(4)), be_u32(f.payload.skip(8))))
    } else {
        unreadable()
    }
}

/// Piece, offset and block of a Piece message.
pub open spec fn piece_of(f: Frame) -> Result<(PieceIndex, BlockOffset, Seq<u8>), TorrentError> {
    if f.kind == MessageType::Piece && f.payload.len() >= 8 {
        Ok((be_u32(f.payload), be_u32(f.payload.skip(4)), f.payload.skip(8)))
    } else {
        unreadable()
    }
}

/// The port of a Port message.
pub open spec fn port_of(f: Frame) -> Result<u16, TorrentError> {
    if f.kind == MessageType::Port && f.payload.len() == 2 {
        Ok(be_u16(f.payload))
    } else {
        unreadable()
    }
}

/// A result that carries bytes, with the bytes replaced by what they hold.
pub open spec fn bytes_read(r: Result<Vec<u8>, TorrentError>) -> Result<Seq<u8>, TorrentError> {
    match r {
        Ok(v) => Ok(v@),
        Err(e) => Err(e),
    }
}

/// A result that carries a block, with the block replaced by what it holds.
pub open spec fn piece_read(r: Result<(PieceIndex, BlockOffset, Vec<u8>), TorrentError>) -> Result<
    (PieceIndex, BlockOffset, Seq<u8>),
    TorrentError,
> {
    match r {
        Ok((piece, offset, data)) => Ok((piece, offset, data@)),
        Err(e) => Err(e),
    }
}

/// Whether the payload has the length that the kind asks for.
pub open spec fn payload_fits(f: Frame) -> bool {
    match f.kind {
        MessageType::Choke
        | MessageType::Unchoke
        | MessageType::Interested
        | MessageType::NotInterested
        | MessageType::KeepAlive => f.payload.len() == 0,
        MessageType::Have => f.payload.len() == 4,
        MessageType::Bitfield => f.payload.len() > 0,
        MessageType::Request | MessageType::Cancel => f.payload.len() == 12,
        MessageType::Piece => f.payload.len() >= 8,
        MessageType::Port => f.payload.len() == 2,
    }
}

/// Whether the frame is a Request for a block that is not empty, not longer
/// than 16384 bytes and inside a piece of `max_piece_size` bytes.
pub open spec fn request_fits(f: Frame, max_piece_size: u32) -> bool {
    match block_of(f, MessageType::Request) {
        Ok((_, offset, length)) => offset + length <= max_piece_size && 0 < length
            <= MAX_BLOCK_LENGTH,
        Err(_) => false,
    }
}

/// Whether the frame is a Piece whose block lies inside a piece of
/// `max_piece_size` bytes.
pub open spec fn piece_fits(f: Frame, max_piece_size: u32) -> bool {
    match piece_of(f) {
        Ok((_, offset, data)) => offset + data.len() <= max_piece_size,
        Err(_) => false,
    }
}

/// Reading the payload of a message of a given kind.
pub trait MessageParser {
    /// What the message is.
    spec fn frame(&self) -> Frame;

    fn parse_have(&self) -> (r: Result<PieceIndex, TorrentError>)
        ensures
            r == have_of(self.frame()),
    ;

    fn parse_bitfield(&self) -> (r: Result<Vec<u8>, TorrentError>)
        ensures
            bytes_read(r) == bitfield_of(self.frame()),
    ;

    fn parse_request(&self) -> (r: Result<(PieceIndex, BlockOffset, BlockLength), TorrentError>)
        ensures
            r == block_of(self.frame(), MessageType::Request),
    ;

    fn parse_piece(&self) -> (r: Result<(PieceIndex, BlockOffset, Vec<u8>), TorrentError>)
        ensures
            piece_read(r) == piece_of(self.frame()),
    ;

    fn parse_cancel(&self) -> (r: Result<(PieceIndex, BlockOffset, BlockLength), TorrentError>)
        ensures
            r == block_of(self.frame(), MessageType::Cancel),
    ;

    fn parse_port(&self) -> (r: Result<u16, TorrentError>)
        ensures
            r == port_of(self.frame()),
    ;
}

/// Piece, offset and length from a payload of twelve bytes.
fn read_block(payload: &Vec<u8>) -> (r: (PieceIndex, BlockOffset, BlockLength))
    requires
        payload@.len() == 12,
    ensures
        r == (be_u32(payload@), be_u32(payload@.skip(4)), be_u32(payload@.skip(8))),
{
    let mut buffer = buffer_from(payload.as_slice());
    let piece_index = get_u32(&mut buffer);
    let offset = get_u32(&mut buffer);
    assert(payload@.skip(4).skip(4) =~= payload@.skip(8));
    let length = get_u32(&mut buffer);
    (piece_index, offset, length)
}

impl MessageParser for Message {
    open spec fn frame(&self) -> Frame {
        self@
    }

    fn parse_have(&self) -> (r: Result<PieceIndex, TorrentError>) {
        if self.message_type != MessageType::Have {
            return Err(TorrentError::Network(NetworkError::InvalidMessage));
        }
        if self.payload.len() != 4 {
            return Err(TorrentError::Network(NetworkError::InvalidMessage));
        }
        let mut buffer = buffer_from(self.payload.as_slice());
        Ok(get_u32(&mut buffer))
    }

    fn parse_bitfield(&self) -> (r: Result<Vec<u8>, TorrentError>) {
        if self.message_type != MessageType::Bitfield {
            return Err(TorrentError::Network(NetworkError::InvalidMessage));
        }
        Ok(self.payload.clone())
    }

    fn parse_request(&self) -> (r: Result<(PieceIndex, BlockOffset, BlockLength), TorrentError>) {
        if self.message_type != MessageType::Request {
            return Err(TorrentError::Network(NetworkError::InvalidMessage));
        }
        if self.payload.len() != 12 {
            return Err(TorrentError::Network(NetworkError::InvalidMessage));
        }
        Ok(read_block(&self.payload))
    }

    fn parse_piece(&self) -> (r: Result<(PieceIndex, BlockOffset, Vec<u8>), TorrentError>) {
        if self.message_type != MessageType::Piece {
            return Err(TorrentError::Network(NetworkError::InvalidMessage));
        }
        if self.payload.len() < 8 {
            return Err(TorrentError::Network(NetworkError::InvalidMessage));
        }
        let mut buffer = buffer_from(self.payload.as_slice());
        let piece_index = get_u32(&mut buffer);
        let offset = get_u32(&mut buffer);
        let remaining = buffer_len(&buffer);
        let data = buffer_prefix(&buffer, remaining);
        assert(data@ =~= self.payload@.skip(8));
        Ok((piece_index, offset, data))
    }

    fn parse_cancel(&self) -> (r: Result<(PieceIndex, BlockOffset, BlockLength), TorrentError>) {
        if self.message_type != MessageType::Cancel {
            return Err(TorrentError::Network(NetworkError::InvalidMessage));
        }
        if self.payload.len() != 12 {
            return Err(TorrentError::Network(NetworkError::InvalidMessage));
        }
        Ok(read_block(&self.payload))
    }

    fn parse_port(&self) -> (r: Result<u16, TorrentError>) {
        if self.message_type != MessageType::Port {
            return Err(TorrentError::Network(NetworkError::InvalidMessage));
        }
        if self.payload.len() != 2 {
            return Err(TorrentError::Network(NetworkError::InvalidMessage));
        }
        let mut buffer = buffer_from(self.payload.as_slice());
        Ok(get_u16(&mut buffer))
    }
}

/// Building a message of a given kind.
pub trait MessageBuilder {
    fn build_have(piece_index: PieceIndex) -> (m: Message)
        ensures
            m@ == (Frame { kind: MessageType::Have, payload: u32_be(piece_index) }),
    ;

    fn build_bitfield(bitfield: &[u8]) -> (m: Message)
        ensures
            m@ == (Frame { kind: MessageType::Bitfield, payload: bitfield@ }),
    ;

    fn build_request(piece_index: PieceIndex, offset: BlockOffset, length: BlockLength) -> (m:
        Message)
        ensures
            m@ == (Frame {
                kind: MessageType::Request,
                payload: u32_be(piece_index) + u32_be(offset) + u32_be(length),
            }),
    ;

    fn build_piece(piece_index: PieceIndex, offset: BlockOffset, data: Vec<u8>) -> (m: Message)
        ensures
            m@ == (Frame {
                kind: MessageType::Piece,
                payload: u32_be(piece_index) + u32_be(offset) + data@,
            }),
    ;

    fn build_cancel(piece_index: PieceIndex, offset: BlockOffset, length: BlockLength) -> (m:
        Message)
        ensures
            m@ == (Frame {
                kind: MessageType::Cancel,
                payload: u32_be(piece_index) + u32_be(offset) + u32_be(length),
            }),
    ;

    fn build_port(port: u16) -> (m: Message)
        ensures
            m@ == (Frame { kind: MessageType::Port, payload: u16_be(port) }),
    ;
}

impl MessageBuilder for Message {
    fn build_have(piece_index: PieceIndex) -> (m: Message) {
        Message::have(piece_index)
    }

    fn build_bitfield(bitfield: &[u8]) -> (m: Message) {
        Message::bitfield(bitfield)
    }

    fn build_request(piece_index: PieceIndex, offset: BlockOffset, length: BlockLength) -> (m:
        Message) {
        Message::request(piece_index, offset, length)
    }

    fn build_piece(piece_index: PieceIndex, offset: BlockOffset, data: Vec<u8>) -> (m: Message) {
        Message::piece(piece_index, offset, data)
    }

    fn build_cancel(piece_index: PieceIndex, offset: BlockOffset, length: BlockLength) -> (m:
        Message) {
        Message::cancel(piece_index, offset, length)
    }

    fn build_port(port: u16) -> (m: Message) {
        let mut payload: Vec<u8> = Vec::new();
        put_u16(&mut payload, port);
        assert(payload@ =~= u16_be(port));
        Message::new(MessageType::Port, payload)
    }
}

/// Checking a message against what its kind allows.
pub trait MessageValidator {
    /// What the message is.
    spec fn checked(&self) -> Frame;

    fn is_valid(&self) -> (ok: bool)
        ensures
            ok == payload_fits(self.checked()),
    ;

    fn validate_request(&self, max_piece_size: u32) -> (ok: bool)
        ensures
            ok == request_fits(self.checked(), max_piece_size),
    ;

    fn validate_piece(&self, max_piece_size: u32) -> (ok: bool)
        ensures
            ok == piece_fits(self.checked(), max_piece_size),
    ;
}

impl MessageValidator for Message {
    open spec fn checked(&self) -> Frame {
        self@
    }

    fn is_valid(&self) -> (ok: bool) {
        match self.message_type {
            MessageType::Choke
            | MessageType::Unchoke
            | MessageType::Interested
            | MessageType::NotInterested => self.payload.len() == 0,
            MessageType::Have => self.payload.len() == 4,
            MessageType::Bitfield => self.payload.len() > 0,
            MessageType::Request | MessageType::Cancel => self.payload.len() == 12,
            MessageType::Piece => self.payload.len() >= 8,
            MessageType::Port => self.payload.len() == 2,
            MessageType::KeepAlive => self.payload.len() == 0,
        }
    }

    fn validate_request(&self, max_piece_size: u32) -> (ok: bool) {
        if self.message_type != MessageType::Request {
            return false;
        }
        match self.parse_request() {
            Ok((_piece_index, offset, length)) => {
                offset as u64 + length as u64 <= max_piece_size as u64 && length > 0 && length
                    <= MAX_BLOCK_LENGTH
            },
            Err(_) => false,
        }
    }

    fn validate_piece(&self, max_piece_size: u32) -> (ok: bool) {
        if self.message_type != MessageType::Piece {
            return false;
        }
        match self.parse_piece() {
            Ok((_piece_index, offset, data)) => {
                data.len() <= u32::MAX as usize && offset as u64 + data.len() as u64
                    <= max_piece_size as u64
            },
            Err(_) => false,
        }
    }
}

/// What the builders write, the parsers read back.
pub proof fn lemma_payload_round_trip(
    piece_index: PieceIndex,
    offset: BlockOffset,
    length: BlockLength,
    port: u16,
    data: Seq<u8>,
)
    ensures
        have_of(Frame { kind: MessageType::Have, payload: u32_be(piece_index) }) == Ok::<
            PieceIndex,
            TorrentError,
        >(piece_index),
        block_of(
            Frame {
                kind: MessageType::Request,
                payload: u32_be(piece_index) + u32_be(offset) + u32_be(length),
            },
            MessageType::Request,
        ) == Ok::<(PieceIndex, BlockOffset, BlockLength), TorrentError>(
            (piece_index, offset, length),
        ),
        block_of(
            Frame {
                kind: MessageType::Cancel,
                payload: u32_be(piece_index) + u32_be(offset) + u32_be(length),
            },
            MessageType::Cancel,
        ) == Ok::<(PieceIndex, BlockOffset, BlockLength), TorrentError>(
            (piece_index, offset, length),
        ),
        piece_of(
            Frame { kind: MessageType::Piece, payload: u32_be(piece_index) + u32_be(offset) + data },
        ) == Ok::<(PieceIndex, BlockOffset, Seq<u8>), TorrentError>((piece_index, offset, data)),
        port_of(Frame { kind: MessageType::Port, payload: u16_be(port) }) == Ok::<
            u16,
            TorrentError,
        >(port),
{
    crate::protocol::wire::lemma_u32_be_round_trip(piece_index);
    crate::protocol::wire::lemma_u32_be_round_trip(offset);
    crate::protocol::wire::lemma_u32_be_round_trip(length);
    crate::protocol::wire::lemma_u16_be_round_trip(port);
    let twelve = u32_be(piece_index) + u32_be(offset) + u32_be(length);
    assert(be_u32(twelve) == piece_index);
    assert(twelve.skip(4) =~= u32_be(offset) + u32_be(length));
    assert(be_u32(twelve.skip(4)) == offset);
    assert(twelve.skip(8) =~= u32_be(length));
    let block = u32_be(piece_index) + u32_be(offset) + data;
    assert(be_u32(block) == piece_index);
    assert(block.skip(4) =~= u32_be(offset) + data);
    assert(be_u32(block.skip(4)) == offset);
    assert(block.skip(8) =~= data);
}

} // verus!
