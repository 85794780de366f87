//! Error kinds, grouped by the component that raises them.

use crate::common::text::decimal;
use crate::common::text::decimal_digits;
use vstd::prelude::*;
use vstd::std_specs::convert::FromSpecImpl;
use vstd::string::StringExecFns;

verus! {

/// Failures of the transport and of message framing.
#[derive(Debug, Clone, PartialEq, Eq)]
pub enum NetworkError {
    ConnectionFailed,
    Timeout,
    InvalidMessage,
    PeerDisconnected,
    AddressResolution,
    BindFailed,
}

/// Failures of the file layout and of piece storage.
#[derive(Debug, Clone, PartialEq, Eq)]
pub enum FileError {
    NotFound { path: String },
    PermissionDenied { path: String },
    InsufficientSpace,
    Corruption,
    InvalidFormat,
    PieceVerificationFailed,
    /// No body in memory can make room for another.
    CacheFull,
}

/// Violations of the peer wire protocol.
#[derive(Debug, Clone, PartialEq, Eq)]
pub enum ProtocolError {
    InvalidHandshake,
    UnsupportedVersion,
    InvalidMessageType { message_type: u8 },
    MessageTooLarge { size: usize },
    InvalidPieceIndex { index: u32 },
    InvalidBlockRequest,
    InvalidBitfield,
}

/// Failures of peer bookkeeping and policy.
#[derive(Debug, Clone, PartialEq, Eq)]
pub enum PeerError {
    NotFound { peer_id: String },
    Choked,
    NotInterested,
    InvalidStateTransition,
    HandshakeFailed,
    Timeout,
    RegistryFull,
}

/// Rejections of a torrent descriptor or of a configuration.
#[derive(Debug, Clone, PartialEq, Eq)]
pub enum ValidationError {
    InvalidHash,
    InvalidTorrentInfo,
    InvalidPieceSize,
    MissingField { field: String },
    InvalidConfig { message: String },
}

/// Any error that the library reports.
#[derive(Debug, Clone, PartialEq, Eq)]
pub enum TorrentError {
    Network(NetworkError),
    File(FileError),
    Protocol(ProtocolError),
    Peer(PeerError),
    Validation(ValidationError),
    /// An input or output failure, by its description.
    Io(String),
    /// A failure to encode or decode a descriptor, by its description.
    Serialization(String),
}

impl From<NetworkError> for TorrentError {
    fn from(e: NetworkError) -> (r: TorrentError) {
        TorrentError::Network(e)
    }
}

impl FromSpecImpl<NetworkError> for TorrentError {
    open spec fn obeys_from_spec() -> bool {
        true
    }

    open spec fn from_spec(e: NetworkError) -> TorrentError {
        TorrentError::Network(e)
    }
}

impl From<FileError> for TorrentError {
    fn from(e: FileError) -> (r: TorrentError) {
        TorrentError::File(e)
    }
}

impl FromSpecImpl<FileError> for TorrentError {
    open spec fn obeys_from_spec() -> bool {
        true
    }

    open spec fn from_spec(e: FileError) -> TorrentError {
        TorrentError::File(e)
    }
}

impl From<ProtocolError> for TorrentError {
    fn from(e: ProtocolError) -> (r: TorrentError) {
        TorrentError::Protocol(e)
    }
}

impl FromSpecImpl<ProtocolError> for TorrentError {
    open spec fn obeys_from_spec() -> bool {
        true
    }

    open spec fn from_spec(e: ProtocolError) -> TorrentError {
        TorrentError::Protocol(e)
    }
}

impl From<PeerError> for TorrentError {
    fn from(e: PeerError) -> (r: TorrentError) {
        TorrentError::Peer(e)
    }
}

impl FromSpecImpl<PeerError> for TorrentError {
    open spec fn obeys_from_spec() -> bool {
        true
    }

    open spec fn from_spec(e: PeerError) -> TorrentError {
        TorrentError::Peer(e)
    }
}

impl From<ValidationError> for TorrentError {
    fn from(e: ValidationError) -> (r: TorrentError) {
        TorrentError::Validation(e)
    }
}

impl FromSpecImpl<ValidationError> for TorrentError {
    open spec fn obeys_from_spec() -> bool {
        true
    }

    open spec fn from_spec(e: ValidationError) -> TorrentError {
        TorrentError::Validation(e)
    }
}

impl NetworkError {
    /// The error in words.
    pub open spec fn words(self) -> Seq<char> {
        match self {
            NetworkError::ConnectionFailed => "Connection failed"@,
            NetworkError::Timeout => "Connection timeout"@,
            NetworkError::InvalidMessage => "Invalid message format"@,
            NetworkError::PeerDisconnected => "Peer disconnected"@,
            NetworkError::AddressResolution => "Address resolution failed"@,
            NetworkError::BindFailed => "Network bind failed"@,
        }
    }

    /// The error in words.
    pub fn message(&self) -> (text: String)
        ensures
            text@ == self.words(),
    {
        match self {
            NetworkError::ConnectionFailed => "Connection failed".to_owned(),
            NetworkError::Timeout => "Connection timeout".to_owned(),
            NetworkError::InvalidMessage => "Invalid message format".to_owned(),
            NetworkError::PeerDisconnected => "Peer disconnected".to_owned(),
            NetworkError::AddressResolution => "Address resolution failed".to_owned(),
            NetworkError::BindFailed => "Network bind failed".to_owned(),
        }
    }
}

impl FileError {
    /// The error in words.
    pub open spec fn words(self) -> Seq<char> {
        match self {
            FileError::NotFound { path } => "File not found: "@ + path@,
            FileError::PermissionDenied { path } => "Permission denied: "@ + path@,
            FileError::InsufficientSpace => "Disk space insufficient"@,
            FileError::Corruption => "File corruption detected"@,
            FileError::InvalidFormat => "Invalid file format"@,
            FileError::PieceVerificationFailed => "Piece verification failed"@,
            FileError::CacheFull => "Piece cache is full"@,
        }
    }

    /// The error in words.
    pub fn message(&self) -> (text: String)
        ensures
            text@ == self.words(),
    {
        match self {
            FileError::NotFound { path } => "File not found: ".to_owned().concat(path.as_str()),
            FileError::PermissionDenied { path } => "Permission denied: ".to_owned().concat(
                path.as_str(),
            ),
            FileError::InsufficientSpace => "Disk space insufficient".to_owned(),
            FileError::Corruption => "File corruption detected".to_owned(),
            FileError::InvalidFormat => "Invalid file format".to_owned(),
            FileError::PieceVerificationFailed => "Piece verification failed".to_owned(),
            FileError::CacheFull => "Piece cache is full".to_owned(),
        }
    }
}

impl ProtocolError {
    /// The error in words.
    pub open spec fn words(self) -> Seq<char> {
        match self {
            ProtocolError::InvalidHandshake => "Invalid handshake"@,
            ProtocolError::UnsupportedVersion => "Unsupported protocol version"@,
            ProtocolError::InvalidMessageType { message_type } => "Invalid message type: "@
                + decimal_digits(message_type as nat),
            ProtocolError::MessageTooLarge { size } => "Message too large: "@ + decimal_digits(
                size as nat,
            ) + " bytes"@,
            ProtocolError::InvalidPieceIndex { index } => "Invalid piece index: "@
                + decimal_digits(index as nat),
            ProtocolError::InvalidBlockRequest => "Invalid block request"@,
            ProtocolError::InvalidBitfield => "Invalid bitfield"@,
        }
    }

    /// The error in words.
    pub fn message(&self) -> (text: String)
        ensures
            text@ == self.words(),
    {
        match self {
            ProtocolError::InvalidHandshake => "Invalid handshake".to_owned(),
            ProtocolError::UnsupportedVersion => "Unsupported protocol version".to_owned(),
            ProtocolError::InvalidMessageType { message_type } => "Invalid message type: ".to_owned().concat(
                decimal(*message_type as u64).as_str(),
            ),
            ProtocolError::MessageTooLarge { size } => "Message too large: ".to_owned().concat(
                decimal(*size as u64).as_str(),
            ).concat(" bytes"),
            ProtocolError::InvalidPieceIndex { index } => "Invalid piece index: ".to_owned().concat(
                decimal(*index as u64).as_str(),
            ),
            ProtocolError::InvalidBlockRequest => "Invalid block request".to_owned(),
            ProtocolError::InvalidBitfield => "Invalid bitfield".to_owned(),
        }
    }
}

impl PeerError {
    /// The error in words.
    pub open spec fn words(self) -> Seq<char> {
        match self {
            PeerError::NotFound { peer_id } => "Peer not found: "@ + peer_id@,
            PeerError::Choked => "Peer is choked"@,
            PeerError::NotInterested => "Peer is not interested"@,
            PeerError::InvalidStateTransition => "Invalid peer state transition"@,
            PeerError::HandshakeFailed => "Peer handshake failed"@,
            PeerError::Timeout => "Peer timeout"@,
            PeerError::RegistryFull => "Peer registry is full"@,
        }
    }

    /// The error in words.
    pub fn message(&self) -> (text: String)
        ensures
            text@ == self.words(),
    {
        match self {
            PeerError::NotFound { peer_id } => "Peer not found: ".to_owned().concat(
                peer_id.as_str(),
            ),
            PeerError::Choked => "Peer is choked".to_owned(),
            PeerError::NotInterested => "Peer is not interested".to_owned(),
            PeerError::InvalidStateTransition => "Invalid peer state transition".to_owned(),
            PeerError::HandshakeFailed => "Peer handshake failed".to_owned(),
            PeerError::Timeout => "Peer timeout".to_owned(),
            PeerError::RegistryFull => "Peer registry is full".to_owned(),
        }
    }
}

impl ValidationError {
    /// The error in words.
    pub open spec fn words(self) -> Seq<char> {
        match self {
            ValidationError::InvalidHash => "Invalid hash"@,
            ValidationError::InvalidTorrentInfo => "Invalid torrent info"@,
            ValidationError::InvalidPieceSize => "Invalid piece size"@,
            ValidationError::MissingField { field } => "Missing required field: "@ + field@,
            ValidationError::InvalidConfig { message } => "Invalid configuration: "@ + message@,
        }
    }

    /// The error in words.
    pub fn message(&self) -> (text: String)
        ensures
            text@ == self.words(),
    {
        match self {
            ValidationError::InvalidHash => "Invalid hash".to_owned(),
            ValidationError::InvalidTorrentInfo => "Invalid torrent info".to_owned(),
            ValidationError::InvalidPieceSize => "Invalid piece size".to_owned(),
            ValidationError::MissingField { field } => "Missing required field: ".to_owned().concat(
                field.as_str(),
            ),
            ValidationError::InvalidConfig { message } => "Invalid configuration: ".to_owned().concat(
                message.as_str(),
            ),
        }
    }
}

impl TorrentError {
    /// The error in words: its group, and the words of the error itself.
    pub open spec fn words(self) -> Seq<char> {
        match self {
            TorrentError::Network(e) => "Network error: "@ + e.words(),
            TorrentError::File(e) => "File error: "@ + e.words(),
            TorrentError::Protocol(e) => "Protocol error: "@ + e.words(),
            TorrentError::Peer(e) => "Peer error: "@ + e.words(),
            TorrentError::Validation(e) => "Validation error: "@ + e.words(),
            TorrentError::Io(text) => "IO error: "@ + text@,
            TorrentError::Serialization(text) => "Serialization error: "@ + text@,
        }
    }

    /// The error in words.
    pub fn message(&self) -> (text: String)
        ensures
            text@ == self.words(),
    {
        match self {
            TorrentError::Network(e) => "Network error: ".to_owned().concat(e.message().as_str()),
            TorrentError::File(e) => "File error: ".to_owned().concat(e.message().as_str()),
            TorrentError::Protocol(e) => "Protocol error: ".to_owned().concat(
                e.message().as_str(),
            ),
            TorrentError::Peer(e) => "Peer error: ".to_owned().concat(e.message().as_str()),
            TorrentError::Validation(e) => "Validation error: ".to_owned().concat(
                e.message().as_str(),
            ),
            TorrentError::Io(text) => "IO error: ".to_owned().concat(text.as_str()),
            TorrentError::Serialization(text) => "Serialization error: ".to_owned().concat(
                text.as_str(),
            ),
        }
    }
}

} // verus!
