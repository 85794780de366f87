//! The 68-byte handshake that opens a session.

use crate::common::error::ProtocolError;
use crate::common::error::TorrentError;
use crate::common::types::same_bytes;
use crate::common::types::PeerId;
use crate::protocol::wire::buffer_from;
use crate::protocol::wire::get_array;
use crate::protocol::wire::get_u8;
use crate::protocol::wire::put_u8;
use crate::protocol::PROTOCOL_IDENTIFIER;
use vstd::prelude::*;

verus! {

/// The number of bytes of a handshake on the wire.
pub const HANDSHAKE_LENGTH: usize = 68;

/// The first message of either side: protocol identifier, reserved bits, the
/// torrent spoken of and the sender's identity.
#[derive(Debug, Clone, Copy)]
pub struct Handshake {
    pub protocol_identifier: [u8; 19],
    pub reserved: [u8; 8],
    pub info_hash: crate::common::types::Hash,
    pub peer_id: PeerId,
}

/// Why `data` is no handshake, if it is none: a wrong length or a wrong
/// identifier length is an invalid handshake, another identifier an
/// unsupported protocol.
pub open spec fn handshake_fault(data: Seq<u8>) -> Option<TorrentError> {
    if data.len() != 68 || data[0] != 19 {
        Some(TorrentError::Protocol(ProtocolError::InvalidHandshake))
    } else if data.subrange(1, 20) != PROTOCOL_IDENTIFIER@ {
        Some(TorrentError::Protocol(ProtocolError::UnsupportedVersion))
    } else {
        None
    }
}

impl Handshake {
    /// The handshake on the wire: the identifier's length, the identifier,
    /// the reserved bytes, the info hash and the peer id.
    pub open spec fn encoding(&self) -> Seq<u8> {
        seq![19u8] + self.protocol_identifier@ + self.reserved@ + self.info_hash@ + self.peer_id@
    }

    /// Whether this is what `data` spells once its identifier is accepted.
    pub open spec fn read_from(&self, data: Seq<u8>) -> bool {
        &&& self.protocol_identifier@ == data.subrange(1, 20)
        &&& self.reserved@ == data.subrange(20, 28)
        &&& self.info_hash@ == data.subrange(28, 48)
        &&& self.peer_id@ == data.subrange(48, 68)
    }

    /// Our handshake for a torrent: the standard identifier and no extension
    /// bits.
    pub fn new(info_hash: crate::common::types::Hash, peer_id: PeerId) -> (h: Handshake)
        ensures
            h.protocol_identifier@ == PROTOCOL_IDENTIFIER@,
            h.reserved@ == Seq::new(8, |i: int| 0u8),
            h.info_hash == info_hash,
            h.peer_id == peer_id,
    {
        let reserved = [0u8; 8];
        assert(reserved@ =~= Seq::new(8, |i: int| 0u8));
        Handshake { protocol_identifier: PROTOCOL_IDENTIFIER, reserved, info_hash, peer_id }
    }

    pub fn serialize(&self) -> (bytes: Vec<u8>)
        ensures
            bytes@ == self.encoding(),
            bytes@.len() == 68,
    {
        let mut buffer: Vec<u8> = Vec::new();
        put_u8(&mut buffer, 19);
        buffer.extend_from_slice(self.protocol_identifier.as_slice());
        buffer.extend_from_slice(self.reserved.as_slice());
        buffer.extend_from_slice(self.info_hash.as_slice());
        buffer.extend_from_slice(self.peer_id.as_slice());
        assert(buffer@ =~= self.encoding());
        buffer
    }

    /// Reads a handshake from exactly 68 bytes.
    pub fn deserialize(data: &[u8]) -> (r: Result<Handshake, TorrentError>)
        ensures
            match r {
                Ok(h) => handshake_fault(data@) is None && h.read_from(data@),
                Err(e) => handshake_fault(data@) == Some(e),
            },
    {
        if data.len() != 68 {
            return Err(TorrentError::Protocol(ProtocolError::InvalidHandshake));
        }
        let mut buffer = buffer_from(data);
        let protocol_length = get_u8(&mut buffer);
        if protocol_length != 19 {
            return Err(TorrentError::Protocol(ProtocolError::InvalidHandshake));
        }
        let protocol_identifier: [u8; 19] = get_array::<19>(&mut buffer);
        assert(protocol_identifier@ =~= data@.subrange(1, 20));
        if !same_bytes(protocol_identifier.as_slice(), PROTOCOL_IDENTIFIER.as_slice()) {
            return Err(TorrentError::Protocol(ProtocolError::UnsupportedVersion));
        }
        let reserved: [u8; 8] = get_array::<8>(&mut buffer);
        assert(reserved@ =~= data@.subrange(20, 28));
        let info_hash: [u8; 20] = get_array::<20>(&mut buffer);
        assert(info_hash@ =~= data@.subrange(28, 48));
        let peer_id: [u8; 20] = get_array::<20>(&mut buffer);
        assert(peer_id@ =~= data@.subrange(48, 68));
        Ok(Handshake { protocol_identifier, reserved, info_hash, peer_id })
    }
}

/// A handshake with the standard identifier is read back from its encoding,
/// field by field.
pub proof fn lemma_handshake_round_trip(h: Handshake)
    requires
        h.protocol_identifier@ == PROTOCOL_IDENTIFIER@,
    ensures
        h.encoding().len() == 68,
        handshake_fault(h.encoding()) is None,
        h.read_from(h.encoding()),
        forall|g: Handshake| g.read_from(h.encoding()) ==> g.encoding() == h.encoding(),
{
    let data = h.encoding();
    assert(data.subrange(1, 20) =~= h.protocol_identifier@);
    assert(data.subrange(20, 28) =~= h.reserved@);
    assert(data.subrange(28, 48) =~= h.info_hash@);
    assert(data.subrange(48, 68) =~= h.peer_id@);
    assert forall|g: Handshake| g.read_from(data) implies g.encoding() == data by {
        assert(g.encoding() =~= data);
    }
}

} // verus!
